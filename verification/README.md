# teelens

Preflight checks for confidential Kubernetes workloads, with the decision
logic proved correct by Verus.

## Layout

- `src/` — the verified library.
  - `text.rs`: string helpers (ordering, search, decimal text, `u32` parsing, joining).
  - `sorted_map.rs`: a string-keyed map kept in ascending key order.
  - `model.rs`: Pods, node capabilities, inventories and the Kata configuration.
  - `accel.rs`: accelerator requests of a Pod, summed per resource.
  - `report.rs`: the `check` report (hypervisor selection, findings, readiness).
  - `plan.rs`: placement planning across an inventory and the placement manifest.
  - `dra.rs`: DNS labels, `--device-class` parsing, the DRA `ResourceClaimTemplate`.
  - `yaml.rs`: a YAML tree with insertion-ordered mappings.
  - `patch.rs`: patching a Pod to consume the claim, and the DRA bundle.
  - `error.rs`: the library's errors and their messages.
  - `laws.rs`: properties that span several functions.
- `tests/` — tests on concrete values.
- `app/` — the command-line program: argument parsing, reading files,
  parsing JSON, YAML and TOML into the library's types, printing results.
