use teelens::model::{Container, KataConfig, Metadata, NodeCapabilities, NodeInventory, Pod, PodSpec, Resources, Tee};
use teelens::plan::{compile_placement, plan};
use teelens::report::{check, selected_hypervisor, Readiness, Severity};
use teelens::sorted_map::SortedMap;

fn qemu_config() -> KataConfig {
    KataConfig { hypervisor_sections: Some(vec!["qemu".to_string()]) }
}

fn map_of(entries: &[(&str, &str)]) -> SortedMap<String> {
    let mut m = SortedMap::new();
    for (k, v) in entries {
        m.insert(k.to_string(), v.to_string());
    }
    m
}

fn node(name: &str, tee: Vec<Tee>, gpus: u32) -> NodeCapabilities {
    let mut accelerators = SortedMap::new();
    accelerators.insert("nvidia.com/gpu".to_string(), gpus);
    NodeCapabilities {
        name: name.to_string(),
        api_version: "teelens.io/node-capabilities/v1".to_string(),
        architecture: "x86_64".to_string(),
        kvm: true,
        tee,
        hypervisors: vec!["qemu".to_string()],
        accelerators,
        wasm_runtimes: vec!["wasmtime".to_string()],
    }
}

fn metadata(name: Option<&str>, annotations: &[(&str, &str)]) -> Option<Metadata> {
    Some(Metadata { name: name.map(|n| n.to_string()), namespace: None, annotations: map_of(annotations) })
}

fn container(name: Option<&str>, requests: &[(&str, &str)]) -> Container {
    Container {
        name: name.map(|n| n.to_string()),
        resources: Some(Resources { requests: Some(map_of(requests)) }),
    }
}

/// metadata: {name: protected}; spec.containers: [{resources.requests: {nvidia.com/gpu: '1'}}]
fn protected_gpu_pod(count: &str) -> Pod {
    Pod {
        metadata: metadata(Some("protected"), &[]),
        spec: Some(PodSpec {
            runtime_class_name: None,
            containers: vec![container(None, &[("nvidia.com/gpu", count)])],
        }),
    }
}

#[test]
fn confidential_gpu_workload_rejects_untrusted_node() {
    let pod = protected_gpu_pod("1");
    let inventory = NodeInventory {
        api_version: "teelens.io/node-inventory/v1".to_string(),
        nodes: vec![node("snp", vec![Tee::SevSnp], 1), node("plain", vec![], 1)],
    };
    let report = plan(pod, "kata-qemu-coco", inventory, qemu_config());
    assert_eq!(report.eligible_nodes, vec!["snp"]);
    assert_eq!(report.rejected_nodes[0].name, "plain");
}

#[test]
fn wasm_workload_does_not_require_kvm() {
    let pod = Pod { metadata: metadata(None, &[("teelens.io/wasm-runtime", "wasmtime")]), spec: None };
    let mut wasm = node("wasm", vec![], 0);
    wasm.kvm = false;
    let inventory = NodeInventory { api_version: "teelens.io/node-inventory/v1".to_string(), nodes: vec![wasm] };
    let report = plan(pod, "wasmtime", inventory, qemu_config());
    assert_eq!(report.eligible_nodes, vec!["wasm"]);
}

#[test]
fn plan_reports_rejection_reasons_in_order() {
    let pod = protected_gpu_pod("2");
    let mut bare = node("bare", vec![], 1);
    bare.kvm = false;
    bare.hypervisors = vec!["clh".to_string()];
    let inventory = NodeInventory { api_version: "teelens.io/node-inventory/v0".to_string(), nodes: vec![bare] };
    let report = plan(pod, "kata-qemu-coco", inventory, qemu_config());
    assert!(report.eligible_nodes.is_empty());
    assert_eq!(report.rejected_nodes.len(), 2);
    assert_eq!(report.rejected_nodes[0].name, "bare");
    assert_eq!(
        report.rejected_nodes[0].reasons,
        vec![
            "KVM is unavailable",
            "selected Kata hypervisor is unavailable",
            "no verified confidential-computing path",
            "requires 2 nvidia.com/gpu, node has 1",
        ]
    );
    assert_eq!(report.rejected_nodes[1].name, "inventory");
    assert_eq!(report.rejected_nodes[1].reasons, vec!["unknown inventory API version"]);
    assert_eq!(report.execution_target, "vmm:qemu");
    assert_eq!(report.api_version, "teelens.io/plan/v1");
    assert_eq!(report.required_accelerators.len(), 1);
    assert_eq!(report.required_accelerators.key_at(0), "nvidia.com/gpu");
    assert_eq!(*report.required_accelerators.value_at(0), 2);
}

#[test]
fn wasm_workload_with_confidential_class_is_not_modeled() {
    let pod = Pod { metadata: metadata(None, &[("teelens.io/wasm-runtime", "wamr")]), spec: None };
    let inventory = NodeInventory {
        api_version: "teelens.io/node-inventory/v1".to_string(),
        nodes: vec![node("n", vec![Tee::Tdx], 0)],
    };
    let report = plan(pod, "kata-coco-wasm", inventory, KataConfig { hypervisor_sections: None });
    assert_eq!(report.execution_target, "wasm:wamr");
    assert_eq!(
        report.rejected_nodes[0].reasons,
        vec!["WASM runtime wamr is unavailable", "confidential WASM execution is not yet modeled"]
    );
}

#[test]
fn unknown_hypervisor_target_without_kata_table() {
    let pod = Pod { metadata: None, spec: None };
    let inventory = NodeInventory { api_version: "teelens.io/node-inventory/v1".to_string(), nodes: vec![] };
    let report = plan(pod, "kata", inventory, KataConfig { hypervisor_sections: None });
    assert_eq!(report.execution_target, "vmm:unknown");
    assert!(report.rejected_nodes.is_empty());
}

#[test]
fn hypervisor_selection_prefers_qemu_then_clh() {
    let both = KataConfig { hypervisor_sections: Some(vec!["clh".to_string(), "qemu".to_string()]) };
    assert_eq!(selected_hypervisor(&both).as_deref(), Some("qemu"));
    let ch = KataConfig { hypervisor_sections: Some(vec!["cloud-hypervisor".to_string(), "clh".to_string()]) };
    assert_eq!(selected_hypervisor(&ch).as_deref(), Some("clh"));
    let other = KataConfig { hypervisor_sections: Some(vec!["firecracker".to_string()]) };
    assert_eq!(selected_hypervisor(&other), None);
}

#[test]
fn compile_records_attestation_policy_and_migration_posture() {
    let mut pod = protected_gpu_pod("1");
    pod.metadata = metadata(Some("protected"), &[("teelens.io/attestation-policy", "kbs:///default/policy")]);
    let inventory = NodeInventory {
        api_version: "teelens.io/node-inventory/v1".to_string(),
        nodes: vec![node("snp-gpu-1", vec![Tee::SevSnp], 1), node("standard-1", vec![], 1)],
    };
    let manifest = compile_placement(pod, "kata-qemu-coco", inventory, qemu_config());
    assert_eq!(manifest.api_version, "teelens.io/placement-manifest/v1");
    assert_eq!(manifest.execution_target, "vmm:qemu");
    assert_eq!(manifest.eligible_nodes, vec!["snp-gpu-1"]);
    assert_eq!(manifest.attestation_policy.as_deref(), Some("kbs:///default/policy"));
    assert_eq!(manifest.migration, "deny-until-validated");
}

#[test]
fn check_supports_qemu_with_tee() {
    let mut pod = protected_gpu_pod("1");
    pod.spec.as_mut().unwrap().runtime_class_name = Some("kata-qemu-coco".to_string());
    let node = node("snp", vec![Tee::SevSnp, Tee::Tdx], 1);
    let report = check(pod, "kata-qemu-coco".to_string(), node, qemu_config());
    assert_eq!(report.api_version, "teelens.io/report/v1");
    assert_eq!(report.workload.name, "protected");
    assert_eq!(report.workload.namespace, "default");
    assert_eq!(report.confidential_readiness, Readiness::Supported);
    assert_eq!(report.migration_readiness, Readiness::Unknown);
    assert_eq!(report.findings.len(), 1);
    assert_eq!(report.findings[0].severity, Severity::Info);
    assert_eq!(report.findings[0].code, "tee-available");
    assert_eq!(report.findings[0].message, "Node supports confidential execution via [SevSnp, Tdx].");
}

#[test]
fn check_blocks_without_kvm_and_reports_each_finding() {
    let pod = Pod { metadata: None, spec: None };
    let mut n = node("plain", vec![], 0);
    n.kvm = false;
    n.api_version = "v0".to_string();
    n.hypervisors = vec![];
    let report = check(pod, "kata".to_string(), n, KataConfig { hypervisor_sections: Some(vec!["clh".to_string()]) });
    assert_eq!(report.workload.name, "unknown");
    assert_eq!(report.confidential_readiness, Readiness::Blocked);
    assert_eq!(report.selected_hypervisor.as_deref(), Some("clh"));
    let codes: Vec<&str> = report.findings.iter().map(|f| f.code.as_str()).collect();
    assert_eq!(
        codes,
        vec![
            "runtime-class-mismatch",
            "unknown-capabilities-version",
            "kvm-unavailable",
            "hypervisor-unavailable",
            "tee-path-unverified",
        ]
    );
    assert_eq!(report.findings[1].message, "v0 is not the supported NodeCapabilities version.");
    assert_eq!(report.findings[2].severity, Severity::Error);
}

#[test]
fn plan_over_joined_node_lists_is_the_plans_joined() {
    let run = |nodes: Vec<NodeCapabilities>| {
        let inventory = NodeInventory { api_version: "teelens.io/node-inventory/v1".to_string(), nodes };
        let report = plan(protected_gpu_pod("1"), "kata-qemu-coco", inventory, qemu_config());
        let rejected: Vec<(String, Vec<String>)> =
            report.rejected_nodes.into_iter().map(|r| (r.name, r.reasons)).collect();
        (report.eligible_nodes, rejected)
    };
    let a = || vec![node("snp", vec![Tee::SevSnp], 1), node("plain", vec![], 1)];
    let b = || vec![node("tdx", vec![Tee::Tdx], 0), node("tdx2", vec![Tee::Tdx], 2)];
    let (ea, ra) = run(a());
    let (eb, rb) = run(b());
    let mut both = a();
    both.extend(b());
    let (e, r) = run(both);
    assert_eq!(e, [ea, eb].concat());
    assert_eq!(r, [ra, rb].concat());
    assert_eq!(e, vec!["snp".to_string(), "tdx2".to_string()]);
}
