//! The documents TeeLens reads: the Pod manifest, node capabilities, the
//! node inventory, and the part of the Kata configuration that selects a
//! hypervisor.
use vstd::prelude::*;
use crate::sorted_map::SortedMap;

verus! {

/// A trusted-execution technology advertised by a node.
#[derive(PartialEq, Eq, Structural, Clone, Copy, Debug)]
pub enum Tee {
    SevSnp,
    Tdx,
}

/// Pod metadata.
pub struct Metadata {
    pub name: Option<String>,
    pub namespace: Option<String>,
    pub annotations: SortedMap<String>,
}

/// The resources of a container: its requests by resource name.
pub struct Resources {
    pub requests: Option<SortedMap<String>>,
}

/// A container of a Pod.
pub struct Container {
    pub name: Option<String>,
    pub resources: Option<Resources>,
}

/// The Pod specification.
pub struct PodSpec {
    pub runtime_class_name: Option<String>,
    pub containers: Vec<Container>,
}

/// A Kubernetes Pod manifest, as far as TeeLens reads it.
pub struct Pod {
    pub metadata: Option<Metadata>,
    pub spec: Option<PodSpec>,
}

/// Versioned capabilities of one node, produced by a node agent or supplied by CI.
pub struct NodeCapabilities {
    pub name: String,
    pub api_version: String,
    pub architecture: String,
    pub kvm: bool,
    pub tee: Vec<Tee>,
    pub hypervisors: Vec<String>,
    pub accelerators: SortedMap<u32>,
    pub wasm_runtimes: Vec<String>,
}

/// A versioned list of node capabilities.
pub struct NodeInventory {
    pub api_version: String,
    pub nodes: Vec<NodeCapabilities>,
}

/// The Kata runtime configuration as far as hypervisor selection reads it:
/// the names of the sections of its `[hypervisor]` table, in sorted key
/// order as a TOML table keeps them, or `None` where the configuration has
/// no `hypervisor` table.
pub struct KataConfig {
    pub hypervisor_sections: Option<Vec<String>>,
}

/// The containers of a Pod (none without a spec).
pub open spec fn pod_containers(pod: &Pod) -> Seq<Container> {
    match pod.spec {
        Some(spec) => spec.containers@,
        None => Seq::empty(),
    }
}

/// The resource requests of a container (none where it states none).
pub open spec fn container_requests(c: Container) -> Seq<(Seq<char>, Seq<char>)> {
    match c.resources {
        Some(r) => match r.requests {
            Some(m) => m@,
            None => Seq::empty(),
        },
        None => Seq::empty(),
    }
}

/// The Pod name from its metadata, if any.
pub open spec fn pod_name(pod: &Pod) -> Option<Seq<char>> {
    match pod.metadata {
        Some(m) => match m.name {
            Some(n) => Some(n@),
            None => None,
        },
        None => None,
    }
}

} // verus!
