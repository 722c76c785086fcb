//! Advisory placement planning: which nodes of an inventory can run the
//! workload, and why each of the others cannot.
use vstd::prelude::*;
use vstd::string::*;
use crate::text::{views, string_of, contains_text, str_contains, has_infix, decimal, u32_decimal};
use crate::sorted_map::{SortedMap, lookup};
use crate::model::{Pod, NodeCapabilities, NodeInventory, KataConfig};
use crate::accel::{requested_accelerators, requested_seq, accelerators_fit};
use crate::report::{hypervisor_choice, selected_hypervisor, advertises, advertises_hypervisor};

verus! {

/// What the reasons for rejecting a node depend on besides the node.
pub struct PlanContext {
    /// The WASM runtime that the Pod asks for, if any.
    pub wasm: Option<Seq<char>>,
    /// Whether the RuntimeClass is a confidential one.
    pub confidential: bool,
    /// The hypervisor that the Kata configuration selects.
    pub hypervisor: Option<Seq<char>>,
    /// The accelerators the Pod requires, in ascending order.
    pub required: Seq<(Seq<char>, u32)>,
}

/// The WASM runtime that a Pod asks for with its `teelens.io/wasm-runtime` annotation.
pub open spec fn wasm_runtime(pod: &Pod) -> Option<Seq<char>> {
    match pod.metadata {
        Some(m) => lookup(m.annotations@, "teelens.io/wasm-runtime"@),
        None => None,
    }
}

/// The planning context of a Pod, a RuntimeClass and a Kata configuration.
pub open spec fn plan_context(pod: &Pod, runtime_class: Seq<char>, config: &KataConfig) -> PlanContext {
    PlanContext {
        wasm: wasm_runtime(pod),
        confidential: has_infix(runtime_class, "coco"@),
        hypervisor: hypervisor_choice(config),
        required: requested_seq(pod),
    }
}

/// How many devices of accelerator `r` the node has.
pub open spec fn node_count(node: &NodeCapabilities, r: Seq<char>) -> u32 {
    match lookup(node.accelerators@, r) {
        Some(n) => n,
        None => 0,
    }
}

/// The accelerator shortages of a node, one reason per short resource.
pub open spec fn shortage_reasons(node: &NodeCapabilities, required: Seq<(Seq<char>, u32)>) -> Seq<Seq<char>>
    decreases required.len(),
{
    if required.len() == 0 {
        Seq::empty()
    } else {
        let rest = shortage_reasons(node, required.drop_last());
        let (r, needed) = required.last();
        let have = node_count(node, r);
        if have < needed {
            rest.push("requires "@ + decimal(needed as nat) + " "@ + r + ", node has "@ + decimal(have as nat))
        } else {
            rest
        }
    }
}

/// Why a node cannot run the workload; empty when it can.
pub open spec fn node_reasons(node: &NodeCapabilities, ctx: PlanContext) -> Seq<Seq<char>> {
    (if ctx.wasm is None && !node.kvm {
        seq!["KVM is unavailable"@]
    } else {
        Seq::empty()
    }) + (if ctx.wasm is None && !advertises(node, ctx.hypervisor) {
        seq!["selected Kata hypervisor is unavailable"@]
    } else {
        Seq::empty()
    }) + (match ctx.wasm {
        Some(rt) => (if !views(node.wasm_runtimes@).contains(rt) {
            seq!["WASM runtime "@ + rt + " is unavailable"@]
        } else {
            Seq::empty()
        }) + (if ctx.confidential {
            seq!["confidential WASM execution is not yet modeled"@]
        } else {
            Seq::empty()
        }),
        None => if ctx.confidential && (ctx.hypervisor != Some("qemu"@) || node.tee@.len() == 0) {
            seq!["no verified confidential-computing path"@]
        } else {
            Seq::empty()
        },
    }) + shortage_reasons(node, ctx.required)
}

/// The names of the nodes without a reason against them, in inventory order.
pub open spec fn eligible_names(nodes: Seq<NodeCapabilities>, ctx: PlanContext) -> Seq<Seq<char>>
    decreases nodes.len(),
{
    if nodes.len() == 0 {
        Seq::empty()
    } else {
        let rest = eligible_names(nodes.drop_last(), ctx);
        if node_reasons(&nodes.last(), ctx).len() == 0 {
            rest.push(nodes.last().name@)
        } else {
            rest
        }
    }
}

/// The other nodes with their reasons, in inventory order.
pub open spec fn rejections(nodes: Seq<NodeCapabilities>, ctx: PlanContext) -> Seq<(Seq<char>, Seq<Seq<char>>)>
    decreases nodes.len(),
{
    if nodes.len() == 0 {
        Seq::empty()
    } else {
        let rest = rejections(nodes.drop_last(), ctx);
        let reasons = node_reasons(&nodes.last(), ctx);
        if reasons.len() == 0 {
            rest
        } else {
            rest.push((nodes.last().name@, reasons))
        }
    }
}

/// One rejected node and why.
pub struct NodeRejection {
    pub name: String,
    pub reasons: Vec<String>,
}

/// The advisory placement plan.
pub struct PlanReport {
    pub api_version: String,
    pub execution_target: String,
    pub required_accelerators: SortedMap<u32>,
    pub eligible_nodes: Vec<String>,
    pub rejected_nodes: Vec<NodeRejection>,
}

/// A rejection as the node name and its reasons.
pub open spec fn rejection_view(r: NodeRejection) -> (Seq<char>, Seq<Seq<char>>) {
    (r.name@, views(r.reasons@))
}

/// Where the workload runs: `wasm:<runtime>` or `vmm:<hypervisor>`.
pub open spec fn execution_target(ctx: PlanContext) -> Seq<char> {
    match ctx.wasm {
        Some(rt) => "wasm:"@ + rt,
        None => "vmm:"@ + match ctx.hypervisor {
            Some(h) => h,
            None => "unknown"@,
        },
    }
}

fn push_text(v: &mut Vec<String>, s: String)
    ensures
        views(final(v)@) == views(old(v)@).push(s@),
{
    v.push(s);
    assert(views(v@) =~= views(old(v)@).push(s@));
}

/// The shortage reasons of a node.
fn shortages(node: &NodeCapabilities, required: &SortedMap<u32>, reasons: &mut Vec<String>)
    ensures
        views(final(reasons)@) == views(old(reasons)@) + shortage_reasons(node, required@),
{
    let ghost r0 = views(reasons@);
    let ghost req = required@;
    let mut i: usize = 0;
    assert(req.take(0) =~= Seq::<(Seq<char>, u32)>::empty());
    assert(r0 + Seq::<Seq<char>>::empty() =~= r0);
    while i < required.len()
        invariant
            req == required@,
            i <= req.len(),
            views(reasons@) == r0 + shortage_reasons(node, req.take(i as int)),
        decreases req.len() - i,
    {
        let resource = required.key_at(i);
        let needed = *required.value_at(i);
        let have: u32 = match node.accelerators.get(resource.as_str()) {
            Some(n) => *n,
            None => 0,
        };
        assert(req.take(i + 1).drop_last() =~= req.take(i as int));
        assert(req.take(i + 1).last() == req[i as int]);
        if have < needed {
            let mut text = string_of("requires ");
            text.append(u32_decimal(needed).as_str());
            text.append(" ");
            text.append(resource.as_str());
            text.append(", node has ");
            text.append(u32_decimal(have).as_str());
            push_text(reasons, text);
            assert(views(reasons@) =~= r0 + shortage_reasons(node, req.take(i + 1)));
        }
        i = i + 1;
    }
    assert(req.take(req.len() as int) =~= req);
}

/// The reasons against placing the workload on a node.
fn reasons_for(
    node: &NodeCapabilities,
    wasm: &Option<String>,
    confidential: bool,
    hv: &Option<String>,
    required: &SortedMap<u32>,
    Ghost(ctx): Ghost<PlanContext>,
) -> (reasons: Vec<String>)
    requires
        ctx.wasm == (match wasm {
            Some(w) => Some(w@),
            None => None,
        }),
        ctx.confidential == confidential,
        ctx.hypervisor == (match hv {
            Some(h) => Some(h@),
            None => None,
        }),
        ctx.required == required@,
    ensures
        views(reasons@) == node_reasons(node, ctx),
{
    let mut reasons: Vec<String> = Vec::new();
    assert(views(reasons@) =~= Seq::<Seq<char>>::empty());
    if wasm.is_none() && !node.kvm {
        push_text(&mut reasons, string_of("KVM is unavailable"));
    }
    if wasm.is_none() && !advertises_hypervisor(node, hv) {
        push_text(&mut reasons, string_of("selected Kata hypervisor is unavailable"));
    }
    match wasm {
        Some(runtime) => {
            if !contains_text(&node.wasm_runtimes, runtime.as_str()) {
                let mut text = string_of("WASM runtime ");
                text.append(runtime.as_str());
                text.append(" is unavailable");
                push_text(&mut reasons, text);
            }
            if confidential {
                push_text(&mut reasons, string_of("confidential WASM execution is not yet modeled"));
            }
        },
        None => {
            let qemu: bool = match hv {
                Some(h) => crate::text::str_eq(h.as_str(), "qemu"),
                None => false,
            };
            if confidential && (!qemu || node.tee.len() == 0) {
                push_text(&mut reasons, string_of("no verified confidential-computing path"));
            }
        },
    }
    shortages(node, required, &mut reasons);
    proof {
        assert(views(reasons@) =~= node_reasons(node, ctx));
    }
    reasons
}

/// Plans placement across a node inventory. A node is eligible when nothing
/// speaks against it: missing KVM or hypervisor (for VM workloads), a missing
/// WASM runtime, no verified confidential path for a confidential
/// RuntimeClass, or too few accelerators. An inventory of another API
/// version adds a rejection named `inventory`.
pub fn plan(pod: Pod, runtime_class: &str, inventory: NodeInventory, config: KataConfig) -> (report: PlanReport)
    requires
        accelerators_fit(&pod),
    ensures
        ({
            let ctx = plan_context(&pod, runtime_class@, &config);
            let nodes = inventory.nodes@;
            &&& report.api_version@ == "teelens.io/plan/v1"@
            &&& report.execution_target@ == execution_target(ctx)
            &&& report.required_accelerators@ == requested_seq(&pod)
            &&& views(report.eligible_nodes@) == eligible_names(nodes, ctx)
            &&& report.rejected_nodes@.map_values(|r: NodeRejection| rejection_view(r)) == rejections(nodes, ctx) + (
                if inventory.api_version@ != "teelens.io/node-inventory/v1"@ {
                    seq![("inventory"@, seq!["unknown inventory API version"@])]
                } else {
                    Seq::empty()
                })
        }),
{
    let ghost ctx = plan_context(&pod, runtime_class@, &config);
    let required = requested_accelerators(&pod);
    let hv = selected_hypervisor(&config);
    let wasm: Option<String> = match &pod.metadata {
        Some(m) => match m.annotations.get("teelens.io/wasm-runtime") {
            Some(w) => Some(w.clone()),
            None => None,
        },
        None => None,
    };
    let confidential = str_contains(runtime_class, "coco");
    let ghost nodes = inventory.nodes@;
    let mut eligible: Vec<String> = Vec::new();
    let mut rejected: Vec<NodeRejection> = Vec::new();
    let mut i: usize = 0;
    assert(nodes.take(0) =~= Seq::<NodeCapabilities>::empty());
    assert(views(eligible@) =~= Seq::<Seq<char>>::empty());
    assert(rejected@.map_values(|r: NodeRejection| rejection_view(r)) =~= Seq::<(Seq<char>, Seq<Seq<char>>)>::empty());
    while i < inventory.nodes.len()
        invariant
            nodes == inventory.nodes@,
            i <= nodes.len(),
            ctx == plan_context(&pod, runtime_class@, &config),
            ctx.wasm == (match wasm {
                Some(w) => Some(w@),
                None => None,
            }),
            ctx.confidential == confidential,
            ctx.hypervisor == (match hv {
                Some(h) => Some(h@),
                None => None,
            }),
            ctx.required == required@,
            views(eligible@) == eligible_names(nodes.take(i as int), ctx),
            rejected@.map_values(|r: NodeRejection| rejection_view(r)) == rejections(nodes.take(i as int), ctx),
        decreases nodes.len() - i,
    {
        let node = &inventory.nodes[i];
        let reasons = reasons_for(node, &wasm, confidential, &hv, &required, Ghost(ctx));
        assert(nodes.take(i + 1).drop_last() =~= nodes.take(i as int));
        assert(nodes.take(i + 1).last() == *node);
        if reasons.len() == 0 {
            push_text(&mut eligible, node.name.clone());
        } else {
            let ghost before = rejected@.map_values(|r: NodeRejection| rejection_view(r));
            let rejection = NodeRejection { name: node.name.clone(), reasons };
            rejected.push(rejection);
            assert(rejected@.map_values(|r: NodeRejection| rejection_view(r)) =~= before.push(rejection_view(rejection)));
        }
        i = i + 1;
    }
    assert(nodes.take(nodes.len() as int) =~= nodes);
    let ghost before = rejected@.map_values(|r: NodeRejection| rejection_view(r));
    if !crate::text::str_eq(inventory.api_version.as_str(), "teelens.io/node-inventory/v1") {
        let mut why: Vec<String> = Vec::new();
        push_text(&mut why, string_of("unknown inventory API version"));
        let rejection = NodeRejection { name: string_of("inventory"), reasons: why };
        rejected.push(rejection);
        assert(views(rejection.reasons@) =~= seq!["unknown inventory API version"@]);
        assert(rejected@.map_values(|r: NodeRejection| rejection_view(r)) =~= before + seq![
            ("inventory"@, seq!["unknown inventory API version"@]),
        ]);
    } else {
        assert(before + Seq::<(Seq<char>, Seq<Seq<char>>)>::empty() =~= before);
    }
    let target = match &wasm {
        Some(runtime) => {
            let mut t = string_of("wasm:");
            t.append(runtime.as_str());
            t
        },
        None => {
            let mut t = string_of("vmm:");
            match &hv {
                Some(h) => t.append(h.as_str()),
                None => t.append("unknown"),
            }
            t
        },
    };
    PlanReport {
        api_version: string_of("teelens.io/plan/v1"),
        execution_target: target,
        required_accelerators: required,
        eligible_nodes: eligible,
        rejected_nodes: rejected,
    }
}


/// A trust-aware placement manifest compiled from a plan.
pub struct PlacementManifest {
    pub api_version: String,
    pub execution_target: String,
    pub eligible_nodes: Vec<String>,
    pub required_accelerators: SortedMap<u32>,
    pub attestation_policy: Option<String>,
    pub migration: String,
}

/// The attestation policy a Pod names with its `teelens.io/attestation-policy` annotation.
pub open spec fn attestation_policy_of(pod: &Pod) -> Option<Seq<char>> {
    match pod.metadata {
        Some(m) => lookup(m.annotations@, "teelens.io/attestation-policy"@),
        None => None,
    }
}

/// Compiles the plan into a placement manifest that records the execution
/// target, the eligible nodes, the required accelerators, the Pod's
/// attestation policy and a conservative migration posture.
pub fn compile_placement(pod: Pod, runtime_class: &str, inventory: NodeInventory, config: KataConfig)
    -> (manifest: PlacementManifest)
    requires
        accelerators_fit(&pod),
    ensures
        ({
            let ctx = plan_context(&pod, runtime_class@, &config);
            &&& manifest.api_version@ == "teelens.io/placement-manifest/v1"@
            &&& manifest.execution_target@ == execution_target(ctx)
            &&& views(manifest.eligible_nodes@) == eligible_names(inventory.nodes@, ctx)
            &&& manifest.required_accelerators@ == requested_seq(&pod)
            &&& match manifest.attestation_policy {
                Some(p) => attestation_policy_of(&pod) == Some(p@),
                None => attestation_policy_of(&pod) is None,
            }
            &&& manifest.migration@ == "deny-until-validated"@
        }),
{
    let policy: Option<String> = match &pod.metadata {
        Some(m) => match m.annotations.get("teelens.io/attestation-policy") {
            Some(p) => Some(p.clone()),
            None => None,
        },
        None => None,
    };
    let report = plan(pod, runtime_class, inventory, config);
    PlacementManifest {
        api_version: string_of("teelens.io/placement-manifest/v1"),
        execution_target: report.execution_target,
        eligible_nodes: report.eligible_nodes,
        required_accelerators: report.required_accelerators,
        attestation_policy: policy,
        migration: string_of("deny-until-validated"),
    }
}

} // verus!
