//! The readiness report for one node: does the Kata-selected hypervisor and
//! the node's capabilities give the workload a confidential-execution path?
use vstd::prelude::*;
use vstd::string::*;
use crate::text::{views, string_of, contains_text, str_eq, joined};
use crate::model::{Pod, NodeCapabilities, KataConfig, Tee, pod_name};

verus! {

/// The hypervisor that the Kata configuration selects: the first of `qemu`,
/// `clh` and `cloud-hypervisor` that has a section in its `hypervisor` table.
pub open spec fn hypervisor_choice(config: &KataConfig) -> Option<Seq<char>> {
    match config.hypervisor_sections {
        None => None,
        Some(v) => if views(v@).contains("qemu"@) {
            Some("qemu"@)
        } else if views(v@).contains("clh"@) {
            Some("clh"@)
        } else if views(v@).contains("cloud-hypervisor"@) {
            Some("cloud-hypervisor"@)
        } else {
            None
        },
    }
}

/// The hypervisor that the Kata configuration selects.
pub fn selected_hypervisor(config: &KataConfig) -> (r: Option<String>)
    ensures
        match r {
            Some(h) => hypervisor_choice(config) == Some(h@),
            None => hypervisor_choice(config) is None,
        },
{
    match &config.hypervisor_sections {
        None => None,
        Some(v) => {
            if contains_text(v, "qemu") {
                Some(string_of("qemu"))
            } else if contains_text(v, "clh") {
                Some(string_of("clh"))
            } else if contains_text(v, "cloud-hypervisor") {
                Some(string_of("cloud-hypervisor"))
            } else {
                None
            }
        },
    }
}

/// Whether the node advertises the selected hypervisor.
pub open spec fn advertises(node: &NodeCapabilities, hv: Option<Seq<char>>) -> bool {
    exists|i: int| 0 <= i < node.hypervisors@.len() && Some(#[trigger] node.hypervisors@[i]@) == hv
}

/// Whether the node advertises hypervisor `hv`.
pub fn advertises_hypervisor(node: &NodeCapabilities, hv: &Option<String>) -> (b: bool)
    ensures
        b == advertises(node, match hv {
            Some(h) => Some(h@),
            None => None,
        }),
{
    match hv {
        None => false,
        Some(h) => {
            let r = contains_text(&node.hypervisors, h.as_str());
            proof {
                if r {
                    let i = choose|i: int| 0 <= i < views(node.hypervisors@).len() && views(node.hypervisors@)[i] == h@;
                    assert(Some(node.hypervisors@[i]@) == Some(h@));
                }
                if advertises(node, Some(h@)) {
                    let i = choose|i: int| 0 <= i < node.hypervisors@.len() && Some(#[trigger] node.hypervisors@[i]@) == Some(h@);
                    assert(views(node.hypervisors@)[i] == h@);
                }
            }
            r
        },
    }
}

/// How ready a workload is for an execution mode.
#[derive(PartialEq, Eq, Structural, Clone, Copy, Debug)]
pub enum Readiness {
    Supported,
    Blocked,
    Unknown,
}

/// How serious a finding is.
#[derive(PartialEq, Eq, Structural, Clone, Copy, Debug)]
pub enum Severity {
    Info,
    Warning,
    Error,
}

/// One observation of the report, with what to do about it.
pub struct Finding {
    pub severity: Severity,
    pub code: String,
    pub message: String,
    pub remediation: String,
}

/// The workload a report is about.
pub struct Workload {
    pub name: String,
    pub namespace: String,
    pub runtime_class: String,
}

/// The readiness report of a workload on a node.
pub struct Report {
    pub api_version: String,
    pub workload: Workload,
    pub node_architecture: String,
    pub selected_hypervisor: Option<String>,
    pub confidential_readiness: Readiness,
    pub migration_readiness: Readiness,
    pub findings: Vec<Finding>,
}

/// A finding as severity, code, message and remediation texts.
pub open spec fn finding_view(f: Finding) -> (Severity, Seq<char>, Seq<char>, Seq<char>) {
    (f.severity, f.code@, f.message@, f.remediation@)
}

/// The name of a TEE as `Debug` writes it.
pub open spec fn tee_name(t: Tee) -> Seq<char> {
    match t {
        Tee::SevSnp => "SevSnp"@,
        Tee::Tdx => "Tdx"@,
    }
}

/// A list of TEEs as `Debug` writes it: `[SevSnp, Tdx]`.
pub open spec fn tee_list_text(tees: Seq<Tee>) -> Seq<char> {
    "["@ + joined(tees.map_values(|t: Tee| tee_name(t)), ", "@) + "]"@
}

/// Whether the Pod spec names the RuntimeClass `rc`.
pub open spec fn runtime_class_matches(pod: &Pod, rc: Seq<char>) -> bool {
    match pod.spec {
        Some(spec) => match spec.runtime_class_name {
            Some(n) => n@ == rc,
            None => false,
        },
        None => false,
    }
}

/// The findings of a check, in the order they are reported.
pub open spec fn check_findings(pod: &Pod, runtime_class: Seq<char>, node: &NodeCapabilities, hv: Option<Seq<char>>)
    -> Seq<(Severity, Seq<char>, Seq<char>, Seq<char>)> {
    let qemu = hv == Some("qemu"@);
    let tee = node.tee@;
    (if !runtime_class_matches(pod, runtime_class) {
        seq![(
            Severity::Warning,
            "runtime-class-mismatch"@,
            "The manifest RuntimeClassName does not match --runtime-class."@,
            "Use the RuntimeClass selected by the deployment."@,
        )]
    } else {
        Seq::empty()
    }) + (if node.api_version@ != "teelens.io/node-capabilities/v1"@ {
        seq![(
            Severity::Warning,
            "unknown-capabilities-version"@,
            node.api_version@ + " is not the supported NodeCapabilities version."@,
            "Regenerate node capabilities using a v1-compatible collector."@,
        )]
    } else {
        Seq::empty()
    }) + (if !node.kvm {
        seq![(
            Severity::Error,
            "kvm-unavailable"@,
            "KVM is unavailable on the selected node."@,
            "Schedule onto a node with usable KVM."@,
        )]
    } else {
        Seq::empty()
    }) + (if !advertises(node, hv) {
        seq![(
            Severity::Error,
            "hypervisor-unavailable"@,
            "The Kata-selected hypervisor is not advertised by the node."@,
            "Install the selected hypervisor or choose a compatible Kata configuration."@,
        )]
    } else {
        Seq::empty()
    }) + (if qemu && tee.len() > 0 {
        seq![(
            Severity::Info,
            "tee-available"@,
            "Node supports confidential execution via "@ + tee_list_text(tee) + "."@,
            "Verify attestation policy and measurement references before deployment."@,
        )]
    } else if hv is Some {
        seq![(
            Severity::Warning,
            "tee-path-unverified"@,
            "This hypervisor and node combination has no verified confidential-execution path in TeeLens v1."@,
            "Use a supported QEMU TDX/SEV-SNP configuration or contribute a validated adapter."@,
        )]
    } else {
        Seq::empty()
    })
}

/// The list of TEEs as `Debug` writes it.
fn tee_list(tees: &Vec<Tee>) -> (s: String)
    ensures
        s@ == tee_list_text(tees@),
{
    let ghost names = tees@.map_values(|t: Tee| tee_name(t));
    let mut s = string_of("[");
    let mut i: usize = 0;
    while i < tees.len()
        invariant
            i <= tees@.len(),
            names == tees@.map_values(|t: Tee| tee_name(t)),
            s@ == "["@ + joined(names.take(i as int), ", "@),
        decreases tees@.len() - i,
    {
        assert(names.take(i + 1).drop_last() =~= names.take(i as int));
        if i > 0 {
            s.append(", ");
        }
        match tees[i] {
            Tee::SevSnp => s.append("SevSnp"),
            Tee::Tdx => s.append("Tdx"),
        }
        proof {
            if i == 0 {
                assert(names.take(1) =~= seq![names[0]]);
                assert(joined(names.take(1), ", "@) == names[0]);
            }
            assert(s@ =~= "["@ + joined(names.take(i + 1), ", "@));
        }
        i = i + 1;
    }
    assert(names.take(tees@.len() as int) =~= names);
    s.append("]");
    s
}

fn finding(severity: Severity, code: &str, message: String, remediation: &str) -> (f: Finding)
    ensures
        finding_view(f) == (severity, code@, message@, remediation@),
{
    Finding { severity, code: string_of(code), message, remediation: string_of(remediation) }
}

/// Checks a Pod against a Kata configuration and the capabilities of a node:
/// confidential execution is supported where the node has KVM, the Kata
/// configuration selects QEMU, and the node advertises a TEE; live migration
/// readiness is always unknown.
#[verifier::rlimit(40)]
#[verifier::spinoff_prover]
pub fn check(pod: Pod, runtime_class: String, node: NodeCapabilities, config: KataConfig) -> (report: Report)
    ensures
        report.api_version@ == "teelens.io/report/v1"@,
        report.workload.name@ == (match pod_name(&pod) {
            Some(n) => n,
            None => "unknown"@,
        }),
        report.workload.namespace@ == (match pod.metadata {
            Some(m) => match m.namespace {
                Some(ns) => ns@,
                None => "default"@,
            },
            None => "default"@,
        }),
        report.workload.runtime_class@ == runtime_class@,
        report.node_architecture@ == node.architecture@,
        match report.selected_hypervisor {
            Some(h) => hypervisor_choice(&config) == Some(h@),
            None => hypervisor_choice(&config) is None,
        },
        report.confidential_readiness == (if node.kvm && hypervisor_choice(&config) == Some("qemu"@)
            && node.tee@.len() > 0 {
            Readiness::Supported
        } else {
            Readiness::Blocked
        }),
        report.migration_readiness == Readiness::Unknown,
        report.findings@.map_values(|f: Finding| finding_view(f)) == check_findings(
            &pod,
            runtime_class@,
            &node,
            hypervisor_choice(&config),
        ),
{
    let hv = selected_hypervisor(&config);
    let ghost hvv = hypervisor_choice(&config);
    let name = match &pod.metadata {
        Some(m) => match &m.name {
            Some(n) => n.clone(),
            None => string_of("unknown"),
        },
        None => string_of("unknown"),
    };
    let namespace = match &pod.metadata {
        Some(m) => match &m.namespace {
            Some(n) => n.clone(),
            None => string_of("default"),
        },
        None => string_of("default"),
    };
    let rc_matches: bool = match &pod.spec {
        Some(spec) => match &spec.runtime_class_name {
            Some(n) => str_eq(n.as_str(), runtime_class.as_str()),
            None => false,
        },
        None => false,
    };
    let mut findings: Vec<Finding> = Vec::new();
    if !rc_matches {
        findings.push(finding(
            Severity::Warning,
            "runtime-class-mismatch",
            string_of("The manifest RuntimeClassName does not match --runtime-class."),
            "Use the RuntimeClass selected by the deployment.",
        ));
    }
    if !str_eq(node.api_version.as_str(), "teelens.io/node-capabilities/v1") {
        let mut message = node.api_version.clone();
        message.append(" is not the supported NodeCapabilities version.");
        findings.push(finding(
            Severity::Warning,
            "unknown-capabilities-version",
            message,
            "Regenerate node capabilities using a v1-compatible collector.",
        ));
    }
    if !node.kvm {
        findings.push(finding(
            Severity::Error,
            "kvm-unavailable",
            string_of("KVM is unavailable on the selected node."),
            "Schedule onto a node with usable KVM.",
        ));
    }
    if !advertises_hypervisor(&node, &hv) {
        findings.push(finding(
            Severity::Error,
            "hypervisor-unavailable",
            string_of("The Kata-selected hypervisor is not advertised by the node."),
            "Install the selected hypervisor or choose a compatible Kata configuration.",
        ));
    }
    let qemu: bool = match &hv {
        Some(h) => str_eq(h.as_str(), "qemu"),
        None => false,
    };
    let has_tee = node.tee.len() > 0;
    if qemu && has_tee {
        let mut message = string_of("Node supports confidential execution via ");
        let tees = tee_list(&node.tee);
        message.append(tees.as_str());
        message.append(".");
        findings.push(finding(
            Severity::Info,
            "tee-available",
            message,
            "Verify attestation policy and measurement references before deployment.",
        ));
    } else if hv.is_some() {
        findings.push(finding(
            Severity::Warning,
            "tee-path-unverified",
            string_of("This hypervisor and node combination has no verified confidential-execution path in TeeLens v1."),
            "Use a supported QEMU TDX/SEV-SNP configuration or contribute a validated adapter.",
        ));
    }
    let ghost f5 = findings@.map_values(|f: Finding| finding_view(f));
    proof {
        assert(qemu == (hvv == Some("qemu"@)));
        assert(f5 =~= check_findings(&pod, runtime_class@, &node, hvv));
    }
    let confidential_supported = node.kvm && qemu && has_tee;
    Report {
        api_version: string_of("teelens.io/report/v1"),
        workload: Workload { name, namespace, runtime_class },
        node_architecture: node.architecture,
        selected_hypervisor: hv,
        confidential_readiness: if confidential_supported {
            Readiness::Supported
        } else {
            Readiness::Blocked
        },
        migration_readiness: Readiness::Unknown,
        findings,
    }
}

} // verus!
