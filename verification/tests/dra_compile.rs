use teelens::accel::{accelerator_requesting_containers, accelerator_totals, requested_accelerators};
use teelens::dra::{dns_label, parse_device_classes, resource_claim_template};
use teelens::error::TeeLensError;
use teelens::model::{Container, Metadata, Pod, PodSpec, Resources};
use teelens::sorted_map::SortedMap;
use teelens::text::{parse_u32, u32_decimal};

fn map_of(entries: &[(&str, &str)]) -> SortedMap<String> {
    let mut m = SortedMap::new();
    for (k, v) in entries {
        m.insert(k.to_string(), v.to_string());
    }
    m
}

fn container(name: Option<&str>, requests: &[(&str, &str)]) -> Container {
    Container {
        name: name.map(|n| n.to_string()),
        resources: Some(Resources { requests: Some(map_of(requests)) }),
    }
}

fn pod(name: Option<&str>, containers: Vec<Container>) -> Pod {
    Pod {
        metadata: name.map(|n| Metadata { name: Some(n.to_string()), namespace: None, annotations: SortedMap::new() }),
        spec: Some(PodSpec { runtime_class_name: None, containers }),
    }
}

fn strings(v: &[&str]) -> Vec<String> {
    v.iter().map(|s| s.to_string()).collect()
}

#[test]
fn dra_compiles_accelerator_request_with_explicit_device_class() {
    let pod = pod(Some("protected"), vec![container(None, &[("nvidia.com/gpu", "2")])]);
    let template = resource_claim_template(&pod, map_of(&[("nvidia.com/gpu", "production-gpu")]), None)
        .unwrap_or_else(|e| panic!("{}", e.message()));
    assert_eq!(template.api_version, "resource.k8s.io/v1");
    assert_eq!(template.metadata.name, "protected-devices");
    assert_eq!(template.spec.spec.devices.requests[0].name, "nvidia-com-gpu");
    assert_eq!(template.spec.spec.devices.requests[0].exactly.count, 2);
    assert_eq!(template.spec.spec.devices.requests[0].exactly.device_class_name, "production-gpu");
}

#[test]
fn dra_rejects_missing_device_class_mapping() {
    let pod = pod(None, vec![container(None, &[("nvidia.com/gpu", "1")])]);
    let error = match resource_claim_template(&pod, SortedMap::new(), None) {
        Ok(_) => panic!("a template without a DeviceClass mapping"),
        Err(e) => e,
    };
    assert!(error.message().contains("missing --device-class mapping"));
    assert_eq!(error.message(), "missing --device-class mapping for requested resource \"nvidia.com/gpu\"");
}

#[test]
fn template_sums_requests_and_orders_resources() {
    let pod = pod(
        None,
        vec![
            container(Some("a"), &[("nvidia.com/gpu", "1"), ("cpu", "4"), ("example.com/accelerator", "+3")]),
            container(Some("b"), &[("nvidia.com/gpu", "2"), ("amd.com/gpu", "1Gi")]),
        ],
    );
    let classes = map_of(&[("nvidia.com/gpu", "gpu-class"), ("example.com/accelerator", "acc-class")]);
    let template = resource_claim_template(&pod, classes, Some("custom".to_string()))
        .unwrap_or_else(|e| panic!("{}", e.message()));
    assert_eq!(template.metadata.name, "custom");
    assert_eq!(template.kind, "ResourceClaimTemplate");
    let requests = &template.spec.spec.devices.requests;
    assert_eq!(requests.len(), 2);
    assert_eq!(requests[0].name, "example-com-accelerator");
    assert_eq!(requests[0].exactly.count, 3);
    assert_eq!(requests[0].exactly.allocation_mode, "ExactCount");
    assert_eq!(requests[1].name, "nvidia-com-gpu");
    assert_eq!(requests[1].exactly.count, 3);
    assert_eq!(template.metadata.annotations.len(), 2);
    assert_eq!(template.metadata.annotations.key_at(0), "teelens.io/compiler");
    assert_eq!(template.metadata.annotations.value_at(0), "dra/v1");
    assert_eq!(template.metadata.annotations.key_at(1), "teelens.io/notice");
}

#[test]
fn template_needs_an_accelerator_request() {
    let pod = pod(Some("plain"), vec![container(Some("app"), &[("cpu", "1")])]);
    match resource_claim_template(&pod, SortedMap::new(), None) {
        Err(TeeLensError::NoAcceleratorRequests) => {}
        _ => panic!("expected NoAcceleratorRequests"),
    }
}

#[test]
fn default_name_for_unnamed_pod_is_workload_devices() {
    let pod = pod(None, vec![container(None, &[("nvidia.com/gpu", "1")])]);
    let template = resource_claim_template(&pod, map_of(&[("nvidia.com/gpu", "g")]), None)
        .unwrap_or_else(|e| panic!("{}", e.message()));
    assert_eq!(template.metadata.name, "workload-devices");
}

#[test]
fn requested_accelerators_skip_unparsable_quantities() {
    let pod = pod(None, vec![container(Some("x"), &[("nvidia.com/gpu", "0"), ("vendor/accelerator", "two")])]);
    let totals = requested_accelerators(&pod);
    assert_eq!(totals.len(), 1);
    assert_eq!(totals.key_at(0), "nvidia.com/gpu");
    assert_eq!(*totals.value_at(0), 0);
}

#[test]
fn accelerator_totals_detect_overflow() {
    let pod = pod(
        None,
        vec![container(None, &[("nvidia.com/gpu", "4294967295")]), container(None, &[("nvidia.com/gpu", "1")])],
    );
    assert!(accelerator_totals(&pod).is_none());
}

#[test]
fn requesting_containers_are_named_accelerator_users() {
    let pod = pod(
        None,
        vec![
            container(Some("app"), &[("nvidia.com/gpu", "many")]),
            container(None, &[("nvidia.com/gpu", "1")]),
            container(Some("sidecar"), &[("cpu", "1")]),
        ],
    );
    assert_eq!(accelerator_requesting_containers(&pod), vec!["app"]);
}

#[test]
fn dns_label_normalises_names() {
    assert_eq!(dns_label("nvidia.com/gpu").as_str(), "nvidia-com-gpu");
    assert_eq!(dns_label("--Hello World--").as_str(), "hello-world");
    assert_eq!(dns_label("///").as_str(), "device");
    assert_eq!(dns_label("").as_str(), "device");
    assert_eq!(dns_label("Ünïcode").as_str(), "n-code");
    let long = "a".repeat(70);
    assert_eq!(dns_label(&long).len(), 63);
}

#[test]
fn dns_label_is_idempotent_on_its_results() {
    for input in ["nvidia.com/gpu", "Example.COM/Accel", "x"] {
        let once = dns_label(input);
        assert_eq!(dns_label(once.as_str()), once);
    }
}

#[test]
fn dns_label_cut_can_end_in_hyphen() {
    let input = format!("{}-b", "a".repeat(62));
    let once = dns_label(&input);
    assert_eq!(once, format!("{}-", "a".repeat(62)));
    assert_eq!(dns_label(once.as_str()), "a".repeat(62));
}

#[test]
fn device_classes_parse_and_reject() {
    let m = parse_device_classes(&strings(&["nvidia.com/gpu=production-gpu", "b=c=d"]))
        .unwrap_or_else(|e| panic!("{}", e.message()));
    assert_eq!(m.len(), 2);
    assert_eq!(m.key_at(0), "b");
    assert_eq!(m.value_at(0), "c=d");
    assert_eq!(m.get("nvidia.com/gpu").map(|s| s.as_str()), Some("production-gpu"));

    let err = parse_device_classes(&strings(&["nogpu"])).err().unwrap();
    assert_eq!(err.message(), "--device-class must use RESOURCE=DEVICE_CLASS, got \"nogpu\"");
    let err = parse_device_classes(&strings(&["=x"])).err().unwrap();
    assert_eq!(err.message(), "--device-class must use non-empty RESOURCE=DEVICE_CLASS, got \"=x\"");
    let err = parse_device_classes(&strings(&["a=b", "a=c"])).err().unwrap();
    assert_eq!(err.message(), "duplicate DeviceClass mapping for resource \"a\"");
    let err = parse_device_classes(&strings(&["a=", "b"])).err().unwrap();
    assert!(matches!(err, TeeLensError::EmptyDeviceClassPart { .. }));
}

#[test]
fn decimal_text_parses_back() {
    for n in [0u32, 7, 10, 4096, u32::MAX] {
        assert_eq!(parse_u32(u32_decimal(n).as_str()), Some(n));
        assert_eq!(u32_decimal(n), n.to_string());
    }
    assert_eq!(parse_u32("+12"), Some(12));
    assert_eq!(parse_u32("+"), None);
    assert_eq!(parse_u32("-1"), None);
    assert_eq!(parse_u32("4294967296"), None);
    assert_eq!(parse_u32(" 1"), None);
    assert_eq!(parse_u32("007"), Some(7));
}

#[test]
fn sorted_map_reads_what_it_wrote() {
    let mut m: SortedMap<u32> = SortedMap::new();
    assert_eq!(m.insert("b".to_string(), 1), None);
    assert_eq!(m.insert("a".to_string(), 2), None);
    assert_eq!(m.insert("b".to_string(), 3), Some(1));
    assert_eq!(m.get("b"), Some(&3));
    assert_eq!(m.key_at(0), "a");
    assert_eq!(m.len(), 2);
    assert!(!m.contains_key("c"));
}

fn totals_of(p: &Pod) -> Vec<(String, u32)> {
    let m = requested_accelerators(p);
    (0..m.len()).map(|i| (m.key_at(i).clone(), *m.value_at(i))).collect()
}

#[test]
fn accelerator_totals_add_over_containers() {
    let c1 = || container(Some("a"), &[("nvidia.com/gpu", "2"), ("cpu", "1")]);
    let c2 = || container(Some("b"), &[("nvidia.com/gpu", "3"), ("amd.com/accelerator", "1")]);
    let both = totals_of(&pod(None, vec![c1(), c2()]));
    assert_eq!(both, vec![("amd.com/accelerator".to_string(), 1), ("nvidia.com/gpu".to_string(), 5)]);
    assert_eq!(totals_of(&pod(None, vec![c1()])), vec![("nvidia.com/gpu".to_string(), 2)]);
    assert_eq!(
        totals_of(&pod(None, vec![c2()])),
        vec![("amd.com/accelerator".to_string(), 1), ("nvidia.com/gpu".to_string(), 3)]
    );
}

#[test]
fn contributing_containers_are_requesters() {
    let p = pod(
        None,
        vec![
            container(Some("a"), &[("nvidia.com/gpu", "2")]),
            container(Some("b"), &[("cpu", "1")]),
            container(Some("c"), &[("example.com/accelerator", "0")]),
        ],
    );
    assert_eq!(accelerator_requesting_containers(&p), vec!["a", "c"]);
}

#[test]
fn device_class_order_does_not_matter() {
    let one = parse_device_classes(&strings(&["nvidia.com/gpu=production-gpu", "amd.com/gpu=amd"]))
        .unwrap_or_else(|e| panic!("{}", e.message()));
    let two = parse_device_classes(&strings(&["amd.com/gpu=amd", "nvidia.com/gpu=production-gpu"]))
        .unwrap_or_else(|e| panic!("{}", e.message()));
    assert_eq!(one.len(), two.len());
    for i in 0..one.len() {
        assert_eq!(one.key_at(i), two.key_at(i));
        assert_eq!(one.value_at(i), two.value_at(i));
    }
    assert!(parse_device_classes(&strings(&["a=b", "c", "a=d"])).is_err());
    assert!(parse_device_classes(&strings(&["a=d", "a=b", "c"])).is_err());
}
