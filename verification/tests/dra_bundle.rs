use teelens::error::TeeLensError;
use teelens::model::{Container, Metadata, Pod, PodSpec, Resources};
use teelens::patch::{dra_bundle, patch_pod_for_dra};
use teelens::sorted_map::SortedMap;
use teelens::yaml::YamlValue;

fn to_tree(v: &serde_yaml::Value) -> YamlValue {
    match v {
        serde_yaml::Value::Null => YamlValue::Null,
        serde_yaml::Value::Bool(b) => YamlValue::Bool(*b),
        serde_yaml::Value::Number(n) => YamlValue::Number(n.to_string()),
        serde_yaml::Value::String(s) => YamlValue::String(s.clone()),
        serde_yaml::Value::Sequence(items) => YamlValue::Sequence(items.iter().map(to_tree).collect()),
        serde_yaml::Value::Mapping(m) => {
            YamlValue::Mapping(m.iter().map(|(k, v)| (to_tree(k), to_tree(v))).collect())
        }
        serde_yaml::Value::Tagged(t) => YamlValue::Tagged(t.tag.to_string(), Box::new(to_tree(&t.value))),
    }
}

fn from_tree(v: YamlValue) -> serde_yaml::Value {
    match v {
        YamlValue::Null => serde_yaml::Value::Null,
        YamlValue::Bool(b) => serde_yaml::Value::Bool(b),
        YamlValue::Number(n) => serde_yaml::Value::Number(n.parse().unwrap()),
        YamlValue::String(s) => serde_yaml::Value::String(s),
        YamlValue::Sequence(items) => serde_yaml::Value::Sequence(items.into_iter().map(from_tree).collect()),
        YamlValue::Mapping(entries) => {
            let mut m = serde_yaml::Mapping::new();
            for (k, v) in entries {
                m.insert(from_tree(k), from_tree(v));
            }
            serde_yaml::Value::Mapping(m)
        }
        YamlValue::Tagged(tag, inner) => serde_yaml::Value::Tagged(Box::new(serde_yaml::value::TaggedValue {
            tag: serde_yaml::value::Tag::new(tag),
            value: from_tree(*inner),
        })),
    }
}

fn parse(raw: &str) -> YamlValue {
    to_tree(&serde_yaml::from_str::<serde_yaml::Value>(raw).unwrap())
}

fn render(v: YamlValue) -> String {
    serde_yaml::to_string(&from_tree(v)).unwrap()
}

fn map_of(entries: &[(&str, &str)]) -> SortedMap<String> {
    let mut m = SortedMap::new();
    for (k, v) in entries {
        m.insert(k.to_string(), v.to_string());
    }
    m
}

fn gpus(n: u32) -> SortedMap<u32> {
    let mut m = SortedMap::new();
    m.insert("nvidia.com/gpu".to_string(), n);
    m
}

/// The typed form of the manifest below: one container `app` requesting
/// `nvidia.com/gpu: '1'` and `cpu: '1'`, in a Pod named `protected`.
fn protected_app_pod() -> Pod {
    Pod {
        metadata: Some(Metadata { name: Some("protected".to_string()), namespace: None, annotations: SortedMap::new() }),
        spec: Some(PodSpec {
            runtime_class_name: None,
            containers: vec![Container {
                name: Some("app".to_string()),
                resources: Some(Resources { requests: Some(map_of(&[("nvidia.com/gpu", "1"), ("cpu", "1")])) }),
            }],
        }),
    }
}

const PROTECTED_APP: &str = "apiVersion: v1\nkind: Pod\nmetadata:\n  name: protected\nspec:\n  containers:\n  - name: app\n    image: example.invalid/app\n    resources:\n      requests:\n        nvidia.com/gpu: '1'\n        cpu: '1'\n";

#[test]
fn dra_bundle_adds_claim_access_and_removes_extended_resource() {
    let pod = protected_app_pod();
    let yaml = parse(PROTECTED_APP);
    let (template, patched) = dra_bundle(
        &pod,
        yaml,
        map_of(&[("nvidia.com/gpu", "production-gpu")]),
        None,
        &["app".to_string()].to_vec(),
    )
    .unwrap_or_else(|e| panic!("{}", e.message()));
    assert_eq!(template.metadata.name, "protected-devices");
    let text = render(patched);
    assert!(text.contains("resourceClaimTemplateName: protected-devices"));
    assert!(text.contains("claims:"));
    assert!(text.contains("cpu: '1'"));
    assert!(!text.contains("nvidia.com/gpu"));
}

#[test]
fn bundle_requires_every_requesting_container() {
    let pod = protected_app_pod();
    let err = dra_bundle(&pod, parse(PROTECTED_APP), map_of(&[("nvidia.com/gpu", "g")]), None, &vec!["other".to_string()])
        .err()
        .unwrap();
    assert_eq!(err.message(), "--container must include every accelerator-requesting container: app");
}

#[test]
fn bundle_requires_named_requesters() {
    let pod = Pod { metadata: None, spec: None };
    let err = dra_bundle(&pod, parse(PROTECTED_APP), SortedMap::new(), None, &vec!["app".to_string()]).err().unwrap();
    assert!(matches!(err, TeeLensError::NoRequestingContainers));
}

#[test]
fn patch_keeps_unselected_containers_and_strips_limits() {
    let raw = "spec:\n  containers:\n  - name: app\n    resources:\n      limits:\n        nvidia.com/gpu: 1\n        memory: 1Gi\n  - name: side\n    resources:\n      requests:\n        nvidia.com/gpu: '1'\n";
    let patched = patch_pod_for_dra(parse(raw), "tmpl", &gpus(1), &vec!["app".to_string()])
        .unwrap_or_else(|e| panic!("{}", e.message()));
    let value = from_tree(patched);
    let spec = &value["spec"];
    assert_eq!(spec["resourceClaims"][0]["name"], serde_yaml::Value::String("teelens-devices".to_string()));
    assert_eq!(spec["resourceClaims"][0]["resourceClaimTemplateName"], serde_yaml::Value::String("tmpl".to_string()));
    let app = &spec["containers"][0]["resources"];
    assert_eq!(app["claims"][0]["name"], serde_yaml::Value::String("teelens-devices".to_string()));
    assert!(app["limits"].get("nvidia.com/gpu").is_none());
    assert!(app["limits"].get("memory").is_some());
    let side = &spec["containers"][1]["resources"];
    assert!(side.get("claims").is_none());
    assert!(side["requests"].get("nvidia.com/gpu").is_some());
}

#[test]
fn patch_adds_resources_to_container_without_them() {
    let raw = "spec:\n  containers:\n  - name: app\n";
    let patched = patch_pod_for_dra(parse(raw), "t", &gpus(1), &vec!["app".to_string()])
        .unwrap_or_else(|e| panic!("{}", e.message()));
    let value = from_tree(patched);
    assert_eq!(
        value["spec"]["containers"][0]["resources"]["claims"][0]["name"],
        serde_yaml::Value::String("teelens-devices".to_string())
    );
}

#[test]
fn patch_refusals() {
    let sel = vec!["app".to_string()];
    let err = patch_pod_for_dra(parse("spec:\n  containers: []\n"), "t", &gpus(1), &vec!["app".to_string(), "app".to_string()])
        .err()
        .unwrap();
    assert!(matches!(err, TeeLensError::RepeatedContainer));
    let err = patch_pod_for_dra(parse("- 1\n"), "t", &gpus(1), &sel).err().unwrap();
    assert_eq!(err.message(), "Pod manifest must be a YAML object");
    let err = patch_pod_for_dra(parse("kind: Pod\n"), "t", &gpus(1), &sel).err().unwrap();
    assert_eq!(err.message(), "Pod manifest is missing spec");
    let err = patch_pod_for_dra(parse("spec:\n  resourceClaims: []\n  containers: []\n"), "t", &gpus(1), &sel)
        .err()
        .unwrap();
    assert!(matches!(err, TeeLensError::ExistingResourceClaims));
    let err = patch_pod_for_dra(parse("spec:\n  containers: 3\n"), "t", &gpus(1), &sel).err().unwrap();
    assert_eq!(err.message(), "Pod spec must contain a containers list");
    let err = patch_pod_for_dra(
        parse("spec:\n  containers:\n  - name: app\n    resources:\n      claims: []\n"),
        "t",
        &gpus(1),
        &sel,
    )
    .err()
    .unwrap();
    assert_eq!(err.message(), "container \"app\" already has resources.claims; merge it manually");
    let err = patch_pod_for_dra(
        parse("spec:\n  containers:\n  - name: app\n"),
        "t",
        &gpus(1),
        &vec!["zeta".to_string(), "app".to_string(), "beta".to_string()],
    )
    .err()
    .unwrap();
    assert_eq!(err.message(), "--container names not found in Pod: beta, zeta");
}

#[test]
fn patch_looks_through_tags_and_keeps_them() {
    let raw = "!pod\nspec: !spec\n  containers: !list\n  - !ctr\n    name: !n app\n    resources: !res\n      requests: !req\n        nvidia.com/gpu: '1'\n        cpu: '1'\n      limits:\n        nvidia.com/gpu: '1'\n";
    let patched = patch_pod_for_dra(parse(raw), "protected-devices", &gpus(1), &vec!["app".to_string()])
        .unwrap_or_else(|e| panic!("{}", e.message()));
    let text = render(patched);
    assert!(text.starts_with("!pod"));
    assert!(text.contains("spec: !spec"));
    assert!(text.contains("containers: !list"));
    assert!(text.contains("!ctr"));
    assert!(text.contains("resources: !res"));
    assert!(text.contains("requests: !req"));
    assert!(text.contains("resourceClaimTemplateName: protected-devices"));
    assert!(text.contains("claims:"));
    assert!(text.contains("cpu: '1'"));
    assert!(!text.contains("nvidia.com/gpu"));
}

#[test]
fn tagged_spec_with_claims_is_refused_as_such() {
    let raw = "spec: !s\n  resourceClaims: []\n  containers: []\n";
    let err = patch_pod_for_dra(parse(raw), "t", &gpus(1), &vec![]).err().unwrap();
    assert!(matches!(err, TeeLensError::ExistingResourceClaims));
}

#[test]
fn tagged_pod_with_no_containers_and_none_selected_is_patched() {
    let raw = "!p\nspec:\n  containers: []\n";
    let patched = patch_pod_for_dra(parse(raw), "t", &gpus(1), &vec![]).unwrap_or_else(|e| panic!("{}", e.message()));
    assert!(render(patched).contains("resourceClaimTemplateName: t"));
}

#[test]
fn tagged_container_claims_and_missing_names_are_reported() {
    let raw = "spec: !s\n  containers:\n  - name: app\n    resources: !r\n      claims: []\n";
    let err = patch_pod_for_dra(parse(raw), "t", &gpus(1), &vec!["app".to_string()]).err().unwrap();
    assert!(matches!(err, TeeLensError::ExistingContainerClaims { ref container } if container == "app"));
    let raw = "spec: !s\n  containers: !l\n  - name: app\n";
    let err = patch_pod_for_dra(parse(raw), "t", &gpus(1), &vec!["web".to_string(), "db".to_string()]).err().unwrap();
    match err {
        TeeLensError::ContainersNotFound { missing } => assert_eq!(missing, vec!["db".to_string(), "web".to_string()]),
        other => panic!("{}", other.message()),
    }
}

#[test]
fn bundle_pod_claims_the_template_by_its_name() {
    let (template, patched) = dra_bundle(
        &protected_app_pod(),
        parse(PROTECTED_APP),
        map_of(&[("nvidia.com/gpu", "production-gpu")]),
        Some("custom-name".to_string()),
        &vec!["app".to_string()],
    )
    .unwrap_or_else(|e| panic!("{}", e.message()));
    assert_eq!(template.metadata.name, "custom-name");
    let v = from_tree(patched);
    assert_eq!(
        v["spec"]["resourceClaims"][0]["resourceClaimTemplateName"].as_str(),
        Some(template.metadata.name.as_str())
    );
}
