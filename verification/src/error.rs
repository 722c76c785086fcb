//! Why an input is refused.
use vstd::prelude::*;
use vstd::string::*;
use crate::text::{debug_text, debug_quoted, joined, join_strings, views, string_of};

verus! {

/// An input that TeeLens refuses, with what the message names.
#[derive(Debug)]
pub enum TeeLensError {
    /// A `--device-class` entry without `=`.
    MalformedDeviceClass { entry: String },
    /// A `--device-class` entry with an empty resource or class.
    EmptyDeviceClassPart { entry: String },
    /// A second `--device-class` entry for the same resource.
    DuplicateDeviceClass { resource: String },
    /// The Pod requests no countable accelerator resource.
    NoAcceleratorRequests,
    /// A requested accelerator resource has no DeviceClass.
    MissingDeviceClass { resource: String },
    /// The same container was named twice.
    RepeatedContainer,
    /// A part of the Pod manifest that must be a mapping is not one.
    NotAMapping,
    /// The Pod manifest has no `spec`.
    MissingSpec,
    /// The Pod already declares `spec.resourceClaims`.
    ExistingResourceClaims,
    /// The Pod spec has no `containers` list.
    MissingContainers,
    /// A selected container already declares `resources.claims`.
    ExistingContainerClaims { container: String },
    /// Selected containers that the Pod does not have, in ascending order.
    ContainersNotFound { missing: Vec<String> },
    /// No named container requests an accelerator.
    NoRequestingContainers,
    /// Accelerator-requesting containers left out of the selection, in ascending order.
    OmittedRequesters { omitted: Vec<String> },
}

/// The message for an error, as the command line reports it after `invalid input: `.
pub open spec fn error_text(e: &TeeLensError) -> Seq<char> {
    match e {
        TeeLensError::MalformedDeviceClass { entry } =>
            "--device-class must use RESOURCE=DEVICE_CLASS, got "@ + debug_text(entry@),
        TeeLensError::EmptyDeviceClassPart { entry } =>
            "--device-class must use non-empty RESOURCE=DEVICE_CLASS, got "@ + debug_text(entry@),
        TeeLensError::DuplicateDeviceClass { resource } =>
            "duplicate DeviceClass mapping for resource "@ + debug_text(resource@),
        TeeLensError::NoAcceleratorRequests =>
            "the Pod has no accelerator resource requests to compile into DRA"@,
        TeeLensError::MissingDeviceClass { resource } =>
            "missing --device-class mapping for requested resource "@ + debug_text(resource@),
        TeeLensError::RepeatedContainer => "--container was repeated for the same container"@,
        TeeLensError::NotAMapping => "Pod manifest must be a YAML object"@,
        TeeLensError::MissingSpec => "Pod manifest is missing spec"@,
        TeeLensError::ExistingResourceClaims =>
            "Pod already has spec.resourceClaims; merge it manually to avoid overwriting claims"@,
        TeeLensError::MissingContainers => "Pod spec must contain a containers list"@,
        TeeLensError::ExistingContainerClaims { container } =>
            "container "@ + debug_text(container@) + " already has resources.claims; merge it manually"@,
        TeeLensError::ContainersNotFound { missing } =>
            "--container names not found in Pod: "@ + joined(views(missing@), ", "@),
        TeeLensError::NoRequestingContainers =>
            "DRA bundle requires named containers with accelerator requests"@,
        TeeLensError::OmittedRequesters { omitted } =>
            "--container must include every accelerator-requesting container: "@
                + joined(views(omitted@), ", "@),
    }
}

fn with_suffix(head: &str, tail: String) -> (r: String)
    ensures
        r@ == head@ + tail@,
{
    let mut r = String::new();
    r.append(head);
    r.append(tail.as_str());
    r
}

impl TeeLensError {
    /// The message of this error.
    pub fn message(&self) -> (m: String)
        ensures
            m@ == error_text(self),
    {
        match self {
            TeeLensError::MalformedDeviceClass { entry } => with_suffix(
                "--device-class must use RESOURCE=DEVICE_CLASS, got ",
                debug_quoted(entry.as_str()),
            ),
            TeeLensError::EmptyDeviceClassPart { entry } => with_suffix(
                "--device-class must use non-empty RESOURCE=DEVICE_CLASS, got ",
                debug_quoted(entry.as_str()),
            ),
            TeeLensError::DuplicateDeviceClass { resource } => with_suffix(
                "duplicate DeviceClass mapping for resource ",
                debug_quoted(resource.as_str()),
            ),
            TeeLensError::NoAcceleratorRequests => string_of(
                "the Pod has no accelerator resource requests to compile into DRA",
            ),
            TeeLensError::MissingDeviceClass { resource } => with_suffix(
                "missing --device-class mapping for requested resource ",
                debug_quoted(resource.as_str()),
            ),
            TeeLensError::RepeatedContainer => string_of("--container was repeated for the same container"),
            TeeLensError::NotAMapping => string_of("Pod manifest must be a YAML object"),
            TeeLensError::MissingSpec => string_of("Pod manifest is missing spec"),
            TeeLensError::ExistingResourceClaims => string_of(
                "Pod already has spec.resourceClaims; merge it manually to avoid overwriting claims",
            ),
            TeeLensError::MissingContainers => string_of("Pod spec must contain a containers list"),
            TeeLensError::ExistingContainerClaims { container } => {
                let mut r = with_suffix("container ", debug_quoted(container.as_str()));
                r.append(" already has resources.claims; merge it manually");
                r
            },
            TeeLensError::ContainersNotFound { missing } => with_suffix(
                "--container names not found in Pod: ",
                join_strings(missing, ", "),
            ),
            TeeLensError::NoRequestingContainers => string_of(
                "DRA bundle requires named containers with accelerator requests",
            ),
            TeeLensError::OmittedRequesters { omitted } => with_suffix(
                "--container must include every accelerator-requesting container: ",
                join_strings(omitted, ", "),
            ),
        }
    }
}

} // verus!
