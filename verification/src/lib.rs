//! Preflight checks for confidential Kubernetes workloads: placement planning
//! over a node inventory, Kata readiness reports, and compilation of
//! accelerator requests into Dynamic Resource Allocation objects.
pub mod text;
pub mod sorted_map;
pub mod model;
pub mod accel;
pub mod error;
pub mod dra;
pub mod yaml;
pub mod patch;
pub mod report;
pub mod plan;
pub mod laws;
