//! Reading what a Kubernetes cluster reports, and writing it down for a person.
//!
//! Everything here is a function from plain values to plain values. Asking the
//! cluster, reading files and owning the terminal belong to the program around
//! this library.

pub mod format;
pub mod k8s;
pub mod kubeconfig;
pub mod laws;
pub mod name_map;
pub mod progress;
pub mod startup;
pub mod text;
pub mod theme;
pub mod time;
pub mod yaml;
