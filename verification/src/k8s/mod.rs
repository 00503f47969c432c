//! What Kubernetes reports, and what each column makes of it.

pub mod api;
pub mod canonical;
pub mod metrics;
pub mod order;
pub mod pods;
pub mod quantity;
pub mod resource;
pub mod selector;
