//! A timed custodial-inheritance registry: each owner keeps one plan that holds
//! value for up to five beneficiaries, who may claim equal shares once the owner
//! has stopped resetting the plan's timer for its whole timeout period.
pub mod error;
pub mod identity;
pub mod plan;
pub mod registry;

pub use error::InheritanceError;
pub use identity::Identity;
pub use plan::{InheritanceConfig, PlanState};
pub use registry::{InheritanceContract, RegistryState};
