//! The contracts a user's model implements. The bridge consumes these; it
//! does not implement them. Lifecycle and role discovery take the model
//! exclusively (`&mut self`); action execution shares it (`&self`), so many
//! actions may run against the model at once while initialization, teardown
//! and role enumeration are serialized against them.

use vstd::prelude::*;
use crate::error::MbtError;
use crate::types::{Arg, RoleId};
use crate::value::Value;

verus! {

/// Read access to a named piece of model state.
pub trait StateGetter {
    fn get_state(&self, key: &str) -> Result<Value, MbtError>;
}

/// A full snapshot of model state as named values.
pub trait SnapshotStateGetter {
    fn snapshot(&self) -> Result<Vec<(String, Value)>, MbtError>;
}

/// The base marker trait for all components representing a role in the
/// system.
pub trait Role {

}

/// Roles that are safe to share and execute concurrently.
pub trait AsyncRole: Role + Send + Sync {

}

impl<T: Role + Send + Sync> AsyncRole for T {

}

/// The lifecycle contract: initialization before any action executes, and a
/// terminal teardown.
pub trait Model: Send + Sync {
    /// Initializes the model state before a test run.
    fn init(&mut self) -> Result<(), MbtError>;

    /// Cleans up the model state after a test run; no further operations are
    /// defined after it.
    fn cleanup(&mut self) -> Result<(), MbtError>;
}

/// The dispatch contract: action execution under shared access, role
/// discovery under exclusive access.
pub trait DispatchModel: Send + Sync {
    /// Executes a named action on a specific role instance.
    fn execute(&self, role_id: &RoleId, function_name: &str, args: &[Arg]) -> Result<
        Value,
        MbtError,
    >;

    /// Discovers and returns all role instances managed by the model;
    /// implementations may lazily materialize roles, so this requires
    /// exclusive access by contract.
    fn get_roles(&mut self) -> Result<Vec<RoleId>, MbtError>;
}

} // verus!
