//! A dispatch bridge for model-based testing: a generic value model with a
//! lossless wire codec, a lock-disciplined dispatcher over a user-supplied
//! model, a sequence-execution engine with fail-fast semantics, and the
//! decision logic of the process orchestrator that drives an external
//! exploration engine.

pub mod value;
pub mod order;
pub mod error;
pub mod codec;
pub mod types;
pub mod config;
pub mod traits;
pub mod clock;
pub mod wire;
pub mod engine;
pub mod service;
pub mod runner;

pub use crate::value::{Sentinel, Value, ValueModel};
pub use crate::error::{ErrorModel, MbtError};
pub use crate::codec::{WireEntry, WireValue};
pub use crate::types::{Arg, RoleId};
pub use crate::config::TestOptions;
pub use crate::traits::{AsyncRole, DispatchModel, Model, Role, SnapshotStateGetter, StateGetter};
pub use crate::service::FizzBeeServiceImpl;
pub use crate::runner::{EnvOverrides, RunEvent};
