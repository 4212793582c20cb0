//! Trigger routing for a worker that runs the functions of many applications.
//!
//! Applications declare, for each function, what triggers it and which keys of
//! the key-value store it may touch. This crate checks such declarations,
//! decides whether a key matches a declared pattern and whether an operation
//! on it is allowed, and keeps the index from each pattern to the functions
//! that a mutation of a matching key must trigger.

pub mod application;
pub mod assoc;
pub mod declaration;
pub mod error;
pub mod function;
pub mod laws;
pub mod pattern;
pub mod registry;
pub mod text;

pub use crate::application::AppMeta;
pub use crate::declaration::{AppMetaYaml, FnArgYaml, FnEventYaml, FnMetaYaml};
pub use crate::error::MetaError;
pub use crate::function::{FnArg, FnEvent, FnMeta, KvMeta, KvOps};
pub use crate::pattern::KeyPattern;
pub use crate::registry::AppMetaManager;
