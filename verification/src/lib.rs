//! A layered associative container for nested scoping.
//!
//! [`ScopeMap`] keeps a stack of scopes ("layers"); each layer can define,
//! shadow, and remove bindings, and lookups resolve from the innermost layer
//! outward. [`ScopeSet`] is a value-less projection of the same structure.

pub mod laws;
pub mod map;
pub mod set;
pub mod view;

pub use crate::map::ScopeMap;
pub use crate::set::ScopeSet;
