//! Rewrites to canonical form that run before type checking.

pub mod arity;
pub mod inputs;
pub mod lifetime;
pub mod self_alias;
