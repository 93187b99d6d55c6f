//! A scoped symbol table: a chain of nested scopes, each one a map from keys
//! to values, where lookups see the innermost binding of a key.
//!
//! A stack is viewed as a `Seq<Map<K, V>>`, outermost scope first; `model`
//! defines what each operation does to that sequence and `laws` proves how
//! the operations interact. Operations that read or write bindings require
//! `obeys_key_model::<K>()`: the key type's `Eq` and `Hash` agree with its
//! equality, which is what a `HashMap` needs to behave as a map.
use vstd::prelude::*;

pub mod laws;
pub mod model;
mod stack;

pub use stack::ScopedStack;
