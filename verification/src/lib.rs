//! Detection of repeated structural signatures in streams of hierarchical,
//! self-describing values.
//!
//! A *signature* captures the shape of a container value — for a record, its
//! sorted field names and each field's type; for a list or s-expression, the
//! per-position types — while ignoring the scalar payloads. The registry
//! hash-conses equal shapes to stable identifiers, counts how often each
//! shape occurs, and finally inlines shapes that turned out not to be shared.

pub mod collect;
pub mod laws;
pub mod order;
pub mod registry;
pub mod render;
pub mod sig;
