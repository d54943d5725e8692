//! Runtime helpers: a slot-based multi-callback dispatcher and an append-only registry.
pub mod delegate;
pub mod static_registry;
