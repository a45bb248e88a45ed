//! A reactive value-binding engine: observable property cells that notify
//! registered listeners synchronously on mutation, one-directional bindings
//! that make a target property mirror a source's future changes, and
//! derived properties recomputed from two sources through a binary
//! operator, eagerly initialised and kept live.
//!
//! The whole property graph lives in one [`cells::Cells`] arena; a
//! [`cells::Property`] is a cheap copyable handle naming one cell of it.
//! Listeners are data rather than closures: outside subscribers are tokens
//! whose firings the engine appends to an event log, in delivery order.
//! What one notification does — depth-first cascades, reentrancy refused as
//! a conflict rather than corruption — is defined by the machine in
//! [`sem`], and the engine's behavioural laws are proved in [`laws`].
//! [`ops`] holds the operator abstraction for derived properties,
//! [`widgets`] the stateless widget stubs, and [`rpc`] the computational
//! half of the request/reply endpoint.

pub mod cells;
pub mod laws;
pub mod ops;
pub mod rpc;
pub mod sem;
pub mod widgets;
