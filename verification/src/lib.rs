//! A bridge between a callback-driven transfer worker and a poll-based,
//! single-value asynchronous result.
//!
//! A worker services transfer requests one at a time: it resolves an
//! identifier to a byte payload, re-emits the payload to a [`delegate::Delegate`]
//! in fixed-size chunks, and then signals completion exactly once. The
//! [`adapter::AdapterState`] buffers those callbacks behind shared state and
//! parks a waker so that a suspended poll is resumed exactly when the
//! transfer completes. The [`worker::Intake`] models the worker's queue:
//! first-in-first-out servicing, and a close operation that refuses new
//! submissions while letting everything already queued drain.

pub mod adapter;
pub mod chunk;
pub mod delegate;
pub mod worker;
