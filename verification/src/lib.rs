//! A stop-the-world mark-and-sweep collector over an arena of managed cells.
//!
//! Managed cells live in an arena that the [`gc::Heap`] owns; a [`gc::Gc`]
//! reference is a copyable handle that holds a cell's address. Payloads
//! implement [`gc::Trace`] to trace their outgoing references: tracing a
//! reference marks its target in the [`gc::Tracer`] of the pass, unless it
//! is marked already. A collection keeps exactly the cells that the chosen
//! roots reach, and every contract is stated over the object graph of
//! [`reach`] and the abstract heap and tracer of [`model`].
mod collect;
pub mod gc;
pub mod model;
pub mod reach;
mod seqs;
