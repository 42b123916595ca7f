//! A tracing garbage collector over a table of records.
//!
//! Records live in the heap of one execution context, a [`GcState`], which
//! the caller passes to every operation. Strong handles ([`Gc`]) count as
//! roots; a collection marks what the roots reach, finalizes the rest, marks
//! again, and sweeps what is still unreachable, cycles included.

pub mod facts;
pub mod gc;
pub mod header;
pub mod heap;
pub mod laws;
pub mod reach;
pub mod trace;
pub mod weak;

pub use gc::{
    configure, finalizer_safe, force_collect, last_collection, stats, teardown, GcBox, GcConfig, GcState, GcStats,
};
pub use header::{GcBoxHeader, GcBoxType, GcPointer, MARK_MASK, ROOTS_MASK, ROOTS_MAX};
pub use heap::{Heap, Record, Unmarked};
pub use trace::{Finalize, Trace};
pub use weak::{Gc, WeakGc, WeakPair};
