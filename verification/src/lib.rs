//! A fixed-capacity circular buffer: a FIFO container that accepts
//! unbounded pushes by silently discarding the oldest element once full,
//! with constant-time push, pop, and random access by logical position
//! (including negative, from-the-end indexing).
//!
//! Two storage strategies translate logical cursor values to physical
//! slots: a bitmask for power-of-two capacities, and a general modulo for
//! arbitrary nonzero capacities. The strategy is fixed at the type level
//! for the lifetime of a buffer.
use vstd::prelude::*;

pub mod buffer;
pub mod laws;
pub mod strategy;

pub use buffer::extended;
pub use buffer::pushed;
pub use buffer::spec_offset_of;
pub use buffer::AllocRingBuffer;
pub use buffer::RINGBUFFER_DEFAULT_CAPACITY;
pub use laws::law_capacity_conservation;
pub use laws::law_capacity_conservation_runs;
pub use laws::law_clear_then_push;
pub use laws::law_fifo_order;
pub use laws::law_negative_index_equivalence;
pub use laws::law_oldest_first_eviction;
pub use strategy::NonPowerOfTwo;
pub use strategy::PowerOfTwo;
pub use strategy::RingbufferSize;
pub use strategy::Sealed;
