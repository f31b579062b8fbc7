//! The buffer's laws: properties that relate several operations, stated
//! over the spec functions that the operations' own contracts use —
//! `pushed` for a single push, `extended` for a run of pushes,
//! `spec_offset_of` for indexed access — and proved once and for all.
use vstd::prelude::*;

use crate::buffer::extended;
use crate::buffer::pushed;
use crate::buffer::spec_offset_of;

verus! {

/// Capacity conservation: a push never takes the length above the
/// capacity, and once the buffer is full every subsequent push keeps it
/// exactly full. (That a well-formed buffer never exceeds its capacity
/// in the first place is `AllocRingBuffer::lemma_len_le_capacity`.)
pub proof fn law_capacity_conservation<T>(s: Seq<T>, value: T, cap: int)
    requires
        cap > 0,
        s.len() <= cap,
    ensures
        pushed(s, value, cap).len() <= cap,
        s.len() == cap ==> pushed(s, value, cap).len() == cap,
        s.len() < cap ==> pushed(s, value, cap).len() == s.len() + 1,
{
}

/// Capacity conservation over whole runs of pushes: however many values
/// are pushed, the length never exceeds the capacity, and once enough
/// values have gone in to fill the buffer, it is exactly full.
pub proof fn law_capacity_conservation_runs<T>(s: Seq<T>, vals: Seq<T>, cap: int)
    requires
        cap > 0,
        s.len() <= cap,
    ensures
        extended(s, vals, cap).len() <= cap,
        s.len() + vals.len() >= cap ==> extended(s, vals, cap).len() == cap,
{
}

/// Oldest-first eviction: pushing more values than the capacity into an
/// empty buffer leaves exactly the last `cap` of them, in their order.
pub proof fn law_oldest_first_eviction<T>(vals: Seq<T>, cap: int)
    requires
        0 < cap < vals.len(),
    ensures
        extended(Seq::<T>::empty(), vals, cap).len() == cap,
        forall|i: int|
            0 <= i < cap ==> extended(Seq::<T>::empty(), vals, cap)[i] == vals[vals.len() - cap
                + i],
{
    assert(Seq::<T>::empty() + vals =~= vals);
}

/// FIFO order: with no evictions — at most `cap` values pushed into an
/// empty buffer — the buffer holds exactly the pushed values, and since
/// each dequeue returns the view's head and leaves its tail, the k-th
/// dequeue returns the k-th value pushed.
pub proof fn law_fifo_order<T>(vals: Seq<T>, cap: int, k: int)
    requires
        0 < cap,
        0 < vals.len() <= cap,
        0 <= k < vals.len(),
    ensures
        extended(Seq::<T>::empty(), vals, cap) == vals,
        vals.skip(k)[0] == vals[k],
        vals.skip(k).skip(1) == vals.skip(k + 1),
{
    assert(extended(Seq::<T>::empty(), vals, cap) =~= vals);
    assert(vals.skip(k).skip(1) =~= vals.skip(k + 1));
}

/// Negative-index equivalence: index `-1` addresses the element that
/// `back` returns and index `0` the element that `peek` returns, on any
/// non-empty buffer.
pub proof fn law_negative_index_equivalence(len: int)
    requires
        len > 0,
    ensures
        spec_offset_of(len, -1) == len - 1,
        spec_offset_of(len, 0) == 0,
{
}

/// Clear resets cleanly: `clear` leaves the empty view, and a push on
/// the empty view places its value alone, at logical position zero.
pub proof fn law_clear_then_push<T>(value: T, cap: int)
    requires
        cap > 0,
    ensures
        pushed(Seq::<T>::empty(), value, cap) == seq![value],
        pushed(Seq::<T>::empty(), value, cap)[0] == value,
{
    assert(pushed(Seq::<T>::empty(), value, cap) =~= seq![value]);
}

} // verus!
