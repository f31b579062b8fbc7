//! The buffer core: a raw contiguous region of `capacity` slots, two
//! ever-increasing logical cursors, and the liveness invariant that a
//! slot holds a value exactly when its logical position lies in
//! `[readptr, writeptr)`.
use core::marker::PhantomData;

use vstd::arithmetic::div_mod::lemma_fundamental_div_mod;
use vstd::arithmetic::div_mod::lemma_mod_division_less_than_divisor;
use vstd::arithmetic::div_mod::lemma_mod_multiples_vanish;
use vstd::arithmetic::div_mod::lemma_small_mod;
use vstd::arithmetic::power2::lemma_pow2_adds;
use vstd::arithmetic::power2::lemma_pow2_strictly_increases;
use vstd::arithmetic::power2::lemma2_to64;
use vstd::arithmetic::power2::pow2;
use vstd::bits::lemma_usize_pow2_no_overflow;
use vstd::pervasive::cloned;
use vstd::prelude::*;
use vstd::std_specs::cmp::PartialEqSpec;

use crate::strategy::NonPowerOfTwo;
use crate::strategy::PowerOfTwo;
use crate::strategy::RingbufferSize;

verus! {

/// Two logical positions less than one capacity apart occupy distinct
/// physical slots.
proof fn lemma_mod_injective(cap: int, c1: int, c2: int)
    requires
        cap > 0,
        0 <= c1,
        c1 <= c2 < c1 + cap,
        c1 % cap == c2 % cap,
    ensures
        c1 == c2,
{
    lemma_fundamental_div_mod(c1, cap);
    lemma_fundamental_div_mod(c2, cap);
    assert(c1 == c2) by (nonlinear_arith)
        requires
            cap > 0,
            c1 == cap * (c1 / cap) + c1 % cap,
            c2 == cap * (c2 / cap) + c2 % cap,
            c1 % cap == c2 % cap,
            c1 <= c2 < c1 + cap,
    ;
}

/// The capacity of a buffer created by `new` or `default` (`1024`).
pub const RINGBUFFER_DEFAULT_CAPACITY: usize = 1024;

/// A fixed-capacity circular FIFO buffer.
///
/// `capacity` slots are allocated once, at construction. The cursors
/// `readptr` and `writeptr` are logical, ever-increasing counters: they
/// are never reduced modulo the capacity themselves, only translated to
/// physical slot indices on access through the `SIZE` strategy. The
/// logical positions in `[readptr, writeptr)` are the live elements,
/// oldest first; every other slot is empty.
#[derive(Debug)]
pub struct AllocRingBuffer<T, SIZE: RingbufferSize = PowerOfTwo> {
    buf: Vec<Option<T>>,
    capacity: usize,
    readptr: usize,
    writeptr: usize,
    mode: PhantomData<SIZE>,
}

impl<T, SIZE: RingbufferSize> AllocRingBuffer<T, SIZE> {
    /// The fixed capacity, as a mathematical integer.
    pub closed spec fn spec_capacity(&self) -> int {
        self.capacity as int
    }

    /// Well-formedness: the region is sized exactly to the capacity, the
    /// capacity suits the strategy, the cursors delimit at most
    /// `capacity` live positions, and a slot holds a value exactly when
    /// some live logical position maps to it.
    pub closed spec fn inv(&self) -> bool {
        &&& SIZE::spec_valid_capacity(self.capacity)
        &&& self.capacity <= usize::MAX / 2
        &&& self.buf@.len() == self.capacity
        &&& self.readptr <= self.writeptr
        &&& self.writeptr - self.readptr <= self.capacity
        &&& forall|c: int|
            self.readptr <= c < self.writeptr ==> (#[trigger] self.buf@[c % self.spec_capacity()]) is Some
        &&& forall|p: int|
            0 <= p < self.spec_capacity() && !self.slot_live(p) ==> (#[trigger] self.buf@[p]) is None
    }

    /// Whether some live logical position maps to physical slot `p`.
    spec fn slot_live(&self, p: int) -> bool {
        exists|c: int|
            self.readptr <= c < self.writeptr && #[trigger] (c % self.spec_capacity()) == p
    }

    /// The live elements, oldest first.
    pub closed spec fn view(&self) -> Seq<T> {
        Seq::new(
            (self.writeptr - self.readptr) as nat,
            |i: int| self.buf@[(self.readptr + i) % self.spec_capacity()].unwrap(),
        )
    }

    /// A well-formed buffer never holds more elements than its capacity.
    pub proof fn lemma_len_le_capacity(&self)
        requires
            self.inv(),
        ensures
            self@.len() <= self.spec_capacity(),
            self.spec_capacity() > 0,
    {
        SIZE::valid_capacity_positive(self.capacity);
    }

    /// Allocates the region without validating the capacity: the single
    /// allocation choke point, reached only once the strategy's capacity
    /// precondition is established.
    fn with_capacity_unchecked(cap: usize) -> (r: Self)
        requires
            SIZE::spec_valid_capacity(cap),
            cap <= usize::MAX / 2,
        ensures
            r.inv(),
            r@ == Seq::<T>::empty(),
            r.spec_capacity() == cap,
    {
        let mut buf: Vec<Option<T>> = Vec::new();
        let mut i: usize = 0;
        while i < cap
            invariant
                i <= cap,
                buf@.len() == i,
                forall|k: int| 0 <= k < i ==> (#[trigger] buf@[k]) is None,
            decreases cap - i,
        {
            buf.push(None);
            i = i + 1;
        }
        let r = Self { buf, capacity: cap, readptr: 0, writeptr: 0, mode: PhantomData };
        proof {
            SIZE::valid_capacity_positive(cap);
            assert(r@ =~= Seq::<T>::empty());
        }
        r
    }

    /// The number of live elements.
    pub fn len(&self) -> (r: usize)
        requires
            self.inv(),
        ensures
            r == self@.len(),
    {
        self.writeptr - self.readptr
    }

    /// Whether no element is live.
    pub fn is_empty(&self) -> (r: bool)
        requires
            self.inv(),
        ensures
            r == (self@.len() == 0),
    {
        self.writeptr == self.readptr
    }

    /// Whether the live elements fill the whole capacity, so that the
    /// next push evicts the oldest.
    pub fn is_full(&self) -> (r: bool)
        requires
            self.inv(),
        ensures
            r == (self@.len() == self.spec_capacity()),
    {
        self.writeptr - self.readptr == self.capacity
    }

    /// The fixed capacity.
    pub fn capacity(&self) -> (r: usize)
        ensures
            r as int == self.spec_capacity(),
    {
        self.capacity
    }

    /// Destroys the oldest live element and advances the read cursor,
    /// returning the element. The write cursor does not move.
    fn take_front(&mut self) -> (r: Option<T>)
        requires
            old(self).inv(),
            old(self)@.len() > 0,
        ensures
            final(self).inv(),
            final(self)@ == old(self)@.skip(1),
            final(self).spec_capacity() == old(self).spec_capacity(),
            final(self).writeptr == old(self).writeptr,
            r == Some(old(self)@[0]),
    {
        proof {
            SIZE::valid_capacity_positive(self.capacity);
            lemma_mod_division_less_than_divisor(self.readptr as int, self.capacity as int);
        }
        let slot = SIZE::mask(self.capacity, self.readptr);
        let e = &mut self.buf[slot];
        let v = e.take();
        self.readptr = self.readptr + 1;
        proof {
            let cap = old(self).spec_capacity();
            let rp = old(self).readptr as int;
            let wp = old(self).writeptr as int;
            let rslot = rp % cap;
            assert forall|c: int|
                self.readptr <= c < self.writeptr implies (#[trigger] self.buf@[c % cap]) is Some by {
                if c % cap == rslot {
                    lemma_mod_injective(cap, rp, c);
                }
                assert(old(self).buf@[c % cap] is Some);
            };
            assert forall|p: int|
                0 <= p < cap && !self.slot_live(p) implies (#[trigger] self.buf@[p]) is None by {
                if p != rslot {
                    if old(self).slot_live(p) {
                        let c = choose|c: int| rp <= c < wp && #[trigger] (c % cap) == p;
                        assert(rp + 1 <= c < wp);
                        assert((c % self.spec_capacity()) == p);
                        assert(self.slot_live(p));
                    }
                    assert(old(self).buf@[p] is None);
                }
            };
            assert(self.inv());
            assert forall|i: int| 0 <= i < self@.len() implies self@[i] == old(self)@.skip(1)[i] by {
                if (rp + 1 + i) % cap == rslot {
                    lemma_mod_injective(cap, rp, rp + 1 + i);
                }
                assert(self.buf@[(rp + 1 + i) % cap] == old(self).buf@[(rp + 1 + i) % cap]);
            };
            assert(self@ =~= old(self)@.skip(1));
            assert(old(self).buf@[rp % cap] is Some);
        }
        v
    }

    /// Removes and returns the oldest live element, or nothing when the
    /// buffer is empty.
    pub fn dequeue(&mut self) -> (r: Option<T>)
        requires
            old(self).inv(),
        ensures
            final(self).inv(),
            final(self).spec_capacity() == old(self).spec_capacity(),
            old(self)@.len() == 0 ==> r is None && final(self)@ == old(self)@,
            old(self)@.len() > 0 ==> r == Some(old(self)@[0]) && final(self)@ == old(self)@.skip(1),
    {
        if self.is_empty() {
            None
        } else {
            self.take_front()
        }
    }

    /// Constructs the value at the write cursor's slot and advances the
    /// write cursor. The buffer must have room.
    fn write_back(&mut self, value: T)
        requires
            old(self).inv(),
            old(self)@.len() < old(self).spec_capacity(),
            old(self).writeptr < usize::MAX,
        ensures
            final(self).inv(),
            final(self)@ == old(self)@.push(value),
            final(self).spec_capacity() == old(self).spec_capacity(),
    {
        proof {
            SIZE::valid_capacity_positive(self.capacity);
            lemma_mod_division_less_than_divisor(self.writeptr as int, self.capacity as int);
        }
        let slot = SIZE::mask(self.capacity, self.writeptr);
        let e = &mut self.buf[slot];
        *e = Some(value);
        self.writeptr = self.writeptr + 1;
        proof {
            let cap = old(self).spec_capacity();
            let rp = old(self).readptr as int;
            let wp = old(self).writeptr as int;
            let wslot = wp % cap;
            assert forall|c: int|
                self.readptr <= c < self.writeptr implies (#[trigger] self.buf@[c % cap]) is Some by {
                if c < wp && c % cap != wslot {
                    assert(old(self).buf@[c % cap] is Some);
                }
            };
            assert forall|p: int|
                0 <= p < cap && !self.slot_live(p) implies (#[trigger] self.buf@[p]) is None by {
                if old(self).slot_live(p) {
                    let c = choose|c: int| rp <= c < wp && #[trigger] (c % cap) == p;
                    assert((c % self.spec_capacity()) == p);
                    assert(self.slot_live(p));
                }
                assert((wp % self.spec_capacity()) == wslot);
                assert(self.slot_live(wslot));
                assert(p != wslot);
                assert(old(self).buf@[p] is None);
            };
            assert(self.inv());
            assert forall|i: int| 0 <= i < old(self)@.len() implies self@[i] == old(self)@[i] by {
                if (rp + i) % cap == wslot {
                    lemma_mod_injective(cap, rp + i, wp);
                }
                assert(self.buf@[(rp + i) % cap] == old(self).buf@[(rp + i) % cap]);
            };
            assert(self@[old(self)@.len() as int] == value);
            assert(self@ =~= old(self)@.push(value));
        }
    }

    /// Slides both cursors down by a shared multiple of the capacity so
    /// that the write cursor regains headroom. Every observable value —
    /// the live elements, their order, their physical slots — is left
    /// unchanged; only the (private) cursor representatives move. Called
    /// exactly when the write cursor is about to outgrow the machine
    /// word, which takes a number of pushes no real program performs.
    fn renormalize(&mut self)
        requires
            old(self).inv(),
            old(self).writeptr == usize::MAX,
        ensures
            final(self).inv(),
            final(self)@ == old(self)@,
            final(self).spec_capacity() == old(self).spec_capacity(),
            final(self).writeptr < usize::MAX,
    {
        proof {
            SIZE::valid_capacity_positive(self.capacity);
            lemma_fundamental_div_mod(self.readptr as int, self.capacity as int);
            lemma_mod_division_less_than_divisor(self.readptr as int, self.capacity as int);
        }
        let q = self.readptr / self.capacity;
        let shift = q * self.capacity;
        proof {
            let cap = old(self).spec_capacity();
            let rp = old(self).readptr as int;
            assert(rp >= cap);
            assert(q >= 1 && cap * (q as int) >= cap && (q as int) * cap == cap * (q as int))
                by (nonlinear_arith)
                requires
                    rp == cap * (q as int) + rp % cap,
                    0 <= rp % cap < cap,
                    rp >= cap,
                    cap > 0,
            ;
            assert(shift as int == (q as int) * cap);
            assert(shift <= old(self).readptr);
        }
        self.readptr = self.readptr - shift;
        self.writeptr = self.writeptr - shift;
        proof {
            let cap = old(self).spec_capacity();
            let rp = old(self).readptr as int;
            let wp = old(self).writeptr as int;
            let s = shift as int;
            assert(s == (q as int) * cap);
            assert forall|c: int|
                self.readptr <= c < self.writeptr implies (#[trigger] self.buf@[c % cap]) is Some by {
                lemma_mod_shift_multiple(c, q as int, cap);
                assert((c + s) % cap == c % cap);
                assert(old(self).buf@[(c + s) % cap] is Some);
            };
            assert forall|p: int|
                0 <= p < cap && !self.slot_live(p) implies (#[trigger] self.buf@[p]) is None by {
                if old(self).slot_live(p) {
                    let c = choose|c: int| rp <= c < wp && #[trigger] (c % cap) == p;
                    lemma_mod_shift_multiple(c - s, q as int, cap);
                    assert(((c - s) % self.spec_capacity()) == p);
                    assert(self.slot_live(p));
                }
                assert(old(self).buf@[p] is None);
            };
            assert(self.inv());
            assert forall|i: int| 0 <= i < self@.len() implies self@[i] == old(self)@[i] by {
                lemma_mod_shift_multiple(rp - s + i, q as int, cap);
                assert((rp - s + i) % cap == (rp + i) % cap);
                assert(self.buf@[(rp - s + i) % cap] == old(self).buf@[(rp + i) % cap]);
            };
            assert(self@ =~= old(self)@);
        }
    }

    /// Accepts a value by move; never rejects it. If the buffer is full,
    /// the oldest live element is destroyed first — eviction, not
    /// rejection — and only then is the new value written.
    pub fn push(&mut self, value: T)
        requires
            old(self).inv(),
        ensures
            final(self).inv(),
            final(self).spec_capacity() == old(self).spec_capacity(),
            final(self)@ == pushed(old(self)@, value, old(self).spec_capacity()),
            final(self)@.len() <= old(self).spec_capacity(),
            old(self)@.len() == old(self).spec_capacity() ==> final(self)@.len()
                == old(self).spec_capacity(),
    {
        proof {
            SIZE::valid_capacity_positive(self.capacity);
        }
        if self.writeptr == usize::MAX {
            self.renormalize();
        }
        if self.is_full() {
            let _evicted = self.take_front();
        }
        self.write_back(value);
    }

    /// Borrows the live element at the given offset from the oldest.
    fn get_ref(&self, off: usize) -> (r: &T)
        requires
            self.inv(),
            off < self@.len(),
        ensures
            *r == self@[off as int],
    {
        proof {
            SIZE::valid_capacity_positive(self.capacity);
            lemma_mod_division_less_than_divisor(
                (self.readptr + off) as int,
                self.capacity as int,
            );
        }
        let logical = self.readptr + off;
        let slot = SIZE::mask(self.capacity, logical);
        match &self.buf[slot] {
            Some(x) => x,
            None => {
                proof {
                    assert(self.buf@[(self.readptr + off) % self.spec_capacity()] is Some);
                    assert(false);
                }
                vstd::pervasive::unreached()
            },
        }
    }

    /// Borrows the oldest live element, or nothing when empty.
    pub fn peek(&self) -> (r: Option<&T>)
        requires
            self.inv(),
        ensures
            (match r {
                Some(x) => self@.len() > 0 && *x == self@[0],
                None => self@.len() == 0,
            }),
    {
        if self.is_empty() {
            None
        } else {
            Some(self.get_ref(0))
        }
    }

    /// Borrows the most recently pushed element, or nothing when empty.
    pub fn back(&self) -> (r: Option<&T>)
        requires
            self.inv(),
        ensures
            (match r {
                Some(x) => self@.len() > 0 && *x == self@[self@.len() - 1],
                None => self@.len() == 0,
            }),
    {
        if self.is_empty() {
            None
        } else {
            let len = self.len();
            Some(self.get_ref(len - 1))
        }
    }

    /// Borrows the element that the index addresses — non-negative
    /// indices count from the oldest element, negative ones backward
    /// from the newest — or nothing when the index falls outside the
    /// live range.
    pub fn get(&self, index: isize) -> (r: Option<&T>)
        requires
            self.inv(),
        ensures
            (match r {
                Some(x) => {
                    &&& 0 <= spec_offset_of(self@.len() as int, index as int) < self@.len()
                    &&& *x == self@[spec_offset_of(self@.len() as int, index as int)]
                },
                None => !(0 <= spec_offset_of(self@.len() as int, index as int)
                    < self@.len()),
            }),
    {
        let len = self.len();
        if index >= 0 {
            let off = index as usize;
            if off < len {
                Some(self.get_ref(off))
            } else {
                None
            }
        } else {
            let neg = ((-(index + 1)) as usize) + 1;
            proof {
                assert(neg == -(index as int));
            }
            if neg <= len {
                Some(self.get_ref(len - neg))
            } else {
                None
            }
        }
    }

    /// Borrows the element that the index addresses; the index must lie
    /// in the live range — the "I am certain this is in range" variant
    /// of `get`.
    pub fn index(&self, index: isize) -> (r: &T)
        requires
            self.inv(),
            0 <= spec_offset_of(self@.len() as int, index as int) < self@.len(),
        ensures
            *r == self@[spec_offset_of(self@.len() as int, index as int)],
    {
        match self.get(index) {
            Some(x) => x,
            None => {
                proof {
                    assert(false);
                }
                vstd::pervasive::unreached()
            },
        }
    }

    /// Exclusively borrows the element that the index addresses; the
    /// index must lie in the live range. The buffer afterwards holds
    /// whatever the caller leaves in the borrow.
    pub fn index_mut(&mut self, index: isize) -> (r: &mut T)
        requires
            old(self).inv(),
            0 <= spec_offset_of(old(self)@.len() as int, index as int) < old(self)@.len(),
        ensures
            final(self).inv(),
            final(self).spec_capacity() == old(self).spec_capacity(),
            *r == old(self)@[spec_offset_of(old(self)@.len() as int, index as int)],
            final(self)@ =~= old(self)@.update(
                spec_offset_of(old(self)@.len() as int, index as int),
                *final(r),
            ),
    {
        let len = self.len();
        let off: usize = if index >= 0 {
            index as usize
        } else {
            let neg = ((-(index + 1)) as usize) + 1;
            proof {
                assert(neg == -(index as int));
            }
            len - neg
        };
        proof {
            SIZE::valid_capacity_positive(self.capacity);
            lemma_mod_division_less_than_divisor(
                (self.readptr + off) as int,
                self.capacity as int,
            );
            let cap = self.spec_capacity();
            let rp = self.readptr as int;
            let wp = self.writeptr as int;
            let slot = (rp + off) % cap;
            assert((rp + off) % self.spec_capacity() == slot);
            assert(self.slot_live(slot));
            assert forall|c: int| rp <= c < wp && c != rp + off implies #[trigger] (c % cap)
                != slot by {
                if c % cap == slot {
                    if c < rp + off {
                        lemma_mod_injective(cap, c, rp + off);
                    } else {
                        lemma_mod_injective(cap, rp + off, c);
                    }
                }
            };
            assert(self.buf@[slot] is Some);
        }
        let logical = self.readptr + off;
        let slot = SIZE::mask(self.capacity, logical);
        let e = &mut self.buf[slot];
        match e {
            Some(x) => x,
            None => {
                proof {
                    assert(false);
                }
                vstd::pervasive::unreached()
            },
        }
    }

    /// Exclusively borrows the element that the index addresses, or
    /// nothing when the index falls outside the live range; the `get`
    /// of mutation.
    pub fn get_mut(&mut self, index: isize) -> (r: Option<&mut T>)
        requires
            old(self).inv(),
        ensures
            final(self).inv(),
            final(self).spec_capacity() == old(self).spec_capacity(),
            !(0 <= spec_offset_of(old(self)@.len() as int, index as int) < old(self)@.len())
                ==> r is None && final(self)@ == old(self)@,
            (0 <= spec_offset_of(old(self)@.len() as int, index as int) < old(self)@.len())
                ==> r is Some && *r.unwrap() == old(self)@[spec_offset_of(
                old(self)@.len() as int,
                index as int,
            )] && final(self)@ =~= old(self)@.update(
                spec_offset_of(old(self)@.len() as int, index as int),
                *final(r.unwrap()),
            ),
    {
        let len = self.len();
        let in_range: bool = if index >= 0 {
            (index as usize) < len
        } else {
            let neg = ((-(index + 1)) as usize) + 1;
            proof {
                assert(neg == -(index as int));
            }
            neg <= len
        };
        if in_range {
            Some(self.index_mut(index))
        } else {
            None
        }
    }

    /// Destroys every live element and resets both cursors; the
    /// capacity and the allocation are retained.
    pub fn clear(&mut self)
        requires
            old(self).inv(),
        ensures
            final(self).inv(),
            final(self)@ == Seq::<T>::empty(),
            final(self).spec_capacity() == old(self).spec_capacity(),
    {
        let cap = self.capacity;
        let mut i: usize = 0;
        while i < cap
            invariant
                i <= cap,
                self.capacity == cap,
                self.buf@.len() == cap,
                self.readptr == old(self).readptr,
                self.writeptr == old(self).writeptr,
                SIZE::spec_valid_capacity(cap),
                cap <= usize::MAX / 2,
                forall|k: int| 0 <= k < i ==> (#[trigger] self.buf@[k]) is None,
            decreases cap - i,
        {
            let e = &mut self.buf[i];
            *e = None;
            i = i + 1;
        }
        self.readptr = 0;
        self.writeptr = 0;
        proof {
            assert(self@ =~= Seq::<T>::empty());
        }
    }

    /// Pushes every element of the input in order, subject to the
    /// normal push and eviction rule: if the input is longer than the
    /// capacity, only the last `capacity` elements survive.
    pub fn extend(&mut self, values: Vec<T>)
        requires
            old(self).inv(),
        ensures
            final(self).inv(),
            final(self).spec_capacity() == old(self).spec_capacity(),
            final(self)@ == extended(old(self)@, values@, old(self).spec_capacity()),
    {
        proof {
            self.lemma_len_le_capacity();
        }
        let ghost vals0 = values@;
        let ghost cap = old(self).spec_capacity();
        let mut values = values;
        let mut rev: Vec<T> = Vec::new();
        proof {
            assert(vals0 =~= values@ + rev@.reverse());
        }
        while values.len() > 0
            invariant
                vals0 == values@ + rev@.reverse(),
            decreases values@.len(),
        {
            match values.pop() {
                Some(v) => {
                    rev.push(v);
                    proof {
                        assert(vals0 =~= values@ + rev@.reverse());
                    }
                },
                None => {
                    proof {
                        assert(false);
                    }
                },
            }
        }
        proof {
            assert(rev@.reverse() =~= vals0);
        }
        let ghost mut k: int = 0;
        while rev.len() > 0
            invariant
                self.inv(),
                self.spec_capacity() == cap,
                0 < cap,
                old(self)@.len() <= cap,
                0 <= k <= vals0.len(),
                rev@.reverse() == vals0.skip(k),
                self@ == extended(old(self)@, vals0.take(k), cap),
            decreases rev@.len(),
        {
            let ghost rev0 = rev@;
            match rev.pop() {
                Some(v) => {
                    proof {
                        assert(rev0.reverse().len() == rev0.len());
                        assert(k < vals0.len());
                        assert(rev0.reverse()[0] == v);
                        assert(v == vals0.skip(k)[0]);
                        assert(v == vals0[k]);
                        assert forall|i2: int|
                            0 <= i2 < rev@.len() implies rev@.reverse()[i2] == vals0.skip(
                            k + 1,
                        )[i2] by {
                            assert(rev@.reverse()[i2] == rev@[rev@.len() - 1 - i2]);
                            assert(rev@[rev@.len() - 1 - i2] == rev0[rev0.len() - 2 - i2]);
                            assert(rev0.reverse()[i2 + 1] == rev0[rev0.len() - 2 - i2]);
                            assert(vals0.skip(k)[i2 + 1] == vals0[k + 1 + i2]);
                        };
                        assert(rev@.reverse() =~= vals0.skip(k + 1));
                        lemma_extended_push(old(self)@, vals0.take(k), v, cap);
                        assert(vals0.take(k).push(v) =~= vals0.take(k + 1));
                    }
                    self.push(v);
                    proof {
                        k = k + 1;
                    }
                },
                None => {
                    proof {
                        assert(false);
                    }
                },
            }
        }
        proof {
            assert(vals0.take(k) =~= vals0);
        }
    }

    /// Destroys every live element, then runs the generator exactly
    /// `capacity` times, writing each result into successive physical
    /// slots in logical order: the buffer comes out completely full.
    pub fn fill_with<F: Fn() -> T>(&mut self, f: F)
        requires
            old(self).inv(),
            call_requires(f, ()),
        ensures
            final(self).inv(),
            final(self).spec_capacity() == old(self).spec_capacity(),
            final(self)@.len() == old(self).spec_capacity(),
            forall|i: int|
                0 <= i < final(self)@.len() ==> call_ensures(f, (), #[trigger] final(self)@[i]),
    {
        self.clear();
        self.readptr = 0;
        self.writeptr = self.capacity;
        let cap = self.capacity;
        let mut i: usize = 0;
        while i < cap
            invariant
                i <= cap,
                self.capacity == cap,
                self.buf@.len() == cap,
                self.readptr == 0,
                self.writeptr == cap,
                SIZE::spec_valid_capacity(cap),
                cap <= usize::MAX / 2,
                call_requires(f, ()),
                forall|k: int|
                    0 <= k < i ==> (#[trigger] self.buf@[k]) is Some && call_ensures(
                        f,
                        (),
                        self.buf@[k].unwrap(),
                    ),
            decreases cap - i,
        {
            let v = f();
            let e = &mut self.buf[i];
            *e = Some(v);
            i = i + 1;
        }
        proof {
            let c = cap as int;
            assert forall|k: int| 0 <= k < c implies #[trigger] (k % c) == k by {
                lemma_small_mod(k as nat, cap as nat);
            };
            assert forall|p: int| 0 <= p < c implies self.slot_live(p) by {
                assert((p % self.spec_capacity()) == p);
            };
            assert(self.inv());
            assert forall|i2: int|
                0 <= i2 < self@.len() implies call_ensures(f, (), #[trigger] self@[i2]) by {
                assert(self@[i2] == self.buf@[i2].unwrap());
            };
        }
    }

    /// Removes and returns all live elements, oldest first, leaving the
    /// buffer empty.
    pub fn drain(&mut self) -> (r: Vec<T>)
        requires
            old(self).inv(),
        ensures
            final(self).inv(),
            final(self)@ == Seq::<T>::empty(),
            final(self).spec_capacity() == old(self).spec_capacity(),
            r@ == old(self)@,
    {
        let mut out: Vec<T> = Vec::new();
        while !self.is_empty()
            invariant
                self.inv(),
                self.spec_capacity() == old(self).spec_capacity(),
                out@.len() <= old(self)@.len(),
                out@ == old(self)@.take(out@.len() as int),
                self@ == old(self)@.skip(out@.len() as int),
            decreases self@.len(),
        {
            let ghost n = out@.len() as int;
            match self.dequeue() {
                Some(v) => {
                    out.push(v);
                    proof {
                        assert(out@ =~= old(self)@.take(n + 1));
                        assert(self@ =~= old(self)@.skip(n + 1));
                    }
                },
                None => {
                    proof {
                        assert(false);
                    }
                },
            }
        }
        proof {
            assert(out@ =~= old(self)@);
        }
        out
    }

    /// Accepts a value by move; `push` under its other name.
    pub fn enqueue(&mut self, value: T)
        requires
            old(self).inv(),
        ensures
            final(self).inv(),
            final(self).spec_capacity() == old(self).spec_capacity(),
            final(self)@ == pushed(old(self)@, value, old(self).spec_capacity()),
    {
        self.push(value)
    }
}

/// The logical offset that an index addresses in a buffer of `len` live
/// elements: a non-negative index counts from the oldest element, a
/// negative one counts backward from just past the newest, so `-1` is
/// the newest.
pub open spec fn spec_offset_of(len: int, index: int) -> int {
    if index >= 0 {
        index
    } else {
        len + index
    }
}

/// The view after a push: the value is appended; if the buffer was
/// already full, the oldest element is evicted first.
pub open spec fn pushed<T>(s: Seq<T>, value: T, cap: int) -> Seq<T> {
    if s.len() < cap {
        s.push(value)
    } else {
        s.skip(1).push(value)
    }
}

/// The view after pushing every element of `vals` in order into a
/// buffer of capacity `cap` whose view was `s`: of the combined
/// sequence, the last `cap` elements survive.
pub open spec fn extended<T>(s: Seq<T>, vals: Seq<T>, cap: int) -> Seq<T> {
    let total = s + vals;
    if total.len() <= cap {
        total
    } else {
        total.skip(total.len() - cap)
    }
}

/// A single push composes with `extended`: pushing the elements of
/// `vals` and then one more value is extending by `vals` plus that
/// value.
pub proof fn lemma_extended_push<T>(s: Seq<T>, vals: Seq<T>, v: T, cap: int)
    requires
        cap > 0,
        s.len() <= cap,
    ensures
        pushed(extended(s, vals, cap), v, cap) =~= extended(s, vals.push(v), cap),
{
    let total = s + vals;
    assert(s + vals.push(v) =~= total.push(v));
    if total.len() < cap {
        assert(pushed(extended(s, vals, cap), v, cap) =~= total.push(v));
    } else if total.len() == cap {
        assert(pushed(extended(s, vals, cap), v, cap) =~= total.skip(1).push(v));
        assert(total.push(v).skip(total.len() + 1 - cap) =~= total.skip(1).push(v));
    } else {
        let e = total.skip(total.len() - cap);
        assert(e.len() == cap);
        assert(pushed(e, v, cap) =~= e.skip(1).push(v));
        assert(e.skip(1).push(v) =~= total.push(v).skip(total.len() + 1 - cap));
    }
}

/// Subtracting `q` capacities from a cursor leaves its slot unchanged.
proof fn lemma_mod_shift_multiple(c: int, q: int, cap: int)
    requires
        cap > 0,
    ensures
        (c + q * cap) % cap == c % cap,
{
    lemma_mod_multiples_vanish(q, c, cap);
    assert(cap * q == q * cap) by (nonlinear_arith);
}

impl<T> AllocRingBuffer<T, PowerOfTwo> {
    /// Creates a buffer with the given fixed capacity, which must be a
    /// power of two (and, as everywhere, small enough that the logical
    /// cursors can always stay ahead of the physical slots).
    pub fn with_capacity(cap: usize) -> (r: Self)
        requires
            <PowerOfTwo as RingbufferSize>::spec_valid_capacity(cap),
            cap <= usize::MAX / 2,
        ensures
            r.inv(),
            r@ == Seq::<T>::empty(),
            r.spec_capacity() == cap,
    {
        Self::with_capacity_unchecked(cap)
    }

    /// Creates a buffer whose capacity is two raised to the given
    /// exponent.
    pub fn with_capacity_power_of_2(cap_power_of_two: usize) -> (r: Self)
        requires
            cap_power_of_two + 2 <= usize::BITS,
        ensures
            r.inv(),
            r@ == Seq::<T>::empty(),
            r.spec_capacity() == pow2(cap_power_of_two as nat),
    {
        let n = cap_power_of_two;
        proof {
            lemma_pow2_le_half_max(n as nat);
            lemma2_to64();
        }
        let mut cap: usize = 1;
        let mut i: usize = 0;
        while i < n
            invariant
                i <= n,
                n + 2 <= usize::BITS,
                cap == pow2(i as nat),
                pow2(n as nat) <= usize::MAX / 2,
            decreases n - i,
        {
            proof {
                lemma_pow2_adds(i as nat, 1);
                lemma2_to64();
                if i + 1 < n {
                    lemma_pow2_strictly_increases((i + 1) as nat, n as nat);
                }
            }
            cap = cap * 2;
            i = i + 1;
        }
        proof {
            assert(<PowerOfTwo as RingbufferSize>::spec_valid_capacity(cap));
        }
        Self::with_capacity_unchecked(cap)
    }

    /// Creates a buffer with the default capacity.
    pub fn new() -> (r: Self)
        ensures
            r.inv(),
            r@ == Seq::<T>::empty(),
            r.spec_capacity() == RINGBUFFER_DEFAULT_CAPACITY,
    {
        proof {
            lemma_default_capacity_valid();
        }
        Self::with_capacity_unchecked(RINGBUFFER_DEFAULT_CAPACITY)
    }
}

impl<T> AllocRingBuffer<T, NonPowerOfTwo> {
    /// Creates a buffer with the given fixed capacity, which may be any
    /// nonzero value; cursor translation then pays for a modulo.
    pub fn with_capacity_non_power_of_two(cap: usize) -> (r: Self)
        requires
            cap > 0,
            cap <= usize::MAX / 2,
        ensures
            r.inv(),
            r@ == Seq::<T>::empty(),
            r.spec_capacity() == cap,
    {
        Self::with_capacity_unchecked(cap)
    }
}

impl<T: PartialEq, SIZE: RingbufferSize> AllocRingBuffer<T, SIZE> {
    /// What equality of two buffers means: equal capacity, equal
    /// length, and pairwise-equal elements in logical order.
    pub open spec fn eq_view(&self, other: &Self) -> bool {
        &&& self.spec_capacity() == other.spec_capacity()
        &&& self@.len() == other@.len()
        &&& forall|i: int| 0 <= i < self@.len() ==> (#[trigger] self@[i]).eq_spec(&other@[i])
    }

    /// Structural equality: equal capacity, equal length, and
    /// pairwise-equal elements in logical order. The answer is exact
    /// whenever the element type's own `==` obeys its specification.
    pub fn eq(&self, other: &Self) -> (r: bool)
        requires
            self.inv(),
            other.inv(),
        ensures
            T::obeys_eq_spec() ==> r == self.eq_view(other),
    {
        if self.capacity() != other.capacity() {
            return false;
        }
        let len = self.len();
        if len != other.len() {
            return false;
        }
        let mut i: usize = 0;
        while i < len
            invariant
                self.inv(),
                other.inv(),
                i <= len,
                len == self@.len(),
                len == other@.len(),
                self.spec_capacity() == other.spec_capacity(),
                T::obeys_eq_spec() ==> forall|k: int|
                    0 <= k < i ==> (#[trigger] self@[k]).eq_spec(&other@[k]),
            decreases len - i,
        {
            let a = self.get_ref(i);
            let b = other.get_ref(i);
            if !(*a == *b) {
                return false;
            }
            i = i + 1;
        }
        true
    }
}

impl<T: Clone, SIZE: RingbufferSize> AllocRingBuffer<T, SIZE> {
    /// Copies the live elements, oldest first, into a vector.
    pub fn to_vec(&self) -> (r: Vec<T>)
        requires
            self.inv(),
        ensures
            r@.len() == self@.len(),
            forall|i: int| 0 <= i < self@.len() ==> cloned::<T>(self@[i], #[trigger] r@[i]),
    {
        let len = self.len();
        let mut out: Vec<T> = Vec::new();
        let mut i: usize = 0;
        while i < len
            invariant
                self.inv(),
                i <= len,
                len == self@.len(),
                out@.len() == i,
                forall|k: int| 0 <= k < i ==> cloned::<T>(self@[k], #[trigger] out@[k]),
            decreases len - i,
        {
            let x = self.get_ref(i);
            out.push(x.clone());
            i = i + 1;
        }
        out
    }
}

impl<T: Clone> AllocRingBuffer<T, NonPowerOfTwo> {
    /// Repacks a borrowed slice into a buffer sized exactly to it: the
    /// result is exactly full, in the slice's order.
    pub fn from_slice(values: &[T]) -> (r: Self)
        requires
            values@.len() > 0,
            values@.len() <= usize::MAX / 2,
        ensures
            r.inv(),
            r.spec_capacity() == values@.len(),
            r@.len() == values@.len(),
            forall|i: int|
                0 <= i < values@.len() ==> cloned::<T>(values@[i], #[trigger] r@[i]),
    {
        let n = values.len();
        let mut v: Vec<T> = Vec::new();
        let mut i: usize = 0;
        while i < n
            invariant
                i <= n,
                n == values@.len(),
                v@.len() == i,
                forall|k: int| 0 <= k < i ==> cloned::<T>(values@[k], #[trigger] v@[k]),
            decreases n - i,
        {
            v.push(values[i].clone());
            i = i + 1;
        }
        Self::from_vec(v)
    }
}

impl<T> AllocRingBuffer<T, NonPowerOfTwo> {
    /// Repacks an externally drained sequence of elements — say, what a
    /// growable sibling handed over — into a buffer with exactly that
    /// element count: the result is exactly full, in the input's order.
    pub fn from_vec(values: Vec<T>) -> (r: Self)
        requires
            values@.len() > 0,
            values@.len() <= usize::MAX / 2,
        ensures
            r.inv(),
            r.spec_capacity() == values@.len(),
            r@ == values@,
    {
        let cap = values.len();
        let ghost vals = values@;
        let mut rb = Self::with_capacity_non_power_of_two(cap);
        rb.extend(values);
        proof {
            assert(extended(Seq::<T>::empty(), vals, cap as int) =~= vals);
        }
        rb
    }
}

impl<T> AllocRingBuffer<T, PowerOfTwo> {
    /// Collects a sequence of elements into a buffer of the default
    /// capacity, under the normal push and eviction rule.
    pub fn from_iter(values: Vec<T>) -> (r: Self)
        ensures
            r.inv(),
            r.spec_capacity() == RINGBUFFER_DEFAULT_CAPACITY,
            r@ == extended(Seq::<T>::empty(), values@, RINGBUFFER_DEFAULT_CAPACITY as int),
    {
        let mut rb = Self::new();
        rb.extend(values);
        rb
    }
}

impl<T: Clone, SIZE: RingbufferSize> Clone for AllocRingBuffer<T, SIZE> {
    /// Duplicates the buffer: the same capacity and strategy, a fresh
    /// region of its own, and a copy of every live element in logical
    /// order. The duplicate starts with fresh cursors.
    fn clone(&self) -> (res: Self)
        ensures
            self.inv() ==> {
                &&& res.inv()
                &&& res.spec_capacity() == self.spec_capacity()
                &&& res@.len() == self@.len()
                &&& forall|i: int|
                    0 <= i < self@.len() ==> cloned::<T>(self@[i], #[trigger] res@[i])
            },
    {
        let ok = self.capacity > 0 && self.buf.len() == self.capacity && self.readptr
            <= self.writeptr && self.writeptr - self.readptr <= self.capacity;
        if !ok {
            proof {
                if self.inv() {
                    SIZE::valid_capacity_positive(self.capacity);
                }
            }
            return Self {
                buf: Vec::new(),
                capacity: self.capacity,
                readptr: 0,
                writeptr: 0,
                mode: PhantomData,
            };
        }
        let len = self.writeptr - self.readptr;
        let mut buf: Vec<Option<T>> = Vec::new();
        let mut i: usize = 0;
        while i < len
            invariant
                i <= len,
                len == self.writeptr - self.readptr,
                self.readptr <= self.writeptr,
                self.capacity > 0,
                self.buf@.len() == self.capacity,
                buf@.len() == i,
                self.inv() ==> forall|k: int|
                    0 <= k < i ==> (#[trigger] buf@[k]) is Some && cloned::<T>(
                        self@[k],
                        buf@[k].unwrap(),
                    ),
            decreases len - i,
        {
            proof {
                lemma_mod_division_less_than_divisor(
                    (self.readptr + i) as int,
                    self.capacity as int,
                );
            }
            let slot = (self.readptr + i) % self.capacity;
            match &self.buf[slot] {
                Some(x) => {
                    buf.push(Some(x.clone()));
                },
                None => {
                    proof {
                        if self.inv() {
                            assert(self.buf@[((self.readptr + i) as int)
                                % self.spec_capacity()] is Some);
                        }
                    }
                    buf.push(None);
                },
            }
            i = i + 1;
        }
        let mut j: usize = len;
        while j < self.capacity
            invariant
                len <= j <= self.capacity,
                buf@.len() == j,
                forall|k: int| len <= k < j ==> (#[trigger] buf@[k]) is None,
                self.inv() ==> forall|k: int|
                    0 <= k < len ==> (#[trigger] buf@[k]) is Some && cloned::<T>(
                        self@[k],
                        buf@[k].unwrap(),
                    ),
            decreases self.capacity - j,
        {
            buf.push(None);
            j = j + 1;
        }
        let res = Self {
            buf,
            capacity: self.capacity,
            readptr: 0,
            writeptr: len,
            mode: PhantomData,
        };
        proof {
            if self.inv() {
                let cap = self.spec_capacity();
                assert forall|c: int| 0 <= c < len implies #[trigger] (c % cap) == c by {
                    lemma_small_mod(c as nat, self.capacity as nat);
                };
                assert forall|c: int|
                    res.readptr <= c < res.writeptr implies (#[trigger] res.buf@[c
                    % cap]) is Some by {
                    assert((c % cap) == c);
                };
                assert forall|p: int|
                    0 <= p < cap && !res.slot_live(p) implies (#[trigger] res.buf@[p]) is None by {
                    if p < len {
                        assert((p % res.spec_capacity()) == p);
                        assert(res.slot_live(p));
                    }
                };
                assert(res.inv());
                assert forall|i2: int|
                    0 <= i2 < self@.len() implies cloned::<T>(self@[i2], #[trigger] res@[i2]) by {
                    assert((i2 % cap) == i2);
                    assert(res@[i2] == res.buf@[i2].unwrap());
                };
            }
        }
        res
    }
}

impl<T> Default for AllocRingBuffer<T, PowerOfTwo> {
    /// Creates a buffer with the default capacity.
    fn default() -> (r: Self)
        ensures
            r.inv(),
            r@ == Seq::<T>::empty(),
            r.spec_capacity() == RINGBUFFER_DEFAULT_CAPACITY,
    {
        Self::new()
    }
}

impl<T> Default for AllocRingBuffer<T, NonPowerOfTwo> {
    /// Creates a buffer with the default capacity.
    fn default() -> (r: Self)
        ensures
            r.inv(),
            r@ == Seq::<T>::empty(),
            r.spec_capacity() == RINGBUFFER_DEFAULT_CAPACITY,
    {
        proof {
            lemma_default_capacity_valid();
        }
        Self::with_capacity_non_power_of_two(RINGBUFFER_DEFAULT_CAPACITY)
    }
}

/// The default capacity is a power of two no larger than half the
/// machine word's range.
proof fn lemma_default_capacity_valid()
    ensures
        <PowerOfTwo as RingbufferSize>::spec_valid_capacity(RINGBUFFER_DEFAULT_CAPACITY),
        RINGBUFFER_DEFAULT_CAPACITY <= usize::MAX / 2,
{
    lemma2_to64();
    assert(RINGBUFFER_DEFAULT_CAPACITY == pow2(10));
    assert(10 < usize::BITS);
    lemma_pow2_le_half_max(10);
}

/// A power of two whose exponent leaves a bit to spare fits in half the
/// machine word's range.
proof fn lemma_pow2_le_half_max(n: nat)
    requires
        n + 2 <= usize::BITS,
    ensures
        pow2(n) <= usize::MAX / 2,
        n < usize::BITS,
{
    lemma_usize_pow2_no_overflow((n + 1) as nat);
    lemma_pow2_adds(n, 1);
    lemma2_to64();
}

} // verus!
