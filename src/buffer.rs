//! The ring buffer itself.
use crate::cursor::{
    is_power_of_two, is_power_of_two_round_up, lemma_mask_is_mod, lemma_power_of_two_fits,
    lemma_wrap_once,
};
use crate::state::{
    after_push_all, lemma_push, lemma_push_all, lemma_push_all_stopped, lemma_read, lemma_slots, lemma_span, RingState,
};
use vstd::arithmetic::power2::{lemma2_to64, lemma_pow2_strictly_increases, lemma_pow2_unfold, pow2};
use vstd::prelude::*;

verus! {

/// How the capacity is chosen and how cursors wrap.
#[derive(Clone, Copy, Debug, PartialEq, Eq)]
pub enum Indexing {
    /// The capacity is the smallest power of two at least the request, and
    /// cursors wrap with a bit mask.
    PowerOfTwo,
    /// The capacity is the request, and cursors wrap by reduction modulo it.
    Exact,
}

/// Why a buffer could not be made.
#[derive(Clone, Copy, Debug, PartialEq, Eq)]
pub enum CapacityError {
    /// A capacity of zero was asked for.
    Zero,
    /// The power of two that the request rounds up to does not fit in a `usize`.
    TooLarge,
}

/// A fixed-capacity circular buffer of samples, for one producer and one
/// consumer. No operation blocks: each one succeeds or says that it could not.
/// The sample type is generic; an audio host uses `f32`.
pub struct RingBuffer<T> {
    buffer: Vec<T>,
    capacity: usize,
    /// `capacity - 1` under the power-of-two policy; unused otherwise.
    bitmask: usize,
    indexing: Indexing,
    /// The power of two that the capacity is, under that policy.
    exponent: Ghost<nat>,
    r_ptr: usize,
    w_ptr: usize,
    full: bool,
    overwrite: bool,
}

impl<T> View for RingBuffer<T> {
    type V = RingState<T>;

    closed spec fn view(&self) -> RingState<T> {
        RingState {
            storage: self.buffer@,
            read: self.r_ptr as nat,
            write: self.w_ptr as nat,
            full: self.full,
            overwrite: self.overwrite,
        }
    }
}

/// A buffer of `capacity` slots that all hold `fill`, with both cursors at
/// the start, not full, and overwrite mode off.
pub open spec fn fresh<T>(capacity: nat, fill: T) -> RingState<T> {
    RingState {
        storage: Seq::new(capacity, |_i: int| fill),
        read: 0,
        write: 0,
        full: false,
        overwrite: false,
    }
}

impl<T: Copy> RingBuffer<T> {
    /// The indexing policy chosen at construction.
    pub closed spec fn indexing(&self) -> Indexing {
        self.indexing
    }

    /// The cursor arithmetic agrees with the policy.
    pub closed spec fn layout_ok(&self) -> bool {
        &&& self.capacity == self.buffer@.len()
        &&& match self.indexing {
            Indexing::PowerOfTwo => {
                &&& self.capacity == pow2(self.exponent@)
                &&& self.bitmask == self.capacity - 1
                &&& self.capacity <= usize::MAX / 2 + 1
            },
            Indexing::Exact => true,
        }
    }

    pub open spec fn wf(&self) -> bool {
        self@.wf() && self.layout_ok()
    }

    fn filled(capacity: usize, fill: T) -> (v: Vec<T>)
        ensures
            v@ == Seq::new(capacity as nat, |_i: int| fill),
    {
        let mut v: Vec<T> = Vec::with_capacity(capacity);
        let mut i: usize = 0;
        while i < capacity
            invariant
                i <= capacity,
                v@ == Seq::new(i as nat, |_j: int| fill),
            decreases capacity - i,
        {
            v.push(fill);
            i = i + 1;
            assert(v@ =~= Seq::new(i as nat, |_j: int| fill));
        }
        v
    }

    /// A buffer whose capacity is the smallest power of two at least
    /// `capacity` (so a request of zero gives one slot), every slot holding
    /// `fill`.
    pub fn new(capacity: usize, fill: T) -> (r: Self)
        requires
            capacity <= usize::MAX / 2 + 1,
        ensures
            r.wf(),
            r.indexing() == Indexing::PowerOfTwo,
            is_power_of_two_round_up(capacity as nat, r@.capacity()),
            r@ == fresh(r@.capacity(), fill),
    {
        let mut x: usize = 1;
        let ghost mut k: nat = 0;
        proof {
            lemma2_to64();
        }
        while x < capacity
            invariant
                x == pow2(k),
                x >= 1,
                capacity <= usize::MAX / 2 + 1,
                k == 0 || pow2((k - 1) as nat) < capacity,
            decreases usize::MAX - x,
        {
            proof {
                lemma_pow2_unfold(k + 1);
            }
            x = x * 2;
            proof {
                k = k + 1;
            }
        }
        proof {
            lemma_power_of_two_fits(k);
            assert(is_power_of_two(x as nat));
            assert forall|q: nat| is_power_of_two(q) && q >= capacity implies x <= q by {
                let j = choose|j: nat| q == pow2(j);
                if j < k {
                    if j + 1 < k {
                        lemma_pow2_strictly_increases(j, (k - 1) as nat);
                    }
                }
                if j > k {
                    lemma_pow2_strictly_increases(k, j);
                }
            }
        }
        RingBuffer {
            buffer: Self::filled(x, fill),
            capacity: x,
            bitmask: x - 1,
            indexing: Indexing::PowerOfTwo,
            exponent: Ghost(k),
            r_ptr: 0,
            w_ptr: 0,
            full: false,
            overwrite: false,
        }
    }

    /// A buffer under the given indexing policy, every slot holding `fill`.
    /// A request of zero is refused, as is one whose power-of-two round-up
    /// does not fit in a `usize`.
    pub fn with_capacity(capacity: usize, indexing: Indexing, fill: T) -> (r: Result<
        Self,
        CapacityError,
    >)
        ensures
            capacity == 0 ==> r == Err::<Self, CapacityError>(CapacityError::Zero),
            capacity > 0 && indexing == Indexing::PowerOfTwo && capacity > usize::MAX / 2 + 1
                ==> r == Err::<Self, CapacityError>(CapacityError::TooLarge),
            capacity > 0 && (indexing == Indexing::Exact || capacity <= usize::MAX / 2 + 1) ==> r is Ok,
            r matches Ok(b) ==> {
                &&& b.wf()
                &&& b.indexing() == indexing
                &&& b@ == fresh(b@.capacity(), fill)
                &&& indexing == Indexing::Exact ==> b@.capacity() == capacity
                &&& indexing == Indexing::PowerOfTwo ==> is_power_of_two_round_up(
                    capacity as nat,
                    b@.capacity(),
                )
            },
    {
        if capacity == 0 {
            return Err(CapacityError::Zero);
        }
        match indexing {
            Indexing::PowerOfTwo => {
                if capacity > usize::MAX / 2 + 1 {
                    Err(CapacityError::TooLarge)
                } else {
                    Ok(Self::new(capacity, fill))
                }
            },
            Indexing::Exact => Ok(
                RingBuffer {
                    buffer: Self::filled(capacity, fill),
                    capacity,
                    bitmask: 0,
                    indexing: Indexing::Exact,
                    exponent: Ghost(0),
                    r_ptr: 0,
                    w_ptr: 0,
                    full: false,
                    overwrite: false,
                },
            ),
        }
    }

    /// The position `inc` slots after `pos`, wrapping round the ring.
    fn advance(&self, pos: usize, inc: usize) -> (r: usize)
        requires
            self.wf(),
            pos < self@.capacity(),
            inc <= self@.capacity(),
        ensures
            r == (pos + inc) % (self@.capacity() as int),
    {
        let ghost c = self@.capacity() as int;
        proof {
            lemma_wrap_once(pos + inc, c);
        }
        match self.indexing {
            Indexing::PowerOfTwo => {
                proof {
                    lemma_mask_is_mod((pos + inc) as usize, self.exponent@);
                }
                (pos + inc) & self.bitmask
            },
            Indexing::Exact => {
                // modulo, written so that no sum can overflow
                if inc >= self.capacity - pos {
                    inc - (self.capacity - pos)
                } else {
                    pos + inc
                }
            },
        }
    }

    /// The number of slots.
    pub fn size(&self) -> (r: usize)
        requires
            self.wf(),
        ensures
            r == self@.capacity(),
    {
        self.capacity
    }

    /// The read cursor: the slot of the next sample to be read.
    pub fn read_pos(&self) -> (r: usize)
        ensures
            r == self@.read,
    {
        self.r_ptr
    }

    /// The write cursor: the slot that the next sample goes into.
    pub fn write_pos(&self) -> (r: usize)
        ensures
            r == self@.write,
    {
        self.w_ptr
    }

    /// Whether every slot holds a sample not yet read.
    pub fn is_full(&self) -> (r: bool)
        ensures
            r == self@.full,
    {
        self.full
    }

    /// Whether no sample is waiting to be read.
    pub fn is_empty(&self) -> (r: bool)
        ensures
            r == self@.is_empty(),
    {
        self.r_ptr == self.w_ptr && !self.full
    }

    /// Chooses whether a write into a buffer with one free slot left drops
    /// the oldest sample; it acts from the next write on.
    pub fn set_overwrite(&mut self, overwrite: bool)
        requires
            old(self).wf(),
        ensures
            final(self).wf(),
            final(self).indexing() == old(self).indexing(),
            final(self)@ == (RingState { overwrite, ..old(self)@ }),
    {
        self.overwrite = overwrite;
    }

    /// Writes one sample. Refused, with nothing changed, when the buffer is
    /// full. In overwrite mode, when the write cursor catches up with the
    /// read cursor, the read cursor moves on by one and the oldest sample is
    /// lost; otherwise the buffer becomes full.
    pub fn push(&mut self, item: T) -> (r: bool)
        requires
            old(self).wf(),
        ensures
            final(self).wf(),
            final(self).indexing() == old(self).indexing(),
            r == !old(self)@.full,
            !r ==> final(self)@ == old(self)@,
            r ==> final(self)@ == old(self)@.after_push(item),
            r ==> final(self)@.full == (!old(self)@.overwrite && old(self)@.len() + 1
                == old(self)@.capacity()),
            r ==> final(self)@.contents() == if old(self)@.overwrite && old(self)@.len() + 1
                == old(self)@.capacity() {
                old(self)@.contents().push(item).drop_first()
            } else {
                old(self)@.contents().push(item)
            },
    {
        if self.full {
            return false;
        }
        proof {
            lemma_push(self@, item);
        }
        self.buffer.set(self.w_ptr, item);
        self.w_ptr = self.advance(self.w_ptr, 1);
        if self.w_ptr == self.r_ptr {
            if self.overwrite {
                self.r_ptr = self.advance(self.r_ptr, 1);
            } else {
                self.full = true;
            }
        }
        true
    }

    /// The sample in slot `index` of the storage, whatever the cursors say;
    /// none past the last slot.
    pub fn get(&self, index: usize) -> (r: Option<T>)
        requires
            self.wf(),
        ensures
            r == if index < self@.capacity() {
                Some(self@.storage[index as int])
            } else {
                None::<T>
            },
    {
        if index >= self.capacity {
            return None;
        }
        Some(self.buffer[index])
    }

    /// Reads one sample. None, with nothing changed, when the buffer is
    /// empty; otherwise the oldest sample, the read cursor moves on by one,
    /// and the buffer is no longer full.
    pub fn next(&mut self) -> (r: Option<T>)
        requires
            old(self).wf(),
        ensures
            final(self).wf(),
            final(self).indexing() == old(self).indexing(),
            old(self)@.is_empty() ==> r is None && final(self)@ == old(self)@,
            !old(self)@.is_empty() ==> r == Some(old(self)@.contents()[0]) && final(self)@
                == old(self)@.after_read(1),
            !old(self)@.is_empty() ==> final(self)@.contents() == old(self)@.contents().drop_first(),
    {
        if self.r_ptr == self.w_ptr && !self.full {
            return None;
        }
        proof {
            lemma_slots(self@);
            lemma_read(self@, 1);
            assert(self@.slot(0) == self@.read);
        }
        let out = self.buffer[self.r_ptr];
        self.r_ptr = self.advance(self.r_ptr, 1);
        self.full = false;
        Some(out)
    }

    /// Reads `block_size` samples at once. None, with nothing changed, when
    /// the span of that many slots from the read cursor holds the write
    /// cursor; otherwise the samples in the order they were written, taken
    /// across the end of the storage where the span wraps, and the read
    /// cursor moves past them.
    pub fn next_block(&mut self, block_size: usize) -> (r: Option<Vec<T>>)
        requires
            old(self).wf(),
        ensures
            final(self).wf(),
            final(self).indexing() == old(self).indexing(),
            r is None <==> old(self)@.span_holds_write(block_size as nat),
            r is None <==> block_size > old(self)@.gap(),
            r is None ==> final(self)@ == old(self)@,
            r matches Some(v) ==> {
                &&& v@ == old(self)@.contents().take(block_size as int)
                &&& final(self)@ == old(self)@.after_read(block_size as nat)
                &&& final(self)@.contents() == old(self)@.contents().skip(block_size as int)
            },
    {
        let ghost s = self@;
        let n = block_size;
        let r = self.r_ptr;
        let w = self.w_ptr;
        let cap = self.capacity;
        // the span is [r, tail_end) followed, where it wraps, by [0, head_end)
        let tail_end = if n <= cap - r {
            r + n
        } else {
            cap
        };
        let head_end = n - (tail_end - r);
        proof {
            lemma_slots(s);
            lemma_span(s, n as nat);
        }
        if (r <= w && w < tail_end) || w < head_end {
            return None;
        }
        let mut v: Vec<T> = Vec::with_capacity(n);
        let mut i: usize = r;
        while i < tail_end
            invariant
                s.wf(),
                self@ == s,
                self.wf(),
                r == s.read,
                r <= i <= tail_end <= cap,
                cap == s.capacity(),
                n <= s.len(),
                tail_end - r <= n,
                v@ == s.contents().take(i - r),
            decreases tail_end - i,
        {
            proof {
                lemma_slots(s);
            }
            v.push(self.buffer[i]);
            i = i + 1;
            assert(v@ =~= s.contents().take(i - r));
        }
        let mut j: usize = 0;
        while j < head_end
            invariant
                s.wf(),
                self@ == s,
                self.wf(),
                r == s.read,
                cap == s.capacity(),
                n <= s.len(),
                tail_end == cap || head_end == 0,
                head_end == n - (tail_end - r),
                r <= tail_end <= cap,
                j <= head_end,
                v@ == s.contents().take(tail_end - r + j),
            decreases head_end - j,
        {
            proof {
                lemma_slots(s);
            }
            v.push(self.buffer[j]);
            j = j + 1;
            assert(v@ =~= s.contents().take(tail_end - r + j));
        }
        proof {
            lemma_read(s, n as nat);
        }
        self.r_ptr = self.advance(r, n);
        Some(v)
    }

    /// Writes the samples of `block` one by one, as `push` does, and stops
    /// at the first one that finds the buffer full: the samples written
    /// before it stay written. True when every sample was written.
    pub fn push_block(&mut self, block: Vec<T>) -> (r: bool)
        requires
            old(self).wf(),
        ensures
            final(self).wf(),
            final(self).indexing() == old(self).indexing(),
            (final(self)@, r) == after_push_all(old(self)@, block@),
            old(self)@.full ==> r == (block.len() == 0) && final(self)@ == old(self)@,
            !old(self)@.overwrite ==> {
                let room = old(self)@.capacity() - old(self)@.len();
                &&& r == (block.len() <= room)
                &&& final(self)@.contents() == old(self)@.contents() + block@.take(
                    if block.len() <= room { block.len() as int } else { room },
                )
            },
            old(self)@.overwrite && !old(self)@.full ==> {
                let total = old(self)@.len() + block.len();
                &&& r
                &&& final(self)@.contents() == (old(self)@.contents() + block@).skip(
                    if total < old(self)@.capacity() { 0 }
                    else { total - (old(self)@.capacity() - 1) },
                )
            },
    {
        let ghost s = self@;
        proof {
            lemma_push_all(s, block@);
        }
        let mut i: usize = 0;
        while i < block.len()
            invariant
                self.wf(),
                self.indexing() == old(self).indexing(),
                i <= block.len(),
                s == old(self)@,
                s.wf(),
                (self@, true) == after_push_all(s, block@.take(i as int)),
            decreases block.len() - i,
        {
            if self.full {
                proof {
                    lemma_push_all_stopped(s, block@, i as nat);
                    lemma_push_all(s, block@);
                }
                return false;
            }
            self.push(block[i]);
            i = i + 1;
            assert(block@.take(i as int).drop_last() =~= block@.take(i - 1 as int));
        }
        assert(block@.take(block.len() as int) =~= block@);
        proof {
            lemma_push_all(s, block@);
        }
        true
    }
}

} // verus!
