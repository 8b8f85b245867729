//! The abstract state of a ring buffer and the effect of each operation on it.
use crate::cursor::lemma_wrap_once;
use vstd::prelude::*;

verus! {

/// What a ring buffer holds: its slots, its two cursors, the full flag and
/// the overwrite policy. The capacity is the number of slots.
pub struct RingState<T> {
    pub storage: Seq<T>,
    pub read: nat,
    pub write: nat,
    pub full: bool,
    pub overwrite: bool,
}

impl<T> RingState<T> {
    pub open spec fn capacity(self) -> nat {
        self.storage.len()
    }

    /// Both cursors lie inside the ring, and the buffer can only be full
    /// when they meet.
    pub open spec fn wf(self) -> bool {
        &&& self.capacity() > 0
        &&& self.read < self.capacity()
        &&& self.write < self.capacity()
        &&& self.full ==> self.read == self.write
    }

    pub open spec fn is_empty(self) -> bool {
        self.read == self.write && !self.full
    }

    /// The slot `i` steps after the read cursor.
    pub open spec fn slot(self, i: int) -> int {
        (self.read as int + i) % (self.capacity() as int)
    }

    /// How many steps forward the write cursor lies from the read cursor.
    pub open spec fn gap(self) -> nat {
        ((self.write + self.capacity() - self.read) as int % (self.capacity() as int)) as nat
    }

    /// The number of samples buffered and not yet read.
    pub open spec fn len(self) -> nat {
        if self.full {
            self.capacity()
        } else {
            self.gap()
        }
    }

    /// The buffered samples, oldest first.
    pub open spec fn contents(self) -> Seq<T> {
        Seq::new(self.len(), |i: int| self.storage[self.slot(i)])
    }

    /// The state after a sample is written into a buffer that is not full.
    pub open spec fn after_push(self, item: T) -> Self {
        let c = self.capacity() as int;
        let w = (self.write as int + 1) % c;
        let caught_up = w == self.read;
        RingState {
            storage: self.storage.update(self.write as int, item),
            read: if caught_up && self.overwrite {
                ((self.read as int + 1) % c) as nat
            } else {
                self.read
            },
            write: w as nat,
            full: caught_up && !self.overwrite,
            overwrite: self.overwrite,
        }
    }

    /// The state after the read cursor moves `n` slots forward.
    pub open spec fn after_read(self, n: nat) -> Self {
        RingState {
            read: ((self.read + n) as int % (self.capacity() as int)) as nat,
            full: self.full && n == 0,
            ..self
        }
    }

    /// The span of `n` slots from the read cursor holds the write cursor.
    pub open spec fn span_holds_write(self, n: nat) -> bool {
        exists|i: int| 0 <= i < n && #[trigger] self.slot(i) == self.write
    }
}

/// Pushes `items` one by one, stopping at the first one that finds the
/// buffer full; the flag tells whether every item was taken.
pub open spec fn after_push_all<T>(s: RingState<T>, items: Seq<T>) -> (RingState<T>, bool)
    decreases items.len(),
{
    if items.len() == 0 {
        (s, true)
    } else {
        let (t, ok) = after_push_all(s, items.drop_last());
        if !ok || t.full {
            (t, false)
        } else {
            (t.after_push(items.last()), true)
        }
    }
}

/// The slots of a well-formed state, and its length, in plain arithmetic.
pub proof fn lemma_slots<T>(s: RingState<T>)
    requires
        s.wf(),
    ensures
        s.gap() == if s.write >= s.read { s.write - s.read } else { s.write + s.capacity() - s.read },
        s.gap() < s.capacity(),
        s.len() <= s.capacity(),
        !s.full ==> s.len() < s.capacity(),
        forall|i: int|
            0 <= i < s.capacity() ==> #[trigger] s.slot(i) == if s.read + i < s.capacity() {
                s.read + i
            } else {
                s.read + i - s.capacity()
            },
{
    let c = s.capacity() as int;
    lemma_wrap_once(s.write + c - s.read as int, c);
    assert forall|i: int| 0 <= i < c implies #[trigger] s.slot(i) == if s.read + i < c {
        s.read + i
    } else {
        s.read + i - c
    } by {
        lemma_wrap_once(s.read as int + i, c);
    }
}

/// Writing into a buffer that is not full appends the sample; in overwrite
/// mode, when only one slot was free, the oldest sample is dropped as well.
pub proof fn lemma_push<T>(s: RingState<T>, item: T)
    requires
        s.wf(),
        !s.full,
    ensures
        s.after_push(item).wf(),
        s.after_push(item).capacity() == s.capacity(),
        s.after_push(item).full == (!s.overwrite && s.len() + 1 == s.capacity()),
        s.after_push(item).contents() == if s.overwrite && s.len() + 1 == s.capacity() {
            s.contents().push(item).drop_first()
        } else {
            s.contents().push(item)
        },
{
    let c = s.capacity() as int;
    let t = s.after_push(item);
    lemma_slots(s);
    lemma_wrap_once(s.write as int + 1, c);
    lemma_wrap_once(s.read as int + 1, c);
    lemma_slots(t);
    let expected = if s.overwrite && s.len() + 1 == s.capacity() {
        s.contents().push(item).drop_first()
    } else {
        s.contents().push(item)
    };
    assert(t.contents() =~= expected);
}

/// Moving the read cursor over `n` buffered samples drops them from the front.
pub proof fn lemma_read<T>(s: RingState<T>, n: nat)
    requires
        s.wf(),
        n <= s.len(),
    ensures
        s.after_read(n).wf(),
        s.after_read(n).capacity() == s.capacity(),
        s.after_read(n).len() == s.len() - n,
        s.after_read(n).contents() == s.contents().skip(n as int),
{
    let c = s.capacity() as int;
    let t = s.after_read(n);
    lemma_slots(s);
    lemma_wrap_once(s.read + n as int, c);
    lemma_slots(t);
    assert(t.contents() =~= s.contents().skip(n as int));
}

/// A span of `n` slots from the read cursor holds the write cursor exactly
/// when it is longer than the distance between the two.
pub proof fn lemma_span<T>(s: RingState<T>, n: nat)
    requires
        s.wf(),
    ensures
        s.span_holds_write(n) <==> n > s.gap(),
{
    lemma_slots(s);
    if n > s.gap() {
        assert(s.slot(s.gap() as int) == s.write);
    }
}

/// Once an item finds the buffer full, the items after it change nothing.
pub proof fn lemma_push_all_stopped<T>(s: RingState<T>, items: Seq<T>, i: nat)
    requires
        i < items.len(),
        after_push_all(s, items.take(i as int)).1,
        after_push_all(s, items.take(i as int)).0.full,
    ensures
        after_push_all(s, items) == (after_push_all(s, items.take(i as int)).0, false),
    decreases items.len(),
{
    if items.len() == i + 1 {
        assert(items.drop_last() =~= items.take(i as int));
    } else {
        assert(items.drop_last().take(i as int) =~= items.take(i as int));
        lemma_push_all_stopped(s, items.drop_last(), i);
    }
}

/// With overwrite mode off, a run of pushes takes items while there is
/// room, and what it took follows the samples already there.
pub proof fn lemma_push_all_plain<T>(s: RingState<T>, items: Seq<T>)
    requires
        s.wf(),
        !s.overwrite,
    ensures
        after_push_all(s, items).0.wf(),
        after_push_all(s, items).0.capacity() == s.capacity(),
        !after_push_all(s, items).0.overwrite,
        after_push_all(s, items).0.read == s.read,
        after_push_all(s, items).1 == (s.len() + items.len() <= s.capacity()),
        after_push_all(s, items).0.contents() == s.contents() + items.take(
            if s.len() + items.len() <= s.capacity() { items.len() as int }
            else { s.capacity() - s.len() },
        ),
    decreases items.len(),
{
    lemma_slots(s);
    if items.len() == 0 {
        assert(s.contents() + items.take(0) =~= s.contents());
    } else {
        let p = items.drop_last();
        lemma_push_all_plain(s, p);
        let t = after_push_all(s, p).0;
        lemma_slots(t);
        assert(t.contents().len() == t.len());
        if after_push_all(s, p).1 {
            assert(p.take(p.len() as int) =~= p);
            assert(t.len() == s.len() + p.len());
        }
        if after_push_all(s, p).1 && !t.full {
            lemma_push(t, items.last());
            assert(s.contents() + items.take(items.len() as int) =~= (s.contents() + p.take(
                p.len() as int,
            )).push(items.last()));
        } else {
            assert(items.take(s.capacity() - s.len()) =~= p.take(s.capacity() - s.len()));
        }
    }
}

/// With overwrite mode on and room for one more sample, a run of pushes
/// takes every item, and the buffer keeps the newest samples that fit while
/// leaving one slot free.
pub proof fn lemma_push_all_overwrite<T>(s: RingState<T>, items: Seq<T>)
    requires
        s.wf(),
        s.overwrite,
        !s.full,
    ensures
        after_push_all(s, items).1,
        after_push_all(s, items).0.wf(),
        after_push_all(s, items).0.capacity() == s.capacity(),
        after_push_all(s, items).0.overwrite,
        !after_push_all(s, items).0.full,
        after_push_all(s, items).0.contents() == (s.contents() + items).skip(
            if s.len() + items.len() < s.capacity() { 0 }
            else { s.len() + items.len() - (s.capacity() - 1) },
        ),
    decreases items.len(),
{
    lemma_slots(s);
    if items.len() == 0 {
        assert(s.contents() + items =~= s.contents());
    } else {
        let p = items.drop_last();
        lemma_push_all_overwrite(s, p);
        let t = after_push_all(s, p).0;
        lemma_slots(t);
        lemma_push(t, items.last());
        let d1 = if s.len() + p.len() < s.capacity() { 0 }
            else { s.len() + p.len() - (s.capacity() - 1) };
        let d = if s.len() + items.len() < s.capacity() { 0 }
            else { s.len() + items.len() - (s.capacity() - 1) };
        assert(s.contents() + items =~= (s.contents() + p).push(items.last()));
        if t.len() + 1 == s.capacity() {
            assert((s.contents() + p).skip(d1).push(items.last()).drop_first() =~= (s.contents()
                + p).push(items.last()).skip(d));
        } else {
            assert((s.contents() + p).skip(d1).push(items.last()) =~= (s.contents() + p).push(
                items.last(),
            ).skip(d));
        }
    }
}

/// What a run of pushes leaves, under each policy.
pub proof fn lemma_push_all<T>(s: RingState<T>, items: Seq<T>)
    requires
        s.wf(),
    ensures
        after_push_all(s, items).0.wf(),
        after_push_all(s, items).0.capacity() == s.capacity(),
        s.full ==> after_push_all(s, items) == (s, items.len() == 0),
        !s.overwrite ==> {
            let room = s.capacity() - s.len();
            &&& after_push_all(s, items).0.read == s.read
            &&& after_push_all(s, items).1 == (items.len() <= room)
            &&& after_push_all(s, items).0.contents() == s.contents() + items.take(
                if items.len() <= room { items.len() as int } else { room },
            )
        },
        s.overwrite && !s.full ==> {
            let total = s.len() + items.len();
            &&& after_push_all(s, items).1
            &&& after_push_all(s, items).0.contents() == (s.contents() + items).skip(
                if total < s.capacity() { 0 } else { total - (s.capacity() - 1) },
            )
        },
{
    if s.full {
        if items.len() > 0 {
            assert(items.take(0) =~= Seq::<T>::empty());
            lemma_push_all_stopped(s, items, 0);
        }
    }
    if s.overwrite {
        if !s.full {
            lemma_push_all_overwrite(s, items);
        } else if items.len() == 0 {
        } else {
            lemma_slots(s);
        }
    } else {
        lemma_push_all_plain(s, items);
    }
}

/// `k` reads in a row, as `next` makes them: the state they leave and the
/// samples they return, in order. A read of an empty buffer returns nothing.
pub open spec fn after_reads<T>(s: RingState<T>, k: nat) -> (RingState<T>, Seq<T>)
    decreases k,
{
    if k == 0 {
        (s, Seq::empty())
    } else {
        let (t, out) = after_reads(s, (k - 1) as nat);
        if t.is_empty() {
            (t, out)
        } else {
            (t.after_read(1), out.push(t.contents()[0]))
        }
    }
}

/// Reading `k` buffered samples one at a time returns the oldest `k`.
pub proof fn lemma_reads<T>(s: RingState<T>, k: nat)
    requires
        s.wf(),
        k <= s.len(),
    ensures
        after_reads(s, k).1 == s.contents().take(k as int),
        after_reads(s, k).0 == s.after_read(k),
    decreases k,
{
    if k == 0 {
        lemma_wrap_once(s.read as int, s.capacity() as int);
        assert(s.contents().take(0) =~= Seq::<T>::empty());
    } else {
        lemma_reads(s, (k - 1) as nat);
        let t = s.after_read((k - 1) as nat);
        lemma_read(s, (k - 1) as nat);
        lemma_slots(s);
        lemma_slots(t);
        lemma_read(t, 1);
        let c = s.capacity() as int;
        lemma_wrap_once(s.read as int + (k - 1), c);
        lemma_wrap_once(t.read as int + 1, c);
        lemma_wrap_once(s.read as int + k as int, c);
        assert(s.contents().take(k as int) =~= s.contents().take(k - 1).push(t.contents()[0]));
        assert(t.after_read(1) == s.after_read(k));
    }
}

} // verus!
