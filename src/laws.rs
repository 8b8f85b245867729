//! Properties that hold across operations, stated over the abstract state
//! that the operations' contracts speak of.
use crate::state::{
    after_push_all, after_reads, lemma_push, lemma_push_all, lemma_reads, lemma_slots, lemma_span,
    RingState,
};
use vstd::prelude::*;

verus! {

/// With overwrite mode off, a push is taken exactly when fewer samples than
/// the capacity are buffered, and a taken push buffers one more.
pub proof fn push_taken_below_capacity<T>(s: RingState<T>, item: T)
    requires
        s.wf(),
        !s.overwrite,
    ensures
        !s.full <==> s.len() < s.capacity(),
        !s.full ==> s.after_push(item).len() == s.len() + 1,
{
    lemma_slots(s);
    if !s.full {
        lemma_push(s, item);
        assert(s.after_push(item).contents().len() == s.len() + 1);
    }
}

/// With overwrite mode off, filling an empty buffer takes every sample and
/// leaves it full; one more push is then refused and changes nothing.
pub proof fn fill_then_refuse<T>(s: RingState<T>, items: Seq<T>, extra: T)
    requires
        s.wf(),
        !s.overwrite,
        s.is_empty(),
        items.len() == s.capacity(),
    ensures
        after_push_all(s, items).1,
        after_push_all(s, items).0.full,
        after_push_all(after_push_all(s, items).0, seq![extra]) == (
            after_push_all(s, items).0,
            false,
        ),
{
    lemma_slots(s);
    lemma_push_all(s, items);
    let t = after_push_all(s, items).0;
    lemma_slots(t);
    lemma_push_all(t, seq![extra]);
}

/// With overwrite mode off, samples pushed into an empty buffer, no more
/// than it holds, come back from as many reads in the order they went in.
pub proof fn round_trip<T>(s: RingState<T>, items: Seq<T>)
    requires
        s.wf(),
        !s.overwrite,
        s.is_empty(),
        items.len() <= s.capacity(),
    ensures
        after_push_all(s, items).1,
        after_reads(after_push_all(s, items).0, items.len()).1 == items,
{
    lemma_slots(s);
    lemma_push_all(s, items);
    let t = after_push_all(s, items).0;
    assert(s.contents() + items.take(items.len() as int) =~= items);
    lemma_reads(t, items.len());
    assert(items.take(items.len() as int) =~= items);
}

/// With overwrite mode on, pushes into an empty buffer are never refused,
/// and draining it afterwards returns the newest samples, oldest first: as
/// many as the capacity less one, since one slot is always left free.
pub proof fn overwrite_keeps_newest<T>(s: RingState<T>, items: Seq<T>)
    requires
        s.wf(),
        s.overwrite,
        s.is_empty(),
    ensures
        after_push_all(s, items).1,
        after_reads(after_push_all(s, items).0, after_push_all(s, items).0.len()).1 == items.skip(
            if items.len() < s.capacity() { 0 } else { items.len() - (s.capacity() - 1) },
        ),
{
    lemma_slots(s);
    lemma_push_all(s, items);
    let t = after_push_all(s, items).0;
    assert(s.contents() + items =~= items);
    lemma_reads(t, t.len());
    assert(t.contents().take(t.len() as int) =~= t.contents());
}

/// A block read that runs past the end of the storage returns the slots
/// from the read cursor to the end, then those from the start.
pub proof fn block_read_wraps<T>(s: RingState<T>, n: nat)
    requires
        s.wf(),
        !s.span_holds_write(n),
        s.read + n > s.capacity(),
    ensures
        n <= s.len(),
        s.contents().take(n as int) == s.storage.subrange(s.read as int, s.capacity() as int)
            + s.storage.subrange(0, s.read + n - s.capacity()),
{
    lemma_slots(s);
    lemma_span(s, n);
    assert(s.contents().take(n as int) =~= s.storage.subrange(s.read as int, s.capacity() as int)
        + s.storage.subrange(0, s.read + n - s.capacity()));
}

/// With overwrite mode off, a block of pushes that has room and runs past
/// the end of the storage fills the slots from the write cursor to the end,
/// then those from the start, in order.
pub proof fn block_write_wraps<T>(s: RingState<T>, items: Seq<T>)
    requires
        s.wf(),
        !s.overwrite,
        s.len() + items.len() <= s.capacity(),
        s.write + items.len() > s.capacity(),
    ensures
        after_push_all(s, items).1,
        after_push_all(s, items).0.storage.subrange(s.write as int, s.capacity() as int)
            == items.take(s.capacity() - s.write),
        after_push_all(s, items).0.storage.subrange(0, s.write + items.len() - s.capacity())
            == items.skip(s.capacity() - s.write),
{
    lemma_slots(s);
    lemma_push_all(s, items);
    let t = after_push_all(s, items).0;
    lemma_slots(t);
    let c = s.capacity() as int;
    assert(items.take(items.len() as int) =~= items);
    assert(t.contents() == s.contents() + items);
    assert(t.contents().len() == t.len());
    assert(s.contents().len() == s.len());
    assert(t.len() == s.len() + items.len());
    assert forall|j: int| 0 <= j < items.len() implies t.storage[t.slot(s.len() + j)]
        == #[trigger] items[j] by {
        assert((s.contents() + items)[s.len() + j] == items[j]);
        assert(t.contents()[s.len() + j] == t.storage[t.slot(s.len() + j)]);
    }
    assert forall|j: int| 0 <= j < items.len() implies #[trigger] t.slot(s.len() + j) == (if s.write
        + j < c {
        s.write + j
    } else {
        s.write + j - c
    }) by {}
    assert forall|j: int| 0 <= j < c - s.write implies t.storage.subrange(s.write as int, c)[j]
        == #[trigger] items.take(c - s.write)[j] by {
        assert(t.slot(s.len() + j) == s.write + j);
    }
    assert forall|j: int| 0 <= j < s.write + items.len() - c implies t.storage.subrange(
        0,
        s.write + items.len() - c,
    )[j] == #[trigger] items.skip(c - s.write)[j] by {
        assert(t.slot(s.len() + (c - s.write + j)) == j);
    }
    assert(t.storage.subrange(s.write as int, c) =~= items.take(c - s.write));
    assert(t.storage.subrange(0, s.write + items.len() - c) =~= items.skip(c - s.write));
}

} // verus!
