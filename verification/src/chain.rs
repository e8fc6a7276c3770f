//! Segments, and the logical sequence that a chain of them holds.

use vstd::prelude::*;

verus! {

/// A block that holds up to a fixed number of elements; `values` is its
/// occupied prefix.
pub struct Segment<T> {
    pub values: Vec<T>,
}

impl<T> View for Segment<T> {
    type V = Seq<T>;

    open spec fn view(&self) -> Seq<T> {
        self.values@
    }
}

impl<T> Segment<T> {
    /// An empty segment with room for `capacity` elements.
    pub fn allocate(capacity: usize) -> (s: Self)
        ensures
            s@ == Seq::<T>::empty(),
    {
        Segment { values: Vec::with_capacity(capacity) }
    }
}

/// The concatenation, in chain order, of the segments' occupied prefixes.
pub open spec fn logical<T>(segs: Seq<Segment<T>>) -> Seq<T>
    decreases segs.len(),
{
    if segs.len() == 0 {
        Seq::empty()
    } else {
        logical(segs.drop_last()) + segs.last()@
    }
}

/// The number of elements held by the first `k` segments.
pub open spec fn prefix_len<T>(segs: Seq<Segment<T>>, k: int) -> nat {
    logical(segs.take(k)).len()
}

/// The shape of a chain with segments of `cap` elements: it has a head,
/// every segment but the tail is full, and only the head may be empty.
pub open spec fn packed<T>(segs: Seq<Segment<T>>, cap: usize) -> bool {
    &&& cap > 0
    &&& segs.len() > 0
    &&& forall|k: int| 0 <= k < segs.len() - 1 ==> (#[trigger] segs[k])@.len() == cap
    &&& forall|k: int| 0 < k < segs.len() ==> (#[trigger] segs[k])@.len() > 0
    &&& segs.last()@.len() <= cap
    &&& logical(segs).len() <= usize::MAX
}

/// The first `k + 1` segments hold what the first `k` hold, then segment `k`.
pub proof fn lemma_prefix_step<T>(segs: Seq<Segment<T>>, k: int)
    requires
        0 <= k < segs.len(),
    ensures
        logical(segs.take(k + 1)) == logical(segs.take(k)) + segs[k]@,
        prefix_len(segs, k + 1) == prefix_len(segs, k) + segs[k]@.len(),
{
    assert(segs.take(k + 1).drop_last() == segs.take(k));
}

/// Every prefix of the chain holds a prefix of the logical sequence.
pub proof fn lemma_prefix_of_logical<T>(segs: Seq<Segment<T>>, k: int)
    requires
        0 <= k <= segs.len(),
    ensures
        prefix_len(segs, k) <= logical(segs).len(),
        logical(segs.take(k)) == logical(segs).take(prefix_len(segs, k) as int),
    decreases segs.len() - k,
{
    if k == segs.len() {
        assert(segs.take(k) == segs);
    } else {
        lemma_prefix_step(segs, k);
        lemma_prefix_of_logical(segs, k + 1);
    }
}

/// Element `j` of segment `k` is the logical element at `prefix_len(k) + j`.
pub proof fn lemma_logical_index<T>(segs: Seq<Segment<T>>, k: int, j: int)
    requires
        0 <= k < segs.len(),
        0 <= j < segs[k]@.len(),
    ensures
        prefix_len(segs, k) + j < prefix_len(segs, k + 1) <= logical(segs).len(),
        logical(segs)[prefix_len(segs, k) + j] == segs[k]@[j],
{
    lemma_prefix_step(segs, k);
    lemma_prefix_of_logical(segs, k + 1);
    let p = prefix_len(segs, k) + j;
    assert(logical(segs).take(prefix_len(segs, k + 1) as int)[p] == logical(segs)[p]);
}

/// In a packed chain, segment `k` starts at logical index `k * cap`.
pub proof fn lemma_packed_prefix<T>(segs: Seq<Segment<T>>, cap: usize, k: int)
    requires
        packed(segs, cap),
        0 <= k < segs.len(),
    ensures
        prefix_len(segs, k) == k * cap,
    decreases k,
{
    if k == 0 {
        assert(segs.take(0) =~= Seq::<Segment<T>>::empty());
    } else {
        lemma_packed_prefix(segs, cap, k - 1);
        lemma_prefix_step(segs, k - 1);
        assert((k - 1) * cap + cap == k * cap) by (nonlinear_arith);
    }
}

/// The whole chain holds what all but the tail hold, then the tail.
pub proof fn lemma_logical_total<T>(segs: Seq<Segment<T>>)
    requires
        segs.len() > 0,
    ensures
        prefix_len(segs, segs.len() as int) == logical(segs).len(),
        logical(segs).len() == prefix_len(segs, segs.len() - 1) + segs.last()@.len(),
{
    assert(segs.take(segs.len() as int) == segs);
    lemma_prefix_step(segs, segs.len() - 1);
}

/// Extending the tail segment extends the logical sequence by the same
/// elements.
pub proof fn lemma_extend_tail<T>(before: Seq<Segment<T>>, after: Seq<Segment<T>>, added: Seq<T>)
    requires
        before.len() > 0,
        after.len() == before.len(),
        after.drop_last() == before.drop_last(),
        after.last()@ == before.last()@ + added,
    ensures
        logical(after) == logical(before) + added,
{
    assert((logical(before.drop_last()) + before.last()@) + added =~= logical(before.drop_last())
        + (before.last()@ + added));
}

/// Linking an empty segment behind the tail leaves the logical sequence as
/// it was.
pub proof fn lemma_link_empty<T>(before: Seq<Segment<T>>, fresh: Segment<T>)
    requires
        fresh@.len() == 0,
    ensures
        logical(before.push(fresh)) == logical(before),
{
    assert(before.push(fresh).drop_last() == before);
    assert(logical(before) + fresh@ =~= logical(before));
}

/// Copies `values[from..from + count]` behind the occupied prefix of the
/// tail segment.
pub fn fill_tail<T: Copy>(segments: &mut Vec<Segment<T>>, values: &[T], from: usize, count: usize)
    requires
        old(segments)@.len() > 0,
        from + count <= values@.len(),
    ensures
        final(segments)@.len() == old(segments)@.len(),
        final(segments)@.drop_last() == old(segments)@.drop_last(),
        final(segments)@.last()@ == old(segments)@.last()@ + values@.subrange(
            from as int,
            from + count,
        ),
{
    let ghost before = segments@;
    let available = values.len();
    let tail = segments.len() - 1;
    let mut copied: usize = 0;
    while copied < count
        invariant
            copied <= count,
            from + count <= values@.len() == available,
            segments@.len() == before.len() == tail + 1,
            segments@.drop_last() == before.drop_last(),
            segments@.last()@ == before.last()@ + values@.subrange(from as int, from + copied),
        decreases count - copied,
    {
        let ghost filled = segments@;
        segments[tail].values.push(values[from + copied]);
        copied += 1;
        assert(segments@.drop_last() =~= filled.drop_last());
        assert(segments@.last()@ =~= before.last()@ + values@.subrange(from as int, from + copied));
    }
}

} // verus!
