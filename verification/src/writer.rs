//! The single mutation path of a chain.

use crate::chain::{
    fill_tail, lemma_extend_tail, lemma_link_empty, logical, packed, Segment,
};
use crate::reader::Reader;
use vstd::prelude::*;

verus! {

/// Owns the chain and appends to it. `tip` is the segment that the next
/// append starts from; it only ever moves towards the tail.
pub struct Writer<T: Copy> {
    segment_length: usize,
    tip: usize,
    segments: Vec<Segment<T>>,
}

impl<T: Copy> View for Writer<T> {
    type V = Seq<T>;

    /// The logical sequence: everything appended so far, in order.
    closed spec fn view(&self) -> Seq<T> {
        logical(self.segments@)
    }
}

impl<T: Copy> Writer<T> {
    /// The chain is packed and the tip lies in it.
    pub closed spec fn wf(&self) -> bool {
        &&& packed(self.segments@, self.segment_length)
        &&& self.tip < self.segments@.len()
    }

    /// The number of elements that one segment holds.
    pub closed spec fn segment_length(&self) -> usize {
        self.segment_length
    }

    /// Appends `values`, in order, behind everything appended before. The
    /// tip segment is filled first; whenever it is full the writer moves on
    /// to its successor, linking a fresh segment where there is none.
    pub fn append(&mut self, values: &[T])
        requires
            old(self).wf(),
            old(self)@.len() + values@.len() <= usize::MAX,
        ensures
            final(self).wf(),
            final(self).segment_length() == old(self).segment_length(),
            final(self)@ == old(self)@ + values@,
    {
        let total = values.len();
        let mut src: usize = 0;
        proof {
            assert(old(self)@ + values@.take(0) =~= old(self)@);
        }
        while src < total
            invariant
                total == values@.len(),
                src <= total,
                old(self)@.len() + total <= usize::MAX,
                self.segment_length == old(self).segment_length,
                self.segment_length > 0,
                self.tip < self.segments@.len(),
                forall|k: int|
                    0 <= k < self.segments@.len() - 1 ==> (#[trigger] self.segments@[k])@.len()
                        == self.segment_length,
                forall|k: int|
                    0 < k < self.segments@.len() - 1 ==> (#[trigger] self.segments@[k])@.len() > 0,
                self.segments@.last()@.len() <= self.segment_length,
                self.segments@.len() == 1 || self.segments@.last()@.len() > 0 || src < total,
                logical(self.segments@) == old(self)@ + values@.take(src as int),
            decreases
                total - src,
                self.segments@.len() - self.tip,
                (if self.segments@[self.tip as int]@.len() < self.segment_length {
                    0int
                } else {
                    1int
                }),
        {
            let chain_len = self.segments.len();
            let segment_len = self.segments[self.tip].values.len();
            if segment_len < self.segment_length {
                let room = self.segment_length - segment_len;
                let to_copy = if total - src < room {
                    total - src
                } else {
                    room
                };
                let ghost before = self.segments@;
                fill_tail(&mut self.segments, values, src, to_copy);
                proof {
                    lemma_extend_tail(
                        before,
                        self.segments@,
                        values@.subrange(src as int, src + to_copy),
                    );
                    assert(values@.take(src as int) + values@.subrange(src as int, src + to_copy)
                        =~= values@.take(src + to_copy));
                    assert((old(self)@ + values@.take(src as int)) + values@.subrange(
                        src as int,
                        src + to_copy,
                    ) =~= old(self)@ + values@.take(src + to_copy));
                    assert forall|k: int| 0 <= k < self.segments@.len() - 1 implies (
                        #[trigger] self.segments@[k]
                    )@.len() == self.segment_length by {
                        assert(self.segments@[k] == self.segments@.drop_last()[k]);
                        assert(before[k] == before.drop_last()[k]);
                    }
                }
                src += to_copy;
            } else if self.tip + 1 < chain_len {
                self.tip += 1;
            } else {
                let ghost before = self.segments@;
                let fresh = Segment::allocate(self.segment_length);
                proof {
                    lemma_link_empty(before, fresh);
                }
                self.segments.push(fresh);
                self.tip += 1;
            }
        }
        proof {
            assert(values@.take(total as int) =~= values@);
        }
    }

    /// The number of elements appended so far.
    pub fn len(&self) -> (n: usize)
        requires
            self.wf(),
        ensures
            n == self@.len(),
    {
        self.reader().len()
    }

    /// A read-only handle on the chain as it stands.
    pub fn reader(&self) -> (reader: Reader<'_, T>)
        requires
            self.wf(),
        ensures
            reader.wf(),
            reader@ == self@,
            reader.segment_length() == self.segment_length(),
    {
        Reader::attach(&self.segments, self.segment_length)
    }
}

/// A writer on a fresh chain of one empty segment, whose segments hold
/// `segment_length` elements each.
pub fn new<T: Copy>(segment_length: usize) -> (writer: Writer<T>)
    requires
        segment_length > 0,
    ensures
        writer.wf(),
        writer.segment_length() == segment_length,
        writer@ == Seq::<T>::empty(),
{
    let mut segments: Vec<Segment<T>> = Vec::new();
    let first = Segment::allocate(segment_length);
    proof {
        lemma_link_empty(segments@, first);
    }
    segments.push(first);
    Writer { segment_length, tip: 0, segments }
}

} // verus!
