//! Forward-only cursors over a chain.

use crate::chain::{
    lemma_logical_index, lemma_logical_total, lemma_prefix_of_logical, lemma_prefix_step, logical,
    prefix_len, Segment,
};
use vstd::prelude::*;

verus! {

/// A cursor that stands before element `offset` of segment `segment`, or
/// behind the last element of that segment. It moves forward only.
pub struct Iter<'a, T: Copy> {
    segments: &'a Vec<Segment<T>>,
    segment: usize,
    offset: usize,
}

impl<'a, T: Copy> View for Iter<'a, T> {
    type V = Seq<T>;

    /// The elements that are still to come, in order.
    closed spec fn view(&self) -> Seq<T> {
        logical(self.segments@).skip(prefix_len(self.segments@, self.segment as int) + self.offset)
    }
}

impl<'a, T: Copy> Iter<'a, T> {
    /// The cursor stands inside its chain, in which only the head may be
    /// empty.
    pub closed spec fn wf(&self) -> bool {
        &&& self.segment < self.segments@.len()
        &&& self.offset <= self.segments@[self.segment as int]@.len()
        &&& forall|k: int| 0 < k < self.segments@.len() ==> (#[trigger] self.segments@[k])@.len() > 0
    }

    /// A cursor on `segments` that stands before element `offset` of
    /// segment `segment`.
    pub(crate) fn at(segments: &'a Vec<Segment<T>>, segment: usize, offset: usize) -> (it: Self)
        requires
            segment < segments@.len(),
            offset <= segments@[segment as int]@.len(),
            forall|k: int| 0 < k < segments@.len() ==> (#[trigger] segments@[k])@.len() > 0,
        ensures
            it.wf(),
            it@ == logical(segments@).skip(prefix_len(segments@, segment as int) + offset),
    {
        Iter { segments, segment, offset }
    }

    /// The next element, if there is one; the cursor then stands behind it.
    /// When the current segment is used up the cursor moves on to its
    /// successor.
    pub fn next(&mut self) -> (r: Option<T>)
        requires
            old(self).wf(),
        ensures
            final(self).wf(),
            r == (if old(self)@.len() == 0 {
                None
            } else {
                Some(old(self)@[0])
            }),
            final(self)@ == (if old(self)@.len() == 0 {
                old(self)@
            } else {
                old(self)@.skip(1)
            }),
    {
        let ghost log = logical(self.segments@);
        let ghost start = prefix_len(self.segments@, self.segment as int) + self.offset;
        proof {
            lemma_prefix_step(self.segments@, self.segment as int);
            lemma_prefix_of_logical(self.segments@, self.segment + 1);
            lemma_logical_total(self.segments@);
        }
        let chain_len = self.segments.len();
        let len = self.segments[self.segment].values.len();
        if self.offset < len {
            let v = self.segments[self.segment].values[self.offset];
            proof {
                lemma_logical_index(self.segments@, self.segment as int, self.offset as int);
                assert(log.skip(start).skip(1) =~= log.skip(start + 1));
            }
            self.offset += 1;
            return Some(v);
        }
        if self.segment + 1 >= chain_len {
            return None;
        }
        self.segment += 1;
        let v = self.segments[self.segment].values[0];
        proof {
            lemma_logical_index(self.segments@, self.segment as int, 0);
            assert(log.skip(start).skip(1) =~= log.skip(start + 1));
        }
        self.offset = 1;
        Some(v)
    }
}

} // verus!
