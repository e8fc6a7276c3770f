//! Read-only handles: the last element, cursors, and the two searches.

use crate::chain::{
    lemma_logical_index, lemma_logical_total, lemma_packed_prefix, lemma_prefix_of_logical,
    lemma_prefix_step, logical, packed, prefix_len, Segment,
};
use crate::iter::Iter;
use crate::order::{equiv, is_le, is_lt, le, lemma_total_order, lt, sorted, totally_ordered};
use vstd::prelude::*;

verus! {

/// What `last` answers on the logical sequence `log`.
pub open spec fn last_of<T>(log: Seq<T>) -> Option<T> {
    if log.len() == 0 {
        None
    } else {
        Some(log.last())
    }
}

/// What a cursor started at `index` of the logical sequence `log` yields.
pub open spec fn from_index<T>(log: Seq<T>, index: int) -> Seq<T> {
    if 0 <= index <= log.len() {
        log.skip(index)
    } else {
        Seq::empty()
    }
}

/// `r` is an answer of `position` for `key` on the logical sequence `log`:
/// an index names an element equal to `key`; on a non-decreasing sequence
/// no index means that no element is equal to `key`.
pub open spec fn position_answer<T: Ord>(log: Seq<T>, key: T, r: Option<usize>) -> bool {
    match r {
        Some(i) => i < log.len() && equiv(log[i as int], key),
        None => sorted(log) ==> forall|j: int|
            0 <= j < log.len() ==> !equiv(#[trigger] log[j], key),
    }
}

/// `r` is an answer of `next_position` for `key` on the logical sequence
/// `log`: an index names an element after `key`, and on a non-decreasing
/// sequence nothing before it is after `key`; on a non-decreasing sequence
/// no index means that no element is after `key`.
pub open spec fn next_position_answer<T: Ord>(log: Seq<T>, key: T, r: Option<usize>) -> bool {
    match r {
        Some(i) => {
            &&& i < log.len()
            &&& lt(key, log[i as int])
            &&& sorted(log) ==> forall|j: int| 0 <= j < i ==> le(#[trigger] log[j], key)
        },
        None => sorted(log) ==> forall|j: int| 0 <= j < log.len() ==> le(#[trigger] log[j], key),
    }
}

/// A read-only handle on a chain. It is `Copy`: any number of handles may
/// look at one chain.
pub struct Reader<'a, T: Copy> {
    segment_length: usize,
    segments: &'a Vec<Segment<T>>,
}

impl<'a, T: Copy> Clone for Reader<'a, T> {
    /// Another handle on the same chain.
    fn clone(&self) -> (copy: Self)
        ensures
            copy == *self,
    {
        Reader { segment_length: self.segment_length, segments: self.segments }
    }
}

impl<'a, T: Copy> Copy for Reader<'a, T> {

}

impl<'a, T: Copy> View for Reader<'a, T> {
    type V = Seq<T>;

    /// The logical sequence of the chain that the handle looks at.
    closed spec fn view(&self) -> Seq<T> {
        logical(self.segments@)
    }
}

impl<'a, T: Copy> Reader<'a, T> {
    /// The chain that the handle looks at is packed.
    pub closed spec fn wf(&self) -> bool {
        packed(self.segments@, self.segment_length)
    }

    /// The number of elements that one segment holds.
    pub closed spec fn segment_length(&self) -> usize {
        self.segment_length
    }

    /// A handle on the chain `segments`, whose head is its first segment.
    pub(crate) fn attach(segments: &'a Vec<Segment<T>>, segment_length: usize) -> (reader: Self)
        requires
            packed(segments@, segment_length),
        ensures
            reader.wf(),
            reader@ == logical(segments@),
            reader.segment_length() == segment_length,
    {
        Reader { segment_length, segments }
    }

    /// The number of elements in the logical sequence.
    pub fn len(&self) -> (n: usize)
        requires
            self.wf(),
        ensures
            n == self@.len(),
    {
        let tail = self.segments.len() - 1;
        let tail_len = self.segments[tail].values.len();
        proof {
            lemma_logical_total(self.segments@);
            lemma_packed_prefix(self.segments@, self.segment_length, tail as int);
        }
        tail * self.segment_length + tail_len
    }

    /// The most recently appended element; `None` when nothing has been
    /// appended. It is the last element of the tail segment, which is empty
    /// only while the chain is.
    pub fn last(&self) -> (r: Option<T>)
        requires
            self.wf(),
        ensures
            r == last_of(self@),
    {
        let tail = self.segments.len() - 1;
        let values = &self.segments[tail].values;
        let len = values.len();
        proof {
            lemma_logical_total(self.segments@);
            if len > 0 {
                lemma_logical_index(self.segments@, tail as int, len - 1);
            }
        }
        if len == 0 {
            None
        } else {
            Some(values[len - 1])
        }
    }

    /// A cursor over the logical elements at `index`, `index + 1`, and so
    /// on; an empty one when `index` lies beyond what has been appended.
    pub fn iter_from(&self, index: usize) -> (it: Iter<'a, T>)
        requires
            self.wf(),
        ensures
            it.wf(),
            it@ == from_index(self@, index as int),
    {
        let chain_len = self.segments.len();
        let skipped = index / self.segment_length;
        let within = index % self.segment_length;
        proof {
            let cap = self.segment_length;
            assert(index == skipped * cap + within && within < cap) by (nonlinear_arith)
                requires
                    skipped == index / cap,
                    within == index % cap,
                    cap > 0,
            ;
            lemma_logical_total(self.segments@);
            lemma_packed_prefix(self.segments@, cap, chain_len - 1);
        }
        if skipped >= chain_len {
            proof {
                let cap = self.segment_length;
                assert(chain_len * cap <= skipped * cap) by (nonlinear_arith)
                    requires
                        chain_len <= skipped,
                        cap > 0,
                ;
                assert((chain_len - 1) * cap + cap == chain_len * cap) by (nonlinear_arith);
                assert(self@.skip(self@.len() as int) =~= Seq::<T>::empty());
            }
            let tail = chain_len - 1;
            let tail_len = self.segments[tail].values.len();
            return Iter::at(self.segments, tail, tail_len);
        }
        let len = self.segments[skipped].values.len();
        let offset = if within < len {
            within
        } else {
            len
        };
        proof {
            lemma_packed_prefix(self.segments@, self.segment_length, skipped as int);
            lemma_prefix_step(self.segments@, skipped as int);
            lemma_prefix_of_logical(self.segments@, skipped + 1);
            if within > len {
                assert(skipped == chain_len - 1);
                assert(self@.skip(self@.len() as int) =~= Seq::<T>::empty());
            }
        }
        Iter::at(self.segments, skipped, offset)
    }
}

impl<'a, T: Copy + Ord> Reader<'a, T> {
    /// The facts about segment `segment` that both searches use: where its
    /// elements lie in the logical sequence.
    proof fn lemma_segment_window(&self, segment: int)
        requires
            self.wf(),
            0 <= segment < self.segments@.len(),
        ensures
            prefix_len(self.segments@, segment) + self.segments@[segment]@.len() == prefix_len(
                self.segments@,
                segment + 1,
            ) <= self@.len(),
            segment + 1 == self.segments@.len() ==> prefix_len(self.segments@, segment + 1)
                == self@.len(),
            forall|j: int|
                0 <= j < self.segments@[segment]@.len() ==> self@[prefix_len(
                    self.segments@,
                    segment,
                ) + j] == #[trigger] self.segments@[segment]@[j],
    {
        lemma_prefix_step(self.segments@, segment);
        lemma_prefix_of_logical(self.segments@, segment + 1);
        lemma_logical_total(self.segments@);
        assert forall|j: int| 0 <= j < self.segments@[segment]@.len() implies self@[prefix_len(
            self.segments@,
            segment,
        ) + j] == #[trigger] self.segments@[segment]@[j] by {
            lemma_logical_index(self.segments@, segment, j);
        }
    }

    /// The logical index of the first element that orders strictly after
    /// `key`; `None` if there is none. Segments whose last element does not
    /// order after `key` are skipped whole; the first other one is scanned.
    ///
    /// The index returned always holds an element after `key`. That it is
    /// the first such index, and that `None` means there is none, holds
    /// when the logical sequence is non-decreasing.
    pub fn next_position(&self, key: T) -> (r: Option<usize>)
        requires
            self.wf(),
            totally_ordered::<T>(),
        ensures
            next_position_answer(self@, key, r),
    {
        let chain_len = self.segments.len();
        let mut segment: usize = 0;
        let mut offset: usize = 0;
        proof {
            assert(self.segments@.take(0) =~= Seq::<Segment<T>>::empty());
        }
        while segment < chain_len
            invariant
                self.wf(),
                totally_ordered::<T>(),
                chain_len == self.segments@.len(),
                segment <= chain_len,
                offset == prefix_len(self.segments@, segment as int),
                offset <= self@.len(),
                segment == chain_len ==> offset == self@.len(),
                sorted(self@) ==> forall|j: int| 0 <= j < offset ==> le(#[trigger] self@[j], key),
            decreases chain_len - segment,
        {
            let values = &self.segments[segment].values;
            let len = values.len();
            proof {
                self.lemma_segment_window(segment as int);
            }
            if len == 0 {
                return None;
            }
            let last = values[len - 1];
            if is_le(&last, &key) {
                proof {
                    assert(self@[offset + (len - 1)] == values@[len - 1]);
                    assert forall|j: int| 0 <= j < offset + len && sorted(self@) implies le(
                        #[trigger] self@[j],
                        key,
                    ) by {
                        lemma_total_order(self@[j], last, key);
                    }
                }
                offset += len;
                segment += 1;
            } else {
                let mut pos: usize = 0;
                while pos < len
                    invariant
                        totally_ordered::<T>(),
                        len == values@.len(),
                        pos <= len,
                        offset + len <= self@.len() <= usize::MAX,
                        last == values@[len - 1],
                        !le(last, key),
                        forall|j: int| 0 <= j < pos ==> le(#[trigger] values@[j], key),
                        forall|j: int|
                            0 <= j < len ==> self@[offset + j] == #[trigger] values@[j],
                        sorted(self@) ==> forall|j: int|
                            0 <= j < offset ==> le(#[trigger] self@[j], key),
                    decreases len - pos,
                {
                    let val = values[pos];
                    if is_lt(&key, &val) {
                        proof {
                            assert forall|j: int| 0 <= j < offset + pos && sorted(
                                self@,
                            ) implies le(#[trigger] self@[j], key) by {
                                if j >= offset {
                                    assert(self@[offset + (j - offset)] == values@[j - offset]);
                                }
                            }
                        }
                        return Some(pos + offset);
                    }
                    proof {
                        lemma_total_order(key, val, val);
                    }
                    pos += 1;
                }
                return None;
            }
        }
        None
    }

    /// The position of `key` in the occupied prefix `values` of one segment,
    /// by bisection.
    fn search_segment(values: &Vec<T>, key: &T) -> (r: Option<usize>)
        requires
            totally_ordered::<T>(),
        ensures
            match r {
                Some(p) => p < values@.len() && equiv(values@[p as int], *key),
                None => sorted(values@) ==> forall|j: int|
                    0 <= j < values@.len() ==> !equiv(#[trigger] values@[j], *key),
            },
    {
        let mut low: usize = 0;
        let mut high: usize = values.len();
        while low < high
            invariant
                totally_ordered::<T>(),
                low <= high <= values@.len(),
                sorted(values@) ==> forall|j: int| 0 <= j < low ==> lt(#[trigger] values@[j], *key),
                sorted(values@) ==> forall|j: int|
                    high <= j < values@.len() ==> lt(*key, #[trigger] values@[j]),
            decreases high - low,
        {
            let mid = low + (high - low) / 2;
            let probe = values[mid];
            if is_lt(&probe, key) {
                proof {
                    assert forall|j: int| 0 <= j < mid + 1 && sorted(values@) implies lt(
                        #[trigger] values@[j],
                        *key,
                    ) by {
                        lemma_total_order(values@[j], probe, *key);
                    }
                }
                low = mid + 1;
            } else if is_lt(key, &probe) {
                proof {
                    assert forall|j: int| mid <= j < values@.len() && sorted(values@) implies lt(
                        *key,
                        #[trigger] values@[j],
                    ) by {
                        lemma_total_order(*key, probe, values@[j]);
                    }
                }
                high = mid;
            } else {
                proof {
                    lemma_total_order(probe, *key, *key);
                }
                return Some(mid);
            }
        }
        proof {
            assert forall|j: int| 0 <= j < values@.len() && sorted(values@) implies !equiv(
                #[trigger] values@[j],
                *key,
            ) by {
                lemma_total_order(values@[j], *key, *key);
            }
        }
        None
    }

    /// The logical index of an element that compares equal to `key`; which
    /// one, where several do, is left open. Segments whose last element
    /// orders before `key` are skipped whole; the first other one is
    /// bisected, unless `key` orders before its first element.
    ///
    /// The index returned always holds an element equal to `key`. That
    /// `None` means there is none holds when the logical sequence is
    /// non-decreasing.
    pub fn position(&self, key: T) -> (r: Option<usize>)
        requires
            self.wf(),
            totally_ordered::<T>(),
        ensures
            position_answer(self@, key, r),
    {
        let chain_len = self.segments.len();
        let mut segment: usize = 0;
        let mut offset: usize = 0;
        proof {
            assert(self.segments@.take(0) =~= Seq::<Segment<T>>::empty());
        }
        while segment < chain_len
            invariant
                self.wf(),
                totally_ordered::<T>(),
                chain_len == self.segments@.len(),
                segment <= chain_len,
                offset == prefix_len(self.segments@, segment as int),
                offset <= self@.len(),
                segment == chain_len ==> offset == self@.len(),
                sorted(self@) ==> forall|j: int| 0 <= j < offset ==> lt(#[trigger] self@[j], key),
            decreases chain_len - segment,
        {
            let values = &self.segments[segment].values;
            let len = values.len();
            proof {
                self.lemma_segment_window(segment as int);
                assert forall|j: int| 0 <= j < offset && sorted(self@) implies !equiv(
                    #[trigger] self@[j],
                    key,
                ) by {
                    lemma_total_order(self@[j], key, key);
                }
            }
            if len == 0 {
                return None;
            }
            let last = values[len - 1];
            if is_lt(&last, &key) {
                proof {
                    assert(self@[offset + (len - 1)] == values@[len - 1]);
                    assert forall|j: int| 0 <= j < offset + len && sorted(self@) implies lt(
                        #[trigger] self@[j],
                        key,
                    ) by {
                        lemma_total_order(self@[j], last, key);
                    }
                }
                offset += len;
                segment += 1;
            } else {
                let first = values[0];
                proof {
                    assert(self@[offset + 0] == values@[0]);
                    assert(self@[offset + (len - 1)] == values@[len - 1]);
                }
                if is_lt(&key, &first) {
                    proof {
                        assert forall|j: int| offset <= j < self@.len() && sorted(
                            self@,
                        ) implies !equiv(#[trigger] self@[j], key) by {
                            lemma_total_order(key, first, self@[j]);
                            lemma_total_order(self@[j], key, key);
                        }
                    }
                    return None;
                }
                let found = Self::search_segment(values, &key);
                proof {
                    if sorted(self@) {
                        assert forall|a: int, b: int| 0 <= a <= b < len implies le(
                            #[trigger] values@[a],
                            #[trigger] values@[b],
                        ) by {
                            assert(self@[offset + a] == values@[a]);
                            assert(self@[offset + b] == values@[b]);
                        }
                        assert(sorted(values@));
                    }
                    if found.is_none() {
                        assert forall|j: int| offset <= j < self@.len() && sorted(
                            self@,
                        ) implies !equiv(#[trigger] self@[j], key) by {
                            if j < offset + len {
                                assert(self@[offset + (j - offset)] == values@[j - offset]);
                            } else {
                                lemma_total_order(key, last, self@[j]);
                                lemma_total_order(last, self@[j], key);
                                lemma_total_order(last, key, key);
                                lemma_total_order(self@[j], key, key);
                            }
                        }
                    }
                }
                return match found {
                    Some(p) => Some(p + offset),
                    None => None,
                };
            }
        }
        None
    }
}


} // verus!
