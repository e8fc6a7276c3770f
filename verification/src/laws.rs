//! What holds of appends and queries taken together, over the logical
//! sequence that their contracts speak of.

use crate::order::{equiv, le, lemma_total_order, lt, sorted, totally_ordered};
use crate::reader::{from_index, last_of, next_position_answer, position_answer};
use vstd::prelude::*;

verus! {

/// The logical sequence after appending each of `chunks` in turn to `log`.
pub open spec fn append_each<T>(log: Seq<T>, chunks: Seq<Seq<T>>) -> Seq<T>
    decreases chunks.len(),
{
    if chunks.len() == 0 {
        log
    } else {
        append_each(log + chunks.first(), chunks.drop_first())
    }
}

/// The chunks laid end to end.
pub open spec fn joined<T>(chunks: Seq<Seq<T>>) -> Seq<T>
    decreases chunks.len(),
{
    if chunks.len() == 0 {
        Seq::empty()
    } else {
        chunks.first() + joined(chunks.drop_first())
    }
}

/// Appending a sequence chunk by chunk, however it is cut, leaves the same
/// logical sequence as appending it whole; every query, being stated over
/// the logical sequence alone, then answers alike.
pub proof fn law_chunking_is_invisible<T>(log: Seq<T>, chunks: Seq<Seq<T>>)
    ensures
        append_each(log, chunks) == log + joined(chunks),
    decreases chunks.len(),
{
    if chunks.len() == 0 {
        assert(log + Seq::<T>::empty() =~= log);
    } else {
        law_chunking_is_invisible(log + chunks.first(), chunks.drop_first());
        assert((log + chunks.first()) + joined(chunks.drop_first()) =~= log + (chunks.first()
            + joined(chunks.drop_first())));
    }
}

/// An append never changes what was there: every index that was valid
/// stays valid and keeps its element, and the new elements follow in order.
pub proof fn law_append_only<T>(log: Seq<T>, values: Seq<T>)
    ensures
        (log + values).len() == log.len() + values.len(),
        forall|i: int| 0 <= i < log.len() ==> (log + values)[i] == log[i],
        forall|i: int| 0 <= i < values.len() ==> (log + values)[log.len() + i] == values[i],
{
}

/// On a non-decreasing logical sequence, `position` finds every element
/// that was appended: asked for the element at some index, it answers with
/// an index, and the element there is equal to the one asked for.
pub proof fn law_position_finds_every_element<T: Ord>(log: Seq<T>, i: int, r: Option<usize>)
    requires
        totally_ordered::<T>(),
        sorted(log),
        0 <= i < log.len(),
        position_answer(log, log[i], r),
    ensures
        r is Some,
        r->0 < log.len(),
        equiv(log[r->0 as int], log[i]),
{
    lemma_total_order(log[i], log[i], log[i]);
}

/// `position` never invents a hit: on any logical sequence, sorted or
/// not, an index that it answers with holds an element equal to the key.
pub proof fn law_position_hit_is_real<T: Ord>(log: Seq<T>, key: T, r: Option<usize>)
    requires
        position_answer(log, key, r),
        r is Some,
    ensures
        r->0 < log.len(),
        equiv(log[r->0 as int], key),
{
}

/// On a non-decreasing logical sequence, `next_position` answers with the
/// smallest index whose element is strictly after the key, and with none
/// exactly when no element is strictly after the key.
pub proof fn law_next_position_is_least<T: Ord>(log: Seq<T>, key: T, r: Option<usize>)
    requires
        totally_ordered::<T>(),
        sorted(log),
        next_position_answer(log, key, r),
    ensures
        match r {
            Some(i) => {
                &&& i < log.len()
                &&& lt(key, log[i as int])
                &&& forall|j: int| 0 <= j < i ==> !lt(key, #[trigger] log[j])
            },
            None => forall|j: int| 0 <= j < log.len() ==> !lt(key, #[trigger] log[j]),
        },
{
    assert forall|j: int| 0 <= j < log.len() && le(log[j], key) implies !lt(
        key,
        #[trigger] log[j],
    ) by {
        lemma_total_order(key, log[j], log[j]);
    }
}

/// On a non-decreasing logical sequence the answer of `next_position` is
/// determined: two answers for one key are the same.
pub proof fn law_next_position_is_determined<T: Ord>(
    log: Seq<T>,
    key: T,
    r1: Option<usize>,
    r2: Option<usize>,
)
    requires
        totally_ordered::<T>(),
        sorted(log),
        next_position_answer(log, key, r1),
        next_position_answer(log, key, r2),
    ensures
        r1 == r2,
{
    law_next_position_is_least(log, key, r1);
    law_next_position_is_least(log, key, r2);
}

/// `last` answers with the final element of the most recent non-empty
/// append, and with none when nothing has been appended.
pub proof fn law_last_is_most_recent<T>(log: Seq<T>, values: Seq<T>)
    ensures
        last_of(Seq::<T>::empty()) == None::<T>,
        values.len() > 0 ==> last_of(log + values) == Some(values.last()),
        values.len() == 0 ==> last_of(log + values) == last_of(log),
{
    if values.len() == 0 {
        assert(log + values =~= log);
    }
}

/// A cursor started at `k` yields the logical elements at `k`, `k + 1`,
/// and so on to the end, in order; started at 0 it yields the whole
/// sequence; started at or beyond the end it yields nothing.
pub proof fn law_cursor_yields_suffix<T>(log: Seq<T>, k: int)
    requires
        0 <= k,
    ensures
        from_index(log, 0) == log,
        k >= log.len() ==> from_index(log, k).len() == 0,
        k <= log.len() ==> from_index(log, k).len() == log.len() - k,
        forall|i: int| 0 <= i < log.len() - k ==> from_index(log, k)[i] == log[k + i],
{
    assert(log.skip(0) =~= log);
}

} // verus!
