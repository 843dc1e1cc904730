//! The window over a stream of arrivals, and what it means for one of its
//! elements to be the maximum that is reported.

use vstd::prelude::*;
use crate::order::at_most;
use crate::order::below;
use crate::order::consistently_ordered;
use crate::order::lemma_consistent_is_reflexive;
use crate::order::lemma_consistent_subrange;

verus! {

/// The most recent `size` values of `history`, oldest first; all of
/// `history` while fewer than `size` values have arrived.
pub open spec fn window_of<F>(history: Seq<F>, size: nat) -> Seq<F> {
    if history.len() <= size {
        history
    } else {
        history.subrange(history.len() - size, history.len() as int)
    }
}

/// The arrival number of the oldest value in the window, once `count` values
/// have arrived.
pub open spec fn window_start(count: int, size: int) -> int {
    if count <= size {
        0
    } else {
        count - size
    }
}

/// `w[i]` is the maximum of `w`, and the newest element of that rank: every
/// element is at most `w[i]`, and `w[i]` is at most no element that arrived
/// after it.
pub open spec fn is_newest_max<F: PartialOrd>(w: Seq<F>, i: int) -> bool {
    &&& 0 <= i < w.len()
    &&& forall|j: int| 0 <= j < w.len() ==> at_most(#[trigger] w[j], w[i])
    &&& forall|j: int| i < j < w.len() ==> !at_most(w[i], #[trigger] w[j])
}

/// The position in `w` of its newest maximum. It is meaningful when `w` has
/// one, which is the case for every non-empty, consistently ordered `w`.
pub open spec fn newest_max_index<F: PartialOrd>(w: Seq<F>) -> int {
    choose|i: int| is_newest_max(w, i)
}

/// The newest maximum of `w`.
pub open spec fn newest_max<F: PartialOrd>(w: Seq<F>) -> F {
    w[newest_max_index(w)]
}

/// `w[k]` is a candidate for the maximum: every value that arrived after it
/// ranks strictly below it. A value that is not a candidate can never be the
/// newest maximum again, whatever arrives.
pub open spec fn is_candidate<F: PartialOrd>(w: Seq<F>, k: int) -> bool {
    &&& 0 <= k < w.len()
    &&& forall|j: int| k < j < w.len() ==> below(#[trigger] w[j], w[k])
}

/// A sequence has at most one newest maximum, whatever the order is like.
pub proof fn lemma_newest_max_is_unique<F: PartialOrd>(w: Seq<F>, i: int, j: int)
    requires
        is_newest_max(w, i),
        is_newest_max(w, j),
    ensures
        i == j,
{
    if i != j {
        // Every element is at most the later of the two, but the earlier one
        // is at most nothing that follows it.
        let (earlier, later) = if i < j {
            (i, j)
        } else {
            (j, i)
        };
        assert(at_most(w[earlier], w[later]));
    }
}

/// Every non-empty, consistently ordered sequence has a newest maximum.
pub proof fn lemma_newest_max_exists<F: PartialOrd>(w: Seq<F>)
    requires
        w.len() > 0,
        consistently_ordered(w),
    ensures
        is_newest_max(w, newest_max_index(w)),
    decreases w.len(),
{
    let last = w.len() - 1;
    lemma_consistent_is_reflexive(w, last);
    if w.len() == 1 {
        assert(is_newest_max(w, 0));
    } else {
        // Take the newest maximum of all but the last element, and compare
        // it with the last.
        let front = w.drop_last();
        lemma_consistent_subrange(w, 0, last);
        lemma_newest_max_exists(front);
        let i = newest_max_index(front);
        assert forall|j: int| 0 <= j < last implies at_most(w[j], w[i]) && (i < j ==> !at_most(
            w[i],
            w[j],
        )) by {
            assert(front[j] == w[j]);
        }
        if at_most(w[i], w[last]) {
            assert(is_newest_max(w, last));
        } else {
            assert(is_newest_max(w, i));
        }
    }
}

/// The window holds the newest arrivals and no others: as many as have
/// arrived, up to `size`, in the order of their arrival.
pub proof fn lemma_window_holds_newest_arrivals<F>(history: Seq<F>, size: nat)
    ensures
        window_of(history, size).len() == if history.len() <= size {
            history.len()
        } else {
            size
        },
        forall|i: int|
            0 <= i < window_of(history, size).len() ==> #[trigger] window_of(history, size)[i]
                == history[window_start(history.len() as int, size as int) + i],
{
}

/// An arrival joins the window at its newest end. While the window is not
/// yet full nothing leaves it. Once it is full, its oldest value leaves, and
/// the maximum that is reported is that of the values that stay and the new
/// one, whether or not the value that left was the maximum before.
pub proof fn lemma_oldest_arrival_expires<F: PartialOrd>(history: Seq<F>, size: nat, value: F)
    requires
        size >= 1,
    ensures
        history.len() < size ==> window_of(history.push(value), size) == window_of(
            history,
            size,
        ).push(value),
        history.len() >= size ==> window_of(history.push(value), size) == window_of(
            history,
            size,
        ).drop_first().push(value),
        history.len() >= size ==> newest_max(window_of(history.push(value), size)) == newest_max(
            window_of(history, size).drop_first().push(value),
        ),
{
    if history.len() >= size {
        assert(window_of(history.push(value), size) =~= window_of(
            history,
            size,
        ).drop_first().push(value));
    }
}

/// Ties go to the newest: an arrival that ranks equal to the maximum of the
/// values it joins, or above it, is the maximum that is reported from then
/// on.
pub proof fn lemma_tie_goes_to_newest<F: PartialOrd>(w: Seq<F>, value: F)
    requires
        consistently_ordered(w.push(value)),
        w.len() > 0 ==> at_most(newest_max(w), value),
    ensures
        is_newest_max(w.push(value), w.len() as int),
        newest_max_index(w.push(value)) == w.len(),
        newest_max(w.push(value)) == value,
{
    let grown = w.push(value);
    let last = w.len() as int;
    lemma_consistent_is_reflexive(grown, last);
    if w.len() > 0 {
        assert(grown.subrange(0, last) =~= w);
        lemma_consistent_subrange(grown, 0, last);
        lemma_newest_max_exists(w);
        let i = newest_max_index(w);
        // Every older value is at most `w[i]`, which is at most `value`.
        assert forall|j: int| 0 <= j < last implies at_most(grown[j], grown[last]) by {
            assert(at_most(grown[j], grown[i]) && at_most(grown[i], grown[last]));
        }
    }
    assert(is_newest_max(grown, last));
    lemma_newest_max_is_unique(grown, last, newest_max_index(grown));
}

/// What a tracker with a window of `size` reports when arrival number `k`
/// of `stream`, counted from zero, has come in.
pub open spec fn reported_at<F: PartialOrd>(stream: Seq<F>, size: nat, k: int) -> F {
    newest_max(window_of(stream.take(k + 1), size))
}

/// Fed a strictly ascending stream, the tracker reports the stream
/// unchanged, each value as it arrives, whatever the size of the window.
pub proof fn lemma_ascending_stream_is_reported_unchanged<F: PartialOrd>(
    stream: Seq<F>,
    size: nat,
)
    requires
        size >= 1,
        consistently_ordered(stream),
        forall|i: int, j: int|
            0 <= i < j < stream.len() ==> below(#[trigger] stream[i], #[trigger] stream[j]),
    ensures
        forall|k: int|
            0 <= k < stream.len() ==> #[trigger] reported_at(stream, size, k) == stream[k],
{
    assert forall|k: int| 0 <= k < stream.len() implies #[trigger] reported_at(stream, size, k)
        == stream[k] by {
        let w = window_of(stream.take(k + 1), size);
        let last = w.len() - 1;
        lemma_window_holds_newest_arrivals(stream.take(k + 1), size);
        lemma_consistent_is_reflexive(stream, k);
        assert(is_newest_max(w, last));
        lemma_newest_max_is_unique(w, last, newest_max_index(w));
    }
}

/// Fed a strictly descending stream that fits the window, the tracker
/// reports the first value at every step.
pub proof fn lemma_descending_stream_reports_first_value<F: PartialOrd>(
    stream: Seq<F>,
    size: nat,
)
    requires
        stream.len() <= size,
        consistently_ordered(stream),
        forall|i: int, j: int|
            0 <= i < j < stream.len() ==> below(#[trigger] stream[j], #[trigger] stream[i]),
    ensures
        forall|k: int|
            0 <= k < stream.len() ==> #[trigger] reported_at(stream, size, k) == stream[0],
{
    assert forall|k: int| 0 <= k < stream.len() implies #[trigger] reported_at(stream, size, k)
        == stream[0] by {
        let w = window_of(stream.take(k + 1), size);
        lemma_consistent_is_reflexive(stream, 0);
        assert(is_newest_max(w, 0));
        lemma_newest_max_is_unique(w, 0, newest_max_index(w));
    }
}

} // verus!
