//! The candidate queue: which arrivals are kept, and why keeping only those
//! is enough.
//!
//! A candidate is an arrival that no later arrival has matched or exceeded.
//! The queue holds the candidates of the window, newest at the front. Each
//! candidate answers for a span of arrivals: everything newer than the next
//! older candidate. It is at least as large as all of that span and strictly
//! larger than all that came after it. The oldest candidate, at the back,
//! answers for the whole window.

use std::fmt::Debug;
use vstd::prelude::*;
use crate::order::at_least;
use crate::order::at_most;
use crate::order::below;
use crate::order::consistently_ordered;
use crate::ring::lemma_slot_is_reused_once;
use crate::ring::slot;
use crate::window::is_newest_max;
use crate::window::window_start;

verus! {

/// A candidate for the maximum: a value together with the ring-buffer slot
/// it occupies.
#[derive(Clone)]
pub(crate) struct BufferElement<F: PartialOrd + Clone + Debug> {
    pub(crate) index: usize,
    pub(crate) value: F,
    /// How many values had arrived before this one.
    pub(crate) arrival: Ghost<int>,
}

/// The arrival number just before the span that candidate `i` answers for:
/// that of the next older candidate, or of the last arrival before `lo`.
pub(crate) open spec fn span_start<F: PartialOrd + Clone + Debug>(
    q: Seq<BufferElement<F>>,
    i: int,
    lo: int,
) -> int {
    if i + 1 < q.len() {
        q[i + 1].arrival@
    } else {
        lo - 1
    }
}

/// Candidate `i` of `q` is an arrival of `h` no older than `lo`, sits in the
/// slot of that arrival, and dominates its span.
pub(crate) open spec fn candidate_ok<F: PartialOrd + Clone + Debug>(
    h: Seq<F>,
    q: Seq<BufferElement<F>>,
    lo: int,
    size: int,
    i: int,
) -> bool {
    let p = q[i].arrival@;
    &&& lo <= p < h.len()
    &&& q[i].index as int == slot(p, size)
    &&& q[i].value == h[p]
    &&& span_start(q, i, lo) < p
    &&& forall|t: int| span_start(q, i, lo) < t < h.len() ==> at_most(#[trigger] h[t], h[p])
    &&& forall|t: int| p < t < h.len() ==> !at_most(h[p], #[trigger] h[t])
}

/// `q` holds the candidates among the arrivals of `h` from number `lo` on,
/// newest first.
pub(crate) open spec fn queue_ok<F: PartialOrd + Clone + Debug>(
    h: Seq<F>,
    q: Seq<BufferElement<F>>,
    lo: int,
    size: int,
) -> bool {
    &&& 0 <= lo <= h.len()
    &&& (q.len() == 0 <==> lo == h.len())
    &&& q.len() > 0 ==> q[0].arrival@ == h.len() - 1
    &&& forall|i: int| 0 <= i < q.len() ==> #[trigger] candidate_ok(h, q, lo, size, i)
    &&& forall|i: int, j: int|
        0 <= i < j < q.len() ==> (#[trigger] q[i]).arrival@ > (#[trigger] q[j]).arrival@
}

/// Two arrivals inside a consistently ordered stretch are comparable, and
/// `>=` between them is `<=` read backwards.
pub(crate) proof fn lemma_ordered_pair<F: PartialOrd>(h: Seq<F>, lo: int, a: int, b: int)
    requires
        0 <= lo <= a < h.len(),
        lo <= b < h.len(),
        consistently_ordered(h.subrange(lo, h.len() as int)),
    ensures
        at_most(h[a], h[b]) || at_most(h[b], h[a]),
        at_least(h[a], h[b]) <==> at_most(h[b], h[a]),
{
    let w = h.subrange(lo, h.len() as int);
    assert(w[a - lo] == h[a]);
    assert(w[b - lo] == h[b]);
}

/// `<=` is transitive inside a consistently ordered stretch.
pub(crate) proof fn lemma_ordered_chain<F: PartialOrd>(h: Seq<F>, lo: int, a: int, b: int, c: int)
    requires
        0 <= lo <= a < h.len(),
        lo <= b < h.len(),
        lo <= c < h.len(),
        consistently_ordered(h.subrange(lo, h.len() as int)),
        at_most(h[a], h[b]),
        at_most(h[b], h[c]),
    ensures
        at_most(h[a], h[c]),
{
    let w = h.subrange(lo, h.len() as int);
    assert(w[a - lo] == h[a]);
    assert(w[b - lo] == h[b]);
    assert(w[c - lo] == h[c]);
}

/// Candidates are distinct arrivals, so the one at position `i` has at least
/// `i` arrivals after it.
pub(crate) proof fn lemma_candidates_are_distinct<F: PartialOrd + Clone + Debug>(
    h: Seq<F>,
    q: Seq<BufferElement<F>>,
    lo: int,
    size: int,
    i: int,
)
    requires
        queue_ok(h, q, lo, size),
        0 <= i < q.len(),
    ensures
        lo <= q[i].arrival@ <= h.len() - 1 - i,
    decreases i,
{
    assert(candidate_ok(h, q, lo, size, i));
    if i > 0 {
        lemma_candidates_are_distinct(h, q, lo, size, i - 1);
    }
}

/// The value that arrives next is comparable with every candidate, and `>=`
/// from its side is `<=` from the candidate's.
pub(crate) proof fn lemma_compare_with_candidate<F: PartialOrd + Clone + Debug>(
    h: Seq<F>,
    q: Seq<BufferElement<F>>,
    lo: int,
    size: int,
    value: F,
    i: int,
)
    requires
        queue_ok(h, q, lo, size),
        0 <= i < q.len(),
        consistently_ordered(h.push(value).subrange(lo, h.len() as int + 1)),
    ensures
        at_most(value, q[i].value) || at_most(q[i].value, value),
        at_least(value, q[i].value) <==> at_most(q[i].value, value),
{
    let grown = h.push(value);
    let p = q[i].arrival@;
    assert(candidate_ok(h, q, lo, size, i));
    lemma_ordered_pair(grown, lo, h.len() as int, p);
}

/// Every candidate is one of the arrivals from `lo` on.
pub(crate) proof fn lemma_candidate_is_in_window<F: PartialOrd + Clone + Debug>(
    h: Seq<F>,
    q: Seq<BufferElement<F>>,
    lo: int,
    size: int,
    i: int,
)
    requires
        queue_ok(h, q, lo, size),
        0 <= i < q.len(),
    ensures
        lo <= q[i].arrival@ < h.len(),
        h.subrange(lo, h.len() as int)[q[i].arrival@ - lo] == q[i].value,
{
    assert(candidate_ok(h, q, lo, size, i));
}

/// An arrival that is not in the queue has a candidate after it that it is
/// at most; the search starts at candidate `from`, which is newer than it.
pub(crate) proof fn lemma_find_dominating_candidate<F: PartialOrd + Clone + Debug>(
    h: Seq<F>,
    q: Seq<BufferElement<F>>,
    lo: int,
    size: int,
    t: int,
    from: int,
) -> (found: int)
    requires
        queue_ok(h, q, lo, size),
        lo <= t < h.len(),
        0 <= from < q.len(),
        t < q[from].arrival@,
        forall|i: int| 0 <= i < q.len() ==> (#[trigger] q[i]).arrival@ != t,
    ensures
        0 <= found < q.len(),
        t < q[found].arrival@ < h.len(),
        at_most(h[t], h[q[found].arrival@]),
    decreases q.len() - from,
{
    assert(candidate_ok(h, q, lo, size, from));
    if span_start(q, from, lo) < t {
        from
    } else {
        lemma_find_dominating_candidate(h, q, lo, size, t, from + 1)
    }
}

/// The queue holds exactly the candidates: an arrival from `lo` on is in
/// it if and only if everything that arrived later ranks strictly below it.
pub(crate) proof fn lemma_queue_is_exact<F: PartialOrd + Clone + Debug>(
    h: Seq<F>,
    q: Seq<BufferElement<F>>,
    lo: int,
    size: int,
    t: int,
)
    requires
        queue_ok(h, q, lo, size),
        lo <= t < h.len(),
    ensures
        (exists|i: int| 0 <= i < q.len() && (#[trigger] q[i]).arrival@ == t) <==> (forall|j: int|
            t < j < h.len() ==> below(#[trigger] h[j], h[t])),
{
    if exists|i: int| 0 <= i < q.len() && (#[trigger] q[i]).arrival@ == t {
        let i = choose|i: int| 0 <= i < q.len() && (#[trigger] q[i]).arrival@ == t;
        assert(candidate_ok(h, q, lo, size, i));
    } else {
        assert(candidate_ok(h, q, lo, size, 0));
        let found = lemma_find_dominating_candidate(h, q, lo, size, t, 0);
        assert(!below(h[q[found].arrival@], h[t]));
    }
}

/// From the front of the queue to its back the candidates get older and
/// strictly larger.
pub(crate) proof fn lemma_candidates_ascend<F: PartialOrd + Clone + Debug>(
    h: Seq<F>,
    q: Seq<BufferElement<F>>,
    lo: int,
    size: int,
    i: int,
    j: int,
)
    requires
        queue_ok(h, q, lo, size),
        0 <= i < j < q.len(),
    ensures
        below(q[i].value, q[j].value),
{
    assert(candidate_ok(h, q, lo, size, i));
    assert(candidate_ok(h, q, lo, size, j));
}

/// The candidate at the back of the queue is the newest maximum of the
/// arrivals from `lo` on.
pub(crate) proof fn lemma_back_is_newest_max<F: PartialOrd + Clone + Debug>(
    h: Seq<F>,
    q: Seq<BufferElement<F>>,
    lo: int,
    size: int,
)
    requires
        queue_ok(h, q, lo, size),
        q.len() > 0,
    ensures
        is_newest_max(h.subrange(lo, h.len() as int), q.last().arrival@ - lo),
        h.subrange(lo, h.len() as int)[q.last().arrival@ - lo] == q.last().value,
{
    assert(candidate_ok(h, q, lo, size, q.len() - 1));
}

/// Making room for arrival number `h.len()`: once the window is full its
/// start moves on by one, and the only candidate that this can cost is the
/// one at the back, which is recognised by its slot.
pub(crate) proof fn lemma_expire<F: PartialOrd + Clone + Debug>(
    h: Seq<F>,
    q: Seq<BufferElement<F>>,
    size: int,
)
    requires
        size >= 1,
        queue_ok(h, q, window_start(h.len() as int, size), size),
    ensures
        q.len() > 0 && q.last().index as int == slot(h.len() as int, size) ==> queue_ok(
            h,
            q.drop_last(),
            window_start(h.len() as int + 1, size),
            size,
        ),
        !(q.len() > 0 && q.last().index as int == slot(h.len() as int, size)) ==> queue_ok(
            h,
            q,
            window_start(h.len() as int + 1, size),
            size,
        ),
{
    let count = h.len() as int;
    let lo = window_start(count, size);
    let new_lo = window_start(count + 1, size);
    if q.len() > 0 {
        let last = q.len() - 1;
        assert(candidate_ok(h, q, lo, size, last));
        // The back is the oldest candidate; its slot comes up for reuse
        // exactly when it is the arrival that now leaves the window.
        lemma_slot_is_reused_once(q[last].arrival@, count, size);
        if q[last].index as int == slot(count, size) {
            let rest = q.drop_last();
            assert forall|i: int| 0 <= i < rest.len() implies #[trigger] candidate_ok(
                h,
                rest,
                new_lo,
                size,
                i,
            ) by {
                assert(candidate_ok(h, q, lo, size, i));
            }
        } else {
            assert forall|i: int| 0 <= i < q.len() implies #[trigger] candidate_ok(
                h,
                q,
                new_lo,
                size,
                i,
            ) by {
                assert(candidate_ok(h, q, lo, size, i));
            }
        }
    }
}

/// A value that is at least the maximum of the window takes the place of
/// every candidate; so does the first value of all.
pub(crate) proof fn lemma_push_alone<F: PartialOrd + Clone + Debug>(
    h: Seq<F>,
    q: Seq<BufferElement<F>>,
    lo: int,
    size: int,
    e: BufferElement<F>,
)
    requires
        queue_ok(h, q, lo, size),
        e.arrival@ == h.len(),
        e.index as int == slot(h.len() as int, size),
        consistently_ordered(h.push(e.value).subrange(lo, h.len() as int + 1)),
        q.len() > 0 ==> at_most(q.last().value, e.value),
    ensures
        queue_ok(h.push(e.value), seq![e], lo, size),
{
    let count = h.len() as int;
    let grown = h.push(e.value);
    let alone = seq![e];
    assert forall|t: int| span_start(alone, 0, lo) < t < grown.len() implies at_most(
        #[trigger] grown[t],
        grown[count],
    ) by {
        if t == count {
            lemma_ordered_pair(grown, lo, count, count);
        } else {
            // Everything older is at most the back, which is at most `e`.
            let last = q.len() - 1;
            assert(candidate_ok(h, q, lo, size, last));
            lemma_ordered_chain(grown, lo, t, q[last].arrival@, count);
        }
    }
}

/// A value below the maximum of the window becomes the newest candidate. It
/// replaces the candidates that it matches or exceeds: those in front of
/// position `keep`, the first one that is strictly larger.
pub(crate) proof fn lemma_push_front<F: PartialOrd + Clone + Debug>(
    h: Seq<F>,
    q: Seq<BufferElement<F>>,
    lo: int,
    size: int,
    e: BufferElement<F>,
    keep: int,
)
    requires
        queue_ok(h, q, lo, size),
        e.arrival@ == h.len(),
        e.index as int == slot(h.len() as int, size),
        consistently_ordered(h.push(e.value).subrange(lo, h.len() as int + 1)),
        0 <= keep < q.len(),
        keep > 0 ==> at_most(q[keep - 1].value, e.value),
        !at_most(q[keep].value, e.value),
    ensures
        queue_ok(h.push(e.value), seq![e] + q.subrange(keep, q.len() as int), lo, size),
{
    let count = h.len() as int;
    let grown = h.push(e.value);
    let kept = seq![e] + q.subrange(keep, q.len() as int);
    let stop = q[keep].arrival@;
    assert(candidate_ok(h, q, lo, size, keep));
    // The first candidate that stays is strictly above the new value.
    lemma_ordered_pair(grown, lo, count, stop);

    // The new value answers for everything newer than that candidate.
    assert forall|t: int| span_start(kept, 0, lo) < t < grown.len() implies at_most(
        #[trigger] grown[t],
        grown[count],
    ) by {
        if t == count {
            lemma_ordered_pair(grown, lo, count, count);
        } else {
            // All of it is at most the last candidate that goes, which is at
            // most the new value.
            assert(candidate_ok(h, q, lo, size, keep - 1));
            lemma_ordered_chain(grown, lo, t, q[keep - 1].arrival@, count);
        }
    }

    // Every candidate that stays is strictly above the new value as well.
    assert forall|i: int| 1 <= i < kept.len() implies #[trigger] candidate_ok(
        grown,
        kept,
        lo,
        size,
        i,
    ) by {
        let j = keep + i - 1;
        let p = q[j].arrival@;
        assert(candidate_ok(h, q, lo, size, j));
        if j + 1 < q.len() {
            assert(candidate_ok(h, q, lo, size, j + 1));
        }
        if j > keep {
            lemma_ordered_chain(grown, lo, count, stop, p);
            if at_most(h[p], e.value) {
                lemma_ordered_chain(grown, lo, p, count, stop);
            }
        }
    }
}

} // verus!
