//! The tracker: its state, its three operations, and what holds of it
//! between them.

use std::collections::VecDeque;
use std::fmt::Debug;
use vstd::prelude::*;
use crate::order::at_most;
use crate::order::below;
use crate::order::consistently_ordered;
use crate::queue::lemma_back_is_newest_max;
use crate::queue::lemma_candidate_is_in_window;
use crate::queue::lemma_candidates_are_distinct;
use crate::queue::lemma_candidates_ascend;
use crate::queue::lemma_expire;
use crate::queue::lemma_compare_with_candidate;
use crate::queue::lemma_push_alone;
use crate::queue::lemma_push_front;
use crate::queue::lemma_queue_is_exact;
use crate::queue::queue_ok;
use crate::queue::BufferElement;
use crate::ring::lemma_slot_in_ring;
use crate::ring::lemma_slot_is_remainder;
use crate::ring::lemma_slot_of_first;
use crate::ring::lemma_slot_of_next;
use crate::ring::slot;
use crate::window::is_candidate;
use crate::window::is_newest_max;
use crate::window::lemma_newest_max_is_unique;
use crate::window::newest_max;
use crate::window::newest_max_index;
use crate::window::window_of;
use crate::window::window_start;

verus! {

/// Data structure to keep track of the max value over a ring buffer.
///
/// The candidates for the maximum are held in a deque, newest at the front
/// and oldest at the back. For a new entry the tracker will:
///   - remove the element that leaves the window, if it is still held;
///   - remove all elements that the new entry matches or exceeds;
///   - return the highest value.
///
/// This keeps the deque sorted and confined to the window, so that the back
/// of the deque is always the maximum. If two values are equal in their
/// ordering, the newest one is kept.
#[derive(Clone)]
pub struct MaxDetector<F: PartialOrd + Clone + Debug> {
    deque: VecDeque<BufferElement<F>>,
    buffer_size: usize,
    next_index: usize,
    /// Every value that has arrived, oldest first.
    arrivals: Ghost<Seq<F>>,
    /// How many candidates have been taken out of the deque.
    removed: Ghost<nat>,
}

impl<F: PartialOrd + Clone + Debug> View for MaxDetector<F> {
    type V = Seq<F>;

    /// The window: the values that count towards the maximum, oldest first.
    open spec fn view(&self) -> Seq<F> {
        window_of(self.history(), self.capacity())
    }
}

impl<F: PartialOrd + Clone + Debug> MaxDetector<F> {
    /// Every value that has arrived so far, oldest first.
    pub closed spec fn history(&self) -> Seq<F> {
        self.arrivals@
    }

    /// The window size that the tracker was made with.
    pub closed spec fn capacity(&self) -> nat {
        self.buffer_size as nat
    }

    /// The ring-buffer slot that the next arrival will occupy.
    pub closed spec fn next_slot(&self) -> nat {
        self.next_index as nat
    }

    /// The values that the tracker holds on to as candidates for the
    /// maximum, from the front of its deque to the back.
    pub closed spec fn candidates(&self) -> Seq<F> {
        Seq::new(self.deque@.len(), |i: int| self.deque@[i].value)
    }

    /// Where in the window each candidate stands, counted from the oldest
    /// value of the window.
    pub closed spec fn candidate_positions(&self) -> Seq<int> {
        Seq::new(
            self.deque@.len(),
            |i: int|
                self.deque@[i].arrival@ - window_start(
                    self.arrivals@.len() as int,
                    self.buffer_size as int,
                ),
        )
    }

    /// How many candidates the tracker holds on to.
    pub open spec fn held(&self) -> nat {
        self.candidates().len()
    }

    /// How many candidates the tracker has let go of so far, one by one or
    /// several at once.
    pub closed spec fn removals(&self) -> nat {
        self.removed@
    }

    /// What `current` may give for this tracker: nothing before the first
    /// arrival, afterwards a clone of the newest maximum of the window.
    pub open spec fn reports(&self, max: Option<F>) -> bool {
        match max {
            None => self.history().len() == 0,
            Some(value) => self.history().len() > 0 && cloned(newest_max(self@), value),
        }
    }

    /// The representation invariant: the next slot is the one that the next
    /// arrival is due, and the deque holds the candidates of the window.
    pub closed spec fn well_formed(&self) -> bool {
        let count = self.arrivals@.len() as int;
        let size = self.buffer_size as int;
        &&& size >= 1
        &&& self.next_index as int == slot(count, size)
        &&& queue_ok(self.arrivals@, self.deque@, window_start(count, size), size)
        &&& self.removed@ + self.deque@.len() == count
    }

    /// A tracker over the most recent `buffer_size` arrivals, with none yet.
    pub fn new(buffer_size: usize) -> (detector: Self)
        requires
            buffer_size >= 1,
        ensures
            detector.well_formed(),
            detector.capacity() == buffer_size,
            detector.history() == Seq::<F>::empty(),
            detector.candidates() == Seq::<F>::empty(),
            detector.next_slot() == 0,
            detector.removals() == 0,
    {
        proof {
            lemma_slot_of_first(buffer_size as int);
        }
        Self {
            buffer_size,
            deque: VecDeque::new(),
            next_index: 0,
            arrivals: Ghost(Seq::empty()),
            removed: Ghost(0),
        }
    }

    /// Add new element to buffer and return highest value.
    ///
    /// The value joins the history, which moves the window on by one once it
    /// is full. What is returned is a clone of the newest maximum of the
    /// window as it then stands.
    pub fn next(&mut self, value: F) -> (max: F)
        requires
            old(self).well_formed(),
            consistently_ordered(window_of(old(self).history().push(value), old(self).capacity())),
        ensures
            final(self).well_formed(),
            final(self).capacity() == old(self).capacity(),
            final(self).history() == old(self).history().push(value),
            final(self).next_slot() == (old(self).next_slot() + 1) % old(self).capacity(),
            is_newest_max(final(self)@, newest_max_index(final(self)@)),
            cloned(newest_max(final(self)@), max),
    {
        let next_index = self.next_index;
        let ghost before = self.arrivals@;
        let ghost after = before.push(value);
        let ghost count = before.len() as int;
        let ghost size = self.buffer_size as int;
        let ghost lo = window_start(count + 1, size);
        proof {
            lemma_expire(before, self.deque@, size);
        }
        // Remove values no longer in the buffer.
        // An element will only stay in the buffer long enough to require removal if its value is
        // the max value.
        // Therefore we only need to check the max value element (back of queue).
        if self.deque.len() > 0 && self.deque[self.deque.len() - 1].index == next_index {
            self.deque.pop_back();
            self.removed = Ghost(self.removed@ + 1);
        }
        let ghost live = self.deque@;
        if self.deque.len() == 0 {
            let entry = BufferElement { index: next_index, value, arrival: Ghost(count) };
            proof {
                lemma_push_alone(before, live, lo, size, entry);
            }
            self.deque.push_back(entry);
            assert(self.deque@ =~= seq![entry]);
        } else if self.deque[self.deque.len() - 1].value <= value {
            // New value is larger than max value.
            // Remove all other elements.
            let entry = BufferElement { index: next_index, value, arrival: Ghost(count) };
            proof {
                lemma_push_alone(before, live, lo, size, entry);
            }
            self.deque.clear();
            self.removed = Ghost(self.removed@ + live.len());
            self.deque.push_back(entry);
        } else {
            // Add element to queue from left.
            // Remove all elements with a value less than or equal to this entry.
            // This is okay as this value is larger and newer.
            // This also keeps the queue sorted and only retaining relevant elements.
            let ghost mut keep: int = 0;
            proof {
                lemma_compare_with_candidate(before, live, lo, size, value, live.len() - 1);
            }
            while value >= self.deque[0].value
                invariant
                    0 <= keep < live.len(),
                    self.deque@ == live.subrange(keep, live.len() as int),
                    keep > 0 ==> at_most(live[keep - 1].value, value),
                    !at_most(live.last().value, value),
                    queue_ok(before, live, lo, size),
                    after == before.push(value),
                    count == before.len(),
                    size == self.buffer_size,
                    self.removed@ + self.deque@.len() == count,
                    next_index == slot(count, size),
                    consistently_ordered(after.subrange(lo, count + 1)),
                decreases live.len() - keep,
            {
                proof {
                    lemma_compare_with_candidate(before, live, lo, size, value, keep);
                    keep = keep + 1;
                }
                self.deque.pop_front();
                self.removed = Ghost(self.removed@ + 1);
            }
            let entry = BufferElement { index: next_index, value, arrival: Ghost(count) };
            proof {
                lemma_compare_with_candidate(before, live, lo, size, value, keep);
                lemma_push_front(before, live, lo, size, entry, keep);
            }
            self.deque.push_front(entry);
        }
        // Update next index in ring buffer.
        proof {
            lemma_slot_in_ring(count, size);
            lemma_slot_of_next(count, size);
        }
        self.next_index = (next_index + 1) % self.buffer_size;
        self.arrivals = Ghost(after);
        // Return max value.
        proof {
            self.lemma_back_holds_newest_max();
        }
        self.deque[self.deque.len() - 1].value.clone()
    }

    /// Get current max value in buffer: nothing before the first arrival,
    /// afterwards a clone of the newest maximum of the window.
    pub fn current(&self) -> (max: Option<F>)
        requires
            self.well_formed(),
        ensures
            self.reports(max),
            max is Some ==> is_newest_max(self@, newest_max_index(self@)),
    {
        if self.deque.len() == 0 {
            return None;
        }
        let value = &self.deque[self.deque.len() - 1];
        proof {
            self.lemma_back_holds_newest_max();
        }
        Some(value.value.clone())
    }
}

/// What holds of every well-formed tracker.
impl<F: PartialOrd + Clone + Debug> MaxDetector<F> {
    /// Slots are handed out cyclically, starting from slot 0: the next slot
    /// is the number of arrivals so far, modulo the capacity.
    pub proof fn lemma_next_slot_is_cyclic(&self)
        requires
            self.well_formed(),
        ensures
            self.next_slot() == self.history().len() % self.capacity(),
    {
        lemma_slot_is_remainder(self.arrivals@.len() as int, self.buffer_size as int);
    }

    /// The tracker holds on to exactly the candidates of the window, newest
    /// first: to each value of the window that everything newer ranks
    /// strictly below, and to no other.
    pub proof fn lemma_candidates_are_exact(&self)
        requires
            self.well_formed(),
        ensures
            self.candidate_positions().len() == self.candidates().len(),
            forall|i: int|
                0 <= i < self.candidates().len() ==> {
                    &&& 0 <= #[trigger] self.candidate_positions()[i] < self@.len()
                    &&& self.candidates()[i] == self@[self.candidate_positions()[i]]
                },
            forall|i: int, j: int|
                0 <= i < j < self.candidates().len() ==> #[trigger] self.candidate_positions()[i]
                    > #[trigger] self.candidate_positions()[j],
            forall|k: int|
                0 <= k < self@.len() ==> (#[trigger] is_candidate(self@, k)
                    <==> self.candidate_positions().contains(k)),
    {
        let count = self.arrivals@.len() as int;
        let size = self.buffer_size as int;
        let lo = window_start(count, size);
        let h = self.arrivals@;
        let q = self.deque@;
        let positions = self.candidate_positions();
        assert(self@ =~= h.subrange(lo, count));
        assert forall|i: int| 0 <= i < self.candidates().len() implies {
            &&& 0 <= #[trigger] positions[i] < self@.len()
            &&& self.candidates()[i] == self@[positions[i]]
        } by {
            lemma_candidate_is_in_window(h, q, lo, size, i);
        }
        assert forall|k: int| 0 <= k < self@.len() implies (#[trigger] is_candidate(self@, k)
            <==> positions.contains(k)) by {
            lemma_queue_is_exact(h, q, lo, size, lo + k);
            if positions.contains(k) {
                let i = choose|i: int| 0 <= i < positions.len() && positions[i] == k;
                assert(q[i].arrival@ == lo + k);
                assert forall|j: int| k < j < self@.len() implies below(
                    #[trigger] self@[j],
                    self@[k],
                ) by {
                    assert(self@[j] == h[lo + j]);
                }
            }
            if is_candidate(self@, k) {
                assert forall|j: int| lo + k < j < h.len() implies below(
                    #[trigger] h[j],
                    h[lo + k],
                ) by {
                    assert(self@[j - lo] == h[j]);
                }
                let i = choose|i: int| 0 <= i < q.len() && (#[trigger] q[i]).arrival@ == lo + k;
                assert(positions[i] == k);
            }
        }
    }

    /// The candidates are sorted: towards the back of the deque they get
    /// strictly larger. Each of them is a value of the window, and the one
    /// at the back is the maximum that is reported.
    pub proof fn lemma_candidates_are_sorted(&self)
        requires
            self.well_formed(),
        ensures
            forall|i: int, j: int|
                0 <= i < j < self.candidates().len() ==> below(
                    #[trigger] self.candidates()[i],
                    #[trigger] self.candidates()[j],
                ),
            forall|i: int|
                0 <= i < self.candidates().len() ==> self@.contains(
                    #[trigger] self.candidates()[i],
                ),
            self.candidates().len() > 0 ==> self.candidates().last() == newest_max(self@),
    {
        let count = self.arrivals@.len() as int;
        let size = self.buffer_size as int;
        let lo = window_start(count, size);
        let q = self.deque@;
        assert(self@ =~= self.arrivals@.subrange(lo, count));
        assert forall|i: int, j: int| 0 <= i < j < self.candidates().len() implies below(
            #[trigger] self.candidates()[i],
            #[trigger] self.candidates()[j],
        ) by {
            lemma_candidates_ascend(self.arrivals@, q, lo, size, i, j);
        }
        assert forall|i: int| 0 <= i < self.candidates().len() implies self@.contains(
            #[trigger] self.candidates()[i],
        ) by {
            lemma_candidate_is_in_window(self.arrivals@, q, lo, size, i);
            assert(self@[q[i].arrival@ - lo] == q[i].value);
        }
        if q.len() > 0 {
            self.lemma_back_holds_newest_max();
        }
    }

    /// Memory is bounded: the tracker holds at most one candidate for each
    /// value in the window, so never more than its capacity, and it holds
    /// none only while nothing has arrived.
    pub proof fn lemma_held_fits_window(&self)
        requires
            self.well_formed(),
        ensures
            self.capacity() >= 1,
            self.held() <= self@.len() <= self.capacity(),
            self.held() == 0 <==> self.history().len() == 0,
    {
        let count = self.arrivals@.len() as int;
        let size = self.buffer_size as int;
        if self.deque@.len() > 0 {
            lemma_candidates_are_distinct(
                self.arrivals@,
                self.deque@,
                window_start(count, size),
                size,
                self.deque@.len() - 1,
            );
        }
    }

    /// Work is linear in the number of arrivals: every arrival has been
    /// put into the deque once, and has been taken out of it at most once.
    /// So over any stream the insertions and removals together number at
    /// most twice the arrivals, however they fall on the single calls.
    pub proof fn lemma_each_arrival_is_removed_at_most_once(&self)
        requires
            self.well_formed(),
        ensures
            self.removals() + self.held() == self.history().len(),
    {
    }

    /// Once a value has arrived, the window has a newest maximum, whether or
    /// not the order is consistent on values that are yet to come.
    pub proof fn lemma_window_has_newest_max(&self)
        requires
            self.well_formed(),
            self.history().len() > 0,
        ensures
            is_newest_max(self@, newest_max_index(self@)),
    {
        self.lemma_back_holds_newest_max();
    }

    /// The back of the deque holds the newest maximum of the window.
    proof fn lemma_back_holds_newest_max(&self)
        requires
            self.well_formed(),
            self.deque@.len() > 0,
        ensures
            is_newest_max(self@, newest_max_index(self@)),
            newest_max(self@) == self.deque@.last().value,
    {
        let count = self.arrivals@.len() as int;
        let size = self.buffer_size as int;
        let lo = window_start(count, size);
        assert(self@ =~= self.arrivals@.subrange(lo, count));
        lemma_back_is_newest_max(self.arrivals@, self.deque@, lo, size);
        lemma_newest_max_is_unique(
            self@,
            self.deque@.last().arrival@ - lo,
            newest_max_index(self@),
        );
    }

    /// Asking twice gives the same answer: between two arrivals `current`
    /// reports one value, for an element type whose `clone` gives a value
    /// equal to the one cloned.
    pub proof fn lemma_current_is_repeatable(&self, first: Option<F>, second: Option<F>)
        requires
            self.reports(first),
            self.reports(second),
            forall|a: F, b: F| #[trigger] cloned(a, b) ==> a == b,
        ensures
            first == second,
    {
    }
}

} // verus!
