//! The queue of the search: states waiting to be looked at, of which the one with
//! the least total distance leaves first.
use vstd::prelude::*;
use crate::metric::PolySplit;
use crate::order::{lemma_at_most_chain, lemma_at_most_itself, lemma_exceeded_at_most, ordered_on};

verus! {

/// A vertex together with the total distance of a way of reaching it.
pub struct State<D> {
    /// The total distance from the first layer to the vertex.
    pub distance_total: D,
    /// The vertex, as an index into the vertices of the graph.
    pub position: usize,
}

/// Whether `first` leaves the queue before `second`: its total distance is the
/// smaller one or, where neither distance exceeds the other, its vertex has the
/// smaller index.
pub open spec fn goes_first<P: PolySplit<D>, D: Copy>(first: State<D>, second: State<D>) -> bool {
    ||| P::exceeds(second.distance_total, first.distance_total)
    ||| (!P::exceeds(first.distance_total, second.distance_total) && first.position
        < second.position)
}

/// Tells whether `first` leaves the queue before `second`.
pub fn is_first<P: PolySplit<D>, D: Copy>(first: &State<D>, second: &State<D>) -> (b: bool)
    ensures
        b == goes_first::<P, D>(*first, *second),
{
    if P::is_farther(second.distance_total, first.distance_total) {
        true
    } else if P::is_farther(first.distance_total, second.distance_total) {
        false
    } else {
        first.position < second.position
    }
}

/// Whether the total distances of all the states are among the valid ones.
pub open spec fn all_valid<D>(states: Seq<State<D>>, valid: spec_fn(D) -> bool) -> bool {
    forall|i: int| 0 <= i < states.len() ==> valid((#[trigger] states[i]).distance_total)
}

/// Whether no state goes before the state at `index`.
pub open spec fn first_in_line<P: PolySplit<D>, D: Copy>(states: Seq<State<D>>, index: int) -> bool {
    forall|other: int|
        0 <= other < states.len() ==> !goes_first::<P, D>(#[trigger] states[other], states[index])
}

/// The place above a place of the heap.
pub open spec fn above(place: int) -> int {
    (place - 1) / 2
}

/// Whether no state of the heap goes before the state above it.
pub open spec fn heap_ordered<P: PolySplit<D>, D: Copy>(heap: Seq<State<D>>) -> bool {
    forall|place: int|
        1 <= place < heap.len() ==> !goes_first::<P, D>(#[trigger] heap[place], heap[above(place)])
}

/// Whether the heap is ordered but for the state at `hole`, which may go before the
/// state above it.
pub open spec fn ordered_but_above<P: PolySplit<D>, D: Copy>(heap: Seq<State<D>>, hole: int) -> bool {
    &&& forall|place: int|
        1 <= place < heap.len() && place != hole ==> !goes_first::<P, D>(
            #[trigger] heap[place],
            heap[above(place)],
        )
    &&& forall|place: int|
        1 <= place < heap.len() && above(place) == hole && hole >= 1 ==> !goes_first::<P, D>(
            #[trigger] heap[place],
            heap[above(hole)],
        )
}

/// Whether the heap is ordered but for the state at `hole`, before which the states
/// below it may go.
pub open spec fn ordered_but_below<P: PolySplit<D>, D: Copy>(heap: Seq<State<D>>, hole: int) -> bool {
    &&& forall|place: int|
        1 <= place < heap.len() && above(place) != hole ==> !goes_first::<P, D>(
            #[trigger] heap[place],
            heap[above(place)],
        )
    &&& forall|place: int|
        1 <= place < heap.len() && above(place) == hole && hole >= 1 ==> !goes_first::<P, D>(
            #[trigger] heap[place],
            heap[above(hole)],
        )
}

/// The heap with the states at two places exchanged.
pub open spec fn exchanged<D>(heap: Seq<State<D>>, one: int, other: int) -> Seq<State<D>> {
    heap.update(one, heap[other]).update(other, heap[one])
}

/// Of two states with ordered distances, at most one goes before the other.
pub proof fn lemma_first_one_way<P: PolySplit<D>, D: Copy>(
    valid: spec_fn(D) -> bool,
    first: State<D>,
    second: State<D>,
)
    requires
        ordered_on::<P, D>(valid),
        valid(first.distance_total),
        valid(second.distance_total),
        goes_first::<P, D>(first, second),
    ensures
        !goes_first::<P, D>(second, first),
{
    if P::exceeds(second.distance_total, first.distance_total) {
        lemma_exceeded_at_most::<P, D>(valid, second.distance_total, first.distance_total);
    }
}

/// Not to go before is transitive among states with ordered distances.
pub proof fn lemma_not_first_chain<P: PolySplit<D>, D: Copy>(
    valid: spec_fn(D) -> bool,
    a: State<D>,
    b: State<D>,
    c: State<D>,
)
    requires
        ordered_on::<P, D>(valid),
        valid(a.distance_total),
        valid(b.distance_total),
        valid(c.distance_total),
        !goes_first::<P, D>(a, b),
        !goes_first::<P, D>(b, c),
    ensures
        !goes_first::<P, D>(a, c),
{
    lemma_at_most_chain::<P, D>(valid, c.distance_total, b.distance_total, a.distance_total);
    if !P::exceeds(a.distance_total, c.distance_total) {
        if P::exceeds(a.distance_total, b.distance_total) {
            lemma_at_most_chain::<P, D>(
                valid,
                a.distance_total,
                c.distance_total,
                b.distance_total,
            );
        }
        if P::exceeds(b.distance_total, c.distance_total) {
            lemma_at_most_chain::<P, D>(
                valid,
                b.distance_total,
                a.distance_total,
                c.distance_total,
            );
        }
    }
}

/// In an ordered heap no state goes before the first one.
pub proof fn lemma_root_first<P: PolySplit<D>, D: Copy>(
    valid: spec_fn(D) -> bool,
    heap: Seq<State<D>>,
    place: int,
)
    requires
        ordered_on::<P, D>(valid),
        all_valid(heap, valid),
        heap_ordered::<P, D>(heap),
        0 <= place < heap.len(),
    ensures
        !goes_first::<P, D>(heap[place], heap[0]),
    decreases place,
{
    if place == 0 {
        lemma_at_most_itself::<P, D>(valid, heap[0].distance_total);
    } else {
        lemma_root_first::<P, D>(valid, heap, above(place));
        lemma_not_first_chain::<P, D>(valid, heap[place], heap[above(place)], heap[0]);
    }
}

/// Moving a state up by one place, for going before the state above it, leaves the
/// heap ordered but for the place that it has moved to.
pub proof fn lemma_moved_up<P: PolySplit<D>, D: Copy>(
    valid: spec_fn(D) -> bool,
    heap: Seq<State<D>>,
    hole: int,
)
    requires
        ordered_on::<P, D>(valid),
        all_valid(heap, valid),
        1 <= hole < heap.len(),
        ordered_but_above::<P, D>(heap, hole),
        goes_first::<P, D>(heap[hole], heap[above(hole)]),
    ensures
        ordered_but_above::<P, D>(exchanged(heap, hole, above(hole)), above(hole)),
{
    let top = above(hole);
    let after = exchanged(heap, hole, top);
    lemma_first_one_way::<P, D>(valid, heap[hole], heap[top]);
    assert forall|place: int| 1 <= place < after.len() && place != top implies !goes_first::<P, D>(
        #[trigger] after[place],
        after[above(place)],
    ) by {
        if place == hole {
        } else if above(place) == hole {
            assert(!goes_first::<P, D>(heap[place], heap[above(hole)]));
        } else if above(place) == top {
            assert(!goes_first::<P, D>(heap[place], heap[top]));
            lemma_not_first_chain::<P, D>(valid, heap[place], heap[top], heap[hole]);
        } else {
            assert(!goes_first::<P, D>(heap[place], heap[above(place)]));
        }
    }
    assert forall|place: int|
        1 <= place < after.len() && above(place) == top && top >= 1 implies !goes_first::<P, D>(
        #[trigger] after[place],
        after[above(top)],
    ) by {
        assert(!goes_first::<P, D>(heap[top], heap[above(top)]));
        if place != hole {
            assert(!goes_first::<P, D>(heap[place], heap[top]));
            lemma_not_first_chain::<P, D>(valid, heap[place], heap[top], heap[above(top)]);
        }
    }
}

/// Moving a state down by one place, for the first of the states below it going
/// before it, leaves the heap ordered but for the place that it has moved to.
pub proof fn lemma_moved_down<P: PolySplit<D>, D: Copy>(
    valid: spec_fn(D) -> bool,
    heap: Seq<State<D>>,
    hole: int,
    best: int,
)
    requires
        ordered_on::<P, D>(valid),
        all_valid(heap, valid),
        0 <= hole < best < heap.len(),
        above(best) == hole,
        ordered_but_below::<P, D>(heap, hole),
        goes_first::<P, D>(heap[best], heap[hole]),
        forall|place: int|
            1 <= place < heap.len() && above(place) == hole ==> !goes_first::<P, D>(
                #[trigger] heap[place],
                heap[best],
            ),
    ensures
        ordered_but_below::<P, D>(exchanged(heap, hole, best), best),
{
    let after = exchanged(heap, hole, best);
    lemma_first_one_way::<P, D>(valid, heap[best], heap[hole]);
    assert forall|place: int|
        1 <= place < after.len() && above(place) != best implies !goes_first::<P, D>(
        #[trigger] after[place],
        after[above(place)],
    ) by {
        if place == best {
        } else if above(place) == hole {
            assert(!goes_first::<P, D>(heap[place], heap[best]));
        } else if place == hole {
            assert(!goes_first::<P, D>(heap[best], heap[above(hole)]));
        } else {
            assert(!goes_first::<P, D>(heap[place], heap[above(place)]));
        }
    }
    assert forall|place: int|
        1 <= place < after.len() && above(place) == best && best >= 1 implies !goes_first::<P, D>(
        #[trigger] after[place],
        after[above(best)],
    ) by {
        assert(!goes_first::<P, D>(heap[place], heap[above(place)]));
    }
}

/// A state that none of the states below it goes before has found its place.
pub proof fn lemma_settled_down<P: PolySplit<D>, D: Copy>(
    valid: spec_fn(D) -> bool,
    heap: Seq<State<D>>,
    hole: int,
    best: int,
)
    requires
        ordered_on::<P, D>(valid),
        all_valid(heap, valid),
        0 <= hole < heap.len(),
        ordered_but_below::<P, D>(heap, hole),
        2 * hole + 1 < heap.len() ==> hole < best < heap.len() && above(best) == hole
            && !goes_first::<P, D>(heap[best], heap[hole]) && forall|place: int|
            1 <= place < heap.len() && above(place) == hole ==> !goes_first::<P, D>(
                #[trigger] heap[place],
                heap[best],
            ),
    ensures
        heap_ordered::<P, D>(heap),
{
    assert forall|place: int| 1 <= place < heap.len() implies !goes_first::<P, D>(
        #[trigger] heap[place],
        heap[above(place)],
    ) by {
        if above(place) == hole {
            assert(!goes_first::<P, D>(heap[place], heap[best]));
            lemma_not_first_chain::<P, D>(valid, heap[place], heap[best], heap[hole]);
        }
    }
}

/// The states of an exchanged heap are those of the heap.
pub proof fn lemma_exchanged<D>(
    heap: Seq<State<D>>,
    one: int,
    other: int,
    known: Seq<State<D>>,
)
    requires
        0 <= one < heap.len(),
        0 <= other < heap.len(),
        forall|place: int| 0 <= place < heap.len() ==> known.contains(#[trigger] heap[place]),
    ensures
        exchanged(heap, one, other).to_multiset() == heap.to_multiset(),
        forall|place: int|
            0 <= place < heap.len() ==> known.contains(#[trigger] exchanged(heap, one, other)[place]),
{
    vstd::seq_lib::to_multiset_update(heap, one, heap[other]);
    vstd::seq_lib::to_multiset_update(heap.update(one, heap[other]), other, heap[one]);
    heap.to_multiset_ensures();
    assert(exchanged(heap, one, other).to_multiset() =~= heap.to_multiset());
    let after = exchanged(heap, one, other);
    assert forall|place: int| 0 <= place < heap.len() implies known.contains(
        #[trigger] after[place],
    ) by {
        let at = if place == one {
            other
        } else if place == other {
            one
        } else {
            place
        };
        assert(after[place] == heap[at]);
    }
}


/// The states that wait to be looked at.
///
/// The states are kept as a heap: but for the first, each state has a state above
/// it, and where distances are ordered no state goes before the one above it. The
/// order in which the states have joined, and the states that have ever joined, are
/// kept beside the heap, for what is said about the queue.
pub struct MinQueue<D> {
    heap: Vec<State<D>>,
    waiting: Ghost<Seq<State<D>>>,
    joined: Ghost<Seq<State<D>>>,
}

impl<D: Copy> MinQueue<D> {
    /// The states in the queue, in the order in which they have joined it.
    pub closed spec fn view(&self) -> Seq<State<D>> {
        self.waiting@
    }

    /// All the states that have ever joined the queue.
    pub closed spec fn history(&self) -> Seq<State<D>> {
        self.joined@
    }

    /// A queue is well formed when its heap holds the states that wait, all of
    /// which have joined once, and is ordered where the distances of all the states
    /// that have ever joined are.
    pub closed spec fn wf<P: PolySplit<D>>(&self) -> bool {
        &&& self.heap@.to_multiset() == self.waiting@.to_multiset()
        &&& forall|place: int|
            0 <= place < self.heap@.len() ==> self.joined@.contains(#[trigger] self.heap@[place])
        &&& forall|valid: spec_fn(D) -> bool|
            #[trigger] ordered_on::<P, D>(valid) && all_valid(self.joined@, valid)
                ==> heap_ordered::<P, D>(self.heap@)
    }

    /// A queue without states.
    pub fn new<P: PolySplit<D>>() -> (queue: Self)
        ensures
            queue.wf::<P>(),
            queue@ == Seq::<State<D>>::empty(),
            queue.history() == Seq::<State<D>>::empty(),
    {
        MinQueue { heap: Vec::new(), waiting: Ghost(Seq::empty()), joined: Ghost(Seq::empty()) }
    }

    /// Tells whether the queue holds no state.
    pub fn is_empty<P: PolySplit<D>>(&self) -> (empty: bool)
        requires
            self.wf::<P>(),
        ensures
            empty == (self@.len() == 0),
    {
        proof {
            self.heap@.to_multiset_ensures();
            self.waiting@.to_multiset_ensures();
        }
        self.heap.len() == 0
    }

    /// Puts a state into the queue.
    pub fn push<P: PolySplit<D>>(&mut self, state: State<D>)
        requires
            old(self).wf::<P>(),
        ensures
            final(self).wf::<P>(),
            final(self)@ == old(self)@.push(state),
            final(self).history() == old(self).history().push(state),
    {
        let ghost before = self.heap@;
        let ghost waits = self.waiting@.push(state);
        let ghost known = self.joined@.push(state);
        proof {
            before.to_multiset_ensures();
            self.waiting@.to_multiset_ensures();
        }
        self.heap.push(state);
        self.waiting = Ghost(waits);
        self.joined = Ghost(known);
        let mut hole: usize = self.heap.len() - 1;
        proof {
            assert forall|place: int| 0 <= place < self.heap@.len() implies known.contains(
                #[trigger] self.heap@[place],
            ) by {
                if place < before.len() {
                    assert(self.heap@[place] == before[place]);
                    let at = old(self).joined@.index_of(before[place]);
                    assert(known[at] == before[place]);
                } else {
                    assert(known[known.len() - 1] == state);
                }
            }
            assert forall|valid: spec_fn(D) -> bool|
                #[trigger] ordered_on::<P, D>(valid) && all_valid(
                    known,
                    valid,
                ) implies ordered_but_above::<P, D>(self.heap@, hole as int) by {
                assert forall|i: int| 0 <= i < old(self).joined@.len() implies valid(
                    (#[trigger] old(self).joined@[i]).distance_total,
                ) by {
                    assert(known[i] == old(self).joined@[i]);
                }
                assert(heap_ordered::<P, D>(before));
                assert forall|place: int|
                    1 <= place < self.heap@.len() && place != hole implies !goes_first::<P, D>(
                    #[trigger] self.heap@[place],
                    self.heap@[above(place)],
                ) by {
                    assert(self.heap@[place] == before[place]);
                    assert(self.heap@[above(place)] == before[above(place)]);
                }
            }
        }
        while hole > 0
            invariant
                hole < self.heap@.len(),
                self.waiting@ == waits,
                self.joined@ == known,
                self.heap@.to_multiset() == waits.to_multiset(),
                forall|place: int|
                    0 <= place < self.heap@.len() ==> known.contains(#[trigger] self.heap@[place]),
                forall|valid: spec_fn(D) -> bool|
                    #[trigger] ordered_on::<P, D>(valid) && all_valid(known, valid)
                        ==> ordered_but_above::<P, D>(self.heap@, hole as int),
            ensures
                self.waiting@ == waits,
                self.joined@ == known,
                self.heap@.to_multiset() == waits.to_multiset(),
                forall|place: int|
                    0 <= place < self.heap@.len() ==> known.contains(#[trigger] self.heap@[place]),
                forall|valid: spec_fn(D) -> bool|
                    #[trigger] ordered_on::<P, D>(valid) && all_valid(known, valid)
                        ==> heap_ordered::<P, D>(self.heap@),
            decreases hole,
        {
            let top: usize = (hole - 1) / 2;
            if !is_first::<P, D>(&self.heap[hole], &self.heap[top]) {
                break;
            }
            let ghost held = self.heap@;
            let lower = State {
                distance_total: self.heap[hole].distance_total,
                position: self.heap[hole].position,
            };
            let upper = State {
                distance_total: self.heap[top].distance_total,
                position: self.heap[top].position,
            };
            self.heap.set(hole, upper);
            self.heap.set(top, lower);
            proof {
                assert(self.heap@ == exchanged(held, hole as int, top as int));
                lemma_exchanged(held, hole as int, top as int, known);
                assert forall|valid: spec_fn(D) -> bool|
                    #[trigger] ordered_on::<P, D>(valid) && all_valid(
                        known,
                        valid,
                    ) implies ordered_but_above::<P, D>(self.heap@, top as int) by {
                    lemma_known_valid(held, known, valid);
                    lemma_moved_up::<P, D>(valid, held, hole as int);
                }
            }
            hole = top;
        }
    }

    /// Takes the state that leaves first out of the queue, if there is any state.
    ///
    /// Where the distances of all the states that have ever joined the queue are
    /// ordered, no state of the queue goes before the one taken.
    pub fn pop<P: PolySplit<D>>(&mut self) -> (popped: Option<State<D>>)
        requires
            old(self).wf::<P>(),
        ensures
            final(self).wf::<P>(),
            final(self).history() == old(self).history(),
            old(self)@.len() == 0 ==> popped is None && final(self)@ == old(self)@,
            old(self)@.len() > 0 ==> (popped matches Some(state) && exists|index: int|
                #![trigger old(self)@[index]]
                {
                    &&& 0 <= index < old(self)@.len()
                    &&& old(self)@[index] == state
                    &&& final(self)@ == old(self)@.remove(index)
                    &&& forall|valid: spec_fn(D) -> bool|
                        #[trigger] ordered_on::<P, D>(valid) && all_valid(
                            old(self).history(),
                            valid,
                        ) ==> first_in_line::<P, D>(old(self)@, index)
                }),
    {
        let ghost before = self.heap@;
        let ghost waited = self.waiting@;
        let ghost known = self.joined@;
        proof {
            before.to_multiset_ensures();
            waited.to_multiset_ensures();
        }
        if self.heap.len() == 0 {
            return None;
        }
        let root = State {
            distance_total: self.heap[0].distance_total,
            position: self.heap[0].position,
        };
        let ghost index = waited.index_of(root);
        proof {
            assert(before.contains(root));
            assert(waited.to_multiset().count(root) > 0);
            assert(waited.contains(root));
            assert forall|valid: spec_fn(D) -> bool|
                #[trigger] ordered_on::<P, D>(valid) && all_valid(
                    known,
                    valid,
                ) implies first_in_line::<P, D>(waited, index) by {
                lemma_known_valid(before, known, valid);
                assert forall|other: int| 0 <= other < waited.len() implies !goes_first::<P, D>(
                    #[trigger] waited[other],
                    waited[index],
                ) by {
                    assert(waited.contains(waited[other]));
                    assert(before.to_multiset().count(waited[other]) > 0);
                    assert(before.contains(waited[other]));
                    let place = before.index_of(waited[other]);
                    lemma_root_first::<P, D>(valid, before, place);
                }
            }
        }
        let last = self.heap.pop().unwrap();
        self.waiting = Ghost(waited.remove(index));
        proof {
            assert(self.heap@ == before.drop_last());
        }
        if self.heap.len() == 0 {
            proof {
                assert(before.len() == 1);
                assert(waited.len() == 1);
                assert(waited.remove(index) =~= Seq::<State<D>>::empty());
                assert(self.heap@ =~= Seq::<State<D>>::empty());
            }
            return Some(root);
        }
        self.heap.set(0, last);
        let ghost start = self.heap@;
        proof {
            // The heap without its first state, with the last state in its place.
            assert(start =~= seq![before.last()] + before.subrange(1, before.len() - 1));
            assert(before.remove(0) =~= before.subrange(1, before.len() - 1) + seq![before.last()]);
            vstd::seq_lib::lemma_seq_union_to_multiset_commutative(
                seq![before.last()],
                before.subrange(1, before.len() - 1),
            );
            assert(start.to_multiset() == before.remove(0).to_multiset());
            assert(start.to_multiset() == waited.remove(index).to_multiset());
            assert forall|place: int| 0 <= place < start.len() implies known.contains(
                #[trigger] start[place],
            ) by {
                if place == 0 {
                    assert(start[0] == before[before.len() - 1]);
                } else {
                    assert(start[place] == before[place]);
                }
            }
            assert forall|valid: spec_fn(D) -> bool|
                #[trigger] ordered_on::<P, D>(valid) && all_valid(
                    known,
                    valid,
                ) implies ordered_but_below::<P, D>(start, 0) by {
                assert(heap_ordered::<P, D>(before));
                assert forall|place: int|
                    1 <= place < start.len() && above(place) != 0 implies !goes_first::<P, D>(
                    #[trigger] start[place],
                    start[above(place)],
                ) by {
                    assert(start[place] == before[place]);
                    assert(start[above(place)] == before[above(place)]);
                    assert(!goes_first::<P, D>(before[place], before[above(place)]));
                }
            }
        }
        let mut hole: usize = 0;
        let size: usize = self.heap.len();
        while hole < size / 2
            invariant
                size == self.heap@.len(),
                hole < size,
                0 <= index < waited.len(),
                self.waiting@ == waited.remove(index),
                self.joined@ == known,
                self.heap@.to_multiset() == waited.remove(index).to_multiset(),
                forall|place: int|
                    0 <= place < self.heap@.len() ==> known.contains(#[trigger] self.heap@[place]),
                forall|valid: spec_fn(D) -> bool|
                    #[trigger] ordered_on::<P, D>(valid) && all_valid(known, valid)
                        ==> ordered_but_below::<P, D>(self.heap@, hole as int),
            ensures
                self.waiting@ == waited.remove(index),
                self.joined@ == known,
                self.heap@.to_multiset() == waited.remove(index).to_multiset(),
                forall|place: int|
                    0 <= place < self.heap@.len() ==> known.contains(#[trigger] self.heap@[place]),
                hole < size / 2 ==> forall|valid: spec_fn(D) -> bool|
                    #[trigger] ordered_on::<P, D>(valid) && all_valid(known, valid)
                        ==> heap_ordered::<P, D>(self.heap@),
                hole >= size / 2 ==> size == self.heap@.len() && hole < size && forall|
                    valid: spec_fn(D) -> bool,
                |
                    #[trigger] ordered_on::<P, D>(valid) && all_valid(known, valid)
                        ==> ordered_but_below::<P, D>(self.heap@, hole as int),
            decreases size - hole,
        {
            let left: usize = 2 * hole + 1;
            let right: usize = left + 1;
            let mut best: usize = left;
            if right < size && is_first::<P, D>(&self.heap[right], &self.heap[left]) {
                best = right;
            }
            let ghost held = self.heap@;
            if !is_first::<P, D>(&self.heap[best], &self.heap[hole]) {
                proof {
                    assert forall|valid: spec_fn(D) -> bool|
                        #[trigger] ordered_on::<P, D>(valid) && all_valid(
                            known,
                            valid,
                        ) implies heap_ordered::<P, D>(self.heap@) by {
                        lemma_known_valid(held, known, valid);
                        lemma_best_below::<P, D>(valid, held, hole as int, best as int);
                        lemma_settled_down::<P, D>(valid, held, hole as int, best as int);
                    }
                }
                break;
            }
            let lower = State {
                distance_total: self.heap[best].distance_total,
                position: self.heap[best].position,
            };
            let upper = State {
                distance_total: self.heap[hole].distance_total,
                position: self.heap[hole].position,
            };
            self.heap.set(best, upper);
            self.heap.set(hole, lower);
            proof {
                assert(self.heap@ == exchanged(held, hole as int, best as int));
                lemma_exchanged(held, hole as int, best as int, known);
                assert forall|valid: spec_fn(D) -> bool|
                    #[trigger] ordered_on::<P, D>(valid) && all_valid(
                        known,
                        valid,
                    ) implies ordered_but_below::<P, D>(self.heap@, best as int) by {
                    lemma_known_valid(held, known, valid);
                    lemma_best_below::<P, D>(valid, held, hole as int, best as int);
                    lemma_moved_down::<P, D>(valid, held, hole as int, best as int);
                }
            }
            hole = best;
        }
        proof {
            if hole >= size / 2 {
                assert forall|valid: spec_fn(D) -> bool|
                    #[trigger] ordered_on::<P, D>(valid) && all_valid(
                        known,
                        valid,
                    ) implies heap_ordered::<P, D>(self.heap@) by {
                    lemma_known_valid(self.heap@, known, valid);
                    lemma_settled_down::<P, D>(valid, self.heap@, hole as int, 0);
                }
            }
        }
        Some(root)
    }
}

/// Of the one or two states below a place, the one picked as the first is such that
/// none of them goes before it.
pub proof fn lemma_best_below<P: PolySplit<D>, D: Copy>(
    valid: spec_fn(D) -> bool,
    heap: Seq<State<D>>,
    hole: int,
    best: int,
)
    requires
        ordered_on::<P, D>(valid),
        all_valid(heap, valid),
        0 <= hole,
        2 * hole + 1 < heap.len(),
        best == 2 * hole + 1 || best == 2 * hole + 2,
        best < heap.len(),
        best == 2 * hole + 2 ==> goes_first::<P, D>(heap[2 * hole + 2], heap[2 * hole + 1]),
        best == 2 * hole + 1 && 2 * hole + 2 < heap.len() ==> !goes_first::<P, D>(
            heap[2 * hole + 2],
            heap[2 * hole + 1],
        ),
    ensures
        above(best) == hole,
        forall|place: int|
            1 <= place < heap.len() && above(place) == hole ==> !goes_first::<P, D>(
                #[trigger] heap[place],
                heap[best],
            ),
{
    assert forall|place: int|
        1 <= place < heap.len() && above(place) == hole implies !goes_first::<P, D>(
        #[trigger] heap[place],
        heap[best],
    ) by {
        assert(place == 2 * hole + 1 || place == 2 * hole + 2);
        lemma_at_most_itself::<P, D>(valid, heap[best].distance_total);
        if place != best && best == 2 * hole + 2 {
            lemma_first_one_way::<P, D>(valid, heap[2 * hole + 2], heap[2 * hole + 1]);
        }
    }
}

/// States that have all joined once have valid distances where all the states that
/// have ever joined have.
pub proof fn lemma_known_valid<D>(
    heap: Seq<State<D>>,
    known: Seq<State<D>>,
    valid: spec_fn(D) -> bool,
)
    requires
        forall|place: int| 0 <= place < heap.len() ==> known.contains(#[trigger] heap[place]),
        all_valid(known, valid),
    ensures
        all_valid(heap, valid),
{
    assert forall|i: int| 0 <= i < heap.len() implies valid((#[trigger] heap[i]).distance_total) by {
        let at = known.index_of(heap[i]);
        assert(known[at] == heap[i]);
    }
}

} // verus!
