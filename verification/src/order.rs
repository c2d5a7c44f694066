//! What has to hold of distances for the cheapest path to be found: they can be
//! compared with each other, and adding to a distance never makes it smaller.
use vstd::prelude::*;
use crate::metric::PolySplit;

verus! {

/// Whether `first` does not exceed `second`.
pub open spec fn at_most<P: PolySplit<D>, D: Copy>(first: D, second: D) -> bool {
    !P::exceeds(first, second)
}

/// Whether the distances picked out by `valid` are ordered and add up in order.
///
/// Of two of them at most one exceeds the other. Not to exceed is transitive. Adding
/// the same distance to two of them keeps their order. The sum of two of them is one
/// of them again, and the first of the two does not exceed it.
///
/// For floating-point distances, those that are not negative and not NaN are ordered
/// in this way.
#[verifier::opaque]
pub open spec fn ordered_on<P: PolySplit<D>, D: Copy>(valid: spec_fn(D) -> bool) -> bool {
    &&& forall|a: D, b: D|
        #![trigger P::exceeds(a, b)]
        valid(a) && valid(b) && P::exceeds(a, b) ==> !P::exceeds(b, a)
    &&& forall|a: D, b: D, c: D|
        #![trigger P::exceeds(a, b), P::exceeds(b, c)]
        valid(a) && valid(b) && valid(c) && !P::exceeds(a, b) && !P::exceeds(b, c)
            ==> !P::exceeds(a, c)
    &&& forall|a: D, b: D, c: D|
        #![trigger P::total(a, c), P::total(b, c)]
        valid(a) && valid(b) && valid(c) && !P::exceeds(a, b) ==> !P::exceeds(
            P::total(a, c),
            P::total(b, c),
        )
    &&& forall|a: D, c: D|
        #![trigger P::total(a, c)]
        valid(a) && valid(c) ==> valid(P::total(a, c)) && !P::exceeds(a, P::total(a, c))
}

/// No ordered distance exceeds itself.
pub proof fn lemma_at_most_itself<P: PolySplit<D>, D: Copy>(valid: spec_fn(D) -> bool, a: D)
    requires
        ordered_on::<P, D>(valid),
        valid(a),
    ensures
        at_most::<P, D>(a, a),
{
    reveal(ordered_on);
    if P::exceeds(a, a) {
        assert(!P::exceeds(a, a));
    }
}

/// What another distance exceeds does not exceed it.
pub proof fn lemma_exceeded_at_most<P: PolySplit<D>, D: Copy>(
    valid: spec_fn(D) -> bool,
    a: D,
    b: D,
)
    requires
        ordered_on::<P, D>(valid),
        valid(a),
        valid(b),
        P::exceeds(a, b),
    ensures
        at_most::<P, D>(b, a),
{
    reveal(ordered_on);
}

/// Not to exceed is transitive.
pub proof fn lemma_at_most_chain<P: PolySplit<D>, D: Copy>(
    valid: spec_fn(D) -> bool,
    a: D,
    b: D,
    c: D,
)
    requires
        ordered_on::<P, D>(valid),
        valid(a),
        valid(b),
        valid(c),
        at_most::<P, D>(a, b),
        at_most::<P, D>(b, c),
    ensures
        at_most::<P, D>(a, c),
{
    reveal(ordered_on);
}

/// To exceed is transitive.
pub proof fn lemma_exceeds_chain<P: PolySplit<D>, D: Copy>(
    valid: spec_fn(D) -> bool,
    a: D,
    b: D,
    c: D,
)
    requires
        ordered_on::<P, D>(valid),
        valid(a),
        valid(b),
        valid(c),
        P::exceeds(a, b),
        P::exceeds(b, c),
    ensures
        P::exceeds(a, c),
{
    reveal(ordered_on);
    if !P::exceeds(a, c) {
        lemma_exceeded_at_most::<P, D>(valid, b, c);
        lemma_at_most_chain::<P, D>(valid, a, c, b);
    }
}

/// Adding the same distance to two distances keeps their order.
pub proof fn lemma_total_keeps_order<P: PolySplit<D>, D: Copy>(
    valid: spec_fn(D) -> bool,
    a: D,
    b: D,
    c: D,
)
    requires
        ordered_on::<P, D>(valid),
        valid(a),
        valid(b),
        valid(c),
        at_most::<P, D>(a, b),
    ensures
        at_most::<P, D>(P::total(a, c), P::total(b, c)),
        valid(P::total(a, c)),
        valid(P::total(b, c)),
{
    reveal(ordered_on);
}

/// A sum of ordered distances is one of them, and is not exceeded by its first part.
pub proof fn lemma_total_grows<P: PolySplit<D>, D: Copy>(valid: spec_fn(D) -> bool, a: D, c: D)
    requires
        ordered_on::<P, D>(valid),
        valid(a),
        valid(c),
    ensures
        valid(P::total(a, c)),
        at_most::<P, D>(a, P::total(a, c)),
{
    reveal(ordered_on);
}

} // verus!
