//! What a wider threshold changes: every cut point stays in the catalog, and every
//! route stays a route with the same total distance.
use vstd::prelude::*;
use crate::assemble::advancing;
use crate::catalog::{
    catalog_prefix, cut_catalog, cut_wf, emits, emitted, hits_begin, hits_end, insertion_index,
    lemma_catalog_prefix_collected, lemma_insertion_index, segment_count, sorted, with_cut,
    CutPoint,
};
use crate::graph::{
    in_layer, lemma_first_reachable_found, lemma_scan_start_bounds, reach, reachable,
    scan_start,
};
use crate::metric::{within, PolySplit};
use crate::order::at_most;
use crate::polysplit::{
    far_away, is_cheapest_route, is_route, lemma_no_route_past_far, owes_success, route_cost,
};
use crate::reached::strict;

verus! {

/// Whether every distance that passes the threshold `narrow` passes the threshold
/// `wide`.
pub open spec fn widens<P: PolySplit<D>, D: Copy>(narrow: Option<D>, wide: Option<D>) -> bool {
    forall|distance: D| #[trigger]
        within::<P, D>(distance, narrow) ==> within::<P, D>(distance, wide)
}

/// Whether `places` says where each entry of `small` stands in `big`, in the same
/// order.
pub open spec fn embeds<P>(small: Seq<CutPoint<P>>, big: Seq<CutPoint<P>>, places: Seq<int>) -> bool {
    &&& places.len() == small.len()
    &&& forall|i: int|
        0 <= i < places.len() ==> 0 <= #[trigger] places[i] < big.len() && big[places[i]]
            == small[i]
    &&& forall|i: int, j: int|
        0 <= i < j < places.len() ==> #[trigger] places[i] < #[trigger] places[j]
}

/// The places after an entry has been put into `big` at `place`.
pub open spec fn shifted(places: Seq<int>, place: int) -> Seq<int> {
    Seq::new(
        places.len(),
        |i: int|
            if places[i] < place {
                places[i]
            } else {
                places[i] + 1
            },
    )
}

/// In a sorted catalog the entries before the place of a new cut point are those
/// that lie at or before it.
pub proof fn lemma_insertion_splits<P>(catalog: Seq<CutPoint<P>>, cut: CutPoint<P>)
    requires
        sorted(catalog),
    ensures
        0 <= insertion_index(catalog, cut) <= catalog.len(),
        forall|i: int|
            0 <= i < catalog.len() ==> ((#[trigger] catalog[i]).at_or_before(cut) <==> i
                < insertion_index(catalog, cut)),
{
    lemma_insertion_index(catalog, cut);
    let place = insertion_index(catalog, cut);
    assert forall|i: int| 0 <= i < catalog.len() implies ((#[trigger] catalog[i]).at_or_before(
        cut,
    ) <==> i < place) by {
        if i < place - 1 {
            assert(catalog[i].at_or_before(catalog[place - 1]));
        }
    }
}

/// Putting an entry into the bigger catalog keeps the smaller one embedded.
pub proof fn lemma_embeds_after_big<P>(
    small: Seq<CutPoint<P>>,
    big: Seq<CutPoint<P>>,
    places: Seq<int>,
    place: int,
    cut: CutPoint<P>,
)
    requires
        embeds(small, big, places),
        0 <= place <= big.len(),
    ensures
        embeds(small, big.insert(place, cut), shifted(places, place)),
{
    big.insert_ensures(place, cut);
    let grown = big.insert(place, cut);
    let moved = shifted(places, place);
    assert forall|i: int| 0 <= i < moved.len() implies 0 <= #[trigger] moved[i] < grown.len()
        && grown[moved[i]] == small[i] by {
        assert(0 <= places[i] < big.len());
        if places[i] >= place {
            assert(grown[places[i] + 1] == big[places[i]]);
        }
    }
    assert forall|i: int, j: int| 0 <= i < j < moved.len() implies #[trigger] moved[i]
        < #[trigger] moved[j] by {
        assert(places[i] < places[j]);
    }
}

/// Putting an entry into the smaller catalog, between the entries that stand before
/// and behind the place that it has in the bigger one, keeps it embedded.
pub proof fn lemma_embeds_after_small<P>(
    small: Seq<CutPoint<P>>,
    big: Seq<CutPoint<P>>,
    places: Seq<int>,
    place: int,
    target: int,
    cut: CutPoint<P>,
)
    requires
        embeds(small, big, places),
        0 <= place <= small.len(),
        0 <= target < big.len(),
        big[target] == cut,
        forall|i: int| 0 <= i < place ==> #[trigger] places[i] < target,
        forall|i: int| place <= i < places.len() ==> #[trigger] places[i] > target,
    ensures
        embeds(small.insert(place, cut), big, places.insert(place, target)),
{
    small.insert_ensures(place, cut);
    places.insert_ensures(place, target);
    let grown = small.insert(place, cut);
    let moved = places.insert(place, target);
    assert forall|i: int| 0 <= i < moved.len() implies 0 <= #[trigger] moved[i] < big.len()
        && big[moved[i]] == grown[i] by {
        if i < place {
            assert(moved[i] == places[i] && grown[i] == small[i]);
        } else if i > place {
            assert(moved[i] == places[i - 1] && grown[i] == small[i - 1]);
        }
    }
    assert forall|i: int, j: int| 0 <= i < j < moved.len() implies #[trigger] moved[i]
        < #[trigger] moved[j] by {
        let a = if i < place { i } else { i - 1 };
        let b = if j < place { j } else { j - 1 };
        if i != place {
            assert(moved[i] == places[a]);
        }
        if j != place {
            assert(moved[j] == places[b]);
        }
        if i != place && j != place {
            assert(places[a] < places[b]);
        }
    }
}

/// Putting the same cut point into both catalogs keeps the smaller one embedded.
pub proof fn lemma_embeds_after_both<P>(
    small: Seq<CutPoint<P>>,
    big: Seq<CutPoint<P>>,
    places: Seq<int>,
    cut: CutPoint<P>,
)
    requires
        embeds(small, big, places),
        sorted(small),
        sorted(big),
    ensures
        embeds(
            with_cut(small, cut),
            with_cut(big, cut),
            shifted(places, insertion_index(big, cut)).insert(
                insertion_index(small, cut),
                insertion_index(big, cut),
            ),
        ),
{
    let place = insertion_index(small, cut);
    let target = insertion_index(big, cut);
    lemma_insertion_splits(small, cut);
    lemma_insertion_splits(big, cut);
    lemma_embeds_after_big(small, big, places, target, cut);
    big.insert_ensures(target, cut);
    let moved = shifted(places, target);
    assert forall|i: int| 0 <= i < place implies #[trigger] moved[i] < target by {
        assert(small[i].at_or_before(cut));
        assert(big[places[i]] == small[i]);
    }
    assert forall|i: int| place <= i < moved.len() implies #[trigger] moved[i] > target by {
        assert(!small[i].at_or_before(cut));
        assert(big[places[i]] == small[i]);
    }
    lemma_embeds_after_small(small, big.insert(target, cut), moved, place, target, cut);
}

/// Putting into the smaller catalog a cut point that the bigger one holds already,
/// and that lies neither at nor before any entry of the smaller one that lies at
/// or before it, keeps the smaller one embedded.
pub proof fn lemma_embeds_after_found<P>(
    small: Seq<CutPoint<P>>,
    big: Seq<CutPoint<P>>,
    places: Seq<int>,
    target: int,
    cut: CutPoint<P>,
)
    requires
        embeds(small, big, places),
        sorted(small),
        sorted(big),
        0 <= target < big.len(),
        big[target] == cut,
        forall|i: int|
            0 <= i < small.len() && (#[trigger] small[i]).at_or_before(cut) ==> !cut.at_or_before(
                small[i],
            ),
    ensures
        embeds(with_cut(small, cut), big, places.insert(insertion_index(small, cut), target)),
{
    let place = insertion_index(small, cut);
    lemma_insertion_splits(small, cut);
    assert forall|i: int| 0 <= i < place implies #[trigger] places[i] < target by {
        assert(small[i].at_or_before(cut));
        assert(big[places[i]] == small[i]);
        if places[i] > target {
            assert(big[target].at_or_before(big[places[i]]));
        }
    }
    assert forall|i: int| place <= i < places.len() implies #[trigger] places[i] > target by {
        assert(!small[i].at_or_before(cut));
        assert(big[places[i]] == small[i]);
        if places[i] < target {
            assert(big[places[i]].at_or_before(big[target]));
        }
    }
    lemma_embeds_after_small(small, big, places, place, target, cut);
}


/// Once a reference point has hit the end of a segment, the catalog holds the end
/// of that segment.
pub proof fn lemma_end_recorded<P: PolySplit<D>, D: Copy>(
    polyline: Seq<P>,
    points: Seq<P>,
    threshold: Option<D>,
    segment: int,
    point: int,
    earlier: int,
) -> (place: int)
    requires
        polyline.len() <= usize::MAX,
        0 <= segment < segment_count(polyline),
        0 <= earlier < point <= points.len(),
        hits_end::<P, D>(polyline, points, threshold, segment, earlier),
    ensures
        0 <= place < catalog_prefix::<P, D>(polyline, points, threshold, segment, point).len(),
        catalog_prefix::<P, D>(polyline, points, threshold, segment, point)[place].segment_index
            == segment,
        catalog_prefix::<P, D>(polyline, points, threshold, segment, point)[place].cut_ratio is End,
    decreases point,
{
    let before = catalog_prefix::<P, D>(polyline, points, threshold, segment, point - 1);
    let cut = emitted::<P, D>(polyline, points, segment, point - 1);
    let fresh = emits::<P, D>(polyline, points, threshold, segment, point - 1);
    lemma_insertion_index(before, cut);
    if fresh {
        before.insert_ensures(insertion_index(before, cut), cut);
    }
    if earlier == point - 1 && fresh {
        insertion_index(before, cut)
    } else {
        let witness = if earlier < point - 1 {
            earlier
        } else {
            choose|other: int|
                0 <= other < point - 1 && hits_end::<P, D>(
                    polyline,
                    points,
                    threshold,
                    segment,
                    other,
                )
        };
        let held = lemma_end_recorded::<P, D>(
            polyline,
            points,
            threshold,
            segment,
            point - 1,
            witness,
        );
        if fresh && insertion_index(before, cut) <= held {
            held + 1
        } else {
            held
        }
    }
}

/// Once a reference point has hit the start of the first segment, the catalog holds
/// the start of the polyline.
pub proof fn lemma_begin_recorded<P: PolySplit<D>, D: Copy>(
    polyline: Seq<P>,
    points: Seq<P>,
    threshold: Option<D>,
    point: int,
    earlier: int,
) -> (place: int)
    requires
        polyline.len() <= usize::MAX,
        0 < segment_count(polyline),
        0 <= earlier < point <= points.len(),
        hits_begin::<P, D>(polyline, points, threshold, 0, earlier),
    ensures
        0 <= place < catalog_prefix::<P, D>(polyline, points, threshold, 0, point).len(),
        catalog_prefix::<P, D>(polyline, points, threshold, 0, point)[place].cut_ratio is Begin,
    decreases point,
{
    let before = catalog_prefix::<P, D>(polyline, points, threshold, 0, point - 1);
    let cut = emitted::<P, D>(polyline, points, 0, point - 1);
    let fresh = emits::<P, D>(polyline, points, threshold, 0, point - 1);
    lemma_insertion_index(before, cut);
    if fresh {
        before.insert_ensures(insertion_index(before, cut), cut);
    }
    if earlier == point - 1 && fresh {
        insertion_index(before, cut)
    } else {
        let witness = if earlier < point - 1 {
            earlier
        } else {
            choose|other: int|
                0 <= other < point - 1 && hits_begin::<P, D>(polyline, points, threshold, 0, other)
        };
        let held = lemma_begin_recorded::<P, D>(polyline, points, threshold, point - 1, witness);
        if fresh && insertion_index(before, cut) <= held {
            held + 1
        } else {
            held
        }
    }
}

/// At every stage of collecting it, the catalog for a threshold holds the catalog
/// for a narrower threshold, in the same order.
pub proof fn lemma_prefix_embeds<P: PolySplit<D>, D: Copy>(
    polyline: Seq<P>,
    points: Seq<P>,
    narrow: Option<D>,
    wide: Option<D>,
    segment: int,
    point: int,
) -> (places: Seq<int>)
    requires
        widens::<P, D>(narrow, wide),
        polyline.len() <= usize::MAX,
        0 <= segment <= segment_count(polyline),
        0 <= point <= points.len(),
        point > 0 ==> segment < segment_count(polyline),
    ensures
        embeds(
            catalog_prefix::<P, D>(polyline, points, narrow, segment, point),
            catalog_prefix::<P, D>(polyline, points, wide, segment, point),
            places,
        ),
    decreases segment, point,
{
    if point > 0 {
        let held = lemma_prefix_embeds::<P, D>(polyline, points, narrow, wide, segment, point - 1);
        let small = catalog_prefix::<P, D>(polyline, points, narrow, segment, point - 1);
        let big = catalog_prefix::<P, D>(polyline, points, wide, segment, point - 1);
        lemma_catalog_prefix_collected::<P, D>(polyline, points, narrow, segment, point - 1);
        lemma_catalog_prefix_collected::<P, D>(polyline, points, wide, segment, point - 1);
        let cut = emitted::<P, D>(polyline, points, segment, point - 1);
        let found = crate::catalog::candidate::<P, D>(polyline, points, segment, point - 1);
        let in_small = emits::<P, D>(polyline, points, narrow, segment, point - 1);
        let in_big = emits::<P, D>(polyline, points, wide, segment, point - 1);
        assert(within::<P, D>(found.distance, narrow) ==> within::<P, D>(found.distance, wide));
        lemma_insertion_index(big, cut);
        if in_small && in_big {
            lemma_embeds_after_both(small, big, held, cut);
            shifted(held, insertion_index(big, cut)).insert(
                insertion_index(small, cut),
                insertion_index(big, cut),
            )
        } else if in_big {
            lemma_embeds_after_big(small, big, held, insertion_index(big, cut), cut);
            shifted(held, insertion_index(big, cut))
        } else if in_small {
            let target = if found.cut_ratio is End {
                let other = choose|other: int|
                    0 <= other < point - 1 && hits_end::<P, D>(
                        polyline,
                        points,
                        wide,
                        segment,
                        other,
                    );
                lemma_end_recorded::<P, D>(polyline, points, wide, segment, point - 1, other)
            } else {
                let other = choose|other: int|
                    0 <= other < point - 1 && hits_begin::<P, D>(polyline, points, wide, 0, other);
                lemma_begin_recorded::<P, D>(polyline, points, wide, point - 1, other)
            };
            assert(cut_wf(big[target], polyline));
            assert(big[target] == cut);
            assert forall|i: int|
                0 <= i < small.len() && (#[trigger] small[i]).at_or_before(
                    cut,
                ) implies !cut.at_or_before(small[i]) by {
                if cut.at_or_before(small[i]) {
                    assert(small[i].cut_ratio.rank() == cut.cut_ratio.rank());
                    assert(cut_wf(small[i], polyline));
                }
            }
            lemma_embeds_after_found(small, big, held, target, cut);
            held.insert(insertion_index(small, cut), target)
        } else {
            held
        }
    } else if segment > 0 {
        lemma_prefix_embeds::<P, D>(
            polyline,
            points,
            narrow,
            wide,
            segment - 1,
            points.len() as int,
        )
    } else {
        Seq::empty()
    }
}


/// A route through the smaller catalog, carried over to the bigger one.
pub open spec fn carried(places: Seq<int>, route: Seq<int>) -> Seq<int> {
    Seq::new(route.len(), |point: int| places[route[point]])
}

/// A route carried over to the bigger catalog has the same total distance.
pub proof fn lemma_carried_cost<P: PolySplit<D>, D: Copy>(
    small: Seq<CutPoint<P>>,
    big: Seq<CutPoint<P>>,
    places: Seq<int>,
    points: Seq<P>,
    route: Seq<int>,
)
    requires
        embeds(small, big, places),
        advancing(small, route),
        route.len() >= 1,
    ensures
        route_cost::<P, D>(big, points, carried(places, route)) == route_cost::<P, D>(
            small,
            points,
            route,
        ),
    decreases route.len(),
{
    let moved = carried(places, route);
    assert(0 <= route[route.len() - 1] < small.len());
    assert(0 <= route[0] < small.len());
    assert(big[places[route[0]]] == small[route[0]]);
    assert(big[places[route.last()]] == small[route.last()]);
    if route.len() > 1 {
        let shorter = route.drop_last();
        assert forall|point: int| 0 <= point < shorter.len() implies 0 <= #[trigger] shorter[point]
            < small.len() by {
            assert(shorter[point] == route[point]);
        }
        assert forall|point: int| 0 <= point < shorter.len() - 1 implies #[trigger] shorter[point]
            <= shorter[point + 1] by {
            assert(shorter[point] == route[point]);
            assert(shorter[point + 1] == route[point + 1]);
        }
        lemma_carried_cost::<P, D>(small, big, places, points, shorter);
        assert(carried(places, shorter) == moved.drop_last());
    }
}

/// A route for a threshold, carried over to the catalog for a wider threshold, does
/// not start the search for any reference point behind the cut point that it
/// attaches the reference point to.
pub proof fn lemma_carried_after_start<P: PolySplit<D>, D: Copy>(
    small: Seq<CutPoint<P>>,
    big: Seq<CutPoint<P>>,
    places: Seq<int>,
    points: Seq<P>,
    narrow: Option<D>,
    wide: Option<D>,
    route: Seq<int>,
    point: int,
)
    requires
        widens::<P, D>(narrow, wide),
        embeds(small, big, places),
        is_route::<P, D>(small, points, narrow, route),
        0 <= point < route.len(),
    ensures
        in_layer::<P, D>(big, points, wide, point, places[route[point]]),
        0 <= route[point] < small.len(),
    decreases point,
{
    lemma_scan_start_bounds::<P, D>(small, points, narrow, point);
    assert(in_layer::<P, D>(small, points, narrow, point, route[point]));
    let cut = route[point];
    assert(big[places[cut]] == small[cut]);
    assert(reach::<P, D>(big, points, point, places[cut]) == reach::<P, D>(
        small,
        points,
        point,
        cut,
    ));
    assert(within::<P, D>(reach::<P, D>(small, points, point, cut), narrow));
    assert(reachable::<P, D>(big, points, wide, point, places[cut]));
    if point > 0 {
        lemma_carried_after_start::<P, D>(
            small,
            big,
            places,
            points,
            narrow,
            wide,
            route,
            point - 1,
        );
        let before = route[point - 1];
        lemma_scan_start_bounds::<P, D>(big, points, wide, point - 1);
        lemma_first_reachable_found::<P, D>(
            big,
            points,
            wide,
            point - 1,
            scan_start::<P, D>(big, points, wide, point - 1),
            places[before],
        );
        assert(route[point - 1] <= route[point - 1 + 1]);
        if before < cut {
            assert(places[before] < places[cut]);
        }
    }
}

/// Every route for a threshold is a route for a wider threshold, with the same total
/// distance.
///
/// The result is the route carried over to the catalog for the wider threshold.
pub proof fn lemma_wider_threshold<P: PolySplit<D>, D: Copy>(
    polyline: Seq<P>,
    points: Seq<P>,
    narrow: Option<D>,
    wide: Option<D>,
    route: Seq<int>,
) -> (wide_route: Seq<int>)
    requires
        widens::<P, D>(narrow, wide),
        polyline.len() <= usize::MAX,
        points.len() >= 1,
        is_route::<P, D>(cut_catalog::<P, D>(polyline, points, narrow), points, narrow, route),
    ensures
        is_route::<P, D>(cut_catalog::<P, D>(polyline, points, wide), points, wide, wide_route),
        route_cost::<P, D>(cut_catalog::<P, D>(polyline, points, wide), points, wide_route)
            == route_cost::<P, D>(cut_catalog::<P, D>(polyline, points, narrow), points, route),
{
    let small = cut_catalog::<P, D>(polyline, points, narrow);
    let big = cut_catalog::<P, D>(polyline, points, wide);
    let places = lemma_prefix_embeds::<P, D>(
        polyline,
        points,
        narrow,
        wide,
        segment_count(polyline),
        0,
    );
    let wide_route = carried(places, route);
    assert forall|point: int| 0 <= point < wide_route.len() implies in_layer::<P, D>(
        big,
        points,
        wide,
        point,
        #[trigger] wide_route[point],
    ) && 0 <= route[point] < small.len() by {
        lemma_carried_after_start::<P, D>(small, big, places, points, narrow, wide, route, point);
    }
    assert forall|point: int| 0 <= point < wide_route.len() - 1 implies #[trigger] wide_route[point]
        <= wide_route[point + 1] by {
        assert(route[point] <= route[point + 1]);
        lemma_carried_after_start::<P, D>(small, big, places, points, narrow, wide, route, point);
        lemma_carried_after_start::<P, D>(
            small,
            big,
            places,
            points,
            narrow,
            wide,
            route,
            point + 1,
        );
        if route[point] < route[point + 1] {
            assert(places[route[point]] < places[route[point + 1]]);
        }
    }
    assert(advancing(small, route)) by {
        assert forall|point: int| 0 <= point < route.len() implies 0 <= #[trigger] route[point]
            < small.len() by {
            lemma_carried_after_start::<P, D>(
                small,
                big,
                places,
                points,
                narrow,
                wide,
                route,
                point,
            );
        }
    }
    lemma_carried_cost::<P, D>(small, big, places, points, route);
    wide_route
}

/// A split that has a route for a threshold has to succeed for a wider threshold.
pub proof fn lemma_wider_succeeds<P: PolySplit<D>, D: Copy>(
    polyline: Seq<P>,
    points: Seq<P>,
    narrow: Option<D>,
    wide: Option<D>,
    route: Seq<int>,
)
    requires
        strict::<P, D>(),
        widens::<P, D>(narrow, wide),
        2 <= polyline.len() <= usize::MAX,
        points.len() >= 2,
        is_route::<P, D>(cut_catalog::<P, D>(polyline, points, narrow), points, narrow, route),
    ensures
        owes_success::<P, D>(polyline, points, wide),
{
    let wide_route = lemma_wider_threshold::<P, D>(polyline, points, narrow, wide, route);
    let big = cut_catalog::<P, D>(polyline, points, wide);
    assert forall|point: int| 0 <= point < points.len() implies !#[trigger] far_away::<P, D>(
        big,
        points,
        wide,
        point,
    ) by {
        if far_away::<P, D>(big, points, wide, point) {
            lemma_no_route_past_far::<P, D>(big, points, wide, point);
        }
    }
}

/// The cheapest route for a threshold has a total distance that does not exceed
/// that of any route for a narrower threshold.
pub proof fn lemma_wider_is_cheaper<P: PolySplit<D>, D: Copy>(
    polyline: Seq<P>,
    points: Seq<P>,
    narrow: Option<D>,
    wide: Option<D>,
    narrow_route: Seq<int>,
    wide_route: Seq<int>,
)
    requires
        widens::<P, D>(narrow, wide),
        polyline.len() <= usize::MAX,
        points.len() >= 1,
        is_route::<P, D>(
            cut_catalog::<P, D>(polyline, points, narrow),
            points,
            narrow,
            narrow_route,
        ),
        is_cheapest_route::<P, D>(
            cut_catalog::<P, D>(polyline, points, wide),
            points,
            wide,
            wide_route,
        ),
    ensures
        at_most::<P, D>(
            route_cost::<P, D>(cut_catalog::<P, D>(polyline, points, wide), points, wide_route),
            route_cost::<P, D>(
                cut_catalog::<P, D>(polyline, points, narrow),
                points,
                narrow_route,
            ),
        ),
{
    let carried_over = lemma_wider_threshold::<P, D>(polyline, points, narrow, wide, narrow_route);
    assert(is_route::<P, D>(
        cut_catalog::<P, D>(polyline, points, wide),
        points,
        wide,
        carried_over,
    ));
}

} // verus!
