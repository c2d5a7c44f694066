//! The split by the two ends of a polyline: where the ends are nearest to
//! themselves, the one piece is the polyline itself.
use vstd::prelude::*;
use crate::assemble::{lemma_begin_is_first, passed, piece, pieces};
use crate::catalog::{
    catalog_prefix, catalog_wf, clash, cut_catalog, cut_wf, emits, emitted, hits_begin,
    hits_end, insertion_index, lemma_cut_catalog_wf, lemma_insertion_index, segment_count,
    CutPoint,
};
use crate::graph::{
    in_layer, lemma_first_reachable_found, lemma_scan_start_bounds, reach, scan_start,
};
use crate::metric::{within, PolySplit};
use crate::polysplit::{is_cheapest_route, is_route, lemma_only_cheapest, route_cost};
use crate::threshold::{lemma_begin_recorded, lemma_end_recorded};

verus! {

/// A catalog that holds the start of the polyline holds it at every later stage of
/// collecting it.
pub proof fn lemma_begin_kept<P: PolySplit<D>, D: Copy>(
    polyline: Seq<P>,
    points: Seq<P>,
    threshold: Option<D>,
    segment: int,
    point: int,
    earlier: int,
) -> (place: int)
    requires
        polyline.len() <= usize::MAX,
        0 < segment_count(polyline),
        0 <= earlier < points.len(),
        hits_begin::<P, D>(polyline, points, threshold, 0, earlier),
        segment > 0 || point == points.len(),
        0 <= segment,
        0 <= point <= points.len(),
    ensures
        0 <= place < catalog_prefix::<P, D>(polyline, points, threshold, segment, point).len(),
        catalog_prefix::<P, D>(polyline, points, threshold, segment, point)[place].cut_ratio is Begin,
    decreases segment, point,
{
    if segment == 0 {
        lemma_begin_recorded::<P, D>(polyline, points, threshold, point, earlier)
    } else if point == 0 {
        lemma_begin_kept::<P, D>(
            polyline,
            points,
            threshold,
            segment - 1,
            points.len() as int,
            earlier,
        )
    } else {
        let held = lemma_begin_kept::<P, D>(
            polyline,
            points,
            threshold,
            segment,
            point - 1,
            earlier,
        );
        let before = catalog_prefix::<P, D>(polyline, points, threshold, segment, point - 1);
        let cut = emitted::<P, D>(polyline, points, segment, point - 1);
        lemma_insertion_index(before, cut);
        if emits::<P, D>(polyline, points, threshold, segment, point - 1) {
            before.insert_ensures(insertion_index(before, cut), cut);
            if insertion_index(before, cut) <= held {
                held + 1
            } else {
                held
            }
        } else {
            held
        }
    }
}

/// In a well-formed catalog, the end of the last segment can only be the last entry.
pub proof fn lemma_end_is_last<P>(catalog: Seq<CutPoint<P>>, polyline: Seq<P>, index: int)
    requires
        catalog_wf(catalog, polyline),
        0 <= index < catalog.len(),
        catalog[index].cut_ratio is End,
        catalog[index].segment_index + 2 == polyline.len(),
    ensures
        index == catalog.len() - 1,
{
    let last = catalog.len() - 1;
    if index < last {
        assert(catalog[index].at_or_before(catalog[last]));
        assert(cut_wf(catalog[last], polyline));
        assert(clash(catalog[index], catalog[last]));
    }
}

/// The piece from the start of a polyline to its end is the polyline.
pub proof fn lemma_piece_is_whole<P>(polyline: Seq<P>, from: CutPoint<P>, to: CutPoint<P>)
    requires
        polyline.len() >= 2,
        cut_wf(from, polyline),
        cut_wf(to, polyline),
        from.cut_ratio is Begin,
        to.cut_ratio is End,
        to.segment_index + 2 == polyline.len(),
    ensures
        piece(polyline, from, to) == polyline,
{
    let joined = seq![from.cut_point] + passed(polyline, from, to) + seq![to.cut_point];
    assert(joined =~= polyline);
}

/// Whether the two reference points are the two ends of the polyline, each landing
/// on its own end and passing the threshold.
pub open spec fn split_by_ends<P: PolySplit<D>, D: Copy>(
    polyline: Seq<P>,
    points: Seq<P>,
    threshold: Option<D>,
) -> bool {
    &&& 2 <= polyline.len() <= usize::MAX
    &&& points == seq![polyline[0], polyline.last()]
    &&& hits_begin::<P, D>(polyline, points, threshold, 0, 0)
    &&& hits_end::<P, D>(polyline, points, threshold, polyline.len() - 2, 1)
    &&& within::<P, D>(polyline[0].point_distance(&polyline[0]), threshold)
    &&& within::<P, D>(polyline.last().point_distance(&polyline.last()), threshold)
}

/// The route from the first entry of the catalog to the last.
pub open spec fn straight<P>(catalog: Seq<CutPoint<P>>) -> Seq<int> {
    seq![0int, catalog.len() - 1]
}

/// Where the two reference points are the two ends of the polyline, the catalog
/// starts with the start of the polyline and ends with its end, the route from the
/// first entry to the last is a route with the distances of the ends from themselves
/// as its total distance, and its one piece is the polyline.
pub proof fn lemma_ends_in_catalog<P: PolySplit<D>, D: Copy>(
    polyline: Seq<P>,
    points: Seq<P>,
    threshold: Option<D>,
)
    requires
        split_by_ends::<P, D>(polyline, points, threshold),
    ensures
        cut_catalog::<P, D>(polyline, points, threshold).len() >= 1,
        reach::<P, D>(cut_catalog::<P, D>(polyline, points, threshold), points, 0, 0)
            == polyline[0].point_distance(&polyline[0]),
        reach::<P, D>(
            cut_catalog::<P, D>(polyline, points, threshold),
            points,
            1,
            cut_catalog::<P, D>(polyline, points, threshold).len() - 1,
        ) == polyline.last().point_distance(&polyline.last()),
        is_route::<P, D>(
            cut_catalog::<P, D>(polyline, points, threshold),
            points,
            threshold,
            straight(cut_catalog::<P, D>(polyline, points, threshold)),
        ),
        pieces(
            polyline,
            cut_catalog::<P, D>(polyline, points, threshold),
            straight(cut_catalog::<P, D>(polyline, points, threshold)),
        ) == seq![polyline],
{
    let catalog = cut_catalog::<P, D>(polyline, points, threshold);
    let segments = segment_count(polyline);
    lemma_cut_catalog_wf::<P, D>(polyline, points, threshold);
    let first = lemma_begin_kept::<P, D>(polyline, points, threshold, segments - 1, 2, 0);
    let last = lemma_end_recorded::<P, D>(polyline, points, threshold, segments - 1, 2, 1);
    assert(catalog == catalog_prefix::<P, D>(polyline, points, threshold, segments - 1, 2));
    lemma_begin_is_first(catalog, polyline, first);
    lemma_end_is_last(catalog, polyline, last);
    assert(cut_wf(catalog[0], polyline));
    assert(cut_wf(catalog[last], polyline));
    let route = straight(catalog);
    assert(reach::<P, D>(catalog, points, 0, 0) == polyline[0].point_distance(&polyline[0]));
    assert(reach::<P, D>(catalog, points, 1, last) == polyline.last().point_distance(
        &polyline.last(),
    ));
    assert(is_route::<P, D>(catalog, points, threshold, route)) by {
        lemma_first_reachable_found::<P, D>(catalog, points, threshold, 0, 0, 0);
        assert(scan_start::<P, D>(catalog, points, threshold, 0) == 0);
        assert(scan_start::<P, D>(catalog, points, threshold, 1) == 0);
        assert forall|point: int| 0 <= point < route.len() implies in_layer::<P, D>(
            catalog,
            points,
            threshold,
            point,
            #[trigger] route[point],
        ) by {}
    }
    assert(pieces(polyline, catalog, route) == seq![polyline]) by {
        lemma_piece_is_whole(polyline, catalog[0], catalog[last]);
        assert(pieces(polyline, catalog, route) =~= seq![polyline]);
    }
}

/// The total distance of a route for two reference points is the distance of the
/// first and the distance of the second together.
pub proof fn lemma_cost_of_two<P: PolySplit<D>, D: Copy>(
    catalog: Seq<CutPoint<P>>,
    points: Seq<P>,
    route: Seq<int>,
)
    requires
        route.len() == 2,
    ensures
        route_cost::<P, D>(catalog, points, route) == P::total(
            reach::<P, D>(catalog, points, 0, route[0]),
            reach::<P, D>(catalog, points, 1, route[1]),
        ),
{
    let shorter = route.drop_last();
    assert(shorter.len() == 1 && shorter[0] == route[0]);
    assert(route_cost::<P, D>(catalog, points, shorter) == reach::<P, D>(
        catalog,
        points,
        0,
        route[0],
    ));
    assert(route.last() == route[1]);
}

/// Splitting a polyline by its two ends gives the polyline itself, where the route
/// from the first entry of the catalog to the last has a smaller total distance
/// than every other route: the cheapest route is that one, and its one piece is the
/// polyline.
pub proof fn lemma_split_by_ends<P: PolySplit<D>, D: Copy>(
    polyline: Seq<P>,
    points: Seq<P>,
    threshold: Option<D>,
    route: Seq<int>,
)
    requires
        split_by_ends::<P, D>(polyline, points, threshold),
        is_route::<P, D>(cut_catalog::<P, D>(polyline, points, threshold), points, threshold, route),
        is_cheapest_route::<P, D>(
            cut_catalog::<P, D>(polyline, points, threshold),
            points,
            threshold,
            route,
        ),
        forall|other: Seq<int>| #[trigger]
            is_route::<P, D>(
                cut_catalog::<P, D>(polyline, points, threshold),
                points,
                threshold,
                other,
            ) && other != straight(cut_catalog::<P, D>(polyline, points, threshold))
                ==> P::exceeds(
                route_cost::<P, D>(
                    cut_catalog::<P, D>(polyline, points, threshold),
                    points,
                    other,
                ),
                route_cost::<P, D>(
                    cut_catalog::<P, D>(polyline, points, threshold),
                    points,
                    straight(cut_catalog::<P, D>(polyline, points, threshold)),
                ),
            ),
    ensures
        pieces(polyline, cut_catalog::<P, D>(polyline, points, threshold), route) == seq![polyline],
{
    let catalog = cut_catalog::<P, D>(polyline, points, threshold);
    lemma_ends_in_catalog::<P, D>(polyline, points, threshold);
    lemma_only_cheapest::<P, D>(catalog, points, threshold, straight(catalog), route);
}

/// Splitting a polyline by its two ends gives the polyline itself, where each end
/// is nearer to itself than to any other cut point.
///
/// The start is to be further from every cut point but the first than from itself,
/// and the end further from every cut point but the last than from itself. Two
/// distances, each the distance of an end from itself or one that exceeds it, and
/// one of them at least exceeding it, are to add up to more than the distances of
/// the ends from themselves. Then the cheapest route leads from the first entry of the catalog to
/// the last, and its one piece is the polyline.
pub proof fn lemma_split_by_nearest_ends<P: PolySplit<D>, D: Copy>(
    polyline: Seq<P>,
    points: Seq<P>,
    threshold: Option<D>,
    route: Seq<int>,
)
    requires
        split_by_ends::<P, D>(polyline, points, threshold),
        is_route::<P, D>(cut_catalog::<P, D>(polyline, points, threshold), points, threshold, route),
        is_cheapest_route::<P, D>(
            cut_catalog::<P, D>(polyline, points, threshold),
            points,
            threshold,
            route,
        ),
        forall|cut: int|
            0 < cut < cut_catalog::<P, D>(polyline, points, threshold).len() ==> P::exceeds(
                #[trigger] reach::<P, D>(
                    cut_catalog::<P, D>(polyline, points, threshold),
                    points,
                    0,
                    cut,
                ),
                polyline[0].point_distance(&polyline[0]),
            ),
        forall|cut: int|
            0 <= cut < cut_catalog::<P, D>(polyline, points, threshold).len() - 1 ==> P::exceeds(
                #[trigger] reach::<P, D>(
                    cut_catalog::<P, D>(polyline, points, threshold),
                    points,
                    1,
                    cut,
                ),
                polyline.last().point_distance(&polyline.last()),
            ),
        forall|first: D, second: D|
            (first == polyline[0].point_distance(&polyline[0]) || P::exceeds(
                first,
                polyline[0].point_distance(&polyline[0]),
            )) && (second == polyline.last().point_distance(&polyline.last()) || P::exceeds(
                second,
                polyline.last().point_distance(&polyline.last()),
            )) && (P::exceeds(first, polyline[0].point_distance(&polyline[0])) || P::exceeds(
                second,
                polyline.last().point_distance(&polyline.last()),
            )) ==> P::exceeds(
                #[trigger] P::total(first, second),
                P::total(
                    polyline[0].point_distance(&polyline[0]),
                    polyline.last().point_distance(&polyline.last()),
                ),
            ),
    ensures
        pieces(polyline, cut_catalog::<P, D>(polyline, points, threshold), route) == seq![polyline],
{
    let catalog = cut_catalog::<P, D>(polyline, points, threshold);
    let last = catalog.len() - 1;
    let at_start = polyline[0].point_distance(&polyline[0]);
    let at_end = polyline.last().point_distance(&polyline.last());
    lemma_ends_in_catalog::<P, D>(polyline, points, threshold);
    lemma_cost_of_two::<P, D>(catalog, points, straight(catalog));
    assert forall|other: Seq<int>| #[trigger]
        is_route::<P, D>(catalog, points, threshold, other) && other != straight(
            catalog,
        ) implies P::exceeds(
        route_cost::<P, D>(catalog, points, other),
        route_cost::<P, D>(catalog, points, straight(catalog)),
    ) by {
        lemma_scan_start_bounds::<P, D>(catalog, points, threshold, 0);
        lemma_scan_start_bounds::<P, D>(catalog, points, threshold, 1);
        assert(in_layer::<P, D>(catalog, points, threshold, 0, other[0]));
        assert(in_layer::<P, D>(catalog, points, threshold, 1, other[1]));
        lemma_cost_of_two::<P, D>(catalog, points, other);
        let first = reach::<P, D>(catalog, points, 0, other[0]);
        let second = reach::<P, D>(catalog, points, 1, other[1]);
        if other[0] == 0 && other[1] == last {
            assert(other =~= straight(catalog));
        }
        assert(first == at_start || P::exceeds(first, at_start));
        assert(second == at_end || P::exceeds(second, at_end));
        assert(P::exceeds(P::total(first, second), P::total(at_start, at_end)));
    }
    lemma_split_by_ends::<P, D>(polyline, points, threshold, route);
}

} // verus!
