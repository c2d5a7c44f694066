//! The split itself: from a polyline and a list of reference points to the pieces.
use vstd::prelude::*;
use crate::assemble::{
    advancing, build_segments, connected, contents, indices, lemma_pieces_connected, pieces,
};
use crate::catalog::{collect_cut_points, cut_catalog, sorted, CutPoint};
use crate::cheapest::{cheapest, premises};
use crate::error::{PolySplitError, PolySplitErrorKind};
use crate::graph::{
    build_graph, first_reachable, in_layer, is_graph_of, layer, lemma_first_reachable_found,
    lemma_graph_of, lemma_layer_prefix, lemma_scan_start_bounds, reach, scan_start,
    vertex_fits, Graph,
};
use crate::metric::PolySplit;
use crate::order::{at_most, ordered_on};
use crate::path::{find_path, is_path, is_path_prefix, path_cost};
use crate::reached::strict;

verus! {

/// Whether `route` attaches every reference point to a catalog entry offered to it,
/// without ever stepping back in the catalog.
pub open spec fn is_route<P: PolySplit<D>, D: Copy>(
    catalog: Seq<CutPoint<P>>,
    points: Seq<P>,
    threshold: Option<D>,
    route: Seq<int>,
) -> bool {
    &&& route.len() == points.len()
    &&& forall|point: int|
        0 <= point < route.len() ==> in_layer::<P, D>(
            catalog,
            points,
            threshold,
            point,
            #[trigger] route[point],
        )
    &&& forall|point: int| 0 <= point < route.len() - 1 ==> #[trigger] route[point] <= route[point + 1]
}

/// The total distance of a route: the distances from the reference points to the
/// catalog entries that the route attaches them to, added up from the first to the
/// last.
pub open spec fn route_cost<P: PolySplit<D>, D: Copy>(
    catalog: Seq<CutPoint<P>>,
    points: Seq<P>,
    route: Seq<int>,
) -> D
    decreases route.len(),
{
    if route.len() <= 1 {
        reach::<P, D>(catalog, points, 0, route[0])
    } else {
        P::total(
            route_cost::<P, D>(catalog, points, route.drop_last()),
            reach::<P, D>(catalog, points, route.len() - 1, route.last()),
        )
    }
}

/// Whether no route has a smaller total distance than `route`.
pub open spec fn is_cheapest_route<P: PolySplit<D>, D: Copy>(
    catalog: Seq<CutPoint<P>>,
    points: Seq<P>,
    threshold: Option<D>,
    route: Seq<int>,
) -> bool {
    forall|other: Seq<int>| #[trigger]
        is_route::<P, D>(catalog, points, threshold, other) ==> at_most::<P, D>(
            route_cost::<P, D>(catalog, points, route),
            route_cost::<P, D>(catalog, points, other),
        )
}

/// Whether the distance from every reference point to every catalog entry is among
/// the valid ones.
pub open spec fn distances_valid<P: PolySplit<D>, D: Copy>(
    catalog: Seq<CutPoint<P>>,
    points: Seq<P>,
    valid: spec_fn(D) -> bool,
) -> bool {
    forall|point: int, cut: int|
        0 <= point < points.len() && 0 <= cut < catalog.len() ==> valid(
            #[trigger] reach::<P, D>(catalog, points, point, cut),
        )
}

/// Whether no catalog entry is offered to reference point `point`.
pub open spec fn far_away<P: PolySplit<D>, D: Copy>(
    catalog: Seq<CutPoint<P>>,
    points: Seq<P>,
    threshold: Option<D>,
    point: int,
) -> bool {
    forall|cut: int| !in_layer::<P, D>(catalog, points, threshold, point, cut)
}

/// Whether `point` is the first reference point that no catalog entry is offered to.
pub open spec fn first_far_away<P: PolySplit<D>, D: Copy>(
    catalog: Seq<CutPoint<P>>,
    points: Seq<P>,
    threshold: Option<D>,
    point: int,
) -> bool {
    &&& 0 <= point < points.len()
    &&& far_away::<P, D>(catalog, points, threshold, point)
    &&& forall|earlier: int|
        0 <= earlier < point ==> !#[trigger] far_away::<P, D>(catalog, points, threshold, earlier)
}

/// Whether `split` is the split of the polyline along `route`, and `route` the
/// cheapest one where distances are ordered.
pub open spec fn splits_along<P: PolySplit<D>, D: Copy>(
    polyline: Seq<P>,
    points: Seq<P>,
    threshold: Option<D>,
    route: Seq<int>,
    split: Seq<Seq<P>>,
) -> bool {
    let catalog = cut_catalog::<P, D>(polyline, points, threshold);
    &&& polyline.len() >= 2
    &&& points.len() >= 2
    &&& is_route::<P, D>(catalog, points, threshold, route)
    &&& split == pieces(polyline, catalog, route)
    &&& forall|valid: spec_fn(D) -> bool|
        #[trigger] ordered_on::<P, D>(valid) && distances_valid::<P, D>(catalog, points, valid)
            ==> is_cheapest_route::<P, D>(catalog, points, threshold, route)
}

/// Whether a split of the polyline fails in the given way.
pub open spec fn fails_with<P: PolySplit<D>, D: Copy>(
    polyline: Seq<P>,
    points: Seq<P>,
    threshold: Option<D>,
    kind: PolySplitErrorKind,
    point_index: Option<usize>,
) -> bool {
    let catalog = cut_catalog::<P, D>(polyline, points, threshold);
    match kind {
        PolySplitErrorKind::InvalidPolyline => polyline.len() < 2,
        PolySplitErrorKind::InvalidPoints => polyline.len() >= 2 && points.len() < 2,
        PolySplitErrorKind::PointFarAway => {
            &&& polyline.len() >= 2
            &&& points.len() >= 2
            &&& point_index matches Some(far)
            &&& first_far_away::<P, D>(catalog, points, threshold, far as int)
        },
        PolySplitErrorKind::CannotSplit => {
            &&& polyline.len() >= 2
            &&& points.len() >= 2
            &&& forall|point: int|
                0 <= point < points.len() ==> !#[trigger] far_away::<P, D>(
                    catalog,
                    points,
                    threshold,
                    point,
                )
            &&& !strict::<P, D>()
        },
    }
}

/// Whether a split has to succeed: no distance exceeds itself, the polyline and the
/// list of reference points have two points or more, and every reference point has
/// a cut point offered to it.
pub open spec fn owes_success<P: PolySplit<D>, D: Copy>(
    polyline: Seq<P>,
    points: Seq<P>,
    threshold: Option<D>,
) -> bool {
    &&& strict::<P, D>()
    &&& polyline.len() >= 2
    &&& points.len() >= 2
    &&& forall|point: int|
        0 <= point < points.len() ==> !#[trigger] far_away::<P, D>(
            cut_catalog::<P, D>(polyline, points, threshold),
            points,
            threshold,
            point,
        )
}

/// The route that attaches every reference point to the first catalog entry offered
/// to it.
pub open spec fn first_offers<P: PolySplit<D>, D: Copy>(
    catalog: Seq<CutPoint<P>>,
    points: Seq<P>,
    threshold: Option<D>,
) -> Seq<int> {
    Seq::new(
        points.len(),
        |point: int|
            first_reachable::<P, D>(
                catalog,
                points,
                threshold,
                point,
                scan_start::<P, D>(catalog, points, threshold, point),
            ),
    )
}

/// Where every reference point has a cut point offered to it, there is a route: the
/// first offers follow each other without stepping back.
pub proof fn lemma_route_exists<P: PolySplit<D>, D: Copy>(
    catalog: Seq<CutPoint<P>>,
    points: Seq<P>,
    threshold: Option<D>,
)
    requires
        forall|point: int|
            0 <= point < points.len() ==> !#[trigger] far_away::<P, D>(
                catalog,
                points,
                threshold,
                point,
            ),
    ensures
        is_route::<P, D>(
            catalog,
            points,
            threshold,
            first_offers::<P, D>(catalog, points, threshold),
        ),
{
    let route = first_offers::<P, D>(catalog, points, threshold);
    assert forall|point: int| 0 <= point < route.len() implies in_layer::<P, D>(
        catalog,
        points,
        threshold,
        point,
        #[trigger] route[point],
    ) && route[point] < catalog.len() by {
        assert(!far_away::<P, D>(catalog, points, threshold, point));
        let cut = choose|cut: int| in_layer::<P, D>(catalog, points, threshold, point, cut);
        lemma_scan_start_bounds::<P, D>(catalog, points, threshold, point);
        lemma_first_reachable_found::<P, D>(
            catalog,
            points,
            threshold,
            point,
            scan_start::<P, D>(catalog, points, threshold, point),
            cut,
        );
    }
    assert forall|point: int| 0 <= point < route.len() - 1 implies #[trigger] route[point]
        <= route[point + 1] by {
        assert(in_layer::<P, D>(catalog, points, threshold, point + 1, route[point + 1]));
        assert(route[point] < catalog.len());
    }
}

/// A layer is empty exactly when no catalog entry is offered to its reference point.
pub proof fn lemma_far_away<P: PolySplit<D>, D: Copy>(
    catalog: Seq<CutPoint<P>>,
    points: Seq<P>,
    threshold: Option<D>,
    point: int,
)
    requires
        0 <= point <= usize::MAX,
        catalog.len() <= usize::MAX,
    ensures
        far_away::<P, D>(catalog, points, threshold, point) <==> layer::<P, D>(
            catalog,
            points,
            threshold,
            point,
        ).len() == 0,
{
    lemma_layer_prefix::<P, D>(catalog, points, threshold, point, catalog.len() as int);
    lemma_scan_start_bounds::<P, D>(catalog, points, threshold, point);
    let members = layer::<P, D>(catalog, points, threshold, point);
    if members.len() > 0 {
        assert(vertex_fits::<P, D>(members[0], catalog, points, threshold, point));
    }
}

/// Splits polyline into segments by the defined list of points.
///
/// The result holds one piece for each pair of neighbouring reference points. The
/// pieces follow a route: a choice of one cut point of the catalog for every
/// reference point, among those offered to it, that never steps back along the
/// polyline. Where distances are ordered, no other route has a smaller total
/// distance.
///
/// The split fails where the polyline or the list of reference points has fewer
/// than two points, and where no cut point is offered to one of the reference
/// points. Where every reference point has a cut point offered to it there is a
/// route, and the search finds one unless some distance exceeds itself.
pub fn polyline_split<P: PolySplit<D>, D: Copy>(
    polyline: &[P],
    points: &[P],
    distance_threshold: Option<D>,
) -> (result: Result<Vec<Vec<P>>, PolySplitError>)
    ensures
        match result {
            Ok(segments) => {
                &&& segments@.len() == points@.len() - 1
                &&& connected(contents(segments@))
                &&& exists|route: Seq<int>| #[trigger]
                    splits_along::<P, D>(
                        polyline@,
                        points@,
                        distance_threshold,
                        route,
                        contents(segments@),
                    )
            },
            Err(e) => e.wf() && fails_with::<P, D>(
                polyline@,
                points@,
                distance_threshold,
                e.kind,
                e.point_index,
            ),
        },
        owes_success::<P, D>(polyline@, points@, distance_threshold) ==> result is Ok,
        polyline@.len() < 2 ==> (result matches Err(e) && e.kind
            == PolySplitErrorKind::InvalidPolyline),
        polyline@.len() >= 2 && points@.len() < 2 ==> (result matches Err(e) && e.kind
            == PolySplitErrorKind::InvalidPoints),
        polyline@.len() >= 2 && points@.len() >= 2 && (exists|point: int|
            0 <= point < points@.len() && #[trigger] far_away::<P, D>(
                cut_catalog::<P, D>(polyline@, points@, distance_threshold),
                points@,
                distance_threshold,
                point,
            )) ==> (result matches Err(e) && e.kind == PolySplitErrorKind::PointFarAway),
{
    if polyline.len() <= 1 {
        return Err(PolySplitError::new(PolySplitErrorKind::InvalidPolyline));
    }
    if points.len() <= 1 {
        return Err(PolySplitError::new(PolySplitErrorKind::InvalidPoints));
    }
    let cut_points = collect_cut_points::<P, D>(polyline, points, distance_threshold);
    let ghost catalog = cut_points@;
    proof {
        assert(cut_points.len() == catalog.len());
        assert forall|point: int| 0 <= point < points@.len() implies (far_away::<P, D>(
            catalog,
            points@,
            distance_threshold,
            point,
        ) <==> (#[trigger] layer::<P, D>(catalog, points@, distance_threshold, point)).len()
            == 0) by {
            lemma_far_away::<P, D>(catalog, points@, distance_threshold, point);
        }
    }
    let graph = match build_graph::<P, D>(&cut_points, points, distance_threshold) {
        Ok(graph) => graph,
        Err(e) => {
            proof {
                let far = e.point_index.unwrap() as int;
                assert forall|earlier: int| 0 <= earlier < far implies !#[trigger] far_away::<
                    P,
                    D,
                >(catalog, points@, distance_threshold, earlier) by {
                    assert(layer::<P, D>(catalog, points@, distance_threshold, earlier).len() > 0);
                }
                assert(layer::<P, D>(catalog, points@, distance_threshold, far).len() == 0);
            }
            return Err(e);
        },
    };
    proof {
        lemma_graph_of::<P, D>(graph, catalog, points@, distance_threshold);
        assert forall|point: int| 0 <= point < points@.len() implies !#[trigger] far_away::<P, D>(
            catalog,
            points@,
            distance_threshold,
            point,
        ) by {
            assert(layer::<P, D>(catalog, points@, distance_threshold, point).len() > 0);
        }
    }
    let path = match find_path::<P, D>(&graph) {
        Ok(path) => path,
        Err(e) => {
            proof {
                if strict::<P, D>() {
                    lemma_route_exists::<P, D>(catalog, points@, distance_threshold);
                    let found = lemma_route_gives_path::<P, D>(
                        graph,
                        catalog,
                        points@,
                        distance_threshold,
                        first_offers::<P, D>(catalog, points@, distance_threshold),
                    );
                    assert(is_path(graph, found));
                }
            }
            return Err(e);
        },
    };
    let mut anchors: Vec<usize> = Vec::new();
    let mut point_index: usize = 0;
    while point_index < path.len()
        invariant
            point_index <= path@.len(),
            graph.wf(),
            is_path(graph, path@),
            anchors@.len() == point_index,
            forall|point: int|
                0 <= point < point_index ==> #[trigger] anchors@[point] == graph.cut_of(
                    path@[point] as int,
                ),
        decreases path.len() - point_index,
    {
        assert(graph.in_range(point_index as int, path@[point_index as int] as int));
        anchors.push(graph.vertexes[path[point_index]].cut_point_index);
        point_index = point_index + 1;
    }
    let ghost route = indices(anchors@);
    proof {
        assert(route =~= route_of(graph, path@));
        lemma_path_gives_route::<P, D>(graph, catalog, points@, distance_threshold, path@);
        assert forall|i: int| 0 <= i < anchors@.len() implies (#[trigger] anchors@[i])
            < cut_points@.len() by {
            assert(in_layer::<P, D>(catalog, points@, distance_threshold, i, route[i]));
        }
        assert forall|valid: spec_fn(D) -> bool|
            #[trigger] ordered_on::<P, D>(valid) && distances_valid::<P, D>(
                catalog,
                points@,
                valid,
            ) implies is_cheapest_route::<P, D>(catalog, points@, distance_threshold, route) by {
            lemma_cheapest_route::<P, D>(
                graph,
                catalog,
                points@,
                distance_threshold,
                path@,
                valid,
            );
        }
    }
    let segments = build_segments(polyline, &cut_points, &anchors);
    proof {
        assert(splits_along::<P, D>(
            polyline@,
            points@,
            distance_threshold,
            route,
            contents(segments@),
        ));
        assert(contents(segments@).len() == segments@.len());
        lemma_route_advances::<P, D>(catalog, points@, distance_threshold, route);
        lemma_pieces_connected(polyline@, catalog, route);
    }
    Ok(segments)
}

/// Where a reference point has no cut point offered to it, there is no route.
pub proof fn lemma_no_route_past_far<P: PolySplit<D>, D: Copy>(
    catalog: Seq<CutPoint<P>>,
    points: Seq<P>,
    threshold: Option<D>,
    far: int,
)
    requires
        0 <= far < points.len(),
        far_away::<P, D>(catalog, points, threshold, far),
    ensures
        forall|route: Seq<int>| !#[trigger] is_route::<P, D>(catalog, points, threshold, route),
{
    assert forall|route: Seq<int>| !#[trigger] is_route::<P, D>(
        catalog,
        points,
        threshold,
        route,
    ) by {
        if is_route::<P, D>(catalog, points, threshold, route) {
            assert(in_layer::<P, D>(catalog, points, threshold, far, route[far]));
        }
    }
}


/// The catalog entries that the vertices of a path stand for.
pub open spec fn route_of<D>(graph: Graph<D>, path: Seq<usize>) -> Seq<int> {
    Seq::new(path.len(), |layer: int| graph.cut_of(path[layer] as int))
}

/// A path through the layered graph and the route of its catalog entries have the
/// same total distance.
pub proof fn lemma_costs_agree<P: PolySplit<D>, D: Copy>(
    graph: Graph<D>,
    catalog: Seq<CutPoint<P>>,
    points: Seq<P>,
    threshold: Option<D>,
    path: Seq<usize>,
)
    requires
        is_graph_of::<P, D>(graph, catalog, points, threshold),
        catalog.len() <= usize::MAX,
        points.len() <= usize::MAX,
        is_path_prefix(graph, path),
        path.len() >= 1,
    ensures
        path_cost::<P, D>(graph, path) == route_cost::<P, D>(catalog, points, route_of(graph, path)),
    decreases path.len(),
{
    lemma_graph_of::<P, D>(graph, catalog, points, threshold);
    let route = route_of(graph, path);
    let last = path.last() as int;
    assert(graph.in_range(path.len() - 1, path[path.len() - 1] as int));
    assert(vertex_fits::<P, D>(
        graph.vertexes@[last],
        catalog,
        points,
        threshold,
        graph.layer_of(last),
    ));
    if path.len() > 1 {
        crate::cheapest::lemma_prefix_take(graph, path, path.len() - 1);
        assert(path.take(path.len() - 1) == path.drop_last());
        lemma_costs_agree::<P, D>(graph, catalog, points, threshold, path.drop_last());
        assert(route_of(graph, path.drop_last()) == route.drop_last());
    }
}

/// The route of a path through the layered graph is a route.
pub proof fn lemma_path_gives_route<P: PolySplit<D>, D: Copy>(
    graph: Graph<D>,
    catalog: Seq<CutPoint<P>>,
    points: Seq<P>,
    threshold: Option<D>,
    path: Seq<usize>,
)
    requires
        is_graph_of::<P, D>(graph, catalog, points, threshold),
        catalog.len() <= usize::MAX,
        points.len() <= usize::MAX,
        is_path(graph, path),
    ensures
        is_route::<P, D>(catalog, points, threshold, route_of(graph, path)),
{
    lemma_graph_of::<P, D>(graph, catalog, points, threshold);
    let route = route_of(graph, path);
    assert forall|point: int| 0 <= point < route.len() implies in_layer::<P, D>(
        catalog,
        points,
        threshold,
        point,
        #[trigger] route[point],
    ) by {
        let vertex = path[point] as int;
        assert(graph.in_range(point, vertex));
        assert(vertex_fits::<P, D>(
            graph.vertexes@[vertex],
            catalog,
            points,
            threshold,
            graph.layer_of(vertex),
        ));
    }
    assert forall|point: int| 0 <= point < route.len() - 1 implies #[trigger] route[point]
        <= route[point + 1] by {
        assert(graph.cut_of(path[point] as int) <= graph.cut_of(path[point + 1] as int));
    }
}

/// Every route is the route of a path through the layered graph.
pub proof fn lemma_route_gives_path<P: PolySplit<D>, D: Copy>(
    graph: Graph<D>,
    catalog: Seq<CutPoint<P>>,
    points: Seq<P>,
    threshold: Option<D>,
    route: Seq<int>,
) -> (path: Seq<usize>)
    requires
        is_graph_of::<P, D>(graph, catalog, points, threshold),
        catalog.len() <= usize::MAX,
        points.len() <= usize::MAX,
        is_route::<P, D>(catalog, points, threshold, route),
    ensures
        is_path(graph, path),
        route_of(graph, path) == route,
{
    lemma_graph_of::<P, D>(graph, catalog, points, threshold);
    let path = Seq::new(
        route.len(),
        |point: int|
            (choose|vertex: int| #[trigger]
                graph.in_range(point, vertex) && graph.cut_of(vertex) == route[point]) as usize,
    );
    assert forall|point: int| 0 <= point < path.len() implies graph.in_range(
        point,
        #[trigger] path[point] as int,
    ) && graph.cut_of(path[point] as int) == route[point] by {
        assert(in_layer::<P, D>(catalog, points, threshold, point, route[point]));
        let vertex = choose|vertex: int| #[trigger]
            graph.in_range(point, vertex) && graph.cut_of(vertex) == route[point];
        assert(graph.in_range(point, vertex));
        assert(graph.edges@[point].1 <= graph.vertexes@.len());
        assert(graph.vertexes.len() == graph.vertexes@.len());
    }
    assert forall|layer: int| 0 <= layer < path.len() - 1 implies graph.cut_of(
        #[trigger] path[layer] as int,
    ) <= graph.cut_of(path[layer + 1] as int) by {
        assert(graph.in_range(layer + 1, path[layer + 1] as int));
        assert(route[layer] <= route[layer + 1]);
    }
    assert(route_of(graph, path) =~= route);
    path
}

/// What a search through the layered graph says about paths, said about routes.
pub proof fn lemma_cheapest_route<P: PolySplit<D>, D: Copy>(
    graph: Graph<D>,
    catalog: Seq<CutPoint<P>>,
    points: Seq<P>,
    threshold: Option<D>,
    path: Seq<usize>,
    valid: spec_fn(D) -> bool,
)
    requires
        is_graph_of::<P, D>(graph, catalog, points, threshold),
        catalog.len() <= usize::MAX,
        points.len() <= usize::MAX,
        is_path(graph, path),
        path.len() >= 1,
        ordered_on::<P, D>(valid),
        distances_valid::<P, D>(catalog, points, valid),
        premises::<P, D>(graph, valid) ==> cheapest::<P, D>(graph, path),
    ensures
        is_cheapest_route::<P, D>(catalog, points, threshold, route_of(graph, path)),
{
    lemma_graph_of::<P, D>(graph, catalog, points, threshold);
    assert forall|vertex: int| 0 <= vertex < graph.vertexes@.len() implies valid(
        (#[trigger] graph.vertexes@[vertex]).distance_to,
    ) by {
        assert(vertex_fits::<P, D>(
            graph.vertexes@[vertex],
            catalog,
            points,
            threshold,
            graph.layer_of(vertex),
        ));
        assert(graph.in_range(graph.layer_of(vertex), vertex));
        lemma_scan_start_bounds::<P, D>(catalog, points, threshold, graph.layer_of(vertex));
        assert(valid(reach::<P, D>(catalog, points, graph.layer_of(vertex), graph.cut_of(vertex))));
    }
    assert(premises::<P, D>(graph, valid));
    lemma_costs_agree::<P, D>(graph, catalog, points, threshold, path);
    assert forall|other: Seq<int>| #[trigger]
        is_route::<P, D>(catalog, points, threshold, other) implies at_most::<P, D>(
        route_cost::<P, D>(catalog, points, route_of(graph, path)),
        route_cost::<P, D>(catalog, points, other),
    ) by {
        let other_path = lemma_route_gives_path::<P, D>(graph, catalog, points, threshold, other);
        lemma_costs_agree::<P, D>(graph, catalog, points, threshold, other_path);
        assert(is_path(graph, other_path));
    }
}


/// Along a route through a sorted catalog the chosen cut points advance: each lies
/// at or behind the one before it, by its segment and by its place on the segment.
pub proof fn lemma_route_advances<P: PolySplit<D>, D: Copy>(
    catalog: Seq<CutPoint<P>>,
    points: Seq<P>,
    threshold: Option<D>,
    route: Seq<int>,
)
    requires
        is_route::<P, D>(catalog, points, threshold, route),
        sorted(catalog),
    ensures
        advancing(catalog, route),
        forall|point: int|
            0 <= point < route.len() - 1 ==> catalog[#[trigger] route[point]].at_or_before(
                catalog[route[point + 1]],
            ),
{
    assert forall|point: int| 0 <= point < route.len() implies 0 <= #[trigger] route[point]
        < catalog.len() by {
        lemma_scan_start_bounds::<P, D>(catalog, points, threshold, point);
        assert(in_layer::<P, D>(catalog, points, threshold, point, route[point]));
    }
    assert forall|point: int| 0 <= point < route.len() - 1 implies catalog[#[trigger] route[point]].at_or_before(
        catalog[route[point + 1]],
    ) by {
        assert(route[point] <= route[point + 1]);
        assert(0 <= route[point + 1] < catalog.len());
    }
}

/// Where one route has a smaller total distance than every other, a cheapest route
/// is that route.
pub proof fn lemma_only_cheapest<P: PolySplit<D>, D: Copy>(
    catalog: Seq<CutPoint<P>>,
    points: Seq<P>,
    threshold: Option<D>,
    best: Seq<int>,
    route: Seq<int>,
)
    requires
        is_route::<P, D>(catalog, points, threshold, best),
        forall|other: Seq<int>| #[trigger]
            is_route::<P, D>(catalog, points, threshold, other) && other != best ==> P::exceeds(
                route_cost::<P, D>(catalog, points, other),
                route_cost::<P, D>(catalog, points, best),
            ),
        is_route::<P, D>(catalog, points, threshold, route),
        is_cheapest_route::<P, D>(catalog, points, threshold, route),
    ensures
        route == best,
{
}

/// A reference point that is further than the threshold from every entry of the
/// catalog has no cut point offered to it.
pub proof fn lemma_beyond_threshold_is_far<P: PolySplit<D>, D: Copy>(
    catalog: Seq<CutPoint<P>>,
    points: Seq<P>,
    limit: D,
    point: int,
)
    requires
        forall|cut: int|
            0 <= cut < catalog.len() ==> P::exceeds(
                #[trigger] reach::<P, D>(catalog, points, point, cut),
                limit,
            ),
    ensures
        far_away::<P, D>(catalog, points, Some(limit), point),
{
    assert forall|cut: int| !in_layer::<P, D>(catalog, points, Some(limit), point, cut) by {
        lemma_scan_start_bounds::<P, D>(catalog, points, Some(limit), point);
        if in_layer::<P, D>(catalog, points, Some(limit), point, cut) {
            assert(P::exceeds(reach::<P, D>(catalog, points, point, cut), limit));
        }
    }
}

} // verus!
