//! The layered graph of a split: one layer for each reference point, holding the cut
//! points that the reference point may be attached to.
use vstd::prelude::*;
use crate::catalog::CutPoint;
use crate::error::{PolySplitError, PolySplitErrorKind};
use crate::metric::{is_within, within, PolySplit};

verus! {

/// A cut point offered to a reference point.
pub struct Vertex<D> {
    /// The reference point, and so the layer of the vertex.
    pub point_index: usize,
    /// The cut point, as an index into the catalog.
    pub cut_point_index: usize,
    /// The distance from the reference point to the cut point.
    pub distance_to: D,
}

/// The vertices of all layers, layer after layer, and for each layer the range of
/// indices that its vertices have.
pub struct Graph<D> {
    /// The vertices of the first layer, then those of the second, and so on.
    pub vertexes: Vec<Vertex<D>>,
    /// For each layer the index of its first vertex and the index behind its last.
    pub edges: Vec<(usize, usize)>,
}

impl<D> Graph<D> {
    /// The number of layers.
    pub open spec fn layers(self) -> int {
        self.edges@.len() as int
    }

    /// The layer in which a vertex says that it lies.
    pub open spec fn layer_of(self, vertex: int) -> int {
        self.vertexes@[vertex].point_index as int
    }

    /// The catalog entry that a vertex stands for.
    pub open spec fn cut_of(self, vertex: int) -> int {
        self.vertexes@[vertex].cut_point_index as int
    }

    /// Whether a vertex lies in the range of a layer.
    pub open spec fn in_range(self, layer: int, vertex: int) -> bool {
        &&& 0 <= layer < self.edges@.len()
        &&& self.edges@[layer].0 <= vertex < self.edges@[layer].1
    }

    /// A graph is well formed when the range of every layer lies inside the list of
    /// vertices, every vertex lies in the range of the layer that it names, and in
    /// no other.
    pub open spec fn wf(self) -> bool {
        &&& forall|layer: int|
            0 <= layer < self.edges@.len() ==> (#[trigger] self.edges@[layer]).0
                <= self.edges@[layer].1 <= self.vertexes@.len()
        &&& forall|vertex: int|
            0 <= vertex < self.vertexes@.len() ==> self.in_range(
                #[trigger] self.layer_of(vertex),
                vertex,
            )
        &&& forall|layer: int, vertex: int| #[trigger]
            self.in_range(layer, vertex) ==> self.layer_of(vertex) == layer
    }
}

/// The distance from reference point `point` to entry `cut` of the catalog.
pub open spec fn reach<P: PolySplit<D>, D: Copy>(
    catalog: Seq<CutPoint<P>>,
    points: Seq<P>,
    point: int,
    cut: int,
) -> D {
    points[point].point_distance(&catalog[cut].cut_point)
}

/// Whether entry `cut` of the catalog is close enough to reference point `point`.
pub open spec fn reachable<P: PolySplit<D>, D: Copy>(
    catalog: Seq<CutPoint<P>>,
    points: Seq<P>,
    threshold: Option<D>,
    point: int,
    cut: int,
) -> bool {
    within::<P, D>(reach::<P, D>(catalog, points, point, cut), threshold)
}

/// The first entry of the catalog at or after `from` that is close enough to
/// reference point `point`; the length of the catalog if there is none.
pub open spec fn first_reachable<P: PolySplit<D>, D: Copy>(
    catalog: Seq<CutPoint<P>>,
    points: Seq<P>,
    threshold: Option<D>,
    point: int,
    from: int,
) -> int
    decreases catalog.len() - from,
{
    if from >= catalog.len() {
        catalog.len() as int
    } else if reachable::<P, D>(catalog, points, threshold, point, from) {
        from
    } else {
        first_reachable::<P, D>(catalog, points, threshold, point, from + 1)
    }
}

/// Where in the catalog the search for reference point `point` starts: at the first
/// entry that was close enough to the reference point before it. Positions advance
/// along the polyline, so nothing before that entry can be used any more.
pub open spec fn scan_start<P: PolySplit<D>, D: Copy>(
    catalog: Seq<CutPoint<P>>,
    points: Seq<P>,
    threshold: Option<D>,
    point: int,
) -> int
    decreases point,
{
    if point <= 0 {
        0
    } else {
        let first = first_reachable::<P, D>(
            catalog,
            points,
            threshold,
            point - 1,
            scan_start::<P, D>(catalog, points, threshold, point - 1),
        );
        if first < catalog.len() {
            first
        } else {
            0
        }
    }
}

/// Whether entry `cut` of the catalog is offered to reference point `point`.
pub open spec fn in_layer<P: PolySplit<D>, D: Copy>(
    catalog: Seq<CutPoint<P>>,
    points: Seq<P>,
    threshold: Option<D>,
    point: int,
    cut: int,
) -> bool {
    &&& scan_start::<P, D>(catalog, points, threshold, point) <= cut < catalog.len()
    &&& reachable::<P, D>(catalog, points, threshold, point, cut)
}

/// The vertices of layer `point` for the catalog entries before `upto`, in the order
/// of the catalog.
pub open spec fn layer_prefix<P: PolySplit<D>, D: Copy>(
    catalog: Seq<CutPoint<P>>,
    points: Seq<P>,
    threshold: Option<D>,
    point: int,
    upto: int,
) -> Seq<Vertex<D>>
    decreases upto,
{
    if upto <= 0 {
        Seq::empty()
    } else {
        let before = layer_prefix::<P, D>(catalog, points, threshold, point, upto - 1);
        if in_layer::<P, D>(catalog, points, threshold, point, upto - 1) {
            before.push(
                Vertex {
                    point_index: point as usize,
                    cut_point_index: (upto - 1) as usize,
                    distance_to: reach::<P, D>(catalog, points, point, upto - 1),
                },
            )
        } else {
            before
        }
    }
}

/// The vertices of layer `point`.
pub open spec fn layer<P: PolySplit<D>, D: Copy>(
    catalog: Seq<CutPoint<P>>,
    points: Seq<P>,
    threshold: Option<D>,
    point: int,
) -> Seq<Vertex<D>> {
    layer_prefix::<P, D>(catalog, points, threshold, point, catalog.len() as int)
}

/// The vertices of the first `layers` layers, one layer after the other.
pub open spec fn layers_upto<P: PolySplit<D>, D: Copy>(
    catalog: Seq<CutPoint<P>>,
    points: Seq<P>,
    threshold: Option<D>,
    layers: int,
) -> Seq<Vertex<D>>
    decreases layers,
{
    if layers <= 0 {
        Seq::empty()
    } else {
        layers_upto::<P, D>(catalog, points, threshold, layers - 1) + layer::<P, D>(
            catalog,
            points,
            threshold,
            layers - 1,
        )
    }
}

/// The range of indices that the vertices of layer `point` have among all vertices.
pub open spec fn layer_range<P: PolySplit<D>, D: Copy>(
    catalog: Seq<CutPoint<P>>,
    points: Seq<P>,
    threshold: Option<D>,
    point: int,
) -> (usize, usize) {
    (
        layers_upto::<P, D>(catalog, points, threshold, point).len() as usize,
        layers_upto::<P, D>(catalog, points, threshold, point + 1).len() as usize,
    )
}

/// Whether the graph is the layered graph of the catalog and the reference points.
pub open spec fn is_graph_of<P: PolySplit<D>, D: Copy>(
    graph: Graph<D>,
    catalog: Seq<CutPoint<P>>,
    points: Seq<P>,
    threshold: Option<D>,
) -> bool {
    &&& graph.vertexes@ == layers_upto::<P, D>(catalog, points, threshold, points.len() as int)
    &&& graph.edges@.len() == points.len()
    &&& forall|point: int|
        0 <= point < points.len() ==> #[trigger] graph.edges@[point] == layer_range::<P, D>(
            catalog,
            points,
            threshold,
            point,
        )
}

/// Builds the layered graph. A reference point that no cut point is offered to stops
/// the construction: the first such point is reported as too far away.
pub fn build_graph<P: PolySplit<D>, D: Copy>(
    cut_points: &Vec<CutPoint<P>>,
    points: &[P],
    distance_threshold: Option<D>,
) -> (result: Result<Graph<D>, PolySplitError>)
    ensures
        match result {
            Ok(graph) => {
                &&& is_graph_of::<P, D>(graph, cut_points@, points@, distance_threshold)
                &&& graph.wf()
                &&& forall|point: int|
                    0 <= point < points.len() ==> (#[trigger] layer::<P, D>(
                        cut_points@,
                        points@,
                        distance_threshold,
                        point,
                    )).len() > 0
            },
            Err(e) => {
                &&& e.wf()
                &&& e.kind == PolySplitErrorKind::PointFarAway
                &&& e.point_index matches Some(far)
                &&& far < points.len()
                &&& layer::<P, D>(cut_points@, points@, distance_threshold, far as int).len() == 0
                &&& forall|point: int|
                    0 <= point < far ==> (#[trigger] layer::<P, D>(
                        cut_points@,
                        points@,
                        distance_threshold,
                        point,
                    )).len() > 0
            },
        },
{
    let mut vertexes: Vec<Vertex<D>> = Vec::new();
    let mut edges: Vec<(usize, usize)> = Vec::new();
    let mut last_reachable_cut_point_index: usize = 0;
    let mut point_index: usize = 0;
    while point_index < points.len()
        invariant
            point_index <= points.len(),
            last_reachable_cut_point_index <= cut_points.len(),
            last_reachable_cut_point_index == scan_start::<P, D>(
                cut_points@,
                points@,
                distance_threshold,
                point_index as int,
            ),
            vertexes@ == layers_upto::<P, D>(
                cut_points@,
                points@,
                distance_threshold,
                point_index as int,
            ),
            edges@.len() == point_index,
            forall|point: int|
                0 <= point < point_index ==> #[trigger] edges@[point] == layer_range::<P, D>(
                    cut_points@,
                    points@,
                    distance_threshold,
                    point,
                ),
            forall|point: int|
                0 <= point < point_index ==> (#[trigger] layer::<P, D>(
                    cut_points@,
                    points@,
                    distance_threshold,
                    point,
                )).len() > 0,
        decreases points.len() - point_index,
    {
        let start_position = vertexes.len();
        let mut first_match_cut_point_index: Option<usize> = None;
        let mut cut_point_index: usize = last_reachable_cut_point_index;
        proof {
            lemma_layer_prefix_before_start::<P, D>(
                cut_points@,
                points@,
                distance_threshold,
                point_index as int,
                cut_point_index as int,
            );
        }
        while cut_point_index < cut_points.len()
            invariant
                point_index < points.len(),
                start_position == layers_upto::<P, D>(
                    cut_points@,
                    points@,
                    distance_threshold,
                    point_index as int,
                ).len(),
                last_reachable_cut_point_index == scan_start::<P, D>(
                    cut_points@,
                    points@,
                    distance_threshold,
                    point_index as int,
                ),
                last_reachable_cut_point_index <= cut_point_index,
                cut_point_index <= cut_points.len(),
                vertexes@ == layers_upto::<P, D>(
                    cut_points@,
                    points@,
                    distance_threshold,
                    point_index as int,
                ) + layer_prefix::<P, D>(
                    cut_points@,
                    points@,
                    distance_threshold,
                    point_index as int,
                    cut_point_index as int,
                ),
                first_match_cut_point_index is None ==> vertexes.len() == start_position
                    && first_reachable::<P, D>(
                    cut_points@,
                    points@,
                    distance_threshold,
                    point_index as int,
                    last_reachable_cut_point_index as int,
                ) == first_reachable::<P, D>(
                    cut_points@,
                    points@,
                    distance_threshold,
                    point_index as int,
                    cut_point_index as int,
                ),
                first_match_cut_point_index matches Some(first) ==> vertexes.len()
                    > start_position && first < cut_points.len() && first
                    == first_reachable::<P, D>(
                    cut_points@,
                    points@,
                    distance_threshold,
                    point_index as int,
                    last_reachable_cut_point_index as int,
                ),
            decreases cut_points.len() - cut_point_index,
        {
            let distance_to = points[point_index].distance_to_point(
                &cut_points[cut_point_index].cut_point,
            );
            if is_within::<P, D>(distance_to, distance_threshold) {
                if first_match_cut_point_index.is_none() {
                    first_match_cut_point_index = Some(cut_point_index);
                }
                vertexes.push(Vertex { point_index, cut_point_index, distance_to });
            }
            cut_point_index = cut_point_index + 1;
        }
        let end_position = vertexes.len();
        proof {
            assert(layers_upto::<P, D>(
                cut_points@,
                points@,
                distance_threshold,
                point_index + 1,
            ) == vertexes@);
        }
        if start_position == end_position {
            return Err(PolySplitError::far_away(point_index));
        }
        edges.push((start_position, end_position));
        last_reachable_cut_point_index =
        match first_match_cut_point_index {
            Some(first) => first,
            None => 0,
        };
        point_index = point_index + 1;
    }
    let graph = Graph { vertexes, edges };
    proof {
        assert(cut_points.len() == cut_points@.len());
        lemma_graph_of::<P, D>(graph, cut_points@, points@, distance_threshold);
    }
    Ok(graph)
}

/// No vertex of a layer stands for a catalog entry before the start of its scan.
pub proof fn lemma_layer_prefix_before_start<P: PolySplit<D>, D: Copy>(
    catalog: Seq<CutPoint<P>>,
    points: Seq<P>,
    threshold: Option<D>,
    point: int,
    upto: int,
)
    requires
        upto <= scan_start::<P, D>(catalog, points, threshold, point),
    ensures
        layer_prefix::<P, D>(catalog, points, threshold, point, upto) == Seq::<Vertex<D>>::empty(),
    decreases upto,
{
    if upto > 0 {
        lemma_layer_prefix_before_start::<P, D>(catalog, points, threshold, point, upto - 1);
    }
}


/// Whether a vertex is what layer `point` holds for a catalog entry offered to it.
pub open spec fn vertex_fits<P: PolySplit<D>, D: Copy>(
    vertex: Vertex<D>,
    catalog: Seq<CutPoint<P>>,
    points: Seq<P>,
    threshold: Option<D>,
    point: int,
) -> bool {
    &&& vertex.point_index == point
    &&& in_layer::<P, D>(catalog, points, threshold, point, vertex.cut_point_index as int)
    &&& vertex.distance_to == reach::<P, D>(catalog, points, point, vertex.cut_point_index as int)
}

/// The vertices of a layer stand for the catalog entries offered to its reference
/// point, each of them once and in the order of the catalog.
pub proof fn lemma_layer_prefix<P: PolySplit<D>, D: Copy>(
    catalog: Seq<CutPoint<P>>,
    points: Seq<P>,
    threshold: Option<D>,
    point: int,
    upto: int,
)
    requires
        0 <= point <= usize::MAX,
        upto <= catalog.len() <= usize::MAX,
    ensures
        forall|j: int|
            0 <= j < layer_prefix::<P, D>(catalog, points, threshold, point, upto).len()
                ==> vertex_fits::<P, D>(
                #[trigger] layer_prefix::<P, D>(catalog, points, threshold, point, upto)[j],
                catalog,
                points,
                threshold,
                point,
            ) && layer_prefix::<P, D>(catalog, points, threshold, point, upto)[j].cut_point_index
                < upto,
        forall|cut: int|
            0 <= cut < upto && in_layer::<P, D>(catalog, points, threshold, point, cut)
                ==> exists|j: int|
                0 <= j < layer_prefix::<P, D>(catalog, points, threshold, point, upto).len()
                    && (#[trigger] layer_prefix::<P, D>(
                    catalog,
                    points,
                    threshold,
                    point,
                    upto,
                )[j]).cut_point_index == cut,
    decreases upto,
{
    if upto > 0 {
        lemma_layer_prefix::<P, D>(catalog, points, threshold, point, upto - 1);
        let before = layer_prefix::<P, D>(catalog, points, threshold, point, upto - 1);
        let now = layer_prefix::<P, D>(catalog, points, threshold, point, upto);
        assert forall|cut: int|
            0 <= cut < upto && in_layer::<P, D>(
                catalog,
                points,
                threshold,
                point,
                cut,
            ) implies exists|j: int|
            0 <= j < now.len() && (#[trigger] now[j]).cut_point_index == cut by {
            if cut < upto - 1 {
                let j = choose|j: int|
                    0 <= j < before.len() && (#[trigger] before[j]).cut_point_index == cut;
                assert(now[j] == before[j]);
            } else {
                assert(now[now.len() - 1].cut_point_index == cut);
            }
        }
    }
}

/// A search through the catalog ends at or after the place where it started, and
/// inside the catalog or at its end.
pub proof fn lemma_first_reachable_bounds<P: PolySplit<D>, D: Copy>(
    catalog: Seq<CutPoint<P>>,
    points: Seq<P>,
    threshold: Option<D>,
    point: int,
    from: int,
)
    requires
        0 <= from <= catalog.len(),
    ensures
        from <= first_reachable::<P, D>(catalog, points, threshold, point, from) <= catalog.len(),
    decreases catalog.len() - from,
{
    if from < catalog.len() && !reachable::<P, D>(catalog, points, threshold, point, from) {
        lemma_first_reachable_bounds::<P, D>(catalog, points, threshold, point, from + 1);
    }
}

/// A search through the catalog stops at the first entry that is close enough: at
/// or before every such entry that lies at or after the place where it started.
pub proof fn lemma_first_reachable_found<P: PolySplit<D>, D: Copy>(
    catalog: Seq<CutPoint<P>>,
    points: Seq<P>,
    threshold: Option<D>,
    point: int,
    from: int,
    cut: int,
)
    requires
        0 <= from <= cut < catalog.len(),
        reachable::<P, D>(catalog, points, threshold, point, cut),
    ensures
        from <= first_reachable::<P, D>(catalog, points, threshold, point, from) <= cut,
        reachable::<P, D>(
            catalog,
            points,
            threshold,
            point,
            first_reachable::<P, D>(catalog, points, threshold, point, from),
        ),
    decreases cut - from,
{
    if !reachable::<P, D>(catalog, points, threshold, point, from) {
        lemma_first_reachable_found::<P, D>(catalog, points, threshold, point, from + 1, cut);
    }
}

/// The search for a reference point starts inside the catalog or at its end.
pub proof fn lemma_scan_start_bounds<P: PolySplit<D>, D: Copy>(
    catalog: Seq<CutPoint<P>>,
    points: Seq<P>,
    threshold: Option<D>,
    point: int,
)
    ensures
        0 <= scan_start::<P, D>(catalog, points, threshold, point) <= catalog.len(),
    decreases point,
{
    if point > 0 {
        lemma_scan_start_bounds::<P, D>(catalog, points, threshold, point - 1);
        lemma_first_reachable_bounds::<P, D>(
            catalog,
            points,
            threshold,
            point - 1,
            scan_start::<P, D>(catalog, points, threshold, point - 1),
        );
    }
}

/// The vertices of a layer follow the catalog: each stands for a later entry than
/// the one before it.
pub proof fn lemma_layer_ascending<P: PolySplit<D>, D: Copy>(
    catalog: Seq<CutPoint<P>>,
    points: Seq<P>,
    threshold: Option<D>,
    point: int,
    upto: int,
)
    requires
        0 <= point <= usize::MAX,
        upto <= catalog.len() <= usize::MAX,
    ensures
        forall|i: int, j: int|
            0 <= i < j < layer_prefix::<P, D>(catalog, points, threshold, point, upto).len() ==> (
            #[trigger] layer_prefix::<P, D>(
                catalog,
                points,
                threshold,
                point,
                upto,
            )[i]).cut_point_index < (#[trigger] layer_prefix::<P, D>(
                catalog,
                points,
                threshold,
                point,
                upto,
            )[j]).cut_point_index,
    decreases upto,
{
    if upto > 0 {
        lemma_layer_ascending::<P, D>(catalog, points, threshold, point, upto - 1);
        lemma_layer_prefix::<P, D>(catalog, points, threshold, point, upto - 1);
        let before = layer_prefix::<P, D>(catalog, points, threshold, point, upto - 1);
        let now = layer_prefix::<P, D>(catalog, points, threshold, point, upto);
        assert forall|i: int, j: int| 0 <= i < j < now.len() implies (#[trigger] now[i]).cut_point_index
            < (#[trigger] now[j]).cut_point_index by {
            assert(now[i] == before[i]);
            if j < before.len() {
                assert(now[j] == before[j]);
            } else {
                assert(before[i].cut_point_index < upto - 1);
            }
        }
    } else {
        assert(layer_prefix::<P, D>(catalog, points, threshold, point, upto).len() == 0);
    }
}

/// Where the vertices of a layer stand among the vertices of all layers.
pub proof fn lemma_layers_upto<P: PolySplit<D>, D: Copy>(
    catalog: Seq<CutPoint<P>>,
    points: Seq<P>,
    threshold: Option<D>,
    layers: int,
    point: int,
)
    requires
        0 <= point < layers,
    ensures
        layers_upto::<P, D>(catalog, points, threshold, point).len() + layer::<P, D>(
            catalog,
            points,
            threshold,
            point,
        ).len() == layers_upto::<P, D>(catalog, points, threshold, point + 1).len(),
        layers_upto::<P, D>(catalog, points, threshold, point + 1).len() <= layers_upto::<P, D>(
            catalog,
            points,
            threshold,
            layers,
        ).len(),
        forall|j: int|
            0 <= j < layer::<P, D>(catalog, points, threshold, point).len() ==> layers_upto::<P, D>(
                catalog,
                points,
                threshold,
                layers,
            )[layers_upto::<P, D>(catalog, points, threshold, point).len() + j] == #[trigger] layer::<
                P,
                D,
            >(catalog, points, threshold, point)[j],
    decreases layers,
{
    if point + 1 < layers {
        lemma_layers_upto::<P, D>(catalog, points, threshold, layers - 1, point);
    }
}

/// Every vertex lies in the range of some layer.
pub proof fn lemma_layers_cover<P: PolySplit<D>, D: Copy>(
    catalog: Seq<CutPoint<P>>,
    points: Seq<P>,
    threshold: Option<D>,
    layers: int,
    vertex: int,
) -> (point: int)
    requires
        0 <= vertex < layers_upto::<P, D>(catalog, points, threshold, layers).len(),
    ensures
        0 <= point < layers,
        layers_upto::<P, D>(catalog, points, threshold, point).len() <= vertex < layers_upto::<
            P,
            D,
        >(catalog, points, threshold, point + 1).len(),
    decreases layers,
{
    if layers <= 0 {
        0
    } else if vertex >= layers_upto::<P, D>(catalog, points, threshold, layers - 1).len() {
        layers - 1
    } else {
        lemma_layers_cover::<P, D>(catalog, points, threshold, layers - 1, vertex)
    }
}

/// The layered graph of a catalog is well formed, its vertices are what the layers
/// hold, and every catalog entry offered to a reference point has its vertex.
pub proof fn lemma_graph_of<P: PolySplit<D>, D: Copy>(
    graph: Graph<D>,
    catalog: Seq<CutPoint<P>>,
    points: Seq<P>,
    threshold: Option<D>,
)
    requires
        is_graph_of::<P, D>(graph, catalog, points, threshold),
        catalog.len() <= usize::MAX,
        points.len() <= usize::MAX,
    ensures
        graph.wf(),
        graph.layers() == points.len(),
        forall|vertex: int|
            0 <= vertex < graph.vertexes@.len() ==> vertex_fits::<P, D>(
                #[trigger] graph.vertexes@[vertex],
                catalog,
                points,
                threshold,
                graph.layer_of(vertex),
            ),
        forall|point: int, cut: int|
            0 <= point < points.len() && #[trigger] in_layer::<P, D>(
                catalog,
                points,
                threshold,
                point,
                cut,
            ) ==> exists|vertex: int| #[trigger]
                graph.in_range(point, vertex) && graph.cut_of(vertex) == cut,
{
    let all = layers_upto::<P, D>(catalog, points, threshold, points.len() as int);
    let layers = points.len() as int;
    assert(graph.vertexes.len() == all.len());
    assert forall|point: int| 0 <= point < layers implies (#[trigger] graph.edges@[point]).0
        == layers_upto::<P, D>(catalog, points, threshold, point).len() && graph.edges@[point].1
        == layers_upto::<P, D>(catalog, points, threshold, point + 1).len()
        && graph.edges@[point].0 <= graph.edges@[point].1 <= all.len() by {
        lemma_layers_upto::<P, D>(catalog, points, threshold, layers, point);
        if point > 0 {
            lemma_layers_upto::<P, D>(catalog, points, threshold, layers, point - 1);
        }
        assert(graph.edges@[point] == layer_range::<P, D>(catalog, points, threshold, point));
    }
    assert forall|point: int, vertex: int| #[trigger]
        graph.in_range(point, vertex) implies graph.layer_of(vertex) == point && vertex_fits::<
        P,
        D,
    >(graph.vertexes@[vertex], catalog, points, threshold, point) by {
        lemma_layers_upto::<P, D>(catalog, points, threshold, layers, point);
        lemma_layer_prefix::<P, D>(catalog, points, threshold, point, catalog.len() as int);
        let start = layers_upto::<P, D>(catalog, points, threshold, point).len();
        assert(graph.vertexes@[vertex] == layer::<P, D>(catalog, points, threshold, point)[vertex
            - start]);
    }
    assert forall|vertex: int| 0 <= vertex < graph.vertexes@.len() implies graph.in_range(
        #[trigger] graph.layer_of(vertex),
        vertex,
    ) by {
        let point = lemma_layers_cover::<P, D>(catalog, points, threshold, layers, vertex);
        assert(graph.in_range(point, vertex));
    }
    assert forall|point: int, cut: int|
        0 <= point < points.len() && #[trigger] in_layer::<P, D>(
            catalog,
            points,
            threshold,
            point,
            cut,
        ) implies exists|vertex: int| #[trigger]
        graph.in_range(point, vertex) && graph.cut_of(vertex) == cut by {
        lemma_layers_upto::<P, D>(catalog, points, threshold, layers, point);
        lemma_layer_prefix::<P, D>(catalog, points, threshold, point, catalog.len() as int);
        lemma_scan_start_bounds::<P, D>(catalog, points, threshold, point);
        let members = layer::<P, D>(catalog, points, threshold, point);
        let j = choose|j: int| 0 <= j < members.len() && (#[trigger] members[j]).cut_point_index == cut;
        let start = layers_upto::<P, D>(catalog, points, threshold, point).len();
        assert(graph.vertexes@[start + j] == members[j]);
        assert(graph.in_range(point, start + j));
    }
    assert forall|vertex: int| 0 <= vertex < graph.vertexes@.len() implies vertex_fits::<P, D>(
        #[trigger] graph.vertexes@[vertex],
        catalog,
        points,
        threshold,
        graph.layer_of(vertex),
    ) by {
        assert(graph.in_range(graph.layer_of(vertex), vertex));
    }
}

} // verus!
