use polysplit::assemble::{build_piece, build_segments};
use polysplit::catalog::{collect_cut_points, insert_cut, CutPoint};
use polysplit::graph::{build_graph, Graph, Vertex};
use polysplit::metric::is_within;
use polysplit::path::find_path;
use polysplit::queue::{is_first, MinQueue, State};
use polysplit::{
    polyline_split, CutRatioResult, DistanceToSegmentResult, PolySplit, PolySplitError,
    PolySplitErrorKind,
};

/// A mark on a straight road, with the length of road between two marks as distance.
#[derive(Clone, Copy, Debug, PartialEq, Eq)]
struct Mark(i64);

impl Mark {
    fn gap(&self, other: &Mark) -> u64 {
        (self.0 - other.0).unsigned_abs()
    }

    fn land(&self, a: &Mark, b: &Mark) -> DistanceToSegmentResult<Mark, u64> {
        if a.0 == b.0 || self.0 <= a.0 {
            DistanceToSegmentResult {
                cut_ratio: CutRatioResult::Begin,
                cut_point: *a,
                distance: self.gap(a),
            }
        } else if self.0 >= b.0 {
            DistanceToSegmentResult {
                cut_ratio: CutRatioResult::End,
                cut_point: *b,
                distance: self.gap(b),
            }
        } else {
            DistanceToSegmentResult {
                cut_ratio: CutRatioResult::Medium((self.0 - a.0) as u64),
                cut_point: *self,
                distance: 0,
            }
        }
    }
}

impl PolySplit<u64> for Mark {
    fn point_distance(&self, point: &Mark) -> u64 {
        self.gap(point)
    }

    fn projection(&self, segment: (&Mark, &Mark)) -> DistanceToSegmentResult<Mark, u64> {
        self.land(segment.0, segment.1)
    }

    fn exceeds(distance: u64, limit: u64) -> bool {
        distance > limit
    }

    fn total(first: u64, second: u64) -> u64 {
        first.saturating_add(second)
    }

    fn distance_to_point(&self, point: &Mark) -> u64 {
        self.gap(point)
    }

    fn distance_to_segment(&self, segment: (&Mark, &Mark)) -> DistanceToSegmentResult<Mark, u64> {
        self.land(segment.0, segment.1)
    }

    fn is_farther(distance: u64, limit: u64) -> bool {
        distance > limit
    }

    fn add_distances(first: u64, second: u64) -> u64 {
        first.saturating_add(second)
    }
}

/// A mark whose distances exceed themselves: the comparison is not strict.
#[derive(Clone, Copy, Debug, PartialEq, Eq)]
struct Loose(i64);

impl PolySplit<u64> for Loose {
    fn point_distance(&self, point: &Loose) -> u64 {
        Mark(self.0).gap(&Mark(point.0))
    }

    fn projection(&self, segment: (&Loose, &Loose)) -> DistanceToSegmentResult<Loose, u64> {
        let found = Mark(self.0).land(&Mark(segment.0.0), &Mark(segment.1.0));
        DistanceToSegmentResult {
            cut_ratio: found.cut_ratio,
            cut_point: Loose(found.cut_point.0),
            distance: found.distance,
        }
    }

    fn exceeds(distance: u64, limit: u64) -> bool {
        distance >= limit
    }

    fn total(first: u64, second: u64) -> u64 {
        first.saturating_add(second)
    }

    fn distance_to_point(&self, point: &Loose) -> u64 {
        self.point_distance(point)
    }

    fn distance_to_segment(&self, segment: (&Loose, &Loose)) -> DistanceToSegmentResult<Loose, u64> {
        self.projection(segment)
    }

    fn is_farther(distance: u64, limit: u64) -> bool {
        distance >= limit
    }

    fn add_distances(first: u64, second: u64) -> u64 {
        first.saturating_add(second)
    }
}

fn marks(values: &[i64]) -> Vec<Mark> {
    values.iter().map(|v| Mark(*v)).collect()
}

fn cut(segment_index: usize, cut_ratio: CutRatioResult, at: i64) -> CutPoint<Mark> {
    CutPoint { segment_index, cut_ratio, cut_point: Mark(at) }
}

fn shape(catalog: &Vec<CutPoint<Mark>>) -> Vec<(usize, CutRatioResult, i64)> {
    catalog.iter().map(|c| (c.segment_index, c.cut_ratio, c.cut_point.0)).collect()
}

fn lay(vertexes: &Vec<Vertex<u64>>) -> Vec<(usize, usize, u64)> {
    vertexes.iter().map(|v| (v.point_index, v.cut_point_index, v.distance_to)).collect()
}

fn values(segments: &Vec<Vec<Mark>>) -> Vec<Vec<i64>> {
    segments.iter().map(|s| s.iter().map(|m| m.0).collect()).collect()
}

#[test]
fn cut_ratios_follow_the_segment() {
    let begin = CutRatioResult::Begin;
    let end = CutRatioResult::End;
    assert!(begin.is_at_or_before(&begin));
    assert!(begin.is_at_or_before(&CutRatioResult::Medium(0)));
    assert!(begin.is_at_or_before(&end));
    assert!(!CutRatioResult::Medium(0).is_at_or_before(&begin));
    assert!(CutRatioResult::Medium(3).is_at_or_before(&CutRatioResult::Medium(5)));
    assert!(CutRatioResult::Medium(5).is_at_or_before(&CutRatioResult::Medium(5)));
    assert!(!CutRatioResult::Medium(6).is_at_or_before(&CutRatioResult::Medium(5)));
    assert!(CutRatioResult::Medium(u64::MAX).is_at_or_before(&end));
    assert!(end.is_at_or_before(&end));
    assert!(!end.is_at_or_before(&CutRatioResult::Medium(u64::MAX)));
    assert!(!end.is_at_or_before(&begin));
    assert!(begin < CutRatioResult::Medium(0));
    assert!(CutRatioResult::Medium(u64::MAX) < end);
}

#[test]
fn cut_points_follow_the_polyline() {
    let early = cut(0, CutRatioResult::End, 10);
    let late = cut(1, CutRatioResult::Begin, 10);
    assert!(early.is_at_or_before(&late));
    assert!(!late.is_at_or_before(&early));
    let inside = cut(1, CutRatioResult::Medium(4), 14);
    assert!(late.is_at_or_before(&inside));
    assert!(!inside.is_at_or_before(&late));
    assert!(inside.is_at_or_before(&inside));
}

#[test]
fn threshold_lets_pass_what_does_not_exceed_it() {
    assert!(is_within::<Mark, u64>(7, None));
    assert!(is_within::<Mark, u64>(u64::MAX, None));
    assert!(is_within::<Mark, u64>(7, Some(7)));
    assert!(is_within::<Mark, u64>(6, Some(7)));
    assert!(!is_within::<Mark, u64>(8, Some(7)));
}

#[test]
fn inserted_cut_goes_behind_its_equals() {
    let mut catalog: Vec<CutPoint<Mark>> = Vec::new();
    insert_cut(&mut catalog, cut(1, CutRatioResult::Medium(5), 100));
    insert_cut(&mut catalog, cut(0, CutRatioResult::End, 200));
    insert_cut(&mut catalog, cut(1, CutRatioResult::Medium(5), 300));
    insert_cut(&mut catalog, cut(1, CutRatioResult::Medium(2), 400));
    insert_cut(&mut catalog, cut(0, CutRatioResult::Begin, 500));
    insert_cut(&mut catalog, cut(1, CutRatioResult::End, 600));
    assert_eq!(
        shape(&catalog),
        vec![
            (0, CutRatioResult::Begin, 500),
            (0, CutRatioResult::End, 200),
            (1, CutRatioResult::Medium(2), 400),
            (1, CutRatioResult::Medium(5), 100),
            (1, CutRatioResult::Medium(5), 300),
            (1, CutRatioResult::End, 600),
        ]
    );
}

#[test]
fn catalog_of_a_straight_road() {
    let polyline = marks(&[0, 10, 20]);
    let points = marks(&[1, 19]);
    let catalog = collect_cut_points::<Mark, u64>(&polyline, &points, None);
    assert_eq!(
        shape(&catalog),
        vec![
            (0, CutRatioResult::Medium(1), 1),
            (0, CutRatioResult::End, 10),
            (1, CutRatioResult::Medium(9), 19),
        ]
    );
}

#[test]
fn catalog_holds_start_once_and_each_end_once() {
    let polyline = marks(&[0, 10, 20]);
    let points = marks(&[-1, -2, 30, 31]);
    let catalog = collect_cut_points::<Mark, u64>(&polyline, &points, None);
    assert_eq!(
        shape(&catalog),
        vec![
            (0, CutRatioResult::Begin, 0),
            (0, CutRatioResult::End, 10),
            (1, CutRatioResult::End, 20),
        ]
    );
}

#[test]
fn catalog_leaves_out_what_is_too_far() {
    let polyline = marks(&[0, 10, 20]);
    let points = marks(&[-3, 5, 24]);
    let catalog = collect_cut_points::<Mark, u64>(&polyline, &points, Some(3));
    assert_eq!(
        shape(&catalog),
        vec![(0, CutRatioResult::Begin, 0), (0, CutRatioResult::Medium(5), 5)]
    );
    let wider = collect_cut_points::<Mark, u64>(&polyline, &points, Some(4));
    assert_eq!(
        shape(&wider),
        vec![
            (0, CutRatioResult::Begin, 0),
            (0, CutRatioResult::Medium(5), 5),
            (1, CutRatioResult::End, 20),
        ]
    );
}

#[test]
fn catalog_of_a_short_polyline_is_empty() {
    let points = marks(&[1, 2]);
    assert!(collect_cut_points::<Mark, u64>(&marks(&[]), &points, None).is_empty());
    assert!(collect_cut_points::<Mark, u64>(&marks(&[5]), &points, None).is_empty());
}

#[test]
fn graph_has_a_layer_for_each_point() {
    let catalog = vec![
        cut(0, CutRatioResult::Medium(1), 1),
        cut(0, CutRatioResult::End, 10),
        cut(1, CutRatioResult::Medium(9), 19),
    ];
    let points = marks(&[1, 19]);
    let graph = build_graph::<Mark, u64>(&catalog, &points, None).unwrap();
    assert_eq!(
        lay(&graph.vertexes),
        vec![(0, 0, 0), (0, 1, 9), (0, 2, 18), (1, 0, 18), (1, 1, 9), (1, 2, 0)]
    );
    assert_eq!(graph.edges, vec![(0, 3), (3, 6)]);
}

#[test]
fn graph_scan_starts_at_the_first_offer_of_the_point_before() {
    let catalog = vec![
        cut(0, CutRatioResult::Medium(1), 0),
        cut(0, CutRatioResult::Medium(2), 10),
        cut(0, CutRatioResult::Medium(3), 11),
    ];
    let points = marks(&[10, 11]);
    let graph = build_graph::<Mark, u64>(&catalog, &points, Some(10)).unwrap();
    assert_eq!(lay(&graph.vertexes), vec![(0, 0, 10), (0, 1, 0), (0, 2, 1), (1, 1, 1), (1, 2, 0)]);
    assert_eq!(graph.edges, vec![(0, 3), (3, 5)]);
    let narrow = build_graph::<Mark, u64>(&catalog, &points, Some(1)).unwrap();
    assert_eq!(lay(&narrow.vertexes), vec![(0, 1, 0), (0, 2, 1), (1, 1, 1), (1, 2, 0)]);
    assert_eq!(narrow.edges, vec![(0, 2), (2, 4)]);
}

#[test]
fn graph_names_the_first_point_without_offer() {
    let catalog =
        vec![cut(0, CutRatioResult::Medium(1), 0), cut(0, CutRatioResult::Medium(2), 10)];
    let points = marks(&[10, 0, 50]);
    let error = build_graph::<Mark, u64>(&catalog, &points, Some(1)).err().unwrap();
    assert_eq!(*error.kind(), PolySplitErrorKind::PointFarAway);
    assert_eq!(error.point_index, Some(1));
    assert_eq!(error.message(), "point has no closest segments");
    let empty: Vec<CutPoint<Mark>> = Vec::new();
    let error = build_graph::<Mark, u64>(&empty, &points, None).err().unwrap();
    assert_eq!(error.point_index, Some(0));
}

#[test]
fn queue_gives_the_least_distance_first() {
    let mut queue: MinQueue<u64> = MinQueue::new::<Mark>();
    assert!(queue.is_empty::<Mark>());
    for (distance_total, position) in
        [(5u64, 0usize), (3, 4), (9, 1), (3, 2), (7, 7), (1, 9), (8, 3), (1, 5), (6, 6)]
    {
        queue.push::<Mark>(State { distance_total, position });
    }
    assert!(!queue.is_empty::<Mark>());
    let mut order = Vec::new();
    while let Some(state) = queue.pop::<Mark>() {
        order.push((state.distance_total, state.position));
    }
    assert_eq!(
        order,
        vec![(1, 5), (1, 9), (3, 2), (3, 4), (5, 0), (6, 6), (7, 7), (8, 3), (9, 1)]
    );
    assert!(queue.is_empty::<Mark>());
    assert!(queue.pop::<Mark>().is_none());
}

#[test]
fn queue_takes_states_in_between() {
    let mut queue: MinQueue<u64> = MinQueue::new::<Mark>();
    queue.push::<Mark>(State { distance_total: 4, position: 1 });
    queue.push::<Mark>(State { distance_total: 2, position: 2 });
    let first = queue.pop::<Mark>().unwrap();
    assert_eq!((first.distance_total, first.position), (2, 2));
    queue.push::<Mark>(State { distance_total: 3, position: 3 });
    queue.push::<Mark>(State { distance_total: 5, position: 0 });
    let second = queue.pop::<Mark>().unwrap();
    assert_eq!((second.distance_total, second.position), (3, 3));
    let third = queue.pop::<Mark>().unwrap();
    assert_eq!((third.distance_total, third.position), (4, 1));
    let fourth = queue.pop::<Mark>().unwrap();
    assert_eq!((fourth.distance_total, fourth.position), (5, 0));
    assert!(queue.pop::<Mark>().is_none());
}

#[test]
fn states_leave_by_distance_and_then_by_vertex() {
    let near = State { distance_total: 2u64, position: 9 };
    let far = State { distance_total: 3u64, position: 1 };
    let twin = State { distance_total: 2u64, position: 4 };
    assert!(is_first::<Mark, u64>(&near, &far));
    assert!(!is_first::<Mark, u64>(&far, &near));
    assert!(is_first::<Mark, u64>(&twin, &near));
    assert!(!is_first::<Mark, u64>(&near, &twin));
    assert!(!is_first::<Mark, u64>(&near, &near));
}

fn vertex(point_index: usize, cut_point_index: usize, distance_to: u64) -> Vertex<u64> {
    Vertex { point_index, cut_point_index, distance_to }
}

#[test]
fn path_never_steps_back() {
    let graph = Graph {
        vertexes: vec![vertex(0, 0, 5), vertex(0, 1, 1), vertex(1, 0, 0), vertex(1, 1, 2)],
        edges: vec![(0, 2), (2, 4)],
    };
    assert_eq!(find_path::<Mark, u64>(&graph).unwrap(), vec![1, 3]);
}

#[test]
fn path_is_the_cheapest() {
    let graph = Graph {
        vertexes: vec![
            vertex(0, 0, 4),
            vertex(0, 1, 1),
            vertex(1, 0, 1),
            vertex(1, 2, 7),
            vertex(2, 1, 1),
            vertex(2, 2, 1),
        ],
        edges: vec![(0, 2), (2, 4), (4, 6)],
    };
    assert_eq!(find_path::<Mark, u64>(&graph).unwrap(), vec![0, 2, 4]);
}

#[test]
fn path_fails_where_every_step_goes_back() {
    let graph = Graph { vertexes: vec![vertex(0, 3, 1), vertex(1, 2, 1)], edges: vec![(0, 1), (1, 2)] };
    let error = find_path::<Mark, u64>(&graph).err().unwrap();
    assert_eq!(*error.kind(), PolySplitErrorKind::CannotSplit);
    assert_eq!(error.point_index, None);
    assert_eq!(error.message(), "cannot split polyline");
}

#[test]
fn piece_leaves_out_doubled_ends() {
    let polyline = marks(&[0, 10, 20, 30]);
    let inside = cut(0, CutRatioResult::Medium(4), 4);
    let later = cut(2, CutRatioResult::Medium(5), 25);
    assert_eq!(values(&vec![build_piece(&polyline, &inside, &later)]), vec![vec![4, 10, 20, 25]]);
    let end = cut(0, CutRatioResult::End, 10);
    assert_eq!(values(&vec![build_piece(&polyline, &end, &later)]), vec![vec![10, 20, 25]]);
    assert_eq!(values(&vec![build_piece(&polyline, &end, &end)]), vec![vec![10, 10]]);
    let begin = cut(0, CutRatioResult::Begin, 0);
    assert_eq!(values(&vec![build_piece(&polyline, &begin, &begin)]), vec![vec![0, 0]]);
    assert_eq!(values(&vec![build_piece(&polyline, &begin, &end)]), vec![vec![0, 10]]);
    assert_eq!(values(&vec![build_piece(&polyline, &inside, &inside)]), vec![vec![4, 4]]);
    let last = cut(2, CutRatioResult::End, 30);
    assert_eq!(values(&vec![build_piece(&polyline, &begin, &last)]), vec![vec![0, 10, 20, 30]]);
}

#[test]
fn segments_follow_the_anchors() {
    let polyline = marks(&[0, 10, 20, 30]);
    let catalog = vec![
        cut(0, CutRatioResult::Medium(4), 4),
        cut(0, CutRatioResult::End, 10),
        cut(2, CutRatioResult::Medium(5), 25),
    ];
    let segments = build_segments(&polyline, &catalog, &vec![0, 1, 1, 2]);
    assert_eq!(values(&segments), vec![vec![4, 10], vec![10, 10], vec![10, 20, 25]]);
    assert!(build_segments(&polyline, &catalog, &vec![2]).is_empty());
    assert!(build_segments(&polyline, &catalog, &vec![]).is_empty());
}

#[test]
fn split_of_a_road() {
    let polyline = marks(&[0, 10, 20, 30]);
    let points = marks(&[4, 10, 12, 40]);
    let segments = polyline_split::<Mark, u64>(&polyline, &points, None).unwrap();
    assert_eq!(values(&segments), vec![vec![4, 10], vec![10, 12], vec![12, 20, 30]]);
}

#[test]
fn split_has_one_piece_fewer_than_points_and_the_pieces_connect() {
    let polyline = marks(&[0, 10, 20, 30, 40]);
    let points = marks(&[-5, 3, 3, 10, 27, 27, 40, 45]);
    let segments = polyline_split::<Mark, u64>(&polyline, &points, None).unwrap();
    assert_eq!(segments.len(), points.len() - 1);
    for segment in &segments {
        assert!(segment.len() >= 2);
    }
    for pair in segments.windows(2) {
        assert_eq!(pair[0].last(), pair[1].first());
    }
    assert_eq!(
        values(&segments),
        vec![
            vec![0, 3],
            vec![3, 3],
            vec![3, 10],
            vec![10, 20, 27],
            vec![27, 27],
            vec![27, 30, 40],
            vec![40, 40],
        ]
    );
}

#[test]
fn split_advances_along_the_catalog() {
    let polyline = marks(&[0, 10, 20, 30, 40]);
    let points = marks(&[3, 10, 27, 40]);
    let catalog = collect_cut_points::<Mark, u64>(&polyline, &points, None);
    let graph = build_graph::<Mark, u64>(&catalog, &points, None).unwrap();
    let path = find_path::<Mark, u64>(&graph).unwrap();
    assert_eq!(path.len(), points.len());
    let anchors: Vec<usize> = path.iter().map(|v| graph.vertexes[*v].cut_point_index).collect();
    for pair in anchors.windows(2) {
        assert!(pair[0] <= pair[1]);
        assert!(catalog[pair[0]].is_at_or_before(&catalog[pair[1]]));
    }
    let total: u64 = path.iter().map(|v| graph.vertexes[*v].distance_to).sum();
    assert_eq!(total, 0);
}

#[test]
fn split_passes_every_vertex_between_the_anchors_once() {
    let polyline = marks(&[0, 10, 20, 30, 40, 50]);
    let points = marks(&[15, 22, 38, 41]);
    let segments = polyline_split::<Mark, u64>(&polyline, &points, None).unwrap();
    assert_eq!(values(&segments), vec![vec![15, 20, 22], vec![22, 30, 38], vec![38, 40, 41]]);
    let mut inner: Vec<i64> = Vec::new();
    for segment in &segments {
        for mark in &segment[1..segment.len() - 1] {
            inner.push(mark.0);
        }
    }
    assert_eq!(inner, vec![20, 30, 40]);
}

#[test]
fn split_by_the_ends_gives_the_polyline() {
    let polyline = marks(&[0, 10, 20, 30]);
    let points = marks(&[0, 30]);
    let segments = polyline_split::<Mark, u64>(&polyline, &points, None).unwrap();
    assert_eq!(values(&segments), vec![vec![0, 10, 20, 30]]);
    let segments = polyline_split::<Mark, u64>(&polyline, &points, Some(0)).unwrap();
    assert_eq!(values(&segments), vec![vec![0, 10, 20, 30]]);
}

fn cost(points: &Vec<Mark>, segments: &Vec<Vec<Mark>>) -> u64 {
    let mut total = 0;
    for (index, point) in points.iter().enumerate() {
        let anchor = if index < segments.len() {
            segments[index][0]
        } else {
            *segments[index - 1].last().unwrap()
        };
        total += point.gap(&anchor);
    }
    total
}

#[test]
fn wider_threshold_keeps_success_and_is_no_dearer() {
    let polyline = marks(&[0, 10, 20]);
    let points = marks(&[-2, 23]);
    assert!(polyline_split::<Mark, u64>(&polyline, &points, Some(2)).is_err());
    let narrow = polyline_split::<Mark, u64>(&polyline, &points, Some(3)).unwrap();
    let wide = polyline_split::<Mark, u64>(&polyline, &points, Some(50)).unwrap();
    let open = polyline_split::<Mark, u64>(&polyline, &points, None).unwrap();
    assert_eq!(values(&narrow), vec![vec![0, 10, 20]]);
    assert_eq!(cost(&points, &narrow), 5);
    assert!(cost(&points, &wide) <= cost(&points, &narrow));
    assert!(cost(&points, &open) <= cost(&points, &wide));
}

#[test]
fn failures_come_in_their_order() {
    let none: Vec<Mark> = Vec::new();
    let error = polyline_split::<Mark, u64>(&none, &none, None).err().unwrap();
    assert_eq!(*error.kind(), PolySplitErrorKind::InvalidPolyline);
    assert_eq!(error.message(), "polyline has not enough points");
    assert_eq!(error.point_index, None);
    let error = polyline_split::<Mark, u64>(&marks(&[1]), &marks(&[1, 2]), None).err().unwrap();
    assert_eq!(*error.kind(), PolySplitErrorKind::InvalidPolyline);
    let error = polyline_split::<Mark, u64>(&marks(&[1, 2]), &marks(&[1]), None).err().unwrap();
    assert_eq!(*error.kind(), PolySplitErrorKind::InvalidPoints);
    assert_eq!(error.message(), "number of points are not enough");
    assert_eq!(error.point_index, None);
    let error =
        polyline_split::<Mark, u64>(&marks(&[0, 10]), &marks(&[5, 12]), Some(0)).err().unwrap();
    assert_eq!(*error.kind(), PolySplitErrorKind::PointFarAway);
    assert_eq!(error.point_index, Some(1));
    assert_eq!(error.message(), "point has no closest segments");
}

#[test]
fn loose_comparison_cannot_split() {
    let polyline = vec![Loose(0), Loose(10)];
    let points = vec![Loose(2), Loose(8)];
    let error = polyline_split::<Loose, u64>(&polyline, &points, None).err().unwrap();
    assert_eq!(*error.kind(), PolySplitErrorKind::CannotSplit);
    assert_eq!(error.message(), "cannot split polyline");
    assert_eq!(error.point_index, None);
}

#[test]
fn failures_are_made_with_their_text() {
    let error = PolySplitError::new(PolySplitErrorKind::InvalidPolyline);
    assert_eq!(error.message, "polyline has not enough points");
    let error = PolySplitError::new(PolySplitErrorKind::InvalidPoints);
    assert_eq!(error.message, "number of points are not enough");
    let error = PolySplitError::new(PolySplitErrorKind::CannotSplit);
    assert_eq!(error.message(), "cannot split polyline");
    assert_eq!(*error.kind(), PolySplitErrorKind::CannotSplit);
    assert_eq!(error.point_index, None);
    let error = PolySplitError::far_away(7);
    assert_eq!(*error.kind(), PolySplitErrorKind::PointFarAway);
    assert_eq!(error.point_index, Some(7));
    assert_eq!(error.message, "point has no closest segments");
}
