use polysplit::{
    polyline_split, CutRatioResult, DistanceToSegmentResult, PolySplit, PolySplitErrorKind,
};

#[derive(Clone, Copy, Debug)]
struct Point(f64, f64);

impl Point {
    fn distance_to(&self, to: &Point) -> f64 {
        ((self.0 - to.0).powf(2.0) + (self.1 - to.1).powf(2.0)).sqrt()
    }

    fn project(&self, a: &Point, b: &Point) -> DistanceToSegmentResult<Point, f64> {
        if a.distance_to(b) < 1e-9 {
            return DistanceToSegmentResult {
                cut_ratio: CutRatioResult::Begin,
                cut_point: *a,
                distance: self.distance_to(a),
            };
        }
        let vx = b.0 - a.0;
        let vy = b.1 - a.1;
        let ux = self.0 - a.0;
        let uy = self.1 - a.1;
        let ratio = (ux * vx + uy * vy) / (vx * vx + vy * vy);
        if ratio <= 0.0 {
            DistanceToSegmentResult {
                cut_ratio: CutRatioResult::Begin,
                cut_point: *a,
                distance: self.distance_to(a),
            }
        } else if ratio >= 1.0 {
            DistanceToSegmentResult {
                cut_ratio: CutRatioResult::End,
                cut_point: *b,
                distance: self.distance_to(b),
            }
        } else {
            let cut_point = Point(a.0 + ratio * vx, a.1 + ratio * vy);
            DistanceToSegmentResult {
                cut_ratio: CutRatioResult::Medium(ratio.to_bits()),
                cut_point,
                distance: self.distance_to(&cut_point),
            }
        }
    }
}

impl PolySplit<f64> for Point {
    fn point_distance(&self, point: &Point) -> f64 {
        self.distance_to(point)
    }

    fn projection(&self, segment: (&Point, &Point)) -> DistanceToSegmentResult<Point, f64> {
        self.project(segment.0, segment.1)
    }

    fn exceeds(distance: f64, limit: f64) -> bool {
        distance > limit
    }

    fn total(first: f64, second: f64) -> f64 {
        first + second
    }

    fn distance_to_point(&self, point: &Point) -> f64 {
        self.distance_to(point)
    }

    fn distance_to_segment(&self, segment: (&Point, &Point)) -> DistanceToSegmentResult<Point, f64> {
        self.project(segment.0, segment.1)
    }

    fn is_farther(distance: f64, limit: f64) -> bool {
        distance > limit
    }

    fn add_distances(first: f64, second: f64) -> f64 {
        first + second
    }
}

fn to_points(coordinates: &[(f64, f64)]) -> Vec<Point> {
    coordinates.iter().map(|p| Point(p.0, p.1)).collect()
}

fn is_equal(actual: &Vec<Vec<Point>>, expected: &Vec<Vec<(f64, f64)>>) -> bool {
    const EPS: f64 = 1E-16;

    if actual.len() != expected.len() {
        return false;
    }

    for (actual_segment, expected_segment) in actual.iter().zip(expected) {
        if actual_segment.len() != expected_segment.len() {
            return false;
        }

        for (actual_point, expected_point) in actual_segment.iter().zip(expected_segment) {
            if actual_point.distance_to(&Point(expected_point.0, expected_point.1)) > EPS {
                return false;
            }
        }
    }

    true
}

#[test]
fn tests_simple() {
    let tests = vec![
        // Simple tests
        (
            vec![(0.0, 0.0), (10.0, 0.0), (20.0, 0.0)],
            vec![(1.0, 1.0), (19.0, 1.0)],
            vec![vec![(1.0, 0.0), (10.0, 0.0), (19.0, 0.0)]],
        ),
        (
            vec![(0.0, 0.0), (10.0, 0.0), (20.0, 0.0)],
            vec![(10.0, 1.0), (19.0, 1.0)],
            vec![vec![(10.0, 0.0), (19.0, 0.0)]],
        ),
        (
            vec![(0.0, 0.0), (10.0, 0.0), (20.0, 0.0)],
            vec![(11.0, 1.0), (19.0, 1.0)],
            vec![vec![(11.0, 0.0), (19.0, 0.0)]],
        ),
        (
            vec![(0.0, 0.0), (10.0, 0.0), (20.0, 0.0)],
            vec![(0.0, 1.0), (10.0, 1.0)],
            vec![vec![(0.0, 0.0), (10.0, 0.0)]],
        ),
        (
            vec![(0.0, 0.0), (10.0, 0.0), (20.0, 0.0)],
            vec![(1.0, 1.0), (5.0, 1.0)],
            vec![vec![(1.0, 0.0), (5.0, 0.0)]],
        ),
        (
            vec![(0.0, 0.0), (10.0, 0.0), (20.0, 0.0)],
            vec![(10.0, 1.0), (10.0, 1.0)],
            vec![vec![(10.0, 0.0), (10.0, 0.0)]],
        ),
        (
            vec![(0.0, 0.0), (10.0, 0.0), (20.0, 0.0)],
            vec![(5.0, 1.0), (5.0, -1.0)],
            vec![vec![(5.0, 0.0), (5.0, 0.0)]],
        ),
        // One segment tests
        (
            vec![(0.0, 0.0), (10.0, 0.0)],
            vec![(1.0, 1.0), (9.0, 1.0)],
            vec![vec![(1.0, 0.0), (9.0, 0.0)]],
        ),
        (
            vec![(0.0, 0.0), (10.0, 0.0)],
            vec![(0.0, 1.0), (10.0, 1.0)],
            vec![vec![(0.0, 0.0), (10.0, 0.0)]],
        ),
        (
            vec![(0.0, 0.0), (10.0, 0.0)],
            vec![(5.0, 1.0), (5.0, 1.0)],
            vec![vec![(5.0, 0.0), (5.0, 0.0)]],
        ),
        (
            vec![(0.0, 0.0), (10.0, 0.0)],
            vec![(0.0, 1.0), (0.0, 1.0)],
            vec![vec![(0.0, 0.0), (0.0, 0.0)]],
        ),
        (
            vec![(0.0, 0.0), (10.0, 0.0)],
            vec![(10.0, 1.0), (10.0, 1.0)],
            vec![vec![(10.0, 0.0), (10.0, 0.0)]],
        ),
        (
            vec![(0.0, 0.0), (10.0, 0.0)],
            vec![(-2.0, 1.0), (-1.0, 1.0)],
            vec![vec![(0.0, 0.0), (0.0, 0.0)]],
        ),
    ];

    for (polyline, points, expected) in &tests {
        let polyline: Vec<Point> = to_points(polyline);
        let points: Vec<Point> = to_points(points);

        let result = polyline_split(&polyline, &points, None);
        let actual = result.unwrap();

        assert!(
            is_equal(&actual, expected),
            "polyline={:?}, points={:?}, actual={:?}",
            polyline,
            points,
            actual
        );
    }
}

#[test]
fn tests_distance_threshold() {
    let tests = vec![(
        vec![(0.0, 0.0), (10.0, 0.0), (20.0, 0.0)],
        vec![(1.0, 1.0), (19.0, 1.0)],
    )];

    let polyline: Vec<Point> = to_points(&tests[0].0);
    let points: Vec<Point> = to_points(&tests[0].1);

    let result = polyline_split(&polyline, &points, Some(0.1));

    assert!(result.is_err());
}

#[test]
fn tests_polyline_errors() {
    let points: Vec<Point> = vec![];

    let polyline: Vec<Point> = vec![];
    assert!(polyline_split(&polyline, &points, None).is_err());

    let polyline: Vec<Point> = vec![Point(0.0, 0.0)];
    assert!(polyline_split(&polyline, &points, None).is_err());
}

#[test]
fn tests_point_errors() {
    let polyline: Vec<Point> = vec![Point(0.0, 0.0), Point(1.0, 1.0)];

    let points: Vec<Point> = vec![];
    assert!(polyline_split(&polyline, &points, None).is_err());

    let points: Vec<Point> = vec![Point(0.0, 0.0)];
    assert!(polyline_split(&polyline, &points, None).is_err());
}

#[test]
fn tests_examples() {
    let tests = vec![
        // Example 01
        (
            vec![(100.0, 140.0), (140.0, 200.0), (260.0, 300.0), (300.0, 240.0), (400.0, 220.0), (380.0, 260.0), (420.0, 340.0), (460.0, 340.0), (500.0, 320.0), (580.0, 280.0), (600.0, 240.0), (620.0, 180.0), (580.0, 160.0), (520.0, 140.0), (480.0, 100.0), (480.0, 60.0), (520.0, 40.0), (560.0, 40.0), (620.0, 60.0), (660.0, 80.0), (780.0, 180.0), (780.0, 300.0), (640.0, 360.0)],
            vec![(180.0, 200.0), (260.0, 240.0), (340.0, 260.0), (500.0, 280.0), (540.0, 160.0), (520.0, 60.0), (700.0, 160.0), (680.0, 380.0)],
            vec![
                vec![(163.60655737704917, 219.672131147541), (260.0, 300.0), (287.6923076923077, 258.46153846153845)],
                vec![(287.6923076923077, 258.46153846153845), (300.0, 240.0), (334.61538461538464, 233.07692307692307)],
                vec![(334.61538461538464, 233.07692307692307), (400.0, 220.0), (380.0, 260.0), (420.0, 340.0), (460.0, 340.0), (500.0, 320.0), (516.0, 312.0)],
                vec![(516.0, 312.0), (580.0, 280.0), (600.0, 240.0), (620.0, 180.0), (580.0, 160.0), (544.0, 148.0)],
                vec![(544.0, 148.0), (520.0, 140.0), (480.0, 100.0), (480.0, 60.0), (512.0, 44.0)],
                vec![(512.0, 44.0), (520.0, 40.0), (560.0, 40.0), (620.0, 60.0), (660.0, 80.0), (722.9508196721312, 132.45901639344262)],
                vec![(722.9508196721312, 132.45901639344262), (780.0, 180.0), (780.0, 300.0), (666.551724137931, 348.62068965517244)],
            ],
        ),
        // Example 02
        (
            vec![(40.0, 60.0), (120.0, 60.0), (120.0, 140.0), (160.0, 200.0), (220.0, 200.0), (260.0, 140.0), (260.0, 60.0), (340.0, 60.0), (420.0, 200.0), (520.0, 60.0)],
            vec![(60.0, 80.0), (200.0, 180.0), (180.0, 120.0), (380.0, 180.0), (400.0, 60.0), (520.0, 100.0)],
            vec![
                vec![(60.0, 60.0), (120.0, 60.0), (120.0, 140.0), (160.0, 200.0), (200.0, 200.0)],
                vec![(200.0, 200.0), (220.0, 200.0), (244.6153846153846, 163.07692307692307)],
                vec![(244.6153846153846, 163.07692307692307), (260.0, 140.0), (260.0, 60.0), (340.0, 60.0), (401.53846153846155, 167.69230769230768)],
                vec![(401.53846153846155, 167.69230769230768), (420.0, 200.0), (479.4594594594595, 116.75675675675676)],
                vec![(479.4594594594595, 116.75675675675676), (501.0810810810811, 86.48648648648648)],
            ],
        ),
        // Example 03
        (
            vec![(60.0, 80.0), (100.0, 140.0), (120.0, 160.0), (200.0, 160.0), (240.0, 140.0), (300.0, 100.0), (340.0, 60.0), (400.0, 60.0), (440.0, 80.0), (460.0, 120.0), (460.0, 180.0), (420.0, 220.0), (380.0, 260.0), (360.0, 280.0), (380.0, 320.0), (400.0, 360.0), (480.0, 320.0), (540.0, 300.0), (580.0, 260.0), (600.0, 220.0), (620.0, 160.0), (660.0, 120.0), (720.0, 100.0), (800.0, 100.0), (820.0, 140.0)],
            vec![(60.0, 120.0), (160.0, 140.0), (280.0, 80.0), (420.0, 120.0), (340.0, 140.0), (420.0, 320.0), (420.0, 260.0), (560.0, 220.0), (680.0, 120.0), (780.0, 140.0)],
            vec![
                vec![(78.46153846153847, 107.6923076923077), (100.0, 140.0), (120.0, 160.0), (160.0, 160.0)],
                vec![(160.0, 160.0), (200.0, 160.0), (240.0, 140.0), (295.38461538461536, 103.07692307692307)],
                vec![(295.38461538461536, 103.07692307692307), (300.0, 100.0), (340.0, 60.0), (400.0, 60.0), (440.0, 80.0), (452.0, 104.0)],
                vec![(452.0, 104.0), (460.0, 120.0), (460.0, 180.0), (420.0, 220.0)],
                vec![(420.0, 220.0), (380.0, 260.0), (360.0, 280.0), (380.0, 320.0), (400.0, 360.0), (432.0, 344.0)],
                vec![(432.0, 344.0), (456.0, 332.0)],
                vec![(456.0, 332.0), (480.0, 320.0), (540.0, 300.0), (580.0, 260.0), (592.0, 236.0)],
                vec![(592.0, 236.0), (600.0, 220.0), (620.0, 160.0), (660.0, 120.0), (678.0, 114.0)],
                vec![(678.0, 114.0), (720.0, 100.0), (800.0, 100.0), (812.0, 124.0)],
            ],
        ),
    ];

    for (polyline, points, expected) in &tests {
        let polyline: Vec<Point> = to_points(polyline);
        let points: Vec<Point> = to_points(points);

        let result = polyline_split(&polyline, &points, None);
        let actual = result.unwrap();

        if !is_equal(&actual, expected) {
            let s = format!("{:?}", actual);
            let r = s.replace("Point", "");
            println!("{}", r);
        }

        assert!(is_equal(&actual, expected), "polyline={:?}, points={:?}", polyline, points);
    }
}

#[test]
fn threshold_failure_names_the_first_point() {
    let polyline = to_points(&[(0.0, 0.0), (10.0, 0.0), (20.0, 0.0)]);
    let points = to_points(&[(1.0, 1.0), (19.0, 1.0)]);
    let error = polyline_split(&polyline, &points, Some(0.1)).unwrap_err();
    assert_eq!(*error.kind(), PolySplitErrorKind::PointFarAway);
    assert_eq!(error.point_index, Some(0));
    assert_eq!(error.message(), "point has no closest segments");
}

fn anchors_cost(points: &Vec<Point>, segments: &Vec<Vec<Point>>) -> f64 {
    let mut total = 0.0;
    for (index, point) in points.iter().enumerate() {
        let anchor = if index < segments.len() {
            segments[index][0]
        } else {
            *segments[index - 1].last().unwrap()
        };
        total += point.distance_to(&anchor);
    }
    total
}

#[test]
fn straight_split_has_three_points() {
    let polyline = to_points(&[(0.0, 0.0), (10.0, 0.0), (20.0, 0.0)]);
    let points = to_points(&[(1.0, 1.0), (19.0, 1.0)]);
    let segments = polyline_split(&polyline, &points, None).unwrap();
    assert_eq!(segments.len(), 1);
    assert!(is_equal(&segments, &vec![vec![(1.0, 0.0), (10.0, 0.0), (19.0, 0.0)]]));
    assert_eq!(anchors_cost(&points, &segments), 2.0);
}

#[test]
fn split_by_the_ends_gives_the_polyline_back() {
    let coordinates = [(0.0, 0.0), (10.0, 0.0), (10.0, 10.0), (20.0, 10.0), (25.0, -5.0)];
    let polyline = to_points(&coordinates);
    let points = vec![polyline[0], polyline[4]];
    let segments = polyline_split(&polyline, &points, None).unwrap();
    assert!(is_equal(&segments, &vec![coordinates.to_vec()]));
    let segments = polyline_split(&polyline, &points, Some(0.0)).unwrap();
    assert!(is_equal(&segments, &vec![coordinates.to_vec()]));
}

#[test]
fn zero_threshold_takes_points_of_the_polyline_only() {
    let polyline = to_points(&[(0.0, 0.0), (10.0, 0.0), (20.0, 0.0)]);
    let on = to_points(&[(5.0, 0.0), (10.0, 0.0), (15.0, 0.0)]);
    let segments = polyline_split(&polyline, &on, Some(0.0)).unwrap();
    assert!(is_equal(
        &segments,
        &vec![vec![(5.0, 0.0), (10.0, 0.0)], vec![(10.0, 0.0), (15.0, 0.0)]]
    ));
    let off = to_points(&[(5.0, 0.0), (10.0, 0.5), (15.0, 0.0)]);
    let error = polyline_split(&polyline, &off, Some(0.0)).unwrap_err();
    assert_eq!(*error.kind(), PolySplitErrorKind::PointFarAway);
    assert_eq!(error.point_index, Some(1));
}

#[test]
fn wider_threshold_succeeds_where_a_narrow_one_does() {
    let polyline = to_points(&[(0.0, 0.0), (10.0, 0.0), (10.0, 10.0), (0.0, 10.0)]);
    let points = to_points(&[(2.0, 1.0), (9.5, 5.0), (4.0, 9.0)]);
    assert!(polyline_split(&polyline, &points, Some(0.75)).is_err());
    let narrow = polyline_split(&polyline, &points, Some(1.0)).unwrap();
    let wide = polyline_split(&polyline, &points, Some(6.0)).unwrap();
    let open = polyline_split(&polyline, &points, None).unwrap();
    assert!(is_equal(
        &narrow,
        &vec![
            vec![(2.0, 0.0), (10.0, 0.0), (10.0, 5.0)],
            vec![(10.0, 5.0), (10.0, 10.0), (4.0, 10.0)],
        ]
    ));
    assert_eq!(anchors_cost(&points, &narrow), 2.5);
    assert!(anchors_cost(&points, &wide) <= anchors_cost(&points, &narrow));
    assert!(anchors_cost(&points, &open) <= anchors_cost(&points, &wide));
}

#[test]
fn pieces_meet_in_the_same_point() {
    let polyline = to_points(&[
        (40.0, 60.0),
        (120.0, 60.0),
        (120.0, 140.0),
        (160.0, 200.0),
        (220.0, 200.0),
        (260.0, 140.0),
        (260.0, 60.0),
        (340.0, 60.0),
        (420.0, 200.0),
        (520.0, 60.0),
    ]);
    let points = to_points(&[
        (60.0, 80.0),
        (200.0, 180.0),
        (180.0, 120.0),
        (380.0, 180.0),
        (400.0, 60.0),
        (520.0, 100.0),
    ]);
    let segments = polyline_split(&polyline, &points, None).unwrap();
    assert_eq!(segments.len(), 5);
    for segment in &segments {
        assert!(segment.len() >= 2);
    }
    for pair in segments.windows(2) {
        let last = pair[0].last().unwrap();
        let first = pair[1].first().unwrap();
        assert_eq!(last.0.to_bits(), first.0.to_bits());
        assert_eq!(last.1.to_bits(), first.1.to_bits());
    }
    assert!(is_equal(
        &vec![segments[0].clone()],
        &vec![vec![(60.0, 60.0), (120.0, 60.0), (120.0, 140.0), (160.0, 200.0), (200.0, 200.0)]]
    ));
    assert!(is_equal(
        &vec![segments[4].clone()],
        &vec![vec![
            (479.4594594594595, 116.75675675675676),
            (501.0810810810811, 86.48648648648648)
        ]]
    ));
}

#[test]
fn failures_by_kind() {
    let one = to_points(&[(0.0, 0.0)]);
    let two = to_points(&[(0.0, 0.0), (1.0, 1.0)]);
    let error = polyline_split(&one, &two, None).unwrap_err();
    assert_eq!(*error.kind(), PolySplitErrorKind::InvalidPolyline);
    let error = polyline_split(&two, &one, None).unwrap_err();
    assert_eq!(*error.kind(), PolySplitErrorKind::InvalidPoints);
    let error = polyline_split(&one, &one, None).unwrap_err();
    assert_eq!(*error.kind(), PolySplitErrorKind::InvalidPolyline);
}

#[test]
fn closed_polyline_split_by_its_ends_is_one_point() {
    let polyline = to_points(&[(0.0, 0.0), (10.0, 0.0), (10.0, 10.0), (0.0, 0.0)]);
    let points = vec![polyline[0], polyline[3]];
    let segments = polyline_split(&polyline, &points, None).unwrap();
    assert!(is_equal(&segments, &vec![vec![(0.0, 0.0), (0.0, 0.0)]]));
}

#[test]
fn pieces_leave_out_what_lies_before_and_behind_the_anchors() {
    let polyline = to_points(&[(0.0, 0.0), (10.0, 0.0), (20.0, 0.0)]);
    let points = to_points(&[(1.0, 1.0), (5.0, 1.0)]);
    let segments = polyline_split(&polyline, &points, None).unwrap();
    assert!(is_equal(&segments, &vec![vec![(1.0, 0.0), (5.0, 0.0)]]));
}
