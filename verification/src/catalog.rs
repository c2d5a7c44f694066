//! The catalog of cut points: every position on the polyline at which a piece may
//! start or end, in the order in which the positions follow each other along it.
use vstd::prelude::*;
use crate::metric::{is_within, within, CutRatioResult, DistanceToSegmentResult, PolySplit};

verus! {

/// A position on the polyline at which a piece may start or end.
pub struct CutPoint<P> {
    /// The segment on which the position lies, counted from zero.
    pub segment_index: usize,
    /// Where on that segment it lies.
    pub cut_ratio: CutRatioResult,
    /// The position itself.
    pub cut_point: P,
}

impl<P> CutPoint<P> {
    /// Whether `self` lies at or before `other` along the polyline: on an earlier
    /// segment, or on the same one and not further from its start.
    pub open spec fn at_or_before(self, other: Self) -> bool {
        ||| self.segment_index < other.segment_index
        ||| (self.segment_index == other.segment_index && self.cut_ratio.rank()
            <= other.cut_ratio.rank())
    }

    /// Tells whether `self` lies at or before `other` along the polyline.
    pub fn is_at_or_before(&self, other: &Self) -> (b: bool)
        ensures
            b == self.at_or_before(*other),
    {
        if self.segment_index < other.segment_index {
            true
        } else if self.segment_index == other.segment_index {
            self.cut_ratio.is_at_or_before(&other.cut_ratio)
        } else {
            false
        }
    }
}

/// The number of segments of a polyline.
pub open spec fn segment_count<P>(polyline: Seq<P>) -> int {
    if polyline.len() == 0 {
        0
    } else {
        polyline.len() - 1
    }
}

/// The position on segment `segment` that is closest to reference point `point`.
pub open spec fn candidate<P: PolySplit<D>, D: Copy>(
    polyline: Seq<P>,
    points: Seq<P>,
    segment: int,
    point: int,
) -> DistanceToSegmentResult<P, D> {
    points[point].projection((&polyline[segment], &polyline[segment + 1]))
}

/// Whether reference point `point` is close enough to segment `segment` and its
/// closest position there is the start of the segment.
pub open spec fn hits_begin<P: PolySplit<D>, D: Copy>(
    polyline: Seq<P>,
    points: Seq<P>,
    threshold: Option<D>,
    segment: int,
    point: int,
) -> bool {
    let found = candidate::<P, D>(polyline, points, segment, point);
    within::<P, D>(found.distance, threshold) && found.cut_ratio is Begin
}

/// Whether reference point `point` is close enough to segment `segment` and its
/// closest position there is the end of the segment.
pub open spec fn hits_end<P: PolySplit<D>, D: Copy>(
    polyline: Seq<P>,
    points: Seq<P>,
    threshold: Option<D>,
    segment: int,
    point: int,
) -> bool {
    let found = candidate::<P, D>(polyline, points, segment, point);
    within::<P, D>(found.distance, threshold) && found.cut_ratio is End
}

/// Whether reference point `point` adds a cut point on segment `segment`.
///
/// It does when it is close enough to the segment and its closest position lies
/// inside the segment; or at the end of the segment, for the first reference point
/// of which that holds; or at the start of the segment, on the first segment only
/// and for the first such reference point only.
pub open spec fn emits<P: PolySplit<D>, D: Copy>(
    polyline: Seq<P>,
    points: Seq<P>,
    threshold: Option<D>,
    segment: int,
    point: int,
) -> bool {
    let found = candidate::<P, D>(polyline, points, segment, point);
    &&& within::<P, D>(found.distance, threshold)
    &&& match found.cut_ratio {
        CutRatioResult::Begin => segment == 0 && forall|earlier: int|
            0 <= earlier < point ==> !hits_begin::<P, D>(
                polyline,
                points,
                threshold,
                segment,
                earlier,
            ),
        CutRatioResult::End => forall|earlier: int|
            0 <= earlier < point ==> !hits_end::<P, D>(
                polyline,
                points,
                threshold,
                segment,
                earlier,
            ),
        CutRatioResult::Medium(_) => true,
    }
}

/// The cut point that reference point `point` adds on segment `segment`: the start
/// or end vertex of the segment, or the closest position inside it.
pub open spec fn emitted<P: PolySplit<D>, D: Copy>(
    polyline: Seq<P>,
    points: Seq<P>,
    segment: int,
    point: int,
) -> CutPoint<P> {
    let found = candidate::<P, D>(polyline, points, segment, point);
    CutPoint {
        segment_index: segment as usize,
        cut_ratio: found.cut_ratio,
        cut_point: match found.cut_ratio {
            CutRatioResult::Begin => polyline[segment],
            CutRatioResult::End => polyline[segment + 1],
            CutRatioResult::Medium(_) => found.cut_point,
        },
    }
}

/// Where a new cut point goes into a catalog: behind the last entry that lies at or
/// before it.
pub open spec fn insertion_index<P>(catalog: Seq<CutPoint<P>>, cut: CutPoint<P>) -> int
    decreases catalog.len(),
{
    if catalog.len() == 0 || catalog.last().at_or_before(cut) {
        catalog.len() as int
    } else {
        insertion_index(catalog.drop_last(), cut)
    }
}

/// The catalog with one more cut point, put in its place.
pub open spec fn with_cut<P>(catalog: Seq<CutPoint<P>>, cut: CutPoint<P>) -> Seq<CutPoint<P>> {
    catalog.insert(insertion_index(catalog, cut), cut)
}

/// The catalog after all reference points have been tried on the segments before
/// `segment`, and the first `point` of them on `segment`.
pub open spec fn catalog_prefix<P: PolySplit<D>, D: Copy>(
    polyline: Seq<P>,
    points: Seq<P>,
    threshold: Option<D>,
    segment: int,
    point: int,
) -> Seq<CutPoint<P>>
    decreases segment, point,
{
    if point > 0 {
        let before = catalog_prefix::<P, D>(polyline, points, threshold, segment, point - 1);
        if emits::<P, D>(polyline, points, threshold, segment, point - 1) {
            with_cut(before, emitted::<P, D>(polyline, points, segment, point - 1))
        } else {
            before
        }
    } else if segment > 0 {
        catalog_prefix::<P, D>(polyline, points, threshold, segment - 1, points.len() as int)
    } else {
        Seq::empty()
    }
}

/// The catalog of cut points of a polyline for a list of reference points.
pub open spec fn cut_catalog<P: PolySplit<D>, D: Copy>(
    polyline: Seq<P>,
    points: Seq<P>,
    threshold: Option<D>,
) -> Seq<CutPoint<P>> {
    catalog_prefix::<P, D>(polyline, points, threshold, segment_count(polyline), 0)
}

/// Puts a cut point into the catalog, behind the last entry that lies at or before it.
pub fn insert_cut<P: Copy>(catalog: &mut Vec<CutPoint<P>>, cut: CutPoint<P>)
    ensures
        final(catalog)@ == with_cut(old(catalog)@, cut),
{
    let mut position: usize = catalog.len();
    assert(catalog@.take(position as int) == catalog@);
    while position > 0 && !catalog[position - 1].is_at_or_before(&cut)
        invariant
            position <= catalog.len(),
            *catalog == *old(catalog),
            insertion_index(catalog@, cut) == insertion_index(catalog@.take(position as int), cut),
        decreases position,
    {
        assert(catalog@.take(position as int).drop_last() == catalog@.take(position - 1));
        position = position - 1;
    }
    catalog.insert(position, cut);
}

/// Collects the cut points of a polyline for a list of reference points.
///
/// Every reference point is tried on every segment. Reference points further from a
/// segment than the threshold add nothing there. The start of a segment is added for
/// the first segment only and the end of a segment once, whichever number of
/// reference points land there. The catalog is kept in the order of the polyline;
/// cut points at the same place stay in the order in which they were added.
pub fn collect_cut_points<P: PolySplit<D>, D: Copy>(
    polyline: &[P],
    points: &[P],
    distance_threshold: Option<D>,
) -> (catalog: Vec<CutPoint<P>>)
    ensures
        catalog@ == cut_catalog::<P, D>(polyline@, points@, distance_threshold),
        catalog_wf(catalog@, polyline@),
{
    proof {
        assert(polyline.len() == polyline@.len());
        lemma_cut_catalog_wf::<P, D>(polyline@, points@, distance_threshold);
    }
    let mut catalog: Vec<CutPoint<P>> = Vec::new();
    let segments_len: usize = if polyline.len() == 0 {
        0
    } else {
        polyline.len() - 1
    };
    let mut segment_index: usize = 0;
    while segment_index < segments_len
        invariant
            segment_index <= segments_len,
            segments_len == segment_count(polyline@),
            catalog@ == catalog_prefix::<P, D>(
                polyline@,
                points@,
                distance_threshold,
                segment_index as int,
                0,
            ),
        decreases segments_len - segment_index,
    {
        let segment_a = &polyline[segment_index];
        let segment_b = &polyline[segment_index + 1];
        let mut is_start_added = false;
        let mut is_end_added = false;
        let mut point_index: usize = 0;
        while point_index < points.len()
            invariant
                segment_index < segments_len,
                segments_len == segment_count(polyline@),
                point_index <= points.len(),
                *segment_a == polyline@[segment_index as int],
                *segment_b == polyline@[segment_index + 1],
                catalog@ == catalog_prefix::<P, D>(
                    polyline@,
                    points@,
                    distance_threshold,
                    segment_index as int,
                    point_index as int,
                ),
                is_start_added <==> segment_index == 0 && exists|earlier: int|
                    0 <= earlier < point_index && hits_begin::<P, D>(
                        polyline@,
                        points@,
                        distance_threshold,
                        segment_index as int,
                        earlier,
                    ),
                is_end_added <==> exists|earlier: int|
                    0 <= earlier < point_index && hits_end::<P, D>(
                        polyline@,
                        points@,
                        distance_threshold,
                        segment_index as int,
                        earlier,
                    ),
            decreases points.len() - point_index,
        {
            let found = points[point_index].distance_to_segment((segment_a, segment_b));
            assert(found == candidate::<P, D>(
                polyline@,
                points@,
                segment_index as int,
                point_index as int,
            ));
            if is_within::<P, D>(found.distance, distance_threshold) {
                match found.cut_ratio {
                    CutRatioResult::Begin => {
                        assert(hits_begin::<P, D>(
                            polyline@,
                            points@,
                            distance_threshold,
                            segment_index as int,
                            point_index as int,
                        ));
                        if segment_index == 0 && !is_start_added {
                            insert_cut(
                                &mut catalog,
                                CutPoint {
                                    segment_index,
                                    cut_ratio: found.cut_ratio,
                                    cut_point: *segment_a,
                                },
                            );
                            is_start_added = true;
                        }
                    },
                    CutRatioResult::End => {
                        assert(hits_end::<P, D>(
                            polyline@,
                            points@,
                            distance_threshold,
                            segment_index as int,
                            point_index as int,
                        ));
                        if !is_end_added {
                            insert_cut(
                                &mut catalog,
                                CutPoint {
                                    segment_index,
                                    cut_ratio: found.cut_ratio,
                                    cut_point: *segment_b,
                                },
                            );
                            is_end_added = true;
                        }
                    },
                    CutRatioResult::Medium(_) => {
                        insert_cut(
                            &mut catalog,
                            CutPoint {
                                segment_index,
                                cut_ratio: found.cut_ratio,
                                cut_point: found.cut_point,
                            },
                        );
                    },
                }
            }
            point_index = point_index + 1;
        }
        segment_index = segment_index + 1;
    }
    catalog
}


/// Whether a cut point fits the polyline: it lies on one of its segments, and a cut
/// point at the start or at the end of its segment is the vertex there. Only the
/// first segment has a cut point at its start.
pub open spec fn cut_wf<P>(cut: CutPoint<P>, polyline: Seq<P>) -> bool {
    &&& cut.segment_index + 1 < polyline.len()
    &&& cut.cut_ratio is Begin ==> cut.segment_index == 0 && cut.cut_point == polyline[0]
    &&& cut.cut_ratio is End ==> cut.cut_point == polyline[cut.segment_index + 1]
}

/// Whether two cut points are both the start of the polyline, or both the end of
/// the same segment.
pub open spec fn clash<P>(first: CutPoint<P>, second: CutPoint<P>) -> bool {
    ||| (first.cut_ratio is Begin && second.cut_ratio is Begin)
    ||| (first.cut_ratio is End && second.cut_ratio is End && first.segment_index
        == second.segment_index)
}

/// Whether no entry of the catalog lies before an earlier entry.
pub open spec fn sorted<P>(catalog: Seq<CutPoint<P>>) -> bool {
    forall|i: int, j: int|
        0 <= i < j < catalog.len() ==> (#[trigger] catalog[i]).at_or_before(#[trigger] catalog[j])
}

/// A catalog is well formed for a polyline when its entries follow each other along
/// the polyline, each of them fits the polyline, the start of the polyline occurs
/// at most once and the end of each segment at most once.
pub open spec fn catalog_wf<P>(catalog: Seq<CutPoint<P>>, polyline: Seq<P>) -> bool {
    &&& sorted(catalog)
    &&& forall|i: int| 0 <= i < catalog.len() ==> cut_wf(#[trigger] catalog[i], polyline)
    &&& forall|i: int, j: int|
        0 <= i < j < catalog.len() ==> !clash(#[trigger] catalog[i], #[trigger] catalog[j])
}

/// The place that `insertion_index` finds: every entry before it lies at or before
/// the new cut point, and every entry from it on lies behind the new cut point.
pub proof fn lemma_insertion_index<P>(catalog: Seq<CutPoint<P>>, cut: CutPoint<P>)
    ensures
        0 <= insertion_index(catalog, cut) <= catalog.len(),
        insertion_index(catalog, cut) > 0 ==> catalog[insertion_index(catalog, cut) - 1].at_or_before(
            cut,
        ),
        forall|i: int|
            insertion_index(catalog, cut) <= i < catalog.len() ==> !(#[trigger] catalog[i]).at_or_before(
                cut,
            ),
    decreases catalog.len(),
{
    if catalog.len() == 0 || catalog.last().at_or_before(cut) {
    } else {
        lemma_insertion_index(catalog.drop_last(), cut);
        assert forall|i: int|
            insertion_index(catalog, cut) <= i < catalog.len() implies !(#[trigger] catalog[i]).at_or_before(
            cut,
        ) by {
            if i < catalog.len() - 1 {
                assert(catalog.drop_last()[i] == catalog[i]);
            }
        }
    }
}

/// A catalog stays sorted when a cut point is put in its place.
pub proof fn lemma_with_cut_sorted<P>(catalog: Seq<CutPoint<P>>, cut: CutPoint<P>)
    requires
        sorted(catalog),
    ensures
        sorted(with_cut(catalog, cut)),
{
    let place = insertion_index(catalog, cut);
    lemma_insertion_index(catalog, cut);
    catalog.insert_ensures(place, cut);
    let grown = with_cut(catalog, cut);
    assert forall|i: int, j: int| 0 <= i < j < grown.len() implies (#[trigger] grown[i]).at_or_before(
        #[trigger] grown[j],
    ) by {
        if j < place {
            assert(grown[i] == catalog[i] && grown[j] == catalog[j]);
        } else if j == place {
            assert(grown[i] == catalog[i]);
            assert(catalog[i].at_or_before(catalog[place - 1]) || i == place - 1);
        } else if i < place {
            assert(grown[i] == catalog[i] && grown[j] == catalog[j - 1]);
        } else if i == place {
            assert(grown[j] == catalog[j - 1]);
            assert(!catalog[j - 1].at_or_before(cut));
        } else {
            assert(grown[i] == catalog[i - 1] && grown[j] == catalog[j - 1]);
        }
    }
}

/// What holds of the catalog while it is being collected, besides being well
/// formed: its entries lie on the segments tried so far, and a cut point at the
/// start of the first segment, or at the end of the segment being tried, stems from
/// a reference point tried before.
pub open spec fn collected<P: PolySplit<D>, D: Copy>(
    catalog: Seq<CutPoint<P>>,
    polyline: Seq<P>,
    points: Seq<P>,
    threshold: Option<D>,
    segment: int,
    point: int,
) -> bool {
    &&& catalog_wf(catalog, polyline)
    &&& forall|i: int|
        0 <= i < catalog.len() ==> (#[trigger] catalog[i]).segment_index <= segment && (point == 0
            ==> catalog[i].segment_index < segment)
    &&& forall|i: int|
        0 <= i < catalog.len() && (#[trigger] catalog[i]).cut_ratio is Begin && segment == 0
            ==> exists|earlier: int|
            0 <= earlier < point && hits_begin::<P, D>(polyline, points, threshold, 0, earlier)
    &&& forall|i: int|
        0 <= i < catalog.len() && (#[trigger] catalog[i]).cut_ratio is End
            && catalog[i].segment_index == segment ==> exists|earlier: int|
            0 <= earlier < point && hits_end::<P, D>(polyline, points, threshold, segment, earlier)
}

/// Every stage of collecting the catalog leaves it well formed.
pub proof fn lemma_catalog_prefix_collected<P: PolySplit<D>, D: Copy>(
    polyline: Seq<P>,
    points: Seq<P>,
    threshold: Option<D>,
    segment: int,
    point: int,
)
    requires
        polyline.len() <= usize::MAX,
        0 <= segment <= segment_count(polyline),
        0 <= point <= points.len(),
        point > 0 ==> segment < segment_count(polyline),
    ensures
        collected::<P, D>(
            catalog_prefix::<P, D>(polyline, points, threshold, segment, point),
            polyline,
            points,
            threshold,
            segment,
            point,
        ),
    decreases segment, point,
{
    let catalog = catalog_prefix::<P, D>(polyline, points, threshold, segment, point);
    if point > 0 {
        let before = catalog_prefix::<P, D>(polyline, points, threshold, segment, point - 1);
        lemma_catalog_prefix_collected::<P, D>(polyline, points, threshold, segment, point - 1);
        if emits::<P, D>(polyline, points, threshold, segment, point - 1) {
            let cut = emitted::<P, D>(polyline, points, segment, point - 1);
            let place = insertion_index(before, cut);
            lemma_insertion_index(before, cut);
            lemma_with_cut_sorted(before, cut);
            before.insert_ensures(place, cut);
            assert(cut_wf(cut, polyline));
            assert(cut.cut_ratio is Begin ==> hits_begin::<P, D>(
                polyline,
                points,
                threshold,
                segment,
                point - 1,
            ));
            assert(cut.cut_ratio is End ==> hits_end::<P, D>(
                polyline,
                points,
                threshold,
                segment,
                point - 1,
            ));
            assert forall|i: int| 0 <= i < catalog.len() implies (#[trigger] catalog[i] == cut && i
                == place) || (exists|k: int| 0 <= k < before.len() && before[k] == catalog[i] && (k
                == i || k == i - 1)) by {
                if i < place {
                    assert(before[i] == catalog[i]);
                } else if i > place {
                    assert(before[i - 1] == catalog[i]);
                }
            }
            assert forall|i: int| 0 <= i < before.len() implies !clash(
                #[trigger] before[i],
                cut,
            ) && !clash(cut, before[i]) by {
                if before[i].cut_ratio is Begin && cut.cut_ratio is Begin {
                    assert(false);
                }
                if before[i].cut_ratio is End && cut.cut_ratio is End && before[i].segment_index
                    == cut.segment_index {
                    assert(false);
                }
            }
            assert forall|i: int, j: int| 0 <= i < j < catalog.len() implies !clash(
                #[trigger] catalog[i],
                #[trigger] catalog[j],
            ) by {
                if i == place {
                    assert(catalog[j] == before[j - 1]);
                } else if j == place {
                    assert(catalog[i] == before[i]);
                } else {
                    let a = if i < place { i } else { i - 1 };
                    let b = if j < place { j } else { j - 1 };
                    assert(catalog[i] == before[a] && catalog[j] == before[b]);
                }
            }
            assert forall|i: int|
                0 <= i < catalog.len() && (#[trigger] catalog[i]).cut_ratio is Begin && segment
                    == 0 implies exists|earlier: int|
                0 <= earlier < point && hits_begin::<P, D>(
                    polyline,
                    points,
                    threshold,
                    0,
                    earlier,
                ) by {
                if i == place {
                    assert(hits_begin::<P, D>(polyline, points, threshold, 0, point - 1));
                } else {
                    let k = if i < place { i } else { i - 1 };
                    assert(catalog[i] == before[k]);
                    let earlier = choose|earlier: int|
                        0 <= earlier < point - 1 && hits_begin::<P, D>(
                            polyline,
                            points,
                            threshold,
                            0,
                            earlier,
                        );
                    assert(hits_begin::<P, D>(polyline, points, threshold, 0, earlier));
                }
            }
            assert forall|i: int|
                0 <= i < catalog.len() && (#[trigger] catalog[i]).cut_ratio is End
                    && catalog[i].segment_index == segment implies exists|earlier: int|
                0 <= earlier < point && hits_end::<P, D>(
                    polyline,
                    points,
                    threshold,
                    segment,
                    earlier,
                ) by {
                if i == place {
                    assert(hits_end::<P, D>(polyline, points, threshold, segment, point - 1));
                } else {
                    let k = if i < place { i } else { i - 1 };
                    assert(catalog[i] == before[k]);
                    let earlier = choose|earlier: int|
                        0 <= earlier < point - 1 && hits_end::<P, D>(
                            polyline,
                            points,
                            threshold,
                            segment,
                            earlier,
                        );
                    assert(hits_end::<P, D>(polyline, points, threshold, segment, earlier));
                }
            }
            assert forall|i: int| 0 <= i < catalog.len() implies cut_wf(
                #[trigger] catalog[i],
                polyline,
            ) && catalog[i].segment_index <= segment by {
                if i != place {
                    let k = if i < place { i } else { i - 1 };
                    assert(catalog[i] == before[k]);
                }
            }
        } else {
            assert forall|i: int|
                0 <= i < catalog.len() && (#[trigger] catalog[i]).cut_ratio is Begin && segment
                    == 0 implies exists|earlier: int|
                0 <= earlier < point && hits_begin::<P, D>(
                    polyline,
                    points,
                    threshold,
                    0,
                    earlier,
                ) by {
                let earlier = choose|earlier: int|
                    0 <= earlier < point - 1 && hits_begin::<P, D>(
                        polyline,
                        points,
                        threshold,
                        0,
                        earlier,
                    );
                assert(hits_begin::<P, D>(polyline, points, threshold, 0, earlier));
            }
            assert forall|i: int|
                0 <= i < catalog.len() && (#[trigger] catalog[i]).cut_ratio is End
                    && catalog[i].segment_index == segment implies exists|earlier: int|
                0 <= earlier < point && hits_end::<P, D>(
                    polyline,
                    points,
                    threshold,
                    segment,
                    earlier,
                ) by {
                let earlier = choose|earlier: int|
                    0 <= earlier < point - 1 && hits_end::<P, D>(
                        polyline,
                        points,
                        threshold,
                        segment,
                        earlier,
                    );
                assert(hits_end::<P, D>(polyline, points, threshold, segment, earlier));
            }
        }
    } else if segment > 0 {
        lemma_catalog_prefix_collected::<P, D>(
            polyline,
            points,
            threshold,
            segment - 1,
            points.len() as int,
        );
    }
}

/// The catalog of a polyline is well formed.
pub proof fn lemma_cut_catalog_wf<P: PolySplit<D>, D: Copy>(
    polyline: Seq<P>,
    points: Seq<P>,
    threshold: Option<D>,
)
    requires
        polyline.len() <= usize::MAX,
    ensures
        catalog_wf(cut_catalog::<P, D>(polyline, points, threshold), polyline),
{
    lemma_catalog_prefix_collected::<P, D>(
        polyline,
        points,
        threshold,
        segment_count(polyline),
        0,
    );
}


/// Whether reference point `point` is tried on segment `segment` before the stage
/// at which collecting the catalog has come to `upto` on segment `stage`.
pub open spec fn tried_before<P>(
    points: Seq<P>,
    segment: int,
    point: int,
    stage: int,
    upto: int,
) -> bool {
    &&& 0 <= segment
    &&& 0 <= point < points.len()
    &&& segment < stage || (segment == stage && point < upto)
}

/// At every stage of collecting it, the catalog holds the cut points that the
/// reference points tried so far add, and no others.
pub proof fn lemma_catalog_prefix_holds<P: PolySplit<D>, D: Copy>(
    polyline: Seq<P>,
    points: Seq<P>,
    threshold: Option<D>,
    stage: int,
    upto: int,
)
    requires
        0 <= stage,
        0 <= upto <= points.len(),
    ensures
        forall|cut: CutPoint<P>|
            catalog_prefix::<P, D>(polyline, points, threshold, stage, upto).contains(cut)
                <==> exists|segment: int, point: int|
                tried_before(points, segment, point, stage, upto) && #[trigger] emits::<P, D>(
                    polyline,
                    points,
                    threshold,
                    segment,
                    point,
                ) && cut == emitted::<P, D>(polyline, points, segment, point),
    decreases stage, upto,
{
    let now = catalog_prefix::<P, D>(polyline, points, threshold, stage, upto);
    if upto > 0 {
        lemma_catalog_prefix_holds::<P, D>(polyline, points, threshold, stage, upto - 1);
        let before = catalog_prefix::<P, D>(polyline, points, threshold, stage, upto - 1);
        let fresh = emits::<P, D>(polyline, points, threshold, stage, upto - 1);
        let added = emitted::<P, D>(polyline, points, stage, upto - 1);
        let place = insertion_index(before, added);
        lemma_insertion_index(before, added);
        if fresh {
            before.insert_ensures(place, added);
        }
        assert forall|cut: CutPoint<P>| now.contains(cut) <==> exists|segment: int, point: int|
            tried_before(points, segment, point, stage, upto) && #[trigger] emits::<P, D>(
                polyline,
                points,
                threshold,
                segment,
                point,
            ) && cut == emitted::<P, D>(polyline, points, segment, point) by {
            if now.contains(cut) {
                let at = now.index_of(cut);
                if fresh && at == place {
                    assert(tried_before(points, stage, upto - 1, stage, upto));
                } else {
                    let held = if fresh && at > place {
                        at - 1
                    } else {
                        at
                    };
                    assert(before[held] == cut);
                    assert(before.contains(cut));
                    let (segment, point) = choose|segment: int, point: int|
                        tried_before(points, segment, point, stage, upto - 1) && #[trigger] emits::<
                            P,
                            D,
                        >(polyline, points, threshold, segment, point) && cut == emitted::<P, D>(
                            polyline,
                            points,
                            segment,
                            point,
                        );
                    assert(tried_before(points, segment, point, stage, upto));
                }
            }
            if exists|segment: int, point: int|
                tried_before(points, segment, point, stage, upto) && #[trigger] emits::<P, D>(
                    polyline,
                    points,
                    threshold,
                    segment,
                    point,
                ) && cut == emitted::<P, D>(polyline, points, segment, point) {
                let (segment, point) = choose|segment: int, point: int|
                    tried_before(points, segment, point, stage, upto) && #[trigger] emits::<P, D>(
                        polyline,
                        points,
                        threshold,
                        segment,
                        point,
                    ) && cut == emitted::<P, D>(polyline, points, segment, point);
                if segment == stage && point == upto - 1 {
                    assert(now[place] == cut);
                } else {
                    assert(tried_before(points, segment, point, stage, upto - 1));
                    assert(before.contains(cut));
                    let held = before.index_of(cut);
                    if fresh && held >= place {
                        assert(now[held + 1] == cut);
                    } else {
                        assert(now[held] == cut);
                    }
                }
            }
        }
    } else if stage > 0 {
        lemma_catalog_prefix_holds::<P, D>(
            polyline,
            points,
            threshold,
            stage - 1,
            points.len() as int,
        );
        assert(now == catalog_prefix::<P, D>(
            polyline,
            points,
            threshold,
            stage - 1,
            points.len() as int,
        ));
        assert forall|cut: CutPoint<P>| now.contains(cut) <==> exists|segment: int, point: int|
            tried_before(points, segment, point, stage, upto) && #[trigger] emits::<P, D>(
                polyline,
                points,
                threshold,
                segment,
                point,
            ) && cut == emitted::<P, D>(polyline, points, segment, point) by {
            if now.contains(cut) {
                let (segment, point) = choose|segment: int, point: int|
                    tried_before(points, segment, point, stage - 1, points.len() as int)
                        && #[trigger] emits::<P, D>(polyline, points, threshold, segment, point)
                        && cut == emitted::<P, D>(polyline, points, segment, point);
                assert(tried_before(points, segment, point, stage, upto));
            }
            if exists|segment: int, point: int|
                tried_before(points, segment, point, stage, upto) && #[trigger] emits::<P, D>(
                    polyline,
                    points,
                    threshold,
                    segment,
                    point,
                ) && cut == emitted::<P, D>(polyline, points, segment, point) {
                let (segment, point) = choose|segment: int, point: int|
                    tried_before(points, segment, point, stage, upto) && #[trigger] emits::<P, D>(
                        polyline,
                        points,
                        threshold,
                        segment,
                        point,
                    ) && cut == emitted::<P, D>(polyline, points, segment, point);
                assert(tried_before(points, segment, point, stage - 1, points.len() as int));
            }
        }
    } else {
        assert(now.len() == 0);
    }
}

/// The catalog holds the cut points that the reference points add on the segments
/// of the polyline, and no others.
pub proof fn lemma_cut_catalog_holds<P: PolySplit<D>, D: Copy>(
    polyline: Seq<P>,
    points: Seq<P>,
    threshold: Option<D>,
)
    ensures
        forall|cut: CutPoint<P>|
            cut_catalog::<P, D>(polyline, points, threshold).contains(cut) <==> exists|
                segment: int,
                point: int,
            |
                0 <= segment < segment_count(polyline) && 0 <= point < points.len()
                    && #[trigger] emits::<P, D>(polyline, points, threshold, segment, point) && cut
                    == emitted::<P, D>(polyline, points, segment, point),
{
    lemma_catalog_prefix_holds::<P, D>(polyline, points, threshold, segment_count(polyline), 0);
    let catalog = cut_catalog::<P, D>(polyline, points, threshold);
    assert forall|cut: CutPoint<P>| catalog.contains(cut) <==> exists|segment: int, point: int|
        0 <= segment < segment_count(polyline) && 0 <= point < points.len() && #[trigger] emits::<
            P,
            D,
        >(polyline, points, threshold, segment, point) && cut == emitted::<P, D>(
            polyline,
            points,
            segment,
            point,
        ) by {
        if catalog.contains(cut) {
            let (segment, point) = choose|segment: int, point: int|
                tried_before(points, segment, point, segment_count(polyline), 0) && #[trigger] emits::<
                    P,
                    D,
                >(polyline, points, threshold, segment, point) && cut == emitted::<P, D>(
                    polyline,
                    points,
                    segment,
                    point,
                );
        }
        if exists|segment: int, point: int|
            0 <= segment < segment_count(polyline) && 0 <= point < points.len() && #[trigger] emits::<
                P,
                D,
            >(polyline, points, threshold, segment, point) && cut == emitted::<P, D>(
                polyline,
                points,
                segment,
                point,
            ) {
            let (segment, point) = choose|segment: int, point: int|
                0 <= segment < segment_count(polyline) && 0 <= point < points.len()
                    && #[trigger] emits::<P, D>(polyline, points, threshold, segment, point) && cut
                    == emitted::<P, D>(polyline, points, segment, point);
            assert(tried_before(points, segment, point, segment_count(polyline), 0));
        }
    }
}

} // verus!
