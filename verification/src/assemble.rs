//! Putting the pieces together: from the cut points chosen for the reference points
//! and the vertices of the polyline between them.
use vstd::prelude::*;
use crate::catalog::{catalog_wf, clash, cut_wf, CutPoint};
use crate::metric::CutRatioResult;

verus! {

/// The vertices of the polyline that a piece from `from` to `to` passes: the end of
/// the segment of `from`, and so on up to the start of the segment of `to`.
pub open spec fn passed<P>(polyline: Seq<P>, from: CutPoint<P>, to: CutPoint<P>) -> Seq<P> {
    if from.segment_index < to.segment_index {
        polyline.subrange(from.segment_index + 1, to.segment_index + 1)
    } else {
        Seq::empty()
    }
}

/// The piece of the polyline from cut point `from` to cut point `to`.
///
/// It starts with `from`, goes through the vertices between the two and ends with
/// `to`. A cut point at the end of its segment is not put at the start of a piece,
/// and one at the start of its segment is not put at the end: the vertex is the same
/// point. A piece that would consist of one point holds that point twice.
pub open spec fn piece<P>(polyline: Seq<P>, from: CutPoint<P>, to: CutPoint<P>) -> Seq<P> {
    let head = if from.cut_ratio is End {
        Seq::empty()
    } else {
        seq![from.cut_point]
    };
    let tail = if to.cut_ratio is Begin {
        Seq::empty()
    } else {
        seq![to.cut_point]
    };
    let joined = head + passed(polyline, from, to) + tail;
    if joined.len() == 1 {
        joined.push(joined[0])
    } else {
        joined
    }
}

/// The pieces that the chosen cut points divide the polyline into: one from each
/// chosen cut point to the next.
pub open spec fn pieces<P>(polyline: Seq<P>, catalog: Seq<CutPoint<P>>, anchors: Seq<int>) -> Seq<
    Seq<P>,
> {
    Seq::new(
        if anchors.len() > 0 {
            (anchors.len() - 1) as nat
        } else {
            0
        },
        |i: int| piece(polyline, catalog[anchors[i]], catalog[anchors[i + 1]]),
    )
}

/// The pieces held by a list of vectors.
pub open spec fn contents<P>(segments: Seq<Vec<P>>) -> Seq<Seq<P>> {
    Seq::new(segments.len(), |i: int| segments[i]@)
}

/// The chosen cut points as indices into the catalog.
pub open spec fn indices(anchors: Seq<usize>) -> Seq<int> {
    Seq::new(anchors.len(), |i: int| anchors[i] as int)
}

/// Builds the piece of the polyline from one cut point to another.
pub fn build_piece<P: Copy>(polyline: &[P], from: &CutPoint<P>, to: &CutPoint<P>) -> (segment:
    Vec<P>)
    requires
        to.segment_index < polyline.len(),
    ensures
        segment@ == piece(polyline@, *from, *to),
{
    let mut segment: Vec<P> = Vec::new();
    if !matches!(from.cut_ratio, CutRatioResult::End) {
        segment.push(from.cut_point);
    }
    let ghost head = segment@;
    let mut segment_idx: usize = from.segment_index;
    while segment_idx < to.segment_index
        invariant
            to.segment_index < polyline.len(),
            from.segment_index <= segment_idx,
            from.segment_index < to.segment_index ==> segment_idx <= to.segment_index,
            segment@ == head + (if from.segment_index < to.segment_index {
                polyline@.subrange(from.segment_index + 1, segment_idx + 1)
            } else {
                Seq::empty()
            }),
        decreases to.segment_index - segment_idx,
    {
        segment.push(polyline[segment_idx + 1]);
        segment_idx = segment_idx + 1;
    }
    if !matches!(to.cut_ratio, CutRatioResult::Begin) {
        segment.push(to.cut_point);
    }
    if segment.len() == 1 {
        let only = segment[0];
        segment.push(only);
    }
    segment
}

/// Builds the pieces between the chosen cut points, in their order.
pub fn build_segments<P: Copy>(
    polyline: &[P],
    cut_points: &Vec<CutPoint<P>>,
    anchors: &Vec<usize>,
) -> (segments: Vec<Vec<P>>)
    requires
        forall|i: int| 0 <= i < anchors@.len() ==> (#[trigger] anchors@[i]) < cut_points@.len(),
        forall|i: int|
            0 <= i < cut_points@.len() ==> (#[trigger] cut_points@[i]).segment_index
                < polyline@.len(),
    ensures
        contents(segments@) == pieces(polyline@, cut_points@, indices(anchors@)),
{
    let mut segments: Vec<Vec<P>> = Vec::new();
    let mut next: usize = 1;
    while next < anchors.len()
        invariant
            1 <= next,
            next <= anchors@.len() || next == 1,
            segments@.len() == next - 1,
            forall|i: int| 0 <= i < anchors@.len() ==> (#[trigger] anchors@[i]) < cut_points@.len(),
            forall|i: int|
                0 <= i < cut_points@.len() ==> (#[trigger] cut_points@[i]).segment_index
                    < polyline@.len(),
            forall|i: int|
                0 <= i < segments@.len() ==> (#[trigger] segments@[i])@ == piece(
                    polyline@,
                    cut_points@[anchors@[i] as int],
                    cut_points@[anchors@[i + 1] as int],
                ),
        decreases anchors.len() - next,
    {
        let from = &cut_points[anchors[next - 1]];
        let to = &cut_points[anchors[next]];
        let segment = build_piece(polyline, from, to);
        segments.push(segment);
        next = next + 1;
    }
    proof {
        let expected = pieces(polyline@, cut_points@, indices(anchors@));
        assert(indices(anchors@).len() == anchors@.len());
        assert(contents(segments@).len() == expected.len());
        assert forall|i: int| 0 <= i < expected.len() implies contents(segments@)[i]
            == expected[i] by {
            assert(indices(anchors@)[i] == anchors@[i]);
            assert(indices(anchors@)[i + 1] == anchors@[i + 1]);
        }
        assert(contents(segments@) =~= expected);
    }
    segments
}


/// Whether the chosen cut points are entries of the catalog and none of them lies
/// before the one chosen before it.
pub open spec fn advancing<P>(catalog: Seq<CutPoint<P>>, anchors: Seq<int>) -> bool {
    &&& forall|i: int| 0 <= i < anchors.len() ==> 0 <= #[trigger] anchors[i] < catalog.len()
    &&& forall|i: int| 0 <= i < anchors.len() - 1 ==> #[trigger] anchors[i] <= anchors[i + 1]
}

/// Whether every piece has two points or more and ends where the next one starts.
pub open spec fn connected<P>(split: Seq<Seq<P>>) -> bool {
    &&& forall|i: int| 0 <= i < split.len() ==> (#[trigger] split[i]).len() >= 2
    &&& forall|i: int| 0 <= i < split.len() - 1 ==> (#[trigger] split[i]).last() == split[i + 1][0]
}

/// In a well-formed catalog, only the first entry can be the start of the polyline.
pub proof fn lemma_begin_is_first<P>(catalog: Seq<CutPoint<P>>, polyline: Seq<P>, index: int)
    requires
        catalog_wf(catalog, polyline),
        0 <= index < catalog.len(),
        catalog[index].cut_ratio is Begin,
    ensures
        index == 0,
{
    if index > 0 {
        assert(catalog[0].at_or_before(catalog[index]));
        assert(cut_wf(catalog[0], polyline));
        assert(cut_wf(catalog[index], polyline));
        assert(clash(catalog[0], catalog[index]));
    }
}

/// The piece between two entries of a well-formed catalog, of which the second does
/// not lie before the first, has two points or more, starts with the first cut point
/// and ends with the second.
pub proof fn lemma_piece_ends<P>(
    polyline: Seq<P>,
    catalog: Seq<CutPoint<P>>,
    from: int,
    to: int,
)
    requires
        catalog_wf(catalog, polyline),
        0 <= from <= to < catalog.len(),
    ensures
        piece(polyline, catalog[from], catalog[to]).len() >= 2,
        piece(polyline, catalog[from], catalog[to])[0] == catalog[from].cut_point,
        piece(polyline, catalog[from], catalog[to]).last() == catalog[to].cut_point,
{
    let first = catalog[from];
    let second = catalog[to];
    assert(cut_wf(first, polyline));
    assert(cut_wf(second, polyline));
    if from < to {
        assert(first.at_or_before(second));
        assert(!clash(first, second));
    }
    if second.cut_ratio is Begin {
        lemma_begin_is_first(catalog, polyline, to);
    }
    let head = if first.cut_ratio is End {
        Seq::<P>::empty()
    } else {
        seq![first.cut_point]
    };
    let tail = if second.cut_ratio is Begin {
        Seq::<P>::empty()
    } else {
        seq![second.cut_point]
    };
    let middle = passed(polyline, first, second);
    let joined = head + middle + tail;
    if first.segment_index < second.segment_index {
        assert(middle[0] == polyline[first.segment_index + 1]);
        assert(middle.len() == second.segment_index - first.segment_index);
    } else {
        assert(middle.len() == 0);
    }
    assert(joined.len() == head.len() + middle.len() + tail.len());
    if head.len() > 0 {
        assert(joined[0] == first.cut_point);
    } else if middle.len() > 0 {
        assert(joined[0] == middle[0]);
    } else {
        assert(joined[0] == tail[0]);
    }
    if tail.len() > 0 {
        assert(joined[joined.len() - 1] == tail[0]);
    }
}

/// The points of a piece between its first and its last.
pub open spec fn inner<P>(points: Seq<P>) -> Seq<P> {
    points.subrange(1, points.len() - 1)
}

/// Between its first and its last point, a piece holds the vertices of the polyline
/// that it passes; but for the first of them where the piece starts at the end of a
/// segment, since that vertex is the cut point itself.
pub proof fn lemma_piece_inner<P>(
    polyline: Seq<P>,
    catalog: Seq<CutPoint<P>>,
    from: int,
    to: int,
)
    requires
        catalog_wf(catalog, polyline),
        0 <= from <= to < catalog.len(),
    ensures
        piece(polyline, catalog[from], catalog[to]).len() >= 2,
        inner(piece(polyline, catalog[from], catalog[to])) == (if catalog[from].cut_ratio is End
            && catalog[from].segment_index < catalog[to].segment_index {
            passed(polyline, catalog[from], catalog[to]).drop_first()
        } else {
            passed(polyline, catalog[from], catalog[to])
        }),
{
    let first = catalog[from];
    let second = catalog[to];
    lemma_piece_ends(polyline, catalog, from, to);
    assert(cut_wf(first, polyline));
    assert(cut_wf(second, polyline));
    if from < to {
        assert(first.at_or_before(second));
        assert(!clash(first, second));
    }
    if second.cut_ratio is Begin {
        lemma_begin_is_first(catalog, polyline, to);
    }
    let middle = passed(polyline, first, second);
    let whole = piece(polyline, first, second);
    if first.cut_ratio is End && first.segment_index < second.segment_index {
        assert(inner(whole) =~= middle.drop_first());
    } else {
        assert(inner(whole) =~= middle);
    }
}

/// The pieces along chosen cut points that advance through a well-formed catalog
/// are one fewer than the cut points, each has two points or more, and each ends
/// where the next one starts.
pub proof fn lemma_pieces_connected<P>(
    polyline: Seq<P>,
    catalog: Seq<CutPoint<P>>,
    anchors: Seq<int>,
)
    requires
        catalog_wf(catalog, polyline),
        advancing(catalog, anchors),
        anchors.len() >= 1,
    ensures
        pieces(polyline, catalog, anchors).len() == anchors.len() - 1,
        connected(pieces(polyline, catalog, anchors)),
{
    let split = pieces(polyline, catalog, anchors);
    assert forall|i: int| 0 <= i < split.len() implies (#[trigger] split[i]).len() >= 2
        && split[i][0] == catalog[anchors[i]].cut_point && split[i].last()
        == catalog[anchors[i + 1]].cut_point by {
        assert(anchors[i] <= anchors[i + 1]);
        lemma_piece_ends(polyline, catalog, anchors[i], anchors[i + 1]);
    }
    assert forall|i: int| 0 <= i < split.len() - 1 implies (#[trigger] split[i]).last()
        == split[i + 1][0] by {
        assert(split[i + 1][0] == catalog[anchors[i + 1]].cut_point);
    }
}

/// The vertices of the polyline that the first `count` pieces pass, piece after
/// piece.
pub open spec fn passed_upto<P>(
    polyline: Seq<P>,
    catalog: Seq<CutPoint<P>>,
    anchors: Seq<int>,
    count: int,
) -> Seq<P>
    decreases count,
{
    if count <= 0 {
        Seq::empty()
    } else {
        passed_upto(polyline, catalog, anchors, count - 1) + passed(
            polyline,
            catalog[anchors[count - 1]],
            catalog[anchors[count]],
        )
    }
}

/// The pieces pass every vertex of the polyline between the first chosen cut point
/// and the last one, each vertex once and in the order of the polyline: the
/// vertices that they pass are those from behind the segment start of the first cut
/// point up to the segment start of the last.
pub proof fn lemma_vertices_kept<P>(
    polyline: Seq<P>,
    catalog: Seq<CutPoint<P>>,
    anchors: Seq<int>,
    count: int,
)
    requires
        catalog_wf(catalog, polyline),
        advancing(catalog, anchors),
        0 <= count < anchors.len(),
    ensures
        catalog[anchors[0]].segment_index <= catalog[anchors[count]].segment_index
            < polyline.len(),
        passed_upto(polyline, catalog, anchors, count) == polyline.subrange(
            catalog[anchors[0]].segment_index + 1,
            catalog[anchors[count]].segment_index + 1,
        ),
    decreases count,
{
    assert(cut_wf(catalog[anchors[count]], polyline));
    if count > 0 {
        lemma_vertices_kept(polyline, catalog, anchors, count - 1);
        let from = catalog[anchors[count - 1]];
        let to = catalog[anchors[count]];
        assert(anchors[count - 1] <= anchors[count - 1 + 1]);
        if anchors[count - 1] < anchors[count] {
            assert(from.at_or_before(to));
        }
        assert(passed_upto(polyline, catalog, anchors, count) =~= polyline.subrange(
            catalog[anchors[0]].segment_index + 1,
            catalog[anchors[count]].segment_index + 1,
        ));
    } else {
        assert(passed_upto(polyline, catalog, anchors, count) =~= polyline.subrange(
            catalog[anchors[0]].segment_index + 1,
            catalog[anchors[count]].segment_index + 1,
        ));
    }
}

} // verus!
