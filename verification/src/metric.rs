//! What a point type has to offer so that polylines made of it can be split.
use vstd::prelude::*;

verus! {

/// Where on a segment the position closest to a point lies.
///
/// The order of the three cases, and of the numbers inside `Medium`, is the order in
/// which the positions follow each other from the start of the segment to its end.
#[derive(Debug, Clone, Copy, PartialEq, Eq, PartialOrd, Ord, Structural)]
pub enum CutRatioResult {
    /// At the start of the segment.
    Begin,
    /// Strictly inside the segment. The number grows with the distance from the start
    /// of the segment; only its order matters.
    Medium(u64),
    /// At the end of the segment.
    End,
}

impl CutRatioResult {
    /// The place of a cut ratio on the number line: `Begin` lies before every
    /// `Medium`, and `End` after.
    pub open spec fn rank(self) -> int {
        match self {
            CutRatioResult::Begin => -1,
            CutRatioResult::Medium(ratio) => ratio as int,
            CutRatioResult::End => u64::MAX as int + 1,
        }
    }

    /// Whether `self` lies at or before `other` on a segment.
    pub fn is_at_or_before(&self, other: &CutRatioResult) -> (b: bool)
        ensures
            b == (self.rank() <= other.rank()),
    {
        match (self, other) {
            (CutRatioResult::Begin, _) => true,
            (CutRatioResult::Medium(_), CutRatioResult::Begin) => false,
            (CutRatioResult::Medium(s), CutRatioResult::Medium(o)) => *s <= *o,
            (CutRatioResult::Medium(_), CutRatioResult::End) => true,
            (CutRatioResult::End, CutRatioResult::End) => true,
            (CutRatioResult::End, _) => false,
        }
    }
}

/// The position on a segment that is closest to a point.
pub struct DistanceToSegmentResult<P, D> {
    /// Where on the segment the position lies.
    pub cut_ratio: CutRatioResult,
    /// The position itself.
    pub cut_point: P,
    /// How far the point is from the position.
    pub distance: D,
}

/// The measure of distance that a split works with.
///
/// Each method comes with a specification function that names its result. An
/// implementation promises that the method returns what the function says, and
/// nothing else: whatever a split states about distances, it states over these four
/// functions.
pub trait PolySplit<D: Copy>: Copy {
    /// The distance from `self` to `point`.
    spec fn point_distance(&self, point: &Self) -> D;

    /// The position on the segment closest to `self`.
    spec fn projection(&self, segment: (&Self, &Self)) -> DistanceToSegmentResult<Self, D>;

    /// Whether `distance` is greater than `limit`.
    spec fn exceeds(distance: D, limit: D) -> bool;

    /// The two distances taken together.
    spec fn total(first: D, second: D) -> D;

    /// Returns the distance to another point.
    fn distance_to_point(&self, point: &Self) -> (distance: D)
        ensures
            distance == self.point_distance(point),
    ;

    /// Returns the position on the segment closest to `self`: where it lies, the
    /// position itself and how far away it is.
    fn distance_to_segment(&self, segment: (&Self, &Self)) -> (result: DistanceToSegmentResult<
        Self,
        D,
    >)
        ensures
            result == self.projection(segment),
    ;

    /// Tells whether `distance` is greater than `limit`.
    fn is_farther(distance: D, limit: D) -> (farther: bool)
        ensures
            farther == Self::exceeds(distance, limit),
    ;

    /// Adds two distances.
    fn add_distances(first: D, second: D) -> (sum: D)
        ensures
            sum == Self::total(first, second),
    ;
}

/// Whether a distance passes the threshold: every distance does where there is
/// none, and otherwise those that do not exceed it.
pub open spec fn within<P: PolySplit<D>, D: Copy>(distance: D, threshold: Option<D>) -> bool {
    match threshold {
        None => true,
        Some(limit) => !P::exceeds(distance, limit),
    }
}

/// Tells whether a distance passes the threshold.
pub fn is_within<P: PolySplit<D>, D: Copy>(distance: D, threshold: Option<D>) -> (b: bool)
    ensures
        b == within::<P, D>(distance, threshold),
{
    match threshold {
        None => true,
        Some(limit) => !P::is_farther(distance, limit),
    }
}

} // verus!
