//! The ways in which a split can fail.
use vstd::prelude::*;

verus! {

/// What went wrong in a split.
#[derive(Debug, Clone, Copy, PartialEq, Eq, Structural)]
#[non_exhaustive]
pub enum PolySplitErrorKind {
    /// The polyline has fewer than two points.
    InvalidPolyline,
    /// Fewer than two reference points were given.
    InvalidPoints,
    /// A reference point has no candidate position on the polyline within the threshold.
    PointFarAway,
    /// No choice of positions advances along the polyline through all reference points.
    CannotSplit,
}

/// A failed split: its kind, a short text for people, and the index of the reference
/// point that is to blame where there is one.
#[derive(Debug)]
pub struct PolySplitError {
    /// What went wrong.
    pub kind: PolySplitErrorKind,
    /// The same in words.
    pub message: String,
    /// The reference point that has no cut point offered to it, for that kind of
    /// failure.
    pub point_index: Option<usize>,
}

/// The text that goes with each kind of failure.
pub open spec fn message_of(kind: PolySplitErrorKind) -> Seq<char> {
    match kind {
        PolySplitErrorKind::InvalidPolyline => "polyline has not enough points"@,
        PolySplitErrorKind::InvalidPoints => "number of points are not enough"@,
        PolySplitErrorKind::PointFarAway => "point has no closest segments"@,
        PolySplitErrorKind::CannotSplit => "cannot split polyline"@,
    }
}

impl PolySplitError {
    /// A failure is well formed when its text is the one of its kind and it names a
    /// reference point exactly when a point is too far away.
    pub open spec fn wf(&self) -> bool {
        &&& self.message@ == message_of(self.kind)
        &&& self.point_index.is_some() <==> self.kind == PolySplitErrorKind::PointFarAway
    }

    /// A failure of the given kind that names no reference point.
    pub fn new(kind: PolySplitErrorKind) -> (e: PolySplitError)
        requires
            kind != PolySplitErrorKind::PointFarAway,
        ensures
            e.kind == kind,
            e.point_index.is_none(),
            e.wf(),
    {
        let message = match kind {
            PolySplitErrorKind::InvalidPolyline => "polyline has not enough points".to_owned(),
            PolySplitErrorKind::InvalidPoints => "number of points are not enough".to_owned(),
            PolySplitErrorKind::PointFarAway => "point has no closest segments".to_owned(),
            PolySplitErrorKind::CannotSplit => "cannot split polyline".to_owned(),
        };
        PolySplitError { kind, message, point_index: None }
    }

    /// The failure for a reference point that is too far from the polyline.
    pub fn far_away(point_index: usize) -> (e: PolySplitError)
        ensures
            e.kind == PolySplitErrorKind::PointFarAway,
            e.point_index == Some(point_index),
            e.wf(),
    {
        PolySplitError {
            kind: PolySplitErrorKind::PointFarAway,
            message: "point has no closest segments".to_owned(),
            point_index: Some(point_index),
        }
    }

    /// The kind of the failure.
    pub fn kind(&self) -> (k: &PolySplitErrorKind)
        ensures
            *k == self.kind,
    {
        &self.kind
    }

    /// The text of the failure.
    pub fn message(&self) -> (text: String)
        ensures
            text@ == self.message@,
    {
        self.message.clone()
    }
}

} // verus!
