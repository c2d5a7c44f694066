//! Splitting a polyline into consecutive pieces by a list of reference points
//! that need not lie on the polyline.
//!
//! Every reference point is attached to a position on the polyline, its anchor. The
//! anchors advance along the polyline, and the distances from the reference points
//! to their anchors add up to the least total that any such choice of anchors has.
//! The pieces lead from each anchor to the next.
//!
//! The work is done in four steps, each in a module of its own:
//!
//! - `catalog` collects the cut points: the positions on the polyline closest to the
//!   reference points, in their order along the polyline;
//! - `graph` offers to each reference point the cut points that are close enough;
//! - `path` searches the cheapest choice of one cut point for each reference point
//!   that never steps back, with the help of `queue`;
//! - `assemble` builds the pieces between the cut points chosen.
//!
//! `polysplit` puts the steps together, `metric` says what is asked of the points,
//! and `error` lists the ways in which a split fails. The other modules hold what is
//! proved about the steps: `reached` that the search misses no path, `order` and
//! `cheapest` that it finds the cheapest one where distances are ordered,
//! `threshold` that a wider threshold loses nothing, and `whole` that splitting by
//! its two ends gives back the polyline.
pub mod assemble;
pub mod catalog;
pub mod cheapest;
pub mod error;
pub mod graph;
pub mod metric;
pub mod order;
pub mod path;
pub mod polysplit;
pub mod queue;
pub mod reached;
pub mod threshold;
pub mod whole;

pub use crate::error::{PolySplitError, PolySplitErrorKind};
pub use crate::metric::{CutRatioResult, DistanceToSegmentResult, PolySplit};
pub use crate::polysplit::polyline_split;
