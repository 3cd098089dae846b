//! The style enums that the stroke decisions read.

use vstd::prelude::*;

verus! {

/// Where the stroke band sits relative to the path, in user-facing terms.
///
/// For closed subpaths, `Inside` and `Outside` refer to the filled region
/// of the whole path under nonzero winding. For open subpaths `Inside`
/// maps to the right of travel and `Outside` to the left.
#[derive(Copy, Clone, Debug, Default, PartialEq, Eq, Structural, Hash)]
pub enum StrokeAlignment {
    /// Half the width on each side of the path (ordinary stroking).
    #[default]
    Center,
    /// The band hugs the inside of the filled region.
    Inside,
    /// The band hugs the outside of the filled region.
    Outside,
}

/// Geometric side selection relative to the path's travel direction.
///
/// In Y-down coordinates, `Right` is the clockwise (`turn_90`) side of the
/// tangent.
#[derive(Copy, Clone, Debug, Default, PartialEq, Eq, Structural, Hash)]
pub enum StrokeSide {
    /// Half the width on each side.
    #[default]
    Center,
    /// The whole band on the left of the travel direction.
    Left,
    /// The whole band on the right of the travel direction.
    Right,
}

/// How an open end of a band is finished.
#[derive(Copy, Clone, Debug, Default, PartialEq, Eq, Structural, Hash)]
pub enum Cap {
    /// Flat end at the endpoint.
    #[default]
    Butt,
    /// Half-disc end.
    Round,
    /// Flat end extended by half the width.
    Square,
}

/// How consecutive segments of a band are connected.
#[derive(Copy, Clone, Debug, Default, PartialEq, Eq, Structural, Hash)]
pub enum Join {
    /// Straight chord between the two offset points.
    Bevel,
    /// Sharp corner, falling back to bevel past the miter limit.
    #[default]
    Miter,
    /// Circular arc around the corner.
    Round,
}

/// The side across the path from `s`; `Center` stays `Center`.
pub open spec fn spec_opposite(s: StrokeSide) -> StrokeSide {
    match s {
        StrokeSide::Left => StrokeSide::Right,
        StrokeSide::Right => StrokeSide::Left,
        StrokeSide::Center => StrokeSide::Center,
    }
}

impl StrokeSide {
    /// The side across the path; `Center` is its own opposite.
    pub fn opposite(self) -> (r: StrokeSide)
        ensures
            r == spec_opposite(self),
    {
        match self {
            StrokeSide::Left => StrokeSide::Right,
            StrokeSide::Right => StrokeSide::Left,
            StrokeSide::Center => StrokeSide::Center,
        }
    }
}

/// Taking the opposite side twice gives back the side itself.
pub proof fn lemma_opposite_involution(s: StrokeSide)
    ensures
        spec_opposite(spec_opposite(s)) == s,
{
}

} // verus!
