use vstd::prelude::*;

verus! {

/// A quarter-turn rotation applied to a page when it is rendered (clockwise).
#[derive(Clone, Copy, Debug, PartialEq, Eq, Structural)]
pub enum RotationAngle {
    Rotate0,
    Rotate90,
    Rotate180,
    Rotate270,
}

impl RotationAngle {
    /// The rotation in degrees, as a spec value.
    pub open spec fn degrees(self) -> nat {
        match self {
            RotationAngle::Rotate0 => 0,
            RotationAngle::Rotate90 => 90,
            RotationAngle::Rotate180 => 180,
            RotationAngle::Rotate270 => 270,
        }
    }

    /// The rotation that lies in this quarter turn's position from `degrees`.
    pub open spec fn from_degrees(d: nat) -> RotationAngle {
        if d % 360 == 90 {
            RotationAngle::Rotate90
        } else if d % 360 == 180 {
            RotationAngle::Rotate180
        } else if d % 360 == 270 {
            RotationAngle::Rotate270
        } else {
            RotationAngle::Rotate0
        }
    }

    /// Whether the rotation turns the page on its side.
    pub open spec fn is_quarter(self) -> bool {
        self is Rotate90 || self is Rotate270
    }

    /// The next rotation, a further quarter turn clockwise.
    pub fn next(self) -> (r: RotationAngle)
        ensures
            r == RotationAngle::from_degrees(self.degrees() + 90),
    {
        match self {
            RotationAngle::Rotate0 => RotationAngle::Rotate90,
            RotationAngle::Rotate90 => RotationAngle::Rotate180,
            RotationAngle::Rotate180 => RotationAngle::Rotate270,
            RotationAngle::Rotate270 => RotationAngle::Rotate0,
        }
    }

    /// The rotation in whole degrees: 0, 90, 180 or 270.
    pub fn to_degrees(self) -> (r: u32)
        ensures
            r == self.degrees(),
    {
        match self {
            RotationAngle::Rotate0 => 0,
            RotationAngle::Rotate90 => 90,
            RotationAngle::Rotate180 => 180,
            RotationAngle::Rotate270 => 270,
        }
    }

    /// Whether two rotations are the same (usable from verified code).
    pub fn same_as(self, other: RotationAngle) -> (r: bool)
        ensures
            r == (self == other),
    {
        self == other
    }
}

/// Point-space page dimensions used for overlay placement: width and height
/// are swapped when the page is turned on its side.
pub open spec fn overlay_dims_spec(width: u32, height: u32, rotation: RotationAngle) -> (u32, u32) {
    if rotation.is_quarter() {
        (height, width)
    } else {
        (width, height)
    }
}

/// The point-space (width, height) of a page as placed after `rotation`.
pub fn overlay_dims(width: u32, height: u32, rotation: RotationAngle) -> (r: (u32, u32))
    ensures
        r == overlay_dims_spec(width, height, rotation),
        rotation.is_quarter() ==> r == (height, width),
        !rotation.is_quarter() ==> r == (width, height),
{
    match rotation {
        RotationAngle::Rotate90 | RotationAngle::Rotate270 => (height, width),
        _ => (width, height),
    }
}

/// Turning a page on its side swaps the overlay dimensions relative to the
/// upright and upside-down placements of the same page.
pub proof fn lemma_quarter_turn_swaps_dims(
    width: u32,
    height: u32,
    quarter: RotationAngle,
    upright: RotationAngle,
)
    requires
        quarter is Rotate90 || quarter is Rotate270,
        upright is Rotate0 || upright is Rotate180,
    ensures
        overlay_dims_spec(width, height, quarter).0 == overlay_dims_spec(width, height, upright).1,
        overlay_dims_spec(width, height, quarter).1 == overlay_dims_spec(width, height, upright).0,
{
}

} // verus!
