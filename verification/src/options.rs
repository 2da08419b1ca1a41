use vstd::prelude::*;

use crate::geom::Rgb;

verus! {

/// The widest tolerance, in device pixels, that a comparison accepts.
pub const MAX_TOLERANCE: i32 = 8;

/// Above this tolerance a line that only moved is no longer reported.
pub const TOLERANCE_HIDES_MOVEMENT: i32 = 3;

/// The side of one cell of the change grid, in scanned pixels.
pub const CHANGE_CELL: i32 = 8;

/// The least unmatched ink, in pixels, that makes a region worth visiting.
pub const CHANGE_MIN_PIXELS: i32 = 4;

/// The value of `Options::shared_ink` at which shared artwork is drawn at full
/// strength.
pub const SHARED_INK_FULL: i32 = 100;

/// How much of its ink artwork inside an excluded region keeps, in percent.
pub const MASK_INK_PERCENT: i32 = 35;

/// The colour of the dashed edge drawn round an excluded region.
pub open spec fn spec_mask_edge_color() -> Rgb {
    Rgb { r: 0x30, g: 0x60, b: 0xd0 }
}

/// The colour of the dashed edge drawn round an excluded region.
pub fn mask_edge_color() -> (c: Rgb)
    ensures
        c == spec_mask_edge_color(),
{
    Rgb { r: 0x30, g: 0x60, b: 0xd0 }
}

/// How the two documents are laid over each other.
#[derive(Clone, Copy, PartialEq, Eq, Debug)]
pub struct Options {
    /// The colour of ink only the earlier revision has.
    pub only_a: Rgb,
    /// The colour of ink only the later revision has.
    pub only_b: Rgb,
    /// How far, in device pixels, ink may sit from its counterpart and still
    /// count as the same artwork. Clamped to `0..=MAX_TOLERANCE` where used.
    pub tolerance: i32,
    /// How strongly the artwork both revisions share is drawn, from 0 (white)
    /// to `SHARED_INK_FULL` (black). Clamped where used.
    pub shared_ink: i32,
}

impl Options {
    /// The usual red and green, one pixel of tolerance, shared artwork at full
    /// strength.
    pub open spec fn spec_default() -> Options {
        Options {
            only_a: Rgb { r: 0xff, g: 0, b: 0 },
            only_b: Rgb { r: 0, g: 0xff, b: 0 },
            tolerance: 1,
            shared_ink: SHARED_INK_FULL,
        }
    }

    /// The tolerance the comparison actually uses.
    pub open spec fn spec_radius(self) -> int {
        if self.tolerance < 0 {
            0
        } else if self.tolerance > MAX_TOLERANCE {
            MAX_TOLERANCE as int
        } else {
            self.tolerance as int
        }
    }
}

impl Default for Options {
    fn default() -> (o: Self)
        ensures
            o == Options::spec_default(),
    {
        Options {
            only_a: Rgb { r: 0xff, g: 0, b: 0 },
            only_b: Rgb { r: 0, g: 0xff, b: 0 },
            tolerance: 1,
            shared_ink: SHARED_INK_FULL,
        }
    }
}

/// Clamps `v` into `lo..=hi`.
pub fn clamp_i32(v: i32, lo: i32, hi: i32) -> (r: i32)
    requires
        lo <= hi,
    ensures
        r == (if v < lo { lo as int } else if v > hi { hi as int } else { v as int }),
{
    if v < lo {
        lo
    } else if v > hi {
        hi
    } else {
        v
    }
}

/// Which of the three views a tile is composed for.
#[derive(Clone, Copy, PartialEq, Eq, Debug, Structural)]
pub enum ViewMode {
    /// The two revisions laid over each other, differences in colour.
    Overlay,
    /// The earlier revision alone, untouched.
    OnlyA,
    /// The later revision alone, untouched.
    OnlyB,
}

} // verus!
