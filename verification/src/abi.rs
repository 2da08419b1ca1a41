//! The plain values that cross the boundary to the shell: which view a tile is
//! composed for, and which sheet of each document a virtual page stands for.

use vstd::prelude::*;

use crate::options::ViewMode;
use crate::pairing::Pair;
use crate::render::Error;

verus! {

/// Which of the three views a tile is composed for, as the shell names them.
#[derive(Clone, Copy, PartialEq, Eq, Debug, Structural)]
pub enum ScViewMode {
    Overlay,
    OnlyA,
    OnlyB,
}

/// Which sheet of each document a virtual page stands for. 0 means the
/// document has no matching sheet, and that page is drawn as entirely added or
/// removed.
#[derive(Clone, Copy, PartialEq, Eq, Debug, Default, Structural)]
pub struct ScPair {
    pub page_a: i32,
    pub page_b: i32,
}

pub open spec fn view_mode_of(m: ScViewMode) -> ViewMode {
    match m {
        ScViewMode::Overlay => ViewMode::Overlay,
        ScViewMode::OnlyA => ViewMode::OnlyA,
        ScViewMode::OnlyB => ViewMode::OnlyB,
    }
}

pub open spec fn sc_view_mode_of(m: ViewMode) -> ScViewMode {
    match m {
        ViewMode::Overlay => ScViewMode::Overlay,
        ViewMode::OnlyA => ScViewMode::OnlyA,
        ViewMode::OnlyB => ScViewMode::OnlyB,
    }
}

impl From<ScViewMode> for ViewMode {
    fn from(m: ScViewMode) -> (r: ViewMode) {
        match m {
            ScViewMode::OnlyA => ViewMode::OnlyA,
            ScViewMode::OnlyB => ViewMode::OnlyB,
            ScViewMode::Overlay => ViewMode::Overlay,
        }
    }
}

impl vstd::std_specs::convert::FromSpecImpl<ScViewMode> for ViewMode {
    open spec fn obeys_from_spec() -> bool {
        true
    }

    open spec fn from_spec(m: ScViewMode) -> ViewMode {
        view_mode_of(m)
    }
}

impl From<ViewMode> for ScViewMode {
    fn from(m: ViewMode) -> (r: ScViewMode) {
        match m {
            ViewMode::OnlyA => ScViewMode::OnlyA,
            ViewMode::OnlyB => ScViewMode::OnlyB,
            ViewMode::Overlay => ScViewMode::Overlay,
        }
    }
}

impl vstd::std_specs::convert::FromSpecImpl<ViewMode> for ScViewMode {
    open spec fn obeys_from_spec() -> bool {
        true
    }

    open spec fn from_spec(m: ViewMode) -> ScViewMode {
        sc_view_mode_of(m)
    }
}

impl From<Pair> for ScPair {
    fn from(p: Pair) -> (r: ScPair) {
        ScPair { page_a: p.page_a, page_b: p.page_b }
    }
}

impl vstd::std_specs::convert::FromSpecImpl<Pair> for ScPair {
    open spec fn obeys_from_spec() -> bool {
        true
    }

    open spec fn from_spec(p: Pair) -> ScPair {
        ScPair { page_a: p.page_a, page_b: p.page_b }
    }
}

/// 0 is success. Every failure is negative, so `status < 0` is the whole
/// check a caller needs.
pub const SC_OK: i32 = 0;
/// The render or scan has been started but has not finished.
pub const SC_PENDING: i32 = 1;
pub const SC_ERR_INVALID: i32 = -1;
pub const SC_ERR_IO: i32 = -2;
pub const SC_ERR_FORMAT: i32 = -3;
pub const SC_ERR_NO_PAGE: i32 = -4;
pub const SC_ERR_GEOMETRY: i32 = -5;

/// The status code the shell is given for a renderer error. A renderer that
/// refused is reported as a document this tool cannot read.
pub open spec fn spec_status_of(e: Error) -> i32 {
    match e {
        Error::Io(_) => SC_ERR_IO,
        Error::Format(_) => SC_ERR_FORMAT,
        Error::NoSuchPage(_) => SC_ERR_NO_PAGE,
        Error::BadGeometry => SC_ERR_GEOMETRY,
        Error::Mupdf(_) => SC_ERR_FORMAT,
    }
}

/// The status code the shell is given for a renderer error.
pub fn status_of(e: &Error) -> (s: i32)
    ensures
        s == spec_status_of(*e),
        s < 0,
{
    match e {
        Error::Io(_) => SC_ERR_IO,
        Error::Format(_) => SC_ERR_FORMAT,
        Error::NoSuchPage(_) => SC_ERR_NO_PAGE,
        Error::BadGeometry => SC_ERR_GEOMETRY,
        Error::Mupdf(_) => SC_ERR_FORMAT,
    }
}

/// A view mode survives the trip to the shell and back, and so does the
/// shell's name for one.
pub proof fn law_view_mode_round_trip(m: ViewMode, s: ScViewMode)
    ensures
        view_mode_of(sc_view_mode_of(m)) == m,
        sc_view_mode_of(view_mode_of(s)) == s,
{
}

} // verus!
