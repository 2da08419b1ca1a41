//! The comparison kernel of a schematic-revision comparer, and the model of an
//! open comparison around it.
//!
//! The kernel takes pixels and gives back pixels and rectangles: ink
//! extraction, tolerance, compositing and clustering of changes. Around it
//! stand the pairing of the two documents' sheets (by offset, or by what is
//! written on them), the comparison of their words, the scan of a sheet, the
//! report, the suggestions of regions to exclude, and the settings kept
//! between sessions. Page space is in thousandths of a point throughout.

pub mod geom;
pub mod options;
pub mod pixels;
pub mod ink;
pub mod dilate;
pub mod compose;
pub mod changes;
pub mod pairing;
pub mod words;
pub mod signature;
pub mod matching;
pub mod text;
pub mod session;
pub mod scan;
pub mod tile;
pub mod report;
pub mod render;
pub mod sweep;
pub mod settings;
pub mod samples;
pub mod abi;
pub mod pdf;

pub use abi::{ScPair, ScViewMode};
pub use changes::{find_changes, Change};
pub use compose::{compose, ink_plane, ink_row, TileMasks};
pub use dilate::dilate_ink;
pub use geom::{PageRect, Point, Rect, Rgb, Size};
pub use ink::{compose_ink, ink_from_rgb, read_ink_row};
pub use matching::{match_sheets, GAP, MATCH_FLOOR};
pub use options::{
    mask_edge_color, Options, ViewMode, CHANGE_CELL, CHANGE_MIN_PIXELS, MASK_INK_PERCENT,
    MAX_TOLERANCE, SHARED_INK_FULL, TOLERANCE_HIDES_MOVEMENT,
};
pub use pairing::{Pair, Pairing};
pub use pixels::{PixelFormat, Pixels, Tile};
pub use scan::{SheetChanges, SCAN_DPI};
pub use session::Session;
pub use signature::Signature;
pub use sweep::{suggest_ignores, SweepStatus};
pub use words::{diff_words, TextChange, TextChangeKind, Word};
