use vstd::prelude::*;

use crate::changes::{find_changes, law_changes_share_no_ink, pixel_total, spec_find_changes, Change};
use crate::compose::ink_plane;
use crate::geom::{PageRect, Rect};
use crate::ink::{lemma_plane_seq, opt_px, plane_seq};
use crate::options::{Options, CHANGE_CELL};
use crate::pixels::Pixels;
use crate::session::Session;

verus! {

/// The resolution every sheet is scanned at, whatever the reader is zoomed to.
///
/// Fixed on purpose. The change *list* must not depend on the view, or the same
/// document answers "how many sheets changed" differently depending on what the
/// reader happened to be looking at. 100 dpi is enough to find a changed
/// component and cheap enough to sweep 85 sheets.
pub const SCAN_DPI: i32 = 100;

/// Page space is in thousandths of a point, and a scanned pixel is
/// `72 / SCAN_DPI` of a point: this many thousandths.
pub const PAGE_UNITS_PER_SCAN_PIXEL: i32 = 720;

/// The largest scanned coordinate whose page-space value still fits.
pub const MAX_SCAN_COORD: i32 = 2_982_616;

/// What one sheet's scan found, in page space (thousandths of a point).
#[derive(Clone, Debug)]
pub struct SheetChanges {
    pub page_no: i32,
    pub changes: Vec<PageRect>,
    /// Unmatched ink, summed over the regions. A rough "how much changed".
    pub pixels: i32,
    /// Regions that were found but fall inside an excluded rectangle. Counted,
    /// never silently dropped: "not compared" must not read as "unchanged".
    pub ignored: i32,
    /// The two revisions of the sheet are different sizes on paper.
    pub size_mismatch: bool,
    /// How much of the sheet the changes cover, in hundredths of a percent.
    pub coverage: u32,
}

impl Default for SheetChanges {
    /// A scan that found nothing, of no particular sheet.
    fn default() -> (s: Self)
        ensures
            s.page_no == 0,
            s.changes@.len() == 0,
            s.pixels == 0,
            s.ignored == 0,
            !s.size_mismatch,
            s.coverage == 0,
    {
        SheetChanges { page_no: 0, changes: Vec::new(), pixels: 0, ignored: 0, size_mismatch: false, coverage: 0 }
    }
}

/// A box of scanned pixels in page space.
pub open spec fn to_page(r: Rect) -> PageRect {
    PageRect {
        x: (r.x * PAGE_UNITS_PER_SCAN_PIXEL) as i32,
        y: (r.y * PAGE_UNITS_PER_SCAN_PIXEL) as i32,
        dx: (r.dx * PAGE_UNITS_PER_SCAN_PIXEL) as i32,
        dy: (r.dy * PAGE_UNITS_PER_SCAN_PIXEL) as i32,
    }
}

/// A box of scanned pixels small enough to have a page-space value.
pub open spec fn scan_box_fits(r: Rect) -> bool {
    &&& -MAX_SCAN_COORD <= r.x <= MAX_SCAN_COORD
    &&& -MAX_SCAN_COORD <= r.y <= MAX_SCAN_COORD
    &&& -MAX_SCAN_COORD <= r.dx <= MAX_SCAN_COORD
    &&& -MAX_SCAN_COORD <= r.dy <= MAX_SCAN_COORD
}

/// Some excluded region holds the whole of `r`.
pub open spec fn excluded(rects: Seq<PageRect>, r: PageRect) -> bool {
    exists|k: int| 0 <= k < rects.len() && #[trigger] rects[k].spec_contains_rect(r)
}

/// The boxes of the first `k` changes that no excluded region holds, in page
/// space.
pub open spec fn kept_boxes(rects: Seq<PageRect>, found: Seq<Change>, k: int) -> Seq<PageRect>
    decreases k,
{
    if k <= 0 {
        Seq::empty()
    } else if excluded(rects, to_page(found[k - 1].box_)) {
        kept_boxes(rects, found, k - 1)
    } else {
        kept_boxes(rects, found, k - 1).push(to_page(found[k - 1].box_))
    }
}

/// The unmatched ink of the first `k` changes that are kept.
pub open spec fn kept_pixels(rects: Seq<PageRect>, found: Seq<Change>, k: int) -> int
    decreases k,
{
    if k <= 0 {
        0
    } else if excluded(rects, to_page(found[k - 1].box_)) {
        kept_pixels(rects, found, k - 1)
    } else {
        kept_pixels(rects, found, k - 1) + found[k - 1].pixels
    }
}

/// How many of the first `k` changes an excluded region holds.
pub open spec fn excluded_count(rects: Seq<PageRect>, found: Seq<Change>, k: int) -> int
    decreases k,
{
    if k <= 0 {
        0
    } else if excluded(rects, to_page(found[k - 1].box_)) {
        excluded_count(rects, found, k - 1) + 1
    } else {
        excluded_count(rects, found, k - 1)
    }
}

/// What a scan of virtual sheet `page_no` finds before anything is excluded:
/// nothing for a sheet neither document has or an empty geometry, else the
/// changes between the two sides' ink.
pub open spec fn scan_found(
    s: Session,
    page_no: int,
    a: Option<Pixels>,
    b: Option<Pixels>,
    w: int,
    h: int,
) -> Seq<Change> {
    let pair = s.spec_pair(page_no);
    if (pair.page_a == 0 && pair.page_b == 0) || w <= 0 || h <= 0 {
        Seq::empty()
    } else {
        spec_find_changes(plane_seq(a, w, h), plane_seq(b, w, h), w, h, s.spec_options())
    }
}

proof fn lemma_pixel_total_prefix(cs: Seq<Change>, k: int)
    requires
        0 <= k <= cs.len(),
        forall|i: int| 0 <= i < cs.len() ==> 0 <= (#[trigger] cs[i]).pixels,
    ensures
        0 <= pixel_total(cs.subrange(0, k)) <= pixel_total(cs),
    decreases cs.len(),
{
    if cs.len() > 0 {
        let d = cs.drop_last();
        assert forall|i: int| 0 <= i < d.len() implies 0 <= (#[trigger] d[i]).pixels by {
            assert(d[i] == cs[i]);
        }
        if k == cs.len() {
            assert(cs.subrange(0, k) =~= cs);
            lemma_pixel_total_prefix(d, k - 1);
            assert(d.subrange(0, k - 1) =~= d);
        } else {
            lemma_pixel_total_prefix(d, k);
            assert(d.subrange(0, k) =~= cs.subrange(0, k));
        }
    }
}

/// The area of a page-space box; nothing for an empty one.
pub open spec fn box_area(r: PageRect) -> int {
    if r.dx > 0 && r.dy > 0 {
        r.dx * r.dy
    } else {
        0
    }
}

/// The areas of some boxes, summed; where two overlap, both count.
pub open spec fn boxes_area(bs: Seq<PageRect>) -> int
    decreases bs.len(),
{
    if bs.len() == 0 {
        0
    } else {
        boxes_area(bs.drop_last()) + box_area(bs.last())
    }
}

/// The area of a sheet scanned at `w` by `h` pixels, in page space.
pub open spec fn sheet_area(w: int, h: int) -> int {
    (w * PAGE_UNITS_PER_SCAN_PIXEL) * (h * PAGE_UNITS_PER_SCAN_PIXEL)
}

/// How much of a `w` by `h` sheet the boxes cover, in hundredths of a
/// percent, rounded down: their areas summed and capped at the whole sheet,
/// over the sheet's area. Nothing for an empty geometry.
pub open spec fn spec_coverage(bs: Seq<PageRect>, w: int, h: int) -> int {
    if w <= 0 || h <= 0 {
        0
    } else {
        let whole = sheet_area(w, h);
        let covered = if boxes_area(bs) < whole {
            boxes_area(bs)
        } else {
            whole
        };
        covered * 10_000 / whole
    }
}

fn coverage_of(boxes: &Vec<PageRect>, w: i32, h: i32) -> (c: u32)
    requires
        w <= MAX_SCAN_COORD,
        h <= MAX_SCAN_COORD,
    ensures
        c == spec_coverage(boxes@, w as int, h as int),
        c <= 10_000,
{
    if w <= 0 || h <= 0 {
        return 0;
    }
    let ghost whole_i = sheet_area(w as int, h as int);
    let pw = w as u128 * 720;
    let ph = h as u128 * 720;
    proof {
        assert(pw * ph <= 0x4000_0000_0000_0000) by (nonlinear_arith)
            requires 0 < pw <= 0x8000_0000, 0 < ph <= 0x8000_0000;
        assert(pw * ph > 0) by (nonlinear_arith)
            requires 0 < pw, 0 < ph;
    }
    let whole: u128 = pw * ph;
    let mut covered: u128 = 0;
    let mut i: usize = 0;
    while i < boxes.len()
        invariant
            i <= boxes@.len(),
            whole == whole_i,
            0 < whole <= 0x4000_0000_0000_0000,
            covered == (if boxes_area(boxes@.subrange(0, i as int)) < whole {
                boxes_area(boxes@.subrange(0, i as int))
            } else {
                whole as int
            }),
            0 <= boxes_area(boxes@.subrange(0, i as int)),
        decreases boxes@.len() - i,
    {
        let r = boxes[i];
        proof {
            assert(boxes@.subrange(0, i + 1).drop_last() =~= boxes@.subrange(0, i as int));
            assert(boxes@.subrange(0, i + 1).last() == r);
        }
        if r.dx > 0 && r.dy > 0 {
            let dx = r.dx as u128;
            let dy = r.dy as u128;
            proof {
                assert(dx * dy <= 0x4000_0000_0000_0000) by (nonlinear_arith)
                    requires 0 < dx <= 0x8000_0000, 0 < dy <= 0x8000_0000;
                assert(dx * dy > 0) by (nonlinear_arith)
                    requires 0 < dx, 0 < dy;
            }
            let a = dx * dy;
            if covered + a < whole {
                covered = covered + a;
            } else {
                covered = whole;
            }
        }
        i = i + 1;
    }
    proof {
        assert(boxes@.subrange(0, boxes@.len() as int) =~= boxes@);
        let (cv, wh) = (covered as int, whole as int);
        assert(cv * 10_000 / wh <= 10_000) by (nonlinear_arith)
            requires cv <= wh, 0 < wh, 0 <= cv;
    }
    ((covered * 10_000) / whole) as u32
}

impl Session {
    /// Converts a scan's boxes to page space and splits off the ones the
    /// reader has excluded: those are counted, and their ink is not.
    ///
    /// `w` by `h` is the geometry the sheet was scanned at; the kept boxes'
    /// share of it is the scan's coverage.
    pub fn to_page_space(&self, page_no: i32, found: &[Change], w: i32, h: i32) -> (out: SheetChanges)
        requires
            w <= MAX_SCAN_COORD,
            h <= MAX_SCAN_COORD,
            forall|i: int| 0 <= i < found@.len() ==> #[trigger] scan_box_fits(found@[i].box_),
            forall|i: int| 0 <= i < found@.len() ==> 0 <= (#[trigger] found@[i]).pixels,
            pixel_total(found@) <= i32::MAX,
            found@.len() <= i32::MAX,
        ensures
            out.page_no == page_no,
            out.changes@ == kept_boxes(self.spec_ignore_rects(), found@, found@.len() as int),
            out.pixels == kept_pixels(self.spec_ignore_rects(), found@, found@.len() as int),
            out.ignored == excluded_count(self.spec_ignore_rects(), found@, found@.len() as int),
            !out.size_mismatch,
            out.coverage == spec_coverage(out.changes@, w as int, h as int),
    {
        let rects = self.ignore_rects();
        let ghost rs = self.spec_ignore_rects();
        let mut changes: Vec<PageRect> = Vec::new();
        let mut pixels: i32 = 0;
        let mut ignored: i32 = 0;
        let mut i: usize = 0;
        while i < found.len()
            invariant
                rects@ == rs,
                i <= found@.len(),
                found@.len() <= i32::MAX,
                forall|j: int| 0 <= j < found@.len() ==> #[trigger] scan_box_fits(found@[j].box_),
                forall|j: int| 0 <= j < found@.len() ==> 0 <= (#[trigger] found@[j]).pixels,
                pixel_total(found@) <= i32::MAX,
                changes@ == kept_boxes(rs, found@, i as int),
                pixels == kept_pixels(rs, found@, i as int),
                0 <= kept_pixels(rs, found@, i as int) <= pixel_total(found@.subrange(0, i as int)),
                ignored == excluded_count(rs, found@, i as int),
                0 <= ignored <= i,
            decreases found@.len() - i,
        {
            let c = found[i];
            proof {
                assert(scan_box_fits(found@[i as int].box_));
            }
            let r = PageRect {
                x: c.box_.x * PAGE_UNITS_PER_SCAN_PIXEL,
                y: c.box_.y * PAGE_UNITS_PER_SCAN_PIXEL,
                dx: c.box_.dx * PAGE_UNITS_PER_SCAN_PIXEL,
                dy: c.box_.dy * PAGE_UNITS_PER_SCAN_PIXEL,
            };
            let mut hit = false;
            let mut k: usize = 0;
            while k < rects.len()
                invariant
                    rects@ == rs,
                    k <= rs.len(),
                    hit == exists|j: int| 0 <= j < k && #[trigger] rs[j].spec_contains_rect(r),
                decreases rs.len() - k,
            {
                if rects[k].contains_rect(&r) {
                    hit = true;
                }
                k = k + 1;
            }
            proof {
                assert(r == to_page(found@[i as int].box_));
                assert(found@.subrange(0, i + 1).drop_last() =~= found@.subrange(0, i as int));
                lemma_pixel_total_prefix(found@, i + 1);
            }
            if hit {
                ignored = ignored + 1;
            } else {
                pixels = pixels + c.pixels;
                changes.push(r);
            }
            i = i + 1;
        }
        let coverage = coverage_of(&changes, w, h);
        SheetChanges { page_no, changes, pixels, ignored, size_mismatch: false, coverage }
    }

    /// Scans one virtual sheet for regions where the two documents disagree.
    ///
    /// `a` and `b` are the sheet rendered from each document at `SCAN_DPI`,
    /// `None` for a document that has no such sheet; `w` by `h` is the
    /// geometry both are compared at, that of whichever document has the sheet,
    /// the first one first. The ink of each side is read into a `w * h` plane,
    /// the planes are compared, and what is found is put in page space with
    /// the excluded regions split off.
    pub fn scan_page(&self, page_no: i32, a: Option<&Pixels>, b: Option<&Pixels>, w: i32, h: i32) -> (out:
        SheetChanges)
        requires
            w * h <= i32::MAX,
            w + CHANGE_CELL <= MAX_SCAN_COORD,
            h + CHANGE_CELL <= MAX_SCAN_COORD,
        ensures
            out.page_no == page_no,
            ({
                let found = scan_found(*self, page_no as int, opt_px(a), opt_px(b), w as int, h as int);
                &&& out.changes@ == kept_boxes(self.spec_ignore_rects(), found, found.len() as int)
                &&& out.pixels == kept_pixels(self.spec_ignore_rects(), found, found.len() as int)
                &&& out.ignored == excluded_count(self.spec_ignore_rects(), found, found.len() as int)
            }),
            !out.size_mismatch,
            out.coverage == spec_coverage(out.changes@, w as int, h as int),
    {
        let pair = self.pair(page_no);
        if (pair.page_a == 0 && pair.page_b == 0) || w <= 0 || h <= 0 {
            let none: Vec<Change> = Vec::new();
            proof {
                assert(none@ =~= Seq::<Change>::empty());
            }
            return self.to_page_space(page_no, none.as_slice(), w, h);
        }
        let uw = w as usize;
        let uh = h as usize;
        let ink_a = ink_plane(a, uw, uh);
        let ink_b = ink_plane(b, uw, uh);
        let opts: Options = self.options();
        proof {
            lemma_plane_seq(ink_a@, opt_px(a), w as int, h as int);
            lemma_plane_seq(ink_b@, opt_px(b), w as int, h as int);
            let cw = (w + 7) / 8;
            let ch = (h + 7) / 8;
            assert(cw * ch <= w * h) by (nonlinear_arith)
                requires
                    w > 0,
                    h > 0,
                    cw == (w + 7) / 8,
                    ch == (h + 7) / 8,
            ;
        }
        let found = find_changes(ink_a.as_slice(), ink_b.as_slice(), uw, uh, &opts);
        proof {
            law_changes_share_no_ink(ink_a@, ink_b@, w as int, h as int, opts);
            let f = found@;
            assert forall|i: int| 0 <= i < f.len() implies #[trigger] scan_box_fits(f[i].box_) by {
                let c = f[i];
                assert(0 <= c.box_.x && 0 <= c.box_.dx && c.box_.x + c.box_.dx <= w + CHANGE_CELL);
            }
        }
        self.to_page_space(page_no, found.as_slice(), w, h)
    }
}

/// An excluded region is counted, never dropped: every change a scan finds is
/// either kept or counted as excluded, never both and never neither.
pub proof fn law_excluded_changes_are_counted(rects: Seq<PageRect>, found: Seq<Change>, k: int)
    requires
        0 <= k <= found.len(),
    ensures
        kept_boxes(rects, found, k).len() + excluded_count(rects, found, k) == k,
    decreases k,
{
    if k > 0 {
        law_excluded_changes_are_counted(rects, found, k - 1);
    }
}

/// With nothing excluded, every change found is kept, with all its ink.
pub proof fn law_nothing_excluded_keeps_everything(found: Seq<Change>, k: int)
    requires
        0 <= k <= found.len(),
    ensures
        kept_boxes(Seq::empty(), found, k) == found.subrange(0, k).map_values(|c: Change| to_page(c.box_)),
        kept_pixels(Seq::empty(), found, k) == pixel_total(found.subrange(0, k)),
        excluded_count(Seq::empty(), found, k) == 0,
    decreases k,
{
    if k > 0 {
        law_nothing_excluded_keeps_everything(found, k - 1);
        assert(!excluded(Seq::empty(), to_page(found[k - 1].box_)));
        assert(found.subrange(0, k).drop_last() =~= found.subrange(0, k - 1));
        assert(found.subrange(0, k).map_values(|c: Change| to_page(c.box_)) =~= found.subrange(0, k - 1).map_values(
            |c: Change| to_page(c.box_),
        ).push(to_page(found[k - 1].box_)));
    } else {
        assert(found.subrange(0, 0).map_values(|c: Change| to_page(c.box_)) =~= Seq::<PageRect>::empty());
    }
}

/// A sheet scanned against an identical rendering of itself has nothing to
/// report, whatever is excluded and whatever the tolerance.
pub proof fn law_a_sheet_against_itself_has_no_changes(
    s: Session,
    page_no: int,
    px: Option<Pixels>,
    w: int,
    h: int,
)
    ensures
        scan_found(s, page_no, px, px, w, h) == Seq::<Change>::empty(),
        kept_boxes(s.spec_ignore_rects(), scan_found(s, page_no, px, px, w, h), 0) == Seq::<PageRect>::empty(),
{
    let pair = s.spec_pair(page_no);
    if !((pair.page_a == 0 && pair.page_b == 0) || w <= 0 || h <= 0) {
        crate::changes::law_identical_sheets_have_no_changes(plane_seq(px, w, h), w, h, s.spec_options());
    }
}

/// The boxes that `x` does not hold, in order.
pub open spec fn not_held_by(bs: Seq<PageRect>, x: PageRect) -> Seq<PageRect>
    decreases bs.len(),
{
    if bs.len() == 0 {
        Seq::empty()
    } else if x.spec_contains_rect(bs.last()) {
        not_held_by(bs.drop_last(), x)
    } else {
        not_held_by(bs.drop_last(), x).push(bs.last())
    }
}

/// Adding an excluded region only moves changes from the list to the count:
/// the changes kept are those kept before that the new region does not hold,
/// in the same order, and every one it takes away is counted as excluded.
pub proof fn law_an_added_exclusion_only_moves_changes(
    rects: Seq<PageRect>,
    x: PageRect,
    found: Seq<Change>,
    k: int,
)
    requires
        0 <= k <= found.len(),
    ensures
        kept_boxes(rects.push(x), found, k) == not_held_by(kept_boxes(rects, found, k), x),
        excluded_count(rects.push(x), found, k) == excluded_count(rects, found, k) + (kept_boxes(
            rects,
            found,
            k,
        ).len() - kept_boxes(rects.push(x), found, k).len()),
    decreases k,
{
    if k > 0 {
        law_an_added_exclusion_only_moves_changes(rects, x, found, k - 1);
        let b = to_page(found[k - 1].box_);
        let more = rects.push(x);
        assert(excluded(more, b) == (excluded(rects, b) || x.spec_contains_rect(b))) by {
            if excluded(rects, b) {
                let j = choose|j: int| 0 <= j < rects.len() && #[trigger] rects[j].spec_contains_rect(b);
                assert(more[j] == rects[j]);
            }
            if x.spec_contains_rect(b) {
                assert(more[rects.len() as int] == x);
            }
            if excluded(more, b) {
                let j = choose|j: int| 0 <= j < more.len() && #[trigger] more[j].spec_contains_rect(b);
                if j < rects.len() {
                    assert(more[j] == rects[j]);
                }
            }
        }
        let prev = kept_boxes(rects, found, k - 1);
        if !excluded(rects, b) {
            assert(prev.push(b).drop_last() =~= prev);
            assert(prev.push(b).last() == b);
        }
        law_excluded_changes_are_counted(rects, found, k);
        law_excluded_changes_are_counted(more, found, k);
    }
}

} // verus!
