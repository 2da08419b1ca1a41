use vstd::prelude::*;

use crate::dilate::{dilate_ink, lemma_cell_div_mod, lemma_cell_in_plane, spec_dilated};
use crate::geom::Rect;
use crate::options::{clamp_i32, Options, CHANGE_CELL, CHANGE_MIN_PIXELS, MAX_TOLERANCE};

verus! {

/// One region where the two documents disagree, in the scanned image's pixels.
#[derive(Clone, Copy, PartialEq, Eq, Debug, Default, Structural)]
pub struct Change {
    pub box_: Rect,
    pub pixels: i32,
}

/// Ink above this counts as drawn when deciding what is unmatched.
pub const INK_THRESHOLD: u8 = 96;

// ---------------------------------------------------------------------------
// Pixels

/// A plane dilated by `r`, cell by cell.
pub open spec fn dilated_plane(s: Seq<u8>, w: int, h: int, r: int) -> Seq<u8> {
    Seq::new((w * h) as nat, |i: int| spec_dilated(s, w, h, r, i % w, i / w))
}

/// Pixel `i` is drawn on one side with nothing within the tolerance of it on the
/// other (`da` and `db` are the dilated planes).
pub open spec fn unmatched_at(a: Seq<u8>, b: Seq<u8>, da: Seq<u8>, db: Seq<u8>, i: int) -> bool {
    ||| (a[i] > INK_THRESHOLD && db[i] <= INK_THRESHOLD)
    ||| (b[i] > INK_THRESHOLD && da[i] <= INK_THRESHOLD)
}

/// The grid cell that pixel `i` of a plane `w` wide falls in, the grid being
/// `cw` cells wide.
pub open spec fn cell_of(w: int, cw: int, i: int) -> int {
    ((i / w) / (CHANGE_CELL as int)) * cw + (i % w) / (CHANGE_CELL as int)
}

/// How many of the first `k` pixels are unmatched and fall in cell `c`.
pub open spec fn count_in_cell(
    a: Seq<u8>,
    b: Seq<u8>,
    da: Seq<u8>,
    db: Seq<u8>,
    w: int,
    cw: int,
    c: int,
    k: int,
) -> int
    decreases k,
{
    if k <= 0 {
        0
    } else {
        count_in_cell(a, b, da, db, w, cw, c, k - 1) + if cell_of(w, cw, k - 1) == c && unmatched_at(
            a,
            b,
            da,
            db,
            k - 1,
        ) {
            1int
        } else {
            0int
        }
    }
}

/// Cells across a plane of `w` pixels.
pub open spec fn cells_across(w: int) -> int {
    (w + CHANGE_CELL - 1) / (CHANGE_CELL as int)
}

/// The unmatched pixels of each grid cell.
pub open spec fn cell_counts(a: Seq<u8>, b: Seq<u8>, w: int, h: int, r: int) -> Seq<int> {
    let cw = cells_across(w);
    let ch = cells_across(h);
    let da = dilated_plane(a, w, h, r);
    let db = dilated_plane(b, w, h, r);
    Seq::new((cw * ch) as nat, |c: int| count_in_cell(a, b, da, db, w, cw, c, w * h))
}

// ---------------------------------------------------------------------------
// Cells

/// Two cells of a grid `cw` wide are neighbours (or the same cell): they differ
/// by at most one in each direction.
pub open spec fn adj(cw: int, i: int, j: int) -> bool {
    &&& -1 <= i % cw - j % cw <= 1
    &&& -1 <= i / cw - j / cw <= 1
}

/// A cell is grown when it, or one of its neighbours, holds unmatched ink.
pub open spec fn grown_at(cp: Seq<int>, cw: int, c: int) -> bool {
    exists|j: int| 0 <= j < cp.len() && #[trigger] adj(cw, j, c) && cp[j] > 0
}

pub open spec fn grown_cells(cp: Seq<int>, cw: int) -> Seq<bool> {
    Seq::new(cp.len(), |c: int| grown_at(cp, cw, c))
}

/// No grown neighbour of a cell in `s` is missing from it.
pub open spec fn closed_in(g: Seq<bool>, cw: int, s: Set<int>) -> bool {
    forall|x: int, y: int|
        #![trigger s.contains(x), adj(cw, x, y)]
        s.contains(x) && 0 <= y < g.len() && g[y] && adj(cw, x, y) ==> s.contains(y)
}

/// `c2` is reached from `c1` by stepping between neighbouring grown cells: it is
/// in every set that holds `c1` and every grown neighbour of its members.
pub open spec fn connected(g: Seq<bool>, cw: int, c1: int, c2: int) -> bool {
    forall|s: Set<int>| #[trigger] closed_in(g, cw, s) && s.contains(c1) ==> s.contains(c2)
}

/// The cells reached from `s`.
pub open spec fn region(g: Seq<bool>, cw: int, s: int) -> Set<int> {
    Set::new(|c: int| connected(g, cw, s, c))
}

/// `s` is grown and no earlier grown cell reaches it: it is where a region is
/// first met in reading order.
pub open spec fn is_first(g: Seq<bool>, cw: int, s: int) -> bool {
    &&& g[s]
    &&& forall|j: int| 0 <= j < s && #[trigger] g[j] ==> !connected(g, cw, j, s)
}

// ---------------------------------------------------------------------------
// Sums and extremes over a set of cells

/// The unmatched pixels of the cells of `s` among the first `k`.
pub open spec fn sum_in(s: Set<int>, cp: Seq<int>, k: int) -> int
    decreases k,
{
    if k <= 0 {
        0
    } else {
        sum_in(s, cp, k - 1) + if s.contains(k - 1) {
            cp[k - 1]
        } else {
            0
        }
    }
}

/// The column (`axis` 0) or row (`axis` 1) of a cell of a grid `cw` wide.
pub open spec fn key(cw: int, axis: int, c: int) -> int {
    if axis == 0 {
        c % cw
    } else {
        c / cw
    }
}

/// The least column or row of the cells of `s`, among the first `k`, that hold
/// unmatched ink; `dflt` when there is none.
pub open spec fn min_key(s: Set<int>, cp: Seq<int>, cw: int, axis: int, dflt: int, k: int) -> int
    decreases k,
{
    if k <= 0 {
        dflt
    } else {
        let m = min_key(s, cp, cw, axis, dflt, k - 1);
        if s.contains(k - 1) && cp[k - 1] > 0 && key(cw, axis, k - 1) < m {
            key(cw, axis, k - 1)
        } else {
            m
        }
    }
}

/// The greatest column or row of the cells of `s`, among the first `k`, that
/// hold unmatched ink; -1 when there is none.
pub open spec fn max_key(s: Set<int>, cp: Seq<int>, cw: int, axis: int, k: int) -> int
    decreases k,
{
    if k <= 0 {
        -1
    } else {
        let m = max_key(s, cp, cw, axis, k - 1);
        if s.contains(k - 1) && cp[k - 1] > 0 && key(cw, axis, k - 1) > m {
            key(cw, axis, k - 1)
        } else {
            m
        }
    }
}

/// The change region `s` stands for: the bounding box of its cells that hold
/// unmatched ink, in pixels, and how much unmatched ink it holds.
pub open spec fn region_change(cp: Seq<int>, g: Seq<bool>, cw: int, ch: int, s: int) -> Change {
    let r = region(g, cw, s);
    let n = cp.len() as int;
    let min_x = min_key(r, cp, cw, 0, cw, n);
    let max_x = max_key(r, cp, cw, 0, n);
    let min_y = min_key(r, cp, cw, 1, ch, n);
    let max_y = max_key(r, cp, cw, 1, n);
    Change {
        box_: Rect {
            x: (min_x * CHANGE_CELL) as i32,
            y: (min_y * CHANGE_CELL) as i32,
            dx: ((max_x - min_x + 1) * CHANGE_CELL) as i32,
            dy: ((max_y - min_y + 1) * CHANGE_CELL) as i32,
        },
        pixels: sum_in(r, cp, n) as i32,
    }
}

/// Whether region `s` is worth reporting: enough unmatched ink, somewhere.
pub open spec fn region_reported(cp: Seq<int>, g: Seq<bool>, cw: int, s: int) -> bool {
    let r = region(g, cw, s);
    let n = cp.len() as int;
    &&& sum_in(r, cp, n) >= CHANGE_MIN_PIXELS
    &&& max_key(r, cp, cw, 0, n) >= min_key(r, cp, cw, 0, cw, n)
}

/// The reported regions first met among the first `k` cells, in reading order.
pub open spec fn changes_upto(cp: Seq<int>, g: Seq<bool>, cw: int, ch: int, k: int) -> Seq<Change>
    decreases k,
{
    if k <= 0 {
        Seq::empty()
    } else {
        let prev = changes_upto(cp, g, cw, ch, k - 1);
        if is_first(g, cw, k - 1) && region_reported(cp, g, cw, k - 1) {
            prev.push(region_change(cp, g, cw, ch, k - 1))
        } else {
            prev
        }
    }
}

/// The change regions between two ink planes: one per connected region of grown
/// cells, listed in the order their first cell is met, keeping those with at
/// least `CHANGE_MIN_PIXELS` of unmatched ink. Nothing for an empty plane or one
/// that is missing pixels.
pub open spec fn spec_find_changes(a: Seq<u8>, b: Seq<u8>, w: int, h: int, opts: Options) -> Seq<Change> {
    if w == 0 || h == 0 || a.len() < w * h || b.len() < w * h {
        Seq::empty()
    } else {
        let cp = cell_counts(a, b, w, h, opts.spec_radius());
        let cw = cells_across(w);
        let ch = cells_across(h);
        changes_upto(cp, grown_cells(cp, cw), cw, ch, cw * ch)
    }
}

// ---------------------------------------------------------------------------
// Lemmas about sums and extremes

proof fn lemma_sum_ext(s: Set<int>, t: Set<int>, cp: Seq<int>, k: int)
    requires
        forall|i: int| 0 <= i < k ==> (s.contains(i) <==> t.contains(i)),
    ensures
        sum_in(s, cp, k) == sum_in(t, cp, k),
    decreases k,
{
    if k > 0 {
        lemma_sum_ext(s, t, cp, k - 1);
    }
}

proof fn lemma_sum_insert(s: Set<int>, cp: Seq<int>, k: int, i: int)
    requires
        0 <= i < k,
        !s.contains(i),
    ensures
        sum_in(s.insert(i), cp, k) == sum_in(s, cp, k) + cp[i],
    decreases k,
{
    if i == k - 1 {
        lemma_sum_ext(s.insert(i), s, cp, k - 1);
    } else {
        lemma_sum_insert(s, cp, k - 1, i);
    }
}

proof fn lemma_sum_le(s: Set<int>, t: Set<int>, cp: Seq<int>, k: int)
    requires
        forall|i: int| 0 <= i < k && s.contains(i) ==> t.contains(i),
        forall|i: int| 0 <= i < k ==> cp[i] >= 0,
    ensures
        0 <= sum_in(s, cp, k) <= sum_in(t, cp, k),
    decreases k,
{
    if k > 0 {
        lemma_sum_le(s, t, cp, k - 1);
    }
}

proof fn lemma_min_ext(s: Set<int>, t: Set<int>, cp: Seq<int>, cw: int, axis: int, dflt: int, k: int)
    requires
        forall|i: int| 0 <= i < k ==> (s.contains(i) <==> t.contains(i)),
    ensures
        min_key(s, cp, cw, axis, dflt, k) == min_key(t, cp, cw, axis, dflt, k),
    decreases k,
{
    if k > 0 {
        lemma_min_ext(s, t, cp, cw, axis, dflt, k - 1);
    }
}

proof fn lemma_max_ext(s: Set<int>, t: Set<int>, cp: Seq<int>, cw: int, axis: int, k: int)
    requires
        forall|i: int| 0 <= i < k ==> (s.contains(i) <==> t.contains(i)),
    ensures
        max_key(s, cp, cw, axis, k) == max_key(t, cp, cw, axis, k),
    decreases k,
{
    if k > 0 {
        lemma_max_ext(s, t, cp, cw, axis, k - 1);
    }
}

proof fn lemma_min_insert(s: Set<int>, cp: Seq<int>, cw: int, axis: int, dflt: int, k: int, i: int)
    requires
        0 <= i < k,
        !s.contains(i),
    ensures
        min_key(s.insert(i), cp, cw, axis, dflt, k) == (if cp[i] > 0 && key(cw, axis, i) < min_key(
            s,
            cp,
            cw,
            axis,
            dflt,
            k,
        ) {
            key(cw, axis, i)
        } else {
            min_key(s, cp, cw, axis, dflt, k)
        }),
    decreases k,
{
    if i == k - 1 {
        lemma_min_ext(s.insert(i), s, cp, cw, axis, dflt, k - 1);
    } else {
        lemma_min_insert(s, cp, cw, axis, dflt, k - 1, i);
    }
}

proof fn lemma_max_insert(s: Set<int>, cp: Seq<int>, cw: int, axis: int, k: int, i: int)
    requires
        0 <= i < k,
        !s.contains(i),
    ensures
        max_key(s.insert(i), cp, cw, axis, k) == (if cp[i] > 0 && key(cw, axis, i) > max_key(
            s,
            cp,
            cw,
            axis,
            k,
        ) {
            key(cw, axis, i)
        } else {
            max_key(s, cp, cw, axis, k)
        }),
    decreases k,
{
    if i == k - 1 {
        lemma_max_ext(s.insert(i), s, cp, cw, axis, k - 1);
    } else {
        lemma_max_insert(s, cp, cw, axis, k - 1, i);
    }
}

proof fn lemma_empty_extremes(cp: Seq<int>, cw: int, axis: int, dflt: int, k: int)
    ensures
        sum_in(Set::empty(), cp, k) == 0,
        min_key(Set::empty(), cp, cw, axis, dflt, k) == dflt,
        max_key(Set::empty(), cp, cw, axis, k) == -1,
    decreases k,
{
    if k > 0 {
        lemma_empty_extremes(cp, cw, axis, dflt, k - 1);
    }
}

proof fn lemma_min_key_range(s: Set<int>, cp: Seq<int>, cw: int, axis: int, dflt: int, k: int, hi: int)
    requires
        0 <= dflt <= hi,
        forall|i: int| 0 <= i < k ==> 0 <= #[trigger] key(cw, axis, i) <= hi,
    ensures
        0 <= min_key(s, cp, cw, axis, dflt, k) <= hi,
    decreases k,
{
    if k > 0 {
        lemma_min_key_range(s, cp, cw, axis, dflt, k - 1, hi);
    }
}

proof fn lemma_max_key_range(s: Set<int>, cp: Seq<int>, cw: int, axis: int, k: int, hi: int)
    requires
        0 <= hi,
        forall|i: int| 0 <= i < k ==> 0 <= #[trigger] key(cw, axis, i) <= hi,
    ensures
        -1 <= max_key(s, cp, cw, axis, k) <= hi,
    decreases k,
{
    if k > 0 {
        lemma_max_key_range(s, cp, cw, axis, k - 1, hi);
    }
}


// ---------------------------------------------------------------------------
// Counting unmatched ink per cell

/// A dilated buffer of a plane is that plane's dilation.
proof fn lemma_dilated_plane(d: Seq<u8>, s: Seq<u8>, w: int, h: int, r: int)
    requires
        w > 0,
        h > 0,
        d.len() == w * h,
        forall|x: int, y: int| 0 <= x < w && 0 <= y < h ==> #[trigger] d[y * w + x] == spec_dilated(s, w, h, r, x, y),
    ensures
        d == dilated_plane(s, w, h, r),
{
    assert forall|i: int| 0 <= i < d.len() implies d[i] == dilated_plane(s, w, h, r)[i] by {
        let x = i % w;
        let y = i / w;
        assert(i == y * w + x) by (nonlinear_arith)
            requires
                w > 0,
                x == i % w,
                y == i / w,
        ;
        assert(0 <= y < h) by (nonlinear_arith)
            requires
                w > 0,
                0 <= i < w * h,
                y == i / w,
        ;
    }
    assert(d =~= dilated_plane(s, w, h, r));
}

proof fn lemma_count_le(a: Seq<u8>, b: Seq<u8>, da: Seq<u8>, db: Seq<u8>, w: int, cw: int, c: int, k: int)
    requires
        k >= 0,
    ensures
        0 <= count_in_cell(a, b, da, db, w, cw, c, k) <= k,
    decreases k,
{
    if k > 0 {
        lemma_count_le(a, b, da, db, w, cw, c, k - 1);
    }
}

/// Counts each cell's unmatched pixels.
fn count_cells(
    ink_a: &[u8],
    ink_b: &[u8],
    dil_a: &Vec<u8>,
    dil_b: &Vec<u8>,
    w: usize,
    h: usize,
    cw: usize,
    ch: usize,
) -> (cp: Vec<i32>)
    requires
        w > 0,
        h > 0,
        w * h <= i32::MAX,
        cw == cells_across(w as int),
        ch == cells_across(h as int),
        cw * ch <= usize::MAX,
        ink_a@.len() >= w * h,
        ink_b@.len() >= w * h,
        dil_a@.len() == w * h,
        dil_b@.len() == w * h,
    ensures
        cp@.len() == cw * ch,
        forall|c: int| 0 <= c < cw * ch ==> #[trigger] cp@[c] == count_in_cell(ink_a@, ink_b@, dil_a@, dil_b@, w as int, cw as int, c, w * h),
{
    proof {
        assert(cw * ch <= (w + 7) * (h + 7)) by (nonlinear_arith)
            requires
                cw == (w + 7) / 8,
                ch == (h + 7) / 8,
                w > 0,
                h > 0,
        ;
        assert(cw >= 1 && ch >= 1);
        assert(cw * ch >= 1) by (nonlinear_arith)
            requires
                cw >= 1,
                ch >= 1,
        ;
        assert(cw * ch <= w * h + 7 * w + 7 * h + 49) by (nonlinear_arith)
            requires
                cw * ch <= (w + 7) * (h + 7),
        ;
    }
    let nc = cw * ch;
    let mut cp: Vec<i32> = vec![0i32; nc];
    let ghost a = ink_a@;
    let ghost b = ink_b@;
    let ghost da = dil_a@;
    let ghost db = dil_b@;
    let cell = CHANGE_CELL as usize;
    let mut y: usize = 0;
    while y < h
        invariant
            y <= h,
            w > 0,
            w * h <= i32::MAX,
            cell == 8,
            cw == cells_across(w as int),
            ch == cells_across(h as int),
            nc == cw * ch,
            a == ink_a@,
            b == ink_b@,
            da == dil_a@,
            db == dil_b@,
            a.len() >= w * h,
            b.len() >= w * h,
            da.len() == w * h,
            db.len() == w * h,
            cp@.len() == nc,
            forall|c: int| 0 <= c < nc ==> #[trigger] cp@[c] == count_in_cell(a, b, da, db, w as int, cw as int, c, y * w),
        decreases h - y,
    {
        let mut x: usize = 0;
        while x < w
            invariant
                x <= w,
                y < h,
                w > 0,
                w * h <= i32::MAX,
                cell == 8,
                cw == cells_across(w as int),
                ch == cells_across(h as int),
                nc == cw * ch,
                a == ink_a@,
                b == ink_b@,
                da == dil_a@,
                db == dil_b@,
                a.len() >= w * h,
                b.len() >= w * h,
                da.len() == w * h,
                db.len() == w * h,
                cp@.len() == nc,
                forall|c: int| 0 <= c < nc ==> #[trigger] cp@[c] == count_in_cell(a, b, da, db, w as int, cw as int, c, y * w + x),
            decreases w - x,
        {
            proof {
                lemma_cell_in_plane(w as int, h as int, x as int, y as int);
                lemma_cell_div_mod(w as int, x as int, y as int);
            }
            let i = y * w + x;
            let ua = ink_a[i] > INK_THRESHOLD;
            let ub = ink_b[i] > INK_THRESHOLD;
            let unmatched = (ua && dil_b[i] <= INK_THRESHOLD) || (ub && dil_a[i] <= INK_THRESHOLD);
            let ghost old_cp = cp@;
            proof {
                assert(x / 8 < cw) by (nonlinear_arith)
                    requires
                        x < w,
                        cw == (w + 7) / 8,
                ;
                assert(y / 8 < ch) by (nonlinear_arith)
                    requires
                        y < h,
                        ch == (h + 7) / 8,
                ;
                lemma_cell_in_plane(cw as int, ch as int, (x / 8) as int, (y / 8) as int);
            }
            let c = (y / cell) * cw + x / cell;
            proof {
                assert(c == cell_of(w as int, cw as int, i as int));
                assert(unmatched == unmatched_at(a, b, da, db, i as int));
            }
            if unmatched {
                proof {
                    lemma_count_le(a, b, da, db, w as int, cw as int, c as int, i as int);
                }
                cp[c] = cp[c] + 1;
            }
            proof {
                assert forall|cc: int| 0 <= cc < nc implies #[trigger] cp@[cc] == count_in_cell(a, b, da, db, w as int, cw as int, cc, i + 1) by {
                    assert(old_cp[cc] == count_in_cell(a, b, da, db, w as int, cw as int, cc, i as int));
                }
            }
            x = x + 1;
        }
        proof {
            assert(y * w + w == (y + 1) * w) by (nonlinear_arith);
        }
        y = y + 1;
    }
    proof {
        assert(h * w == w * h) by (nonlinear_arith);
    }
    cp
}

/// The grown cells: every cell next to (or being) one with unmatched ink.
fn grow_cells(cp: &Vec<i32>, cw: usize, ch: usize) -> (g: Vec<bool>)
    requires
        cw > 0,
        ch > 0,
        cw * ch == cp@.len(),
        cw <= i32::MAX,
        ch <= i32::MAX,
        forall|c: int| 0 <= c < cp@.len() ==> cp@[c] >= 0,
    ensures
        g@ == grown_cells(cp_ints(cp@), cw as int),
{
    let nc = cp.len();
    let ghost cpi = cp_ints(cp@);
    let mut g: Vec<bool> = vec![false; nc];
    let mut k: usize = 0;
    while k < nc
        invariant
            k <= nc,
            nc == cw * ch,
            cw > 0,
            ch > 0,
            cw <= i32::MAX,
            ch <= i32::MAX,
            cp@.len() == nc,
            cpi == cp_ints(cp@),
            forall|c: int| 0 <= c < cp@.len() ==> cp@[c] >= 0,
            g@.len() == nc,
            forall|c: int|
                0 <= c < nc ==> #[trigger] g@[c] == exists|j: int| 0 <= j < k && #[trigger] adj(cw as int, j, c) && cpi[j] > 0,
        decreases nc - k,
    {
        let ghost before = g@;
        if cp[k] != 0 {
            mark_neighbours(&mut g, cw, ch, k);
        }
        proof {
            assert forall|c: int| 0 <= c < nc implies #[trigger] g@[c] == exists|j: int|
                0 <= j < k + 1 && #[trigger] adj(cw as int, j, c) && cpi[j] > 0 by {
                let old_ex = exists|j: int| 0 <= j < k && #[trigger] adj(cw as int, j, c) && cpi[j] > 0;
                assert(before[c] == old_ex);
                if adj(cw as int, k as int, c) && cpi[k as int] > 0 {
                    assert(0 <= k < k + 1 && adj(cw as int, k as int, c) && cpi[k as int] > 0);
                    assert(g@[c]);
                } else {
                    assert(g@[c] == before[c]);
                    if exists|j: int| 0 <= j < k + 1 && #[trigger] adj(cw as int, j, c) && cpi[j] > 0 {
                        let j = choose|j: int| 0 <= j < k + 1 && #[trigger] adj(cw as int, j, c) && cpi[j] > 0;
                        assert(j != k);
                        assert(old_ex);
                    }
                }
            }
        }
        k = k + 1;
    }
    proof {
        assert(g@ =~= grown_cells(cpi, cw as int));
    }
    g
}

/// The unmatched-ink counts as integers.
pub open spec fn cp_ints(cp: Seq<i32>) -> Seq<int> {
    Seq::new(cp.len(), |c: int| cp[c] as int)
}

/// The offset in rows, and in columns, of cell `c` from cell `k`.
pub open spec fn row_off(cw: int, k: int, c: int) -> int {
    c / cw - k / cw
}

pub open spec fn col_off(cw: int, k: int, c: int) -> int {
    c % cw - k % cw
}

/// Cell `c` comes before offset `(dy, dx)` from `k` in a row-by-row walk of the
/// neighbourhood.
pub open spec fn before_offset(cw: int, k: int, c: int, dy: int, dx: int) -> bool {
    row_off(cw, k, c) < dy || (row_off(cw, k, c) == dy && col_off(cw, k, c) < dx)
}

/// The cell at offset `(dx, dy)` from `k`, when it is on the grid, is the one
/// grid cell with those offsets.
proof fn lemma_offset_cell(cw: int, ch: int, k: int, dx: int, dy: int, c: int)
    requires
        cw > 0,
        ch > 0,
        0 <= k < cw * ch,
        0 <= c < cw * ch,
    ensures
        (row_off(cw, k, c) == dy && col_off(cw, k, c) == dx) <==> ({
            let nx = k % cw + dx;
            let ny = k / cw + dy;
            0 <= nx < cw && 0 <= ny < ch && c == ny * cw + nx
        }),
{
    let nx = k % cw + dx;
    let ny = k / cw + dy;
    assert(c == (c / cw) * cw + c % cw) by (nonlinear_arith)
        requires
            cw > 0,
    ;
    assert(0 <= c / cw < ch) by (nonlinear_arith)
        requires
            cw > 0,
            0 <= c < cw * ch,
    ;
    if 0 <= nx < cw && 0 <= ny < ch && c == ny * cw + nx {
        lemma_cell_div_mod(cw, nx, ny);
    }
}

/// Marks every grid cell next to (or being) cell `k`.
fn mark_neighbours(g: &mut Vec<bool>, cw: usize, ch: usize, k: usize)
    requires
        cw > 0,
        ch > 0,
        cw <= i32::MAX,
        ch <= i32::MAX,
        old(g)@.len() == cw * ch,
        k < cw * ch,
    ensures
        final(g)@.len() == old(g)@.len(),
        forall|c: int| 0 <= c < cw * ch ==> #[trigger] final(g)@[c] == (old(g)@[c] || adj(cw as int, k as int, c)),
{
    let nc = g.len();
    proof {
        assert(k / cw < ch) by (nonlinear_arith)
            requires
                cw > 0,
                k < cw * ch,
        ;
    }
    let cx = (k % cw) as i32;
    let cy = (k / cw) as i32;
    let ghost og = g@;
    let mut dy: i32 = -1;
    while dy <= 1
        invariant
            -1 <= dy <= 2,
            nc == cw * ch,
            cw > 0,
            ch > 0,
            cw <= i32::MAX,
            ch <= i32::MAX,
            k < nc,
            cx == k % cw,
            cy == k / cw,
            cx < cw,
            cy < ch,
            g@.len() == nc,
            forall|c: int| 0 <= c < nc ==> #[trigger] g@[c] == (og[c] || (adj(cw as int, k as int, c) && before_offset(cw as int, k as int, c, dy as int, -1))),
        decreases 2 - dy,
    {
        let mut dx: i32 = -1;
        while dx <= 1
            invariant
                -1 <= dy <= 1,
                -1 <= dx <= 2,
                nc == cw * ch,
                cw > 0,
                ch > 0,
                cw <= i32::MAX,
                ch <= i32::MAX,
                k < nc,
                cx == k % cw,
                cy == k / cw,
                cx < cw,
                cy < ch,
                g@.len() == nc,
                forall|c: int| 0 <= c < nc ==> #[trigger] g@[c] == (og[c] || (adj(cw as int, k as int, c) && before_offset(cw as int, k as int, c, dy as int, dx as int))),
            decreases 2 - dx,
        {
            let nx = cx + dx;
            let ny = cy + dy;
            let ghost before = g@;
            if nx >= 0 && ny >= 0 && (nx as usize) < cw && (ny as usize) < ch {
                proof {
                    lemma_cell_in_plane(cw as int, ch as int, nx as int, ny as int);
                }
                g[ny as usize * cw + nx as usize] = true;
            }
            proof {
                assert forall|c: int| 0 <= c < nc implies #[trigger] g@[c] == (og[c] || (adj(cw as int, k as int, c) && before_offset(cw as int, k as int, c, dy as int, dx + 1))) by {
                    lemma_offset_cell(cw as int, ch as int, k as int, dx as int, dy as int, c);
                    assert(before[c] == (og[c] || (adj(cw as int, k as int, c) && before_offset(cw as int, k as int, c, dy as int, dx as int))));
                }
            }
            dx = dx + 1;
        }
        dy = dy + 1;
    }
}


// ---------------------------------------------------------------------------
// Connectivity

proof fn lemma_adj_symmetric(cw: int, x: int, y: int)
    requires
        adj(cw, x, y),
    ensures
        adj(cw, y, x),
{
}

proof fn lemma_connected_refl(g: Seq<bool>, cw: int, s: int)
    ensures
        connected(g, cw, s, s),
{
}

/// One step from a reached cell to a grown neighbour is still reached.
proof fn lemma_connected_step(g: Seq<bool>, cw: int, s: int, x: int, y: int)
    requires
        connected(g, cw, s, x),
        0 <= y < g.len(),
        g[y],
        adj(cw, x, y),
    ensures
        connected(g, cw, s, y),
{
    assert forall|set: Set<int>| #[trigger] closed_in(g, cw, set) && set.contains(s) implies set.contains(y) by {
        assert(set.contains(x));
    }
}

proof fn lemma_connected_trans(g: Seq<bool>, cw: int, a: int, b: int, c: int)
    requires
        connected(g, cw, a, b),
        connected(g, cw, b, c),
    ensures
        connected(g, cw, a, c),
{
    assert forall|set: Set<int>| #[trigger] closed_in(g, cw, set) && set.contains(a) implies set.contains(c) by {
        assert(set.contains(b));
    }
}

/// Every cell reached from a grown cell is grown (or is that cell).
proof fn lemma_connected_grown(g: Seq<bool>, cw: int, s: int, c: int)
    requires
        0 <= s < g.len(),
        g[s],
        connected(g, cw, s, c),
    ensures
        0 <= c < g.len(),
        g[c],
{
    let set = Set::new(|i: int| 0 <= i < g.len() && g[i]);
    assert(closed_in(g, cw, set));
    assert(set.contains(s));
}

/// A cell is reached from some grown cell among the first `k`.
pub open spec fn labeled_before(g: Seq<bool>, cw: int, k: int, c: int) -> bool {
    exists|j: int| 0 <= j < k && #[trigger] g[j] && connected(g, cw, j, c)
}

// ---------------------------------------------------------------------------
// Counting unlabeled cells, for termination

pub open spec fn count_unlabeled(l: Seq<bool>, k: int) -> int
    decreases k,
{
    if k <= 0 {
        0
    } else {
        count_unlabeled(l, k - 1) + if !l[k - 1] {
            1int
        } else {
            0int
        }
    }
}

proof fn lemma_count_unlabeled_nonneg(l: Seq<bool>, k: int)
    ensures
        count_unlabeled(l, k) >= 0,
    decreases k,
{
    if k > 0 {
        lemma_count_unlabeled_nonneg(l, k - 1);
    }
}

proof fn lemma_count_unlabeled_set(l: Seq<bool>, k: int, i: int)
    requires
        0 <= i < k <= l.len(),
        !l[i],
    ensures
        count_unlabeled(l.update(i, true), k) == count_unlabeled(l, k) - 1,
    decreases k,
{
    if i < k - 1 {
        lemma_count_unlabeled_set(l, k - 1, i);
    } else {
        lemma_count_unlabeled_ext(l.update(i, true), l, k - 1);
    }
}

proof fn lemma_count_unlabeled_ext(l1: Seq<bool>, l2: Seq<bool>, k: int)
    requires
        forall|i: int| 0 <= i < k ==> l1[i] == l2[i],
    ensures
        count_unlabeled(l1, k) == count_unlabeled(l2, k),
    decreases k,
{
    if k > 0 {
        lemma_count_unlabeled_ext(l1, l2, k - 1);
    }
}

// ---------------------------------------------------------------------------
// Flood fill

/// Labels every unlabeled grown neighbour of cell `idx` and pushes it.
fn push_unlabeled_neighbours(
    g: &Vec<bool>,
    cw: usize,
    ch: usize,
    idx: usize,
    label: &mut Vec<bool>,
    stack: &mut Vec<usize>,
)
    requires
        cw > 0,
        ch > 0,
        cw <= i32::MAX,
        ch <= i32::MAX,
        g@.len() == cw * ch,
        old(label)@.len() == cw * ch,
        idx < cw * ch,
        forall|i: int| 0 <= i < old(stack)@.len() ==> #[trigger] old(stack)@[i] < cw * ch && old(label)@[old(stack)@[i] as int],
        forall|i: int, j: int| 0 <= i < j < old(stack)@.len() ==> old(stack)@[i] != old(stack)@[j],
    ensures
        final(label)@.len() == old(label)@.len(),
        forall|c: int| 0 <= c < cw * ch ==> #[trigger] final(label)@[c] == (old(label)@[c] || (adj(cw as int, idx as int, c) && g@[c])),
        forall|c: int| 0 <= c < cw * ch ==> (#[trigger] final(stack)@.contains(c as usize) <==> (old(stack)@.contains(c as usize) || (!old(label)@[c] && g@[c] && adj(cw as int, idx as int, c)))),
        forall|i: int| 0 <= i < final(stack)@.len() ==> #[trigger] final(stack)@[i] < cw * ch && final(label)@[final(stack)@[i] as int],
        forall|i: int, j: int| 0 <= i < j < final(stack)@.len() ==> final(stack)@[i] != final(stack)@[j],
        count_unlabeled(final(label)@, cw * ch) + final(stack)@.len() == count_unlabeled(old(label)@, cw * ch) + old(stack)@.len(),
        final(stack)@.len() >= old(stack)@.len(),
{
    let nc = g.len();
    proof {
        assert(idx / cw < ch) by (nonlinear_arith)
            requires
                cw > 0,
                idx < cw * ch,
        ;
    }
    let cx = (idx % cw) as i32;
    let cy = (idx / cw) as i32;
    let ghost ol = label@;
    let ghost os = stack@;
    let mut dy: i32 = -1;
    while dy <= 1
        invariant
            -1 <= dy <= 2,
            nc == cw * ch,
            cw > 0,
            ch > 0,
            cw <= i32::MAX,
            ch <= i32::MAX,
            idx < nc,
            cx == idx % cw,
            cy == idx / cw,
            cx < cw,
            cy < ch,
            g@.len() == nc,
            label@.len() == nc,
            ol.len() == nc,
            forall|c: int| 0 <= c < nc ==> #[trigger] label@[c] == (ol[c] || (adj(cw as int, idx as int, c) && g@[c] && before_offset(cw as int, idx as int, c, dy as int, -1))),
            forall|c: int| 0 <= c < nc ==> (#[trigger] stack@.contains(c as usize) <==> (os.contains(c as usize) || (!ol[c] && g@[c] && adj(cw as int, idx as int, c) && before_offset(cw as int, idx as int, c, dy as int, -1)))),
            forall|i: int| 0 <= i < stack@.len() ==> #[trigger] stack@[i] < nc && label@[stack@[i] as int],
            forall|i: int, j: int| 0 <= i < j < stack@.len() ==> stack@[i] != stack@[j],
            count_unlabeled(label@, nc as int) + stack@.len() == count_unlabeled(ol, nc as int) + os.len(),
            stack@.len() >= os.len(),
        decreases 2 - dy,
    {
        let mut dx: i32 = -1;
        while dx <= 1
            invariant
                -1 <= dy <= 1,
                -1 <= dx <= 2,
                nc == cw * ch,
                cw > 0,
                ch > 0,
                cw <= i32::MAX,
                ch <= i32::MAX,
                idx < nc,
                cx == idx % cw,
                cy == idx / cw,
                cx < cw,
                cy < ch,
                g@.len() == nc,
                label@.len() == nc,
                ol.len() == nc,
                forall|c: int| 0 <= c < nc ==> #[trigger] label@[c] == (ol[c] || (adj(cw as int, idx as int, c) && g@[c] && before_offset(cw as int, idx as int, c, dy as int, dx as int))),
                forall|c: int| 0 <= c < nc ==> (#[trigger] stack@.contains(c as usize) <==> (os.contains(c as usize) || (!ol[c] && g@[c] && adj(cw as int, idx as int, c) && before_offset(cw as int, idx as int, c, dy as int, dx as int)))),
                forall|i: int| 0 <= i < stack@.len() ==> #[trigger] stack@[i] < nc && label@[stack@[i] as int],
                forall|i: int, j: int| 0 <= i < j < stack@.len() ==> stack@[i] != stack@[j],
                count_unlabeled(label@, nc as int) + stack@.len() == count_unlabeled(ol, nc as int) + os.len(),
                stack@.len() >= os.len(),
            decreases 2 - dx,
        {
            let nx = cx + dx;
            let ny = cy + dy;
            let ghost bl = label@;
            let ghost bs = stack@;
            if nx >= 0 && ny >= 0 && (nx as usize) < cw && (ny as usize) < ch {
                proof {
                    lemma_cell_in_plane(cw as int, ch as int, nx as int, ny as int);
                }
                let n_idx = ny as usize * cw + nx as usize;
                if !label[n_idx] && g[n_idx] {
                    proof {
                        lemma_count_unlabeled_set(label@, nc as int, n_idx as int);
                        assert forall|i: int| 0 <= i < stack@.len() implies stack@[i] != n_idx by {
                            assert(label@[stack@[i] as int]);
                        }
                    }
                    label.set(n_idx, true);
                    stack.push(n_idx);
                }
            }
            proof {
                assert forall|c: int| 0 <= c < nc implies #[trigger] label@[c] == (ol[c] || (adj(cw as int, idx as int, c) && g@[c] && before_offset(cw as int, idx as int, c, dy as int, dx + 1))) by {
                    lemma_offset_cell(cw as int, ch as int, idx as int, dx as int, dy as int, c);
                    assert(bl[c] == (ol[c] || (adj(cw as int, idx as int, c) && g@[c] && before_offset(cw as int, idx as int, c, dy as int, dx as int))));
                }
                assert forall|c: int| 0 <= c < nc implies (#[trigger] stack@.contains(c as usize) <==> (os.contains(c as usize) || (!ol[c] && g@[c] && adj(cw as int, idx as int, c) && before_offset(cw as int, idx as int, c, dy as int, dx + 1)))) by {
                    lemma_offset_cell(cw as int, ch as int, idx as int, dx as int, dy as int, c);
                    assert(bs.contains(c as usize) <==> (os.contains(c as usize) || (!ol[c] && g@[c] && adj(cw as int, idx as int, c) && before_offset(cw as int, idx as int, c, dy as int, dx as int))));
                    assert(bl[c] == (ol[c] || (adj(cw as int, idx as int, c) && g@[c] && before_offset(cw as int, idx as int, c, dy as int, dx as int))));
                    if stack@.len() > bs.len() {
                        assert(stack@ == bs.push(stack@.last()));
                        if stack@.contains(c as usize) && !bs.contains(c as usize) {
                            let i = choose|i: int| 0 <= i < stack@.len() && stack@[i] == c as usize;
                            assert(i == bs.len());
                        }
                        if bs.contains(c as usize) {
                            let i = choose|i: int| 0 <= i < bs.len() && bs[i] == c as usize;
                            assert(stack@[i] == c as usize);
                        }
                    }
                }
                assert forall|i: int| 0 <= i < stack@.len() implies #[trigger] stack@[i] < nc && label@[stack@[i] as int] by {
                    if i < bs.len() {
                        assert(stack@[i] == bs[i]);
                        assert(bl[bs[i] as int]);
                    }
                }
            }
            dx = dx + 1;
        }
        dy = dy + 1;
    }
    proof {
        assert forall|c: int| 0 <= c < nc implies #[trigger] label@[c] == (ol[c] || (adj(cw as int, idx as int, c) && g@[c])) by {
            if adj(cw as int, idx as int, c) {
                assert(before_offset(cw as int, idx as int, c, 2, -1));
            }
        }
        assert forall|c: int| 0 <= c < nc implies (#[trigger] stack@.contains(c as usize) <==> (os.contains(c as usize) || (!ol[c] && g@[c] && adj(cw as int, idx as int, c)))) by {
            if adj(cw as int, idx as int, c) {
                assert(before_offset(cw as int, idx as int, c, 2, -1));
            }
        }
    }
}


/// Whether the labels are closed: every grown neighbour of a labeled cell is
/// labeled, and only grown cells are.
pub open spec fn labels_closed(l: Seq<bool>, g: Seq<bool>, cw: int) -> bool {
    &&& forall|x: int, y: int|
        #![trigger l[x], adj(cw, x, y)]
        0 <= x < l.len() && 0 <= y < l.len() && l[x] && g[y] && adj(cw, x, y) ==> l[y]
    &&& forall|x: int| 0 <= x < l.len() && #[trigger] l[x] ==> g[x]
}

/// The cells of `set` among the first `n`.
pub open spec fn range_set(n: int) -> Set<int> {
    Set::new(|i: int| 0 <= i < n)
}

/// Labels the region reached from `start` and measures it: its unmatched ink,
/// and the least and greatest column and row of its cells that hold some.
fn flood(
    cp: &Vec<i32>,
    g: &Vec<bool>,
    cw: usize,
    ch: usize,
    label: &mut Vec<bool>,
    stack: &mut Vec<usize>,
    start: usize,
) -> (res: (i32, usize, isize, usize, isize))
    requires
        cw > 0,
        ch > 0,
        cw <= i32::MAX,
        ch <= i32::MAX,
        cp@.len() == cw * ch,
        g@.len() == cw * ch,
        old(label)@.len() == cw * ch,
        forall|c: int| 0 <= c < cp@.len() ==> cp@[c] >= 0,
        sum_in(range_set(cw * ch), cp_ints(cp@), cw * ch) <= i32::MAX,
        labels_closed(old(label)@, g@, cw as int),
        start < cw * ch,
        g@[start as int],
        !old(label)@[start as int],
    ensures
        final(label)@.len() == old(label)@.len(),
        forall|c: int| 0 <= c < cw * ch ==> #[trigger] final(label)@[c] == (old(label)@[c] || region(g@, cw as int, start as int).contains(c)),
        forall|c: int| #[trigger] region(g@, cw as int, start as int).contains(c) ==> 0 <= c < cw * ch && !old(label)@[c],
        res.0 == sum_in(region(g@, cw as int, start as int), cp_ints(cp@), cw * ch),
        res.1 == min_key(region(g@, cw as int, start as int), cp_ints(cp@), cw as int, 0, cw as int, cw * ch),
        res.2 == max_key(region(g@, cw as int, start as int), cp_ints(cp@), cw as int, 0, cw * ch),
        res.3 == min_key(region(g@, cw as int, start as int), cp_ints(cp@), cw as int, 1, ch as int, cw * ch),
        res.4 == max_key(region(g@, cw as int, start as int), cp_ints(cp@), cw as int, 1, cw * ch),
        labels_closed(final(label)@, g@, cw as int),
{
    let nc = g.len();
    let ghost cpi = cp_ints(cp@);
    let ghost l0 = label@;
    let ghost gs = g@;
    let ghost icw = cw as int;
    stack.clear();
    proof {
        lemma_count_unlabeled_set(label@, nc as int, start as int);
    }
    label.set(start, true);
    stack.push(start);
    proof {
        assert(stack@ =~= seq![start]);
        assert(stack@[0] == start);
        assert(stack@.contains(start));
        assert forall|c: int| 0 <= c < nc && #[trigger] label@[c] && !l0[c] implies c == start by {}
    }
    let ghost mut popped: Set<int> = Set::empty();
    let mut pixels: i32 = 0;
    let mut min_x: usize = cw;
    let mut max_x: isize = -1;
    let mut min_y: usize = ch;
    let mut max_y: isize = -1;
    proof {
        lemma_empty_extremes(cpi, icw, 0, cw as int, nc as int);
        lemma_empty_extremes(cpi, icw, 1, ch as int, nc as int);
        lemma_connected_refl(gs, icw, start as int);
        lemma_count_unlabeled_nonneg(label@, nc as int);
    }
    while stack.len() > 0
        invariant
            nc == cw * ch,
            cw > 0,
            ch > 0,
            cw <= i32::MAX,
            ch <= i32::MAX,
            cp@.len() == nc,
            gs == g@,
            gs.len() == nc,
            cpi == cp_ints(cp@),
            icw == cw,
            forall|c: int| 0 <= c < cp@.len() ==> cp@[c] >= 0,
            sum_in(range_set(nc as int), cpi, nc as int) <= i32::MAX,
            labels_closed(l0, gs, icw),
            l0.len() == nc,
            label@.len() == nc,
            start < nc,
            gs[start as int],
            !l0[start as int],
            label@[start as int],
            forall|c: int| 0 <= c < nc && l0[c] ==> #[trigger] label@[c],
            forall|c: int| 0 <= c < nc && #[trigger] label@[c] && !l0[c] ==> connected(gs, icw, start as int, c),
            forall|c: int| #[trigger] popped.contains(c) <==> (0 <= c < nc && label@[c] && !l0[c] && !stack@.contains(c as usize)),
            forall|i: int| 0 <= i < stack@.len() ==> #[trigger] stack@[i] < nc && label@[stack@[i] as int] && !l0[stack@[i] as int],
            forall|i: int, j: int| 0 <= i < j < stack@.len() ==> stack@[i] != stack@[j],
            forall|x: int, y: int|
                #![trigger popped.contains(x), adj(icw, x, y)]
                popped.contains(x) && 0 <= y < nc && gs[y] && adj(icw, x, y) ==> label@[y],
            pixels == sum_in(popped, cpi, nc as int),
            min_x == min_key(popped, cpi, icw, 0, cw as int, nc as int),
            max_x == max_key(popped, cpi, icw, 0, nc as int),
            min_y == min_key(popped, cpi, icw, 1, ch as int, nc as int),
            max_y == max_key(popped, cpi, icw, 1, nc as int),
            count_unlabeled(label@, nc as int) >= 0,
        decreases 2 * count_unlabeled(label@, nc as int) + stack@.len(),
    {
        let ghost bs = stack@;
        let ghost measure = 2 * count_unlabeled(label@, nc as int) + stack@.len();
        let idx = match stack.pop() {
            Some(v) => v,
            None => 0,
        };
        proof {
            assert(idx == bs[bs.len() - 1]);
            assert(stack@ == bs.subrange(0, bs.len() - 1));
            assert(!stack@.contains(idx)) by {
                if stack@.contains(idx) {
                    let i = choose|i: int| 0 <= i < stack@.len() && stack@[i] == idx;
                    assert(bs[i] == bs[bs.len() - 1]);
                }
            }
            assert(!popped.contains(idx as int)) by {
                assert(bs.contains(idx));
            }
        }
        let ghost prev_popped = popped;
        proof {
            popped = popped.insert(idx as int);
            lemma_sum_insert(prev_popped, cpi, nc as int, idx as int);
            lemma_min_insert(prev_popped, cpi, icw, 0, cw as int, nc as int, idx as int);
            lemma_max_insert(prev_popped, cpi, icw, 0, nc as int, idx as int);
            lemma_min_insert(prev_popped, cpi, icw, 1, ch as int, nc as int, idx as int);
            lemma_max_insert(prev_popped, cpi, icw, 1, nc as int, idx as int);
            lemma_sum_le(popped, range_set(nc as int), cpi, nc as int);
            assert(idx / cw < ch) by (nonlinear_arith)
                requires
                    cw > 0,
                    idx < cw * ch,
            ;
        }
        let cx = idx % cw;
        let cy = idx / cw;
        let v = cp[idx];
        if v > 0 {
            pixels = pixels + v;
            if cx < min_x {
                min_x = cx;
            }
            if (cx as isize) > max_x {
                max_x = cx as isize;
            }
            if cy < min_y {
                min_y = cy;
            }
            if (cy as isize) > max_y {
                max_y = cy as isize;
            }
        }
        let ghost bl = label@;
        let ghost bs2 = stack@;
        push_unlabeled_neighbours(g, cw, ch, idx, label, stack);
        proof {
            assert forall|c: int| 0 <= c < nc && l0[c] implies #[trigger] label@[c] by {
                assert(bl[c]);
            }
            assert forall|c: int| 0 <= c < nc && #[trigger] label@[c] && !l0[c] implies connected(gs, icw, start as int, c) by {
                if !bl[c] {
                    assert(adj(icw, idx as int, c) && gs[c]);
                    assert(bl[idx as int] && !l0[idx as int]);
                    lemma_connected_step(gs, icw, start as int, idx as int, c);
                }
            }
            assert forall|c: int| #[trigger] popped.contains(c) <==> (0 <= c < nc && label@[c] && !l0[c] && !stack@.contains(c as usize)) by {
                if 0 <= c < nc {
                    if c == idx {
                        assert(!stack@.contains(c as usize)) by {
                            assert(!bs2.contains(idx));
                            assert(bl[idx as int]);
                        }
                    } else if prev_popped.contains(c) {
                        assert(bl[c] && !bs2.contains(c as usize));
                    } else if bl[c] && !l0[c] {
                        assert(bs.contains(c as usize));
                        let i = choose|i: int| 0 <= i < bs.len() && bs[i] == c as usize;
                        assert(i != bs.len() - 1);
                        assert(bs2[i] == c as usize);
                        assert(bs2.contains(c as usize));
                    }
                }
            }
            assert forall|i: int| 0 <= i < stack@.len() implies #[trigger] stack@[i] < nc && label@[stack@[i] as int] && !l0[stack@[i] as int] by {
                let c = stack@[i] as int;
                assert(stack@.contains(c as usize));
                if !bs2.contains(c as usize) {
                    assert(!bl[c]);
                } else {
                    let j = choose|j: int| 0 <= j < bs2.len() && bs2[j] == c as usize;
                    assert(!l0[bs2[j] as int]);
                }
            }
            assert forall|x: int, y: int|
                #![trigger popped.contains(x), adj(icw, x, y)]
                popped.contains(x) && 0 <= y < nc && gs[y] && adj(icw, x, y) implies label@[y] by {
                if x != idx {
                    assert(prev_popped.contains(x));
                    assert(bl[y]);
                }
            }
            lemma_count_unlabeled_nonneg(label@, nc as int);
            assert(count_unlabeled(label@, nc as int) + stack@.len() == count_unlabeled(bl, nc as int) + bs2.len());
            assert(bs2.len() == bs.len() - 1);
            assert(2 * count_unlabeled(label@, nc as int) + stack@.len() < measure);
        }
    }
    proof {
        let reg = region(gs, icw, start as int);
        assert(closed_in(gs, icw, popped)) by {
            assert forall|x: int, y: int|
                #![trigger popped.contains(x), adj(icw, x, y)]
                popped.contains(x) && 0 <= y < gs.len() && gs[y] && adj(icw, x, y) implies popped.contains(y) by {
                assert(label@[y]);
                if l0[y] {
                    lemma_adj_symmetric(icw, x, y);
                    assert(connected(gs, icw, start as int, x));
                    lemma_connected_grown(gs, icw, start as int, x);
                    assert(l0[x]);
                }
            }
        }
        assert(popped.contains(start as int));
        assert forall|c: int| #[trigger] reg.contains(c) <==> popped.contains(c) by {
            if popped.contains(c) {
                assert(connected(gs, icw, start as int, c));
            }
            if reg.contains(c) {
                assert(connected(gs, icw, start as int, c));
            }
        }
        assert(reg =~= popped);
        assert forall|c: int| 0 <= c < nc implies #[trigger] label@[c] == (l0[c] || reg.contains(c)) by {
            if label@[c] && !l0[c] {
                assert(popped.contains(c));
            }
        }
        assert(labels_closed(label@, gs, icw)) by {
            assert forall|x: int, y: int|
                #![trigger label@[x], adj(icw, x, y)]
                0 <= x < label@.len() && 0 <= y < label@.len() && label@[x] && gs[y] && adj(icw, x, y) implies label@[y] by {
                if !l0[x] {
                    assert(popped.contains(x));
                }
            }
            assert forall|x: int| 0 <= x < label@.len() && #[trigger] label@[x] implies gs[x] by {
                if !l0[x] {
                    lemma_connected_grown(gs, icw, start as int, x);
                }
            }
        }
    }
    (pixels, min_x, max_x, min_y, max_y)
}


proof fn lemma_sum_same(s: Set<int>, cp1: Seq<int>, cp2: Seq<int>, k: int)
    requires
        forall|i: int| 0 <= i < k ==> cp1[i] == cp2[i],
    ensures
        sum_in(s, cp1, k) == sum_in(s, cp2, k),
    decreases k,
{
    if k > 0 {
        lemma_sum_same(s, cp1, cp2, k - 1);
    }
}

proof fn lemma_sum_bump(s: Set<int>, cp1: Seq<int>, cp2: Seq<int>, k: int, j: int, d: int)
    requires
        0 <= j < k,
        s.contains(j),
        forall|i: int| 0 <= i < k && i != j ==> cp1[i] == cp2[i],
        cp2[j] == cp1[j] + d,
    ensures
        sum_in(s, cp2, k) == sum_in(s, cp1, k) + d,
    decreases k,
{
    if j == k - 1 {
        lemma_sum_same(s, cp1, cp2, k - 1);
    } else {
        lemma_sum_bump(s, cp1, cp2, k - 1, j, d);
    }
}

/// The cell of every pixel of the plane is on the grid.
proof fn lemma_cell_of_in_grid(w: int, h: int, i: int)
    requires
        w > 0,
        h > 0,
        0 <= i < w * h,
    ensures
        0 <= cell_of(w, cells_across(w), i) < cells_across(w) * cells_across(h),
{
    let cw = cells_across(w);
    let ch = cells_across(h);
    let x = i % w;
    let y = i / w;
    assert(0 <= y < h) by (nonlinear_arith)
        requires
            w > 0,
            0 <= i < w * h,
            y == i / w,
    ;
    assert(0 <= x < w);
    assert(x / 8 < cw && y / 8 < ch) by (nonlinear_arith)
        requires
            0 <= x < w,
            0 <= y < h,
            cw == (w + 7) / 8,
            ch == (h + 7) / 8,
    ;
    lemma_cell_in_plane(cw, ch, x / 8, y / 8);
}

/// All the cells together hold no more unmatched ink than there are pixels.
proof fn lemma_total_count(a: Seq<u8>, b: Seq<u8>, da: Seq<u8>, db: Seq<u8>, w: int, h: int, k: int)
    requires
        w > 0,
        h > 0,
        0 <= k <= w * h,
    ensures
        sum_in(
            range_set(cells_across(w) * cells_across(h)),
            Seq::new((cells_across(w) * cells_across(h)) as nat, |c: int| count_in_cell(a, b, da, db, w, cells_across(w), c, k)),
            cells_across(w) * cells_across(h),
        ) <= k,
    decreases k,
{
    let cw = cells_across(w);
    let ch = cells_across(h);
    let nc = cw * ch;
    let s = range_set(nc);
    let cur = Seq::new(nc as nat, |c: int| count_in_cell(a, b, da, db, w, cw, c, k));
    if k == 0 {
        assert forall|c: int| 0 <= c < nc implies cur[c] == 0 by {}
        lemma_sum_same(s, cur, Seq::new(nc as nat, |c: int| 0int), nc);
        lemma_sum_zero(s, nc);
    } else {
        lemma_total_count(a, b, da, db, w, h, k - 1);
        let prev = Seq::new(nc as nat, |c: int| count_in_cell(a, b, da, db, w, cw, c, k - 1));
        let c0 = cell_of(w, cw, k - 1);
        lemma_cell_of_in_grid(w, h, k - 1);
        let d: int = if unmatched_at(a, b, da, db, k - 1) { 1 } else { 0 };
        lemma_sum_bump(s, prev, cur, nc, c0, d);
    }
}

proof fn lemma_sum_zero(s: Set<int>, k: int)
    ensures
        sum_in(s, Seq::new(k as nat, |c: int| 0int), k) == 0,
    decreases k,
{
    if k > 0 {
        lemma_sum_same(s, Seq::new(k as nat, |c: int| 0int), Seq::new((k - 1) as nat, |c: int| 0int), k - 1);
        lemma_sum_zero(s, k - 1);
    }
}

/// Groups the labeled cells into reported change regions.
fn label_regions(cp: &Vec<i32>, g: &Vec<bool>, cw: usize, ch: usize) -> (out: Vec<Change>)
    requires
        cw > 0,
        ch > 0,
        cw * CHANGE_CELL <= i32::MAX,
        ch * CHANGE_CELL <= i32::MAX,
        cp@.len() == cw * ch,
        g@.len() == cw * ch,
        forall|c: int| 0 <= c < cp@.len() ==> cp@[c] >= 0,
        sum_in(range_set(cw * ch), cp_ints(cp@), cw * ch) <= i32::MAX,
    ensures
        out@ == changes_upto(cp_ints(cp@), g@, cw as int, ch as int, cw * ch),
{
    let nc = g.len();
    let ghost cpi = cp_ints(cp@);
    let ghost gs = g@;
    let ghost icw = cw as int;
    let mut label: Vec<bool> = vec![false; nc];
    let mut stack: Vec<usize> = Vec::new();
    let mut out: Vec<Change> = Vec::new();
    let mut start: usize = 0;
    proof {
        assert forall|x: int| 0 <= x < nc implies #[trigger] label@[x] == labeled_before(gs, icw, 0, x) by {}
    }
    while start < nc
        invariant
            start <= nc,
            nc == cw * ch,
            cw > 0,
            ch > 0,
            cw * CHANGE_CELL <= i32::MAX,
            ch * CHANGE_CELL <= i32::MAX,
            cp@.len() == nc,
            gs == g@,
            gs.len() == nc,
            cpi == cp_ints(cp@),
            icw == cw,
            forall|c: int| 0 <= c < cp@.len() ==> cp@[c] >= 0,
            sum_in(range_set(nc as int), cpi, nc as int) <= i32::MAX,
            label@.len() == nc,
            forall|x: int| 0 <= x < nc ==> #[trigger] label@[x] == labeled_before(gs, icw, start as int, x),
            labels_closed(label@, gs, icw),
            out@ == changes_upto(cpi, gs, icw, ch as int, start as int),
        decreases nc - start,
    {
        if label[start] || !g[start] {
            proof {
                assert forall|x: int| 0 <= x < nc implies #[trigger] label@[x] == labeled_before(gs, icw, start + 1, x) by {
                    if labeled_before(gs, icw, start + 1, x) {
                        let j = choose|j: int| 0 <= j < start + 1 && #[trigger] gs[j] && connected(gs, icw, j, x);
                        if j == start {
                            assert(label@[start as int]);
                            assert(labeled_before(gs, icw, start as int, start as int));
                            let j2 = choose|j2: int| 0 <= j2 < start && #[trigger] gs[j2] && connected(gs, icw, j2, start as int);
                            lemma_connected_trans(gs, icw, j2, start as int, x);
                            assert(labeled_before(gs, icw, start as int, x));
                        }
                    }
                }
                if gs[start as int] {
                    assert(labeled_before(gs, icw, start as int, start as int));
                    let j2 = choose|j2: int| 0 <= j2 < start && #[trigger] gs[j2] && connected(gs, icw, j2, start as int);
                    assert(!is_first(gs, icw, start as int));
                }
                assert(changes_upto(cpi, gs, icw, ch as int, start + 1) == changes_upto(cpi, gs, icw, ch as int, start as int));
            }
        } else {
            let ghost before = label@;
            let (pixels, min_x, max_x, min_y, max_y) = flood(cp, g, cw, ch, &mut label, &mut stack, start);
            let ghost reg = region(gs, icw, start as int);
            proof {
                assert(is_first(gs, icw, start as int)) by {
                    assert forall|j: int| 0 <= j < start && #[trigger] gs[j] implies !connected(gs, icw, j, start as int) by {
                        assert(!labeled_before(gs, icw, start as int, start as int));
                    }
                }
                assert forall|x: int| 0 <= x < nc implies #[trigger] label@[x] == labeled_before(gs, icw, start + 1, x) by {
                    if reg.contains(x) {
                        assert(gs[start as int] && connected(gs, icw, start as int, x));
                    }
                    if labeled_before(gs, icw, start + 1, x) {
                        let j = choose|j: int| 0 <= j < start + 1 && #[trigger] gs[j] && connected(gs, icw, j, x);
                        if j < start {
                            assert(labeled_before(gs, icw, start as int, x));
                        } else {
                            assert(reg.contains(x));
                        }
                    }
                }
                lemma_min_key_bounds(reg, cpi, icw, ch as int, nc as int);
            }
            if pixels >= CHANGE_MIN_PIXELS && max_x >= min_x as isize {
                let mx = min_x as i32;
                let my = min_y as i32;
                let xx = max_x as i32;
                let xy = max_y as i32;
                let c = Change {
                    box_: Rect {
                        x: mx * CHANGE_CELL,
                        y: my * CHANGE_CELL,
                        dx: (xx - mx + 1) * CHANGE_CELL,
                        dy: (xy - my + 1) * CHANGE_CELL,
                    },
                    pixels,
                };
                out.push(c);
            }
        }
        start = start + 1;
    }
    out
}

/// The least and greatest columns and rows of a set's cells stay on the grid.
proof fn lemma_min_key_bounds(s: Set<int>, cp: Seq<int>, cw: int, ch: int, nc: int)
    requires
        cw > 0,
        ch > 0,
        nc == cw * ch,
    ensures
        0 <= min_key(s, cp, cw, 0, cw, nc) <= cw,
        -1 <= max_key(s, cp, cw, 0, nc) <= cw - 1,
        0 <= min_key(s, cp, cw, 1, ch, nc) <= ch,
        -1 <= max_key(s, cp, cw, 1, nc) <= ch - 1,
{
    assert forall|i: int| 0 <= i < nc implies 0 <= #[trigger] key(cw, 0, i) <= cw - 1 by {}
    assert forall|i: int| 0 <= i < nc implies 0 <= #[trigger] key(cw, 1, i) <= ch - 1 by {
        assert(i / cw < ch) by (nonlinear_arith)
            requires
                cw > 0,
                0 <= i < cw * ch,
        ;
    }
    lemma_min_key_range(s, cp, cw, 0, cw, nc, cw);
    lemma_max_key_range(s, cp, cw, 0, nc, cw - 1);
    lemma_min_key_range(s, cp, cw, 1, ch, nc, ch);
    lemma_max_key_range(s, cp, cw, 1, nc, ch - 1);
}

/// Groups the ink the two documents do not share into regions a reader can be
/// taken to one at a time.
///
/// Works on a coarse grid of `CHANGE_CELL`-pixel cells rather than on single
/// pixels: a pixel is unmatched when one side draws it (ink above
/// `INK_THRESHOLD`) and the other has no such ink within the tolerance; every
/// cell holding unmatched ink is grown by one cell in each direction so that one
/// edit spanning several cells comes back as one region; the grown cells are
/// grouped by adjacency (diagonals included), and each group is reported as the
/// bounding box of its cells that hold unmatched ink and how much they hold,
/// in the order the groups are first met reading the grid row by row, provided
/// it holds at least `CHANGE_MIN_PIXELS`.
pub fn find_changes(ink_a: &[u8], ink_b: &[u8], w: usize, h: usize, opts: &Options) -> (out: Vec<Change>)
    requires
        w > 0 && h > 0 && ink_a@.len() >= w * h && ink_b@.len() >= w * h ==> (w * h <= i32::MAX && w
            + CHANGE_CELL <= i32::MAX && h + CHANGE_CELL <= i32::MAX),
    ensures
        out@ == spec_find_changes(ink_a@, ink_b@, w as int, h as int, *opts),
{
    if w == 0 || h == 0 {
        return Vec::new();
    }
    // A side shorter than the sheet is nothing to compare; tested by division
    // so that the size of the sheet is not computed before it is known to fit.
    if ink_a.len() / w < h || ink_b.len() / w < h {
        proof {
            let (la, lb) = (ink_a@.len() as int, ink_b@.len() as int);
            assert(la / (w as int) < h ==> la < w * h) by (nonlinear_arith)
                requires w > 0, la >= 0;
            assert(lb / (w as int) < h ==> lb < w * h) by (nonlinear_arith)
                requires w > 0, lb >= 0;
        }
        return Vec::new();
    }
    proof {
        let (la, lb) = (ink_a@.len() as int, ink_b@.len() as int);
        assert(la / (w as int) >= h ==> la >= w * h) by (nonlinear_arith)
            requires w > 0, la >= 0;
        assert(lb / (w as int) >= h ==> lb >= w * h) by (nonlinear_arith)
            requires w > 0, lb >= 0;
        assert(cells_across(w as int) * cells_across(h as int) <= w * h) by (nonlinear_arith)
            requires
                w > 0,
                h > 0,
                cells_across(w as int) <= w,
                cells_across(h as int) <= h,
                cells_across(w as int) >= 0,
                cells_across(h as int) >= 0,
        ;
    }
    let n = w * h;
    let r = clamp_i32(opts.tolerance, 0, MAX_TOLERANCE);
    let mut dil_a: Vec<u8> = vec![0u8; n];
    let mut dil_b: Vec<u8> = vec![0u8; n];
    let mut scratch: Vec<u8> = vec![0u8; n];
    dilate_ink(ink_a, dil_a.as_mut_slice(), w, h, r, scratch.as_mut_slice());
    dilate_ink(ink_b, dil_b.as_mut_slice(), w, h, r, scratch.as_mut_slice());
    proof {
        lemma_dilated_plane(dil_a@, ink_a@, w as int, h as int, r as int);
        lemma_dilated_plane(dil_b@, ink_b@, w as int, h as int, r as int);
    }
    let cell = CHANGE_CELL as usize;
    let cw = (w + cell - 1) / cell;
    let ch = (h + cell - 1) / cell;
    let cp = count_cells(ink_a, ink_b, &dil_a, &dil_b, w, h, cw, ch);
    let ghost cpi = cp_ints(cp@);
    let ghost counts = cell_counts(ink_a@, ink_b@, w as int, h as int, opts.spec_radius());
    proof {
        assert(cpi =~= counts);
        assert forall|c: int| 0 <= c < cp@.len() implies cp@[c] >= 0 by {
            lemma_count_le(ink_a@, ink_b@, dil_a@, dil_b@, w as int, cw as int, c, w * h);
        }
        lemma_total_count(ink_a@, ink_b@, dil_a@, dil_b@, w as int, h as int, w * h);
        assert(counts =~= Seq::new((cw * ch) as nat, |c: int| count_in_cell(ink_a@, ink_b@, dil_a@, dil_b@, w as int, cw as int, c, w * h)));
        assert(cw <= i32::MAX && ch <= i32::MAX);
    }
    let g = grow_cells(&cp, cw, ch);
    let out = label_regions(&cp, &g, cw, ch);
    out
}


proof fn lemma_no_unmatched_counts_zero(a: Seq<u8>, b: Seq<u8>, da: Seq<u8>, db: Seq<u8>, w: int, cw: int, c: int, k: int)
    requires
        forall|i: int| 0 <= i < k ==> !#[trigger] unmatched_at(a, b, da, db, i),
    ensures
        count_in_cell(a, b, da, db, w, cw, c, k) == 0,
    decreases k,
{
    if k > 0 {
        lemma_no_unmatched_counts_zero(a, b, da, db, w, cw, c, k - 1);
    }
}

proof fn lemma_nothing_grown_nothing_reported(cp: Seq<int>, g: Seq<bool>, cw: int, ch: int, k: int)
    requires
        k <= g.len(),
        forall|c: int| 0 <= c < g.len() ==> !#[trigger] g[c],
    ensures
        changes_upto(cp, g, cw, ch, k) == Seq::<Change>::empty(),
    decreases k,
{
    if k > 0 {
        lemma_nothing_grown_nothing_reported(cp, g, cw, ch, k - 1);
    }
}

/// A sheet compared with itself has nothing to report, whatever the tolerance:
/// every drawn pixel finds itself within the tolerance on the other side.
pub proof fn law_identical_sheets_have_no_changes(a: Seq<u8>, w: int, h: int, opts: Options)
    requires
        w >= 0,
        h >= 0,
    ensures
        spec_find_changes(a, a, w, h, opts) == Seq::<Change>::empty(),
{
    if w == 0 || h == 0 || a.len() < w * h {
    } else {
        let r = opts.spec_radius();
        let da = dilated_plane(a, w, h, r);
        assert forall|i: int| 0 <= i < w * h implies !#[trigger] unmatched_at(a, a, da, da, i) by {
            let x = i % w;
            let y = i / w;
            assert(i == y * w + x) by (nonlinear_arith)
                requires
                    w > 0,
                    x == i % w,
                    y == i / w,
            ;
            assert(0 <= y < h) by (nonlinear_arith)
                requires
                    w > 0,
                    0 <= i < w * h,
                    y == i / w,
            ;
            crate::dilate::lemma_dilated_ge(a, w, h, r, x, y);
        }
        let cw = cells_across(w);
        let ch = cells_across(h);
        let cp = cell_counts(a, a, w, h, r);
        assert forall|c: int| 0 <= c < cp.len() implies cp[c] == 0 by {
            lemma_no_unmatched_counts_zero(a, a, da, da, w, cw, c, w * h);
        }
        let g = grown_cells(cp, cw);
        assert forall|c: int| 0 <= c < g.len() implies !#[trigger] g[c] by {
            if grown_at(cp, cw, c) {
                let j = choose|j: int| 0 <= j < cp.len() && #[trigger] adj(cw, j, c) && cp[j] > 0;
            }
        }
        lemma_nothing_grown_nothing_reported(cp, g, cw, ch, cw * ch);
    }
}


// ---------------------------------------------------------------------------
// Regions never share a cell

/// A grown cell reached from another grown cell reaches it back.
proof fn lemma_connected_symm(g: Seq<bool>, cw: int, s: int, c: int)
    requires
        0 <= s < g.len(),
        g[s],
        connected(g, cw, s, c),
    ensures
        connected(g, cw, c, s),
{
    assert forall|set: Set<int>| #[trigger] closed_in(g, cw, set) && set.contains(c) implies set.contains(s) by {
        if !set.contains(s) {
            let rest = Set::new(|x: int| 0 <= x < g.len() && g[x] && !set.contains(x));
            assert forall|x: int, y: int|
                #![trigger rest.contains(x), adj(cw, x, y)]
                rest.contains(x) && 0 <= y < g.len() && g[y] && adj(cw, x, y) implies rest.contains(y) by {
                if set.contains(y) {
                    lemma_adj_symmetric(cw, x, y);
                    assert(set.contains(x));
                }
            }
            assert(closed_in(g, cw, rest));
            assert(rest.contains(s));
            assert(rest.contains(c));
        }
    }
}

/// The sum over two sets with nothing in common is the sum of their sums.
proof fn lemma_sum_disjoint(s: Set<int>, t: Set<int>, cp: Seq<int>, k: int)
    requires
        forall|i: int| 0 <= i < k ==> !(#[trigger] s.contains(i) && t.contains(i)),
    ensures
        sum_in(s.union(t), cp, k) == sum_in(s, cp, k) + sum_in(t, cp, k),
    decreases k,
{
    if k > 0 {
        lemma_sum_disjoint(s, t, cp, k - 1);
    }
}

/// The cells of the regions that are reported among the first `k` first cells.
pub open spec fn reported_cells(cp: Seq<int>, g: Seq<bool>, cw: int, k: int) -> Set<int> {
    Set::new(
        |c: int|
            exists|j: int|
                0 <= j < k && #[trigger] is_first(g, cw, j) && region_reported(cp, g, cw, j) && connected(
                    g,
                    cw,
                    j,
                    c,
                ),
    )
}

/// The unmatched ink of every change in a list, added up.
pub open spec fn pixel_total(cs: Seq<Change>) -> int
    decreases cs.len(),
{
    if cs.len() == 0 {
        0
    } else {
        pixel_total(cs.drop_last()) + cs.last().pixels
    }
}

/// The changes reported among the first `k` cells hold exactly the ink of their
/// regions' cells, no cell counted twice.
proof fn lemma_changes_total(cp: Seq<int>, g: Seq<bool>, cw: int, ch: int, k: int)
    requires
        cw > 0,
        ch > 0,
        cp.len() == cw * ch,
        g.len() == cp.len(),
        0 <= k <= cp.len(),
        forall|i: int| 0 <= i < cp.len() ==> cp[i] >= 0,
        sum_in(range_set(cp.len() as int), cp, cp.len() as int) <= i32::MAX,
        cw * CHANGE_CELL <= i32::MAX,
        ch * CHANGE_CELL <= i32::MAX,
    ensures
        pixel_total(changes_upto(cp, g, cw, ch, k)) == sum_in(reported_cells(cp, g, cw, k), cp, cp.len() as int),
        forall|i: int|
            0 <= i < changes_upto(cp, g, cw, ch, k).len() ==> {
                let c = #[trigger] changes_upto(cp, g, cw, ch, k)[i];
                &&& 0 <= c.pixels
                &&& 0 <= c.box_.x
                &&& 0 <= c.box_.y
                &&& 0 <= c.box_.dx
                &&& c.box_.x + c.box_.dx <= cw * CHANGE_CELL
                &&& -ch * CHANGE_CELL <= c.box_.dy <= ch * CHANGE_CELL
                &&& c.box_.y <= ch * CHANGE_CELL
            },
    decreases k,
{
    let n = cp.len() as int;
    if k == 0 {
        assert(reported_cells(cp, g, cw, 0) =~= Set::<int>::empty());
        lemma_empty_extremes(cp, cw, 0, 0, n);
    } else {
        lemma_changes_total(cp, g, cw, ch, k - 1);
        let s = k - 1;
        let prev = changes_upto(cp, g, cw, ch, k - 1);
        let u = reported_cells(cp, g, cw, k - 1);
        if is_first(g, cw, s) && region_reported(cp, g, cw, s) {
            let r = region(g, cw, s);
            assert forall|i: int| 0 <= i < n implies !(#[trigger] u.contains(i) && r.contains(i)) by {
                if u.contains(i) && r.contains(i) {
                    let j = choose|j: int|
                        0 <= j < k - 1 && #[trigger] is_first(g, cw, j) && region_reported(cp, g, cw, j)
                            && connected(g, cw, j, i);
                    lemma_connected_symm(g, cw, s, i);
                    lemma_connected_trans(g, cw, j, i, s);
                }
            }
            lemma_sum_disjoint(u, r, cp, n);
            assert(reported_cells(cp, g, cw, k) =~= u.union(r));
            lemma_sum_le(r, range_set(n), cp, n);
            lemma_sum_le(u.union(r), range_set(n), cp, n);
            lemma_sum_le(Set::empty(), u, cp, n);
            lemma_min_key_bounds(r, cp, cw, ch, n);
            let cs = changes_upto(cp, g, cw, ch, k);
            assert(cs.drop_last() =~= prev);
            let rc = region_change(cp, g, cw, ch, s);
            let min_x = min_key(r, cp, cw, 0, cw, n);
            let max_x = max_key(r, cp, cw, 0, n);
            let min_y = min_key(r, cp, cw, 1, ch, n);
            let max_y = max_key(r, cp, cw, 1, n);
            assert(0 <= min_x <= max_x <= cw - 1);
            assert(0 <= min_x * CHANGE_CELL <= cw * CHANGE_CELL);
            assert(rc.box_.x == min_x * CHANGE_CELL);
            assert(0 <= (max_x - min_x + 1) * CHANGE_CELL <= cw * CHANGE_CELL);
            assert(rc.box_.dx == (max_x - min_x + 1) * CHANGE_CELL);
            assert(0 <= min_y * CHANGE_CELL <= ch * CHANGE_CELL);
            assert(rc.box_.y == min_y * CHANGE_CELL);
            assert(-ch * CHANGE_CELL <= (max_y - min_y + 1) * CHANGE_CELL <= ch * CHANGE_CELL);
            assert(rc.box_.dy == (max_y - min_y + 1) * CHANGE_CELL);
            assert(rc.pixels == sum_in(r, cp, n));
            assert(rc.box_.x + rc.box_.dx <= cw * CHANGE_CELL);
            assert forall|i: int| 0 <= i < cs.len() implies {
                let c = #[trigger] cs[i];
                &&& 0 <= c.pixels
                &&& 0 <= c.box_.x
                &&& 0 <= c.box_.y
                &&& 0 <= c.box_.dx
                &&& c.box_.x + c.box_.dx <= cw * CHANGE_CELL
                &&& -ch * CHANGE_CELL <= c.box_.dy <= ch * CHANGE_CELL
                &&& c.box_.y <= ch * CHANGE_CELL
            } by {
                if i < prev.len() {
                    assert(cs[i] == prev[i]);
                }
            }
        } else {
            assert(reported_cells(cp, g, cw, k) =~= u);
        }
    }
}

/// At most one change is reported per cell.
proof fn lemma_changes_len(cp: Seq<int>, g: Seq<bool>, cw: int, ch: int, k: int)
    requires
        k >= 0,
    ensures
        changes_upto(cp, g, cw, ch, k).len() <= k,
    decreases k,
{
    if k > 0 {
        lemma_changes_len(cp, g, cw, ch, k - 1);
    }
}

/// The regions a scan reports never overlap: each holds ink that no other
/// holds, so together they hold no more unmatched ink than the sheet has pixels.
/// Each one's box lies on the scanned grid.
pub proof fn law_changes_share_no_ink(a: Seq<u8>, b: Seq<u8>, w: int, h: int, opts: Options)
    requires
        w >= 0,
        h >= 0,
        w * h <= i32::MAX,
        w + CHANGE_CELL <= i32::MAX,
        h + CHANGE_CELL <= i32::MAX,
    ensures
        0 <= pixel_total(spec_find_changes(a, b, w, h, opts)) <= w * h,
        spec_find_changes(a, b, w, h, opts).len() <= w * h,
        forall|i: int|
            0 <= i < spec_find_changes(a, b, w, h, opts).len() ==> {
                let c = #[trigger] spec_find_changes(a, b, w, h, opts)[i];
                &&& 0 <= c.pixels
                &&& 0 <= c.box_.x
                &&& 0 <= c.box_.y
                &&& 0 <= c.box_.dx
                &&& c.box_.x + c.box_.dx <= w + CHANGE_CELL
                &&& -(h + CHANGE_CELL) <= c.box_.dy <= h + CHANGE_CELL
                &&& c.box_.y <= h + CHANGE_CELL
            },
{
    if w == 0 || h == 0 || a.len() < w * h || b.len() < w * h {
    } else {
        let r = opts.spec_radius();
        let cw = cells_across(w);
        let ch = cells_across(h);
        let n = cw * ch;
        let cp = cell_counts(a, b, w, h, r);
        let da = dilated_plane(a, w, h, r);
        let db = dilated_plane(b, w, h, r);
        assert(cw > 0 && ch > 0);
        assert(n > 0) by (nonlinear_arith)
            requires
                cw > 0,
                ch > 0,
                n == cw * ch,
        ;
        assert forall|i: int| 0 <= i < cp.len() implies cp[i] >= 0 by {
            lemma_count_le(a, b, da, db, w, cw, i, w * h);
        }
        lemma_total_count(a, b, da, db, w, h, w * h);
        assert(cp =~= Seq::new(n as nat, |c: int| count_in_cell(a, b, da, db, w, cw, c, w * h)));
        let g = grown_cells(cp, cw);
        lemma_changes_total(cp, g, cw, ch, n);
        lemma_changes_len(cp, g, cw, ch, n);
        lemma_sum_le(reported_cells(cp, g, cw, n), range_set(n), cp, n);
        assert(n <= w * h) by (nonlinear_arith)
            requires
                w > 0,
                h > 0,
                cw == (w + 7) / 8,
                ch == (h + 7) / 8,
                n == cw * ch,
        ;
        assert(cw * CHANGE_CELL <= w + CHANGE_CELL && ch * CHANGE_CELL <= h + CHANGE_CELL);
    }
}

/// An unmatched pixel is unmatched whichever side is called first.
proof fn lemma_count_symmetric(a: Seq<u8>, b: Seq<u8>, da: Seq<u8>, db: Seq<u8>, w: int, cw: int, c: int, k: int)
    ensures
        count_in_cell(a, b, da, db, w, cw, c, k) == count_in_cell(b, a, db, da, w, cw, c, k),
    decreases k,
{
    if k > 0 {
        lemma_count_symmetric(a, b, da, db, w, cw, c, k - 1);
        assert(unmatched_at(a, b, da, db, k - 1) == unmatched_at(b, a, db, da, k - 1));
    }
}

/// Which revision is called the earlier one does not matter: swapping the two
/// changes neither the regions found, nor their order, nor their ink.
pub proof fn law_swapping_the_revisions_changes_nothing(a: Seq<u8>, b: Seq<u8>, w: int, h: int, opts: Options)
    ensures
        spec_find_changes(a, b, w, h, opts) == spec_find_changes(b, a, w, h, opts),
{
    if !(w == 0 || h == 0 || a.len() < w * h || b.len() < w * h) {
        let r = opts.spec_radius();
        let cw = cells_across(w);
        let da = dilated_plane(a, w, h, r);
        let db = dilated_plane(b, w, h, r);
        assert forall|c: int| 0 <= c < cell_counts(a, b, w, h, r).len() implies #[trigger] cell_counts(
            a,
            b,
            w,
            h,
            r,
        )[c] == cell_counts(b, a, w, h, r)[c] by {
            lemma_count_symmetric(a, b, da, db, w, cw, c, w * h);
        }
        assert(cell_counts(a, b, w, h, r) =~= cell_counts(b, a, w, h, r));
    }
}

/// Every grown cell is reached from the first cell of its region.
proof fn lemma_first_of_region(g: Seq<bool>, cw: int, c: int)
    requires
        0 <= c < g.len(),
        g[c],
    ensures
        exists|s: int| 0 <= s <= c && #[trigger] is_first(g, cw, s) && connected(g, cw, s, c),
    decreases c,
{
    if is_first(g, cw, c) {
        lemma_connected_refl(g, cw, c);
        assert(is_first(g, cw, c) && connected(g, cw, c, c));
    } else {
        let j = choose|j: int| 0 <= j < c && #[trigger] g[j] && connected(g, cw, j, c);
        lemma_first_of_region(g, cw, j);
        let s = choose|s: int| 0 <= s <= j && #[trigger] is_first(g, cw, s) && connected(g, cw, s, j);
        lemma_connected_trans(g, cw, s, j, c);
        assert(is_first(g, cw, s) && connected(g, cw, s, c));
    }
}

/// A member of a set that holds unmatched ink lies between the set's least and
/// greatest column (or row).
proof fn lemma_key_between(s: Set<int>, cp: Seq<int>, cw: int, axis: int, dflt: int, k: int, c: int)
    requires
        0 <= c < k,
        s.contains(c),
        cp[c] > 0,
    ensures
        min_key(s, cp, cw, axis, dflt, k) <= key(cw, axis, c) <= max_key(s, cp, cw, axis, k),
    decreases k,
{
    if c < k - 1 {
        lemma_key_between(s, cp, cw, axis, dflt, k - 1, c);
    }
}

/// Changes already listed stay listed, in place, as more cells are read.
proof fn lemma_changes_prefix(cp: Seq<int>, g: Seq<bool>, cw: int, ch: int, k1: int, k2: int)
    requires
        0 <= k1 <= k2,
    ensures
        changes_upto(cp, g, cw, ch, k1).len() <= changes_upto(cp, g, cw, ch, k2).len(),
        forall|i: int| 0 <= i < changes_upto(cp, g, cw, ch, k1).len() ==> #[trigger] changes_upto(cp, g, cw, ch, k2)[i]
            == changes_upto(cp, g, cw, ch, k1)[i],
    decreases k2,
{
    if k2 > k1 {
        lemma_changes_prefix(cp, g, cw, ch, k1, k2 - 1);
    }
}

/// The cell of a grid `cw` wide at column `x` and row `y`.
pub open spec fn cell_at(cw: int, x: int, y: int) -> int {
    y * cw + x
}

/// The box of a change covers cell `c` of a grid `cw` wide, in pixels.
pub open spec fn box_covers_cell(r: Rect, cw: int, c: int) -> bool {
    &&& r.x <= (c % cw) * CHANGE_CELL
    &&& (c % cw) * CHANGE_CELL + CHANGE_CELL <= r.x + r.dx
    &&& r.y <= (c / cw) * CHANGE_CELL
    &&& (c / cw) * CHANGE_CELL + CHANGE_CELL <= r.y + r.dy
}

proof fn lemma_bridged_cells_reported(cp: Seq<int>, cw: int, ch: int, c1: int, c2: int)
    requires
        cw > 0,
        ch > 0,
        cp.len() == cw * ch,
        cw * CHANGE_CELL <= i32::MAX,
        ch * CHANGE_CELL <= i32::MAX,
        forall|i: int| 0 <= i < cp.len() ==> cp[i] >= 0,
        0 <= c1 < cp.len(),
        0 <= c2 < cp.len(),
        cp[c1] >= CHANGE_MIN_PIXELS,
        cp[c2] > 0,
        -2 <= c1 % cw - c2 % cw <= 2,
        -2 <= c1 / cw - c2 / cw <= 2,
    ensures
        exists|i: int|
            0 <= i < changes_upto(cp, grown_cells(cp, cw), cw, ch, cw * ch).len() && box_covers_cell(
                #[trigger] changes_upto(cp, grown_cells(cp, cw), cw, ch, cw * ch)[i].box_,
                cw,
                c1,
            ) && box_covers_cell(changes_upto(cp, grown_cells(cp, cw), cw, ch, cw * ch)[i].box_, cw, c2),
{
    let g = grown_cells(cp, cw);
    let n = cp.len() as int;
    let (x1, y1, x2, y2) = (c1 % cw, c1 / cw, c2 % cw, c2 / cw);
    let (xm, ym) = ((x1 + x2) / 2, (y1 + y2) / 2);
    let m = cell_at(cw, xm, ym);
    assert(0 <= y1 < ch && 0 <= y2 < ch) by (nonlinear_arith)
        requires cw > 0, 0 <= c1 < cw * ch, 0 <= c2 < cw * ch, y1 == c1 / cw, y2 == c2 / cw;
    crate::dilate::lemma_cell_div_mod(cw, xm, ym);
    crate::dilate::lemma_cell_in_plane(cw, ch, xm, ym);
    // Each of the three cells is grown: the ends hold ink, and the middle one
    // neighbours an end.
    assert(adj(cw, c1, c1));
    assert(adj(cw, c2, c2));
    assert(adj(cw, c1, m));
    assert(g[c1]);
    assert(g[c2]);
    assert(g[m]);
    lemma_connected_refl(g, cw, c1);
    lemma_connected_step(g, cw, c1, c1, m);
    assert(adj(cw, m, c2));
    lemma_connected_step(g, cw, c1, m, c2);
    // The region's first cell reaches both.
    lemma_first_of_region(g, cw, c1);
    let s = choose|s: int| 0 <= s <= c1 && #[trigger] is_first(g, cw, s) && connected(g, cw, s, c1);
    lemma_connected_trans(g, cw, s, c1, c2);
    let r = region(g, cw, s);
    assert(r.contains(c1) && r.contains(c2));
    // It holds enough ink to be reported.
    lemma_sum_le(Set::<int>::empty().insert(c1), r, cp, n);
    lemma_sum_insert(Set::<int>::empty(), cp, n, c1);
    lemma_sum_le(Set::<int>::empty(), Set::<int>::empty(), cp, n);
    lemma_key_between(r, cp, cw, 0, cw, n, c1);
    lemma_key_between(r, cp, cw, 0, cw, n, c2);
    lemma_key_between(r, cp, cw, 1, ch, n, c1);
    lemma_key_between(r, cp, cw, 1, ch, n, c2);
    assert(region_reported(cp, g, cw, s));
    // So its change is listed, and its box spans both cells.
    let before = changes_upto(cp, g, cw, ch, s);
    assert(changes_upto(cp, g, cw, ch, s + 1) == before.push(region_change(cp, g, cw, ch, s)));
    lemma_changes_prefix(cp, g, cw, ch, s + 1, n);
    let i = before.len() as int;
    let out = changes_upto(cp, g, cw, ch, n);
    assert(out[i] == region_change(cp, g, cw, ch, s));
    lemma_min_key_bounds(r, cp, cw, ch, n);
    let rc = region_change(cp, g, cw, ch, s);
    let min_x = min_key(r, cp, cw, 0, cw, n);
    let max_x = max_key(r, cp, cw, 0, n);
    let min_y = min_key(r, cp, cw, 1, ch, n);
    let max_y = max_key(r, cp, cw, 1, n);
    assert(rc.box_.x == min_x * CHANGE_CELL);
    assert(rc.box_.dx == (max_x - min_x + 1) * CHANGE_CELL);
    assert(rc.box_.y == min_y * CHANGE_CELL);
    assert(rc.box_.dy == (max_y - min_y + 1) * CHANGE_CELL);
    assert(box_covers_cell(out[i].box_, cw, c1) && box_covers_cell(out[i].box_, cw, c2));
}

/// One edit is one change: neighbouring cells are bridged before regions are
/// formed, so two cells holding unmatched ink at most two cells apart on each
/// axis (one empty cell between them at most) come back inside the box of a
/// single reported change, wherever the rest of the sheet puts its regions.
/// The first must hold enough ink for a region to be reported at all.
pub proof fn law_one_edit_is_one_change(a: Seq<u8>, b: Seq<u8>, w: int, h: int, opts: Options, c1: int, c2: int)
    requires
        w > 0,
        h > 0,
        a.len() >= w * h,
        b.len() >= w * h,
        w + CHANGE_CELL <= i32::MAX,
        h + CHANGE_CELL <= i32::MAX,
        0 <= c1 < cell_counts(a, b, w, h, opts.spec_radius()).len(),
        0 <= c2 < cell_counts(a, b, w, h, opts.spec_radius()).len(),
        cell_counts(a, b, w, h, opts.spec_radius())[c1] >= CHANGE_MIN_PIXELS,
        cell_counts(a, b, w, h, opts.spec_radius())[c2] > 0,
        -2 <= c1 % cells_across(w) - c2 % cells_across(w) <= 2,
        -2 <= c1 / cells_across(w) - c2 / cells_across(w) <= 2,
    ensures
        exists|i: int|
            0 <= i < spec_find_changes(a, b, w, h, opts).len() && box_covers_cell(
                #[trigger] spec_find_changes(a, b, w, h, opts)[i].box_,
                cells_across(w),
                c1,
            ) && box_covers_cell(spec_find_changes(a, b, w, h, opts)[i].box_, cells_across(w), c2),
{
    let r = opts.spec_radius();
    let cp = cell_counts(a, b, w, h, r);
    let cw = cells_across(w);
    let ch = cells_across(h);
    let da = dilated_plane(a, w, h, r);
    let db = dilated_plane(b, w, h, r);
    assert(cw > 0 && ch > 0 && cw * CHANGE_CELL <= i32::MAX && ch * CHANGE_CELL <= i32::MAX);
    assert(cw * ch >= 0) by (nonlinear_arith)
        requires cw > 0, ch > 0;
    assert forall|i: int| 0 <= i < cp.len() implies cp[i] >= 0 by {
        lemma_count_le(a, b, da, db, w, cw, i, w * h);
    }
    lemma_bridged_cells_reported(cp, cw, ch, c1, c2);
    let out = changes_upto(cp, grown_cells(cp, cw), cw, ch, cw * ch);
    assert(spec_find_changes(a, b, w, h, opts) == out);
    let i = choose|i: int| 0 <= i < out.len() && box_covers_cell(#[trigger] out[i].box_, cw, c1) && box_covers_cell(out[i].box_, cw, c2);
    assert(box_covers_cell(spec_find_changes(a, b, w, h, opts)[i].box_, cw, c1));
}

/// Every change listed among the first `k` cells stands for a reported region
/// whose first cell is one of them.
proof fn lemma_changes_are_regions(cp: Seq<int>, g: Seq<bool>, cw: int, ch: int, k: int)
    ensures
        forall|i: int|
            0 <= i < changes_upto(cp, g, cw, ch, k).len() ==> exists|s: int|
                0 <= s < k && is_first(g, cw, s) && region_reported(cp, g, cw, s) && #[trigger] changes_upto(
                    cp,
                    g,
                    cw,
                    ch,
                    k,
                )[i] == region_change(cp, g, cw, ch, s),
    decreases k,
{
    if k > 0 {
        lemma_changes_are_regions(cp, g, cw, ch, k - 1);
        let prev = changes_upto(cp, g, cw, ch, k - 1);
        let cur = changes_upto(cp, g, cw, ch, k);
        assert forall|i: int| 0 <= i < cur.len() implies exists|s: int|
            0 <= s < k && is_first(g, cw, s) && region_reported(cp, g, cw, s) && #[trigger] cur[i]
                == region_change(cp, g, cw, ch, s) by {
            if i < prev.len() {
                assert(cur[i] == prev[i]);
                let s = choose|s: int|
                    0 <= s < k - 1 && is_first(g, cw, s) && region_reported(cp, g, cw, s) && #[trigger] prev[i]
                        == region_change(cp, g, cw, ch, s);
                assert(0 <= s < k && is_first(g, cw, s) && region_reported(cp, g, cw, s) && cur[i]
                    == region_change(cp, g, cw, ch, s));
            } else {
                assert(cur[i] == region_change(cp, g, cw, ch, k - 1));
            }
        }
    }
}

proof fn lemma_max_key_le(s: Set<int>, cp: Seq<int>, cw: int, axis: int, k: int, bound: int)
    requires
        bound >= -1,
        forall|c: int| 0 <= c < k && s.contains(c) && cp[c] > 0 ==> #[trigger] key(cw, axis, c) <= bound,
    ensures
        max_key(s, cp, cw, axis, k) <= bound,
    decreases k,
{
    if k > 0 {
        lemma_max_key_le(s, cp, cw, axis, k - 1, bound);
    }
}

proof fn lemma_min_key_ge(s: Set<int>, cp: Seq<int>, cw: int, axis: int, dflt: int, k: int, bound: int)
    requires
        dflt >= bound,
        forall|c: int| 0 <= c < k && s.contains(c) && cp[c] > 0 ==> #[trigger] key(cw, axis, c) >= bound,
    ensures
        min_key(s, cp, cw, axis, dflt, k) >= bound,
    decreases k,
{
    if k > 0 {
        lemma_min_key_ge(s, cp, cw, axis, dflt, k - 1, bound);
    }
}

/// A set whose greatest column or row is found holds a cell with ink.
proof fn lemma_max_key_witness(s: Set<int>, cp: Seq<int>, cw: int, axis: int, k: int)
    requires
        max_key(s, cp, cw, axis, k) != -1,
    ensures
        exists|c: int| 0 <= c < k && s.contains(c) && cp[c] > 0,
    decreases k,
{
    if k > 0 {
        let m = max_key(s, cp, cw, axis, k - 1);
        if m != -1 {
            lemma_max_key_witness(s, cp, cw, axis, k - 1);
            let c = choose|c: int| 0 <= c < k - 1 && s.contains(c) && cp[c] > 0;
            assert(0 <= c < k && s.contains(c) && cp[c] > 0);
        } else {
            assert(s.contains(k - 1) && cp[k - 1] > 0);
        }
    }
}

/// Across a band three cells wide with no unmatched ink, the middle cells are
/// not grown, so a region stays on one side of the band.
proof fn lemma_region_one_side(cp: Seq<int>, cw: int, ch: int, axis: int, x0: int, s: int)
    requires
        cw > 0,
        cp.len() == cw * ch,
        axis == 0 || axis == 1,
        forall|c: int| 0 <= c < cp.len() && x0 <= #[trigger] key(cw, axis, c) <= x0 + 2 ==> cp[c] == 0,
        0 <= s < cp.len(),
        grown_cells(cp, cw)[s],
    ensures
        key(cw, axis, s) <= x0 ==> forall|c: int| #[trigger] region(grown_cells(cp, cw), cw, s).contains(c) ==> key(cw, axis, c) <= x0,
        key(cw, axis, s) > x0 ==> forall|c: int| #[trigger] region(grown_cells(cp, cw), cw, s).contains(c) ==> key(cw, axis, c) >= x0 + 2,
{
    let g = grown_cells(cp, cw);
    let n = cp.len() as int;
    assert forall|c: int| 0 <= c < n && #[trigger] g[c] implies key(cw, axis, c) != x0 + 1 by {
        let j = choose|j: int| 0 <= j < cp.len() && #[trigger] adj(cw, j, c) && cp[j] > 0;
        if key(cw, axis, c) == x0 + 1 {
            assert(x0 <= key(cw, axis, j) <= x0 + 2);
        }
    }
    assert(key(cw, axis, s) != x0 + 1);
    if key(cw, axis, s) <= x0 {
        let side = Set::new(|c: int| 0 <= c < n && key(cw, axis, c) <= x0);
        assert(closed_in(g, cw, side));
        assert(side.contains(s));
        assert forall|c: int| #[trigger] region(g, cw, s).contains(c) implies key(cw, axis, c) <= x0 by {
            assert(connected(g, cw, s, c));
            assert(side.contains(c));
        }
    } else {
        let side = Set::new(|c: int| 0 <= c < n && key(cw, axis, c) >= x0 + 2);
        assert(closed_in(g, cw, side));
        assert(side.contains(s));
        assert forall|c: int| #[trigger] region(g, cw, s).contains(c) implies key(cw, axis, c) >= x0 + 2 by {
            assert(connected(g, cw, s, c));
            assert(side.contains(c));
        }
    }
}

/// Separate edits stay separate: only neighbouring cells are bridged, so
/// across a band of three columns (`axis` 0) or rows (`axis` 1) of cells with
/// no unmatched ink, no reported change reaches from one side to the other.
/// Each change's box ends before the band's middle or starts after it.
pub proof fn law_a_clear_band_separates_changes(a: Seq<u8>, b: Seq<u8>, w: int, h: int, opts: Options, axis: int, x0: int)
    requires
        w >= 0,
        h >= 0,
        w + CHANGE_CELL <= i32::MAX,
        h + CHANGE_CELL <= i32::MAX,
        axis == 0 || axis == 1,
        forall|c: int|
            0 <= c < cell_counts(a, b, w, h, opts.spec_radius()).len() && x0 <= #[trigger] key(cells_across(w), axis, c)
                <= x0 + 2 ==> cell_counts(a, b, w, h, opts.spec_radius())[c] == 0,
    ensures
        forall|i: int|
            0 <= i < spec_find_changes(a, b, w, h, opts).len() ==> {
                let r = #[trigger] spec_find_changes(a, b, w, h, opts)[i].box_;
                if axis == 0 {
                    r.x + r.dx <= (x0 + 1) * CHANGE_CELL || r.x >= (x0 + 2) * CHANGE_CELL
                } else {
                    r.y + r.dy <= (x0 + 1) * CHANGE_CELL || r.y >= (x0 + 2) * CHANGE_CELL
                }
            },
{
    if !(w == 0 || h == 0 || a.len() < w * h || b.len() < w * h) {
        let rr = opts.spec_radius();
        let cp = cell_counts(a, b, w, h, rr);
        let cw = cells_across(w);
        let ch = cells_across(h);
        let g = grown_cells(cp, cw);
        let n = cp.len() as int;
        if w > 0 && h > 0 {
            assert(cw > 0 && ch > 0 && cw * CHANGE_CELL <= i32::MAX && ch * CHANGE_CELL <= i32::MAX);
            assert(cw * ch >= 0) by (nonlinear_arith)
                requires cw > 0, ch > 0;
            let out = changes_upto(cp, g, cw, ch, cw * ch);
            assert(spec_find_changes(a, b, w, h, opts) == out);
            lemma_changes_are_regions(cp, g, cw, ch, cw * ch);
            assert forall|i: int| 0 <= i < out.len() implies {
                let r = #[trigger] out[i].box_;
                if axis == 0 {
                    r.x + r.dx <= (x0 + 1) * CHANGE_CELL || r.x >= (x0 + 2) * CHANGE_CELL
                } else {
                    r.y + r.dy <= (x0 + 1) * CHANGE_CELL || r.y >= (x0 + 2) * CHANGE_CELL
                }
            } by {
                let s = choose|s: int|
                    0 <= s < cw * ch && is_first(g, cw, s) && region_reported(cp, g, cw, s) && #[trigger] out[i]
                        == region_change(cp, g, cw, ch, s);
                let reg = region(g, cw, s);
                lemma_region_one_side(cp, cw, ch, axis, x0, s);
                lemma_min_key_bounds(reg, cp, cw, ch, n);
                let dflt = if axis == 0 { cw } else { ch };
                let lo = min_key(reg, cp, cw, axis, dflt, n);
                let hi = max_key(reg, cp, cw, axis, n);
                lemma_max_key_witness(reg, cp, cw, 0, n);
                let c = choose|c: int| 0 <= c < n && reg.contains(c) && cp[c] > 0;
                lemma_key_between(reg, cp, cw, axis, dflt, n, c);
                assert(hi >= lo);
                if key(cw, axis, s) <= x0 {
                    lemma_max_key_le(reg, cp, cw, axis, n, x0);
                } else {
                    assert(dflt >= x0 + 2) by {
                        if dflt < x0 + 2 {
                            lemma_max_key_le(reg, cp, cw, axis, n, -1);
                            lemma_min_key_ge(reg, cp, cw, axis, dflt, n, dflt);
                        }
                    }
                    lemma_min_key_ge(reg, cp, cw, axis, dflt, n, x0 + 2);
                }
            }
        }
    }
}

} // verus!
