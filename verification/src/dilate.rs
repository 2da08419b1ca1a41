use vstd::prelude::*;

verus! {

pub open spec fn max_u8(a: u8, b: u8) -> u8 {
    if a >= b {
        a
    } else {
        b
    }
}

/// The greatest of `s[y * w + x]` for `x0 <= x <= x1` (0 for an empty range).
pub open spec fn row_window_max(s: Seq<u8>, w: int, y: int, x0: int, x1: int) -> u8
    decreases x1 - x0 + 1,
{
    if x1 < x0 {
        0
    } else {
        max_u8(row_window_max(s, w, y, x0, x1 - 1), s[y * w + x1])
    }
}

/// The greatest of `s[y * w + x]` over the window `x0..=x1` by `y0..=y1`.
pub open spec fn window_max(s: Seq<u8>, w: int, x0: int, x1: int, y0: int, y1: int) -> u8
    decreases y1 - y0 + 1,
{
    if y1 < y0 {
        0
    } else {
        max_u8(window_max(s, w, x0, x1, y0, y1 - 1), row_window_max(s, w, y1, x0, x1))
    }
}

pub open spec fn max_int(a: int, b: int) -> int {
    if a >= b {
        a
    } else {
        b
    }
}

pub open spec fn min_int(a: int, b: int) -> int {
    if a <= b {
        a
    } else {
        b
    }
}

/// The radius a dilation actually uses: a negative one is no dilation.
pub open spec fn eff_radius(r: int) -> int {
    if r < 0 {
        0
    } else {
        r
    }
}

/// The dilated value at `(x, y)` of a `w * h` plane: the most ink within the
/// square of radius `r` around it, clipped to the plane.
pub open spec fn spec_dilated(s: Seq<u8>, w: int, h: int, r: int, x: int, y: int) -> u8 {
    let rr = eff_radius(r);
    window_max(s, w, max_int(0, x - rr), min_int(w - 1, x + rr), max_int(0, y - rr), min_int(h - 1, y + rr))
}

/// The horizontal half of a dilation: the most ink within `r` along the row.
pub open spec fn spec_dilated_row(s: Seq<u8>, w: int, r: int, x: int, y: int) -> u8 {
    let rr = eff_radius(r);
    row_window_max(s, w, y, max_int(0, x - rr), min_int(w - 1, x + rr))
}

proof fn lemma_row_window_max_ge(s: Seq<u8>, w: int, y: int, x0: int, x1: int, x: int)
    requires
        x0 <= x <= x1,
    ensures
        row_window_max(s, w, y, x0, x1) >= s[y * w + x],
    decreases x1 - x0 + 1,
{
    if x < x1 {
        lemma_row_window_max_ge(s, w, y, x0, x1 - 1, x);
    }
}

proof fn lemma_window_max_ge_row(s: Seq<u8>, w: int, x0: int, x1: int, y0: int, y1: int, y: int)
    requires
        y0 <= y <= y1,
    ensures
        window_max(s, w, x0, x1, y0, y1) >= row_window_max(s, w, y, x0, x1),
    decreases y1 - y0 + 1,
{
    if y < y1 {
        lemma_window_max_ge_row(s, w, x0, x1, y0, y1 - 1, y);
    }
}

/// Dilation never removes ink: every pixel of a dilated plane carries at least
/// the ink it started with.
pub proof fn lemma_dilated_ge(s: Seq<u8>, w: int, h: int, r: int, x: int, y: int)
    requires
        0 <= x < w,
        0 <= y < h,
    ensures
        spec_dilated(s, w, h, r, x, y) >= s[y * w + x],
{
    let rr = eff_radius(r);
    let x0 = max_int(0, x - rr);
    let x1 = min_int(w - 1, x + rr);
    lemma_row_window_max_ge(s, w, y, x0, x1, x);
    lemma_window_max_ge_row(s, w, x0, x1, max_int(0, y - rr), min_int(h - 1, y + rr), y);
}

/// With no radius a dilation leaves every pixel as it was.
pub proof fn lemma_dilated_zero(s: Seq<u8>, w: int, h: int, r: int, x: int, y: int)
    requires
        0 <= x < w,
        0 <= y < h,
        r <= 0,
    ensures
        spec_dilated(s, w, h, r, x, y) == s[y * w + x],
{
    assert(row_window_max(s, w, y, x, x - 1) == 0);
    assert(window_max(s, w, x, x, y, y - 1) == 0);
}

/// Greyscale dilation by a square of the given radius, as two one-dimensional
/// passes through `scratch`.
///
/// Comparing A against a dilated B asks "is there ink near here in B", which is
/// the right question when two exporters rasterise the same stroke a fraction
/// of a pixel apart. A radius of 0 or less copies the plane.
pub fn dilate_ink(src: &[u8], dst: &mut [u8], w: usize, h: usize, radius: i32, scratch: &mut [u8])
    requires
        w * h <= usize::MAX,
        src@.len() >= w * h,
        old(dst)@.len() >= w * h,
        old(scratch)@.len() >= w * h,
    ensures
        final(dst)@.len() == old(dst)@.len(),
        final(scratch)@.len() == old(scratch)@.len(),
        forall|x: int, y: int|
            0 <= x < w && 0 <= y < h ==> #[trigger] final(dst)@[y * w + x] == spec_dilated(
                src@,
                w as int,
                h as int,
                radius as int,
                x,
                y,
            ),
        forall|i: int| w * h <= i < old(dst)@.len() ==> final(dst)@[i] == old(dst)@[i],
        radius <= 0 ==> final(scratch)@ == old(scratch)@,
        radius > 0 ==> forall|x: int, y: int|
            0 <= x < w && 0 <= y < h ==> #[trigger] final(scratch)@[y * w + x]
                == spec_dilated_row(src@, w as int, radius as int, x, y),
        forall|i: int| w * h <= i < old(scratch)@.len() ==> final(scratch)@[i] == old(scratch)@[i],
{
    let n = w * h;
    if radius <= 0 {
        let mut i: usize = 0;
        while i < n
            invariant
                i <= n,
                n == w * h,
                src@.len() >= n,
                dst@.len() == old(dst)@.len(),
                dst@.len() >= n,
                forall|j: int| 0 <= j < i ==> dst@[j] == src@[j],
                forall|j: int| n <= j < old(dst)@.len() ==> dst@[j] == old(dst)@[j],
            decreases n - i,
        {
            dst[i] = src[i];
            i = i + 1;
        }
        proof {
            assert forall|x: int, y: int| 0 <= x < w && 0 <= y < h implies #[trigger] dst@[y * w + x]
                == spec_dilated(src@, w as int, h as int, radius as int, x, y) by {
                lemma_cell_in_plane(w as int, h as int, x, y);
                lemma_dilated_zero(src@, w as int, h as int, radius as int, x, y);
            }
        }
        return;
    }
    let r = radius as usize;
    // Horizontal pass into scratch.
    let mut y: usize = 0;
    while y < h
        invariant
            y <= h,
            n == w * h,
            r == radius,
            radius > 0,
            src@.len() >= n,
            scratch@.len() == old(scratch)@.len(),
            scratch@.len() >= n,
            forall|xx: int, yy: int|
                0 <= xx < w && 0 <= yy < y ==> #[trigger] scratch@[yy * w + xx]
                    == spec_dilated_row(src@, w as int, radius as int, xx, yy),
            forall|i: int| n <= i < old(scratch)@.len() ==> scratch@[i] == old(scratch)@[i],
        decreases h - y,
    {
        proof {
            assert((y + 1) * w <= w * h) by (nonlinear_arith)
                requires
                    y + 1 <= h,
            ;
            assert(y * w + w == (y + 1) * w) by (nonlinear_arith);
        }
        let row = y * w;
        let mut x: usize = 0;
        while x < w
            invariant
                x <= w,
                y < h,
                row == y * w,
                row + w <= n,
                n == w * h,
                r == radius,
                radius > 0,
                src@.len() >= n,
                scratch@.len() == old(scratch)@.len(),
                scratch@.len() >= n,
                forall|xx: int, yy: int|
                    0 <= xx < w && 0 <= yy < y ==> #[trigger] scratch@[yy * w + xx]
                        == spec_dilated_row(src@, w as int, radius as int, xx, yy),
                forall|xx: int|
                    0 <= xx < x ==> #[trigger] scratch@[row + xx] == spec_dilated_row(
                        src@,
                        w as int,
                        radius as int,
                        xx,
                        y as int,
                    ),
                forall|i: int| n <= i < old(scratch)@.len() ==> scratch@[i] == old(scratch)@[i],
            decreases w - x,
        {
            let x0 = if x >= r {
                x - r
            } else {
                0
            };
            let x1 = if r >= w - 1 - x {
                w - 1
            } else {
                x + r
            };
            let mut acc: u8 = 0;
            let mut k = x0;
            while k <= x1
                invariant
                    x0 <= k <= x1 + 1,
                    x1 < w,
                    row + w <= n,
                    src@.len() >= n,
                    acc == row_window_max(src@, w as int, y as int, x0 as int, k - 1),
                    row == y * w,
                decreases x1 + 1 - k,
            {
                let v = src[row + k];
                if v > acc {
                    acc = v;
                }
                k = k + 1;
            }
            let ghost before = scratch@;
            scratch[row + x] = acc;
            proof {
                assert forall|xx: int, yy: int| 0 <= xx < w && 0 <= yy < y implies #[trigger] scratch@[yy
                    * w + xx] == spec_dilated_row(src@, w as int, radius as int, xx, yy) by {
                    lemma_row_before(w as int, y as int, xx, yy);
                    assert(scratch@[yy * w + xx] == before[yy * w + xx]);
                }
            }
            x = x + 1;
        }
        y = y + 1;
    }
    // Vertical pass into dst.
    let mut y: usize = 0;
    while y < h
        invariant
            y <= h,
            n == w * h,
            r == radius,
            radius > 0,
            scratch@.len() >= n,
            dst@.len() == old(dst)@.len(),
            dst@.len() >= n,
            forall|xx: int, yy: int|
                0 <= xx < w && 0 <= yy < h ==> #[trigger] scratch@[yy * w + xx]
                    == spec_dilated_row(src@, w as int, radius as int, xx, yy),
            forall|xx: int, yy: int|
                0 <= xx < w && 0 <= yy < y ==> #[trigger] dst@[yy * w + xx] == spec_dilated(
                    src@,
                    w as int,
                    h as int,
                    radius as int,
                    xx,
                    yy,
                ),
            forall|i: int| n <= i < old(dst)@.len() ==> dst@[i] == old(dst)@[i],
        decreases h - y,
    {
        let y0 = if y >= r {
            y - r
        } else {
            0
        };
        let y1 = if r >= h - 1 - y {
            h - 1
        } else {
            y + r
        };
        proof {
            assert((y + 1) * w <= w * h) by (nonlinear_arith)
                requires
                    y + 1 <= h,
            ;
            assert(y * w + w == (y + 1) * w) by (nonlinear_arith);
        }
        let row = y * w;
        let mut x: usize = 0;
        while x < w
            invariant
                x <= w,
                y < h,
                y0 <= y1 < h,
                y0 == max_int(0, y - radius),
                y1 == min_int(h - 1, y + radius),
                row == y * w,
                row + w <= n,
                n == w * h,
                radius > 0,
                scratch@.len() >= n,
                dst@.len() == old(dst)@.len(),
                dst@.len() >= n,
                forall|xx: int, yy: int|
                    0 <= xx < w && 0 <= yy < h ==> #[trigger] scratch@[yy * w + xx]
                        == spec_dilated_row(src@, w as int, radius as int, xx, yy),
                forall|xx: int, yy: int|
                    0 <= xx < w && 0 <= yy < y ==> #[trigger] dst@[yy * w + xx] == spec_dilated(
                        src@,
                        w as int,
                        h as int,
                        radius as int,
                        xx,
                        yy,
                    ),
                forall|xx: int|
                    0 <= xx < x ==> #[trigger] dst@[row + xx] == spec_dilated(
                        src@,
                        w as int,
                        h as int,
                        radius as int,
                        xx,
                        y as int,
                    ),
                forall|i: int| n <= i < old(dst)@.len() ==> dst@[i] == old(dst)@[i],
            decreases w - x,
        {
            let ghost x0 = max_int(0, x - radius);
            let ghost x1 = min_int(w - 1, x + radius);
            let mut acc: u8 = 0;
            let mut k = y0;
            while k <= y1
                invariant
                    y0 <= k <= y1 + 1,
                    y1 < h,
                    x < w,
                    radius > 0,
                    n == w * h,
                    scratch@.len() >= n,
                    forall|xx: int, yy: int|
                        0 <= xx < w && 0 <= yy < h ==> #[trigger] scratch@[yy * w + xx]
                            == spec_dilated_row(src@, w as int, radius as int, xx, yy),
                    acc == window_max(src@, w as int, x0, x1, y0 as int, k - 1),
                    x0 == max_int(0, x - radius),
                    x1 == min_int(w - 1, x + radius),
                decreases y1 + 1 - k,
            {
                proof {
                    lemma_cell_in_plane(w as int, h as int, x as int, k as int);
                }
                let v = scratch[k * w + x];
                proof {
                    let kk = k as int;
                    let xi = x as int;
                    assert(scratch@[kk * w + xi] == spec_dilated_row(src@, w as int, radius as int, xi, kk));
                    assert(v == row_window_max(src@, w as int, kk, x0, x1));
                }
                if v > acc {
                    acc = v;
                }
                k = k + 1;
            }
            let ghost before = dst@;
            dst[row + x] = acc;
            proof {
                assert forall|xx: int, yy: int| 0 <= xx < w && 0 <= yy < y implies #[trigger] dst@[yy
                    * w + xx] == spec_dilated(src@, w as int, h as int, radius as int, xx, yy) by {
                    lemma_row_before(w as int, y as int, xx, yy);
                    assert(dst@[yy * w + xx] == before[yy * w + xx]);
                }
            }
            x = x + 1;
        }
        y = y + 1;
    }
    proof {
        assert forall|x: int, y: int| 0 <= x < w && 0 <= y < h implies #[trigger] dst@[y * w + x]
            == spec_dilated(src@, w as int, h as int, radius as int, x, y) by {
            assert(dst@[y * w + x] == spec_dilated(src@, w as int, h as int, radius as int, x, y));
        }
    }
}

/// Cell `(x, y)` of a `w * h` plane is inside it.
pub proof fn lemma_cell_in_plane(w: int, h: int, x: int, y: int)
    requires
        0 <= x < w,
        0 <= y < h,
    ensures
        0 <= y * w + x < w * h,
        y * w + x < (y + 1) * w,
        y * w <= y * w + x,
{
    assert(0 <= y * w + x < w * h) by (nonlinear_arith)
        requires
            0 <= x < w,
            0 <= y < h,
    ;
    assert(y * w + x < (y + 1) * w) by (nonlinear_arith)
        requires
            0 <= x < w,
    ;
}

/// Cell `(x, y)` of a plane `w` wide is found again from its index.
pub proof fn lemma_cell_div_mod(w: int, x: int, y: int)
    requires
        0 <= x < w,
    ensures
        (y * w + x) % w == x,
        (y * w + x) / w == y,
{
    vstd::arithmetic::div_mod::lemma_fundamental_div_mod_converse(y * w + x, w, y, x);
}

/// A cell of an earlier row comes before the start of row `y`.
pub proof fn lemma_row_before(w: int, y: int, x: int, yy: int)
    requires
        0 <= x < w,
        0 <= yy < y,
    ensures
        0 <= yy * w + x < y * w,
{
    assert(0 <= yy * w + x < y * w) by (nonlinear_arith)
        requires
            0 <= x < w,
            0 <= yy < y,
    ;
}

/// A row window reads the same from two planes that agree on it.
proof fn lemma_row_window_shift(
    s1: Seq<u8>,
    w1: int,
    y1: int,
    s2: Seq<u8>,
    w2: int,
    y2: int,
    ox: int,
    x0: int,
    xe: int,
)
    requires
        forall|x: int| x0 <= x <= xe ==> #[trigger] s1[y1 * w1 + x] == s2[y2 * w2 + x + ox],
    ensures
        row_window_max(s1, w1, y1, x0, xe) == row_window_max(s2, w2, y2, x0 + ox, xe + ox),
    decreases xe - x0 + 1,
{
    if xe >= x0 {
        lemma_row_window_shift(s1, w1, y1, s2, w2, y2, ox, x0, xe - 1);
        assert(s1[y1 * w1 + xe] == s2[y2 * w2 + xe + ox]);
        assert(y2 * w2 + (xe + ox) == y2 * w2 + xe + ox);
    }
}

/// A window reads the same from two planes that agree on it.
proof fn lemma_window_shift(
    s1: Seq<u8>,
    w1: int,
    s2: Seq<u8>,
    w2: int,
    ox: int,
    oy: int,
    x0: int,
    xe: int,
    y0: int,
    ye: int,
)
    requires
        forall|x: int, y: int|
            x0 <= x <= xe && y0 <= y <= ye ==> #[trigger] s1[y * w1 + x] == s2[(y + oy) * w2 + x + ox],
    ensures
        window_max(s1, w1, x0, xe, y0, ye) == window_max(s2, w2, x0 + ox, xe + ox, y0 + oy, ye + oy),
    decreases ye - y0 + 1,
{
    if ye >= y0 {
        lemma_window_shift(s1, w1, s2, w2, ox, oy, x0, xe, y0, ye - 1);
        assert forall|x: int| x0 <= x <= xe implies #[trigger] s1[ye * w1 + x] == s2[(ye + oy) * w2 + x + ox] by {
        }
        lemma_row_window_shift(s1, w1, ye, s2, w2, ye + oy, ox, x0, xe);
    }
}

/// A dilation depends only on the plane within its radius: two planes that
/// agree around a pixel, with the whole square of the radius inside each,
/// dilate to the same value there. This is what lets a tile rendered with a
/// margin of at least the radius agree with the whole sheet.
pub proof fn law_dilation_is_local(
    s1: Seq<u8>,
    w1: int,
    h1: int,
    s2: Seq<u8>,
    w2: int,
    h2: int,
    r: int,
    x: int,
    y: int,
    ox: int,
    oy: int,
)
    requires
        0 <= x - eff_radius(r),
        x + eff_radius(r) < w1,
        0 <= y - eff_radius(r),
        y + eff_radius(r) < h1,
        0 <= x + ox - eff_radius(r),
        x + ox + eff_radius(r) < w2,
        0 <= y + oy - eff_radius(r),
        y + oy + eff_radius(r) < h2,
        forall|u: int, v: int|
            x - eff_radius(r) <= u <= x + eff_radius(r) && y - eff_radius(r) <= v <= y + eff_radius(r)
                ==> #[trigger] s1[v * w1 + u] == s2[(v + oy) * w2 + u + ox],
    ensures
        spec_dilated(s1, w1, h1, r, x, y) == spec_dilated(s2, w2, h2, r, x + ox, y + oy),
{
    let rr = eff_radius(r);
    lemma_window_shift(s1, w1, s2, w2, ox, oy, x - rr, x + rr, y - rr, y + rr);
}

} // verus!
