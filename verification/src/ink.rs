use vstd::prelude::*;

use crate::options::{Options, SHARED_INK_FULL};
use crate::pixels::{spec_ink_from_rgb, Pixels};

verus! {

/// What fraction of one channel is left after laying down `ink` of a colour
/// whose value in that channel is `col`: 255 for no ink, `col` for full ink.
pub open spec fn spec_ink_leaves(ink: u8, col: u8) -> u8 {
    (255 - (ink * (255 - col) + 127) / 255) as u8
}

/// The shared ink to draw as neutral after the fade: `neutral` scaled by the
/// clamped `shared_ink` percentage, rounded to nearest.
pub open spec fn spec_shared_coverage(neutral: u8, opts: Options) -> int {
    let pct = if opts.shared_ink < 0 {
        0
    } else if opts.shared_ink > SHARED_INK_FULL {
        SHARED_INK_FULL as int
    } else {
        opts.shared_ink as int
    };
    (neutral * pct + SHARED_INK_FULL / 2) / (SHARED_INK_FULL as int)
}

/// One output channel: the paper left after the shared ink (`base`), then
/// after each side's leftover ink, rounding each product to nearest.
pub open spec fn spec_channel(base: int, la: u8, lb: u8) -> u8 {
    ((((base * la + 127) / 255) * lb + 127) / 255) as u8
}

/// The composed pixel as blue, green, red.
pub open spec fn spec_compose_ink(neutral: u8, only_a: u8, only_b: u8, opts: Options) -> Seq<u8> {
    let base = 255 - spec_shared_coverage(neutral, opts);
    let a = opts.only_a.spec_bgr();
    let b = opts.only_b.spec_bgr();
    seq![
        spec_channel(base, spec_ink_leaves(only_a, a[0]), spec_ink_leaves(only_b, b[0])),
        spec_channel(base, spec_ink_leaves(only_a, a[1]), spec_ink_leaves(only_b, b[1])),
        spec_channel(base, spec_ink_leaves(only_a, a[2]), spec_ink_leaves(only_b, b[2])),
    ]
}

/// How much ink a pixel carries: 0 for paper white, 255 for solid black.
///
/// Luminance stands in for coverage, which keeps anti-aliased edges as partial
/// values instead of quantising them to on and off.
pub fn ink_from_rgb(r: u8, g: u8, b: u8) -> (ink: u8)
    ensures
        ink == spec_ink_from_rgb(r, g, b),
{
    let lum: u32 = (77 * r as u32 + 150 * g as u32 + 29 * b as u32) / 256;
    (255 - lum) as u8
}

/// What is left of one channel after `ink` of a colour whose value there is `col`.
pub fn ink_leaves(ink: u8, col: u8) -> (v: u8)
    ensures
        v == spec_ink_leaves(ink, col),
{
    proof {
        assert(ink * (255 - col) <= 255 * 255) by (nonlinear_arith)
            requires
                ink <= 255,
                0 <= 255 - col <= 255,
        ;
    }
    let p: u32 = ink as u32 * (255 - col as u32);
    (255 - (p + 127) / 255) as u8
}

/// The agreed coverage after the fade, which is what gets drawn as neutral ink.
pub fn shared_coverage(neutral: u8, opts: &Options) -> (c: i32)
    ensures
        c == spec_shared_coverage(neutral, *opts),
        0 <= c <= 255,
{
    let pct = if opts.shared_ink < 0 {
        0
    } else if opts.shared_ink > SHARED_INK_FULL {
        SHARED_INK_FULL
    } else {
        opts.shared_ink
    };
    proof {
        assert(neutral * pct <= 255 * 100) by (nonlinear_arith)
            requires
                0 <= neutral <= 255,
                0 <= pct <= 100,
        ;
        assert(0 <= neutral * pct) by (nonlinear_arith)
            requires
                0 <= neutral,
                0 <= pct,
        ;
    }
    (neutral as i32 * pct + SHARED_INK_FULL / 2) / SHARED_INK_FULL
}

/// One channel of a composed pixel; see `spec_channel`.
fn channel(base: i32, la: u8, lb: u8) -> (v: u8)
    requires
        0 <= base <= 255,
    ensures
        v == spec_channel(base as int, la, lb),
{
    proof {
        assert(0 <= base * la <= 255 * 255) by (nonlinear_arith)
            requires
                0 <= base <= 255,
                0 <= la <= 255,
        ;
    }
    let first: i32 = (base * la as i32 + 127) / 255;
    proof {
        assert(0 <= first * lb <= 255 * 255) by (nonlinear_arith)
            requires
                0 <= first <= 255,
                0 <= lb <= 255,
        ;
    }
    ((first * lb as i32 + 127) / 255) as u8
}

/// Lays down three inks subtractively: the coverage the two documents agree on
/// as neutral black, and whatever is left over on each side in that side's
/// colour.
///
/// `opts.shared_ink` fades the agreed coverage, and only that, towards white.
/// Returns the pixel in the output buffer's byte order: blue, green, red.
pub fn compose_ink(neutral: u8, only_a: u8, only_b: u8, opts: &Options) -> (out: [u8; 3])
    ensures
        out@ == spec_compose_ink(neutral, only_a, only_b, *opts),
{
    let base = 255 - shared_coverage(neutral, opts);
    let a = opts.only_a.bgr();
    let b = opts.only_b.bgr();
    let c0 = channel(base, ink_leaves(only_a, a[0]), ink_leaves(only_b, b[0]));
    let c1 = channel(base, ink_leaves(only_a, a[1]), ink_leaves(only_b, b[1]));
    let c2 = channel(base, ink_leaves(only_a, a[2]), ink_leaves(only_b, b[2]));
    [c0, c1, c2]
}

/// The ink of pixel `x` of row `y`, reading past the picture as blank paper.
pub open spec fn spec_row_ink(px: Pixels, y: int, x: int) -> u8 {
    if 0 <= y < px.spec_height() && 0 <= x < px.spec_width() {
        px.ink_at(x, y)
    } else {
        0
    }
}

/// Fills `out[offset .. offset + width)` with the ink of row `y`, padding with
/// blank paper past the picture.
fn fill_row_at(px: &Pixels, y: i32, width: usize, out: &mut [u8], offset: usize)
    requires
        offset + width <= old(out)@.len(),
    ensures
        final(out)@.len() == old(out)@.len(),
        forall|x: int|
            0 <= x < width ==> #[trigger] final(out)@[offset + x] == spec_row_ink(*px, y as int, x),
        forall|i: int|
            0 <= i < old(out)@.len() && !(offset <= i < offset + width) ==> final(out)@[i]
                == old(out)@[i],
{
    let olen = out.len();
    let pw = px.width();
    let ph = px.height();
    let n: usize = if y < 0 || y >= ph {
        0
    } else if width < pw as usize {
        width
    } else {
        pw as usize
    };
    let mut x: usize = 0;
    while x < width
        invariant
            x <= width,
            n <= width,
            olen == out@.len(),
            offset + width <= out@.len(),
            out@.len() == old(out)@.len(),
            pw == px.spec_width(),
            ph == px.spec_height(),
            n == (if y < 0 || y >= ph { 0 } else if width < pw { width as int } else { pw as int }),
            forall|j: int| 0 <= j < x ==> #[trigger] out@[offset + j] == spec_row_ink(*px, y as int, j),
            forall|i: int|
                0 <= i < old(out)@.len() && !(offset <= i < offset + x) ==> out@[i] == old(out)@[i],
        decreases width - x,
    {
        let v = if x < n {
            let fmt = px.format();
            let yy = y as usize;
            match fmt {
                crate::pixels::PixelFormat::Rgba8 => ink_from_rgb(
                    px.sample(x, yy, 0),
                    px.sample(x, yy, 1),
                    px.sample(x, yy, 2),
                ),
                _ => ink_from_rgb(px.sample(x, yy, 2), px.sample(x, yy, 1), px.sample(x, yy, 0)),
            }
        } else {
            0
        };
        out[offset + x] = v;
        x = x + 1;
    }
}

/// Fills `out[0..width)` with the ink coverage of row `y`.
///
/// Pixels past the source's own extent count as blank paper, and so does a row
/// above or below it. Returns false, touching nothing, when there are no pixels
/// at all (an unmatched sheet), when `width` is 0, or when `out` is shorter than
/// `width`.
pub fn read_ink_row(px: Option<&Pixels>, y: i32, width: usize, out: &mut [u8]) -> (done: bool)
    ensures
        done == (px is Some && width > 0 && old(out)@.len() >= width),
        final(out)@.len() == old(out)@.len(),
        !done ==> final(out)@ == old(out)@,
        done ==> forall|x: int|
            0 <= x < width ==> #[trigger] final(out)@[x] == spec_row_ink(*px.unwrap(), y as int, x),
        forall|i: int| width <= i < old(out)@.len() ==> final(out)@[i] == old(out)@[i],
{
    let px = match px {
        Some(p) => p,
        None => return false,
    };
    if width == 0 || out.len() < width {
        return false;
    }
    fill_row_at(px, y, width, out, 0);
    proof {
        assert forall|x: int| 0 <= x < width implies #[trigger] out@[x] == spec_row_ink(*px, y as int, x) by {
            assert(out@[0 + x] == spec_row_ink(*px, y as int, x));
        }
    }
    true
}

/// The ink of pixel `(x, y)` of a whole picture read into a plane: the picture's
/// own ink where it has a pixel, blank paper elsewhere and when it is absent.
pub open spec fn spec_plane_ink(px: Option<Pixels>, x: int, y: int) -> u8 {
    match px {
        Some(p) => spec_row_ink(p, y, x),
        None => 0,
    }
}

/// The pixels behind an optional reference.
pub open spec fn opt_px<'a>(px: Option<&Pixels<'a>>) -> Option<Pixels<'a>> {
    match px {
        Some(p) => Some(*p),
        None => None,
    }
}

/// A `w * h` plane of a picture's ink, row after row.
pub open spec fn plane_seq(px: Option<Pixels>, w: int, h: int) -> Seq<u8> {
    Seq::new((w * h) as nat, |i: int| spec_plane_ink(px, i % w, i / w))
}

/// A buffer whose cells carry a picture's ink is that picture's plane.
pub proof fn lemma_plane_seq(s: Seq<u8>, px: Option<Pixels>, w: int, h: int)
    requires
        w > 0,
        h >= 0,
        s.len() == w * h,
        forall|x: int, y: int| 0 <= x < w && 0 <= y < h ==> #[trigger] s[y * w + x] == spec_plane_ink(px, x, y),
    ensures
        s == plane_seq(px, w, h),
{
    assert forall|i: int| 0 <= i < s.len() implies s[i] == plane_seq(px, w, h)[i] by {
        let x = i % w;
        let y = i / w;
        assert(i == y * w + x) by (nonlinear_arith)
            requires
                w > 0,
                x == i % w,
                y == i / w,
        ;
        assert(0 <= x < w);
        assert(0 <= y < h) by (nonlinear_arith)
            requires
                w > 0,
                0 <= i < w * h,
                y == i / w,
        ;
    }
    assert(s =~= plane_seq(px, w, h));
}

/// Reads a whole image's ink into the first `w * h` bytes of `plane`.
///
/// Returns false, leaving the plane blank, when the side is not there at all.
pub(crate) fn read_ink_plane(px: Option<&Pixels>, plane: &mut [u8], w: usize, h: usize) -> (present:
    bool)
    requires
        w * h <= old(plane)@.len(),
        h <= i32::MAX,
    ensures
        present == px is Some,
        final(plane)@.len() == old(plane)@.len(),
        forall|x: int, y: int|
            0 <= x < w && 0 <= y < h ==> #[trigger] final(plane)@[y * w + x] == spec_plane_ink(
                opt_px(px),
                x,
                y,
            ),
{
    let plen = plane.len();
    let ghost spx = opt_px(px);
    let mut y: usize = 0;
    while y < h
        invariant
            y <= h,
            h <= i32::MAX,
            plen == plane@.len(),
            w * h <= plane@.len(),
            spx == opt_px(px),
            plane@.len() == old(plane)@.len(),
            forall|xx: int, yy: int|
                0 <= xx < w && 0 <= yy < y ==> #[trigger] plane@[yy * w + xx] == spec_plane_ink(
                    spx,
                    xx,
                    yy,
                ),
        decreases h - y,
    {
        proof {
            assert((y + 1) * w <= w * h) by (nonlinear_arith)
                requires
                    y + 1 <= h,
            ;
            assert(y * w + w == (y + 1) * w) by (nonlinear_arith);
        }
        let offset = y * w;
        let ghost before = plane@;
        match px {
            Some(p) => {
                fill_row_at(p, y as i32, w, plane, offset);
            },
            None => {
                let mut x: usize = 0;
                while x < w
                    invariant
                        x <= w,
                        offset + w <= plane@.len(),
                        plane@.len() == before.len(),
                        forall|j: int| 0 <= j < x ==> #[trigger] plane@[offset + j] == 0u8,
                        forall|i: int|
                            0 <= i < before.len() && !(offset <= i < offset + x) ==> plane@[i]
                                == before[i],
                    decreases w - x,
                {
                    plane[offset + x] = 0;
                    x = x + 1;
                }
            },
        }
        proof {
            assert forall|xx: int, yy: int| 0 <= xx < w && 0 <= yy < y + 1 implies #[trigger] plane@[yy * w + xx]
                == spec_plane_ink(spx, xx, yy) by {
                if yy < y {
                    assert(yy * w + xx < offset) by (nonlinear_arith)
                        requires
                            yy < y,
                            0 <= xx < w,
                            offset == y * w,
                    ;
                    assert(0 <= yy * w + xx) by (nonlinear_arith)
                        requires
                            0 <= yy,
                            0 <= xx,
                            w >= 0,
                    ;
                    assert(plane@[yy * w + xx] == before[yy * w + xx]);
                } else {
                    assert(yy == y);
                    assert(yy * w + xx == offset + xx);
                    match px {
                        Some(p) => {
                            assert(plane@[offset + xx] == spec_row_ink(*p, y as int, xx));
                        },
                        None => {
                            assert(plane@[offset + xx] == 0u8);
                        },
                    }
                }
            }
        }
        y = y + 1;
    }
    match px {
        Some(_) => true,
        None => false,
    }
}

} // verus!

verus! {

/// Per-coverage channel factors, so the compose loop does lookups and multiplies
/// instead of unpacking the colours again for every pixel.
pub(crate) struct InkTable {
    pub(crate) from_a: Vec<[u8; 3]>,
    pub(crate) from_b: Vec<[u8; 3]>,
}

impl InkTable {
    /// Entry `ink` of each side holds what that much of the side's colour
    /// leaves of each channel.
    pub(crate) open spec fn wf(self, opts: Options) -> bool {
        &&& self.from_a@.len() == 256
        &&& self.from_b@.len() == 256
        &&& forall|ink: int, i: int|
            0 <= ink < 256 && 0 <= i < 3 ==> #[trigger] self.from_a@[ink]@[i] == spec_ink_leaves(
                ink as u8,
                opts.only_a.spec_bgr()[i],
            )
        &&& forall|ink: int, i: int|
            0 <= ink < 256 && 0 <= i < 3 ==> #[trigger] self.from_b@[ink]@[i] == spec_ink_leaves(
                ink as u8,
                opts.only_b.spec_bgr()[i],
            )
    }

    pub(crate) fn build(opts: &Options) -> (t: Self)
        ensures
            t.wf(*opts),
    {
        let a = opts.only_a.bgr();
        let b = opts.only_b.bgr();
        let mut from_a: Vec<[u8; 3]> = Vec::new();
        let mut from_b: Vec<[u8; 3]> = Vec::new();
        let mut ink: usize = 0;
        while ink < 256
            invariant
                ink <= 256,
                a@ == opts.only_a.spec_bgr(),
                b@ == opts.only_b.spec_bgr(),
                from_a@.len() == ink,
                from_b@.len() == ink,
                forall|k: int, i: int|
                    0 <= k < ink && 0 <= i < 3 ==> #[trigger] from_a@[k]@[i] == spec_ink_leaves(
                        k as u8,
                        a@[i],
                    ),
                forall|k: int, i: int|
                    0 <= k < ink && 0 <= i < 3 ==> #[trigger] from_b@[k]@[i] == spec_ink_leaves(
                        k as u8,
                        b@[i],
                    ),
            decreases 256 - ink,
        {
            let v = ink as u8;
            from_a.push([ink_leaves(v, a[0]), ink_leaves(v, a[1]), ink_leaves(v, a[2])]);
            from_b.push([ink_leaves(v, b[0]), ink_leaves(v, b[1]), ink_leaves(v, b[2])]);
            ink = ink + 1;
        }
        InkTable { from_a, from_b }
    }
}

// ---------------------------------------------------------------------------
// What a composed pixel is, at the corners

proof fn lemma_leaves_none(col: u8)
    ensures
        spec_ink_leaves(0, col) == 255,
{
}

proof fn lemma_leaves_full(col: u8)
    ensures
        spec_ink_leaves(255, col) == col,
{
    let c = col as int;
    assert((255 * (255 - c) + 127) / 255 == 255 - c) by (nonlinear_arith)
        requires
            0 <= c <= 255,
    ;
}

proof fn lemma_channel_white_sides(base: int)
    requires
        0 <= base <= 255,
    ensures
        spec_channel(base, 255, 255) == base,
{
    assert((base * 255 + 127) / 255 == base) by (nonlinear_arith)
        requires
            0 <= base <= 255,
    ;
}

proof fn lemma_channel_one_side(v: u8)
    ensures
        spec_channel(255, v, 255) == v,
        spec_channel(255, 255, v) == v,
{
    let x = v as int;
    assert((255 * x + 127) / 255 == x) by (nonlinear_arith)
        requires
            0 <= x <= 255,
    ;
    assert((x * 255 + 127) / 255 == x) by (nonlinear_arith)
        requires
            0 <= x <= 255,
    ;
    lemma_channel_white_sides(255);
}

proof fn lemma_coverage_range(neutral: u8, opts: Options)
    ensures
        0 <= spec_shared_coverage(neutral, opts) <= neutral,
        neutral == 0 ==> spec_shared_coverage(neutral, opts) == 0,
        opts.shared_ink >= SHARED_INK_FULL ==> spec_shared_coverage(neutral, opts) == neutral,
{
    let n = neutral as int;
    let pct = if opts.shared_ink < 0 {
        0
    } else if opts.shared_ink > SHARED_INK_FULL {
        SHARED_INK_FULL as int
    } else {
        opts.shared_ink as int
    };
    assert(0 <= (n * pct + 50) / 100 <= n) by (nonlinear_arith)
        requires
            0 <= n <= 255,
            0 <= pct <= 100,
    ;
    if pct == 100 {
        assert((n * 100 + 50) / 100 == n) by (nonlinear_arith)
            requires
                0 <= n <= 255,
        ;
    }
}

/// White where nothing is drawn, A's colour where only A draws at full
/// strength, B's where only B does, and black where both draw at full strength
/// and shared ink is drawn at full strength.
pub proof fn law_compose_ink_corners(opts: Options)
    ensures
        spec_compose_ink(0, 0, 0, opts) == seq![255u8, 255u8, 255u8],
        spec_compose_ink(0, 255, 0, opts) == opts.only_a.spec_bgr(),
        spec_compose_ink(0, 0, 255, opts) == opts.only_b.spec_bgr(),
        opts.shared_ink >= SHARED_INK_FULL ==> spec_compose_ink(255, 0, 0, opts) == seq![0u8, 0u8, 0u8],
{
    lemma_coverage_range(0, opts);
    lemma_coverage_range(255, opts);
    let a = opts.only_a.spec_bgr();
    let b = opts.only_b.spec_bgr();
    lemma_leaves_none(a[0]);
    lemma_leaves_none(a[1]);
    lemma_leaves_none(a[2]);
    lemma_leaves_none(b[0]);
    lemma_leaves_none(b[1]);
    lemma_leaves_none(b[2]);
    lemma_leaves_full(a[0]);
    lemma_leaves_full(a[1]);
    lemma_leaves_full(a[2]);
    lemma_leaves_full(b[0]);
    lemma_leaves_full(b[1]);
    lemma_leaves_full(b[2]);
    lemma_channel_white_sides(255);
    lemma_channel_white_sides(0);
    lemma_channel_one_side(a[0]);
    lemma_channel_one_side(a[1]);
    lemma_channel_one_side(a[2]);
    lemma_channel_one_side(b[0]);
    lemma_channel_one_side(b[1]);
    lemma_channel_one_side(b[2]);
    assert(spec_compose_ink(0, 0, 0, opts) =~= seq![255u8, 255u8, 255u8]);
    assert(spec_compose_ink(0, 255, 0, opts) =~= a);
    assert(spec_compose_ink(0, 0, 255, opts) =~= b);
    if opts.shared_ink >= SHARED_INK_FULL {
        assert(spec_compose_ink(255, 0, 0, opts) =~= seq![0u8, 0u8, 0u8]);
    }
}

/// Ink both documents agree on is drawn neutral: every channel the same grey,
/// the paper less the agreed coverage, never tinted towards either side's
/// colour.
pub proof fn law_shared_ink_is_neutral(neutral: u8, opts: Options)
    ensures
        spec_compose_ink(neutral, 0, 0, opts)[0] == spec_compose_ink(neutral, 0, 0, opts)[1],
        spec_compose_ink(neutral, 0, 0, opts)[1] == spec_compose_ink(neutral, 0, 0, opts)[2],
        spec_compose_ink(neutral, 0, 0, opts)[0] == 255 - spec_shared_coverage(neutral, opts),
{
    lemma_coverage_range(neutral, opts);
    let a = opts.only_a.spec_bgr();
    let b = opts.only_b.spec_bgr();
    lemma_leaves_none(a[0]);
    lemma_leaves_none(a[1]);
    lemma_leaves_none(a[2]);
    lemma_leaves_none(b[0]);
    lemma_leaves_none(b[1]);
    lemma_leaves_none(b[2]);
    lemma_channel_white_sides(255 - spec_shared_coverage(neutral, opts));
}

/// The fade of shared ink touches only the shared ink: what only one side
/// draws comes out the same whatever the shared-ink strength.
pub proof fn law_fade_leaves_differences_alone(only_a: u8, only_b: u8, o1: Options, o2: Options)
    requires
        o1.only_a == o2.only_a,
        o1.only_b == o2.only_b,
    ensures
        spec_compose_ink(0, only_a, only_b, o1) == spec_compose_ink(0, only_a, only_b, o2),
{
    lemma_coverage_range(0, o1);
    lemma_coverage_range(0, o2);
}

} // verus!
