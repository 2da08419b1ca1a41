use vstd::prelude::*;

use crate::dilate::{dilate_ink, lemma_cell_in_plane, lemma_row_before, spec_dilated};
use crate::geom::{Point, Rect, Rgb, Size};
use crate::ink::{
    lemma_plane_seq, opt_px, plane_seq, read_ink_plane, read_ink_row, shared_coverage,
    spec_channel, spec_compose_ink, spec_ink_leaves, spec_plane_ink, spec_row_ink,
    spec_shared_coverage, InkTable,
};
use crate::options::{
    clamp_i32, mask_edge_color, spec_mask_edge_color, Options, ViewMode, MASK_INK_PERCENT,
    MAX_TOLERANCE,
};
use crate::pixels::{PixelFormat, Pixels, Tile};

verus! {

/// Regions the reader has excluded from the comparison, as device pixels within
/// the tile being composed.
///
/// `device_origin` is the tile's position on the page, so the dashes that mark
/// an excluded region line up from one tile to the next instead of restarting at
/// every seam.
#[derive(Clone, Copy, Debug)]
pub struct TileMasks<'a> {
    pub rects: &'a [Rect],
    pub device_origin: Point,
}

/// Length of one dash, and of one gap, of an excluded region's edge.
pub const DASH: i64 = 5;

/// Rust's `/` on a signed value: the quotient rounded towards zero.
pub open spec fn trunc_div(a: int, d: int) -> int {
    if a >= 0 {
        a / d
    } else {
        -((-a) / d)
    }
}

/// The mark on an excluded region's edge at position `along` of it: 1 in a gap,
/// 2 on a dash.
pub open spec fn dash_mark(along: int) -> u8 {
    if trunc_div(along, DASH as int) % 2 != 0 {
        1
    } else {
        2
    }
}

/// Whether tile pixel `(x, y)` lies in `r` as clipped to the tile.
pub open spec fn in_clip(r: Rect, target: Size, x: int, y: int) -> bool {
    &&& 0 <= x
    &&& r.x <= x
    &&& x < r.x + r.dx
    &&& x < target.dx
    &&& 0 <= y
    &&& r.y <= y
    &&& y < r.y + r.dy
    &&& y < target.dy
}

/// The mark of tile pixel `(x, y)` once the first `k` excluded rectangles are
/// laid down in order: 0 compared normally, 1 inside an excluded region, 2 on a
/// dash of its edge. An edge overwrites whatever was there; an inside only marks
/// a pixel nothing has marked yet.
pub open spec fn mask_after(rects: Seq<Rect>, k: int, origin: Point, target: Size, x: int, y: int) -> u8
    decreases k,
{
    if k <= 0 {
        0
    } else {
        let prev = mask_after(rects, k - 1, origin, target, x, y);
        let r = rects[k - 1];
        if in_clip(r, target, x, y) {
            let edge_row = y == r.y || y == r.y + r.dy - 1;
            let edge_col = x == r.x || x == r.x + r.dx - 1;
            if edge_row || edge_col {
                dash_mark(if edge_row { origin.x + x } else { origin.y + y })
            } else if prev == 0 {
                1
            } else {
                prev
            }
        } else {
            prev
        }
    }
}

/// The mark of tile pixel `(x, y)` under all of `masks`.
pub open spec fn spec_mask(masks: Option<TileMasks>, target: Size, x: int, y: int) -> u8 {
    match masks {
        None => 0,
        Some(m) => mask_after(m.rects@, m.rects@.len() as int, m.device_origin, target, x, y),
    }
}

proof fn lemma_mask_after_bound(rects: Seq<Rect>, k: int, origin: Point, target: Size, x: int, y: int)
    ensures
        mask_after(rects, k, origin, target, x, y) <= 2,
    decreases k,
{
    if k > 0 {
        lemma_mask_after_bound(rects, k - 1, origin, target, x, y);
    }
}

/// Two different cells of a plane `w` wide have different indices.
pub proof fn lemma_cell_distinct(w: int, x1: int, y1: int, x2: int, y2: int)
    requires
        0 <= x1 < w,
        0 <= x2 < w,
        x1 != x2 || y1 != y2,
    ensures
        y1 * w + x1 != y2 * w + x2,
{
    if y1 == y2 {
    } else if y1 < y2 {
        assert(y1 * w + x1 < y2 * w + x2) by (nonlinear_arith)
            requires
                y1 < y2,
                0 <= x1 < w,
                0 <= x2,
        ;
    } else {
        assert(y2 * w + x2 < y1 * w + x1) by (nonlinear_arith)
            requires
                y2 < y1,
                0 <= x2 < w,
                0 <= x1,
        ;
    }
}

/// Marks the tile's pixels, or nothing when no region is excluded.
fn build_mask_plane(target: Size, masks: Option<&TileMasks>) -> (plane: Option<Vec<u8>>)
    requires
        target.dx > 0,
        target.dy > 0,
        target.dx * target.dy <= usize::MAX,
    ensures
        plane is None <==> (masks is None || masks.unwrap().rects@.len() == 0),
        plane matches Some(p) ==> {
            &&& p@.len() == target.dx * target.dy
            &&& forall|x: int, y: int|
                0 <= x < target.dx && 0 <= y < target.dy ==> #[trigger] p@[y * target.dx + x]
                    == spec_mask(Some(*masks.unwrap()), target, x, y)
        },
{
    let masks = match masks {
        Some(m) => m,
        None => return None,
    };
    if masks.rects.len() == 0 {
        return None;
    }
    let w = target.dx as usize;
    let hh = target.dy as usize;
    let n = w * hh;
    let mut plane: Vec<u8> = vec![0u8; n];
    let ghost rs = masks.rects@;
    proof {
        assert forall|x: int, y: int| 0 <= x < w && 0 <= y < hh implies #[trigger] plane@[y * w + x]
            == mask_after(rs, 0, masks.device_origin, target, x, y) by {
            lemma_cell_in_plane(w as int, hh as int, x, y);
        }
    }
    let ghost origin = masks.device_origin;
    let dx = target.dx as i64;
    let dy = target.dy as i64;
    let mut k: usize = 0;
    while k < masks.rects.len()
        invariant
            k <= rs.len(),
            rs == masks.rects@,
            origin == masks.device_origin,
            w == target.dx,
            hh == target.dy,
            n == w * hh,
            dx == target.dx,
            dy == target.dy,
            plane@.len() == n,
            forall|x: int, y: int|
                0 <= x < w && 0 <= y < hh ==> #[trigger] plane@[y * w + x] == mask_after(
                    rs,
                    k as int,
                    origin,
                    target,
                    x,
                    y,
                ),
        decreases rs.len() - k,
    {
        let r = masks.rects[k];
        let rx = r.x as i64;
        let ry = r.y as i64;
        let rx1 = rx + r.dx as i64;
        let ry1 = ry + r.dy as i64;
        let x0: i64 = if rx > 0 {
            rx
        } else {
            0
        };
        let y0: i64 = if ry > 0 {
            ry
        } else {
            0
        };
        let x1: i64 = if rx1 < dx {
            rx1
        } else {
            dx
        };
        let y1: i64 = if ry1 < dy {
            ry1
        } else {
            dy
        };
        let mut y = y0;
        while y < y1
            invariant
                y0 <= y,
                y0 >= 0,
                x0 >= 0,
                y1 <= dy,
                x1 <= dx,
                x0 == (if r.x > 0 { r.x as int } else { 0 }),
                y0 == (if r.y > 0 { r.y as int } else { 0 }),
                x1 == (if r.x + r.dx < target.dx { r.x + r.dx } else { target.dx as int }),
                y1 == (if r.y + r.dy < target.dy { r.y + r.dy } else { target.dy as int }),
                k < rs.len(),
                r == rs[k as int],
                rx == r.x,
                ry == r.y,
                rx1 == r.x + r.dx,
                ry1 == r.y + r.dy,
                rs == masks.rects@,
                origin == masks.device_origin,
                w == target.dx,
                hh == target.dy,
                n == w * hh,
                dx == target.dx,
                dy == target.dy,
                plane@.len() == n,
                forall|xx: int, yy: int|
                    0 <= xx < w && 0 <= yy < hh ==> #[trigger] plane@[yy * w + xx] == (if yy < y {
                        mask_after(rs, k + 1, origin, target, xx, yy)
                    } else {
                        mask_after(rs, k as int, origin, target, xx, yy)
                    }),
            decreases y1 - y,
        {
            let edge_row = y == ry || y == ry1 - 1;
            let mut x = x0;
            while x < x1
                invariant
                    y0 <= y < y1,
                    y0 >= 0,
                    x0 <= x,
                    x0 >= 0,
                    y1 <= dy,
                    x1 <= dx,
                    x0 == (if r.x > 0 { r.x as int } else { 0 }),
                    x1 == (if r.x + r.dx < target.dx { r.x + r.dx } else { target.dx as int }),
                    y0 == (if r.y > 0 { r.y as int } else { 0 }),
                    y1 == (if r.y + r.dy < target.dy { r.y + r.dy } else { target.dy as int }),
                    edge_row == (y == r.y || y == r.y + r.dy - 1),
                    k < rs.len(),
                    r == rs[k as int],
                    rx == r.x,
                    ry == r.y,
                    rx1 == r.x + r.dx,
                    ry1 == r.y + r.dy,
                    rs == masks.rects@,
                    origin == masks.device_origin,
                    w == target.dx,
                    hh == target.dy,
                    n == w * hh,
                    dx == target.dx,
                    dy == target.dy,
                    plane@.len() == n,
                    forall|xx: int, yy: int|
                        0 <= xx < w && 0 <= yy < hh ==> #[trigger] plane@[yy * w + xx] == (if yy < y
                            || (yy == y && xx < x) {
                            mask_after(rs, k + 1, origin, target, xx, yy)
                        } else {
                            mask_after(rs, k as int, origin, target, xx, yy)
                        }),
                decreases x1 - x,
            {
                proof {
                    lemma_cell_in_plane(w as int, hh as int, x as int, y as int);
                }
                let idx = (y as usize) * w + (x as usize);
                let edge_col = x == rx || x == rx1 - 1;
                let ghost gx = x as int;
                let ghost gy = y as int;
                let ghost before = plane@;
                proof {
                    assert(before[gy * w + gx] == mask_after(rs, k as int, origin, target, gx, gy));
                    assert(in_clip(r, target, gx, gy));
                    assert(idx == gy * w + gx);
                }
                if edge_row || edge_col {
                    let along: i64 = if edge_row {
                        masks.device_origin.x as i64 + x
                    } else {
                        masks.device_origin.y as i64 + y
                    };
                    let q: i64 = if along >= 0 {
                        along / DASH
                    } else {
                        -((-along) / DASH)
                    };
                    let odd = if q >= 0 {
                        q % 2 != 0
                    } else {
                        (-q) % 2 != 0
                    };
                    proof {
                        assert(q == trunc_div(along as int, DASH as int));
                        assert(odd == (q % 2 != 0));
                    }
                    plane[idx] = if odd {
                        1
                    } else {
                        2
                    };
                } else if plane[idx] == 0 {
                    plane[idx] = 1;
                }
                proof {
                    assert(plane@[gy * w + gx] == mask_after(rs, k + 1, origin, target, gx, gy));
                    assert forall|xx: int, yy: int| 0 <= xx < w && 0 <= yy < hh implies #[trigger] plane@[yy
                        * w + xx] == (if yy < y || (yy == y && xx < x + 1) {
                        mask_after(rs, k + 1, origin, target, xx, yy)
                    } else {
                        mask_after(rs, k as int, origin, target, xx, yy)
                    }) by {
                        if xx != gx || yy != gy {
                            lemma_cell_in_plane(w as int, hh as int, xx, yy);
                            lemma_cell_distinct(w as int, xx, yy, gx, gy);
                            assert(plane@[yy * w + xx] == before[yy * w + xx]);
                        }
                    }
                }
                x = x + 1;
            }
            proof {
                assert forall|xx: int, yy: int| 0 <= xx < w && 0 <= yy < hh implies #[trigger] plane@[yy * w
                    + xx] == (if yy < y + 1 {
                    mask_after(rs, k + 1, origin, target, xx, yy)
                } else {
                    mask_after(rs, k as int, origin, target, xx, yy)
                }) by {
                    if yy == y && xx >= x {
                        assert(!in_clip(r, target, xx, yy));
                    }
                }
            }
            y = y + 1;
        }
        proof {
            assert forall|xx: int, yy: int| 0 <= xx < w && 0 <= yy < hh implies #[trigger] plane@[yy * w
                + xx] == mask_after(rs, k + 1, origin, target, xx, yy) by {
                if yy >= y {
                    assert(!in_clip(r, target, xx, yy));
                }
            }
        }
        k = k + 1;
    }
    Some(plane)
}


/// How many pixels of row `y` a single-document view takes from its side: the
/// side's row `y + margin` from column `margin` on, as far as the tile or the
/// side reaches; none where the side has no such row or is absent.
pub open spec fn side_run(src: Option<Pixels>, margin: int, width: int, y: int) -> int {
    match src {
        None => 0,
        Some(s) => {
            let sy = y + margin;
            if 0 <= sy < s.spec_height() {
                let m = if width < s.spec_width() - margin { width } else { s.spec_width() - margin };
                if m > 0 { m } else { 0 }
            } else {
                0
            }
        },
    }
}

/// Byte `k` of pixel `(x, y)` of a single-document view: the side's pixel
/// `(x + margin, y + margin)` as blue, green, red, opaque; white where the side
/// has nothing.
pub open spec fn side_byte(src: Option<Pixels>, margin: int, width: int, x: int, y: int, k: int) -> u8 {
    if k == 3 || x >= side_run(src, margin, width, y) {
        0xff
    } else {
        let s = src.unwrap();
        let sx = x + margin;
        let sy = y + margin;
        let rgba = s.spec_format() == PixelFormat::Rgba8;
        if k == 0 {
            if rgba { s.byte_at(sx, sy, 2) } else { s.byte_at(sx, sy, 0) }
        } else if k == 1 {
            s.byte_at(sx, sy, 1)
        } else {
            if rgba { s.byte_at(sx, sy, 0) } else { s.byte_at(sx, sy, 2) }
        }
    }
}

pub open spec fn min_u8(a: u8, b: u8) -> u8 {
    if a <= b { a } else { b }
}

pub open spec fn max_u8(a: u8, b: u8) -> u8 {
    if a >= b { a } else { b }
}

/// Byte `k` of an overlay pixel whose sides carry `ia` and `ib` of ink, with
/// `na` and `nb` of ink within the tolerance, under mark `mask`.
///
/// On an excluded region's dashed edge, the edge colour. Inside it, the more
/// inked side washed out to grey and never coloured. Elsewhere the ink each side
/// has a counterpart for nearby is shared, drawn neutral, and only the rest is
/// drawn in that side's colour.
pub open spec fn overlay_byte(ia: u8, ib: u8, na: u8, nb: u8, mask: u8, opts: Options, k: int) -> u8 {
    if k == 3 {
        0xff
    } else if mask == 2 {
        spec_mask_edge_color().spec_bgr()[k]
    } else if mask == 1 {
        (255 - (max_u8(ia, ib) * MASK_INK_PERCENT) / 100) as u8
    } else {
        let ma = min_u8(ia, nb);
        let mb = min_u8(ib, na);
        spec_compose_ink(max_u8(ma, mb), (ia - ma) as u8, (ib - mb) as u8, opts)[k]
    }
}

/// Byte `k` (blue, green, red, alpha) of pixel `(x, y)` of a composed tile.
pub open spec fn spec_tile_byte(
    a: Option<Pixels>,
    b: Option<Pixels>,
    target: Size,
    margin: int,
    mode: ViewMode,
    opts: Options,
    masks: Option<TileMasks>,
    x: int,
    y: int,
    k: int,
) -> u8 {
    match mode {
        ViewMode::OnlyA => side_byte(a, margin, target.dx as int, x, y, k),
        ViewMode::OnlyB => side_byte(b, margin, target.dx as int, x, y, k),
        ViewMode::Overlay => {
            let w = target.dx + 2 * margin;
            let h = target.dy + 2 * margin;
            let r = opts.spec_radius();
            let sx = x + margin;
            let sy = y + margin;
            overlay_byte(
                spec_plane_ink(a, sx, sy),
                spec_plane_ink(b, sx, sy),
                spec_dilated(plane_seq(a, w, h), w, h, r, sx, sy),
                spec_dilated(plane_seq(b, w, h), w, h, r, sx, sy),
                spec_mask(masks, target, x, y),
                opts,
                k,
            )
        },
    }
}

/// Pixel `(x, y)` of a tile `width` wide occupies four bytes inside it.
proof fn lemma_tile_index(width: int, height: int, x: int, y: int)
    requires
        0 <= x < width,
        0 <= y < height,
    ensures
        0 <= (y * width + x) * 4,
        (y * width + x) * 4 + 3 < width * height * 4,
{
    lemma_cell_in_plane(width, height, x, y);
}

/// Writes one side into the tile unchanged, padding with white where the source
/// is smaller.
fn copy_side_into(dst: &mut Tile, src: Option<&Pixels>, margin: i32)
    requires
        old(dst).wf(),
        margin >= 0,
    ensures
        final(dst).wf(),
        final(dst).width == old(dst).width,
        final(dst).height == old(dst).height,
        forall|x: int, y: int, k: int|
            0 <= x < final(dst).width && 0 <= y < final(dst).height && 0 <= k < 4 ==> #[trigger] final(dst).spec_byte(x, y, k) == side_byte(opt_px(src), margin as int, final(dst).width as int, x, y, k),
{
    let width = dst.width;
    let height = dst.height;
    let tw = width as usize;
    let dlen = dst.data.len();
    let ghost spx = opt_px(src);
    let mut y: i32 = 0;
    while y < height
        invariant
            0 <= y <= height,
            dst.width == width,
            dst.height == height,
            width > 0,
            height > 0,
            tw == width,
            dlen == dst.data@.len(),
            dst.data@.len() == width * height * 4,
            spx == opt_px(src),
            margin >= 0,
            forall|xx: int, yy: int, k: int|
                0 <= xx < width && 0 <= yy < y && 0 <= k < 4 ==> #[trigger] dst.spec_byte(xx, yy, k)
                    == side_byte(spx, margin as int, width as int, xx, yy, k),
        decreases height - y,
    {
        let sy: i64 = y as i64 + margin as i64;
        let mut n: i64 = 0;
        let mut rgba = false;
        match src {
            Some(s) => {
                let sh = s.height();
                let sw = s.width();
                rgba = match s.format() {
                    PixelFormat::Rgba8 => true,
                    _ => false,
                };
                if sy >= 0 && sy < sh as i64 {
                    let avail = sw as i64 - margin as i64;
                    let m = if (width as i64) < avail {
                        width as i64
                    } else {
                        avail
                    };
                    n = if m > 0 {
                        m
                    } else {
                        0
                    };
                }
            },
            None => {},
        }
        proof {
            assert(n == side_run(spx, margin as int, width as int, y as int));
        }
        let mut x: i32 = 0;
        while x < width
            invariant
                0 <= x <= width,
                0 <= y < height,
                dst.width == width,
                dst.height == height,
                width > 0,
                height > 0,
                tw == width,
                dlen == dst.data@.len(),
                dst.data@.len() == width * height * 4,
                spx == opt_px(src),
                margin >= 0,
                sy == y + margin,
                n == side_run(spx, margin as int, width as int, y as int),
                src is Some ==> rgba == (src.unwrap().spec_format() == PixelFormat::Rgba8),
                forall|xx: int, yy: int, k: int|
                    0 <= xx < width && 0 <= yy < y && 0 <= k < 4 ==> #[trigger] dst.spec_byte(xx, yy, k)
                        == side_byte(spx, margin as int, width as int, xx, yy, k),
                forall|xx: int, k: int|
                    0 <= xx < x && 0 <= k < 4 ==> #[trigger] dst.spec_byte(xx, y as int, k)
                        == side_byte(spx, margin as int, width as int, xx, y as int, k),
            decreases width - x,
        {
            let mut px: [u8; 4] = [0xff, 0xff, 0xff, 0xff];
            if (x as i64) < n {
                match src {
                    Some(s) => {
                        let sx = (x as i64 + margin as i64) as usize;
                        let syu = sy as usize;
                        let b0 = s.sample(sx, syu, 0);
                        let b1 = s.sample(sx, syu, 1);
                        let b2 = s.sample(sx, syu, 2);
                        px = if rgba {
                            [b2, b1, b0, 0xff]
                        } else {
                            [b0, b1, b2, 0xff]
                        };
                    },
                    None => {},
                }
            }
            proof {
                assert forall|k: int| 0 <= k < 4 implies px@[k] == side_byte(spx, margin as int, width as int, x as int, y as int, k) by {}
                lemma_tile_index(width as int, height as int, x as int, y as int);
            }
            let base = ((y as usize) * tw + (x as usize)) * 4;
            let ghost before = dst.data@;
            let ghost old_dst = *dst;
            dst.data.set(base, px[0]);
            dst.data.set(base + 1, px[1]);
            dst.data.set(base + 2, px[2]);
            dst.data.set(base + 3, px[3]);
            proof {
                lemma_pixel_written(before, dst.data@, width as int, height as int, x as int, y as int, px@);
                assert forall|xx: int, yy: int, k: int|
                    0 <= xx < width && 0 <= yy < y && 0 <= k < 4 implies #[trigger] dst.spec_byte(xx, yy, k)
                        == side_byte(spx, margin as int, width as int, xx, yy, k) by {
                    assert(old_dst.spec_byte(xx, yy, k) == side_byte(spx, margin as int, width as int, xx, yy, k));
                    assert(dst.data@[(yy * width + xx) * 4 + k] == before[(yy * width + xx) * 4 + k]);
                }
                assert forall|xx: int, k: int|
                    0 <= xx < x + 1 && 0 <= k < 4 implies #[trigger] dst.spec_byte(xx, y as int, k)
                        == side_byte(spx, margin as int, width as int, xx, y as int, k) by {
                    if xx < x {
                        assert(old_dst.spec_byte(xx, y as int, k) == side_byte(spx, margin as int, width as int, xx, y as int, k));
                        assert(dst.data@[(y * width + xx) * 4 + k] == before[(y * width + xx) * 4 + k]);
                    } else {
                        assert(dst.data@[(y * width + x) * 4 + k] == px@[k]);
                    }
                }
            }
            x = x + 1;
        }
        y = y + 1;
    }
}

/// Writing the four bytes of pixel `(x, y)` leaves every other pixel of the tile
/// as it was and gives that one exactly those bytes.
proof fn lemma_pixel_written(
    before: Seq<u8>,
    after: Seq<u8>,
    width: int,
    height: int,
    x: int,
    y: int,
    px: Seq<u8>,
)
    requires
        0 <= x < width,
        0 <= y < height,
        px.len() == 4,
        before.len() == width * height * 4,
        after == before.update((y * width + x) * 4, px[0]).update((y * width + x) * 4 + 1, px[1]).update(
            (y * width + x) * 4 + 2,
            px[2],
        ).update((y * width + x) * 4 + 3, px[3]),
    ensures
        after.len() == before.len(),
        forall|k: int| 0 <= k < 4 ==> #[trigger] after[(y * width + x) * 4 + k] == px[k],
        forall|xx: int, yy: int, k: int|
            0 <= xx < width && 0 <= yy < height && 0 <= k < 4 && (xx != x || yy != y) ==> #[trigger] after[(yy
                * width + xx) * 4 + k] == before[(yy * width + xx) * 4 + k],
{
    lemma_tile_index(width, height, x, y);
    assert forall|xx: int, yy: int, k: int|
        0 <= xx < width && 0 <= yy < height && 0 <= k < 4 && (xx != x || yy != y) implies #[trigger] after[(yy
        * width + xx) * 4 + k] == before[(yy * width + xx) * 4 + k] by {
        lemma_cell_distinct(width, xx, yy, x, y);
        lemma_cell_in_plane(width, height, xx, yy);
        let a = yy * width + xx;
        let b = y * width + x;
        assert(a * 4 + k != b * 4 + 0 && a * 4 + k != b * 4 + 1 && a * 4 + k != b * 4 + 2 && a * 4 + k
            != b * 4 + 3) by (nonlinear_arith)
            requires
                a != b,
                0 <= k < 4,
        ;
    }
}


/// The four bytes of one overlay pixel; see `overlay_byte`.
#[verifier::rlimit(40)]
fn overlay_pixel(
    ia: u8,
    ib: u8,
    na: u8,
    nb: u8,
    mask: u8,
    table: &InkTable,
    opts: &Options,
    edge: [u8; 3],
) -> (p: [u8; 4])
    requires
        table.wf(*opts),
        edge@ == spec_mask_edge_color().spec_bgr(),
    ensures
        forall|k: int| 0 <= k < 4 ==> #[trigger] p@[k] == overlay_byte(ia, ib, na, nb, mask, *opts, k),
{
    if mask == 2 {
        return [edge[0], edge[1], edge[2], 0xff];
    }
    if mask == 1 {
        let ink: u32 = if ia >= ib {
            ia as u32
        } else {
            ib as u32
        };
        let v = (255 - (ink * MASK_INK_PERCENT as u32) / 100) as u8;
        return [v, v, v, 0xff];
    }
    let ma = if ia <= nb {
        ia
    } else {
        nb
    };
    let mb = if ib <= na {
        ib
    } else {
        na
    };
    let neutral = if ma >= mb {
        ma
    } else {
        mb
    };
    let fa = table.from_a[(ia - ma) as usize];
    let fb = table.from_b[(ib - mb) as usize];
    let base = 255 - shared_coverage(neutral, opts);
    let c0 = mix(base, fa[0], fb[0]);
    let c1 = mix(base, fa[1], fb[1]);
    let c2 = mix(base, fa[2], fb[2]);
    proof {
        assert(fa@[0] == spec_ink_leaves((ia - ma) as u8, opts.only_a.spec_bgr()[0]));
        assert(fa@[1] == spec_ink_leaves((ia - ma) as u8, opts.only_a.spec_bgr()[1]));
        assert(fa@[2] == spec_ink_leaves((ia - ma) as u8, opts.only_a.spec_bgr()[2]));
        assert(fb@[0] == spec_ink_leaves((ib - mb) as u8, opts.only_b.spec_bgr()[0]));
        assert(fb@[1] == spec_ink_leaves((ib - mb) as u8, opts.only_b.spec_bgr()[1]));
        assert(fb@[2] == spec_ink_leaves((ib - mb) as u8, opts.only_b.spec_bgr()[2]));
    }
    [c0, c1, c2, 0xff]
}

/// One channel: the paper left after the shared ink, then after each side's
/// leftover, each product rounded to nearest.
fn mix(base: i32, la: u8, lb: u8) -> (v: u8)
    requires
        0 <= base <= 255,
    ensures
        v == spec_channel(base as int, la, lb),
{
    proof {
        assert(0 <= base * la <= 255 * 255) by (nonlinear_arith)
            requires
                0 <= base <= 255,
                0 <= la <= 255,
        ;
    }
    let first: i32 = (base * la as i32 + 127) / 255;
    proof {
        assert(0 <= first * lb <= 255 * 255) by (nonlinear_arith)
            requires
                0 <= first <= 255,
                0 <= lb <= 255,
        ;
    }
    ((first * lb as i32 + 127) / 255) as u8
}

/// Composes one tile of the comparison.
///
/// `a` and `b` are the same sheet rendered from each document at the same scale,
/// each covering the target tile plus `margin` device pixels of surrounding
/// context, so the tolerance dilation has neighbours to look at even at a tile
/// edge. Either side may be `None` when that document has no matching page.
///
/// Nothing comes back for an empty tile, a negative margin, or a tile (or, for
/// the overlay, its planes with margin) too large to address.
pub fn compose(
    a: Option<&Pixels>,
    b: Option<&Pixels>,
    target: Size,
    margin: i32,
    mode: ViewMode,
    opts: &Options,
    masks: Option<&TileMasks>,
) -> (t: Option<Tile>)
    requires
        mode == ViewMode::Overlay ==> target.dx + 2 * margin <= i32::MAX && target.dy + 2 * margin
            <= i32::MAX,
    ensures
        t is Some <==> ({
            &&& target.dx > 0
            &&& target.dy > 0
            &&& margin >= 0
            &&& target.dx * target.dy * 4 <= usize::MAX
            &&& mode == ViewMode::Overlay ==> (target.dx + 2 * margin) * (target.dy + 2 * margin)
                <= usize::MAX
        }),
        t matches Some(t) ==> {
            &&& t.wf()
            &&& t.width == target.dx
            &&& t.height == target.dy
            &&& forall|x: int, y: int, k: int|
                0 <= x < target.dx && 0 <= y < target.dy && 0 <= k < 4 ==> #[trigger] t.spec_byte(x, y, k)
                    == spec_tile_byte(
                    opt_px(a),
                    opt_px(b),
                    target,
                    margin as int,
                    mode,
                    *opts,
                    match masks {
                        Some(m) => Some(*m),
                        None => None,
                    },
                    x,
                    y,
                    k,
                )
        },
{
    if target.dx <= 0 || target.dy <= 0 || margin < 0 {
        return None;
    }
    let mut dst = match Tile::new(target.dx, target.dy) {
        Some(t) => t,
        None => return None,
    };
    match mode {
        ViewMode::OnlyA => {
            copy_side_into(&mut dst, a, margin);
            return Some(dst);
        },
        ViewMode::OnlyB => {
            copy_side_into(&mut dst, b, margin);
            return Some(dst);
        },
        ViewMode::Overlay => {},
    }
    let ghost smasks = match masks {
        Some(m) => Some(*m),
        None => None,
    };
    let r = clamp_i32(opts.tolerance, 0, MAX_TOLERANCE);
    let w = (target.dx + 2 * margin) as usize;
    let h = (target.dy + 2 * margin) as usize;
    let n = match w.checked_mul(h) {
        Some(v) => v,
        None => return None,
    };
    let mut ink_a: Vec<u8> = vec![0u8; n];
    let mut ink_b: Vec<u8> = vec![0u8; n];
    read_ink_plane(a, ink_a.as_mut_slice(), w, h);
    read_ink_plane(b, ink_b.as_mut_slice(), w, h);
    proof {
        lemma_plane_seq(ink_a@, opt_px(a), w as int, h as int);
        lemma_plane_seq(ink_b@, opt_px(b), w as int, h as int);
    }
    let mut near_a: Vec<u8>;
    let mut near_b: Vec<u8>;
    if r > 0 {
        near_a = vec![0u8; n];
        near_b = vec![0u8; n];
        let mut scratch: Vec<u8> = vec![0u8; n];
        dilate_ink(ink_a.as_slice(), near_a.as_mut_slice(), w, h, r, scratch.as_mut_slice());
        dilate_ink(ink_b.as_slice(), near_b.as_mut_slice(), w, h, r, scratch.as_mut_slice());
    } else {
        near_a = ink_a.clone();
        near_b = ink_b.clone();
        proof {
            assert forall|x: int, y: int| 0 <= x < w && 0 <= y < h implies #[trigger] near_a@[y * w + x]
                == spec_dilated(ink_a@, w as int, h as int, r as int, x, y) by {
                crate::dilate::lemma_dilated_zero(ink_a@, w as int, h as int, r as int, x, y);
            }
            assert forall|x: int, y: int| 0 <= x < w && 0 <= y < h implies #[trigger] near_b@[y * w + x]
                == spec_dilated(ink_b@, w as int, h as int, r as int, x, y) by {
                crate::dilate::lemma_dilated_zero(ink_b@, w as int, h as int, r as int, x, y);
            }
        }
    }
    let table = InkTable::build(opts);
    let mask_plane = build_mask_plane(target, masks);
    let edge = mask_edge_color().bgr();
    let tw = target.dx as usize;
    let th = target.dy;
    let m = margin as usize;
    let ghost pa = plane_seq(opt_px(a), w as int, h as int);
    let ghost pb = plane_seq(opt_px(b), w as int, h as int);
    let dlen = dst.data.len();
    let mut y: i32 = 0;
    while y < th
        invariant
            0 <= y <= th,
            th == target.dy,
            tw == target.dx,
            target.dx > 0,
            target.dy > 0,
            m == margin,
            margin >= 0,
            mode == ViewMode::Overlay,
            w == target.dx + 2 * margin,
            h == target.dy + 2 * margin,
            n == w * h,
            r == opts.spec_radius(),
            ink_a@ == pa,
            ink_b@ == pb,
            pa == plane_seq(opt_px(a), w as int, h as int),
            pb == plane_seq(opt_px(b), w as int, h as int),
            ink_a@.len() == n,
            ink_b@.len() == n,
            near_a@.len() == n,
            near_b@.len() == n,
            forall|x: int, y: int| 0 <= x < w && 0 <= y < h ==> #[trigger] near_a@[y * w + x] == spec_dilated(pa, w as int, h as int, r as int, x, y),
            forall|x: int, y: int| 0 <= x < w && 0 <= y < h ==> #[trigger] near_b@[y * w + x] == spec_dilated(pb, w as int, h as int, r as int, x, y),
            table.wf(*opts),
            edge@ == spec_mask_edge_color().spec_bgr(),
            smasks == (match masks {
                Some(mm) => Some(*mm),
                None => None,
            }),
            mask_plane is None <==> (masks is None || masks.unwrap().rects@.len() == 0),
            mask_plane matches Some(p) ==> {
                &&& p@.len() == target.dx * target.dy
                &&& forall|x: int, y: int|
                    0 <= x < target.dx && 0 <= y < target.dy ==> #[trigger] p@[y * target.dx + x]
                        == spec_mask(Some(*masks.unwrap()), target, x, y)
            },
            dst.wf(),
            dst.width == target.dx,
            dst.height == target.dy,
            dlen == dst.data@.len(),
            forall|xx: int, yy: int, k: int|
                0 <= xx < target.dx && 0 <= yy < y && 0 <= k < 4 ==> #[trigger] dst.spec_byte(xx, yy, k)
                    == spec_tile_byte(opt_px(a), opt_px(b), target, margin as int, mode, *opts, smasks, xx, yy, k),
        decreases th - y,
    {
        let mut x: usize = 0;
        while x < tw
            invariant
                0 <= x <= tw,
                0 <= y < th,
                th == target.dy,
                tw == target.dx,
                target.dx > 0,
                target.dy > 0,
                m == margin,
                margin >= 0,
                mode == ViewMode::Overlay,
                w == target.dx + 2 * margin,
                h == target.dy + 2 * margin,
                n == w * h,
                r == opts.spec_radius(),
                ink_a@ == pa,
                ink_b@ == pb,
                pa == plane_seq(opt_px(a), w as int, h as int),
                pb == plane_seq(opt_px(b), w as int, h as int),
                ink_a@.len() == n,
                ink_b@.len() == n,
                near_a@.len() == n,
                near_b@.len() == n,
                forall|x: int, y: int| 0 <= x < w && 0 <= y < h ==> #[trigger] near_a@[y * w + x] == spec_dilated(pa, w as int, h as int, r as int, x, y),
                forall|x: int, y: int| 0 <= x < w && 0 <= y < h ==> #[trigger] near_b@[y * w + x] == spec_dilated(pb, w as int, h as int, r as int, x, y),
                table.wf(*opts),
                edge@ == spec_mask_edge_color().spec_bgr(),
                smasks == (match masks {
                    Some(mm) => Some(*mm),
                    None => None,
                }),
                mask_plane is None <==> (masks is None || masks.unwrap().rects@.len() == 0),
                mask_plane matches Some(p) ==> {
                    &&& p@.len() == target.dx * target.dy
                    &&& forall|x: int, y: int|
                        0 <= x < target.dx && 0 <= y < target.dy ==> #[trigger] p@[y * target.dx + x]
                            == spec_mask(Some(*masks.unwrap()), target, x, y)
                },
                dst.wf(),
                dst.width == target.dx,
                dst.height == target.dy,
                dlen == dst.data@.len(),
                forall|xx: int, yy: int, k: int|
                    0 <= xx < target.dx && 0 <= yy < y && 0 <= k < 4 ==> #[trigger] dst.spec_byte(xx, yy, k)
                        == spec_tile_byte(opt_px(a), opt_px(b), target, margin as int, mode, *opts, smasks, xx, yy, k),
                forall|xx: int, k: int|
                    0 <= xx < x && 0 <= k < 4 ==> #[trigger] dst.spec_byte(xx, y as int, k)
                        == spec_tile_byte(opt_px(a), opt_px(b), target, margin as int, mode, *opts, smasks, xx, y as int, k),
            decreases tw - x,
        {
            let sx = x + m;
            let sy = y as usize + m;
            proof {
                lemma_cell_in_plane(w as int, h as int, sx as int, sy as int);
                lemma_cell_in_plane(tw as int, target.dy as int, x as int, y as int);
            }
            let si = sy * w + sx;
            let ia = ink_a[si];
            let ib = ink_b[si];
            let na = near_a[si];
            let nb = near_b[si];
            let mk: u8 = match &mask_plane {
                Some(p) => p[(y as usize) * tw + x],
                None => 0,
            };
            proof {
                let gx = x as int;
                let gy = y as int;
                crate::dilate::lemma_cell_div_mod(w as int, sx as int, sy as int);
                assert(ia == spec_plane_ink(opt_px(a), sx as int, sy as int));
                assert(ib == spec_plane_ink(opt_px(b), sx as int, sy as int));
                assert(na == spec_dilated(pa, w as int, h as int, r as int, sx as int, sy as int));
                assert(nb == spec_dilated(pb, w as int, h as int, r as int, sx as int, sy as int));
                match masks {
                    Some(mm) => {
                        if mm.rects@.len() == 0 {
                            assert(mask_after(mm.rects@, 0, mm.device_origin, target, gx, gy) == 0);
                        }
                    },
                    None => {},
                }
                assert(mk == spec_mask(smasks, target, gx, gy));
            }
            let px = overlay_pixel(ia, ib, na, nb, mk, &table, opts, edge);
            proof {
                lemma_tile_index(tw as int, target.dy as int, x as int, y as int);
            }
            let base = ((y as usize) * tw + x) * 4;
            let ghost before = dst.data@;
            let ghost old_dst = dst;
            dst.data.set(base, px[0]);
            dst.data.set(base + 1, px[1]);
            dst.data.set(base + 2, px[2]);
            dst.data.set(base + 3, px[3]);
            proof {
                let gx = x as int;
                let gy = y as int;
                lemma_pixel_written(before, dst.data@, tw as int, target.dy as int, gx, gy, px@);
                assert forall|xx: int, yy: int, k: int|
                    0 <= xx < target.dx && 0 <= yy < y && 0 <= k < 4 implies #[trigger] dst.spec_byte(xx, yy, k)
                        == spec_tile_byte(opt_px(a), opt_px(b), target, margin as int, mode, *opts, smasks, xx, yy, k) by {
                    assert(old_dst.spec_byte(xx, yy, k) == spec_tile_byte(opt_px(a), opt_px(b), target, margin as int, mode, *opts, smasks, xx, yy, k));
                    assert(dst.data@[(yy * tw + xx) * 4 + k] == before[(yy * tw + xx) * 4 + k]);
                }
                assert forall|xx: int, k: int|
                    0 <= xx < x + 1 && 0 <= k < 4 implies #[trigger] dst.spec_byte(xx, y as int, k)
                        == spec_tile_byte(opt_px(a), opt_px(b), target, margin as int, mode, *opts, smasks, xx, y as int, k) by {
                    if xx < x {
                        assert(old_dst.spec_byte(xx, gy, k) == spec_tile_byte(opt_px(a), opt_px(b), target, margin as int, mode, *opts, smasks, xx, gy, k));
                        assert(dst.data@[(gy * tw + xx) * 4 + k] == before[(gy * tw + xx) * 4 + k]);
                    } else {
                        assert(dst.data@[(gy * tw + gx) * 4 + k] == px@[k]);
                        assert(px@[k] == overlay_byte(ia, ib, na, nb, mk, *opts, k));
                    }
                }
            }
            x = x + 1;
        }
        y = y + 1;
    }
    Some(dst)
}

/// Reads a whole image's ink into a fresh `w * h` plane: the picture's ink where
/// it has a pixel, blank paper elsewhere and everywhere when it is absent.
pub fn ink_plane(px: Option<&Pixels>, w: usize, h: usize) -> (plane: Vec<u8>)
    requires
        w * h <= usize::MAX,
        h <= i32::MAX,
    ensures
        plane@.len() == w * h,
        forall|x: int, y: int|
            0 <= x < w && 0 <= y < h ==> #[trigger] plane@[y * w + x] == spec_plane_ink(opt_px(px), x, y),
{
    let mut plane: Vec<u8> = vec![0u8; w * h];
    read_ink_plane(px, plane.as_mut_slice(), w, h);
    plane
}

/// One row of ink, for a caller that streams rather than holding a plane; the
/// same as `read_ink_row`.
pub fn ink_row(px: Option<&Pixels>, y: i32, width: usize, out: &mut [u8]) -> (done: bool)
    ensures
        done == (px is Some && width > 0 && old(out)@.len() >= width),
        final(out)@.len() == old(out)@.len(),
        !done ==> final(out)@ == old(out)@,
        done ==> forall|x: int|
            0 <= x < width ==> #[trigger] final(out)@[x] == spec_row_ink(*px.unwrap(), y as int, x),
        forall|i: int| width <= i < old(out)@.len() ==> final(out)@[i] == old(out)@[i],
{
    read_ink_row(px, y, width, out)
}

// ---------------------------------------------------------------------------
// What the overlay promises

/// Inside an excluded region nothing is coloured, and nothing is hidden: the
/// pixel is grey, darker than paper wherever either side draws with some
/// strength.
pub proof fn law_masked_pixels_are_grey_not_blank(ia: u8, ib: u8, na: u8, nb: u8, opts: Options)
    ensures
        overlay_byte(ia, ib, na, nb, 1, opts, 0) == overlay_byte(ia, ib, na, nb, 1, opts, 1),
        overlay_byte(ia, ib, na, nb, 1, opts, 1) == overlay_byte(ia, ib, na, nb, 1, opts, 2),
        max_u8(ia, ib) >= 3 ==> overlay_byte(ia, ib, na, nb, 1, opts, 0) < 255,
{
    let m = max_u8(ia, ib) as int;
    assert(0 <= (m * 35) / 100 <= 255) by (nonlinear_arith)
        requires
            0 <= m <= 255,
    ;
    if m >= 3 {
        assert((m * 35) / 100 >= 1) by (nonlinear_arith)
            requires
                3 <= m <= 255,
        ;
    }
}

/// A sheet overlaid on an identical copy of itself shows nothing in either
/// side's colour: away from excluded regions every pixel is neutral, as the
/// sheet's own ink would be drawn where both documents agree.
pub proof fn law_identical_sides_overlay_neutral(
    px: Option<Pixels>,
    target: Size,
    margin: int,
    opts: Options,
    x: int,
    y: int,
)
    requires
        margin >= 0,
        0 <= x < target.dx,
        0 <= y < target.dy,
    ensures
        spec_tile_byte(px, px, target, margin, ViewMode::Overlay, opts, None, x, y, 0) == spec_tile_byte(
            px,
            px,
            target,
            margin,
            ViewMode::Overlay,
            opts,
            None,
            x,
            y,
            1,
        ),
        spec_tile_byte(px, px, target, margin, ViewMode::Overlay, opts, None, x, y, 1) == spec_tile_byte(
            px,
            px,
            target,
            margin,
            ViewMode::Overlay,
            opts,
            None,
            x,
            y,
            2,
        ),
{
    let w = target.dx + 2 * margin;
    let h = target.dy + 2 * margin;
    let sx = x + margin;
    let sy = y + margin;
    let p = plane_seq(px, w, h);
    crate::dilate::lemma_dilated_ge(p, w, h, opts.spec_radius(), sx, sy);
    crate::dilate::lemma_cell_div_mod(w, sx, sy);
    assert(0 <= sy * w + sx < w * h) by (nonlinear_arith)
        requires
            0 <= sx < w,
            0 <= sy < h,
    ;
    assert(p[sy * w + sx] == spec_plane_ink(px, sx, sy));
    let i = spec_plane_ink(px, sx, sy);
    crate::ink::law_shared_ink_is_neutral(i, opts);
}

/// A plane's cell read back as the picture's ink there.
proof fn lemma_plane_cell(px: Option<Pixels>, w: int, h: int, u: int, v: int)
    requires
        0 <= u < w,
        0 <= v < h,
    ensures
        0 <= v * w + u < w * h,
        plane_seq(px, w, h)[v * w + u] == spec_plane_ink(px, u, v),
{
    crate::dilate::lemma_cell_div_mod(w, u, v);
    assert(0 <= v * w + u < w * h) by (nonlinear_arith)
        requires
            0 <= u < w,
            0 <= v < h,
    ;
}

/// Two planes agree on a window when the pictures' ink does.
proof fn lemma_planes_agree(
    p1: Option<Pixels>,
    w1: int,
    h1: int,
    p2: Option<Pixels>,
    w2: int,
    h2: int,
    cx: int,
    cy: int,
    rr: int,
    dx: int,
    dy: int,
)
    requires
        0 <= cx - rr,
        cx + rr < w1,
        0 <= cy - rr,
        cy + rr < h1,
        0 <= cx + dx - rr,
        cx + dx + rr < w2,
        0 <= cy + dy - rr,
        cy + dy + rr < h2,
        forall|u: int, v: int|
            cx - rr <= u <= cx + rr && cy - rr <= v <= cy + rr ==> #[trigger] spec_plane_ink(p1, u, v)
                == spec_plane_ink(p2, u + dx, v + dy),
    ensures
        forall|u: int, v: int|
            cx - rr <= u <= cx + rr && cy - rr <= v <= cy + rr ==> #[trigger] plane_seq(p1, w1, h1)[v * w1 + u]
                == plane_seq(p2, w2, h2)[(v + dy) * w2 + u + dx],
{
    assert forall|u: int, v: int| cx - rr <= u <= cx + rr && cy - rr <= v <= cy + rr implies #[trigger] plane_seq(
        p1,
        w1,
        h1,
    )[v * w1 + u] == plane_seq(p2, w2, h2)[(v + dy) * w2 + u + dx] by {
        lemma_plane_cell(p1, w1, h1, u, v);
        lemma_plane_cell(p2, w2, h2, u + dx, v + dy);
        assert(spec_plane_ink(p1, u, v) == spec_plane_ink(p2, u + dx, v + dy));
    }
}

/// What the reader sees does not depend on how the viewport cut the page up:
/// a tile composed from renders with a margin of at least the tolerance's
/// radius shows, at every pixel, exactly what the whole sheet shows there,
/// wherever the two renders agree on the ink around that pixel.
pub proof fn law_a_tile_agrees_with_the_whole_sheet(
    at: Option<Pixels>,
    bt: Option<Pixels>,
    tile: Size,
    m: int,
    aw: Option<Pixels>,
    bw: Option<Pixels>,
    whole: Size,
    mw: int,
    opts: Options,
    x: int,
    y: int,
    ox: int,
    oy: int,
    k: int,
)
    requires
        m >= opts.spec_radius(),
        mw >= opts.spec_radius(),
        0 <= x < tile.dx,
        0 <= y < tile.dy,
        0 <= x + ox < whole.dx,
        0 <= y + oy < whole.dy,
        forall|u: int, v: int|
            x + m - opts.spec_radius() <= u <= x + m + opts.spec_radius() && y + m - opts.spec_radius() <= v <= y
                + m + opts.spec_radius() ==> #[trigger] spec_plane_ink(at, u, v) == spec_plane_ink(
                aw,
                u + ox + mw - m,
                v + oy + mw - m,
            ) && spec_plane_ink(bt, u, v) == spec_plane_ink(bw, u + ox + mw - m, v + oy + mw - m),
    ensures
        spec_tile_byte(at, bt, tile, m, ViewMode::Overlay, opts, None, x, y, k) == spec_tile_byte(
            aw,
            bw,
            whole,
            mw,
            ViewMode::Overlay,
            opts,
            None,
            x + ox,
            y + oy,
            k,
        ),
{
    let r = opts.spec_radius();
    let rr = crate::dilate::eff_radius(r);
    assert(rr == r);
    let wt = tile.dx + 2 * m;
    let ht = tile.dy + 2 * m;
    let ww = whole.dx + 2 * mw;
    let hw = whole.dy + 2 * mw;
    let dx = ox + mw - m;
    let dy = oy + mw - m;
    let cx = x + m;
    let cy = y + m;
    assert forall|u: int, v: int| cx - rr <= u <= cx + rr && cy - rr <= v <= cy + rr implies #[trigger] spec_plane_ink(
        at,
        u,
        v,
    ) == spec_plane_ink(aw, u + dx, v + dy) by {
        assert(spec_plane_ink(at, u, v) == spec_plane_ink(aw, u + ox + mw - m, v + oy + mw - m));
    }
    assert forall|u: int, v: int| cx - rr <= u <= cx + rr && cy - rr <= v <= cy + rr implies #[trigger] spec_plane_ink(
        bt,
        u,
        v,
    ) == spec_plane_ink(bw, u + dx, v + dy) by {
        assert(spec_plane_ink(at, u, v) == spec_plane_ink(aw, u + ox + mw - m, v + oy + mw - m));
        assert(spec_plane_ink(bt, u, v) == spec_plane_ink(bw, u + ox + mw - m, v + oy + mw - m));
    }
    lemma_planes_agree(at, wt, ht, aw, ww, hw, cx, cy, rr, dx, dy);
    lemma_planes_agree(bt, wt, ht, bw, ww, hw, cx, cy, rr, dx, dy);
    crate::dilate::law_dilation_is_local(plane_seq(at, wt, ht), wt, ht, plane_seq(aw, ww, hw), ww, hw, r, cx, cy, dx, dy);
    crate::dilate::law_dilation_is_local(plane_seq(bt, wt, ht), wt, ht, plane_seq(bw, ww, hw), ww, hw, r, cx, cy, dx, dy);
    assert(spec_plane_ink(at, cx, cy) == spec_plane_ink(aw, cx + dx, cy + dy));
    assert(spec_plane_ink(bt, cx, cy) == spec_plane_ink(bw, cx + dx, cy + dy));
    assert(cx + dx == x + ox + mw);
    assert(cy + dy == y + oy + mw);
}

/// Whether tile pixel `(x, y)` lies on the one-pixel border of `r`.
pub open spec fn on_edge(r: Rect, x: int, y: int) -> bool {
    ||| y == r.y || y == r.y + r.dy - 1
    ||| x == r.x || x == r.x + r.dx - 1
}

/// A pixel no excluded rectangle reaches is left unmarked.
proof fn lemma_mask_outside(rects: Seq<Rect>, k: int, origin: Point, target: Size, x: int, y: int)
    requires
        forall|j: int| 0 <= j < k ==> !#[trigger] in_clip(rects[j], target, x, y),
    ensures
        mask_after(rects, k, origin, target, x, y) == 0,
    decreases k,
{
    if k > 0 {
        lemma_mask_outside(rects, k - 1, origin, target, x, y);
        assert(!in_clip(rects[k - 1], target, x, y));
    }
}

/// A pixel on no border of the rectangles that reach it is marked as inside
/// exactly when one of them reaches it.
proof fn lemma_mask_inside(rects: Seq<Rect>, k: int, origin: Point, target: Size, x: int, y: int)
    requires
        forall|j: int| 0 <= j < k && #[trigger] in_clip(rects[j], target, x, y) ==> !on_edge(rects[j], x, y),
    ensures
        mask_after(rects, k, origin, target, x, y) == (if exists|j: int| 0 <= j < k && #[trigger] in_clip(
            rects[j],
            target,
            x,
            y,
        ) {
            1u8
        } else {
            0u8
        }),
    decreases k,
{
    if k > 0 {
        lemma_mask_inside(rects, k - 1, origin, target, x, y);
        if in_clip(rects[k - 1], target, x, y) {
            assert(!on_edge(rects[k - 1], x, y));
        }
        if exists|j: int| 0 <= j < k - 1 && #[trigger] in_clip(rects[j], target, x, y) {
            let j = choose|j: int| 0 <= j < k - 1 && #[trigger] in_clip(rects[j], target, x, y);
            assert(0 <= j < k && in_clip(rects[j], target, x, y));
        }
        if exists|j: int| 0 <= j < k && #[trigger] in_clip(rects[j], target, x, y) {
            let j = choose|j: int| 0 <= j < k && #[trigger] in_clip(rects[j], target, x, y);
            if j < k - 1 {
                assert(0 <= j < k - 1 && in_clip(rects[j], target, x, y));
            }
        }
    }
}

/// Excluded regions never colour and never hide. Away from every excluded
/// rectangle the overlay is exactly what it would be with none; inside one, and
/// on no border of the rectangles that reach the pixel, it is the more inked
/// side washed out to grey.
pub proof fn law_masks_never_colour_and_never_hide(
    a: Option<Pixels>,
    b: Option<Pixels>,
    target: Size,
    margin: int,
    opts: Options,
    m: TileMasks,
    x: int,
    y: int,
    k: int,
)
    ensures
        (forall|j: int| 0 <= j < m.rects@.len() ==> !#[trigger] in_clip(m.rects@[j], target, x, y))
            ==> spec_tile_byte(a, b, target, margin, ViewMode::Overlay, opts, Some(m), x, y, k)
            == spec_tile_byte(a, b, target, margin, ViewMode::Overlay, opts, None, x, y, k),
        (exists|j: int| 0 <= j < m.rects@.len() && #[trigger] in_clip(m.rects@[j], target, x, y)) && (forall|j: int|
            0 <= j < m.rects@.len() && #[trigger] in_clip(m.rects@[j], target, x, y) ==> !on_edge(
                m.rects@[j],
                x,
                y,
            )) && 0 <= k < 3 ==> spec_tile_byte(a, b, target, margin, ViewMode::Overlay, opts, Some(m), x, y, k)
            == (255 - (max_u8(spec_plane_ink(a, x + margin, y + margin), spec_plane_ink(b, x + margin, y + margin))
            * MASK_INK_PERCENT) / 100) as u8,
{
    let rs = m.rects@;
    let n = rs.len() as int;
    if forall|j: int| 0 <= j < n ==> !#[trigger] in_clip(rs[j], target, x, y) {
        lemma_mask_outside(rs, n, m.device_origin, target, x, y);
    }
    if forall|j: int| 0 <= j < n && #[trigger] in_clip(rs[j], target, x, y) ==> !on_edge(rs[j], x, y) {
        lemma_mask_inside(rs, n, m.device_origin, target, x, y);
    }
}

/// A picture's ink plane is its rows laid end to end: row `y` of the plane is
/// what a row read of `y` gives, cell for cell, and the plane of an absent
/// picture is blank paper.
pub proof fn law_a_plane_is_its_rows(px: Option<Pixels>, w: int, h: int, x: int, y: int)
    requires
        0 <= x < w,
        0 <= y < h,
    ensures
        plane_seq(px, w, h).len() == w * h,
        0 <= y * w + x < w * h,
        plane_seq(px, w, h)[y * w + x] == match px {
            Some(p) => spec_row_ink(p, y, x),
            None => 0u8,
        },
{
    lemma_cell_in_plane(w, h, x, y);
    crate::dilate::lemma_cell_div_mod(w, x, y);
    assert(w * h >= 0) by (nonlinear_arith)
        requires w > 0, h > 0;
}

} // verus!
