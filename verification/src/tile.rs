use vstd::prelude::*;

use crate::compose::{compose, spec_mask, spec_tile_byte, TileMasks};
use crate::geom::{Point, Rect, Size};
use crate::ink::opt_px;
use crate::pairing::max_i;
use crate::pixels::{Pixels, Tile};
use crate::render::{Error, Tile as RenderTile};
use crate::session::Session;

verus! {

/// The excluded rectangles a set of masks carries; none for no masks.
pub open spec fn mask_rects(masks: Option<TileMasks>) -> Seq<Rect> {
    match masks {
        None => Seq::empty(),
        Some(m) => m.rects@,
    }
}

/// Where a set of masks puts the tile on the sheet; the origin for no masks.
pub open spec fn mask_origin(masks: Option<TileMasks>) -> Point {
    match masks {
        None => Point { x: 0, y: 0 },
        Some(m) => m.device_origin,
    }
}

/// Device rectangles moved into a tile's own coordinates.
pub open spec fn shifted(rects: Seq<Rect>, tile: RenderTile) -> Seq<Rect> {
    rects.map_values(|r: Rect| Rect { x: (r.x - tile.x) as i32, y: (r.y - tile.y) as i32, dx: r.dx, dy: r.dy })
}

/// Each rectangle can be moved into the tile's coordinates.
pub open spec fn shift_fits(rects: Seq<Rect>, tile: RenderTile) -> bool {
    forall|i: int|
        0 <= i < rects.len() ==> i32::MIN <= #[trigger] rects[i].x - tile.x <= i32::MAX && i32::MIN <= rects[i].y
            - tile.y <= i32::MAX
}

/// A tile grown by `m` device pixels on every edge.
pub open spec fn spec_grown(t: RenderTile, m: int) -> RenderTile {
    RenderTile {
        x: (t.x - m) as i32,
        y: (t.y - m) as i32,
        width: (t.width + 2 * m) as i32,
        height: (t.height + 2 * m) as i32,
    }
}

/// A tile grown by `m` still has coordinates.
pub open spec fn grown_fits(t: RenderTile, m: int) -> bool {
    &&& i32::MIN <= t.x - m
    &&& i32::MIN <= t.y - m
    &&& t.width + 2 * m <= i32::MAX
    &&& t.height + 2 * m <= i32::MAX
}

/// The excluded regions as device pixels within a tile.
///
/// Everything is offered to the compositor, including rectangles that miss
/// the tile entirely: clipping is its job, and doing it twice is how the dash
/// phase ends up disagreeing between two neighbouring tiles.
pub fn shift_to_tile(device: &[Rect], tile: RenderTile) -> (out: Vec<Rect>)
    requires
        shift_fits(device@, tile),
    ensures
        out@ == shifted(device@, tile),
{
    let mut out: Vec<Rect> = Vec::new();
    let mut i: usize = 0;
    while i < device.len()
        invariant
            i <= device@.len(),
            shift_fits(device@, tile),
            out@ == shifted(device@.subrange(0, i as int), tile),
        decreases device@.len() - i,
    {
        let r = device[i];
        proof {
            assert(i32::MIN <= device@[i as int].x - tile.x <= i32::MAX);
        }
        out.push(Rect::new(r.x - tile.x, r.y - tile.y, r.dx, r.dy));
        proof {
            assert(device@.subrange(0, i + 1) =~= device@.subrange(0, i as int).push(r));
            assert(out@ =~= shifted(device@.subrange(0, i + 1), tile));
        }
        i = i + 1;
    }
    proof {
        assert(device@.subrange(0, device@.len() as int) =~= device@);
    }
    out
}

impl Session {
    /// How many device pixels of context each side is rendered with around a
    /// tile: the tolerance, so the dilation at a tile's border has neighbours
    /// to look at.
    pub fn render_margin(&self) -> (m: i32)
        ensures
            m == max_i(0, self.spec_options().tolerance as int),
    {
        let t = self.options().tolerance;
        if t > 0 {
            t
        } else {
            0
        }
    }

    /// The rectangle each side has to be rendered for a tile: the tile with
    /// `render_margin` extra pixels on every edge.
    pub fn grown_tile(&self, tile: RenderTile) -> (g: RenderTile)
        requires
            grown_fits(tile, max_i(0, self.spec_options().tolerance as int)),
        ensures
            g == spec_grown(tile, max_i(0, self.spec_options().tolerance as int)),
    {
        let m = self.render_margin();
        let w: i64 = tile.width as i64 + 2 * (m as i64);
        let h: i64 = tile.height as i64 + 2 * (m as i64);
        RenderTile::new(tile.x - m, tile.y - m, w as i32, h as i32)
    }

    /// Composes one tile of the comparison, ready for the screen.
    ///
    /// `tile` is in device pixels with its origin at the sheet's top-left; `a`
    /// and `b` are each side rendered for `grown_tile(tile)` (`None` where that
    /// document has no such sheet), and `device_rects` the excluded regions in
    /// the same device space. The tile is composed in the current view mode
    /// with the current options, the excluded regions moved into the tile's
    /// coordinates and marked, and refused as bad geometry where the
    /// compositor would refuse it.
    pub fn compose_tile(&self, a: Option<&Pixels>, b: Option<&Pixels>, tile: RenderTile, device_rects: &[Rect]) -> (out:
        Result<Tile, Error>)
        requires
            grown_fits(tile, max_i(0, self.spec_options().tolerance as int)),
            shift_fits(device_rects@, tile),
        ensures
            ({
                let m = max_i(0, self.spec_options().tolerance as int);
                let target = Size { dx: tile.width, dy: tile.height };
                &&& out is Ok <==> ({
                    &&& tile.width > 0
                    &&& tile.height > 0
                    &&& tile.width * tile.height * 4 <= usize::MAX
                    &&& self.spec_view_mode() == crate::options::ViewMode::Overlay ==> (tile.width + 2 * m) * (
                    tile.height + 2 * m) <= usize::MAX
                })
                &&& out matches Err(e) ==> e is BadGeometry
                &&& out matches Ok(t) ==> {
                    &&& t.wf()
                    &&& t.width == tile.width
                    &&& t.height == tile.height
                    &&& forall|masks: Option<TileMasks>, x: int, y: int, k: int|
                        #![trigger t.spec_byte(x, y, k), mask_rects(masks)]
                        mask_rects(masks) == shifted(device_rects@, tile) && mask_origin(masks) == (Point {
                            x: tile.x,
                            y: tile.y,
                        }) && 0 <= x < tile.width && 0 <= y < tile.height && 0 <= k < 4 ==> t.spec_byte(
                            x,
                            y,
                            k,
                        ) == spec_tile_byte(
                            opt_px(a),
                            opt_px(b),
                            target,
                            m,
                            self.spec_view_mode(),
                            self.spec_options(),
                            masks,
                            x,
                            y,
                            k,
                        )
                }
            }),
    {
        let margin = self.render_margin();
        let rects = shift_to_tile(device_rects, tile);
        let masks = TileMasks { rects: rects.as_slice(), device_origin: Point::new(tile.x, tile.y) };
        let opts = self.options();
        let target = Size::new(tile.width, tile.height);
        let used: Option<&TileMasks> = if rects.len() > 0 {
            Some(&masks)
        } else {
            None
        };
        let composed = compose(a, b, target, margin, self.view_mode(), &opts, used);
        match composed {
            Some(t) => {
                proof {
                    let um = match used {
                        Some(m) => Some(*m),
                        None => None,
                    };
                    assert forall|masks2: Option<TileMasks>, x: int, y: int|
                        mask_rects(masks2) == shifted(device_rects@, tile) && mask_origin(masks2) == (Point {
                            x: tile.x,
                            y: tile.y,
                        }) implies #[trigger] spec_mask(masks2, target, x, y) == spec_mask(um, target, x, y) by {
                    }
                }
                Ok(t)
            },
            None => Err(Error::BadGeometry),
        }
    }
}

} // verus!
