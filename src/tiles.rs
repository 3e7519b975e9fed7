//! Square tiles over a row-major frame, and how finished tiles are merged
//! into it.
use vstd::prelude::*;
use vstd::arithmetic::div_mod::lemma_fundamental_div_mod_converse;
use rand::Rng;

verus! {

/// A `width` by `height` frame cut into tiles of `side` by `side` pixels,
/// numbered row by row; the tiles on the right and bottom edges are clipped
/// to the frame.
pub struct TileGrid {
    pub width: usize,
    pub height: usize,
    pub side: usize,
}

/// A finished tile: its number in the grid and its private buffer of
/// `side * side` packed pixels, row by row, of which the part inside the
/// frame is used.
pub struct Tile {
    pub index: usize,
    pub pixels: Vec<u32>,
}

/// rand's `XorShiftRng` (rand 0.4), carried through as an opaque value.
#[verifier::external_type_specification]
#[verifier::external_body]
pub struct ExXorShiftRng(rand::XorShiftRng);

/// Relies on `rand::Rng::shuffle` (rand 0.4): a Fisher-Yates pass that only
/// swaps elements of the slice, so the elements are kept with their
/// multiplicities; their order depends on the generator.
#[verifier::external_body]
fn shuffle(rng: &mut rand::XorShiftRng, values: &mut Vec<usize>)
    ensures
        final(values)@.to_multiset() == old(values)@.to_multiset(),
{
    rng.shuffle(values.as_mut_slice());
}

/// The tile numbers `0..count` in increasing order.
pub open spec fn all_tiles(count: nat) -> Seq<usize> {
    Seq::new(count, |i: int| i as usize)
}

/// Each tile's number and buffer contents.
pub open spec fn tile_views(tiles: Seq<Tile>) -> Seq<(int, Seq<u32>)> {
    tiles.map_values(|tile: Tile| (tile.index as int, tile.pixels@))
}

/// The pixel rectangle `[min_x, max_x) x [min_y, max_y)` that a tile covers.
pub struct TileRect {
    pub min_x: usize,
    pub min_y: usize,
    pub max_x: usize,
    pub max_y: usize,
}

impl TileGrid {
    /// A grid is usable when its tiles are not empty and its frame can be
    /// addressed.
    pub open spec fn wf(self) -> bool {
        &&& self.side > 0
        &&& self.width * self.height <= usize::MAX
        &&& self.side * self.side <= usize::MAX
    }

    /// Number of pixels in the frame.
    pub open spec fn frame_len(self) -> nat {
        (self.width * self.height) as nat
    }

    /// Tiles per row: the width divided by the side, rounded up.
    pub open spec fn count_x(self) -> nat {
        (self.width / self.side + if self.width % self.side != 0 { 1nat } else { 0nat }) as nat
    }

    /// Tiles per column: the height divided by the side, rounded up.
    pub open spec fn count_y(self) -> nat {
        (self.height / self.side + if self.height % self.side != 0 { 1nat } else { 0nat }) as nat
    }

    /// Number of tiles.
    pub open spec fn count(self) -> nat {
        self.count_x() * self.count_y()
    }

    /// Number of pixels in the buffer of one tile, clipped or not.
    pub open spec fn tile_area(self) -> nat {
        (self.side * self.side) as nat
    }

    /// The rectangle of tile `t`.
    pub open spec fn rect(self, t: int) -> TileRect {
        let min_x = (t % self.count_x() as int) * self.side;
        let min_y = (t / self.count_x() as int) * self.side;
        TileRect {
            min_x: min_x as usize,
            min_y: min_y as usize,
            max_x: (if min_x + self.side <= self.width { min_x + self.side } else { self.width as int }) as usize,
            max_y: (if min_y + self.side <= self.height { min_y + self.side } else { self.height as int }) as usize,
        }
    }

    /// The tile that holds the pixel at column `x`, row `y`.
    pub open spec fn tile_at(self, x: int, y: int) -> int {
        (y / self.side as int) * self.count_x() + x / self.side as int
    }

    /// Where the pixel at column `x`, row `y` sits in its tile's buffer.
    pub open spec fn local_at(self, x: int, y: int) -> int {
        (y % self.side as int) * self.side + x % self.side as int
    }

    /// The tile that holds frame pixel `p`.
    pub open spec fn tile_of(self, p: int) -> int {
        self.tile_at(p % self.width as int, p / self.width as int)
    }

    /// Where frame pixel `p` sits in its tile's buffer.
    pub open spec fn local_of(self, p: int) -> int {
        self.local_at(p % self.width as int, p / self.width as int)
    }

    /// Whether the pixel at column `x`, row `y` lies in the rectangle of
    /// tile `t`.
    pub open spec fn covers(self, t: int, x: int, y: int) -> bool {
        let r = self.rect(t);
        &&& r.min_x <= x < r.max_x
        &&& r.min_y <= y < r.max_y
    }

    /// The frame after tile `t` with buffer `pixels` is copied into it:
    /// the pixels of that tile come from the buffer, all others stay.
    pub open spec fn painted(self, frame: Seq<u32>, t: int, pixels: Seq<u32>) -> Seq<u32> {
        Seq::new(
            frame.len(),
            |p: int|
                if self.tile_of(p) == t {
                    pixels[self.local_of(p)]
                } else {
                    frame[p]
                },
        )
    }

    /// The frame after the tiles are copied into it one after the other.
    pub open spec fn merged(self, frame: Seq<u32>, tiles: Seq<(int, Seq<u32>)>) -> Seq<u32>
        decreases tiles.len(),
    {
        if tiles.len() == 0 {
            frame
        } else {
            self.painted(self.merged(frame, tiles.drop_last()), tiles.last().0, tiles.last().1)
        }
    }

    /// A grid over a `width` by `height` frame with tiles of `side` pixels.
    pub fn new(width: usize, height: usize, side: usize) -> (g: TileGrid)
        requires
            side > 0,
            width * height <= usize::MAX,
            side * side <= usize::MAX,
        ensures
            g.wf(),
            g.width == width,
            g.height == height,
            g.side == side,
    {
        TileGrid { width, height, side }
    }

    /// Tiles per row.
    pub fn tiles_x(&self) -> (n: usize)
        requires
            self.wf(),
        ensures
            n == self.count_x(),
    {
        proof {
            self.lemma_count_bounds();
        }
        self.width / self.side + if self.width % self.side != 0 { 1 } else { 0 }
    }

    /// Tiles per column.
    pub fn tiles_y(&self) -> (n: usize)
        requires
            self.wf(),
        ensures
            n == self.count_y(),
    {
        proof {
            self.lemma_count_bounds();
        }
        self.height / self.side + if self.height % self.side != 0 { 1 } else { 0 }
    }

    proof fn lemma_count_bounds(self)
        requires
            self.wf(),
        ensures
            self.count_x() <= self.width,
            self.count_y() <= self.height,
            self.count_x() * self.side >= self.width,
            self.count_y() * self.side >= self.height,
            self.count() <= self.frame_len(),
    {
        let s = self.side as int;
        let w = self.width as int;
        let h = self.height as int;
        assert(w == (w / s) * s + w % s) by {
            vstd::arithmetic::div_mod::lemma_fundamental_div_mod(w, s);
        }
        assert(h == (h / s) * s + h % s) by {
            vstd::arithmetic::div_mod::lemma_fundamental_div_mod(h, s);
        }
        let cx = self.count_x() as int;
        let cy = self.count_y() as int;
        assert(cx <= w && cx * s >= w) by (nonlinear_arith)
            requires
                s >= 1,
                w >= 0,
                w == (w / s) * s + w % s,
                0 <= w % s < s,
                cx == w / s + if w % s != 0 { 1int } else { 0int },
        ;
        assert(cy <= h && cy * s >= h) by (nonlinear_arith)
            requires
                s >= 1,
                h >= 0,
                h == (h / s) * s + h % s,
                0 <= h % s < s,
                cy == h / s + if h % s != 0 { 1int } else { 0int },
        ;
        assert(cx * cy <= w * h) by (nonlinear_arith)
            requires
                0 <= cx <= w,
                0 <= cy <= h,
        ;
    }

    /// The corner of every tile lies inside the frame.
    pub proof fn lemma_rect(self, t: int)
        requires
            self.wf(),
            0 <= t < self.count(),
        ensures
            self.rect(t).min_x == (t % self.count_x() as int) * self.side,
            self.rect(t).min_y == (t / self.count_x() as int) * self.side,
            self.rect(t).min_x < self.rect(t).max_x <= self.width,
            self.rect(t).min_y < self.rect(t).max_y <= self.height,
            self.rect(t).max_x <= self.rect(t).min_x + self.side,
            self.rect(t).max_y <= self.rect(t).min_y + self.side,
            self.rect(t).max_x == self.width || self.rect(t).max_x == self.rect(t).min_x + self.side,
            self.rect(t).max_y == self.height || self.rect(t).max_y == self.rect(t).min_y + self.side,
    {
        self.lemma_count_bounds();
        let s = self.side as int;
        let cx = self.count_x() as int;
        let cy = self.count_y() as int;
        let w = self.width as int;
        let h = self.height as int;
        vstd::arithmetic::div_mod::lemma_fundamental_div_mod(w, s);
        vstd::arithmetic::div_mod::lemma_fundamental_div_mod(h, s);
        vstd::arithmetic::div_mod::lemma_fundamental_div_mod(t, cx);
        let tx = t % cx;
        let ty = t / cx;
        assert(0 <= ty < cy) by (nonlinear_arith)
            requires
                0 <= t < cx * cy,
                t == cx * ty + tx,
                0 <= tx < cx,
        ;
        assert(0 <= tx * s < w) by (nonlinear_arith)
            requires
                s >= 1,
                0 <= tx < cx,
                w == (w / s) * s + w % s,
                0 <= w % s < s,
                cx == w / s + if w % s != 0 { 1int } else { 0int },
        ;
        assert(0 <= ty * s < h) by (nonlinear_arith)
            requires
                s >= 1,
                0 <= ty < cy,
                h == (h / s) * s + h % s,
                0 <= h % s < s,
                cy == h / s + if h % s != 0 { 1int } else { 0int },
        ;
    }

    /// A pixel of the frame lies in exactly the tile that `tile_at` names,
    /// and `local_at` is its offset from that tile's corner, row by row.
    pub proof fn lemma_tile_at(self, t: int, x: int, y: int)
        requires
            self.wf(),
            0 <= x < self.width,
            0 <= y < self.height,
            0 <= t < self.count(),
        ensures
            self.tile_at(x, y) < self.count(),
            (self.tile_at(x, y) == t) <==> self.covers(t, x, y),
            self.covers(t, x, y) ==> self.local_at(x, y) == (y - self.rect(t).min_y) * self.side + (
            x - self.rect(t).min_x),
            0 <= self.local_at(x, y) < self.tile_area(),
    {
        self.lemma_count_bounds();
        let s = self.side as int;
        let cx = self.count_x() as int;
        let cy = self.count_y() as int;
        let qx = x / s;
        let qy = y / s;
        let rx = x % s;
        let ry = y % s;
        vstd::arithmetic::div_mod::lemma_fundamental_div_mod(x, s);
        vstd::arithmetic::div_mod::lemma_fundamental_div_mod(y, s);
        vstd::arithmetic::div_mod::lemma_fundamental_div_mod(t, cx);
        assert(x == qx * s + rx && y == qy * s + ry) by (nonlinear_arith)
            requires
                x == s * qx + rx,
                y == s * qy + ry,
        ;
        let w = self.width as int;
        let h = self.height as int;
        assert(0 <= qx < cx) by (nonlinear_arith)
            requires
                s > 0,
                0 <= x < w,
                w <= cx * s,
                x == qx * s + rx,
                0 <= rx < s,
        ;
        assert(0 <= qy < cy) by (nonlinear_arith)
            requires
                s > 0,
                0 <= y < h,
                h <= cy * s,
                y == qy * s + ry,
                0 <= ry < s,
        ;
        assert(self.tile_at(x, y) < self.count()) by (nonlinear_arith)
            requires
                0 <= qx < cx,
                0 <= qy < cy,
                self.tile_at(x, y) == qy * cx + qx,
                self.count() == cx * cy,
        ;
        let tx = t % cx;
        let ty = t / cx;
        self.lemma_rect(t);
        assert(t == ty * cx + tx) by (nonlinear_arith)
            requires
                t == cx * ty + tx,
        ;
        if self.tile_at(x, y) == t {
            lemma_fundamental_div_mod_converse(t, cx, qy, qx);
            assert(self.covers(t, x, y));
        }
        if self.covers(t, x, y) {
            lemma_fundamental_div_mod_converse(x, s, tx, x - tx * s);
            lemma_fundamental_div_mod_converse(y, s, ty, y - ty * s);
            assert(self.tile_at(x, y) == t);
        }
        assert(0 <= ry * s + rx < s * s) by (nonlinear_arith)
            requires
                0 <= rx < s,
                0 <= ry < s,
        ;
    }

    /// Row and column of a frame pixel.
    pub proof fn lemma_pixel_coords(self, p: int)
        requires
            self.wf(),
            0 <= p < self.frame_len(),
        ensures
            0 <= p % (self.width as int) < self.width,
            0 <= p / (self.width as int) < self.height,
            p == (p / self.width as int) * self.width + p % self.width as int,
    {
        let w = self.width as int;
        let h = self.height as int;
        assert(w > 0) by (nonlinear_arith)
            requires
                0 <= p < w * h,
                h >= 0,
        ;
        vstd::arithmetic::div_mod::lemma_fundamental_div_mod(p, w);
        assert(p == (p / w) * w + p % w && p / w < h) by (nonlinear_arith)
            requires
                w > 0,
                0 <= p < w * h,
                p == w * (p / w) + p % w,
                0 <= p % w < w,
        ;
    }

    /// The frame pixel at column `x`, row `y`.
    pub proof fn lemma_pixel_index(self, x: int, y: int)
        requires
            self.wf(),
            0 <= x < self.width,
            0 <= y < self.height,
        ensures
            0 <= y * self.width + x < self.frame_len(),
            (y * self.width + x) / self.width as int == y,
            (y * self.width + x) % self.width as int == x,
    {
        let w = self.width as int;
        let h = self.height as int;
        assert(0 <= y * w + x < w * h) by (nonlinear_arith)
            requires
                0 <= x < w,
                0 <= y < h,
        ;
        lemma_fundamental_div_mod_converse(y * w + x, w, y, x);
    }

    /// Copies the buffer of a finished tile into the frame.
    pub fn merge_tile(&self, frame: &mut Vec<u32>, tile: &Tile)
        requires
            self.wf(),
            old(frame)@.len() == self.frame_len(),
            tile.index < self.count(),
            tile.pixels@.len() == self.tile_area(),
        ensures
            final(frame)@ == self.painted(old(frame)@, tile.index as int, tile.pixels@),
    {
        let ghost start = frame@;
        let ghost t = tile.index as int;
        let ghost w = self.width as int;
        let r = self.tile_rect(tile.index);
        let side = self.side;
        let width = self.width;
        let area = tile.pixels.len();
        proof {
            self.lemma_rect(t);
            assert forall|p: int| 0 <= p < start.len() && self.tile_of(p) == t implies p / w >= r.min_y by {
                self.lemma_pixel_coords(p);
                self.lemma_tile_at(t, p % w, p / w);
            }
        }
        let mut y: usize = r.min_y;
        while y < r.max_y
            invariant
                self.wf(),
                t == tile.index,
                t < self.count(),
                w == width,
                width == self.width,
                side == self.side,
                area == tile.pixels@.len(),
                area == self.tile_area(),
                r == self.rect(t),
                r.min_y <= y <= r.max_y,
                frame@.len() == start.len(),
                start.len() == self.frame_len(),
                forall|p: int|
                    0 <= p < start.len() ==> #[trigger] frame@[p] == if self.tile_of(p) == t && p / w
                        < y {
                        tile.pixels@[self.local_of(p)]
                    } else {
                        start[p]
                    },
            decreases r.max_y - y,
        {
            proof {
                self.lemma_rect(t);
                assert forall|p: int| 0 <= p < start.len() && self.tile_of(p) == t && p / w == y implies p % w >= r.min_x by {
                    self.lemma_pixel_coords(p);
                    self.lemma_tile_at(t, p % w, p / w);
                }
            }
            let mut x: usize = r.min_x;
            while x < r.max_x
                invariant
                    self.wf(),
                    t == tile.index,
                    t < self.count(),
                    w == width,
                    width == self.width,
                    side == self.side,
                    area == tile.pixels@.len(),
                    area == self.tile_area(),
                    r == self.rect(t),
                    r.min_y <= y < r.max_y,
                    r.min_x <= x <= r.max_x,
                    frame@.len() == start.len(),
                    start.len() == self.frame_len(),
                    forall|p: int|
                        0 <= p < start.len() ==> #[trigger] frame@[p] == if self.tile_of(p) == t && (p
                            / w < y || (p / w == y && p % w < x)) {
                            tile.pixels@[self.local_of(p)]
                        } else {
                            start[p]
                        },
                decreases r.max_x - x,
            {
                proof {
                    self.lemma_rect(t);
                    self.lemma_pixel_index(x as int, y as int);
                    self.lemma_tile_at(t, x as int, y as int);
                }
                let q = y * width + x;
                let k = (y - r.min_y) * side + (x - r.min_x);
                let value = tile.pixels[k];
                frame.set(q, value);
                proof {
                    assert forall|p: int| 0 <= p < start.len() implies #[trigger] frame@[p] == if self.tile_of(p) == t && (p
                            / w < y || (p / w == y && p % w < x + 1)) {
                            tile.pixels@[self.local_of(p)]
                        } else {
                            start[p]
                        } by {
                        self.lemma_pixel_coords(p);
                    }
                }
                x = x + 1;
            }
            proof {
                assert forall|p: int| 0 <= p < start.len() implies #[trigger] frame@[p] == if self.tile_of(p) == t && p / w
                        < y + 1 {
                        tile.pixels@[self.local_of(p)]
                    } else {
                        start[p]
                    } by {
                    self.lemma_pixel_coords(p);
                    self.lemma_tile_at(t, p % w, p / w);
                }
            }
            y = y + 1;
        }
        proof {
            assert forall|p: int| 0 <= p < start.len() implies #[trigger] frame@[p] == self.painted(start, t, tile.pixels@)[p] by {
                self.lemma_pixel_coords(p);
                self.lemma_tile_at(t, p % w, p / w);
            }
            assert(frame@ =~= self.painted(start, t, tile.pixels@));
        }
    }

    /// Copies the buffers of finished tiles into the frame, in the order
    /// given.
    pub fn merge_tiles(&self, frame: &mut Vec<u32>, tiles: &Vec<Tile>)
        requires
            self.wf(),
            old(frame)@.len() == self.frame_len(),
            forall|i: int|
                0 <= i < tiles@.len() ==> {
                    &&& #[trigger] tiles@[i].index < self.count()
                    &&& tiles@[i].pixels@.len() == self.tile_area()
                },
        ensures
            final(frame)@ == self.merged(old(frame)@, tile_views(tiles@)),
    {
        let ghost start = frame@;
        let mut i: usize = 0;
        while i < tiles.len()
            invariant
                self.wf(),
                i <= tiles@.len(),
                frame@.len() == self.frame_len(),
                forall|j: int|
                    0 <= j < tiles@.len() ==> {
                        &&& #[trigger] tiles@[j].index < self.count()
                        &&& tiles@[j].pixels@.len() == self.tile_area()
                    },
                frame@ == self.merged(start, tile_views(tiles@.take(i as int))),
            decreases tiles@.len() - i,
        {
            self.merge_tile(frame, &tiles[i]);
            proof {
                assert(tile_views(tiles@.take(i + 1)).drop_last() =~= tile_views(tiles@.take(i as int)));
            }
            i = i + 1;
        }
        proof {
            assert(tiles@.take(i as int) =~= tiles@);
        }
    }

    /// Frame pixel `p` after tiles rendered by `render` are merged in the
    /// order `order`: it comes from its own tile if that tile is in the
    /// order, and is left as it was otherwise.
    pub proof fn lemma_merged_pixel(
        self,
        frame: Seq<u32>,
        order: Seq<int>,
        render: spec_fn(int) -> Seq<u32>,
        p: int,
    )
        requires
            0 <= p < frame.len(),
        ensures
            self.merged(frame, order.map_values(|t: int| (t, render(t)))).len() == frame.len(),
            self.merged(frame, order.map_values(|t: int| (t, render(t))))[p] == if order.contains(
                self.tile_of(p),
            ) {
                render(self.tile_of(p))[self.local_of(p)]
            } else {
                frame[p]
            },
        decreases order.len(),
    {
        let views = order.map_values(|t: int| (t, render(t)));
        if order.len() > 0 {
            let rest = order.drop_last();
            assert(views.drop_last() =~= rest.map_values(|t: int| (t, render(t))));
            self.lemma_merged_pixel(frame, rest, render, p);
            assert(order =~= rest.push(order.last()));
            if order.contains(self.tile_of(p)) && self.tile_of(p) != order.last() {
                let k = choose|k: int| 0 <= k < order.len() && order[k] == self.tile_of(p);
                assert(rest[k] == self.tile_of(p));
            }
        }
    }

    /// The order in which finished tiles are merged does not matter: two
    /// orders that hold the same tiles, each rendered by the same function of
    /// its number, give the same frame.
    pub proof fn lemma_merge_order_invariant(
        self,
        frame: Seq<u32>,
        a: Seq<int>,
        b: Seq<int>,
        render: spec_fn(int) -> Seq<u32>,
    )
        requires
            a.to_multiset() == b.to_multiset(),
        ensures
            self.merged(frame, a.map_values(|t: int| (t, render(t)))) == self.merged(
                frame,
                b.map_values(|t: int| (t, render(t))),
            ),
    {
        let ma = self.merged(frame, a.map_values(|t: int| (t, render(t))));
        let mb = self.merged(frame, b.map_values(|t: int| (t, render(t))));
        if frame.len() > 0 {
            self.lemma_merged_pixel(frame, a, render, 0);
            self.lemma_merged_pixel(frame, b, render, 0);
        } else {
            self.lemma_merged_len(frame, a.map_values(|t: int| (t, render(t))));
            self.lemma_merged_len(frame, b.map_values(|t: int| (t, render(t))));
        }
        assert forall|p: int| 0 <= p < frame.len() implies ma[p] == mb[p] by {
            self.lemma_merged_pixel(frame, a, render, p);
            self.lemma_merged_pixel(frame, b, render, p);
            let x = self.tile_of(p);
            vstd::seq_lib::to_multiset_contains(a, x);
            vstd::seq_lib::to_multiset_contains(b, x);
            assert(a.contains(x) == b.contains(x));
        }
        assert(ma =~= mb);
    }

    /// Once every tile has been merged, each frame pixel is its own tile's
    /// rendering of it, whatever the frame held before.
    pub proof fn lemma_merge_covers_frame(
        self,
        frame: Seq<u32>,
        order: Seq<int>,
        render: spec_fn(int) -> Seq<u32>,
        p: int,
    )
        requires
            self.wf(),
            frame.len() == self.frame_len(),
            0 <= p < frame.len(),
            forall|t: int| 0 <= t < self.count() ==> order.contains(t),
        ensures
            self.merged(frame, order.map_values(|t: int| (t, render(t))))[p] == render(
                self.tile_of(p),
            )[self.local_of(p)],
    {
        self.lemma_pixel_coords(p);
        self.lemma_count_bounds();
        let s = self.side as int;
        let w = self.width as int;
        let h = self.height as int;
        let cx = self.count_x() as int;
        let cy = self.count_y() as int;
        assert(cx >= 1 && cy >= 1) by (nonlinear_arith)
            requires
                w >= 1,
                h >= 1,
                cx * s >= w,
                cy * s >= h,
                cx >= 0,
                cy >= 0,
        ;
        assert(cx * cy >= 1) by (nonlinear_arith)
            requires
                cx >= 1,
                cy >= 1,
        ;
        self.lemma_tile_at(0, p % w, p / w);
        self.lemma_merged_pixel(frame, order, render, p);
    }

    proof fn lemma_merged_len(self, frame: Seq<u32>, tiles: Seq<(int, Seq<u32>)>)
        ensures
            self.merged(frame, tiles).len() == frame.len(),
        decreases tiles.len(),
    {
        if tiles.len() > 0 {
            self.lemma_merged_len(frame, tiles.drop_last());
        }
    }

    /// The rectangle of tile `t`.
    pub fn tile_rect(&self, t: usize) -> (r: TileRect)
        requires
            self.wf(),
            t < self.count(),
        ensures
            r == self.rect(t as int),
    {
        proof {
            self.lemma_rect(t as int);
        }
        let count_x = self.tiles_x();
        let min_x = (t % count_x) * self.side;
        let min_y = (t / count_x) * self.side;
        let max_x = if self.side <= self.width - min_x { min_x + self.side } else { self.width };
        let max_y = if self.side <= self.height - min_y { min_y + self.side } else { self.height };
        TileRect { min_x, min_y, max_x, max_y }
    }

    /// The order in which to render the tiles: every tile number exactly
    /// once, shuffled by `rng`.
    pub fn tile_order(&self, rng: &mut rand::XorShiftRng) -> (order: Vec<usize>)
        requires
            self.wf(),
        ensures
            order@.len() == self.count(),
            order@.to_multiset() == all_tiles(self.count()).to_multiset(),
    {
        let count = self.tile_count();
        let mut order: Vec<usize> = Vec::with_capacity(count);
        let mut i: usize = 0;
        while i < count
            invariant
                i <= count,
                order@ == all_tiles(i as nat),
            decreases count - i,
        {
            order.push(i);
            i = i + 1;
            assert(order@ =~= all_tiles(i as nat));
        }
        let ghost before = order@;
        shuffle(rng, &mut order);
        proof {
            before.to_multiset_ensures();
            order@.to_multiset_ensures();
        }
        order
    }

    /// Number of tiles.
    pub fn tile_count(&self) -> (n: usize)
        requires
            self.wf(),
        ensures
            n == self.count(),
    {
        proof {
            self.lemma_count_bounds();
        }
        self.tiles_x() * self.tiles_y()
    }
}

} // verus!
