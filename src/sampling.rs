//! Which jittered samples a tile takes, and how their colours become the
//! tile's buffer.
use vstd::prelude::*;
use vstd::arithmetic::div_mod::lemma_fundamental_div_mod_converse;
use crate::pixel::{Rgb, averaged, average_pixel};
use crate::tiles::{Tile, TileGrid};

verus! {

/// One sample of a pixel: the pixel's column and row, and the two entries
/// of the shared pool of random offsets that jitter it horizontally and
/// vertically.
pub struct Sample {
    pub x: usize,
    pub y: usize,
    pub jitter_x: usize,
    pub jitter_y: usize,
}

impl TileGrid {
    /// Width of tile `t` after clipping.
    pub open spec fn tile_width(self, t: int) -> int {
        self.rect(t).max_x - self.rect(t).min_x
    }

    /// Height of tile `t` after clipping.
    pub open spec fn tile_height(self, t: int) -> int {
        self.rect(t).max_y - self.rect(t).min_y
    }

    /// Sample `i` of tile `t`, with `n` samples per pixel and a pool of
    /// `pool` offsets: the pixels are taken row by row, `n` samples each,
    /// and sample `i` reads the pool at `2i` and `2i + 1`, wrapping around.
    pub open spec fn sample_at(self, t: int, n: int, pool: int, i: int) -> Sample {
        let j = i / n;
        Sample {
            x: (self.rect(t).min_x + j % self.tile_width(t)) as usize,
            y: (self.rect(t).min_y + j / self.tile_width(t)) as usize,
            jitter_x: ((2 * i) % pool) as usize,
            jitter_y: ((2 * i + 1) % pool) as usize,
        }
    }

    /// Entry `l` of the buffer of tile `t`, given the colours of its samples
    /// in the order of its plan with `n` samples per pixel: a position in
    /// the clipped tile holds the average of its pixel's samples, any other
    /// position holds 0.
    pub open spec fn resolved_at(self, t: int, n: int, colors: Seq<Rgb>, l: int) -> u32 {
        let lx = l % self.side as int;
        let ly = l / self.side as int;
        let j = ly * self.tile_width(t) + lx;
        if ly < self.tile_height(t) && lx < self.tile_width(t) {
            averaged(colors.subrange(j * n, j * n + n)) as u32
        } else {
            0
        }
    }

    /// The finished tile `t`, from the colours of its samples in the order
    /// of `sample_plan`, `n` per pixel. Each pixel is the truncated average
    /// of its samples; the part of the buffer outside the frame stays 0.
    pub fn resolve_tile(&self, t: usize, n: u32, colors: &Vec<Rgb>) -> (tile: Tile)
        requires
            self.wf(),
            t < self.count(),
            n > 0,
            colors@.len() == self.tile_width(t as int) * self.tile_height(t as int) * n,
        ensures
            tile.index == t,
            tile.pixels@.len() == self.tile_area(),
            forall|l: int|
                0 <= l < self.tile_area() ==> #[trigger] tile.pixels@[l] == self.resolved_at(
                    t as int,
                    n as int,
                    colors@,
                    l,
                ),
    {
        proof {
            self.lemma_rect(t as int);
        }
        let r = self.tile_rect(t);
        let tw = r.max_x - r.min_x;
        let th = r.max_y - r.min_y;
        let side = self.side;
        let len = colors.len();
        let nn = n as usize;
        let mut pixels: Vec<u32> = Vec::new();
        let mut ly: usize = 0;
        while ly < side
            invariant
                self.wf(),
                t < self.count(),
                r == self.rect(t as int),
                tw == self.tile_width(t as int),
                th == self.tile_height(t as int),
                tw <= side,
                side == self.side,
                nn == n,
                n > 0,
                len == colors@.len(),
                len == tw * th * n,
                ly <= side,
                pixels@.len() == ly * side,
                forall|l: int|
                    0 <= l < pixels@.len() ==> #[trigger] pixels@[l] == self.resolved_at(
                        t as int,
                        n as int,
                        colors@,
                        l,
                    ),
            decreases side - ly,
        {
            let mut lx: usize = 0;
            while lx < side
                invariant
                    self.wf(),
                    t < self.count(),
                    r == self.rect(t as int),
                    tw == self.tile_width(t as int),
                    th == self.tile_height(t as int),
                    tw <= side,
                    side == self.side,
                    nn == n,
                    n > 0,
                    len == colors@.len(),
                    len == tw * th * n,
                    ly < side,
                    lx <= side,
                    pixels@.len() == ly * side + lx,
                    forall|l: int|
                        0 <= l < pixels@.len() ==> #[trigger] pixels@[l] == self.resolved_at(
                            t as int,
                            n as int,
                            colors@,
                            l,
                        ),
                decreases side - lx,
            {
                proof {
                    assert(ly * side + lx < side * side) by (nonlinear_arith)
                        requires
                            ly < side,
                            lx < side,
                    ;
                    lemma_fundamental_div_mod_converse(
                        ly * side + lx,
                        side as int,
                        ly as int,
                        lx as int,
                    );
                }
                let value = if ly < th && lx < tw {
                    proof {
                        let j = ly * tw + lx;
                        assert(0 <= ly * tw && ly * tw + lx < tw * th && (j + 1) * n <= tw * th * n && j * n + n == (j + 1) * n
                            && tw * th <= tw * th * n) by (nonlinear_arith)
                            requires
                                j == ly * tw + lx,
                                ly < th,
                                lx < tw,
                                n > 0,
                        ;
                    }
                    let j = ly * tw + lx;
                    average_pixel(colors, j * nn, n)
                } else {
                    0
                };
                pixels.push(value);
                lx = lx + 1;
            }
            assert(ly * side + side == (ly + 1) * side) by (nonlinear_arith);
            ly = ly + 1;
        }
        Tile { index: t, pixels }
    }

    /// Every sample that tile `t` takes, `n` per pixel, in order.
    pub fn sample_plan(&self, t: usize, n: u32, pool: usize) -> (plan: Vec<Sample>)
        requires
            self.wf(),
            t < self.count(),
            n > 0,
            pool > 0,
            self.tile_width(t as int) * self.tile_height(t as int) * n <= usize::MAX,
        ensures
            plan@.len() == self.tile_width(t as int) * self.tile_height(t as int) * n,
            forall|i: int|
                0 <= i < plan@.len() ==> #[trigger] plan@[i] == self.sample_at(
                    t as int,
                    n as int,
                    pool as int,
                    i,
                ),
    {
        proof {
            self.lemma_rect(t as int);
        }
        let r = self.tile_rect(t);
        let tw = r.max_x - r.min_x;
        let th = r.max_y - r.min_y;
        let n = n as usize;
        assert(tw * th <= tw * th * n) by (nonlinear_arith)
            requires
                tw * th >= 0,
                n >= 1,
        ;
        let total = tw * th * n;
        proof {
            vstd::arithmetic::div_mod::lemma_small_mod(0, pool as nat);
        }
        let mut plan: Vec<Sample> = Vec::new();
        let mut cursor: usize = 0;
        let mut i: usize = 0;
        while i < total
            invariant
                self.wf(),
                t < self.count(),
                r == self.rect(t as int),
                tw == self.tile_width(t as int),
                th == self.tile_height(t as int),
                tw > 0,
                th > 0,
                n > 0,
                pool > 0,
                r.max_x <= self.width,
                r.max_y <= self.height,
                total == tw * th * n,
                i <= total,
                plan@.len() == i,
                cursor == (2 * i) % (pool as int),
                forall|k: int|
                    0 <= k < i ==> #[trigger] plan@[k] == self.sample_at(
                        t as int,
                        n as int,
                        pool as int,
                        k,
                    ),
            decreases total - i,
        {
            let j = i / n;
            proof {
                assert(j / tw < th) by (nonlinear_arith)
                    requires
                        i < tw * th * n,
                        j == i / n,
                        n > 0,
                        tw > 0,
                ;
                assert(j % tw < tw) by (nonlinear_arith)
                    requires
                        tw > 0,
                ;
            }
            let sample = Sample {
                x: r.min_x + j % tw,
                y: r.min_y + j / tw,
                jitter_x: cursor,
                jitter_y: (cursor + 1) % pool,
            };
            proof {
                vstd::arithmetic::div_mod::lemma_add_mod_noop_right(1, 2 * i as int, pool as int);
                vstd::arithmetic::div_mod::lemma_add_mod_noop_right(2, 2 * i as int, pool as int);
            }
            plan.push(sample);
            cursor = if pool - cursor > 2 {
                proof {
                    vstd::arithmetic::div_mod::lemma_small_mod((cursor + 2) as nat, pool as nat);
                }
                cursor + 2
            } else {
                proof {
                    vstd::arithmetic::div_mod::lemma_mod_add_multiples_vanish(
                        cursor + 2 - pool,
                        pool as int,
                    );
                }
                (2 - (pool - cursor)) % pool
            };
            i = i + 1;
        }
        plan
    }
}

} // verus!
