//! The supersampled accumulation grid: cell storage with direct indexed
//! access, and the in-place resolution reduction that collapses every
//! `resolution x resolution` block of cells into one output pixel.

use vstd::arithmetic::div_mod::lemma_fundamental_div_mod_converse;
use vstd::prelude::*;

verus! {

/// One accumulation cell of the chaos-game sampler: a hit count and the
/// blended color, kept wide enough to survive the summation of a whole
/// block during resolution reduction.
pub type CountCell = (u32, (u32, u32, u32));

/// How raw accumulated frequencies are turned into a bounded tone value
/// once the grid has been reduced: divide by the maximum, or take the
/// ratio of base-2 logarithms.
#[derive(Clone, Copy, PartialEq, Eq, Structural, Debug)]
pub enum FrequencyAggregationType {
    Linear,
    Logarithmic,
}

/// A dense grid of `width * resolution` by `height * resolution` cells,
/// stored row-major: cell `(x, y)` lives at `x + width * resolution * y`.
///
/// The cell type is left to the generator family; the grid owns the
/// storage, the indexing and the reduction layout.
pub struct Histogram<C> {
    pub width: usize,
    pub height: usize,
    pub resolution: usize,
    pub data: Vec<C>,
}

impl<C: Copy> Histogram<C> {
    /// The storage matches the supersampled dimensions.
    pub open spec fn wf(self) -> bool {
        self.data.len() == self.width * self.height * self.resolution * self.resolution
    }

    pub open spec fn cell_index(self, x: int, y: int) -> int {
        x + self.width * self.resolution * y
    }

    /// A fresh grid with every cell set to `empty`.
    pub fn new(width: usize, height: usize, resolution: usize, empty: C) -> (h: Histogram<C>)
        requires
            width * height <= usize::MAX,
            width * height * resolution <= usize::MAX,
            width * height * resolution * resolution <= usize::MAX,
        ensures
            h.wf(),
            h.width == width,
            h.height == height,
            h.resolution == resolution,
            forall|i: int| 0 <= i < h.data.len() ==> h.data[i] == empty,
    {
        let n = width * height * resolution * resolution;
        let mut data: Vec<C> = Vec::new();
        let mut i: usize = 0;
        while i < n
            invariant
                i <= n,
                data.len() == i,
                forall|j: int| 0 <= j < i ==> data[j] == empty,
            decreases n - i,
        {
            data.push(empty);
            i = i + 1;
        }
        Histogram { width, height, resolution, data }
    }

    /// Direct read of the supersampled cell `(x, y)`. Out-of-range access is
    /// a contract violation, not a recoverable condition.
    pub fn get_cell(&self, x: usize, y: usize) -> (c: C)
        requires
            self.wf(),
            x < self.width * self.resolution,
            y < self.height * self.resolution,
        ensures
            c == self.data[self.cell_index(x as int, y as int)],
    {
        // A Vec's length is a usize, so once the index is bounded by the
        // length the arithmetic below cannot overflow.
        let _n = self.data.len();
        proof {
            lemma_cell_index_in_range(
                self.width as int,
                self.height as int,
                self.resolution as int,
                x as int,
                y as int,
            );
        }
        let idx = x + self.width * self.resolution * y;
        self.data[idx]
    }

    /// Direct write of the supersampled cell `(x, y)`; every other cell is
    /// untouched.
    pub fn set_cell(&mut self, x: usize, y: usize, cell: C)
        requires
            old(self).wf(),
            x < old(self).width * old(self).resolution,
            y < old(self).height * old(self).resolution,
        ensures
            final(self).wf(),
            final(self).width == old(self).width,
            final(self).height == old(self).height,
            final(self).resolution == old(self).resolution,
            final(self).data@ == old(self).data@.update(
                old(self).cell_index(x as int, y as int),
                cell,
            ),
    {
        // As in `get_cell`, the length bound rules out index overflow.
        let _n = self.data.len();
        proof {
            lemma_cell_index_in_range(
                self.width as int,
                self.height as int,
                self.resolution as int,
                x as int,
                y as int,
            );
        }
        let idx = x + self.width * self.resolution * y;
        self.data.set(idx, cell);
    }
}

/// Componentwise sum of a sequence of accumulation cells.
pub open spec fn cell_sum(s: Seq<CountCell>) -> (int, (int, int, int))
    decreases s.len(),
{
    if s.len() == 0 {
        (0, (0, 0, 0))
    } else {
        let p = cell_sum(s.drop_last());
        let c = s.last();
        (p.0 + c.0, ((p.1).0 + (c.1).0, (p.1).1 + (c.1).1, (p.1).2 + (c.1).2))
    }
}

/// The `resolution * resolution` supersampled cells that the resolution
/// reduction collapses into output pixel `(px, py)`, in row-major scan
/// order of the block.
pub open spec fn block_cells(
    data: Seq<CountCell>,
    width: int,
    resolution: int,
    px: int,
    py: int,
) -> Seq<CountCell> {
    Seq::new(
        (resolution * resolution) as nat,
        |k: int|
            data[(px * resolution + k % resolution) + width * resolution * (py * resolution + k
                / resolution)],
    )
}

/// Extending a prefix of `s` by one cell adds that cell to the sum.
proof fn lemma_cell_sum_take_succ(s: Seq<CountCell>, k: int)
    requires
        0 <= k < s.len(),
    ensures
        cell_sum(s.take(k + 1)).0 == cell_sum(s.take(k)).0 + s[k].0,
        (cell_sum(s.take(k + 1)).1).0 == (cell_sum(s.take(k)).1).0 + (s[k].1).0,
        (cell_sum(s.take(k + 1)).1).1 == (cell_sum(s.take(k)).1).1 + (s[k].1).1,
        (cell_sum(s.take(k + 1)).1).2 == (cell_sum(s.take(k)).1).2 + (s[k].1).2,
{
    assert(s.take(k + 1).drop_last() =~= s.take(k));
    assert(s.take(k + 1).last() == s[k]);
}

/// Every cell component is a `u32`, so the sums never go negative.
proof fn lemma_cell_sum_nonneg(s: Seq<CountCell>)
    ensures
        cell_sum(s).0 >= 0,
        (cell_sum(s).1).0 >= 0,
        (cell_sum(s).1).1 >= 0,
        (cell_sum(s).1).2 >= 0,
    decreases s.len(),
{
    if s.len() > 0 {
        lemma_cell_sum_nonneg(s.drop_last());
    }
}

/// A prefix sum never exceeds the sum of the whole sequence.
proof fn lemma_cell_sum_take_le(s: Seq<CountCell>, k: int)
    requires
        0 <= k <= s.len(),
    ensures
        cell_sum(s.take(k)).0 <= cell_sum(s).0,
        (cell_sum(s.take(k)).1).0 <= (cell_sum(s).1).0,
        (cell_sum(s.take(k)).1).1 <= (cell_sum(s).1).1,
        (cell_sum(s.take(k)).1).2 <= (cell_sum(s).1).2,
    decreases s.len() - k,
{
    if k == s.len() {
        assert(s.take(k) =~= s);
    } else {
        lemma_cell_sum_take_succ(s, k);
        lemma_cell_sum_take_le(s, k + 1);
    }
}

impl Histogram<CountCell> {
    /// The componentwise sum of the cells that feed output pixel `(px, py)`.
    pub open spec fn block_sum(self, px: int, py: int) -> (int, (int, int, int)) {
        cell_sum(block_cells(self.data@, self.width as int, self.resolution as int, px, py))
    }

    /// Every block sum fits in the cell type, so the reduction cannot
    /// overflow.
    pub open spec fn blocks_fit(self) -> bool {
        forall|px: int, py: int|
            0 <= px < self.width && 0 <= py < self.height ==> {
                let s = #[trigger] self.block_sum(px, py);
                s.0 <= u32::MAX && (s.1).0 <= u32::MAX && (s.1).1 <= u32::MAX && (s.1).2
                    <= u32::MAX
            }
    }

    /// Collapse the supersampled grid in place: every `resolution x
    /// resolution` block of cells is summed (frequency and color alike) into
    /// the output pixel under it, and the resolution becomes 1. Returns the
    /// maximum accumulated frequency, with which the caller normalizes the
    /// frequencies into tone values under one of the
    /// `FrequencyAggregationType` rules; on an empty or all-zero grid the
    /// maximum is 0 and the caller must leave the frequencies untouched
    /// rather than divide by it.
    ///
    /// Run once per histogram before rendering. On a grid whose resolution
    /// already is 1 each block is a single cell, so a second run leaves the
    /// data unchanged (see `lemma_unit_resolution_reduce_is_identity`).
    pub fn reduce_resolution(&mut self) -> (max_freq: u32)
        requires
            old(self).wf(),
            old(self).width * old(self).height <= usize::MAX,
            old(self).blocks_fit(),
        ensures
            final(self).wf(),
            final(self).width == old(self).width,
            final(self).height == old(self).height,
            final(self).resolution == 1,
            final(self).data@.len() == old(self).width * old(self).height,
            forall|px: int, py: int|
                0 <= px < old(self).width && 0 <= py < old(self).height ==> {
                    let s = #[trigger] old(self).block_sum(px, py);
                    let c = final(self).data@[px + py * old(self).width];
                    c.0 == s.0 && (c.1).0 == (s.1).0 && (c.1).1 == (s.1).1 && (c.1).2 == (s.1).2
                },
            forall|i: int| 0 <= i < final(self).data@.len() ==> final(self).data@[i].0 <= max_freq,
            max_freq == 0 || exists|i: int|
                0 <= i < final(self).data@.len() && final(self).data@[i].0 == max_freq,
    {
        let w = self.width;
        let h = self.height;
        let r = self.resolution;
        let ghost orig = *self;
        let mut out: Vec<CountCell> = Vec::new();
        let mut max_freq: u32 = 0;
        let mut py: usize = 0;
        while py < h
            invariant
                py <= h,
                w == orig.width && h == orig.height && r == orig.resolution,
                *self == orig,
                orig.wf(),
                orig.blocks_fit(),
                w * h <= usize::MAX,
                out.len() == py * w,
                forall|qx: int, qy: int|
                    0 <= qx < w && 0 <= qy < py ==> {
                        let s = #[trigger] orig.block_sum(qx, qy);
                        let c = out[qx + qy * w];
                        c.0 == s.0 && (c.1).0 == (s.1).0 && (c.1).1 == (s.1).1 && (c.1).2 == (
                        s.1).2
                    },
                forall|i: int| 0 <= i < out.len() ==> out[i].0 <= max_freq,
                max_freq == 0 || exists|i: int| 0 <= i < out.len() && out[i].0 == max_freq,
            decreases h - py,
        {
            let mut px: usize = 0;
            proof {
                assert(py * w + w <= h * w && h * w == w * h) by (nonlinear_arith)
                    requires
                        py < h,
                ;
            }
            while px < w
                invariant
                    px <= w,
                    py < h,
                    w == orig.width && h == orig.height && r == orig.resolution,
                    *self == orig,
                    orig.wf(),
                    orig.blocks_fit(),
                    w * h <= usize::MAX,
                    py * w + w <= w * h,
                    out.len() == py * w + px,
                    forall|qx: int, qy: int|
                        (0 <= qx < w && 0 <= qy < py) || (0 <= qx < px && qy == py) ==> {
                            let s = #[trigger] orig.block_sum(qx, qy);
                            let c = out[qx + qy * w];
                            c.0 == s.0 && (c.1).0 == (s.1).0 && (c.1).1 == (s.1).1 && (c.1).2 == (
                            s.1).2
                        },
                    forall|i: int| 0 <= i < out.len() ==> out[i].0 <= max_freq,
                    max_freq == 0 || exists|i: int| 0 <= i < out.len() && out[i].0 == max_freq,
                decreases w - px,
            {
                let ghost block = block_cells(orig.data@, w as int, r as int, px as int, py as int);
                proof {
                    lemma_cell_sum_nonneg(block);
                }
                let mut fs: u32 = 0;
                let mut rs: u32 = 0;
                let mut gs: u32 = 0;
                let mut bs: u32 = 0;
                let mut v: usize = 0;
                while v < r
                    invariant
                        v <= r,
                        px < w && py < h,
                        w == orig.width && h == orig.height && r == orig.resolution,
                        *self == orig,
                        orig.wf(),
                        orig.blocks_fit(),
                        block == block_cells(orig.data@, w as int, r as int, px as int, py as int),
                        fs == cell_sum(block.take(v * r)).0,
                        rs == (cell_sum(block.take(v * r)).1).0,
                        gs == (cell_sum(block.take(v * r)).1).1,
                        bs == (cell_sum(block.take(v * r)).1).2,
                    decreases r - v,
                {
                    let mut u: usize = 0;
                    proof {
                        assert(v * r + r <= r * r && (v + 1) * r == v * r + r) by (nonlinear_arith)
                            requires
                                v < r,
                        ;
                    }
                    while u < r
                        invariant
                            u <= r,
                            v < r,
                            px < w && py < h,
                            w == orig.width && h == orig.height && r == orig.resolution,
                            *self == orig,
                            orig.wf(),
                            orig.blocks_fit(),
                            block == block_cells(
                                orig.data@,
                                w as int,
                                r as int,
                                px as int,
                                py as int,
                            ),
                            v * r + r <= r * r,
                            fs == cell_sum(block.take(v * r + u)).0,
                            rs == (cell_sum(block.take(v * r + u)).1).0,
                            gs == (cell_sum(block.take(v * r + u)).1).1,
                            bs == (cell_sum(block.take(v * r + u)).1).2,
                        decreases r - u,
                    {
                        proof {
                            assert(px * r + u < w * r && py * r + v < h * r) by (nonlinear_arith)
                                requires
                                    px < w && py < h && u < r && v < r,
                            ;
                            assert(w * r <= w * h * r * r && px * r <= w * r && h * r <= w * h * r
                                * r && py * r <= h * r) by (nonlinear_arith)
                                requires
                                    px < w && py < h && u < r && v < r,
                            ;
                        }
                        let x = px * r + u;
                        let y = py * r + v;
                        let c = self.get_cell(x, y);
                        proof {
                            let k = (v * r + u) as int;
                            lemma_fundamental_div_mod_converse(k, r as int, v as int, u as int);
                            assert(block[k] == c);
                            lemma_cell_sum_take_succ(block, k);
                            lemma_cell_sum_take_le(block, k + 1);
                            lemma_cell_sum_nonneg(block.take(k + 1));
                            assert(orig.block_sum(px as int, py as int) == cell_sum(block));
                        }
                        fs = fs + c.0;
                        rs = rs + (c.1).0;
                        gs = gs + (c.1).1;
                        bs = bs + (c.1).2;
                        u = u + 1;
                    }
                    v = v + 1;
                    proof {
                        assert(v * r == (v - 1) * r + r) by (nonlinear_arith);
                    }
                }
                proof {
                    assert(block.take((r * r) as int) =~= block);
                    assert(v * r == r * r) by (nonlinear_arith)
                        requires
                            v == r,
                    ;
                }
                if max_freq < fs {
                    max_freq = fs;
                }
                let ghost prev = out@;
                out.push((fs, (rs, gs, bs)));
                proof {
                    assert forall|qx: int, qy: int|
                        (0 <= qx < w && 0 <= qy < py) || (0 <= qx < px + 1 && qy == py) implies {
                        let s = #[trigger] orig.block_sum(qx, qy);
                        let c = out@[qx + qy * w];
                        c.0 == s.0 && (c.1).0 == (s.1).0 && (c.1).1 == (s.1).1 && (c.1).2 == (
                        s.1).2
                    } by {
                        if qy == py && qx == px {
                            assert(out@[qx + qy * w] == (fs, (rs, gs, bs)));
                        } else {
                            assert(qx + qy * w < py * w + px) by (nonlinear_arith)
                                requires
                                    0 <= qx < w && ((0 <= qy < py) || (qy == py && 0 <= qx < px)),
                            ;
                            assert(out@[qx + qy * w] == prev[qx + qy * w]);
                        }
                    }
                    assert(out@[(py * w + px) as int] == (fs, (rs, gs, bs)));
                    if max_freq != 0 {
                        if fs == max_freq {
                            assert(out@[(py * w + px) as int].0 == max_freq);
                        } else {
                            let i0 = choose|i: int| 0 <= i < prev.len() && prev[i].0 == max_freq;
                            assert(out@[i0].0 == max_freq);
                        }
                    }
                }
                px = px + 1;
            }
            py = py + 1;
            proof {
                assert(py * w == (py - 1) * w + w) by (nonlinear_arith);
            }
        }
        proof {
            assert(out.len() == w * h) by (nonlinear_arith)
                requires
                    out.len() == py * w,
                    py == h,
            ;
        }
        self.data = out;
        self.resolution = 1;
        proof {
            assert(self.wf()) by (nonlinear_arith)
                requires
                    self.data.len() == self.width * self.height,
                    self.resolution == 1,
            ;
        }
        max_freq
    }
}

/// The cell that a splat leaves behind: the hit count one higher, and the
/// color an exponential blend that weights the newest hit at 50%. A hit on
/// a never-hit cell records its color directly, so that two hits on an
/// empty cell leave the mean of their two colors; every further hit halves
/// the influence of all earlier ones.
pub open spec fn splat_cell(c: CountCell, color: (u32, u32, u32)) -> CountCell {
    if c.0 == 0 {
        (1u32, color)
    } else {
        (
            (c.0 + 1) as u32,
            (
                ((((c.1).0 + color.0) as u32) / 2) as u32,
                ((((c.1).1 + color.1) as u32) / 2) as u32,
                ((((c.1).2 + color.2) as u32) / 2) as u32,
            ),
        )
    }
}

/// Two successive splats into a never-hit cell leave a hit count of two
/// and exactly the mean of the two colors: the exponential blend starts
/// from the first recorded color, not from the empty cell's zero. From the
/// third hit on it is no arithmetic mean any more — each new hit keeps a
/// 50% share and the earlier ones decay geometrically.
pub proof fn lemma_double_splat_blends_mean(c1: (u32, u32, u32), c2: (u32, u32, u32))
    requires
        c1.0 + c2.0 <= u32::MAX,
        c1.1 + c2.1 <= u32::MAX,
        c1.2 + c2.2 <= u32::MAX,
    ensures
        splat_cell(splat_cell((0u32, (0u32, 0u32, 0u32)), c1), c2) == (2u32, (
            (((c1.0 + c2.0) as u32) / 2) as u32,
            (((c1.1 + c2.1) as u32) / 2) as u32,
            (((c1.2 + c2.2) as u32) / 2) as u32,
        )),
{
}

impl Histogram<CountCell> {
    /// Splat one chaos-game sample into the supersampled cell `(x, y)`;
    /// see `splat_cell` for the frequency increment and the color blend.
    pub fn add_point(&mut self, x: usize, y: usize, color: (u32, u32, u32))
        requires
            old(self).wf(),
            x < old(self).width * old(self).resolution,
            y < old(self).height * old(self).resolution,
            old(self).data@[old(self).cell_index(x as int, y as int)].0 < u32::MAX,
            (old(self).data@[old(self).cell_index(x as int, y as int)].1).0 + color.0 <= u32::MAX,
            (old(self).data@[old(self).cell_index(x as int, y as int)].1).1 + color.1 <= u32::MAX,
            (old(self).data@[old(self).cell_index(x as int, y as int)].1).2 + color.2 <= u32::MAX,
        ensures
            final(self).wf(),
            final(self).width == old(self).width,
            final(self).height == old(self).height,
            final(self).resolution == old(self).resolution,
            final(self).data@ == old(self).data@.update(
                old(self).cell_index(x as int, y as int),
                splat_cell(old(self).data@[old(self).cell_index(x as int, y as int)], color),
            ),
    {
        let cell = self.get_cell(x, y);
        let updated: CountCell = if cell.0 == 0 {
            (1, color)
        } else {
            (
                cell.0 + 1,
                (
                    ((cell.1).0 + color.0) / 2,
                    ((cell.1).1 + color.1) / 2,
                    ((cell.1).2 + color.2) / 2,
                ),
            )
        };
        self.set_cell(x, y, updated);
    }
}

/// At resolution 1 a block of the reduction is exactly the one cell it
/// covers.
proof fn lemma_unit_block_is_single_cell(data: Seq<CountCell>, width: int, px: int, py: int)
    requires
        0 <= px < width,
        0 <= py,
        px + py * width < data.len(),
    ensures
        cell_sum(block_cells(data, width, 1, px, py)) == ((data[px + py * width].0 as int), (
        ((data[px + py * width].1).0 as int),
        ((data[px + py * width].1).1 as int),
        ((data[px + py * width].1).2 as int),
        )),
{
    let block = block_cells(data, width, 1, px, py);
    let c = data[px + py * width];
    assert(block[0] == data[(px * 1 + 0int % 1) + width * 1 * (py * 1 + 0int / 1)]);
    assert((px * 1 + 0int % 1) + width * 1 * (py * 1 + 0int / 1) == px + py * width)
        by (nonlinear_arith);
    assert(block.drop_last() =~= Seq::<CountCell>::empty());
    assert(block.last() == block[0]);
    assert(cell_sum(block).0 == cell_sum(block.drop_last()).0 + c.0);
    assert(cell_sum(block).0 == c.0);
    assert((cell_sum(block).1).0 == (c.1).0);
    assert((cell_sum(block).1).1 == (c.1).1);
    assert((cell_sum(block).1).2 == (c.1).2);
}

/// A histogram is reduced at most once: on a grid whose resolution already
/// is 1, every block sum of a further reduction is exactly the cell under
/// it, so by `reduce_resolution`'s contract a second reduction writes back
/// the very frequencies and colors it found.
pub proof fn lemma_reduce_of_reduced_is_identity(h: Histogram<CountCell>)
    requires
        h.wf(),
        h.resolution == 1,
    ensures
        forall|px: int, py: int|
            0 <= px < h.width && 0 <= py < h.height ==> #[trigger] h.block_sum(px, py) == (
            (h.data@[px + py * h.width].0 as int),
            (
                ((h.data@[px + py * h.width].1).0 as int),
                ((h.data@[px + py * h.width].1).1 as int),
                ((h.data@[px + py * h.width].1).2 as int),
            ),
            ),
{
    assert forall|px: int, py: int| 0 <= px < h.width && 0 <= py < h.height implies #[trigger] h
        .block_sum(px, py) == ((h.data@[px + py * h.width].0 as int), (
    ((h.data@[px + py * h.width].1).0 as int),
    ((h.data@[px + py * h.width].1).1 as int),
    ((h.data@[px + py * h.width].1).2 as int),
    )) by {
        assert(px + py * h.width < h.data@.len()) by (nonlinear_arith)
            requires
                0 <= px < h.width,
                0 <= py < h.height,
                h.data@.len() == h.width * h.height * h.resolution * h.resolution,
                h.resolution == 1,
        ;
        lemma_unit_block_is_single_cell(h.data@, h.width as int, px, py);
    }
}

/// The row-major cell index of an in-range supersampled coordinate lands
/// inside the grid's storage.
proof fn lemma_cell_index_in_range(w: int, h: int, r: int, x: int, y: int)
    requires
        0 <= x < w * r,
        0 <= y < h * r,
    ensures
        0 <= x + w * r * y < w * h * r * r,
        w * r <= w * h * r * r,
        0 <= w * r * y <= x + w * r * y,
{
    assert(x + w * r * y < w * h * r * r && w * r <= w * h * r * r && 0 <= w * r * y)
        by (nonlinear_arith)
        requires
            0 <= x < w * r,
            0 <= y < h * r,
    ;
}

} // verus!
