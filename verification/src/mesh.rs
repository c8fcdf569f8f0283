//! The density mesh: a width-by-height grid accumulating point weights in
//! two channels (baseline and highlighted), a last-write-wins row index per
//! cell for hit-testing, post-processed copies of the channels, and an RGBA
//! output buffer.

use vstd::prelude::*;
use crate::fixed::{SCALE, VAL_MAX, divt, fits_val, lemma_divt_shrinks, spec_clamp01};
use crate::transform::{seq_max, lemma_min_max};

verus! {

/// Half of one whole unit.
pub const HALF: i64 = 500_000;

/// Largest total accumulated mass a mesh admits.
pub const MASS_CAP: i64 = 1_000_000_000_000_000_000;

/// Largest admitted cell count: keeps the four-byte-per-cell output buffer,
/// and every row-major index computation over it, within the machine range
/// even where `usize` is 32 bits wide.
pub const CELLS_MAX: usize = 16_777_216;

/// How the two channels are rendered.
#[derive(Debug, Clone, Copy, PartialEq, Eq, Structural)]
pub enum HighlightType {
    /// Both channels, distinctly.
    Highlight,
    /// Both channels summed into the baseline, no distinction.
    NoHighlight,
    /// The highlighted channel alone.
    HighlighedOnly,
    /// The baseline channel alone.
    NonHighlightedOnly,
}

/// Sum of a sequence of cells.
pub open spec fn sum_seq(s: Seq<i64>) -> int
    decreases s.len(),
{
    if s.len() == 0 {
        0
    } else {
        sum_seq(s.drop_last()) + s.last()
    }
}

/// Every cell of a nonnegative sequence is bounded by the sum.
pub proof fn lemma_sum_bounds(s: Seq<i64>)
    requires
        forall|k: int| 0 <= k < s.len() ==> #[trigger] s[k] >= 0,
    ensures
        sum_seq(s) >= 0,
        forall|k: int| 0 <= k < s.len() ==> #[trigger] s[k] <= sum_seq(s),
    decreases s.len(),
{
    if s.len() > 0 {
        let t = s.drop_last();
        assert(forall|k: int| 0 <= k < t.len() ==> #[trigger] t[k] == s[k]);
        lemma_sum_bounds(t);
        assert(s[s.len() - 1] == s.last());
        assert forall|k: int| 0 <= k < s.len() implies #[trigger] s[k] <= sum_seq(s) by {
            if k < s.len() - 1 {
                assert(t[k] <= sum_seq(t));
            }
        };
    }
}

/// Replacing one cell changes the sum by the difference.
pub proof fn lemma_sum_update(s: Seq<i64>, k: int, v: i64)
    requires
        0 <= k < s.len(),
    ensures
        sum_seq(s.update(k, v)) == sum_seq(s) - s[k] + v,
    decreases s.len(),
{
    let u = s.update(k, v);
    if k == s.len() - 1 {
        assert(u.drop_last() =~= s.drop_last());
        assert(u.last() == v);
        assert(s.last() == s[k]);
    } else {
        assert(u.drop_last() =~= s.drop_last().update(k, v));
        assert(u.last() == s.last());
        lemma_sum_update(s.drop_last(), k, v);
        assert(s.drop_last()[k] == s[k]);
    }
}

/// A sequence of `n` zero cells sums to zero.
pub proof fn lemma_sum_zeros(s: Seq<i64>)
    requires
        forall|k: int| 0 <= k < s.len() ==> #[trigger] s[k] == 0,
    ensures
        sum_seq(s) == 0,
    decreases s.len(),
{
    if s.len() > 0 {
        let t = s.drop_last();
        assert(forall|k: int| 0 <= k < t.len() ==> #[trigger] t[k] == s[k]);
        lemma_sum_zeros(t);
    }
}

/// The cell a point lands in, from the grid geometry alone: linear scaling of
/// the bounded coordinates, dropping points left of or below the bounds,
/// degenerate bounds, and cells outside the grid.
pub open spec fn spec_cell(
    xmin: int,
    xmax: int,
    ymin: int,
    ymax: int,
    w: int,
    h: int,
    x: int,
    y: int,
) -> Option<(int, int)> {
    if xmax <= xmin || ymax <= ymin {
        None
    } else if x < xmin || y < ymin {
        None
    } else {
        let ix = ((x - xmin) * w) / (xmax - xmin);
        let iy = ((y - ymin) * h) / (ymax - ymin);
        if ix < w && iy < h {
            Some((ix, iy))
        } else {
            None
        }
    }
}

/// The density mesh.
pub struct Mesh {
    pub width: usize,
    pub height: usize,
    pub xmin: i64,
    pub xmax: i64,
    pub ymin: i64,
    pub ymax: i64,
    pub mesh: Vec<i64>,
    pub highlight_mesh: Vec<i64>,
    pub index_mesh: Vec<usize>,
    pub processed_mesh: Vec<i64>,
    pub processed_highlight_mesh: Vec<i64>,
    pub rgba8: Vec<u8>,
}

impl Mesh {
    /// Structural bounds every mesh satisfies: channel lengths match the
    /// grid, accumulated cells are nonnegative, and the total accumulated
    /// mass stays within the admitted cap.
    pub open spec fn wf(self) -> bool {
        &&& self.width * self.height <= CELLS_MAX
        &&& self.mesh@.len() == self.width * self.height
        &&& self.highlight_mesh@.len() == self.width * self.height
        &&& self.index_mesh@.len() == self.width * self.height
        &&& self.processed_mesh@.len() == self.width * self.height
        &&& self.processed_highlight_mesh@.len() == self.width * self.height
        &&& self.rgba8@.len() == 4 * (self.width * self.height)
        &&& forall|k: int| 0 <= k < self.mesh@.len() ==> #[trigger] self.mesh@[k] >= 0
        &&& forall|k: int|
            0 <= k < self.highlight_mesh@.len() ==> #[trigger] self.highlight_mesh@[k] >= 0
        &&& self.mass() <= MASS_CAP
    }

    /// Total accumulated mass over both channels.
    pub open spec fn mass(self) -> int {
        sum_seq(self.mesh@) + sum_seq(self.highlight_mesh@)
    }

    /// The grid geometry: what the cell mapping depends on.
    pub open spec fn same_geometry(self, other: Mesh) -> bool {
        self.width == other.width && self.height == other.height && self.xmin == other.xmin
            && self.xmax == other.xmax && self.ymin == other.ymin && self.ymax == other.ymax
    }

    /// The cell a point lands in.
    pub open spec fn cell_of(self, x: int, y: int) -> Option<(int, int)> {
        spec_cell(
            self.xmin as int,
            self.xmax as int,
            self.ymin as int,
            self.ymax as int,
            self.width as int,
            self.height as int,
            x,
            y,
        )
    }

    pub fn new() -> (r: Mesh)
        ensures
            r.wf(),
            r.width == 0 && r.height == 0,
            r.xmin == 0 && r.xmax == SCALE && r.ymin == 0 && r.ymax == SCALE,
            r.mass() == 0,
    {
        Mesh {
            width: 0,
            height: 0,
            xmin: 0,
            xmax: SCALE,
            ymin: 0,
            ymax: SCALE,
            mesh: Vec::new(),
            highlight_mesh: Vec::new(),
            index_mesh: Vec::new(),
            processed_mesh: Vec::new(),
            processed_highlight_mesh: Vec::new(),
            rgba8: Vec::new(),
        }
    }

    /// Reallocate every channel for a `width` by `height` grid and clear it.
    pub fn resize(&mut self, width: usize, height: usize)
        requires
            width * height <= CELLS_MAX,
        ensures
            final(self).wf(),
            final(self).width == width && final(self).height == height,
            final(self).xmin == old(self).xmin && final(self).xmax == old(self).xmax,
            final(self).ymin == old(self).ymin && final(self).ymax == old(self).ymax,
            final(self).mass() == 0,
            forall|k: int| 0 <= k < width * height ==> final(self).mesh@[k] == 0,
            forall|k: int| 0 <= k < width * height ==> final(self).highlight_mesh@[k] == 0,
            forall|k: int| 0 <= k < width * height ==> final(self).index_mesh@[k] == 0,
            forall|k: int| 0 <= k < width * height ==> final(self).processed_mesh@[k] == 0,
            forall|k: int| 0 <= k < width * height ==> final(self).processed_highlight_mesh@[k]
                == 0,
    {
        let size = width * height;
        self.mesh = zero_cells(size);
        self.highlight_mesh = zero_cells(size);
        self.index_mesh = zero_indices(size);
        self.processed_mesh = zero_cells(size);
        self.processed_highlight_mesh = zero_cells(size);
        self.rgba8 = zero_bytes(4 * size);
        self.width = width;
        self.height = height;
        proof {
            lemma_sum_zeros(self.mesh@);
            lemma_sum_zeros(self.highlight_mesh@);
        }
    }

    /// Clear the accumulation, index and processed channels.
    pub fn clean(&mut self)
        requires
            old(self).wf(),
        ensures
            final(self).wf(),
            final(self).same_geometry(*old(self)),
            final(self).rgba8@ == old(self).rgba8@,
            final(self).mass() == 0,
            forall|k: int| 0 <= k < final(self).mesh@.len() ==> final(self).mesh@[k] == 0,
            forall|k: int|
                0 <= k < final(self).highlight_mesh@.len() ==> final(self).highlight_mesh@[k] == 0,
            forall|k: int|
                0 <= k < final(self).index_mesh@.len() ==> final(self).index_mesh@[k] == 0,
            forall|k: int|
                0 <= k < final(self).processed_mesh@.len() ==> final(self).processed_mesh@[k] == 0,
            forall|k: int|
                0 <= k < final(self).processed_highlight_mesh@.len() ==> final(self).processed_highlight_mesh@[k] == 0,
    {
        let size = self.width * self.height;
        self.mesh = zero_cells(size);
        self.highlight_mesh = zero_cells(size);
        self.index_mesh = zero_indices(size);
        self.processed_mesh = zero_cells(size);
        self.processed_highlight_mesh = zero_cells(size);
        proof {
            lemma_sum_zeros(self.mesh@);
            lemma_sum_zeros(self.highlight_mesh@);
        }
    }

    /// The row index stored at a cell, if the cell was ever touched: stored
    /// indices are one-based, zero marks an untouched cell.
    pub fn get_index(&self, x: usize, y: usize) -> (r: Option<usize>)
        requires
            self.wf(),
        ensures
            r == self.spec_index(x as int, y as int),
    {
        if x < self.width && y < self.height {
            proof {
                lemma_row_major(x as int, y as int, self.width as int, self.height as int);
            }
            let index = self.index_mesh[x + self.width * y];
            if index == 0 {
                None
            } else {
                Some(index - 1)
            }
        } else {
            None
        }
    }

    /// What hit-testing one cell returns.
    pub open spec fn spec_index(self, x: int, y: int) -> Option<usize> {
        if 0 <= x < self.width && 0 <= y < self.height {
            let stored = self.index_mesh@[x + self.width * y];
            if stored == 0 {
                None
            } else {
                Some((stored - 1) as usize)
            }
        } else {
            None
        }
    }

    /// What the wide hit-test returns: the cell's own stored row, else the
    /// first hit among its three forward neighbors, in that fixed order.
    pub open spec fn wide_hit(self, x: int, y: int) -> Option<usize> {
        if self.spec_index(x, y) is Some {
            self.spec_index(x, y)
        } else if self.spec_index(x + 1, y) is Some {
            self.spec_index(x + 1, y)
        } else if self.spec_index(x, y + 1) is Some {
            self.spec_index(x, y + 1)
        } else {
            self.spec_index(x + 1, y + 1)
        }
    }

    /// Hit-test a cell and its three forward neighbors, in that fixed order,
    /// compensating the half-cell offset of the query mapping.
    pub fn get_index_wide(&self, x: usize, y: usize) -> (r: Option<usize>)
        requires
            self.wf(),
            x < usize::MAX,
            y < usize::MAX,
        ensures
            r == self.wide_hit(x as int, y as int),
    {
        if let Some(index) = self.get_index(x, y) {
            Some(index)
        } else if let Some(index) = self.get_index(x + 1, y) {
            Some(index)
        } else if let Some(index) = self.get_index(x, y + 1) {
            Some(index)
        } else {
            self.get_index(x + 1, y + 1)
        }
    }

    /// Deposit a weight wholly into the cell its coordinates land in, note
    /// the row index there, or silently drop the point.
    pub fn point(&mut self, x: i64, y: i64, weight: i64, index: usize, highlight: bool)
        requires
            old(self).wf(),
            0 <= weight <= VAL_MAX,
            old(self).mass() + weight <= MASS_CAP,
        ensures
            final(self).wf(),
            final(self).same_geometry(*old(self)),
            final(self).processed_mesh@ == old(self).processed_mesh@,
            final(self).processed_highlight_mesh@ == old(self).processed_highlight_mesh@,
            final(self).rgba8@ == old(self).rgba8@,
            ({
                match old(self).cell_of(x as int, y as int) {
                    None => *final(self) == *old(self),
                    Some(cell) => {
                        let k = cell.0 + old(self).width * cell.1;
                        &&& final(self).index_mesh@ == old(self).index_mesh@.update(k, index)
                        &&& (highlight ==> final(self).highlight_mesh@ == old(self).highlight_mesh@.update(k, (old(self).highlight_mesh@[k] + weight) as i64)
                            && final(self).mesh@ == old(self).mesh@)
                        &&& (!highlight ==> final(self).mesh@ == old(self).mesh@.update(
                            k,
                            (old(self).mesh@[k] + weight) as i64,
                        ) && final(self).highlight_mesh@ == old(self).highlight_mesh@)
                        &&& final(self).mass() == old(self).mass() + weight
                    },
                }
            }),
    {
        if self.xmax <= self.xmin || self.ymax <= self.ymin {
            return ;
        }
        if x < self.xmin || y < self.ymin {
            return ;
        }
        let dx: i128 = (x as i128) - (self.xmin as i128);
        let dy: i128 = (y as i128) - (self.ymin as i128);
        let ex: i128 = (self.xmax as i128) - (self.xmin as i128);
        let ey: i128 = (self.ymax as i128) - (self.ymin as i128);
        proof {
            assert(0 <= (dx as int) * (self.width as int)
                <= 0xffffffffffffffff * 0xffffffffffffffff) by (nonlinear_arith)
                requires
                    0 <= dx <= 0xffffffffffffffff,
                    0 <= self.width <= 0xffffffffffffffff,
            ;
            assert(0 <= (dy as int) * (self.height as int)
                <= 0xffffffffffffffff * 0xffffffffffffffff) by (nonlinear_arith)
                requires
                    0 <= dy <= 0xffffffffffffffff,
                    0 <= self.height <= 0xffffffffffffffff,
            ;
        }
        let ix128: u128 = ((dx as u128) * (self.width as u128)) / (ex as u128);
        let iy128: u128 = ((dy as u128) * (self.height as u128)) / (ey as u128);
        if ix128 < self.width as u128 && iy128 < self.height as u128 {
            let ix = ix128 as usize;
            let iy = iy128 as usize;
            proof {
                lemma_row_major(ix as int, iy as int, self.width as int, self.height as int);
                lemma_sum_bounds(self.mesh@);
                lemma_sum_bounds(self.highlight_mesh@);
            }
            let k = ix + self.width * iy;
            if highlight {
                let cur = self.highlight_mesh[k];
                self.highlight_mesh[k] = cur + weight;
                proof {
                    lemma_sum_update(old(self).highlight_mesh@, k as int, (cur + weight) as i64);
                }
            } else {
                let cur = self.mesh[k];
                self.mesh[k] = cur + weight;
                proof {
                    lemma_sum_update(old(self).mesh@, k as int, (cur + weight) as i64);
                }
            }
            self.index_mesh[k] = index;
        }
    }
}

/// A row-major cell index lies inside the grid.
pub proof fn lemma_row_major(x: int, y: int, w: int, h: int)
    requires
        0 <= x < w,
        0 <= y < h,
    ensures
        0 <= x + w * y < w * h,
{
    assert(x + w * y < w * h) by (nonlinear_arith)
        requires
            0 <= x < w,
            0 <= y < h,
    ;
    assert(0 <= w * y) by (nonlinear_arith)
        requires
            w > 0,
            y >= 0,
    ;
}

/// A vector of `n` zero cells.
fn zero_cells(n: usize) -> (r: Vec<i64>)
    ensures
        r@.len() == n,
        forall|k: int| 0 <= k < n ==> r@[k] == 0,
{
    let mut out: Vec<i64> = Vec::new();
    let mut i: usize = 0;
    while i < n
        invariant
            i <= n,
            out@.len() == i,
            forall|k: int| 0 <= k < i ==> out@[k] == 0,
        decreases n - i,
    {
        out.push(0);
        i = i + 1;
    }
    out
}

/// A vector of `n` zero indices.
fn zero_indices(n: usize) -> (r: Vec<usize>)
    ensures
        r@.len() == n,
        forall|k: int| 0 <= k < n ==> r@[k] == 0,
{
    let mut out: Vec<usize> = Vec::new();
    let mut i: usize = 0;
    while i < n
        invariant
            i <= n,
            out@.len() == i,
            forall|k: int| 0 <= k < i ==> out@[k] == 0,
        decreases n - i,
    {
        out.push(0);
        i = i + 1;
    }
    out
}

/// A vector of `n` zero bytes.
fn zero_bytes(n: usize) -> (r: Vec<u8>)
    ensures
        r@.len() == n,
        forall|k: int| 0 <= k < n ==> r@[k] == 0,
{
    let mut out: Vec<u8> = Vec::new();
    let mut i: usize = 0;
    while i < n
        invariant
            i <= n,
            out@.len() == i,
            forall|k: int| 0 <= k < i ==> out@[k] == 0,
        decreases n - i,
    {
        out.push(0);
        i = i + 1;
    }
    out
}


/// Truncating division distributes superadditively over addition: the floors
/// of the parts never exceed the floor of the whole.
pub proof fn lemma_divt_superadd(a: int, b: int, t: int)
    requires
        a >= 0,
        b >= 0,
        t > 0,
    ensures
        divt(a, t) + divt(b, t) <= divt(a + b, t),
{
    vstd::arithmetic::div_mod::lemma_fundamental_div_mod(a, t);
    vstd::arithmetic::div_mod::lemma_fundamental_div_mod(b, t);
    vstd::arithmetic::div_mod::lemma_mod_bound(a, t);
    vstd::arithmetic::div_mod::lemma_mod_bound(b, t);
    vstd::arithmetic::div_mod::lemma_div_pos_is_pos(a, t);
    vstd::arithmetic::div_mod::lemma_div_pos_is_pos(b, t);
    vstd::arithmetic::div_mod::lemma_div_pos_is_pos(a % t + b % t, t);
    let qa = a / t;
    let qb = b / t;
    assert(a + b == (a % t + b % t) + (qa + qb) * t) by (nonlinear_arith)
        requires
            a == t * qa + a % t,
            b == t * qb + b % t,
    ;
    vstd::arithmetic::div_mod::lemma_hoist_over_denominator(a % t + b % t, qa + qb, t as nat);
}

/// The kernel shape: a reciprocal-quadratic approximation of the Gaussian
/// bell over the squared distance, in micro-units, 1.0 at the center and
/// falling toward zero; zero beyond sixty spread units.
pub open spec fn kernel_shape(d2: int, ts: int) -> int {
    let u = divt(d2 * SCALE, ts);
    if u > 60_000_000 {
        0
    } else {
        divt(SCALE * SCALE, SCALE + u + divt(u * u, 2 * SCALE))
    }
}

/// Evaluate the kernel shape.
fn kernel_shape_exec(d2: i64, ts: i64) -> (r: i64)
    requires
        0 <= d2 <= 100_000_000_000_000,
        1 <= ts,
    ensures
        r as int == kernel_shape(d2 as int, ts as int),
        0 <= r <= SCALE,
{
    proof {
        assert(0 <= (d2 as int) * (SCALE as int) <= 100_000_000_000_000_000_000)
            by (nonlinear_arith)
            requires
                0 <= d2 <= 100_000_000_000_000,
                SCALE == 1_000_000,
        ;
        lemma_divt_shrinks((d2 as int) * (SCALE as int), ts as int);
    }
    let uw: i128 = crate::fixed::muldiv_wide(d2, SCALE, ts);
    if uw > 60_000_000 {
        return 0;
    }
    let u: i64 = uw as i64;
    proof {
        assert(0 <= (u as int) * (u as int) <= 3_600_000_000_000_000) by (nonlinear_arith)
            requires
                0 <= u <= 60_000_000,
        ;
        lemma_divt_shrinks((u as int) * (u as int), 2 * SCALE as int);
        vstd::arithmetic::div_mod::lemma_div_pos_is_pos((u as int) * (u as int), 2 * SCALE as int);
        lemma_divt_shrinks((SCALE as int) * (SCALE as int), SCALE as int + u);
        vstd::arithmetic::div_mod::lemma_div_pos_is_pos(
            (SCALE as int) * (SCALE as int),
            (SCALE + u) as int + divt((u as int) * (u as int), 2 * SCALE as int),
        );
    }
    let usq: i64 = crate::fixed::muldiv(u, u, 2 * SCALE);
    let den: i64 = SCALE + u + usq;
    let shape: i64 = crate::fixed::muldiv(SCALE, SCALE, den);
    proof {
        assert(divt(SCALE * SCALE as int, den as int) <= SCALE) by {
            vstd::arithmetic::div_mod::lemma_div_is_ordered(
                (SCALE as int) * (SCALE as int),
                (SCALE as int) * (den as int),
                den as int,
            );
            vstd::arithmetic::div_mod::lemma_div_multiples_vanish(SCALE as int, den as int);
            assert((SCALE as int) * (SCALE as int) <= (SCALE as int) * (den as int))
                by (nonlinear_arith)
                requires
                    SCALE <= den,
            ;
        };
    }
    shape
}

/// One accumulation channel, chosen by the highlight flag.
pub open spec fn chan(m: Mesh, highlight: bool) -> Seq<i64> {
    if highlight {
        m.highlight_mesh@
    } else {
        m.mesh@
    }
}

/// The kernel shape at footprint position `idx`, row-major over the square of
/// side `2*half + 1`: the shape of the squared cell distance to the center.
pub open spec fn shape_at(half: int, ts: int, idx: int) -> int {
    let dim = 2 * half + 1;
    let i = idx / dim;
    let j = idx % dim;
    kernel_shape(((i - half) * (i - half) + (j - half) * (j - half)) * SCALE, ts)
}

/// The sum of the first `count` footprint shapes.
pub open spec fn shape_sum(half: int, ts: int, count: int) -> int
    decreases count,
{
    if count <= 0 {
        0
    } else {
        shape_sum(half, ts, count - 1) + shape_at(half, ts, count - 1)
    }
}

/// The denominator the kernel deposits are normalized by: the whole
/// footprint's shape sum, or one when that sum is zero.
pub open spec fn shape_total(half: int, ts: int) -> int {
    let dim = 2 * half + 1;
    if shape_sum(half, ts, dim * dim) == 0 {
        1
    } else {
        shape_sum(half, ts, dim * dim)
    }
}

/// A sequence that holds the footprint shapes pointwise sums to the footprint
/// shape sum.
proof fn lemma_shape_sum_pointwise(s: Seq<i64>, half: int, ts: int)
    requires
        forall|idx: int| 0 <= idx < s.len() ==> #[trigger] s[idx] as int == shape_at(half, ts, idx),
    ensures
        sum_seq(s) == shape_sum(half, ts, s.len() as int),
    decreases s.len(),
{
    if s.len() > 0 {
        let t = s.drop_last();
        assert(forall|idx: int| 0 <= idx < t.len() ==> #[trigger] t[idx] == s[idx]);
        lemma_shape_sum_pointwise(t, half, ts);
        assert(s[s.len() - 1] == s.last());
    }
}

/// A row-major cell index decomposes back into its coordinates.
proof fn lemma_cell_coords(x: int, y: int, w: int)
    requires
        0 <= x < w,
        0 <= y,
    ensures
        (x + w * y) % w == x,
        (x + w * y) / w == y,
{
    assert(x + w * y == y * w + x) by (nonlinear_arith);
    vstd::arithmetic::div_mod::lemma_fundamental_div_mod_converse(x + w * y, w, y, x);
}

impl Mesh {
    /// Splat one weight over a square kernel footprint centered on a cell:
    /// each footprint cell receives the weight share of its kernel shape,
    /// truncating, so at most `weight` total mass is added; the center cell's
    /// row index is overwritten last-write-wins.
    fn splat_kernel(
        &mut self,
        cx: usize,
        cy: usize,
        half: usize,
        weight: i64,
        index: usize,
        highlight: bool,
        ts: i64,
    )
        requires
            old(self).wf(),
            half <= 4096,
            half < cx && cx + half < old(self).width,
            half < cy && cy + half < old(self).height,
            0 <= weight <= VAL_MAX,
            old(self).mass() + weight <= MASS_CAP,
            1 <= ts,
        ensures
            final(self).splatted(
                *old(self),
                (cx as int, cy as int),
                weight as int,
                index,
                highlight,
                half as int,
                ts as int,
            ),
    {
        let dim: usize = 2 * half + 1;
        proof {
            assert((dim as int) * (dim as int) <= 8193 * 8193) by (nonlinear_arith)
                requires
                    0 <= dim <= 8193,
            ;
        }
        let cells: usize = dim * dim;
        let mut shapes: Vec<i64> = Vec::new();
        let mut total: i64 = 0;
        let mut i: usize = 0;
        while i < dim
            invariant
                dim == 2 * half + 1,
                half <= 4096,
                shapes@.len() == i * dim,
                i <= dim,
                forall|k: int| 0 <= k < shapes@.len() ==> 0 <= #[trigger] shapes@[k] <= SCALE,
                forall|idx: int|
                    0 <= idx < shapes@.len() ==> #[trigger] shapes@[idx] as int == shape_at(
                        half as int,
                        ts as int,
                        idx,
                    ),
                total as int == sum_seq(shapes@),
                0 <= total <= (i * dim) * SCALE,
                1 <= ts,
            decreases dim - i,
        {
            let mut j: usize = 0;
            while j < dim
                invariant
                    dim == 2 * half + 1,
                    half <= 4096,
                    i < dim,
                    j <= dim,
                    shapes@.len() == i * dim + j,
                    forall|k: int| 0 <= k < shapes@.len() ==> 0 <= #[trigger] shapes@[k] <= SCALE,
                    forall|idx: int|
                        0 <= idx < shapes@.len() ==> #[trigger] shapes@[idx] as int == shape_at(
                            half as int,
                            ts as int,
                            idx,
                        ),
                    total as int == sum_seq(shapes@),
                    0 <= total <= (i * dim + j) * SCALE,
                    1 <= ts,
                decreases dim - j,
            {
                let di: i64 = (i as i64) - (half as i64);
                let dj: i64 = (j as i64) - (half as i64);
                proof {
                    assert(0 <= di * di <= 4096 * 4096 && 0 <= dj * dj <= 4096 * 4096)
                        by (nonlinear_arith)
                        requires
                            -4096 <= di <= 4096,
                            -4096 <= dj <= 4096,
                    ;
                }
                let d2: i64 = (di * di + dj * dj) * SCALE;
                let shape = kernel_shape_exec(d2, ts);
                proof {
                    assert(shapes@.push(shape).drop_last() =~= shapes@);
                    assert((i * dim + j) * SCALE + SCALE == (i * dim + j + 1) * SCALE)
                        by (nonlinear_arith);
                }
                proof {
                    assert(i * dim + j < dim * dim && (i * dim + j) * (SCALE as int) <= 8193 * 8193
                        * 1_000_000) by (nonlinear_arith)
                        requires
                            0 <= i < dim,
                            0 <= j < dim,
                            dim <= 8193,
                            SCALE == 1_000_000,
                    ;
                }
                proof {
                    vstd::arithmetic::div_mod::lemma_fundamental_div_mod_converse(
                        i * dim + j,
                        dim as int,
                        i as int,
                        j as int,
                    );
                    assert(shape as int == shape_at(half as int, ts as int, i * dim + j));
                }
                shapes.push(shape);
                total = total + shape;
                j = j + 1;
            }
            proof {
                assert(i * dim + dim == (i + 1) * dim) by (nonlinear_arith);
            }
            i = i + 1;
        }
        let total_div: i64 = if total == 0 {
            1
        } else {
            total
        };
        proof {
            lemma_sum_bounds(shapes@);
            lemma_shape_sum_pointwise(shapes@, half as int, ts as int);
            assert(total_div as int == shape_total(half as int, ts as int));
        }
        let ghost base = *self;
        let ghost tshapes = shapes@;
        let mut n: usize = 0;
        let ghost mut used: int = 0;
        while n < cells
            invariant
                base.wf(),
                cells == dim * dim,
                dim == 2 * half + 1,
                half <= 4096,
                n <= cells,
                tshapes.len() == cells,
                shapes@ == tshapes,
                forall|k: int| 0 <= k < tshapes.len() ==> 0 <= #[trigger] tshapes[k] <= SCALE,
                forall|idx: int|
                    0 <= idx < cells ==> #[trigger] tshapes[idx] as int == shape_at(
                        half as int,
                        ts as int,
                        idx,
                    ),
                total_div as int == shape_total(half as int, ts as int),
                total_div >= 1,
                sum_seq(tshapes) <= total_div || (sum_seq(tshapes) == 0 && total_div == 1),
                used == sum_seq(tshapes.take(n as int)),
                0 <= used <= sum_seq(tshapes),
                half < cx && cx + half < base.width,
                half < cy && cy + half < base.height,
                0 <= weight <= VAL_MAX,
                base.mass() + weight <= MASS_CAP,
                self.wf(),
                self.same_geometry(base),
                self.processed_mesh@ == base.processed_mesh@,
                self.processed_highlight_mesh@ == base.processed_highlight_mesh@,
                self.rgba8@ == base.rgba8@,
                self.index_mesh@ == base.index_mesh@,
                base.mass() <= self.mass(),
                self.mass() <= base.mass() + divt(weight * used, total_div as int),
                divt(weight * used, total_div as int) <= weight,
                forall|k: int| 0 <= k < self.mesh@.len() ==> self.mesh@[k] >= base.mesh@[k],
                forall|k: int|
                    0 <= k < self.highlight_mesh@.len() ==> self.highlight_mesh@[k]
                        >= base.highlight_mesh@[k],
                highlight ==> self.mesh@ == base.mesh@,
                !highlight ==> self.highlight_mesh@ == base.highlight_mesh@,
                forall|px: int, py: int|
                    #![trigger chan(*self, highlight)[px + (base.width as int) * py]]
                    0 <= px < base.width && 0 <= py < base.height ==> chan(*self, highlight)[px + (
                    base.width as int) * py] as int == (if cx - half <= px <= cx + half && cy - half
                        <= py <= cy + half && (px - (cx - half)) * (dim as int) + (py - (cy - half))
                        < n {
                        chan(base, highlight)[px + (base.width as int) * py] + divt(
                            weight * shape_at(
                                half as int,
                                ts as int,
                                (px - (cx - half)) * (dim as int) + (py - (cy - half)),
                            ),
                            total_div as int,
                        )
                    } else {
                        chan(base, highlight)[px + (base.width as int) * py] as int
                    }),
            decreases cells - n,
        {
            let i2 = n / dim;
            let j2 = n % dim;
            proof {
                vstd::arithmetic::div_mod::lemma_fundamental_div_mod(n as int, dim as int);
                vstd::arithmetic::div_mod::lemma_mod_bound(n as int, dim as int);
                vstd::arithmetic::div_mod::lemma_div_pos_is_pos(n as int, dim as int);
                assert(i2 < dim) by {
                    vstd::arithmetic::div_mod::lemma_multiply_divide_lt(
                        n as int,
                        dim as int,
                        dim as int,
                    );
                };
            }
            let shape = shapes[n];
            proof {
                let w = weight as int;
                let sh = shape as int;
                let t = total_div as int;
                assert(sh <= t) by {
                    lemma_sum_bounds(tshapes);
                };
                assert(0 <= w * sh <= w * t) by (nonlinear_arith)
                    requires
                        0 <= w,
                        0 <= sh <= t,
                ;
                lemma_divt_shrinks(w * sh, t);
                vstd::arithmetic::div_mod::lemma_div_is_ordered(w * sh, w * t, t);
                vstd::arithmetic::div_mod::lemma_div_multiples_vanish(w, t);
                vstd::arithmetic::div_mod::lemma_div_pos_is_pos(w * sh, t);
                assert(divt(w * sh, t) <= w);
            }
            let amount = crate::fixed::muldiv(weight, shape, total_div);
            let px = cx - half + i2;
            let py = cy - half + j2;
            proof {
                lemma_row_major(px as int, py as int, self.width as int, self.height as int);
                lemma_sum_bounds(self.mesh@);
                lemma_sum_bounds(self.highlight_mesh@);
                // the mass after this deposit stays within the budget
                assert(tshapes.take(n + 1).drop_last() =~= tshapes.take(n as int));
                assert(tshapes.take(n + 1).last() == tshapes[n as int]);
                lemma_divt_superadd(
                    weight * used,
                    (weight as int) * (shape as int),
                    total_div as int,
                );
                assert(weight * used + (weight as int) * (shape as int) == weight * (used
                    + shape)) by (nonlinear_arith);
                assert(used + shape <= total_div as int) by {
                    lemma_sum_prefix(tshapes, n + 1);
                    lemma_sum_bounds(tshapes);
                };
                assert(weight * (used + shape) <= weight * (total_div as int))
                    by (nonlinear_arith)
                    requires
                        0 <= weight,
                        used + shape <= total_div as int,
                ;
                vstd::arithmetic::div_mod::lemma_div_is_ordered(
                    weight * (used + shape),
                    weight * (total_div as int),
                    total_div as int,
                );
                vstd::arithmetic::div_mod::lemma_div_multiples_vanish(
                    weight as int,
                    total_div as int,
                );
                assert(sum_seq(tshapes.take(n + 1)) <= sum_seq(tshapes)) by {
                    lemma_sum_prefix(tshapes, n + 1);
                };
            }
            let k = px + self.width * py;
            let ghost pre = *self;
            if highlight {
                let cur = self.highlight_mesh[k];
                proof {
                    lemma_sum_update(self.highlight_mesh@, k as int, (cur + amount) as i64);
                }
                self.highlight_mesh[k] = cur + amount;
            } else {
                let cur = self.mesh[k];
                proof {
                    lemma_sum_update(self.mesh@, k as int, (cur + amount) as i64);
                }
                self.mesh[k] = cur + amount;
            }
            proof {
                assert(chan(*self, highlight) =~= chan(pre, highlight).update(
                    k as int,
                    (chan(pre, highlight)[k as int] + amount) as i64,
                ));
            }
            proof {
                used = used + shape;
                let w = base.width as int;
                let x0 = cx - half;
                let y0 = cy - half;
                let d = dim as int;
                assert forall|qx: int, qy: int| 0 <= qx < base.width && 0 <= qy < base.height
                    implies #[trigger] chan(*self, highlight)[qx + w * qy] as int == (if x0 <= qx
                    <= cx + half && y0 <= qy <= cy + half && (qx - x0) * d + (qy - y0) < n + 1 {
                    chan(base, highlight)[qx + w * qy] + divt(
                        weight * shape_at(half as int, ts as int, (qx - x0) * d + (qy - y0)),
                        total_div as int,
                    )
                } else {
                    chan(base, highlight)[qx + w * qy] as int
                }) by {
                    lemma_cell_coords(qx, qy, w);
                    lemma_cell_coords(px as int, py as int, w);
                    lemma_row_major(qx, qy, base.width as int, base.height as int);
                    lemma_row_major(px as int, py as int, base.width as int, base.height as int);
                    let kq = qx + w * qy;
                    assert(k as int == px as int + w * (py as int));
                    assert(chan(pre, highlight)[kq] as int == (if x0 <= qx <= cx + half && y0 <= qy
                        <= cy + half && (qx - x0) * d + (qy - y0) < n {
                        chan(base, highlight)[kq] + divt(
                            weight * shape_at(half as int, ts as int, (qx - x0) * d + (qy - y0)),
                            total_div as int,
                        )
                    } else {
                        chan(base, highlight)[kq] as int
                    }));
                    if qx == px && qy == py {
                        assert(qx - x0 == i2 as int && qy - y0 == j2 as int);
                        assert((i2 as int) * d + (j2 as int) == n) by {
                            vstd::arithmetic::div_mod::lemma_fundamental_div_mod(
                                n as int,
                                dim as int,
                            );
                            assert((i2 as int) * d == d * (i2 as int)) by (nonlinear_arith);
                        };
                        assert(chan(*self, highlight)[kq] as int == chan(pre, highlight)[kq]
                            + amount);
                        assert(amount as int == divt(
                            weight * shape_at(half as int, ts as int, n as int),
                            total_div as int,
                        ));
                    } else {
                        assert(kq != px + w * py) by {
                            if qx + w * qy == px + w * py {
                                assert((qx + w * qy) % w == qx && (px as int + w * (py as int)) % w
                                    == px as int);
                                assert(false);
                            }
                        };
                        assert(chan(*self, highlight)[kq] == chan(pre, highlight)[kq]);
                        if x0 <= qx <= cx + half && y0 <= qy <= cy + half {
                            let a = qx - x0;
                            let b = qy - y0;
                            if a * d + b == n {
                                vstd::arithmetic::div_mod::lemma_fundamental_div_mod_converse(
                                    n as int,
                                    d,
                                    a,
                                    b,
                                );
                                assert(a == i2 as int && b == j2 as int);
                                assert(false);
                            }
                        }
                    }
                };
            }
            n = n + 1;
        }
        proof {
            assert(tshapes.take(cells as int) =~= tshapes);
        }
        let ghost done = *self;
        proof {
            lemma_row_major(cx as int, cy as int, self.width as int, self.height as int);
        }
        let kc = cx + self.width * cy;
        self.index_mesh[kc] = index;
        proof {
            let w = base.width as int;
            let d = dim as int;
            assert(chan(*self, highlight) =~= chan(done, highlight));
            assert(chan(*self, !highlight) =~= chan(done, !highlight));
            assert forall|i: int, j: int| 0 <= i < d && 0 <= j < d implies #[trigger] chan(
                *self,
                highlight,
            )[(cx as int - half + i) + base.width * (cy as int - half + j)] as int == chan(
                base,
                highlight,
            )[(cx as int - half + i) + base.width * (cy as int - half + j)] + divt(
                weight * shape_at(half as int, ts as int, i * d + j),
                shape_total(half as int, ts as int),
            ) by {
                let qx = cx as int - half + i;
                let qy = cy as int - half + j;
                assert(0 <= qx < base.width && 0 <= qy < base.height);
                assert(0 <= i * d + j < cells) by (nonlinear_arith)
                    requires
                        0 <= i < d,
                        0 <= j < d,
                        cells == d * d,
                ;
                assert((qx - (cx - half)) * d + (qy - (cy - half)) == i * d + j);
                assert(chan(done, highlight)[qx + (base.width as int) * qy] as int == chan(
                    base,
                    highlight,
                )[qx + (base.width as int) * qy] + divt(
                    weight * shape_at(half as int, ts as int, i * d + j),
                    total_div as int,
                ));
                assert(chan(*self, highlight)[qx + (base.width as int) * qy] == chan(
                    done,
                    highlight,
                )[qx + (base.width as int) * qy]);
            };
            assert forall|qx: int, qy: int|
                0 <= qx < base.width && 0 <= qy < base.height && !(cx as int - half <= qx
                    <= cx as int + half && cy as int - half <= qy <= cy as int + half) implies
                #[trigger] chan(*self, highlight)[qx + base.width * qy] == chan(base, highlight)[qx
                + base.width * qy] by {
                assert(chan(done, highlight)[qx + (base.width as int) * qy] as int == chan(
                    base,
                    highlight,
                )[qx + (base.width as int) * qy] as int);
                assert(chan(*self, highlight)[qx + (base.width as int) * qy] == chan(
                    done,
                    highlight,
                )[qx + (base.width as int) * qy]);
            };
        }
    }
}

/// A prefix sum of nonnegative cells is bounded by the whole sum.
pub proof fn lemma_sum_prefix(s: Seq<i64>, n: int)
    requires
        0 <= n <= s.len(),
        forall|k: int| 0 <= k < s.len() ==> #[trigger] s[k] >= 0,
    ensures
        0 <= sum_seq(s.take(n)) <= sum_seq(s),
    decreases s.len() - n,
{
    if n == s.len() {
        assert(s.take(n) =~= s);
        lemma_sum_bounds(s);
    } else {
        lemma_sum_prefix(s, n + 1);
        assert(s.take(n + 1).drop_last() =~= s.take(n));
        assert(s.take(n + 1).last() == s[n]);
        lemma_sum_bounds(s.take(n));
        assert(forall|k: int| 0 <= k < n ==> s.take(n)[k] == #[trigger] s[k]);
    }
}


/// Total weight carried by a point list.
pub open spec fn total_weight(pts: Seq<(i64, i64, i64, usize, bool)>) -> int
    decreases pts.len(),
{
    if pts.len() == 0 {
        0
    } else {
        total_weight(pts.drop_last()) + pts.last().2
    }
}

/// The weight that lands inside the grid when the points are deposited
/// plainly: the weights of exactly those points whose coordinates map to a
/// cell.
pub open spec fn landed_weight(m: Mesh, pts: Seq<(i64, i64, i64, usize, bool)>) -> int
    decreases pts.len(),
{
    if pts.len() == 0 {
        0
    } else {
        landed_weight(m, pts.drop_last()) + (match m.cell_of(
            pts.last().0 as int,
            pts.last().1 as int,
        ) {
            Some(_) => pts.last().2 as int,
            None => 0,
        })
    }
}

/// The landed weight depends only on the grid geometry, not the cells.
pub proof fn lemma_landed_geometry(a: Mesh, b: Mesh, pts: Seq<(i64, i64, i64, usize, bool)>)
    requires
        a.same_geometry(b),
    ensures
        landed_weight(a, pts) == landed_weight(b, pts),
    decreases pts.len(),
{
    if pts.len() > 0 {
        lemma_landed_geometry(a, b, pts.drop_last());
        assert(a.cell_of(pts.last().0 as int, pts.last().1 as int) == b.cell_of(
            pts.last().0 as int,
            pts.last().1 as int,
        ));
    }
}

/// Every point of an admitted list carries an admitted weight.
pub open spec fn points_ok(pts: Seq<(i64, i64, i64, usize, bool)>) -> bool {
    forall|k: int| 0 <= k < pts.len() ==> 0 <= (#[trigger] pts[k]).2 <= VAL_MAX
}

/// A prefix of the landed weight is bounded by the total weight of the list.
pub proof fn lemma_landed_bounds(m: Mesh, pts: Seq<(i64, i64, i64, usize, bool)>)
    requires
        points_ok(pts),
    ensures
        0 <= landed_weight(m, pts) <= total_weight(pts),
        0 <= total_weight(pts),
    decreases pts.len(),
{
    if pts.len() > 0 {
        let t = pts.drop_last();
        assert(forall|k: int| 0 <= k < t.len() ==> t[k] == #[trigger] pts[k]);
        lemma_landed_bounds(m, t);
        assert(pts[pts.len() - 1] == pts.last());
    }
}

/// The total weight of an admitted list is nonnegative.
pub proof fn lemma_weight_nonneg(pts: Seq<(i64, i64, i64, usize, bool)>)
    requires
        points_ok(pts),
    ensures
        0 <= total_weight(pts),
    decreases pts.len(),
{
    if pts.len() > 0 {
        let t = pts.drop_last();
        assert(forall|k: int| 0 <= k < t.len() ==> t[k] == #[trigger] pts[k]);
        lemma_weight_nonneg(t);
        assert(pts[pts.len() - 1] == pts.last());
    }
}

/// The total weight of a prefix never exceeds the total weight.
pub proof fn lemma_weight_prefix(pts: Seq<(i64, i64, i64, usize, bool)>, n: int)
    requires
        points_ok(pts),
        0 <= n <= pts.len(),
    ensures
        0 <= total_weight(pts.take(n)) <= total_weight(pts),
    decreases pts.len() - n,
{
    let tn = pts.take(n);
    assert(points_ok(tn)) by {
        assert(forall|k: int| 0 <= k < tn.len() ==> (#[trigger] tn[k]) == pts[k]);
    };
    lemma_weight_nonneg(tn);
    if n == pts.len() {
        assert(pts.take(n) =~= pts);
    } else {
        lemma_weight_prefix(pts, n + 1);
        assert(pts.take(n + 1).drop_last() =~= pts.take(n));
        assert(pts.take(n + 1).last() == pts[n]);
    }
}

impl Mesh {
    /// What a kernel deposit leaves behind: each footprint cell of the chosen
    /// channel gains exactly its truncated share `weight * shape / total` of
    /// the kernel, every other cell and the untouched channel stay, the
    /// processed channels and the output buffer stay, and the center cell's
    /// row index is overwritten.
    pub open spec fn splatted(
        self,
        before: Mesh,
        cell: (int, int),
        weight: int,
        index: usize,
        highlight: bool,
        half: int,
        ts: int,
    ) -> bool {
        let dim = 2 * half + 1;
        &&& self.wf()
        &&& self.same_geometry(before)
        &&& self.processed_mesh@ == before.processed_mesh@
        &&& self.processed_highlight_mesh@ == before.processed_highlight_mesh@
        &&& self.rgba8@ == before.rgba8@
        &&& before.mass() <= self.mass() <= before.mass() + weight
        &&& forall|k: int| 0 <= k < self.mesh@.len() ==> self.mesh@[k] >= before.mesh@[k]
        &&& forall|k: int|
            0 <= k < self.highlight_mesh@.len() ==> self.highlight_mesh@[k]
                >= before.highlight_mesh@[k]
        &&& (highlight ==> self.mesh@ == before.mesh@)
        &&& (!highlight ==> self.highlight_mesh@ == before.highlight_mesh@)
        &&& forall|i: int, j: int|
            #![trigger chan(self, highlight)[(cell.0 - half + i) + before.width * (cell.1 - half + j)]]
            0 <= i < dim && 0 <= j < dim ==> chan(self, highlight)[(cell.0 - half + i)
                + before.width * (cell.1 - half + j)] as int == chan(before, highlight)[(cell.0
                - half + i) + before.width * (cell.1 - half + j)] + divt(
                weight * shape_at(half, ts, i * dim + j),
                shape_total(half, ts),
            )
        &&& forall|px: int, py: int|
            #![trigger chan(self, highlight)[px + before.width * py]]
            0 <= px < before.width && 0 <= py < before.height && !(cell.0 - half <= px <= cell.0
                + half && cell.1 - half <= py <= cell.1 + half) ==> chan(self, highlight)[px
                + before.width * py] == chan(before, highlight)[px + before.width * py]
        &&& self.index_mesh@ == before.index_mesh@.update(cell.0 + before.width * cell.1, index)
    }

    /// Deposit a weight smoothed over the three-by-three kernel around the
    /// cell its coordinates land in; points whose footprint would leave the
    /// grid are silently dropped.
    pub fn point_antialiased(&mut self, x: i64, y: i64, weight: i64, index: usize, highlight: bool)
        requires
            old(self).wf(),
            0 <= weight <= VAL_MAX,
            old(self).mass() + weight <= MASS_CAP,
        ensures
            ({
                match old(self).cell_of(x as int, y as int) {
                    None => *final(self) == *old(self),
                    Some(cell) => {
                        if 1 < cell.0 < old(self).width - 1 && 1 < cell.1 < old(self).height - 1 {
                            final(self).splatted(
                                *old(self),
                                cell,
                                weight as int,
                                index,
                                highlight,
                                1,
                                SCALE as int,
                            )
                        } else {
                            *final(self) == *old(self)
                        }
                    },
                }
            }),
    {
        match self.locate(x, y) {
            Some((ix, iy)) => {
                if 1 < ix && ix + 1 < self.width && 1 < iy && iy + 1 < self.height {
                    self.splat_kernel(ix, iy, 1, weight, index, highlight, SCALE);
                }
            },
            None => {},
        }
    }

    /// Deposit a weight smoothed over the five-by-five kernel around the cell
    /// its coordinates land in, with spread `sigma`; points whose footprint
    /// would leave the grid are silently dropped.
    pub fn point_gaussian5x5(
        &mut self,
        x: i64,
        y: i64,
        weight: i64,
        index: usize,
        highlight: bool,
        sigma: i64,
    )
        requires
            old(self).wf(),
            0 <= weight <= VAL_MAX,
            old(self).mass() + weight <= MASS_CAP,
            1 <= sigma <= VAL_MAX,
        ensures
            ({
                match old(self).cell_of(x as int, y as int) {
                    None => *final(self) == *old(self),
                    Some(cell) => {
                        if 2 < cell.0 < old(self).width - 2 && 2 < cell.1 < old(self).height - 2 {
                            final(self).splatted(
                                *old(self),
                                cell,
                                weight as int,
                                index,
                                highlight,
                                2,
                                2 * (sigma as int),
                            )
                        } else {
                            *final(self) == *old(self)
                        }
                    },
                }
            }),
    {
        match self.locate(x, y) {
            Some((ix, iy)) => {
                if 2 < ix && ix + 2 < self.width && 2 < iy && iy + 2 < self.height {
                    self.splat_kernel(ix, iy, 2, weight, index, highlight, 2 * sigma);
                }
            },
            None => {},
        }
    }

    /// Deposit a weight smoothed over a kernel whose half-width follows the
    /// spread (at most 4096 cells), falling back to the five-by-five kernel
    /// for small spreads; points whose footprint would leave the grid, and
    /// spreads beyond the admitted half-width, are silently dropped.
    pub fn point_gaussian(
        &mut self,
        x: i64,
        y: i64,
        weight: i64,
        index: usize,
        highlight: bool,
        sigma: i64,
    )
        requires
            old(self).wf(),
            0 <= weight <= VAL_MAX,
            old(self).mass() + weight <= MASS_CAP,
            1 <= sigma <= VAL_MAX,
        ensures
            final(self).wf(),
            final(self).same_geometry(*old(self)),
            final(self).processed_mesh@ == old(self).processed_mesh@,
            final(self).processed_highlight_mesh@ == old(self).processed_highlight_mesh@,
            final(self).rgba8@ == old(self).rgba8@,
            old(self).mass() <= final(self).mass() <= old(self).mass() + weight,
            forall|k: int|
                0 <= k < final(self).mesh@.len() ==> final(self).mesh@[k] >= old(self).mesh@[k],
            forall|k: int|
                0 <= k < final(self).highlight_mesh@.len() ==> final(self).highlight_mesh@[k]
                    >= old(self).highlight_mesh@[k],
            highlight ==> final(self).mesh@ == old(self).mesh@,
            !highlight ==> final(self).highlight_mesh@ == old(self).highlight_mesh@,
            ({
                let nk = (2 * (sigma as int)) / (SCALE as int);
                let hk: int = if nk <= 2 {
                    2
                } else {
                    nk
                };
                if nk > 4096 {
                    *final(self) == *old(self)
                } else {
                    match old(self).cell_of(x as int, y as int) {
                        None => *final(self) == *old(self),
                        Some(cell) => {
                            if hk < cell.0 < old(self).width - hk && hk < cell.1 < old(self).height - hk {
                                final(self).splatted(
                                    *old(self),
                                    cell,
                                    weight as int,
                                    index,
                                    highlight,
                                    hk,
                                    2 * (sigma as int),
                                )
                            } else {
                                *final(self) == *old(self)
                            }
                        },
                    }
                }
            }),
    {
        let n64: u64 = (2 * (sigma as u64)) / (SCALE as u64);
        if n64 <= 2 {
            self.point_gaussian5x5(x, y, weight, index, highlight, sigma);
            return ;
        }
        if n64 > 4096 {
            return ;
        }
        let n = n64 as usize;
        match self.locate(x, y) {
            Some((ix, iy)) => {
                if n < ix && ix + n < self.width && n < iy && iy + n < self.height {
                    self.splat_kernel(ix, iy, n, weight, index, highlight, 2 * sigma);
                }
            },
            None => {},
        }
    }

    /// The cell the coordinates land in, as grid indices.
    fn locate(&self, x: i64, y: i64) -> (r: Option<(usize, usize)>)
        requires
            self.wf(),
        ensures
            match r {
                Some(c) => self.cell_of(x as int, y as int) == Some((c.0 as int, c.1 as int))
                    && c.0 < self.width && c.1 < self.height && self.width <= CELLS_MAX
                    && self.height <= CELLS_MAX,
                None => self.cell_of(x as int, y as int) is None,
            },
    {
        if self.xmax <= self.xmin || self.ymax <= self.ymin {
            return None;
        }
        if x < self.xmin || y < self.ymin {
            return None;
        }
        let dx: i128 = (x as i128) - (self.xmin as i128);
        let dy: i128 = (y as i128) - (self.ymin as i128);
        let ex: i128 = (self.xmax as i128) - (self.xmin as i128);
        let ey: i128 = (self.ymax as i128) - (self.ymin as i128);
        proof {
            assert(0 <= (dx as int) * (self.width as int)
                <= 0xffffffffffffffff * 0xffffffffffffffff) by (nonlinear_arith)
                requires
                    0 <= dx <= 0xffffffffffffffff,
                    0 <= self.width <= 0xffffffffffffffff,
            ;
            assert(0 <= (dy as int) * (self.height as int)
                <= 0xffffffffffffffff * 0xffffffffffffffff) by (nonlinear_arith)
                requires
                    0 <= dy <= 0xffffffffffffffff,
                    0 <= self.height <= 0xffffffffffffffff,
            ;
        }
        let ix128: u128 = ((dx as u128) * (self.width as u128)) / (ex as u128);
        let iy128: u128 = ((dy as u128) * (self.height as u128)) / (ey as u128);
        if ix128 < self.width as u128 && iy128 < self.height as u128 {
            proof {
                assert(self.width <= self.width * self.height && self.height <= self.width
                    * self.height) by (nonlinear_arith)
                    requires
                        self.width >= 1,
                        self.height >= 1,
                ;
            }
            Some((ix128 as usize, iy128 as usize))
        } else {
            None
        }
    }

    /// Deposit a point list: plainly, conserving exactly the landed weight,
    /// or antialiased, adding at most the total weight.
    pub fn add_points(&mut self, xyi: &Vec<(i64, i64, i64, usize, bool)>, antialiased: bool)
        requires
            old(self).wf(),
            points_ok(xyi@),
            old(self).mass() + total_weight(xyi@) <= MASS_CAP,
        ensures
            final(self).wf(),
            final(self).same_geometry(*old(self)),
            final(self).processed_mesh@ == old(self).processed_mesh@,
            final(self).processed_highlight_mesh@ == old(self).processed_highlight_mesh@,
            final(self).rgba8@ == old(self).rgba8@,
            !antialiased ==> final(self).mass() == old(self).mass() + landed_weight(
                *old(self),
                xyi@,
            ),
            antialiased ==> old(self).mass() <= final(self).mass() <= old(self).mass()
                + total_weight(xyi@),
    {
        let ghost pts = xyi@;
        let mut i: usize = 0;
        while i < xyi.len()
            invariant
                i <= pts.len(),
                xyi@ == pts,
                points_ok(pts),
                old(self).wf(),
                old(self).mass() + total_weight(pts) <= MASS_CAP,
                self.wf(),
                self.same_geometry(*old(self)),
                self.processed_mesh@ == old(self).processed_mesh@,
                self.processed_highlight_mesh@ == old(self).processed_highlight_mesh@,
                self.rgba8@ == old(self).rgba8@,
                !antialiased ==> self.mass() == old(self).mass() + landed_weight(
                    *old(self),
                    pts.take(i as int),
                ),
                antialiased ==> old(self).mass() <= self.mass() <= old(self).mass() + total_weight(
                    pts.take(i as int),
                ),
            decreases pts.len() - i,
        {
            let (x, y, w, index, highlight) = xyi[i];
            proof {
                assert(pts[i as int] == (x, y, w, index, highlight));
                assert(pts.take(i + 1).drop_last() =~= pts.take(i as int));
                assert(pts.take(i + 1).last() == pts[i as int]);
                lemma_landed_bounds(*old(self), pts.take(i as int));
                lemma_weight_prefix(pts, i as int);
                lemma_weight_prefix(pts, i + 1);
                assert(total_weight(pts.take(i + 1)) == total_weight(pts.take(i as int))
                    + w as int);
                assert(self.mass() + w <= MASS_CAP) by {
                    lemma_landed_bounds(*old(self), pts.take(i + 1));
                };
            }
            if antialiased {
                self.point_antialiased(x, y, w, index, highlight);
            } else {
                let ghost pre = *self;
                self.point(x, y, w, index, highlight);
                proof {
                    assert(pre.cell_of(x as int, y as int) == old(self).cell_of(
                        x as int,
                        y as int,
                    ));
                    assert(landed_weight(*old(self), pts.take(i + 1)) == landed_weight(
                        *old(self),
                        pts.take(i as int),
                    ) + (match old(self).cell_of(x as int, y as int) {
                        Some(_) => w as int,
                        None => 0,
                    }));
                }
            }
            i = i + 1;
        }
        proof {
            assert(pts.take(pts.len() as int) =~= pts);
        }
    }

    /// Deposit a point list with the spread-following kernel.
    pub fn add_points_gaussian(&mut self, xyi: &Vec<(i64, i64, i64, usize, bool)>, sigma: i64)
        requires
            old(self).wf(),
            points_ok(xyi@),
            old(self).mass() + total_weight(xyi@) <= MASS_CAP,
            1 <= sigma <= VAL_MAX,
        ensures
            final(self).wf(),
            final(self).same_geometry(*old(self)),
            final(self).processed_mesh@ == old(self).processed_mesh@,
            final(self).processed_highlight_mesh@ == old(self).processed_highlight_mesh@,
            final(self).rgba8@ == old(self).rgba8@,
            old(self).mass() <= final(self).mass() <= old(self).mass() + total_weight(xyi@),
    {
        let ghost pts = xyi@;
        let mut i: usize = 0;
        while i < xyi.len()
            invariant
                i <= pts.len(),
                xyi@ == pts,
                points_ok(pts),
                old(self).wf(),
                old(self).mass() + total_weight(pts) <= MASS_CAP,
                1 <= sigma <= VAL_MAX,
                self.wf(),
                self.same_geometry(*old(self)),
                self.processed_mesh@ == old(self).processed_mesh@,
                self.processed_highlight_mesh@ == old(self).processed_highlight_mesh@,
                self.rgba8@ == old(self).rgba8@,
                old(self).mass() <= self.mass() <= old(self).mass() + total_weight(
                    pts.take(i as int),
                ),
            decreases pts.len() - i,
        {
            let (x, y, w, index, highlight) = xyi[i];
            proof {
                assert(pts[i as int] == (x, y, w, index, highlight));
                assert(pts.take(i + 1).drop_last() =~= pts.take(i as int));
                assert(pts.take(i + 1).last() == pts[i as int]);
                lemma_weight_prefix(pts, i as int);
                lemma_weight_prefix(pts, i + 1);
                assert(total_weight(pts.take(i + 1)) == total_weight(pts.take(i as int))
                    + w as int);
            }
            self.point_gaussian(x, y, w, index, highlight, sigma);
            i = i + 1;
        }
        proof {
            assert(pts.take(pts.len() as int) =~= pts);
        }
    }
}


/// The post-processing curve: scale by the density multiplier, stretch
/// around mid-gray by the contrast, clamp into [0, SCALE].
pub open spec fn clamp_curve(p: int, m: int, c: int) -> int {
    let t = divt(p * m, SCALE as int);
    let u = divt((t - HALF) * c, SCALE as int) + HALF;
    spec_clamp01(u)
}

/// The blue level of the two-stop gradient.
pub open spec fn blue_level(m: int) -> int {
    if m < 0 {
        0
    } else if m >= HALF {
        255
    } else {
        (510 * m) / (SCALE as int)
    }
}

/// The green level of the two-stop gradient.
pub open spec fn green_level(m: int) -> int {
    if m < HALF {
        0
    } else if m >= SCALE {
        255
    } else {
        (510 * (m - HALF)) / (SCALE as int)
    }
}

/// The byte at offset `j` of the diagnostic pattern buffer: the cell's grid
/// coordinates, wrapped into one byte each, then zero blue and opaque alpha.
pub open spec fn pattern_pixel(w: int, j: int) -> int {
    let k = j / 4;
    let x = k % w;
    let y = k / w;
    if j % 4 == 0 {
        x % 256
    } else if j % 4 == 1 {
        y % 256
    } else if j % 4 == 2 {
        0
    } else {
        255
    }
}

/// The byte at offset `j` of the gray colorized buffer: the gray level of
/// the cell's processed density in the color components, opaque alpha.
pub open spec fn gray_pixel(cells: Seq<i64>, j: int) -> int {
    let k = j / 4;
    if j % 4 == 3 {
        255
    } else {
        gray_level(cells[k] as int)
    }
}

/// The byte at offset `j` of the blue-to-cyan colorized buffer: red zero,
/// then the green and blue gradient levels of the cell's processed density,
/// then opaque alpha.
pub open spec fn cyan_pixel(cells: Seq<i64>, j: int) -> int {
    let k = j / 4;
    if j % 4 == 0 {
        0
    } else if j % 4 == 1 {
        green_level(cells[k] as int)
    } else if j % 4 == 2 {
        blue_level(cells[k] as int)
    } else {
        255
    }
}

/// The gray (and red-highlight) level.
pub open spec fn gray_level(m: int) -> int {
    if m < 0 {
        0
    } else if m >= SCALE {
        255
    } else {
        (255 * m) / (SCALE as int)
    }
}

/// Apply the post-processing curve to one cell.
fn clamp_cell(p: i64, m: i64, c: i64) -> (r: i64)
    requires
        -2 * MASS_CAP <= p <= 2 * MASS_CAP,
        fits_val(m),
        fits_val(c),
    ensures
        r as int == clamp_curve(p as int, m as int, c as int),
        0 <= r <= SCALE,
{
    proof {
        assert(-100_000_000_000_000_000_000_000_000_000 <= (p as int) * (m as int)
            <= 100_000_000_000_000_000_000_000_000_000) by (nonlinear_arith)
            requires
                -2 * MASS_CAP <= p <= 2 * MASS_CAP,
                -VAL_MAX <= m <= VAL_MAX,
                MASS_CAP == 1_000_000_000_000_000_000,
                VAL_MAX == 10_000_000_000,
        ;
        lemma_divt_shrinks((p as int) * (m as int), SCALE as int);
    }
    let t: i128 = crate::fixed::muldiv_wide(p, m, SCALE);
    proof {
        let pm = (p as int) * (m as int);
        let q = 100_000_000_000_000_000_000_000int;
        assert(-100_000_000_000_000_000_000_000_000_000 <= pm
            <= 100_000_000_000_000_000_000_000_000_000) by (nonlinear_arith)
            requires
                pm == (p as int) * (m as int),
                -2_000_000_000_000_000_000 <= p as int <= 2_000_000_000_000_000_000,
                -10_000_000_000 <= m as int <= 10_000_000_000,
        ;
        assert(-q <= divt(pm, SCALE as int) <= q) by {
            if pm >= 0 {
                vstd::arithmetic::div_mod::lemma_div_is_ordered(
                    pm,
                    100_000_000_000_000_000_000_000_000_000,
                    SCALE as int,
                );
                vstd::arithmetic::div_mod::lemma_div_multiples_vanish(q, SCALE as int);
                vstd::arithmetic::div_mod::lemma_div_pos_is_pos(pm, SCALE as int);
            } else {
                vstd::arithmetic::div_mod::lemma_div_is_ordered(
                    -pm,
                    100_000_000_000_000_000_000_000_000_000,
                    SCALE as int,
                );
                vstd::arithmetic::div_mod::lemma_div_multiples_vanish(q, SCALE as int);
                vstd::arithmetic::div_mod::lemma_div_pos_is_pos(-pm, SCALE as int);
            }
        };
    }
    let shifted: i128 = t - (HALF as i128);
    proof {
        assert(-2_000_000_000_000_000_000_000_000_000_000_000_000 <= (shifted as int) * (
        c as int) <= 2_000_000_000_000_000_000_000_000_000_000_000_000) by (nonlinear_arith)
            requires
                -200_000_000_000_000_000_000_000 <= shifted as int
                    <= 200_000_000_000_000_000_000_000,
                -VAL_MAX <= c <= VAL_MAX,
                VAL_MAX == 10_000_000_000,
        ;
        lemma_divt_shrinks((shifted as int) * (c as int), SCALE as int);
    }
    let prod: i128 = shifted * (c as i128);
    let scaled: i128 = if prod >= 0 {
        ((prod as u128) / (SCALE as u128)) as i128
    } else {
        -((((-prod) as u128) / (SCALE as u128)) as i128)
    };
    let u: i128 = scaled + (HALF as i128);
    if u < 0 {
        0
    } else if u > SCALE as i128 {
        SCALE
    } else {
        u as i64
    }
}

impl Mesh {
    /// Copy the baseline channel into its processed copy.
    pub fn to_processed_mesh(&mut self)
        requires
            old(self).wf(),
        ensures
            final(self).wf(),
            *final(self) == (Mesh { processed_mesh: final(self).processed_mesh, ..*old(self) }),
            final(self).processed_mesh@ == old(self).mesh@,
    {
        let fresh = copy_cells(&self.mesh);
        self.processed_mesh = fresh;
    }

    /// Copy the highlighted channel into its processed copy.
    pub fn to_processed_highlight_mesh(&mut self)
        requires
            old(self).wf(),
        ensures
            final(self).wf(),
            *final(self) == (Mesh {
                processed_highlight_mesh: final(self).processed_highlight_mesh,
                ..*old(self)
            }),
            final(self).processed_highlight_mesh@ == old(self).highlight_mesh@,
    {
        let fresh = copy_cells(&self.highlight_mesh);
        self.processed_highlight_mesh = fresh;
    }

    /// Sum both channels into the processed baseline and zero the processed
    /// highlighted copy: the undifferentiated render mode.
    pub fn to_processed_mesh_sum_highlight(&mut self)
        requires
            old(self).wf(),
        ensures
            final(self).wf(),
            *final(self) == (Mesh {
                processed_mesh: final(self).processed_mesh,
                processed_highlight_mesh: final(self).processed_highlight_mesh,
                ..*old(self)
            }),
            final(self).processed_mesh@.len() == old(self).mesh@.len(),
            forall|k: int|
                0 <= k < old(self).mesh@.len() ==> final(self).processed_mesh@[k] == old(self).mesh@[k] + old(self).highlight_mesh@[k],
            forall|k: int|
                0 <= k < old(self).mesh@.len() ==> final(self).processed_highlight_mesh@[k] == 0,
    {
        proof {
            lemma_sum_bounds(self.mesh@);
            lemma_sum_bounds(self.highlight_mesh@);
        }
        let n = self.mesh.len();
        let mut summed: Vec<i64> = Vec::new();
        let mut i: usize = 0;
        while i < n
            invariant
                i <= n,
                n == self.mesh@.len(),
                self.wf(),
                summed@.len() == i,
                forall|k: int|
                    0 <= k < i ==> #[trigger] summed@[k] == self.mesh@[k]
                        + self.highlight_mesh@[k],
            decreases n - i,
        {
            proof {
                lemma_sum_bounds(self.mesh@);
                lemma_sum_bounds(self.highlight_mesh@);
            }
            summed.push(self.mesh[i] + self.highlight_mesh[i]);
            i = i + 1;
        }
        self.processed_mesh = summed;
        self.processed_highlight_mesh = zero_cells(n);
    }

    /// Post-process the processed baseline: density multiplier, contrast
    /// stretch around mid-gray, clamp into [0, SCALE].
    pub fn clamp_processed_mesh(&mut self, multiplier: i64, contrast: i64)
        requires
            old(self).wf(),
            fits_val(multiplier),
            fits_val(contrast),
            forall|k: int|
                0 <= k < old(self).processed_mesh@.len() ==> -2 * MASS_CAP <= #[trigger] old(self).processed_mesh@[k] <= 2 * MASS_CAP,
        ensures
            final(self).wf(),
            *final(self) == (Mesh { processed_mesh: final(self).processed_mesh, ..*old(self) }),
            final(self).processed_mesh@.len() == old(self).processed_mesh@.len(),
            forall|k: int|
                0 <= k < old(self).processed_mesh@.len() ==> final(self).processed_mesh@[k]
                    == clamp_curve(
                    old(self).processed_mesh@[k] as int,
                    multiplier as int,
                    contrast as int,
                ),
    {
        let n = self.processed_mesh.len();
        let mut fresh: Vec<i64> = Vec::new();
        let mut i: usize = 0;
        while i < n
            invariant
                i <= n,
                n == self.processed_mesh@.len(),
                fits_val(multiplier),
                fits_val(contrast),
                forall|k: int|
                    0 <= k < n ==> -2 * MASS_CAP <= #[trigger] self.processed_mesh@[k] <= 2
                        * MASS_CAP,
                fresh@.len() == i,
                forall|k: int|
                    0 <= k < i ==> #[trigger] fresh@[k] == clamp_curve(
                        self.processed_mesh@[k] as int,
                        multiplier as int,
                        contrast as int,
                    ),
            decreases n - i,
        {
            let v = clamp_cell(self.processed_mesh[i], multiplier, contrast);
            fresh.push(v);
            i = i + 1;
        }
        self.processed_mesh = fresh;
    }

    /// Post-process the processed highlighted copy the same way.
    pub fn clamp_processed_highlight_mesh(&mut self, multiplier: i64, contrast: i64)
        requires
            old(self).wf(),
            fits_val(multiplier),
            fits_val(contrast),
            forall|k: int|
                0 <= k < old(self).processed_highlight_mesh@.len() ==> -2 * MASS_CAP
                    <= #[trigger] old(self).processed_highlight_mesh@[k] <= 2 * MASS_CAP,
        ensures
            final(self).wf(),
            *final(self) == (Mesh {
                processed_highlight_mesh: final(self).processed_highlight_mesh,
                ..*old(self)
            }),
            final(self).processed_highlight_mesh@.len() == old(self).processed_highlight_mesh@.len(),
            forall|k: int|
                0 <= k < old(self).processed_highlight_mesh@.len() ==> final(self).processed_highlight_mesh@[k] == clamp_curve(
                    old(self).processed_highlight_mesh@[k] as int,
                    multiplier as int,
                    contrast as int,
                ),
    {
        let n = self.processed_highlight_mesh.len();
        let mut fresh: Vec<i64> = Vec::new();
        let mut i: usize = 0;
        while i < n
            invariant
                i <= n,
                n == self.processed_highlight_mesh@.len(),
                fits_val(multiplier),
                fits_val(contrast),
                forall|k: int|
                    0 <= k < n ==> -2 * MASS_CAP <= #[trigger] self.processed_highlight_mesh@[k]
                        <= 2 * MASS_CAP,
                fresh@.len() == i,
                forall|k: int|
                    0 <= k < i ==> #[trigger] fresh@[k] == clamp_curve(
                        self.processed_highlight_mesh@[k] as int,
                        multiplier as int,
                        contrast as int,
                    ),
            decreases n - i,
        {
            let v = clamp_cell(self.processed_highlight_mesh[i], multiplier, contrast);
            fresh.push(v);
            i = i + 1;
        }
        self.processed_highlight_mesh = fresh;
    }

    /// Rescale the processed baseline so its maximum becomes one whole unit;
    /// an all-zero channel is left as is (the divisor falls back to one).
    pub fn normalize_processed_mesh(&mut self)
        requires
            old(self).wf(),
            forall|k: int|
                0 <= k < old(self).processed_mesh@.len() ==> 0 <= #[trigger] old(self).processed_mesh@[k] <= 2 * MASS_CAP,
        ensures
            final(self).wf(),
            *final(self) == (Mesh { processed_mesh: final(self).processed_mesh, ..*old(self) }),
            final(self).processed_mesh@.len() == old(self).processed_mesh@.len(),
            forall|k: int| #![trigger final(self).processed_mesh@[k]]
                0 <= k < old(self).processed_mesh@.len() ==> final(self).processed_mesh@[k]
                    as int == (old(self).processed_mesh@[k] * SCALE) / (if seq_max(
                    old(self).processed_mesh@,
                ) == 0 {
                    1int
                } else {
                    seq_max(old(self).processed_mesh@)
                }),
    {
        let fresh = normalize_cells(&self.processed_mesh);
        self.processed_mesh = fresh;
    }

    /// Rescale the processed highlighted copy the same way.
    pub fn normalize_processed_highlight_mesh(&mut self)
        requires
            old(self).wf(),
            forall|k: int|
                0 <= k < old(self).processed_highlight_mesh@.len() ==> 0 <= #[trigger] old(self).processed_highlight_mesh@[k] <= 2 * MASS_CAP,
        ensures
            final(self).wf(),
            *final(self) == (Mesh {
                processed_highlight_mesh: final(self).processed_highlight_mesh,
                ..*old(self)
            }),
            final(self).processed_highlight_mesh@.len() == old(self).processed_highlight_mesh@.len(),
            forall|k: int| #![trigger final(self).processed_highlight_mesh@[k]]
                0 <= k < old(self).processed_highlight_mesh@.len() ==> final(self).processed_highlight_mesh@[k] as int == (old(self).processed_highlight_mesh@[k]
                    * SCALE) / (if seq_max(old(self).processed_highlight_mesh@) == 0 {
                    1int
                } else {
                    seq_max(old(self).processed_highlight_mesh@)
                }),
    {
        let fresh = normalize_cells(&self.processed_highlight_mesh);
        self.processed_highlight_mesh = fresh;
    }

    /// Scale the processed baseline by a factor in micro-units; meant for a
    /// channel already inside [0, SCALE].
    pub fn multiply_processed_mesh(&mut self, value: i64)
        requires
            old(self).wf(),
            fits_val(value),
            forall|k: int|
                0 <= k < old(self).processed_mesh@.len() ==> 0 <= #[trigger] old(self).processed_mesh@[k] <= SCALE,
        ensures
            final(self).wf(),
            *final(self) == (Mesh { processed_mesh: final(self).processed_mesh, ..*old(self) }),
            final(self).processed_mesh@.len() == old(self).processed_mesh@.len(),
            forall|k: int| #![trigger final(self).processed_mesh@[k]]
                0 <= k < old(self).processed_mesh@.len() ==> final(self).processed_mesh@[k]
                    as int == divt(old(self).processed_mesh@[k] * value, SCALE as int),
    {
        let fresh = scale_cells(&self.processed_mesh, value);
        self.processed_mesh = fresh;
    }

    /// Scale the processed highlighted copy by a factor in micro-units.
    pub fn multiply_processed_highlight_mesh(&mut self, value: i64)
        requires
            old(self).wf(),
            fits_val(value),
            forall|k: int|
                0 <= k < old(self).processed_highlight_mesh@.len() ==> 0 <= #[trigger] old(self).processed_highlight_mesh@[k] <= SCALE,
        ensures
            final(self).wf(),
            *final(self) == (Mesh {
                processed_highlight_mesh: final(self).processed_highlight_mesh,
                ..*old(self)
            }),
            final(self).processed_highlight_mesh@.len() == old(self).processed_highlight_mesh@.len(),
            forall|k: int| #![trigger final(self).processed_highlight_mesh@[k]]
                0 <= k < old(self).processed_highlight_mesh@.len() ==> final(self).processed_highlight_mesh@[k] as int == divt(
                    old(self).processed_highlight_mesh@[k] * value,
                    SCALE as int,
                ),
    {
        let fresh = scale_cells(&self.processed_highlight_mesh, value);
        self.processed_highlight_mesh = fresh;
    }

    /// Zero the processed baseline.
    pub fn clean_processed_mesh(&mut self)
        requires
            old(self).wf(),
        ensures
            final(self).wf(),
            *final(self) == (Mesh { processed_mesh: final(self).processed_mesh, ..*old(self) }),
            final(self).processed_mesh@.len() == old(self).processed_mesh@.len(),
            forall|k: int|
                0 <= k < old(self).processed_mesh@.len() ==> final(self).processed_mesh@[k] == 0,
    {
        let n = self.processed_mesh.len();
        self.processed_mesh = zero_cells(n);
    }

    /// Zero the processed highlighted copy.
    pub fn clean_processed_highlight_mesh(&mut self)
        requires
            old(self).wf(),
        ensures
            final(self).wf(),
            *final(self) == (Mesh {
                processed_highlight_mesh: final(self).processed_highlight_mesh,
                ..*old(self)
            }),
            final(self).processed_highlight_mesh@.len() == old(self).processed_highlight_mesh@.len(),
            forall|k: int|
                0 <= k < old(self).processed_highlight_mesh@.len() ==> final(self).processed_highlight_mesh@[k] == 0,
    {
        let n = self.processed_highlight_mesh.len();
        self.processed_highlight_mesh = zero_cells(n);
    }

    /// Blank the output buffer to opaque black.
    pub fn clean_rgba(&mut self)
        requires
            old(self).wf(),
        ensures
            final(self).wf(),
            *final(self) == (Mesh { rgba8: final(self).rgba8, ..*old(self) }),
            final(self).rgba8@.len() == old(self).rgba8@.len(),
            forall|k: int| #![trigger final(self).rgba8@[k]]
                0 <= k < old(self).rgba8@.len() ==> final(self).rgba8@[k] == (if k % 4 == 3 {
                    255u8
                } else {
                    0u8
                }),
    {
        let n = self.rgba8.len();
        let mut fresh: Vec<u8> = Vec::new();
        let mut i: usize = 0;
        while i < n
            invariant
                i <= n,
                fresh@.len() == i,
                forall|k: int| #![trigger fresh@[k]]
                    0 <= k < i ==> fresh@[k] == (if k % 4 == 3 {
                        255u8
                    } else {
                        0u8
                    }),
            decreases n - i,
        {
            if i % 4 == 3 {
                fresh.push(255);
            } else {
                fresh.push(0);
            }
            i = i + 1;
        }
        self.rgba8 = fresh;
    }

    /// Colorize the processed baseline as gray levels, alpha opaque.
    pub fn to_rgba8_gray(&mut self)
        requires
            old(self).wf(),
        ensures
            final(self).wf(),
            *final(self) == (Mesh { rgba8: final(self).rgba8, ..*old(self) }),
            final(self).rgba8@.len() == old(self).rgba8@.len(),
            forall|j: int| #![trigger final(self).rgba8@[j]]
                0 <= j < final(self).rgba8@.len() ==> final(self).rgba8@[j] as int == gray_pixel(
                    old(self).processed_mesh@,
                    j,
                ),
    {
        let n = self.processed_mesh.len();
        let mut fresh: Vec<u8> = Vec::new();
        let mut i: usize = 0;
        while i < n
            invariant
                i <= n,
                n == self.processed_mesh@.len(),
                self.wf(),
                fresh@.len() == 4 * i,
                forall|j: int| #![trigger fresh@[j]]
                    0 <= j < fresh@.len() ==> fresh@[j] as int == gray_pixel(
                        self.processed_mesh@,
                        j,
                    ),
            decreases n - i,
        {
            let m = self.processed_mesh[i];
            let level: u8 = if m < 0 {
                0
            } else if m >= SCALE {
                255
            } else {
                ((255 * m) / SCALE) as u8
            };
            proof {
                if 0 <= m < SCALE {
                    vstd::arithmetic::div_mod::lemma_multiply_divide_lt(
                        255 * (m as int),
                        SCALE as int,
                        256,
                    );
                    vstd::arithmetic::div_mod::lemma_div_pos_is_pos(255 * (m as int), SCALE as int);
                }
            }
            fresh.push(level);
            fresh.push(level);
            fresh.push(level);
            fresh.push(255);
            proof {
                let base = 4 * (i as int);
                assert(base / 4 == i as int && base % 4 == 0) by {
                    vstd::arithmetic::div_mod::lemma_fundamental_div_mod_converse(
                        base,
                        4,
                        i as int,
                        0,
                    );
                };
                assert((base + 1) / 4 == i as int && (base + 1) % 4 == 1) by {
                    vstd::arithmetic::div_mod::lemma_fundamental_div_mod_converse(
                        base + 1,
                        4,
                        i as int,
                        1,
                    );
                };
                assert((base + 2) / 4 == i as int && (base + 2) % 4 == 2) by {
                    vstd::arithmetic::div_mod::lemma_fundamental_div_mod_converse(
                        base + 2,
                        4,
                        i as int,
                        2,
                    );
                };
                assert((base + 3) / 4 == i as int && (base + 3) % 4 == 3) by {
                    vstd::arithmetic::div_mod::lemma_fundamental_div_mod_converse(
                        base + 3,
                        4,
                        i as int,
                        3,
                    );
                };
            }
            i = i + 1;
        }
        self.rgba8 = fresh;
    }

    /// Colorize the processed baseline through the blue-to-cyan gradient,
    /// alpha opaque, red zeroed.
    pub fn to_rgba8_blue_cyan(&mut self)
        requires
            old(self).wf(),
        ensures
            final(self).wf(),
            *final(self) == (Mesh { rgba8: final(self).rgba8, ..*old(self) }),
            final(self).rgba8@.len() == old(self).rgba8@.len(),
            forall|j: int| #![trigger final(self).rgba8@[j]]
                0 <= j < final(self).rgba8@.len() ==> final(self).rgba8@[j] as int == cyan_pixel(
                    old(self).processed_mesh@,
                    j,
                ),
    {
        let n = self.processed_mesh.len();
        let mut fresh: Vec<u8> = Vec::new();
        let mut i: usize = 0;
        while i < n
            invariant
                i <= n,
                n == self.processed_mesh@.len(),
                self.wf(),
                fresh@.len() == 4 * i,
                forall|j: int| #![trigger fresh@[j]]
                    0 <= j < fresh@.len() ==> fresh@[j] as int == cyan_pixel(
                        self.processed_mesh@,
                        j,
                    ),
            decreases n - i,
        {
            let m = self.processed_mesh[i];
            let blue: u8 = if m < 0 {
                0
            } else if m >= HALF {
                255
            } else {
                ((510 * m) / SCALE) as u8
            };
            let green: u8 = if m < HALF {
                0
            } else if m >= SCALE {
                255
            } else {
                ((510 * (m - HALF)) / SCALE) as u8
            };
            proof {
                if 0 <= m < HALF {
                    vstd::arithmetic::div_mod::lemma_multiply_divide_lt(
                        510 * (m as int),
                        SCALE as int,
                        256,
                    );
                    vstd::arithmetic::div_mod::lemma_div_pos_is_pos(510 * (m as int), SCALE as int);
                }
                if HALF <= m < SCALE {
                    vstd::arithmetic::div_mod::lemma_multiply_divide_lt(
                        510 * (m as int - HALF),
                        SCALE as int,
                        256,
                    );
                    vstd::arithmetic::div_mod::lemma_div_pos_is_pos(
                        510 * (m as int - HALF),
                        SCALE as int,
                    );
                }
            }
            fresh.push(0);
            fresh.push(green);
            fresh.push(blue);
            fresh.push(255);
            proof {
                let base = 4 * (i as int);
                assert(base / 4 == i as int && base % 4 == 0) by {
                    vstd::arithmetic::div_mod::lemma_fundamental_div_mod_converse(
                        base,
                        4,
                        i as int,
                        0,
                    );
                };
                assert((base + 1) / 4 == i as int && (base + 1) % 4 == 1) by {
                    vstd::arithmetic::div_mod::lemma_fundamental_div_mod_converse(
                        base + 1,
                        4,
                        i as int,
                        1,
                    );
                };
                assert((base + 2) / 4 == i as int && (base + 2) % 4 == 2) by {
                    vstd::arithmetic::div_mod::lemma_fundamental_div_mod_converse(
                        base + 2,
                        4,
                        i as int,
                        2,
                    );
                };
                assert((base + 3) / 4 == i as int && (base + 3) % 4 == 3) by {
                    vstd::arithmetic::div_mod::lemma_fundamental_div_mod_converse(
                        base + 3,
                        4,
                        i as int,
                        3,
                    );
                };
            }
            i = i + 1;
        }
        self.rgba8 = fresh;
    }

    /// Overwrite the red component from the processed highlighted copy,
    /// leaving the other components.
    pub fn add_rgba8_red_highlight(&mut self)
        requires
            old(self).wf(),
        ensures
            final(self).wf(),
            *final(self) == (Mesh { rgba8: final(self).rgba8, ..*old(self) }),
            final(self).rgba8@.len() == old(self).rgba8@.len(),
            forall|k: int| #![trigger final(self).rgba8@[4 * k]]
                0 <= k < old(self).processed_highlight_mesh@.len() ==> final(self).rgba8@[4 * k]
                    as int == gray_level(old(self).processed_highlight_mesh@[k] as int),
            forall|k: int| #![trigger final(self).rgba8@[k]]
                0 <= k < old(self).rgba8@.len() && k % 4 != 0 ==> final(self).rgba8@[k] == old(self).rgba8@[k],
    {
        let n = self.processed_highlight_mesh.len();
        let ghost orig = self.rgba8@;
        let mut i: usize = 0;
        while i < n
            invariant
                i <= n,
                n == self.processed_highlight_mesh@.len(),
                self.processed_highlight_mesh@ == old(self).processed_highlight_mesh@,
                self.rgba8@.len() == orig.len(),
                orig == old(self).rgba8@,
                n * 4 == orig.len(),
                *self == (Mesh { rgba8: self.rgba8, ..*old(self) }),
                self.wf(),
                forall|k: int| #![trigger self.rgba8@[4 * k]]
                    0 <= k < i ==> self.rgba8@[4 * k] as int == gray_level(
                        self.processed_highlight_mesh@[k] as int,
                    ),
                forall|k: int| #![trigger self.rgba8@[k]]
                    0 <= k < orig.len() && (k % 4 != 0 || k >= 4 * i) ==> self.rgba8@[k] == orig[k],
            decreases n - i,
        {
            let m = self.processed_highlight_mesh[i];
            let red: u8 = if m < 0 {
                0
            } else if m >= SCALE {
                255
            } else {
                ((255 * m) / SCALE) as u8
            };
            proof {
                if 0 <= m < SCALE {
                    vstd::arithmetic::div_mod::lemma_multiply_divide_lt(
                        255 * (m as int),
                        SCALE as int,
                        256,
                    );
                    vstd::arithmetic::div_mod::lemma_div_pos_is_pos(255 * (m as int), SCALE as int);
                }
                assert(4 * (i as int) < orig.len()) by (nonlinear_arith)
                    requires
                        0 <= i < n,
                        n * 4 == orig.len(),
                ;
            }
            let pos = 4 * i;
            self.rgba8[pos] = red;
            i = i + 1;
        }
    }

    /// Paint the diagnostic pattern: the cell's x coordinate into red, its y
    /// coordinate into green, blue zero, alpha opaque.
    pub fn test_pattern(&mut self)
        requires
            old(self).wf(),
        ensures
            final(self).wf(),
            *final(self) == (Mesh { rgba8: final(self).rgba8, ..*old(self) }),
            final(self).rgba8@.len() == old(self).rgba8@.len(),
            forall|j: int| #![trigger final(self).rgba8@[j]]
                0 <= j < final(self).rgba8@.len() ==> final(self).rgba8@[j] as int
                    == pattern_pixel(old(self).width as int, j),
    {
        let n = self.width * self.height;
        if self.width == 0 {
            return ;
        }
        let w = self.width;
        let mut fresh: Vec<u8> = Vec::new();
        let mut k: usize = 0;
        while k < n
            invariant
                k <= n,
                1 <= w == self.width,
                self.wf(),
                n == self.width * self.height,
                fresh@.len() == 4 * k,
                forall|j: int| #![trigger fresh@[j]]
                    0 <= j < fresh@.len() ==> fresh@[j] as int == pattern_pixel(w as int, j),
            decreases n - k,
        {
            let x = k % w;
            let y = k / w;
            fresh.push((x % 256) as u8);
            fresh.push((y % 256) as u8);
            fresh.push(0);
            fresh.push(255);
            proof {
                let base = 4 * (k as int);
                assert(base / 4 == k as int && base % 4 == 0) by {
                    vstd::arithmetic::div_mod::lemma_fundamental_div_mod_converse(
                        base,
                        4,
                        k as int,
                        0,
                    );
                };
                assert((base + 1) / 4 == k as int && (base + 1) % 4 == 1) by {
                    vstd::arithmetic::div_mod::lemma_fundamental_div_mod_converse(
                        base + 1,
                        4,
                        k as int,
                        1,
                    );
                };
                assert((base + 2) / 4 == k as int && (base + 2) % 4 == 2) by {
                    vstd::arithmetic::div_mod::lemma_fundamental_div_mod_converse(
                        base + 2,
                        4,
                        k as int,
                        2,
                    );
                };
                assert((base + 3) / 4 == k as int && (base + 3) % 4 == 3) by {
                    vstd::arithmetic::div_mod::lemma_fundamental_div_mod_converse(
                        base + 3,
                        4,
                        k as int,
                        3,
                    );
                };
            }
            k = k + 1;
        }
        self.rgba8 = fresh;
    }
}

/// A copy of a cell vector.
fn copy_cells(src: &Vec<i64>) -> (r: Vec<i64>)
    ensures
        r@ == src@,
{
    let mut out: Vec<i64> = Vec::new();
    let mut i: usize = 0;
    while i < src.len()
        invariant
            i <= src@.len(),
            out@ =~= src@.take(i as int),
        decreases src@.len() - i,
    {
        out.push(src[i]);
        proof {
            assert(out@ =~= src@.take(i + 1));
        }
        i = i + 1;
    }
    proof {
        assert(out@ =~= src@);
    }
    out
}

/// Rescale cells so the maximum becomes one whole unit.
fn normalize_cells(src: &Vec<i64>) -> (r: Vec<i64>)
    requires
        forall|k: int| 0 <= k < src@.len() ==> 0 <= #[trigger] src@[k] <= 2 * MASS_CAP,
    ensures
        r@.len() == src@.len(),
        forall|k: int| #![trigger r@[k]]
            0 <= k < src@.len() ==> r@[k] as int == (src@[k] * SCALE) / (if seq_max(src@) == 0 {
                1int
            } else {
                seq_max(src@)
            }),
{
    let n = src.len();
    if n == 0 {
        return Vec::new();
    }
    proof {
        lemma_min_max(src@);
    }
    let mut maximum: i64 = src[0];
    let mut i: usize = 1;
    while i < n
        invariant
            1 <= i <= n,
            n == src@.len(),
            forall|k: int| 0 <= k < src@.len() ==> 0 <= #[trigger] src@[k] <= 2 * MASS_CAP,
            maximum == seq_max(src@.take(i as int)),
            0 <= maximum <= 2 * MASS_CAP,
        decreases n - i,
    {
        proof {
            assert(src@.take(i + 1).drop_last() =~= src@.take(i as int));
            assert(src@.take(i + 1).last() == src@[i as int]);
        }
        let x = src[i];
        if x > maximum {
            maximum = x;
        }
        i = i + 1;
    }
    proof {
        assert(src@.take(1) =~= seq![src@[0]]);
        assert(src@.take(n as int) =~= src@);
    }
    let divisor: i64 = if maximum == 0 {
        1
    } else {
        maximum
    };
    let mut out: Vec<i64> = Vec::new();
    let mut j: usize = 0;
    while j < n
        invariant
            j <= n,
            n == src@.len(),
            forall|k: int| 0 <= k < src@.len() ==> 0 <= #[trigger] src@[k] <= 2 * MASS_CAP,
            divisor == (if seq_max(src@) == 0 {
                1int
            } else {
                seq_max(src@)
            }),
            divisor >= 1,
            forall|k: int| 0 <= k < src@.len() ==> #[trigger] src@[k] <= divisor,
            out@.len() == j,
            forall|k: int| #![trigger out@[k]]
                0 <= k < j ==> out@[k] as int == (src@[k] * SCALE) / (divisor as int),
        decreases n - j,
    {
        let x = src[j];
        proof {
            assert(0 <= (x as int) * (SCALE as int) && (x as int) * (SCALE as int) <= (
            divisor as int) * (SCALE as int)) by (nonlinear_arith)
                requires
                    0 <= x <= divisor,
                    SCALE > 0,
            ;
            vstd::arithmetic::div_mod::lemma_div_is_ordered(
                (x as int) * (SCALE as int),
                (divisor as int) * (SCALE as int),
                divisor as int,
            );
            vstd::arithmetic::div_mod::lemma_div_multiples_vanish(SCALE as int, divisor as int);
            vstd::arithmetic::div_mod::lemma_div_pos_is_pos((x as int) * (SCALE as int), divisor as int);
            lemma_divt_shrinks((x as int) * (SCALE as int), divisor as int);
        }
        let v = crate::fixed::muldiv(x, SCALE, divisor);
        out.push(v);
        j = j + 1;
    }
    proof {
        if seq_max(src@) == 0 {
        }
    }
    out
}

/// Scale cells by a factor in micro-units.
fn scale_cells(src: &Vec<i64>, value: i64) -> (r: Vec<i64>)
    requires
        fits_val(value),
        forall|k: int| 0 <= k < src@.len() ==> 0 <= #[trigger] src@[k] <= SCALE,
    ensures
        r@.len() == src@.len(),
        forall|k: int| #![trigger r@[k]]
            0 <= k < src@.len() ==> r@[k] as int == divt(src@[k] * value, SCALE as int),
{
    let n = src.len();
    let mut out: Vec<i64> = Vec::new();
    let mut j: usize = 0;
    while j < n
        invariant
            j <= n,
            n == src@.len(),
            fits_val(value),
            forall|k: int| 0 <= k < src@.len() ==> 0 <= #[trigger] src@[k] <= SCALE,
            out@.len() == j,
            forall|k: int| #![trigger out@[k]]
                0 <= k < j ==> out@[k] as int == divt(src@[k] * value, SCALE as int),
        decreases n - j,
    {
        let x = src[j];
        proof {
            assert(-(1_000_000 * VAL_MAX) <= (x as int) * (value as int) <= 1_000_000 * VAL_MAX)
                by (nonlinear_arith)
                requires
                    0 <= x <= SCALE,
                    -VAL_MAX <= value <= VAL_MAX,
                    SCALE == 1_000_000,
            ;
            lemma_divt_shrinks((x as int) * (value as int), SCALE as int);
        }
        let v = crate::fixed::muldiv(x, value, SCALE);
        out.push(v);
        j = j + 1;
    }
    out
}


/// Largest magnitude the view bounds may take: the value range widened by
/// the zoom margin.
pub const BOUND_MAX: i64 = 100_000_000_000;

/// The render settings: columns, view bounds, grid size, kernel and
/// post-processing parameters.
pub struct Parameters {
    pub xcolumn: String,
    pub ycolumn: String,
    pub weight_column: String,
    pub highlight_column: String,
    pub highlight_value: String,
    pub highlight_type: HighlightType,
    pub mesh_width: usize,
    pub mesh_height: usize,
    pub xmin: i64,
    pub xmax: i64,
    pub ymin: i64,
    pub ymax: i64,
    pub gaussian_points: bool,
    pub point_sigma: i64,
    pub density_multiplier: i64,
    pub contrast: i64,
}

impl Parameters {
    /// Bounds the settings always satisfy.
    pub open spec fn wf(self) -> bool {
        &&& 1 <= self.mesh_width
        &&& 1 <= self.mesh_height
        &&& self.mesh_width * self.mesh_height <= CELLS_MAX
        &&& -BOUND_MAX <= self.xmin <= BOUND_MAX
        &&& -BOUND_MAX <= self.xmax <= BOUND_MAX
        &&& -BOUND_MAX <= self.ymin <= BOUND_MAX
        &&& -BOUND_MAX <= self.ymax <= BOUND_MAX
        &&& 1 <= self.point_sigma <= VAL_MAX
        &&& fits_val(self.density_multiplier)
        &&& fits_val(self.contrast)
    }

    pub fn new() -> (r: Parameters)
        ensures
            r.wf(),
            r.mesh_width == 800 && r.mesh_height == 800,
            r.xmin == 0 && r.xmax == SCALE && r.ymin == 0 && r.ymax == SCALE,
            r.highlight_type == HighlightType::Highlight,
            !r.gaussian_points,
            r.point_sigma == SCALE,
            r.density_multiplier == SCALE,
            r.contrast == SCALE,
            r.xcolumn@.len() == 0 && r.ycolumn@.len() == 0 && r.weight_column@.len() == 0,
    {
        proof {
            assert(800 * 800 <= CELLS_MAX) by (nonlinear_arith);
        }
        Parameters {
            xcolumn: String::new(),
            ycolumn: String::new(),
            weight_column: String::new(),
            highlight_column: String::new(),
            highlight_value: String::new(),
            highlight_type: HighlightType::Highlight,
            mesh_width: 800,
            mesh_height: 800,
            xmin: 0,
            xmax: SCALE,
            ymin: 0,
            ymax: SCALE,
            gaussian_points: false,
            point_sigma: SCALE,
            density_multiplier: SCALE,
            contrast: SCALE,
        }
    }

    /// A fresh mesh sized and bounded by these settings.
    pub fn new_mesh(&self) -> (r: Mesh)
        requires
            self.wf(),
        ensures
            r.wf(),
            r.width == self.mesh_width && r.height == self.mesh_height,
            r.xmin == self.xmin && r.xmax == self.xmax,
            r.ymin == self.ymin && r.ymax == self.ymax,
            r.mass() == 0,
            forall|k: int| 0 <= k < r.index_mesh@.len() ==> r.index_mesh@[k] == 0,
    {
        let mut mesh = Mesh::new();
        self.adapt_mesh(&mut mesh);
        mesh
    }

    /// Resize and rebound a mesh to these settings, clearing it.
    pub fn adapt_mesh(&self, mesh: &mut Mesh)
        requires
            self.wf(),
        ensures
            final(mesh).wf(),
            final(mesh).width == self.mesh_width && final(mesh).height == self.mesh_height,
            final(mesh).xmin == self.xmin && final(mesh).xmax == self.xmax,
            final(mesh).ymin == self.ymin && final(mesh).ymax == self.ymax,
            final(mesh).mass() == 0,
            forall|k: int| 0 <= k < final(mesh).index_mesh@.len() ==> final(mesh).index_mesh@[k]
                == 0,
    {
        mesh.resize(self.mesh_width, self.mesh_height);
        mesh.xmin = self.xmin;
        mesh.xmax = self.xmax;
        mesh.ymin = self.ymin;
        mesh.ymax = self.ymax;
    }

    /// Fit the horizontal bounds to the values, widened by three cells of
    /// margin on each side.
    pub fn zoom_all_x(&mut self, v: &Vec<i64>)
        requires
            old(self).wf(),
            forall|k: int| 0 <= k < v@.len() ==> fits_val(#[trigger] v@[k]),
        ensures
            final(self).wf(),
            *final(self) == (Parameters {
                xmin: final(self).xmin,
                xmax: final(self).xmax,
                ..*old(self)
            }),
            v@.len() > 0 ==> ({
                let lo = crate::transform::seq_min(v@);
                let hi = crate::transform::seq_max(v@);
                let margin = divt((hi - lo) * 3, old(self).mesh_width as int);
                final(self).xmin == lo - margin && final(self).xmax == hi + margin
            }),
            v@.len() == 0 ==> ({
                let margin = divt(
                    (old(self).xmax - old(self).xmin) * 3,
                    old(self).mesh_width as int,
                );
                final(self).xmin == spec_clamp_bound(old(self).xmin - margin) && final(self).xmax == spec_clamp_bound(old(self).xmax + margin)
            }),
    {
        proof {
            assert(self.mesh_width <= CELLS_MAX) by (nonlinear_arith)
                requires
                    1 <= self.mesh_width,
                    1 <= self.mesh_height,
                    self.mesh_width * self.mesh_height <= CELLS_MAX,
            ;
        }
        if v.len() > 0 {
            proof {
                lemma_min_max(v@);
            }
            let mut lo: i64 = v[0];
            let mut hi: i64 = v[0];
            let mut k: usize = 1;
            proof {
                assert(v@.take(1) =~= seq![v@[0]]);
            }
            while k < v.len()
                invariant
                    1 <= k <= v@.len(),
                    forall|j: int| 0 <= j < v@.len() ==> fits_val(#[trigger] v@[j]),
                    lo == crate::transform::seq_min(v@.take(k as int)),
                    hi == crate::transform::seq_max(v@.take(k as int)),
                    fits_val(lo),
                    fits_val(hi),
                decreases v@.len() - k,
            {
                proof {
                    assert(v@.take(k + 1).drop_last() =~= v@.take(k as int));
                    assert(v@.take(k + 1).last() == v@[k as int]);
                }
                let x = v[k];
                if x < lo {
                    lo = x;
                }
                if x > hi {
                    hi = x;
                }
                k = k + 1;
            }
            proof {
                assert(v@.take(v@.len() as int) =~= v@);
                lemma_divt_shrinks((hi - lo) * 3, self.mesh_width as int);
                assert(0 <= (hi as int - lo) * 3 <= 60_000_000_000) by (nonlinear_arith)
                    requires
                        0 <= hi - lo <= 2 * VAL_MAX,
                        VAL_MAX == 10_000_000_000,
                ;
            }
            let margin = crate::fixed::muldiv(hi - lo, 3, self.mesh_width as i64);
            self.xmin = lo - margin;
            self.xmax = hi + margin;
        } else {
            proof {
                lemma_divt_shrinks((self.xmax - self.xmin) * 3, self.mesh_width as int);
                assert(-600_000_000_000 <= (self.xmax as int - self.xmin) * 3
                    <= 600_000_000_000) by (nonlinear_arith)
                    requires
                        -2 * BOUND_MAX <= self.xmax - self.xmin <= 2 * BOUND_MAX,
                        BOUND_MAX == 100_000_000_000,
                ;
            }
            let margin = crate::fixed::muldiv(self.xmax - self.xmin, 3, self.mesh_width as i64);
            let nxmin = (self.xmin as i128) - (margin as i128);
            let nxmax = (self.xmax as i128) + (margin as i128);
            self.xmin = clamp_bound(nxmin);
            self.xmax = clamp_bound(nxmax);
        }
    }

    /// Fit the vertical bounds to the values the same way.
    pub fn zoom_all_y(&mut self, v: &Vec<i64>)
        requires
            old(self).wf(),
            forall|k: int| 0 <= k < v@.len() ==> fits_val(#[trigger] v@[k]),
        ensures
            final(self).wf(),
            *final(self) == (Parameters {
                ymin: final(self).ymin,
                ymax: final(self).ymax,
                ..*old(self)
            }),
            v@.len() > 0 ==> ({
                let lo = crate::transform::seq_min(v@);
                let hi = crate::transform::seq_max(v@);
                let margin = divt((hi - lo) * 3, old(self).mesh_height as int);
                final(self).ymin == lo - margin && final(self).ymax == hi + margin
            }),
            v@.len() == 0 ==> ({
                let margin = divt(
                    (old(self).ymax - old(self).ymin) * 3,
                    old(self).mesh_height as int,
                );
                final(self).ymin == spec_clamp_bound(old(self).ymin - margin) && final(self).ymax == spec_clamp_bound(old(self).ymax + margin)
            }),
    {
        proof {
            assert(self.mesh_height <= CELLS_MAX) by (nonlinear_arith)
                requires
                    1 <= self.mesh_width,
                    1 <= self.mesh_height,
                    self.mesh_width * self.mesh_height <= CELLS_MAX,
            ;
        }
        if v.len() > 0 {
            proof {
                lemma_min_max(v@);
            }
            let mut lo: i64 = v[0];
            let mut hi: i64 = v[0];
            let mut k: usize = 1;
            proof {
                assert(v@.take(1) =~= seq![v@[0]]);
            }
            while k < v.len()
                invariant
                    1 <= k <= v@.len(),
                    forall|j: int| 0 <= j < v@.len() ==> fits_val(#[trigger] v@[j]),
                    lo == crate::transform::seq_min(v@.take(k as int)),
                    hi == crate::transform::seq_max(v@.take(k as int)),
                    fits_val(lo),
                    fits_val(hi),
                decreases v@.len() - k,
            {
                proof {
                    assert(v@.take(k + 1).drop_last() =~= v@.take(k as int));
                    assert(v@.take(k + 1).last() == v@[k as int]);
                }
                let x = v[k];
                if x < lo {
                    lo = x;
                }
                if x > hi {
                    hi = x;
                }
                k = k + 1;
            }
            proof {
                assert(v@.take(v@.len() as int) =~= v@);
                lemma_divt_shrinks((hi - lo) * 3, self.mesh_height as int);
                assert(0 <= (hi as int - lo) * 3 <= 60_000_000_000) by (nonlinear_arith)
                    requires
                        0 <= hi - lo <= 2 * VAL_MAX,
                        VAL_MAX == 10_000_000_000,
                ;
            }
            let margin = crate::fixed::muldiv(hi - lo, 3, self.mesh_height as i64);
            self.ymin = lo - margin;
            self.ymax = hi + margin;
        } else {
            proof {
                lemma_divt_shrinks((self.ymax - self.ymin) * 3, self.mesh_height as int);
                assert(-600_000_000_000 <= (self.ymax as int - self.ymin) * 3
                    <= 600_000_000_000) by (nonlinear_arith)
                    requires
                        -2 * BOUND_MAX <= self.ymax - self.ymin <= 2 * BOUND_MAX,
                        BOUND_MAX == 100_000_000_000,
                ;
            }
            let margin = crate::fixed::muldiv(self.ymax - self.ymin, 3, self.mesh_height as i64);
            let nymin = (self.ymin as i128) - (margin as i128);
            let nymax = (self.ymax as i128) + (margin as i128);
            self.ymin = clamp_bound(nymin);
            self.ymax = clamp_bound(nymax);
        }
    }

    /// Fit both view bounds to the coordinate columns.
    pub fn zoom_all(&mut self, vx: &Vec<i64>, vy: &Vec<i64>)
        requires
            old(self).wf(),
            forall|k: int| 0 <= k < vx@.len() ==> fits_val(#[trigger] vx@[k]),
            forall|k: int| 0 <= k < vy@.len() ==> fits_val(#[trigger] vy@[k]),
        ensures
            final(self).wf(),
            *final(self) == (Parameters {
                xmin: final(self).xmin,
                xmax: final(self).xmax,
                ymin: final(self).ymin,
                ymax: final(self).ymax,
                ..*old(self)
            }),
    {
        self.zoom_all_x(vx);
        self.zoom_all_y(vy);
    }
}

/// A wide bound clamped into the admitted bound range.
pub open spec fn spec_clamp_bound(v: int) -> int {
    if v < -BOUND_MAX {
        -BOUND_MAX as int
    } else if v > BOUND_MAX {
        BOUND_MAX as int
    } else {
        v
    }
}

/// Clamp a wide bound into the admitted bound range.
fn clamp_bound(v: i128) -> (r: i64)
    ensures
        -BOUND_MAX <= r <= BOUND_MAX,
        r as int == spec_clamp_bound(v as int),
{
    if v < -(BOUND_MAX as i128) {
        -BOUND_MAX
    } else if v > BOUND_MAX as i128 {
        BOUND_MAX
    } else {
        v as i64
    }
}


/// The total weight of an admitted list is bounded by its length times the
/// value range.
pub proof fn lemma_weight_cap(pts: Seq<(i64, i64, i64, usize, bool)>)
    requires
        points_ok(pts),
    ensures
        total_weight(pts) <= pts.len() * VAL_MAX,
    decreases pts.len(),
{
    if pts.len() > 0 {
        let t = pts.drop_last();
        assert(forall|k: int| 0 <= k < t.len() ==> t[k] == #[trigger] pts[k]);
        lemma_weight_cap(t);
        assert(pts[pts.len() - 1] == pts.last());
        assert(t.len() * VAL_MAX + VAL_MAX == pts.len() * VAL_MAX) by (nonlinear_arith)
            requires
                t.len() + 1 == pts.len(),
        ;
    }
}

} // verus!
