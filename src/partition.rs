use vstd::prelude::*;
use crate::grid::{Grid, lemma_row_start};
use crate::stencil::{
    Stencil,
    grid_window,
    is_pure_kernel,
    lemma_update_rows_agree,
    lemma_update_rows_row,
    next_grid,
    lemma_next_grid_slice,
    row_of,
    update_row,
    update_rows,
    updated_row,
};

verus! {

/// A contiguous band of rows `first .. first + rows` of a grid with `grid_rows` rows and
/// `cols` columns, owned by one worker for the whole run.
pub struct Band<T> {
    pub first: usize,
    pub rows: usize,
    pub cols: usize,
    pub grid_rows: usize,
    pub data: Vec<T>,
}

/// The row at which a grid of `n` rows is split in two.
pub open spec fn split_row(n: int) -> int {
    n / 2
}

impl<T> Band<T> {
    /// The band holds one value per cell, and is one of the two halves of a split grid:
    /// the upper one, from row 0, or the lower one, down to the last row.
    pub open spec fn wf(&self) -> bool {
        &&& self.data@.len() == self.rows * self.cols
        &&& self.cols > 0
        &&& self.grid_rows >= 2
        &&& self.first == 0 && self.rows == split_row(self.grid_rows as int) || self.first
            == split_row(self.grid_rows as int) && self.first + self.rows == self.grid_rows
    }

    /// The band starts at the grid's first row.
    pub open spec fn is_upper(&self) -> bool {
        self.first == 0
    }

    /// Local index of the band's row at the seam: the one its neighbour reads.
    pub open spec fn seam(&self) -> int {
        if self.is_upper() {
            self.rows - 1
        } else {
            0
        }
    }

    /// The band's rows as a window onto the grid, with the neighbour's ghost row standing
    /// outside the band. Only the side at the seam is ever read: the other side is the
    /// grid's border.
    pub open spec fn window(&self, ghost: Seq<T>) -> spec_fn(int) -> Seq<T> {
        |r: int|
            if 0 <= r < self.rows {
                row_of(self.data@, self.cols as int, r)
            } else {
                ghost
            }
    }

    /// The band holds rows `first .. first + rows` of the grid `g`.
    pub open spec fn holds_rows_of(&self, g: Seq<T>) -> bool {
        self.data@ == g.subrange(
            self.first * self.cols,
            (self.first + self.rows) * self.cols,
        )
    }

    /// Global index of the grid row that this band needs from its neighbour.
    pub open spec fn ghost_source(&self) -> int {
        if self.is_upper() {
            self.first + self.rows
        } else {
            self.first - 1
        }
    }

    /// Both bands describe the same grid: same shape, and one owns the rows the other
    /// does not.
    pub open spec fn pairs_with(&self, other: &Band<T>) -> bool {
        &&& self.wf()
        &&& other.wf()
        &&& self.cols == other.cols
        &&& self.grid_rows == other.grid_rows
        &&& self.first == other.first
        &&& self.rows == other.rows
    }
}

/// The two bands that a grid splits into, upper first.
pub open spec fn split_spec<T>(g: &Grid<T>, upper: &Band<T>, lower: &Band<T>) -> bool {
    let mid = split_row(g.rows as int);
    &&& upper.wf()
    &&& lower.wf()
    &&& upper.first == 0
    &&& upper.rows == mid
    &&& lower.first == mid
    &&& lower.rows == g.rows - mid
    &&& upper.cols == g.cols
    &&& lower.cols == g.cols
    &&& upper.grid_rows == g.rows
    &&& lower.grid_rows == g.rows
    &&& upper.holds_rows_of(g.data@)
    &&& lower.holds_rows_of(g.data@)
}

/// Splits a grid into its upper band, rows `0 .. rows / 2`, and its lower band, the rest.
/// The buffer is cut, not copied, so no cell belongs to both.
pub fn split_bands<T>(g: Grid<T>) -> (r: (Band<T>, Band<T>))
    requires
        g.wf(),
        g.rows >= 2,
        g.cols > 0,
    ensures
        split_spec(&g, &r.0, &r.1),
{
    let n = g.rows;
    let m = g.cols;
    let mid = n / 2;
    let total = g.data.len();
    proof {
        lemma_row_start(n as int, m as int, mid as int);
        lemma_row_start(n as int, m as int, n as int);
        assert((n - mid) * m == n * m - mid * m) by (nonlinear_arith);
    }
    let ghost all = g.data@;
    let mut upper_data = g.data;
    let lower_data = upper_data.split_off(mid * m);
    let upper = Band { first: 0, rows: mid, cols: m, grid_rows: n, data: upper_data };
    let lower = Band { first: mid, rows: n - mid, cols: m, grid_rows: n, data: lower_data };
    assert(upper.data@ =~= all.subrange(0, mid * m));
    assert(upper.wf());
    assert(lower.wf());
    assert(upper.holds_rows_of(all));
    assert(lower.holds_rows_of(all));
    (upper, lower)
}

/// Puts the two bands of a split grid back together, upper band first.
pub fn join_bands<T>(upper: Band<T>, lower: Band<T>) -> (g: Grid<T>)
    requires
        upper.wf(),
        lower.wf(),
        upper.is_upper(),
        !lower.is_upper(),
        upper.cols == lower.cols,
        upper.grid_rows == lower.grid_rows,
    ensures
        g.rows == upper.grid_rows,
        g.cols == upper.cols,
        g.wf(),
        g.data@ == upper.data@ + lower.data@,
        split_spec(&g, &upper, &lower),
{
    let n = upper.grid_rows;
    let m = upper.cols;
    let mid = lower.first;
    proof {
        lemma_row_start(n as int, m as int, mid as int);
        lemma_row_start(n as int, m as int, n as int);
        assert((n - mid) * m == n * m - mid * m) by (nonlinear_arith);
    }
    let mut data = upper.data;
    let mut rest = lower.data;
    data.append(&mut rest);
    let g = Grid { rows: n, cols: m, data };
    assert(g.data@.subrange(0, mid * m) =~= upper.data@);
    assert(g.data@.subrange(mid * m, n * m) =~= lower.data@);
    g
}

impl<T: Copy> Band<T> {
    /// A copy of the band's seam row, the one its neighbour reads: the last row of the
    /// upper band, the first row of the lower band.
    pub fn seam_row(&self) -> (r: Vec<T>)
        requires
            self.wf(),
        ensures
            r@.len() == self.cols,
            r@ == row_of(self.data@, self.cols as int, self.seam()),
    {
        let m = self.cols;
        let len = self.data.len();
        let at = if self.first == 0 {
            proof {
                lemma_row_start(self.rows as int, m as int, self.rows - 1);
            }
            (self.rows - 1) * m
        } else {
            0
        };
        proof {
            lemma_row_start(self.rows as int, m as int, self.seam());
        }
        let mut r: Vec<T> = Vec::new();
        let mut j: usize = 0;
        while j < m
            invariant
                self.wf(),
                m == self.cols,
                len == self.data@.len(),
                at == self.seam() * m,
                at + m <= self.data@.len(),
                j <= m,
                r@ == self.data@.subrange(at as int, at + j),
            decreases m - j,
        {
            r.push(self.data[at + j]);
            j = j + 1;
            assert(r@ =~= self.data@.subrange(at as int, at + j));
        }
        r
    }
}

/// The band's rows after one update, computed from the band's previous values and the
/// neighbour's ghost row alone.
pub open spec fn band_next<T, F: Fn(Stencil<T>) -> T>(
    k: F,
    source: T,
    b: &Band<T>,
    ghost: Seq<T>,
) -> Seq<T> {
    update_rows(
        k,
        source,
        b.grid_rows as int,
        b.cols as int,
        b.first as int,
        b.rows as int,
        b.window(ghost),
    )
}

/// One update of a band: `dst` receives the band `src` after one step, where `ghost` is the
/// neighbour's seam row as it was before this step.
pub fn band_step<T: Copy, F: Fn(Stencil<T>) -> T>(
    kernel: &F,
    source: T,
    src: &Band<T>,
    ghost: &Vec<T>,
    dst: &mut Band<T>,
)
    requires
        is_pure_kernel(*kernel),
        src.pairs_with(old(dst)),
        ghost@.len() == src.cols,
    ensures
        src.pairs_with(final(dst)),
        final(dst).data@ == band_next(*kernel, source, src, ghost@),
{
    let n = src.grid_rows;
    let m = src.cols;
    let first = src.first;
    let rows = src.rows;
    let len = src.data.len();
    let ghost u = band_next(*kernel, source, src, ghost@);
    let mut r: usize = 0;
    let mut base: usize = 0;
    while r < rows
        invariant
            is_pure_kernel(*kernel),
            src.pairs_with(dst),
            ghost@.len() == m,
            n == src.grid_rows,
            m == src.cols,
            first == src.first,
            rows == src.rows,
            len == src.data@.len(),
            u == band_next(*kernel, source, src, ghost@),
            r <= rows,
            base == r * m,
            0 <= base <= rows * m,
            forall|x: int| 0 <= x < base ==> #[trigger] dst.data@[x] == u[x],
        decreases rows - r,
    {
        proof {
            lemma_row_start(rows as int, m as int, r as int);
        }
        let (up, up_at) = if r > 0 {
            (&src.data, base - m)
        } else {
            (ghost, 0)
        };
        let (down, down_at) = if r + 1 < rows {
            proof {
                lemma_row_start(rows as int, m as int, r as int + 1);
            }
            (&src.data, base + m)
        } else {
            (ghost, 0)
        };
        update_row(
            kernel,
            source,
            n,
            m,
            first + r,
            up,
            up_at,
            &src.data,
            base,
            down,
            down_at,
            &mut dst.data,
            base,
        );
        proof {
            let w = src.window(ghost@);
            lemma_update_rows_row(
                *kernel,
                source,
                n as int,
                m as int,
                first as int,
                rows as int,
                w,
                r as int,
            );
            if r > 0 {
                lemma_row_start(rows as int, m as int, r as int - 1);
            }
            assert(w(r - 1) == up@.subrange(up_at as int, up_at + m));
            assert(w(r as int) == src.data@.subrange(base as int, base + m));
            assert(w(r + 1) == down@.subrange(down_at as int, down_at + m));
            assert forall|x: int| 0 <= x < base + m implies #[trigger] dst.data@[x] == u[x] by {
                if x >= base {
                    assert(dst.data@.subrange(base as int, base + m)[x - base] == dst.data@[x]);
                    assert(u.subrange(base as int, base + m)[x - base] == u[x]);
                }
            }
        }
        r = r + 1;
        base = base + m;
    }
    assert(dst.data@ =~= u);
}

/// Row `r` of a band that holds rows of `g` is row `first + r` of `g`.
pub proof fn lemma_band_row<T>(b: &Band<T>, g: Seq<T>, r: int)
    requires
        b.wf(),
        g.len() == b.grid_rows * b.cols,
        b.holds_rows_of(g),
        0 <= r < b.rows,
    ensures
        row_of(b.data@, b.cols as int, r) == row_of(g, b.cols as int, b.first + r),
{
    let m = b.cols as int;
    let first = b.first as int;
    lemma_row_start(b.rows as int, m, r);
    lemma_row_start(b.grid_rows as int, m, first + r);
    lemma_row_start(b.grid_rows as int, m, first + b.rows);
    assert((first + r) * m == first * m + r * m) by (nonlinear_arith);
    assert(row_of(b.data@, m, r) =~= row_of(g, m, first + r));
}

/// A band updated with the seam row that its neighbour held before the step gets exactly
/// its own rows of the sequentially updated grid: the exchange never mixes values of two
/// different steps.
pub proof fn lemma_band_step_fresh<T, F: Fn(Stencil<T>) -> T>(
    k: F,
    source: T,
    b: &Band<T>,
    ghost: Seq<T>,
    g: Seq<T>,
)
    requires
        b.wf(),
        g.len() == b.grid_rows * b.cols,
        b.holds_rows_of(g),
        ghost == row_of(g, b.cols as int, b.ghost_source()),
    ensures
        band_next(k, source, b, ghost) == next_grid(
            k,
            source,
            b.grid_rows as int,
            b.cols as int,
            g,
        ).subrange(b.first * b.cols, (b.first + b.rows) * b.cols),
{
    let n = b.grid_rows as int;
    let m = b.cols as int;
    let first = b.first as int;
    let rows = b.rows as int;
    let w1 = b.window(ghost);
    let w2 = grid_window(g, m, first);
    lemma_next_grid_slice(k, source, n, m, g, first, rows);
    assert forall|r: int| 0 <= r < rows implies #[trigger] w1(r) == w2(r) by {
        lemma_band_row(b, g, r);
    }
    assert forall|r: int| 0 <= r < rows && 0 < first + r < n - 1 implies #[trigger] w1(r - 1)
        == w2(r - 1) by {
        if r > 0 {
            lemma_band_row(b, g, r - 1);
        }
    }
    assert forall|r: int| 0 <= r < rows && 0 < first + r < n - 1 implies #[trigger] w1(r + 1)
        == w2(r + 1) by {
        if r + 1 < rows {
            lemma_band_row(b, g, r + 1);
        }
    }
    lemma_update_rows_agree(k, source, n, m, first, rows, w1, w2);
}

} // verus!
