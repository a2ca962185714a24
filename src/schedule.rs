use vstd::prelude::*;
use crate::grid::{ConfigError, Grid, lemma_row_start};
use crate::stencil::{
    Stencil,
    grid_window,
    is_pure_kernel,
    lemma_border_row,
    lemma_next_grid_slice,
    lemma_update_rows_row,
    next_grid,
    row_of,
    update_row,
    update_rows,
};

verus! {

/// The chunks cover rows `1 .. n - 1` in order, one after the other, none empty.
pub open spec fn chunks_cover(c: Seq<(usize, usize)>, n: int) -> bool {
    &&& n >= 2 ==> (c.len() == 0 <==> n == 2)
    &&& c.len() > 0 ==> c[0].0 == 1 && c[c.len() - 1].1 == n - 1
    &&& forall|i: int| 0 <= i < c.len() ==> #[trigger] c[i].0 < c[i].1
    &&& forall|i: int| 0 <= i < c.len() ==> 1 <= #[trigger] c[i].0 && c[i].1 <= n - 1
    &&& forall|i: int| 0 <= i < c.len() - 1 ==> #[trigger] c[i].1 == c[i + 1].0
}

/// Splits the interior rows `1 .. n - 1` among `workers` workers: as many chunks as there
/// are workers, or rows if fewer. Their sizes differ by at most one, the larger ones first.
pub fn row_chunks(n: usize, workers: usize) -> (r: Result<Vec<(usize, usize)>, ConfigError>)
    requires
        n >= 2,
    ensures
        workers == 0 ==> r == Err::<Vec<(usize, usize)>, ConfigError>(ConfigError::NoWorkers),
        workers > 0 ==> r is Ok,
        r matches Ok(c) ==> {
            &&& chunks_cover(c@, n as int)
            &&& c@.len() == if workers < n - 2 {
                workers as int
            } else {
                n - 2
            }
            &&& forall|i: int|
                0 <= i < c@.len() ==> #[trigger] c@[i].1 - c@[i].0 == (n - 2) / (c@.len() as int)
                    + if i < (n - 2) % (c@.len() as int) {
                    1int
                } else {
                    0int
                }
        },
{
    if workers == 0 {
        return Err(ConfigError::NoWorkers);
    }
    let interior = n - 2;
    let count = if workers < interior {
        workers
    } else {
        interior
    };
    let mut chunks: Vec<(usize, usize)> = Vec::new();
    if count == 0 {
        return Ok(chunks);
    }
    let size = interior / count;
    let extra = interior % count;
    proof {
        vstd::arithmetic::div_mod::lemma_fundamental_div_mod(interior as int, count as int);
        vstd::arithmetic::div_mod::lemma_mod_pos_bound(interior as int, count as int);
        assert(size >= 1) by (nonlinear_arith)
            requires
                interior == count * size + extra,
                extra < count,
                count <= interior,
                0 < count,
        ;
    }
    let mut start: usize = 1;
    let mut c: usize = 0;
    while c < count
        invariant
            0 < count <= interior,
            interior == n - 2,
            size == interior / count,
            extra == interior % count,
            interior == count * size + extra,
            extra < count,
            size >= 1,
            c <= count,
            start == 1 + c * size + if c < extra {
                c as int
            } else {
                extra as int
            },
            chunks@.len() == c,
            c > 0 ==> chunks@[0].0 == 1,
            c > 0 ==> chunks@[c - 1].1 == start,
            forall|i: int| 0 <= i < c ==> #[trigger] chunks@[i].0 < chunks@[i].1,
            forall|i: int| 0 <= i < c ==> 1 <= #[trigger] chunks@[i].0 && chunks@[i].1 <= start,
            start <= n - 1,
            forall|i: int|
                0 <= i < c ==> #[trigger] chunks@[i].1 - chunks@[i].0 == size + if i < extra {
                    1int
                } else {
                    0int
                },
            forall|i: int| 0 <= i < c - 1 ==> #[trigger] chunks@[i].1 == chunks@[i + 1].0,
        decreases count - c,
    {
        proof {
            assert(c * size + size <= count * size) by (nonlinear_arith)
                requires
                    c < count,
                    size >= 1,
            ;
            assert((c + 1) * size == c * size + size) by (nonlinear_arith);
            assert((c + 1) * size <= count * size) by (nonlinear_arith)
                requires
                    c < count,
                    size >= 1,
            ;
        }
        let len = if c < extra {
            size + 1
        } else {
            size
        };
        let end = start + len;
        chunks.push((start, end));
        start = end;
        c = c + 1;
    }
    Ok(chunks)
}

/// A copy of the cells `from .. to` of `v`.
pub fn copy_cells<T: Copy>(v: &Vec<T>, from: usize, to: usize) -> (r: Vec<T>)
    requires
        from <= to <= v@.len(),
    ensures
        r@ == v@.subrange(from as int, to as int),
{
    let mut r: Vec<T> = Vec::new();
    let mut x: usize = from;
    while x < to
        invariant
            from <= x <= to <= v@.len(),
            r@ == v@.subrange(from as int, x as int),
        decreases to - x,
    {
        r.push(v[x]);
        x = x + 1;
        assert(r@ =~= v@.subrange(from as int, x as int));
    }
    r
}

/// Rows `lo .. hi` of the grid `src` after one update, computed from `src` alone. This is
/// the work of one worker of the pool: it reads the shared previous grid and writes only
/// its own rows.
pub fn compute_rows<T: Copy, F: Fn(Stencil<T>) -> T>(
    kernel: &F,
    source: T,
    src: &Grid<T>,
    lo: usize,
    hi: usize,
) -> (r: Vec<T>)
    requires
        is_pure_kernel(*kernel),
        src.wf(),
        src.cols > 0,
        lo <= hi <= src.rows,
    ensures
        r@ == next_grid(*kernel, source, src.rows as int, src.cols as int, src.data@).subrange(
            lo * src.cols,
            hi * src.cols,
        ),
{
    let n = src.rows;
    let m = src.cols;
    let total = src.data.len();
    let ghost g = src.data@;
    let ghost w = grid_window(g, m as int, lo as int);
    let ghost u = update_rows(*kernel, source, n as int, m as int, lo as int, hi - lo, w);
    proof {
        lemma_row_start(n as int, m as int, lo as int);
        lemma_row_start(n as int, m as int, hi as int);
        lemma_row_start((hi - lo) as int, m as int, (hi - lo) as int);
        assert(hi * m - lo * m == (hi - lo) * m) by (nonlinear_arith);
        lemma_next_grid_slice(*kernel, source, n as int, m as int, g, lo as int, hi - lo);
    }
    let mut out = copy_cells(&src.data, lo * m, hi * m);
    let mut i: usize = lo;
    let mut base: usize = lo * m;
    let mut at: usize = 0;
    while i < hi
        invariant
            is_pure_kernel(*kernel),
            src.wf(),
            g == src.data@,
            total == n * m,
            n == src.rows,
            m == src.cols,
            m > 0,
            lo <= i <= hi <= n,
            base == i * m,
            at == (i - lo) * m,
            base == lo * m + at,
            out@.len() == (hi - lo) * m,
            w == grid_window(g, m as int, lo as int),
            u == update_rows(*kernel, source, n as int, m as int, lo as int, hi - lo, w),
            u.len() == (hi - lo) * m,
            forall|x: int| 0 <= x < at ==> #[trigger] out@[x] == u[x],
        decreases hi - i,
    {
        proof {
            lemma_row_start(n as int, m as int, i as int);
            lemma_row_start((hi - lo) as int, m as int, (i - lo) as int);
        }
        let up_at = if i == 0 {
            base
        } else {
            base - m
        };
        let down_at = if i + 1 == n {
            base
        } else {
            proof {
                lemma_row_start(n as int, m as int, i as int + 1);
            }
            base + m
        };
        update_row(
            kernel,
            source,
            n,
            m,
            i,
            &src.data,
            up_at,
            &src.data,
            base,
            &src.data,
            down_at,
            &mut out,
            at,
        );
        proof {
            let r = (i - lo) as int;
            lemma_update_rows_row(*kernel, source, n as int, m as int, lo as int, hi - lo, w, r);
            assert(w(r) == row_of(g, m as int, i as int));
            assert(w(r - 1) == row_of(g, m as int, i - 1));
            assert(w(r + 1) == row_of(g, m as int, i + 1));
            if i == 0 || i + 1 == n {
                lemma_border_row(
                    *kernel,
                    source,
                    n as int,
                    m as int,
                    i as int,
                    g.subrange(up_at as int, up_at + m),
                    row_of(g, m as int, i - 1),
                    g.subrange(base as int, base + m),
                    g.subrange(down_at as int, down_at + m),
                    row_of(g, m as int, i + 1),
                );
            } else {
                lemma_row_start(n as int, m as int, i as int + 1);
            }
            assert forall|x: int| 0 <= x < at + m implies #[trigger] out@[x] == u[x] by {
                if x >= at {
                    assert(out@.subrange(at as int, at + m)[x - at] == out@[x]);
                    assert(u.subrange(at as int, at + m)[x - at] == u[x]);
                }
            }
        }
        i = i + 1;
        base = base + m;
        at = at + m;
    }
    assert(out@ =~= u);
    out
}

/// Writes `rows` into `dst` from the start of row `lo` on.
pub fn write_rows<T: Copy>(dst: &mut Grid<T>, lo: usize, rows: &Vec<T>)
    requires
        old(dst).wf(),
        lo <= old(dst).rows,
        lo * old(dst).cols + rows@.len() <= old(dst).data@.len(),
    ensures
        final(dst).rows == old(dst).rows,
        final(dst).cols == old(dst).cols,
        final(dst).wf(),
        final(dst).data@ == old(dst).data@.subrange(0, lo * old(dst).cols) + rows@
            + old(dst).data@.subrange(lo * old(dst).cols + rows@.len(), old(dst).data@.len() as int),
{
    let ghost d0 = dst.data@;
    let len = dst.data.len();
    proof {
        lemma_row_start(dst.rows as int, dst.cols as int, lo as int);
    }
    let at = lo * dst.cols;
    let mut x: usize = 0;
    while x < rows.len()
        invariant
            dst.wf(),
            dst.rows == old(dst).rows,
            dst.cols == old(dst).cols,
            d0 == old(dst).data@,
            len == d0.len(),
            at + rows@.len() <= d0.len(),
            x <= rows@.len(),
            dst.data@ == d0.subrange(0, at as int) + rows@.subrange(0, x as int) + d0.subrange(
                at + x,
                d0.len() as int,
            ),
        decreases rows@.len() - x,
    {
        dst.data.set(at + x, rows[x]);
        x = x + 1;
        assert(dst.data@ =~= d0.subrange(0, at as int) + rows@.subrange(0, x as int) + d0.subrange(
            at + x,
            d0.len() as int,
        ));
    }
    assert(rows@.subrange(0, rows@.len() as int) =~= rows@);
}

/// Copies the first and the last row of `src` into `dst`, leaving its other rows as they
/// were.
pub fn copy_border_rows<T: Copy>(src: &Grid<T>, dst: &mut Grid<T>)
    requires
        src.wf(),
        old(dst).wf(),
        old(dst).rows == src.rows,
        old(dst).cols == src.cols,
        src.rows >= 1,
    ensures
        final(dst).rows == src.rows,
        final(dst).cols == src.cols,
        final(dst).wf(),
        forall|x: int|
            0 <= x < src.rows * src.cols ==> #[trigger] final(dst).data@[x] == if x < src.cols
                || x >= (src.rows - 1) * src.cols {
                src.data@[x]
            } else {
                old(dst).data@[x]
            },
{
    let n = src.rows;
    let m = src.cols;
    let total = src.data.len();
    proof {
        lemma_row_start(n as int, m as int, 1);
        lemma_row_start(n as int, m as int, n - 1);
    }
    let top = copy_cells(&src.data, 0, m);
    write_rows(dst, 0, &top);
    let bottom = copy_cells(&src.data, (n - 1) * m, total);
    write_rows(dst, n - 1, &bottom);
}

} // verus!
