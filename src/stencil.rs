use vstd::prelude::*;
use crate::grid::{Grid, lemma_flat_index, lemma_row_start, on_border, source_index};

verus! {

/// The five values that one stencil update reads: a cell and its four neighbours.
pub struct Stencil<T> {
    pub center: T,
    pub up: T,
    pub down: T,
    pub left: T,
    pub right: T,
}

/// A kernel is pure: it accepts every neighbourhood, and what it returns depends on the
/// neighbourhood alone.
pub open spec fn is_pure_kernel<T, F: Fn(Stencil<T>) -> T>(k: F) -> bool {
    &&& forall|s: Stencil<T>| #[trigger] k.requires((s,))
    &&& forall|s: Stencil<T>, a: T, b: T|
        #[trigger] k.ensures((s,), a) && #[trigger] k.ensures((s,), b) ==> a == b
}

/// What a pure kernel returns on `s`.
pub open spec fn kernel_value<T, F: Fn(Stencil<T>) -> T>(k: F, s: Stencil<T>) -> T {
    choose|o: T| k.ensures((s,), o)
}

/// Row `i` of a row-major grid with `m` columns.
pub open spec fn row_of<T>(g: Seq<T>, m: int, i: int) -> Seq<T> {
    g.subrange(i * m, i * m + m)
}

/// The value of cell `(i, j)` after one update, read from the previous values of row `i`
/// and of the rows above and below it. Border cells keep their value, the heat source
/// is pinned to `source`, and every other cell takes the kernel's value.
pub open spec fn updated_cell<T, F: Fn(Stencil<T>) -> T>(
    k: F,
    source: T,
    n: int,
    m: int,
    i: int,
    j: int,
    up: Seq<T>,
    row: Seq<T>,
    down: Seq<T>,
) -> T {
    if i == 0 || i == n - 1 || j == 0 || j == m - 1 {
        row[j]
    } else if i == n / 2 && j == m / 2 {
        source
    } else {
        kernel_value(
            k,
            Stencil { center: row[j], up: up[j], down: down[j], left: row[j - 1], right: row[j + 1] },
        )
    }
}

/// Row `i` after one update.
pub open spec fn updated_row<T, F: Fn(Stencil<T>) -> T>(
    k: F,
    source: T,
    n: int,
    m: int,
    i: int,
    up: Seq<T>,
    row: Seq<T>,
    down: Seq<T>,
) -> Seq<T> {
    Seq::new(m as nat, |j: int| updated_cell(k, source, n, m, i, j, up, row, down))
}

/// Rows `first .. first + count` of an `n` by `m` grid after one update, where
/// `window(r)` gives the previous values of grid row `first + r`, for `r` from `-1` to
/// `count`.
pub open spec fn update_rows<T, F: Fn(Stencil<T>) -> T>(
    k: F,
    source: T,
    n: int,
    m: int,
    first: int,
    count: int,
    window: spec_fn(int) -> Seq<T>,
) -> Seq<T> {
    Seq::new(
        (count * m) as nat,
        |x: int|
            updated_cell(
                k,
                source,
                n,
                m,
                first + x / m,
                x % m,
                window(x / m - 1),
                window(x / m),
                window(x / m + 1),
            ),
    )
}

/// The rows of the grid `g`, as a window onto it from row `first` on.
pub open spec fn grid_window<T>(g: Seq<T>, m: int, first: int) -> spec_fn(int) -> Seq<T> {
    |r: int| row_of(g, m, first + r)
}

/// The whole `n` by `m` grid `g` after one update.
pub open spec fn next_grid<T, F: Fn(Stencil<T>) -> T>(
    k: F,
    source: T,
    n: int,
    m: int,
    g: Seq<T>,
) -> Seq<T> {
    update_rows(k, source, n, m, 0, n, grid_window(g, m, 0))
}

/// The grid `g` after `steps` updates: the sequential reference.
pub open spec fn evolve<T, F: Fn(Stencil<T>) -> T>(
    k: F,
    source: T,
    n: int,
    m: int,
    g: Seq<T>,
    steps: nat,
) -> Seq<T>
    decreases steps,
{
    if steps == 0 {
        g
    } else {
        next_grid(k, source, n, m, evolve(k, source, n, m, g, (steps - 1) as nat))
    }
}

/// A value that a pure kernel returned is the kernel's value.
pub proof fn lemma_kernel_value<T, F: Fn(Stencil<T>) -> T>(k: F, s: Stencil<T>, o: T)
    requires
        is_pure_kernel(k),
        k.ensures((s,), o),
    ensures
        kernel_value(k, s) == o,
{
    let c = kernel_value(k, s);
    assert(k.ensures((s,), c));
}

/// Writes row `i` after one update into `dst[dst_at .. dst_at + m]`, reading the previous
/// values of the rows above, at and below it from `up`, `row` and `down`. For a border
/// row the rows above and below are not read; any row of the right length will do.
pub fn update_row<T: Copy, F: Fn(Stencil<T>) -> T>(
    kernel: &F,
    source: T,
    n: usize,
    m: usize,
    i: usize,
    up: &Vec<T>,
    up_at: usize,
    row: &Vec<T>,
    row_at: usize,
    down: &Vec<T>,
    down_at: usize,
    dst: &mut Vec<T>,
    dst_at: usize,
)
    requires
        is_pure_kernel(*kernel),
        i < n,
        up_at + m <= up@.len(),
        row_at + m <= row@.len(),
        down_at + m <= down@.len(),
        dst_at + m <= old(dst)@.len(),
    ensures
        final(dst)@.len() == old(dst)@.len(),
        final(dst)@.subrange(dst_at as int, dst_at + m) == updated_row(
            *kernel,
            source,
            n as int,
            m as int,
            i as int,
            up@.subrange(up_at as int, up_at + m),
            row@.subrange(row_at as int, row_at + m),
            down@.subrange(down_at as int, down_at + m),
        ),
        forall|x: int|
            0 <= x < final(dst)@.len() && !(dst_at <= x < dst_at + m) ==> #[trigger] final(dst)@[x]
                == old(dst)@[x],
{
    let ghost u = up@.subrange(up_at as int, up_at + m);
    let ghost r = row@.subrange(row_at as int, row_at + m);
    let ghost d = down@.subrange(down_at as int, down_at + m);
    let border_row = i == 0 || i + 1 == n;
    let row_len = row.len();
    let up_len = up.len();
    let down_len = down.len();
    let dst_len = dst.len();
    let mut j: usize = 0;
    while j < m
        invariant
            is_pure_kernel(*kernel),
            i < n,
            border_row == (i == 0 || i + 1 == n),
            row_len == row@.len(),
            up_len == up@.len(),
            down_len == down@.len(),
            dst_len == dst@.len(),
            up_at + m <= up@.len(),
            row_at + m <= row@.len(),
            down_at + m <= down@.len(),
            dst_at + m <= old(dst)@.len(),
            u == up@.subrange(up_at as int, up_at + m),
            r == row@.subrange(row_at as int, row_at + m),
            d == down@.subrange(down_at as int, down_at + m),
            j <= m,
            dst@.len() == old(dst)@.len(),
            forall|jj: int|
                0 <= jj < j ==> #[trigger] dst@[dst_at + jj] == updated_cell(
                    *kernel,
                    source,
                    n as int,
                    m as int,
                    i as int,
                    jj,
                    u,
                    r,
                    d,
                ),
            forall|x: int|
                0 <= x < dst@.len() && !(dst_at <= x < dst_at + j) ==> #[trigger] dst@[x]
                    == old(dst)@[x],
        decreases m - j,
    {
        let v = if border_row || j == 0 || j + 1 == m {
            row[row_at + j]
        } else if i == n / 2 && j == m / 2 {
            source
        } else {
            let s = Stencil {
                center: row[row_at + j],
                up: up[up_at + j],
                down: down[down_at + j],
                left: row[row_at + j - 1],
                right: row[row_at + j + 1],
            };
            let o = kernel(s);
            proof {
                lemma_kernel_value(*kernel, s, o);
            }
            o
        };
        dst.set(dst_at + j, v);
        j = j + 1;
    }
    assert forall|jj: int| 0 <= jj < m implies #[trigger] dst@.subrange(dst_at as int, dst_at + m)[jj]
        == updated_cell(*kernel, source, n as int, m as int, i as int, jj, u, r, d) by {
        assert(dst@[dst_at + jj] == updated_cell(*kernel, source, n as int, m as int, i as int, jj, u, r, d));
    }
    assert(dst@.subrange(dst_at as int, dst_at + m) =~= updated_row(
        *kernel,
        source,
        n as int,
        m as int,
        i as int,
        u,
        r,
        d,
    ));
}

/// A border row comes out of an update unchanged, whatever rows are given as its
/// neighbours.
pub proof fn lemma_border_row<T, F: Fn(Stencil<T>) -> T>(
    k: F,
    source: T,
    n: int,
    m: int,
    i: int,
    up1: Seq<T>,
    up2: Seq<T>,
    row: Seq<T>,
    down1: Seq<T>,
    down2: Seq<T>,
)
    requires
        i == 0 || i == n - 1,
        0 <= m == row.len(),
    ensures
        updated_row(k, source, n, m, i, up1, row, down1) == updated_row(
            k,
            source,
            n,
            m,
            i,
            up2,
            row,
            down2,
        ),
        updated_row(k, source, n, m, i, up1, row, down1) == row,
{
    assert(updated_row(k, source, n, m, i, up1, row, down1) =~= updated_row(
        k,
        source,
        n,
        m,
        i,
        up2,
        row,
        down2,
    ));
    assert(updated_row(k, source, n, m, i, up1, row, down1) =~= row);
}

/// Row `r` of updated rows is that row updated from its neighbours in the window.
pub proof fn lemma_update_rows_row<T, F: Fn(Stencil<T>) -> T>(
    k: F,
    source: T,
    n: int,
    m: int,
    first: int,
    count: int,
    window: spec_fn(int) -> Seq<T>,
    r: int,
)
    requires
        0 <= r < count,
        0 < m,
    ensures
        r * m + m <= count * m,
        update_rows(k, source, n, m, first, count, window).subrange(r * m, r * m + m)
            == updated_row(k, source, n, m, first + r, window(r - 1), window(r), window(r + 1)),
{
    lemma_flat_index(count, m, r, 0);
    let u = update_rows(k, source, n, m, first, count, window);
    let row = updated_row(k, source, n, m, first + r, window(r - 1), window(r), window(r + 1));
    assert forall|j: int| 0 <= j < m implies #[trigger] u.subrange(r * m, r * m + m)[j]
        == row[j] by {
        lemma_flat_index(count, m, r, j);
    }
    assert(u.subrange(r * m, r * m + m) =~= row);
}

/// Row `i` of the updated grid is row `i` updated from rows `i - 1`, `i` and `i + 1` of
/// the previous one.
pub proof fn lemma_next_grid_row<T, F: Fn(Stencil<T>) -> T>(
    k: F,
    source: T,
    n: int,
    m: int,
    g: Seq<T>,
    i: int,
)
    requires
        0 <= i < n,
        0 < m,
    ensures
        i * m + m <= n * m,
        next_grid(k, source, n, m, g).subrange(i * m, i * m + m) == updated_row(
            k,
            source,
            n,
            m,
            i,
            row_of(g, m, i - 1),
            row_of(g, m, i),
            row_of(g, m, i + 1),
        ),
{
    let w = grid_window(g, m, 0);
    lemma_update_rows_row(k, source, n, m, 0, n, w, i);
    assert(w(i - 1) == row_of(g, m, i - 1));
    assert(w(i) == row_of(g, m, i));
    assert(w(i + 1) == row_of(g, m, i + 1));
}

/// One update of the whole grid: `next` receives `cur` after one step. The two buffers
/// are distinct by construction, so no cell is read after it is written.
pub fn sweep<T: Copy, F: Fn(Stencil<T>) -> T>(
    kernel: &F,
    source: T,
    cur: &Grid<T>,
    next: &mut Grid<T>,
)
    requires
        is_pure_kernel(*kernel),
        cur.wf(),
        old(next).wf(),
        old(next).rows == cur.rows,
        old(next).cols == cur.cols,
    ensures
        final(next).rows == cur.rows,
        final(next).cols == cur.cols,
        final(next).wf(),
        final(next).data@ == next_grid(
            *kernel,
            source,
            cur.rows as int,
            cur.cols as int,
            cur.data@,
        ),
{
    let n = cur.rows;
    let m = cur.cols;
    let ghost ng = next_grid(*kernel, source, n as int, m as int, cur.data@);
    let total = cur.data.len();
    let mut i: usize = 0;
    let mut base: usize = 0;
    while i < n
        invariant
            is_pure_kernel(*kernel),
            cur.wf(),
            n == cur.rows,
            m == cur.cols,
            total == n * m,
            next.rows == n,
            next.cols == m,
            next.data@.len() == n * m,
            ng == next_grid(*kernel, source, n as int, m as int, cur.data@),
            i <= n,
            base == i * m,
            0 <= base <= n * m,
            forall|x: int| 0 <= x < base ==> #[trigger] next.data@[x] == ng[x],
        decreases n - i,
    {
        proof {
            lemma_row_start(n as int, m as int, i as int);
        }
        let up_at = if i == 0 {
            base
        } else {
            base - m
        };
        let down_at = if i + 1 == n {
            base
        } else {
            proof {
                lemma_row_start(n as int, m as int, i as int + 1);
            }
            base + m
        };
        update_row(
            kernel,
            source,
            n,
            m,
            i,
            &cur.data,
            up_at,
            &cur.data,
            base,
            &cur.data,
            down_at,
            &mut next.data,
            base,
        );
        proof {
            if m > 0 {
                let g = cur.data@;
                lemma_next_grid_row(*kernel, source, n as int, m as int, g, i as int);
                let row = g.subrange(base as int, base + m);
                if i == 0 || i + 1 == n {
                    lemma_border_row(
                        *kernel,
                        source,
                        n as int,
                        m as int,
                        i as int,
                        g.subrange(up_at as int, up_at + m),
                        row_of(g, m as int, i - 1),
                        row,
                        g.subrange(down_at as int, down_at + m),
                        row_of(g, m as int, i + 1),
                    );
                } else {
                    lemma_row_start(n as int, m as int, i as int + 1);
                }
                assert forall|x: int| 0 <= x < base + m implies #[trigger] next.data@[x] == ng[x] by {
                    if x >= base {
                        assert(next.data@.subrange(base as int, base + m)[x - base] == next.data@[x]);
                        assert(ng.subrange(base as int, base + m)[x - base] == ng[x]);
                    }
                }
            }
        }
        i = i + 1;
        base = base + m;
    }
    assert(next.data@ =~= ng);
}

/// A flat index below `count * m` falls in one of the first `count` rows.
pub proof fn lemma_flat_position(x: int, m: int, count: int)
    requires
        0 <= x < count * m,
        0 < m,
    ensures
        0 <= x / m < count,
        0 <= x % m < m,
        x == (x / m) * m + x % m,
{
    vstd::arithmetic::div_mod::lemma_fundamental_div_mod(x, m);
    vstd::arithmetic::div_mod::lemma_mod_pos_bound(x, m);
    vstd::arithmetic::div_mod::lemma_div_pos_is_pos(x, m);
    assert(x / m < count) by (nonlinear_arith)
        requires
            x == m * (x / m) + x % m,
            0 <= x % m < m,
            x < count * m,
            0 < m,
    ;
    assert(x == (x / m) * m + x % m) by (nonlinear_arith)
        requires
            x == m * (x / m) + x % m,
    ;
}

/// Two windows that agree on every row the update reads give the same updated rows: the
/// rows themselves, and the neighbours of every row that is not on the grid's border.
pub proof fn lemma_update_rows_agree<T, F: Fn(Stencil<T>) -> T>(
    k: F,
    source: T,
    n: int,
    m: int,
    first: int,
    count: int,
    w1: spec_fn(int) -> Seq<T>,
    w2: spec_fn(int) -> Seq<T>,
)
    requires
        0 < m,
        0 <= first,
        0 <= count,
        first + count <= n,
        forall|r: int| 0 <= r < count ==> #[trigger] w1(r) == w2(r),
        forall|r: int|
            0 <= r < count && 0 < first + r < n - 1 ==> #[trigger] w1(r - 1) == w2(r - 1),
        forall|r: int|
            0 <= r < count && 0 < first + r < n - 1 ==> #[trigger] w1(r + 1) == w2(r + 1),
    ensures
        update_rows(k, source, n, m, first, count, w1) == update_rows(
            k,
            source,
            n,
            m,
            first,
            count,
            w2,
        ),
{
    let u1 = update_rows(k, source, n, m, first, count, w1);
    let u2 = update_rows(k, source, n, m, first, count, w2);
    assert(0 <= count * m) by (nonlinear_arith)
        requires
            0 <= count,
            0 < m,
    ;
    assert forall|x: int| 0 <= x < u1.len() implies #[trigger] u1[x] == u2[x] by {
        lemma_flat_position(x, m, count);
        let r = x / m;
        let j = x % m;
        assert(u1[x] == updated_cell(k, source, n, m, first + r, j, w1(r - 1), w1(r), w1(r + 1)));
        assert(u2[x] == updated_cell(k, source, n, m, first + r, j, w2(r - 1), w2(r), w2(r + 1)));
        assert(w1(r) == w2(r));
        if 0 < first + r < n - 1 {
            assert(w1(r - 1) == w2(r - 1));
            assert(w1(r + 1) == w2(r + 1));
        }
    }
    assert(u1 =~= u2);
}

/// Rows `first .. first + count` of the updated grid are those rows updated through a
/// window onto the grid from row `first` on.
pub proof fn lemma_next_grid_slice<T, F: Fn(Stencil<T>) -> T>(
    k: F,
    source: T,
    n: int,
    m: int,
    g: Seq<T>,
    first: int,
    count: int,
)
    requires
        0 <= first,
        0 <= count,
        first + count <= n,
        0 < m,
    ensures
        0 <= first * m <= (first + count) * m <= n * m,
        next_grid(k, source, n, m, g).subrange(first * m, (first + count) * m) == update_rows(
            k,
            source,
            n,
            m,
            first,
            count,
            grid_window(g, m, first),
        ),
{
    lemma_row_start(n, m, first);
    lemma_row_start(n, m, first + count);
    assert((first + count) * m == first * m + count * m) by (nonlinear_arith);
    let ng = next_grid(k, source, n, m, g);
    let u = update_rows(k, source, n, m, first, count, grid_window(g, m, first));
    assert forall|x: int| 0 <= x < u.len() implies #[trigger] ng.subrange(
        first * m,
        (first + count) * m,
    )[x] == u[x] by {
        lemma_flat_position(x, m, count);
        let r = x / m;
        let j = x % m;
        assert(first * m + x == (first + r) * m + j) by (nonlinear_arith)
            requires
                x == r * m + j,
        ;
        lemma_flat_index(n, m, first + r, j);
    }
    assert(ng.subrange(first * m, (first + count) * m) =~= u);
}

/// One update keeps every border cell of the grid.
pub proof fn lemma_border_kept<T, F: Fn(Stencil<T>) -> T>(
    k: F,
    source: T,
    n: int,
    m: int,
    g: Seq<T>,
)
    requires
        0 < m,
        0 <= n,
        g.len() == n * m,
    ensures
        next_grid(k, source, n, m, g).len() == g.len(),
        forall|x: int|
            0 <= x < n * m && on_border(n, m, x) ==> #[trigger] next_grid(k, source, n, m, g)[x]
                == g[x],
{
    let ng = next_grid(k, source, n, m, g);
    assert forall|x: int| 0 <= x < n * m && on_border(n, m, x) implies #[trigger] ng[x] == g[x] by {
        lemma_flat_position(x, m, n);
        lemma_flat_index(n, m, x / m, x % m);
    }
}

/// One update pins the heat source.
pub proof fn lemma_source_pinned<T, F: Fn(Stencil<T>) -> T>(
    k: F,
    source: T,
    n: int,
    m: int,
    g: Seq<T>,
)
    requires
        n >= 3,
        m >= 3,
    ensures
        0 <= source_index(n, m) < n * m,
        !on_border(n, m, source_index(n, m)),
        next_grid(k, source, n, m, g)[source_index(n, m)] == source,
{
    lemma_flat_index(n, m, n / 2, m / 2);
}

/// A cell in the last row of the grid, by its flat index.
pub proof fn lemma_last_row(n: int, m: int, x: int)
    requires
        0 < n,
        0 < m,
        (n - 1) * m <= x < n * m,
    ensures
        x / m == n - 1,
        on_border(n, m, x),
{
    lemma_row_start(n, m, n - 1);
    vstd::arithmetic::div_mod::lemma_fundamental_div_mod_converse(x, m, n - 1, x - (n - 1) * m);
}

/// A cell in the first row of the grid, by its flat index.
pub proof fn lemma_first_row(n: int, m: int, x: int)
    requires
        0 < n,
        0 < m,
        0 <= x < m,
    ensures
        x / m == 0,
        on_border(n, m, x),
{
    vstd::arithmetic::div_mod::lemma_fundamental_div_mod_converse(x, m, 0, x);
}

/// The grid keeps its shape through any number of updates.
pub proof fn lemma_evolve_len<T, F: Fn(Stencil<T>) -> T>(
    k: F,
    source: T,
    n: int,
    m: int,
    g: Seq<T>,
    steps: nat,
)
    requires
        0 <= n,
        0 <= m,
        g.len() == n * m,
    ensures
        evolve(k, source, n, m, g, steps).len() == n * m,
    decreases steps,
{
    if steps > 0 {
        lemma_evolve_len(k, source, n, m, g, (steps - 1) as nat);
        assert(0 <= n * m) by (nonlinear_arith)
            requires
                0 <= n,
                0 <= m,
        ;
    }
}

/// Boundary invariant: after any number of updates every border cell still holds the value
/// it started with.
pub proof fn lemma_evolve_keeps_border<T, F: Fn(Stencil<T>) -> T>(
    k: F,
    source: T,
    n: int,
    m: int,
    g: Seq<T>,
    steps: nat,
)
    requires
        0 <= n,
        0 < m,
        g.len() == n * m,
    ensures
        forall|x: int|
            0 <= x < n * m && on_border(n, m, x) ==> #[trigger] evolve(
                k,
                source,
                n,
                m,
                g,
                steps,
            )[x] == g[x],
    decreases steps,
{
    if steps > 0 {
        let prev = evolve(k, source, n, m, g, (steps - 1) as nat);
        lemma_evolve_keeps_border(k, source, n, m, g, (steps - 1) as nat);
        lemma_evolve_len(k, source, n, m, g, (steps - 1) as nat);
        lemma_border_kept(k, source, n, m, prev);
        assert forall|x: int| 0 <= x < n * m && on_border(n, m, x) implies #[trigger] evolve(
            k,
            source,
            n,
            m,
            g,
            steps,
        )[x] == g[x] by {
            assert(next_grid(k, source, n, m, prev)[x] == prev[x]);
        }
    }
}

/// Heat-source invariant: a grid whose source cell starts at `source` holds `source` there
/// after any number of updates.
pub proof fn lemma_evolve_pins_source<T, F: Fn(Stencil<T>) -> T>(
    k: F,
    source: T,
    n: int,
    m: int,
    g: Seq<T>,
    steps: nat,
)
    requires
        n >= 3,
        m >= 3,
        g.len() == n * m,
        g[source_index(n, m)] == source,
    ensures
        evolve(k, source, n, m, g, steps)[source_index(n, m)] == source,
{
    if steps > 0 {
        lemma_source_pinned(k, source, n, m, evolve(k, source, n, m, g, (steps - 1) as nat));
    }
}

} // verus!
