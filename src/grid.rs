use vstd::prelude::*;

verus! {

/// Why a grid or a run cannot be set up.
#[derive(Debug, PartialEq, Eq, Structural)]
pub enum ConfigError {
    /// Fewer than three rows or columns: the grid has no interior.
    TooSmall,
    /// `rows * cols` does not fit in `usize`.
    TooLarge,
    /// A work-stealing run was asked for with no workers.
    NoWorkers,
    /// The two buffers of a pair do not have the shape of the grid.
    ShapeMismatch,
}

/// A row-major grid: cell `(i, j)` lives at `data[i * cols + j]`.
pub struct Grid<T> {
    pub rows: usize,
    pub cols: usize,
    pub data: Vec<T>,
}

/// Index of the fixed heat source, the cell `(rows / 2, cols / 2)`.
pub open spec fn source_index(n: int, m: int) -> int {
    (n / 2) * m + m / 2
}

/// The cell at flat index `x` lies on the grid's border.
pub open spec fn on_border(n: int, m: int, x: int) -> bool {
    x / m == 0 || x / m == n - 1 || x % m == 0 || x % m == m - 1
}

/// Shapes on which a run is set up: at least three rows and three columns.
pub open spec fn valid_shape(n: int, m: int) -> bool {
    n >= 3 && m >= 3
}

impl<T> Grid<T> {
    /// The buffer holds exactly one value per cell.
    pub open spec fn wf(&self) -> bool {
        self.data@.len() == self.rows * self.cols
    }

    /// Flat index of cell `(i, j)`.
    pub fn index(&self, i: usize, j: usize) -> (r: usize)
        requires
            self.wf(),
            i < self.rows,
            j < self.cols,
        ensures
            r == i * self.cols + j,
            r < self.data@.len(),
    {
        // A buffer's length is a `usize`, which bounds every cell index.
        let _len = self.data.len();
        proof {
            lemma_flat_index(self.rows as int, self.cols as int, i as int, j as int);
        }
        i * self.cols + j
    }
}

impl<T: Copy> Grid<T> {
    /// A grid of `rows` by `cols` cells, all `zero` but the heat source, which holds `source`.
    pub fn new(rows: usize, cols: usize, zero: T, source: T) -> (r: Result<Grid<T>, ConfigError>)
        ensures
            !valid_shape(rows as int, cols as int) ==> r == Err::<Grid<T>, ConfigError>(
                ConfigError::TooSmall,
            ),
            valid_shape(rows as int, cols as int) && rows * cols > usize::MAX ==> r == Err::<
                Grid<T>,
                ConfigError,
            >(ConfigError::TooLarge),
            valid_shape(rows as int, cols as int) && rows * cols <= usize::MAX ==> r is Ok,
            r matches Ok(g) ==> {
                &&& g.rows == rows
                &&& g.cols == cols
                &&& g.wf()
                &&& forall|x: int|
                    0 <= x < rows * cols ==> #[trigger] g.data@[x] == if x == source_index(
                        rows as int,
                        cols as int,
                    ) {
                        source
                    } else {
                        zero
                    }
            },
    {
        if rows < 3 || cols < 3 {
            return Err(ConfigError::TooSmall);
        }
        let total = match rows.checked_mul(cols) {
            Some(t) => t,
            None => return Err(ConfigError::TooLarge),
        };
        proof {
            lemma_flat_index(rows as int, cols as int, rows as int / 2, cols as int / 2);
        }
        let center = (rows / 2) * cols + cols / 2;
        let mut data: Vec<T> = Vec::new();
        let mut x: usize = 0;
        while x < total
            invariant
                total == rows * cols,
                center == source_index(rows as int, cols as int),
                x <= total,
                data@.len() == x,
                forall|y: int|
                    0 <= y < x ==> #[trigger] data@[y] == if y == center as int {
                        source
                    } else {
                        zero
                    },
            decreases total - x,
        {
            if x == center {
                data.push(source);
            } else {
                data.push(zero);
            }
            x = x + 1;
        }
        Ok(Grid { rows, cols, data })
    }

    /// The value of cell `(i, j)`.
    pub fn get(&self, i: usize, j: usize) -> (r: T)
        requires
            self.wf(),
            i < self.rows,
            j < self.cols,
        ensures
            r == self.data@[i * self.cols + j],
    {
        let x = self.index(i, j);
        self.data[x]
    }
}

/// Cell `(i, j)` of an `n` by `m` grid has a flat index in range, from which its row and
/// column come back by division and remainder.
pub proof fn lemma_flat_index(n: int, m: int, i: int, j: int)
    requires
        0 <= i < n,
        0 <= j < m,
    ensures
        0 <= i * m + j < n * m,
        i * m + m <= n * m,
        (i * m + j) / m == i,
        (i * m + j) % m == j,
        (i + 1) * m == i * m + m,
        i >= 1 ==> (i - 1) * m == i * m - m,
        i >= 1 ==> i * m >= m,
{
    assert(0 <= i * m) by (nonlinear_arith)
        requires
            0 <= i,
            0 <= m,
    ;
    assert(i * m + m <= n * m) by (nonlinear_arith)
        requires
            i < n,
            0 <= m,
    ;
    assert((i + 1) * m == i * m + m) by (nonlinear_arith);
    assert(i >= 1 ==> (i - 1) * m == i * m - m) by (nonlinear_arith);
    assert(i >= 1 ==> i * m >= m) by (nonlinear_arith)
        requires
            0 <= m,
    ;
    vstd::arithmetic::div_mod::lemma_fundamental_div_mod_converse(i * m + j, m, i, j);
}

/// Where row `i` of an `n` by `m` grid starts, and how that moves from row to row.
pub proof fn lemma_row_start(n: int, m: int, i: int)
    requires
        0 <= i <= n,
        0 <= m,
    ensures
        0 <= i * m <= n * m,
        (i + 1) * m == i * m + m,
        i < n ==> i * m + m <= n * m,
        i >= 1 ==> (i - 1) * m == i * m - m,
        i >= 1 ==> i * m >= m,
{
    assert(0 <= i * m <= n * m) by (nonlinear_arith)
        requires
            0 <= i <= n,
            0 <= m,
    ;
    assert(i < n ==> i * m + m <= n * m) by (nonlinear_arith)
        requires
            0 <= m,
    ;
    assert((i + 1) * m == i * m + m) by (nonlinear_arith);
    assert(i >= 1 ==> (i - 1) * m == i * m - m) by (nonlinear_arith);
    assert(i >= 1 ==> i * m >= m) by (nonlinear_arith)
        requires
            0 <= m,
    ;
}

} // verus!
