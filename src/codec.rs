use vstd::prelude::*;
use crate::grid::Grid;

verus! {

/// Why a byte string is not a saved grid of the expected shape.
#[derive(Debug, PartialEq, Eq, Structural)]
pub enum LoadError {
    /// The bytes end before the header or before the last cell.
    Truncated,
    /// The header gives another shape; these are the counts it gives.
    ShapeMismatch { rows: u64, cols: u64 },
}

/// `256` to the power `len`.
pub open spec fn pow256(len: nat) -> nat
    decreases len,
{
    if len == 0 {
        1
    } else {
        256 * pow256((len - 1) as nat)
    }
}

/// The number that the bytes `b` spell, least significant byte first.
pub open spec fn le_value(b: Seq<u8>) -> nat
    decreases b.len(),
{
    if b.len() == 0 {
        0
    } else {
        b[0] as nat + 256 * le_value(b.subrange(1, b.len() as int))
    }
}

/// The `len` lowest bytes of `v`, least significant first.
pub open spec fn le_bytes(v: nat, len: nat) -> Seq<u8>
    decreases len,
{
    if len == 0 {
        Seq::empty()
    } else {
        seq![(v % 256) as u8] + le_bytes(v / 256, (len - 1) as nat)
    }
}

/// Reading back the bytes of a number that fits gives the number.
pub proof fn lemma_le_round_trip(v: nat, len: nat)
    requires
        v < pow256(len),
    ensures
        le_bytes(v, len).len() == len,
        le_value(le_bytes(v, len)) == v,
    decreases len,
{
    if len > 0 {
        let b = le_bytes(v, len);
        assert(v / 256 < pow256((len - 1) as nat)) by (nonlinear_arith)
            requires
                v < 256 * pow256((len - 1) as nat),
        ;
        lemma_le_round_trip(v / 256, (len - 1) as nat);
        assert(b.subrange(1, b.len() as int) =~= le_bytes(v / 256, (len - 1) as nat));
        assert(v == v % 256 + 256 * (v / 256)) by (nonlinear_arith);
    }
}

/// The number spelled by `len` bytes is below `256` to the power `len`.
pub proof fn lemma_le_value_bound(b: Seq<u8>)
    ensures
        le_value(b) < pow256(b.len()),
    decreases b.len(),
{
    if b.len() > 0 {
        let rest = b.subrange(1, b.len() as int);
        lemma_le_value_bound(rest);
        assert(le_value(b) < pow256(b.len())) by (nonlinear_arith)
            requires
                le_value(b) == b[0] as nat + 256 * le_value(rest),
                b[0] < 256,
                le_value(rest) < pow256(rest.len()),
                pow256(b.len()) == 256 * pow256(rest.len()),
        ;
    }
}

/// `256` to the power `len` grows with `len`.
pub proof fn lemma_pow256_grows(a: nat, b: nat)
    requires
        a <= b,
    ensures
        pow256(a) <= pow256(b),
        pow256(a) >= 1,
    decreases b,
{
    if b > 0 {
        if a < b {
            lemma_pow256_grows(a, (b - 1) as nat);
        }
        lemma_pow256_grows(0, (b - 1) as nat);
    }
}

/// Appends the `len` lowest bytes of `v` to `out`, least significant first.
pub fn push_le(out: &mut Vec<u8>, v: u64, len: usize)
    ensures
        final(out)@ == old(out)@ + le_bytes(v as nat, len as nat),
{
    let mut w: u64 = v;
    let mut i: usize = 0;
    while i < len
        invariant
            i <= len,
            out@ + le_bytes(w as nat, (len - i) as nat) == old(out)@ + le_bytes(v as nat, len as nat),
        decreases len - i,
    {
        let ghost before = out@;
        out.push((w % 256) as u8);
        proof {
            assert(le_bytes(w as nat, (len - i) as nat) == seq![(w % 256) as u8] + le_bytes(
                (w / 256) as nat,
                (len - i - 1) as nat,
            ));
            assert(out@ + le_bytes((w / 256) as nat, (len - i - 1) as nat) =~= before + le_bytes(
                w as nat,
                (len - i) as nat,
            ));
        }
        w = w / 256;
        i = i + 1;
    }
}

/// The number that the bytes `b[at .. at + len]` spell, least significant first.
pub fn read_le(b: &Vec<u8>, at: usize, len: usize) -> (r: u64)
    requires
        at + len <= b@.len(),
        len <= 8,
    ensures
        r == le_value(b@.subrange(at as int, at + len)),
{
    let total = b.len();
    let mut acc: u64 = 0;
    let mut i: usize = len;
    proof {
        assert(b@.subrange(at + len, at + len) =~= Seq::<u8>::empty());
    }
    while i > 0
        invariant
            i <= len <= 8,
            at + len <= b@.len(),
            total == b@.len(),
            acc == le_value(b@.subrange(at + i, at + len)),
        decreases i,
    {
        let ghost rest = b@.subrange(at + i, at + len);
        let ghost whole = b@.subrange(at + i - 1, at + len);
        proof {
            lemma_le_value_bound(rest);
            lemma_pow256_grows(rest.len(), 7);
            reveal_with_fuel(pow256, 8);
            assert(whole.subrange(1, whole.len() as int) =~= rest);
        }
        acc = acc * 256 + b[at + i - 1] as u64;
        i = i - 1;
    }
    acc
}

/// `le_bytes` gives as many bytes as asked for.
pub proof fn lemma_le_bytes_len(v: nat, len: nat)
    ensures
        le_bytes(v, len).len() == len,
    decreases len,
{
    if len > 0 {
        lemma_le_bytes_len(v / 256, (len - 1) as nat);
    }
}

/// The cells of a grid, eight bytes each, least significant first.
pub open spec fn cells_bytes(cells: Seq<u64>) -> Seq<u8>
    decreases cells.len(),
{
    if cells.len() == 0 {
        Seq::empty()
    } else {
        cells_bytes(cells.drop_last()) + le_bytes(cells.last() as nat, 8)
    }
}

/// The saved form of a grid: its row count and its column count in four bytes each, then
/// its cells in row-major order.
pub open spec fn grid_bytes(rows: nat, cols: nat, cells: Seq<u64>) -> Seq<u8> {
    le_bytes(rows, 4) + le_bytes(cols, 4) + cells_bytes(cells)
}

/// What reading a saved grid of `rows` by `cols` cells out of `b` gives. Bytes after the
/// last cell are not read.
pub open spec fn decode_spec(b: Seq<u8>, rows: nat, cols: nat) -> Result<Seq<u64>, LoadError> {
    if b.len() < 8 {
        Err(LoadError::Truncated)
    } else if le_value(b.subrange(0, 4)) != rows || le_value(b.subrange(4, 8)) != cols {
        Err(
            LoadError::ShapeMismatch {
                rows: le_value(b.subrange(0, 4)) as u64,
                cols: le_value(b.subrange(4, 8)) as u64,
            },
        )
    } else if b.len() < 8 + 8 * (rows * cols) {
        Err(LoadError::Truncated)
    } else {
        Ok(Seq::new(rows * cols, |i: int| le_value(b.subrange(8 + 8 * i, 16 + 8 * i)) as u64))
    }
}

/// Cell `i` takes bytes `8 * i .. 8 * i + 8` of the cells' bytes.
pub proof fn lemma_cells_bytes(cells: Seq<u64>)
    ensures
        cells_bytes(cells).len() == 8 * cells.len(),
        forall|i: int|
            0 <= i < cells.len() ==> #[trigger] cells_bytes(cells).subrange(8 * i, 8 * i + 8)
                == le_bytes(cells[i] as nat, 8),
    decreases cells.len(),
{
    if cells.len() > 0 {
        let front = cells.drop_last();
        lemma_cells_bytes(front);
        lemma_le_bytes_len(cells.last() as nat, 8);
        let all = cells_bytes(cells);
        assert forall|i: int| 0 <= i < cells.len() implies #[trigger] all.subrange(8 * i, 8 * i + 8)
            == le_bytes(cells[i] as nat, 8) by {
            if i < front.len() {
                assert(all.subrange(8 * i, 8 * i + 8) =~= cells_bytes(front).subrange(8 * i, 8 * i + 8));
                assert(front[i] == cells[i]);
            } else {
                assert(all.subrange(8 * i, 8 * i + 8) =~= le_bytes(cells.last() as nat, 8));
            }
        }
    }
}

/// The saved form of a grid, for a grid whose counts fit in four bytes each.
pub fn encode_grid(g: &Grid<u64>) -> (r: Vec<u8>)
    requires
        g.wf(),
        g.rows <= u32::MAX,
        g.cols <= u32::MAX,
    ensures
        r@ == grid_bytes(g.rows as nat, g.cols as nat, g.data@),
{
    let mut out: Vec<u8> = Vec::new();
    push_le(&mut out, g.rows as u64, 4);
    push_le(&mut out, g.cols as u64, 4);
    let ghost header = out@;
    proof {
        assert(g.data@.subrange(0, 0) =~= Seq::<u64>::empty());
    }
    let mut i: usize = 0;
    while i < g.data.len()
        invariant
            header == le_bytes(g.rows as nat, 4) + le_bytes(g.cols as nat, 4),
            i <= g.data@.len(),
            out@ == header + cells_bytes(g.data@.subrange(0, i as int)),
        decreases g.data@.len() - i,
    {
        push_le(&mut out, g.data[i], 8);
        proof {
            let next = g.data@.subrange(0, i + 1);
            assert(next.drop_last() =~= g.data@.subrange(0, i as int));
            assert(out@ =~= header + cells_bytes(next));
        }
        i = i + 1;
    }
    proof {
        assert(g.data@.subrange(0, g.data@.len() as int) =~= g.data@);
    }
    out
}

/// Reads a saved grid of `rows` by `cols` cells out of `b`.
pub fn decode_grid(b: &Vec<u8>, rows: usize, cols: usize) -> (r: Result<Grid<u64>, LoadError>)
    ensures
        r matches Ok(g) ==> g.rows == rows && g.cols == cols && g.wf() && decode_spec(
            b@,
            rows as nat,
            cols as nat,
        ) == Ok::<Seq<u64>, LoadError>(g.data@),
        r matches Err(e) ==> decode_spec(b@, rows as nat, cols as nat) == Err::<Seq<u64>, LoadError>(
            e,
        ),
{
    let len = b.len();
    if len < 8 {
        return Err(LoadError::Truncated);
    }
    let found_rows = read_le(b, 0, 4);
    let found_cols = read_le(b, 4, 4);
    if found_rows != rows as u64 || found_cols != cols as u64 {
        return Err(LoadError::ShapeMismatch { rows: found_rows, cols: found_cols });
    }
    let total = match rows.checked_mul(cols) {
        Some(t) => t,
        None => return Err(LoadError::Truncated),
    };
    if total > (len - 8) / 8 {
        return Err(LoadError::Truncated);
    }
    let ghost cells = Seq::new(
        (rows * cols) as nat,
        |i: int| le_value(b@.subrange(8 + 8 * i, 16 + 8 * i)) as u64,
    );
    let mut data: Vec<u64> = Vec::new();
    let mut i: usize = 0;
    let mut at: usize = 8;
    while i < total
        invariant
            len == b@.len(),
            total == rows * cols,
            8 + 8 * total <= len,
            cells == Seq::new(
                (rows * cols) as nat,
                |i: int| le_value(b@.subrange(8 + 8 * i, 16 + 8 * i)) as u64,
            ),
            i <= total,
            at == 8 + 8 * i,
            data@ == cells.subrange(0, i as int),
        decreases total - i,
    {
        data.push(read_le(b, at, 8));
        i = i + 1;
        at = at + 8;
        assert(data@ =~= cells.subrange(0, i as int));
    }
    assert(data@ =~= cells);
    Ok(Grid { rows, cols, data })
}

/// Round trip: reading back the saved form of a grid gives the grid.
pub proof fn lemma_decode_encoded(rows: nat, cols: nat, cells: Seq<u64>)
    requires
        rows <= u32::MAX,
        cols <= u32::MAX,
        cells.len() == rows * cols,
    ensures
        decode_spec(grid_bytes(rows, cols, cells), rows, cols) == Ok::<Seq<u64>, LoadError>(cells),
{
    reveal_with_fuel(pow256, 9);
    lemma_le_round_trip(rows, 4);
    lemma_le_round_trip(cols, 4);
    lemma_cells_bytes(cells);
    let b = grid_bytes(rows, cols, cells);
    let body = cells_bytes(cells);
    assert(b.subrange(0, 4) =~= le_bytes(rows, 4));
    assert(b.subrange(4, 8) =~= le_bytes(cols, 4));
    let decoded = Seq::new(rows * cols, |i: int| le_value(b.subrange(8 + 8 * i, 16 + 8 * i)) as u64);
    assert forall|i: int| 0 <= i < cells.len() implies #[trigger] decoded[i] == cells[i] by {
        assert(b.subrange(8 + 8 * i, 16 + 8 * i) =~= body.subrange(8 * i, 8 * i + 8));
        lemma_le_round_trip(cells[i] as nat, 8);
    }
    assert(decoded =~= cells);
}

} // verus!
