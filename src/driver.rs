use vstd::prelude::*;
use crate::grid::{ConfigError, Grid, lemma_row_start, valid_shape};
use crate::exchange::{
    Action,
    Handshake,
    Phase,
    in_step,
    lemma_compute_reads_fresh_row,
    lemma_in_step_at_start,
    lemma_poll_keeps_in_step,
};
use crate::partition::{
    Band,
    band_next,
    band_step,
    join_bands,
    lemma_band_row,
    lemma_band_step_fresh,
    split_bands,
};
use crate::schedule::{chunks_cover, compute_rows, copy_border_rows, row_chunks, write_rows};
use crate::stencil::{
    Stencil,
    evolve,
    is_pure_kernel,
    lemma_border_kept,
    lemma_first_row,
    lemma_last_row,
    lemma_evolve_len,
    next_grid,
    row_of,
    sweep,
};

verus! {

/// The outcome of checking a buffer pair before a run: the grid must have an interior,
/// and both buffers must hold one value per cell of the same shape.
pub open spec fn pair_check<T>(a: &Grid<T>, b: &Grid<T>) -> Result<(), ConfigError> {
    if !valid_shape(a.rows as int, a.cols as int) {
        Err(ConfigError::TooSmall)
    } else if !a.wf() || !b.wf() || b.rows != a.rows || b.cols != a.cols {
        Err(ConfigError::ShapeMismatch)
    } else {
        Ok(())
    }
}

/// The outcome of checking a buffer pair and a worker count before a row-parallel run.
pub open spec fn pool_check<T>(a: &Grid<T>, b: &Grid<T>, workers: usize) -> Result<(), ConfigError> {
    if pair_check(a, b) is Err {
        pair_check(a, b)
    } else if workers == 0 {
        Err(ConfigError::NoWorkers)
    } else {
        Ok(())
    }
}

/// What a run leaves in its buffer pair, which held `a0` and `b0` before: `a` holds the
/// grid after `steps` updates, and `b` the grid one update before that, or `b0` as it was
/// when no step was run. Both buffers keep the shape they had.
pub open spec fn run_result<T, F: Fn(Stencil<T>) -> T>(
    k: F,
    source: T,
    steps: nat,
    a0: &Grid<T>,
    b0: &Grid<T>,
    a: &Grid<T>,
    b: &Grid<T>,
) -> bool {
    &&& a.rows == a0.rows
    &&& a.cols == a0.cols
    &&& b.rows == a0.rows
    &&& b.cols == a0.cols
    &&& a.wf()
    &&& b.wf()
    &&& a.data@ == evolve(k, source, a0.rows as int, a0.cols as int, a0.data@, steps)
    &&& b.data@ == previous(k, source, a0.rows as int, a0.cols as int, a0.data@, b0.data@, steps)
}

/// The grid one update before `evolve(.., g0, steps)`, where `h0` stands before the first.
pub open spec fn previous<T, F: Fn(Stencil<T>) -> T>(
    k: F,
    source: T,
    n: int,
    m: int,
    g0: Seq<T>,
    h0: Seq<T>,
    steps: nat,
) -> Seq<T> {
    if steps == 0 {
        h0
    } else {
        evolve(k, source, n, m, g0, (steps - 1) as nat)
    }
}

/// Checks a buffer pair before a run.
pub fn check_pair<T>(a: &Grid<T>, b: &Grid<T>) -> (r: Result<(), ConfigError>)
    ensures
        r == pair_check(a, b),
{
    if a.rows < 3 || a.cols < 3 {
        return Err(ConfigError::TooSmall);
    }
    match a.rows.checked_mul(a.cols) {
        Some(total) => {
            if a.data.len() != total || b.data.len() != total || b.rows != a.rows || b.cols
                != a.cols {
                Err(ConfigError::ShapeMismatch)
            } else {
                Ok(())
            }
        },
        None => {
            // No buffer is that long: its length is a `usize`.
            let _len = a.data.len();
            Err(ConfigError::ShapeMismatch)
        },
    }
}

/// The sequential reference: runs `steps` updates on the pair `(a, b)`, swapping the two
/// buffers after each one, so that `a` holds the result whatever the parity of `steps`.
pub fn jacobi_step<T: Copy, F: Fn(Stencil<T>) -> T>(
    kernel: &F,
    source: T,
    a: &mut Grid<T>,
    b: &mut Grid<T>,
    steps: usize,
) -> (r: Result<(), ConfigError>)
    requires
        is_pure_kernel(*kernel),
    ensures
        r == pair_check(old(a), old(b)),
        r is Ok ==> run_result(*kernel, source, steps as nat, old(a), old(b), final(a), final(b)),
        r is Err ==> *final(a) == *old(a) && *final(b) == *old(b),
{
    check_pair(a, b)?;
    let ghost a0 = *a;
    let ghost b0 = *b;
    let mut t: usize = 0;
    while t < steps
        invariant
            is_pure_kernel(*kernel),
            pair_check(&a0, b) == Ok::<(), ConfigError>(()),
            t <= steps,
            run_result(*kernel, source, t as nat, &a0, &b0, a, b),
        decreases steps - t,
    {
        sweep(kernel, source, a, b);
        std::mem::swap(&mut a.data, &mut b.data);
        t = t + 1;
    }
    Ok(())
}

/// Takes the buffer out of a grid, leaving it empty.
fn take_grid<T>(g: &mut Grid<T>) -> (r: Grid<T>)
    ensures
        r.rows == old(g).rows,
        r.cols == old(g).cols,
        r.data@ == old(g).data@,
        final(g).rows == old(g).rows,
        final(g).cols == old(g).cols,
        final(g).data@.len() == 0,
{
    let mut data: Vec<T> = Vec::new();
    std::mem::swap(&mut data, &mut g.data);
    Grid { rows: g.rows, cols: g.cols, data }
}

/// The domain-decomposed run: each grid of the pair is split into an upper and a lower
/// band, and each step both bands first publish their seam rows, then each updates its own
/// rows, reading the neighbour's seam row where its own rows end, then both swap buffers.
/// The bands are joined back into `a` at the end. This is the order that a rendezvous
/// barrier or a pair of one-slot channels imposes on two band workers.
pub fn run_banded<T: Copy, F: Fn(Stencil<T>) -> T>(
    kernel: &F,
    source: T,
    a: &mut Grid<T>,
    b: &mut Grid<T>,
    steps: usize,
) -> (r: Result<(), ConfigError>)
    requires
        is_pure_kernel(*kernel),
    ensures
        r == pair_check(old(a), old(b)),
        r is Ok ==> run_result(*kernel, source, steps as nat, old(a), old(b), final(a), final(b)),
        r is Err ==> *final(a) == *old(a) && *final(b) == *old(b),
{
    check_pair(a, b)?;
    let ghost a0 = *a;
    let ghost b0 = *b;
    let n = a.rows;
    let m = a.cols;
    let ga = take_grid(a);
    let gb = take_grid(b);
    let (mut upper_src, mut lower_src) = split_bands(ga);
    let (mut upper_dst, mut lower_dst) = split_bands(gb);
    let mut t: usize = 0;
    while t < steps
        invariant
            is_pure_kernel(*kernel),
            pair_check(&a0, &a0) == Ok::<(), ConfigError>(()),
            n == a0.rows,
            m == a0.cols,
            t <= steps,
            upper_src.pairs_with(&upper_dst),
            lower_src.pairs_with(&lower_dst),
            upper_src.first == 0,
            upper_src.rows == n / 2,
            upper_src.cols == m,
            upper_src.grid_rows == n,
            lower_src.first == n / 2,
            lower_src.rows == n - n / 2,
            lower_src.cols == m,
            lower_src.grid_rows == n,
            evolve(*kernel, source, n as int, m as int, a0.data@, t as nat).len() == n * m,
            upper_src.holds_rows_of(evolve(*kernel, source, n as int, m as int, a0.data@, t as nat)),
            lower_src.holds_rows_of(evolve(*kernel, source, n as int, m as int, a0.data@, t as nat)),
            pair_check(&a0, &b0) == Ok::<(), ConfigError>(()),
            upper_dst.holds_rows_of(
                previous(*kernel, source, n as int, m as int, a0.data@, b0.data@, t as nat),
            ),
            lower_dst.holds_rows_of(
                previous(*kernel, source, n as int, m as int, a0.data@, b0.data@, t as nat),
            ),
        decreases steps - t,
    {
        let ghost g = evolve(*kernel, source, n as int, m as int, a0.data@, t as nat);
        let upper_seam = upper_src.seam_row();
        let lower_seam = lower_src.seam_row();
        proof {
            lemma_band_row(&upper_src, g, upper_src.rows - 1);
            lemma_band_row(&lower_src, g, 0);
        }
        band_step(kernel, source, &upper_src, &lower_seam, &mut upper_dst);
        band_step(kernel, source, &lower_src, &upper_seam, &mut lower_dst);
        proof {
            lemma_band_step_fresh(*kernel, source, &upper_src, lower_seam@, g);
            lemma_band_step_fresh(*kernel, source, &lower_src, upper_seam@, g);
        }
        std::mem::swap(&mut upper_src, &mut upper_dst);
        std::mem::swap(&mut lower_src, &mut lower_dst);
        t = t + 1;
    }
    let ga = join_bands(upper_src, lower_src);
    let gb = join_bands(upper_dst, lower_dst);
    proof {
        let g = evolve(*kernel, source, n as int, m as int, a0.data@, steps as nat);
        let h = previous(*kernel, source, n as int, m as int, a0.data@, b0.data@, steps as nat);
        lemma_evolve_len(*kernel, source, n as int, m as int, a0.data@, (steps - 1) as nat);
        crate::grid::lemma_row_start(n as int, m as int, n as int / 2);
        assert(ga.data@ =~= g);
        assert(gb.data@ =~= h);
    }
    *a = ga;
    *b = gb;
    Ok(())
}

/// The per-step row-parallel run: each step copies the border rows, then hands the
/// interior rows out in chunks, each computed from the previous grid alone and written
/// into its own rows of the next one, then swaps the buffers. A pool computes the chunks
/// of one step in any order, since no chunk reads what another writes.
pub fn run_row_parallel<T: Copy, F: Fn(Stencil<T>) -> T>(
    kernel: &F,
    source: T,
    a: &mut Grid<T>,
    b: &mut Grid<T>,
    steps: usize,
    workers: usize,
) -> (r: Result<(), ConfigError>)
    requires
        is_pure_kernel(*kernel),
    ensures
        r == pool_check(old(a), old(b), workers),
        r is Ok ==> run_result(*kernel, source, steps as nat, old(a), old(b), final(a), final(b)),
        r is Err ==> *final(a) == *old(a) && *final(b) == *old(b),
{
    check_pair(a, b)?;
    let chunks = row_chunks(a.rows, workers)?;
    let ghost a0 = *a;
    let ghost b0 = *b;
    let n = a.rows;
    let m = a.cols;
    let mut t: usize = 0;
    while t < steps
        invariant
            is_pure_kernel(*kernel),
            pair_check(&a0, b) == Ok::<(), ConfigError>(()),
            n == a0.rows,
            m == a0.cols,
            chunks_cover(chunks@, n as int),
            t <= steps,
            run_result(*kernel, source, t as nat, &a0, &b0, a, b),
        decreases steps - t,
    {
        let ghost ng = next_grid(*kernel, source, n as int, m as int, a.data@);
        proof {
            lemma_border_kept(*kernel, source, n as int, m as int, a.data@);
            lemma_row_start(n as int, m as int, 1);
            lemma_row_start(n as int, m as int, n - 1);
        }
        copy_border_rows(a, b);
        proof {
            assert forall|x: int| 0 <= x < m implies #[trigger] b.data@[x] == ng[x] by {
                lemma_first_row(n as int, m as int, x);
            }
            assert forall|x: int| (n - 1) * m <= x < n * m implies #[trigger] b.data@[x] == ng[x] by {
                lemma_last_row(n as int, m as int, x);
            }
        }
        let mut c: usize = 0;
        let mut covered: usize = 1;
        while c < chunks.len()
            invariant
                is_pure_kernel(*kernel),
                pair_check(&a0, b) == Ok::<(), ConfigError>(()),
                a.rows == n,
                a.cols == m,
                a.wf(),
                a.data@ == evolve(*kernel, source, n as int, m as int, a0.data@, t as nat),
                n == a0.rows,
                m == a0.cols,
                chunks_cover(chunks@, n as int),
                ng == next_grid(*kernel, source, n as int, m as int, a.data@),
                c <= chunks@.len(),
                covered == if c == 0 {
                    1
                } else {
                    chunks@[c - 1].1 as int
                },
                1 <= covered <= n - 1,
                forall|x: int| 0 <= x < covered * m ==> #[trigger] b.data@[x] == ng[x],
                forall|x: int| (n - 1) * m <= x < n * m ==> #[trigger] b.data@[x] == ng[x],
            decreases chunks@.len() - c,
        {
            let (lo, hi) = chunks[c];
            proof {
                assert(1 <= chunks@[c as int].0 && chunks@[c as int].1 <= n - 1);
            }
            let rows = compute_rows(kernel, source, a, lo, hi);
            proof {
                lemma_row_start(n as int, m as int, lo as int);
                lemma_row_start(n as int, m as int, hi as int);
                lemma_row_start(n as int, m as int, n - 1);
                assert(lo * m <= hi * m <= (n - 1) * m) by (nonlinear_arith)
                    requires
                        lo <= hi <= n - 1,
                        0 <= m,
                ;
            }
            write_rows(b, lo, &rows);
            proof {
                assert forall|x: int| 0 <= x < hi * m implies #[trigger] b.data@[x] == ng[x] by {
                    if x >= lo * m {
                        assert(rows@[x - lo * m] == ng[x]);
                    }
                }
            }
            covered = hi;
            c = c + 1;
        }
        proof {
            assert(b.data@ =~= ng);
        }
        std::mem::swap(&mut a.data, &mut b.data);
        t = t + 1;
    }
    Ok(())
}

/// Determinism: two runs on the same pair with the same kernel, source and step count,
/// whichever of the drivers made them, leave bit-identical grids in both buffers.
pub proof fn lemma_runs_agree<T, F: Fn(Stencil<T>) -> T>(
    k: F,
    source: T,
    steps: nat,
    a0: &Grid<T>,
    b0: &Grid<T>,
    a1: &Grid<T>,
    b1: &Grid<T>,
    a2: &Grid<T>,
    b2: &Grid<T>,
)
    requires
        run_result(k, source, steps, a0, b0, a1, b1),
        run_result(k, source, steps, a0, b0, a2, b2),
    ensures
        a1.data@ == a2.data@,
        b1.data@ == b2.data@,
        a1.rows == a2.rows,
        a1.cols == a2.cols,
{
}

/// What an action of the counter handshake does to a worker's bands and slot.
pub open spec fn poll_effect<T, F: Fn(Stencil<T>) -> T>(
    k: F,
    source: T,
    action: Action,
    src: Band<T>,
    dst: Band<T>,
    slot: Seq<T>,
    peer_slot: Seq<T>,
    src2: Band<T>,
    dst2: Band<T>,
    slot2: Seq<T>,
) -> bool {
    match action {
        Action::Publish => slot2 == row_of(src.data@, src.cols as int, src.seam()) && src2 == src
            && dst2 == dst,
        Action::Compute => dst2.data@ == band_next(k, source, &src, peer_slot) && src.pairs_with(
            &dst2,
        ) && src2 == src && slot2 == slot,
        Action::Swap => src2 == dst && dst2 == src && slot2 == slot,
        _ => src2 == src && dst2 == dst && slot2 == slot,
    }
}

/// One poll of a band's worker in the counter handshake, and the action it decides:
/// publishing the seam row into the worker's slot, computing the band from the neighbour's
/// slot, or swapping the band's buffers.
fn poll_band<T: Copy, F: Fn(Stencil<T>) -> T>(
    kernel: &F,
    source: T,
    h: &mut Handshake,
    src: &mut Band<T>,
    dst: &mut Band<T>,
    slot: &mut Vec<T>,
    peer_slot: &Vec<T>,
    peer_ready: u64,
    peer_done: u64,
) -> (r: Action)
    requires
        is_pure_kernel(*kernel),
        old(h).wf(),
        old(src).pairs_with(old(dst)),
        old(h).action(peer_ready, peer_done) == Action::Compute ==> peer_slot@.len()
            == old(src).cols,
    ensures
        r == old(h).action(peer_ready, peer_done),
        *final(h) == old(h).after(peer_ready, peer_done),
        final(h).wf(),
        poll_effect(
            *kernel,
            source,
            r,
            *old(src),
            *old(dst),
            old(slot)@,
            peer_slot@,
            *final(src),
            *final(dst),
            final(slot)@,
        ),
{
    let action = h.poll(peer_ready, peer_done);
    match action {
        Action::Publish => {
            *slot = src.seam_row();
        },
        Action::Compute => {
            band_step(kernel, source, src, peer_slot, dst);
        },
        Action::Swap => {
            std::mem::swap(src, dst);
        },
        _ => {},
    }
    action
}

/// A worker of the counter handshake stands where the reference run says: its source band
/// holds the rows of the grid before its current step, its destination band the rows after
/// it once computed and the rows one step further back until then (`h0` before the first
/// step), and its slot the seam row of the last step it published.
pub open spec fn worker_in_place<T, F: Fn(Stencil<T>) -> T>(
    k: F,
    source: T,
    g0: Seq<T>,
    h0: Seq<T>,
    h: Handshake,
    src: &Band<T>,
    dst: &Band<T>,
    slot: Seq<T>,
) -> bool {
    let n = src.grid_rows as int;
    let m = src.cols as int;
    &&& h.wf()
    &&& src.pairs_with(dst)
    &&& src.holds_rows_of(evolve(k, source, n, m, g0, (h.step - 1) as nat))
    &&& h.phase == Phase::AwaitDone ==> dst.holds_rows_of(evolve(k, source, n, m, g0, h.step as nat))
    &&& h.phase != Phase::AwaitDone ==> dst.holds_rows_of(
        previous(k, source, n, m, g0, h0, (h.step - 1) as nat),
    )
    &&& h.ready_count() >= 1 ==> slot == row_of(
        evolve(k, source, n, m, g0, (h.ready_count() - 1) as nat),
        m,
        src.first + src.seam(),
    )
}

/// The two bands are the two halves of one grid of `n` rows and `m` columns.
pub open spec fn halves<T>(w: &Band<T>, p: &Band<T>, n: int, m: int) -> bool {
    &&& w.wf()
    &&& p.wf()
    &&& w.grid_rows == n
    &&& p.grid_rows == n
    &&& w.cols == m
    &&& p.cols == m
    &&& w.is_upper() != p.is_upper()
}

/// A poll that reads the neighbour's current counters keeps the worker in place, and the
/// two workers in step.
pub proof fn lemma_poll_in_place<T, F: Fn(Stencil<T>) -> T>(
    k: F,
    source: T,
    g0: Seq<T>,
    h0: Seq<T>,
    h: Handshake,
    src: Band<T>,
    dst: Band<T>,
    slot: Seq<T>,
    p: Handshake,
    psrc: Band<T>,
    pdst: Band<T>,
    pslot: Seq<T>,
    src2: Band<T>,
    dst2: Band<T>,
    slot2: Seq<T>,
)
    requires
        is_pure_kernel(k),
        halves(&src, &psrc, src.grid_rows as int, src.cols as int),
        g0.len() == src.grid_rows * src.cols,
        worker_in_place(k, source, g0, h0, h, &src, &dst, slot),
        worker_in_place(k, source, g0, h0, p, &psrc, &pdst, pslot),
        in_step(h, p),
        poll_effect(
            k,
            source,
            h.action(p.ready_count() as u64, p.done_count() as u64),
            src,
            dst,
            slot,
            pslot,
            src2,
            dst2,
            slot2,
        ),
    ensures
        worker_in_place(
            k,
            source,
            g0,
            h0,
            h.after(p.ready_count() as u64, p.done_count() as u64),
            &src2,
            &dst2,
            slot2,
        ),
        in_step(h.after(p.ready_count() as u64, p.done_count() as u64), p),
{
    let n = src.grid_rows as int;
    let m = src.cols as int;
    let pr = p.ready_count() as u64;
    let pd = p.done_count() as u64;
    let h2 = h.after(pr, pd);
    lemma_poll_keeps_in_step(h, p, pr, pd);
    let g = evolve(k, source, n, m, g0, (h.step - 1) as nat);
    lemma_evolve_len(k, source, n, m, g0, (h.step - 1) as nat);
    match h.action(pr, pd) {
        Action::Publish => {
            lemma_band_row(&src, g, src.seam());
        },
        Action::Compute => {
            lemma_compute_reads_fresh_row(h, p, pr, pd);
            assert(pslot == row_of(g, m, src.ghost_source()));
            lemma_band_step_fresh(k, source, &src, pslot, g);
        },
        _ => {},
    }
}

/// Where the two workers of a run of `steps` steps stand after the polls `turns`, each
/// reading the other's current counters (`true`: the upper band polls).
pub open spec fn turn_states(turns: Seq<bool>, steps: u64) -> (Handshake, Handshake)
    decreases turns.len(),
{
    if turns.len() == 0 {
        (
            Handshake { step: 1, phase: Phase::Publish, steps },
            Handshake { step: 1, phase: Phase::Publish, steps },
        )
    } else {
        let (u, l) = turn_states(turns.drop_last(), steps);
        if turns.last() {
            (u.after(l.ready_count() as u64, l.done_count() as u64), l)
        } else {
            (u, l.after(u.ready_count() as u64, u.done_count() as u64))
        }
    }
}

/// Both workers are through all their steps.
pub open spec fn turns_finish(turns: Seq<bool>, steps: u64) -> bool {
    turn_states(turns, steps).0.step > steps && turn_states(turns, steps).1.step > steps
}

/// The domain-decomposed run under the step-counter handshake, with the two workers'
/// polls taken one at a time in the order `turns` gives (`true`: the upper band polls).
/// Each poll reads the other worker's counters as they stand. The result is `Ok(true)`
/// when both workers got through all the steps, and `a` then holds the reference result,
/// whatever the interleaving. Strict turns, `6 * steps` polls from the upper band on,
/// always get through.
pub fn run_counter_handshake<T: Copy, F: Fn(Stencil<T>) -> T>(
    kernel: &F,
    source: T,
    a: &mut Grid<T>,
    b: &mut Grid<T>,
    steps: usize,
    turns: &Vec<bool>,
) -> (r: Result<bool, ConfigError>)
    requires
        is_pure_kernel(*kernel),
        steps < u64::MAX,
    ensures
        pair_check(old(a), old(b)) is Err ==> r == Err::<bool, ConfigError>(
            pair_check(old(a), old(b))->Err_0,
        ),
        pair_check(old(a), old(b)) is Ok ==> r == Ok::<bool, ConfigError>(
            turns_finish(turns@, steps as u64),
        ),
        pair_check(old(a), old(b)) is Ok && turns@ == alternating(6 * steps as nat) ==> r
            == Ok::<bool, ConfigError>(true),
        r == Ok::<bool, ConfigError>(true) ==> run_result(
            *kernel,
            source,
            steps as nat,
            old(a),
            old(b),
            final(a),
            final(b),
        ),
        r is Ok ==> final(a).rows == old(a).rows && final(a).cols == old(a).cols && final(a).wf()
            && final(b).rows == old(a).rows && final(b).cols == old(a).cols && final(b).wf(),
        r is Err ==> *final(a) == *old(a) && *final(b) == *old(b),
{
    match check_pair(a, b) {
        Err(e) => return Err(e),
        Ok(()) => {},
    }
    proof {
        lemma_alternating_turns_finish(steps as u64);
    }
    let ghost a0 = *a;
    let ghost b0 = *b;
    let ghost g0 = a0.data@;
    let n = a.rows;
    let m = a.cols;
    let total_steps = steps as u64;
    let ga = take_grid(a);
    let gb = take_grid(b);
    let (mut upper_src, mut lower_src) = split_bands(ga);
    let (mut upper_dst, mut lower_dst) = split_bands(gb);
    let mut upper = Handshake::new(total_steps);
    let mut lower = Handshake::new(total_steps);
    let mut upper_slot: Vec<T> = Vec::new();
    let mut lower_slot: Vec<T> = Vec::new();
    proof {
        lemma_in_step_at_start(total_steps);
        assert(upper_src.holds_rows_of(evolve(*kernel, source, n as int, m as int, g0, 0)));
        assert(turns@.subrange(0, 0) =~= Seq::<bool>::empty());
    }
    let mut i: usize = 0;
    while i < turns.len()
        invariant
            is_pure_kernel(*kernel),
            pair_check(&a0, &a0) == Ok::<(), ConfigError>(()),
            g0 == a0.data@,
            n == a0.rows,
            m == a0.cols,
            total_steps == steps,
            pair_check(&a0, &b0) == Ok::<(), ConfigError>(()),
            i <= turns@.len(),
            (upper, lower) == turn_states(turns@.subrange(0, i as int), total_steps),
            upper.steps == total_steps,
            halves(&upper_src, &lower_src, n as int, m as int),
            upper_src.is_upper(),
            worker_in_place(*kernel, source, g0, b0.data@, upper, &upper_src, &upper_dst, upper_slot@),
            worker_in_place(*kernel, source, g0, b0.data@, lower, &lower_src, &lower_dst, lower_slot@),
            in_step(upper, lower),
        decreases turns@.len() - i,
    {
        let ghost before = turns@.subrange(0, i as int);
        let ghost (u0, l0) = (upper, lower);
        let ghost (us0, ud0, uslot0) = (upper_src, upper_dst, upper_slot@);
        let ghost (ls0, ld0, lslot0) = (lower_src, lower_dst, lower_slot@);
        if turns[i] {
            let peer_ready = lower.ready();
            let peer_done = lower.done();
            proof {
                if u0.action(peer_ready, peer_done) == Action::Compute {
                    lemma_compute_reads_fresh_row(u0, l0, peer_ready, peer_done);
                    lemma_evolve_len(*kernel, source, n as int, m as int, g0, (u0.step - 1) as nat);
                    lemma_row_start(n as int, m as int, ls0.first + ls0.seam());
                }
            }
            poll_band(
                kernel,
                source,
                &mut upper,
                &mut upper_src,
                &mut upper_dst,
                &mut upper_slot,
                &lower_slot,
                peer_ready,
                peer_done,
            );
            proof {
                lemma_poll_in_place(
                    *kernel, source, g0, b0.data@, u0, us0, ud0, uslot0, l0, ls0, ld0, lslot0,
                    upper_src, upper_dst, upper_slot@,
                );
            }
        } else {
            let peer_ready = upper.ready();
            let peer_done = upper.done();
            proof {
                if l0.action(peer_ready, peer_done) == Action::Compute {
                    lemma_compute_reads_fresh_row(l0, u0, peer_ready, peer_done);
                    lemma_evolve_len(*kernel, source, n as int, m as int, g0, (l0.step - 1) as nat);
                    lemma_row_start(n as int, m as int, us0.first + us0.seam());
                }
            }
            poll_band(
                kernel,
                source,
                &mut lower,
                &mut lower_src,
                &mut lower_dst,
                &mut lower_slot,
                &upper_slot,
                peer_ready,
                peer_done,
            );
            proof {
                lemma_poll_in_place(
                    *kernel, source, g0, b0.data@, l0, ls0, ld0, lslot0, u0, us0, ud0, uslot0,
                    lower_src, lower_dst, lower_slot@,
                );
            }
        }
        proof {
            assert(turns@.subrange(0, i + 1).drop_last() =~= before);
        }
        i = i + 1;
    }
    proof {
        assert(turns@.subrange(0, turns@.len() as int) =~= turns@);
    }
    let finished = upper.step > total_steps && lower.step > total_steps;
    let ga = join_bands(upper_src, lower_src);
    let gb = join_bands(upper_dst, lower_dst);
    proof {
        if finished {
            assert(upper.step == steps + 1);
            assert(lower.step == steps + 1);
            assert(upper_src.rows == n / 2);
            assert(lower_src.first == n / 2 && lower_src.rows == n - n / 2);
            let g = evolve(*kernel, source, n as int, m as int, g0, steps as nat);
            let h = previous(*kernel, source, n as int, m as int, g0, b0.data@, steps as nat);
            lemma_evolve_len(*kernel, source, n as int, m as int, g0, steps as nat);
            lemma_evolve_len(*kernel, source, n as int, m as int, g0, (steps - 1) as nat);
            crate::grid::lemma_row_start(n as int, m as int, n as int / 2);
            assert(ga.data@ =~= g);
            assert(gb.data@ =~= h);
        }
    }
    *a = ga;
    *b = gb;
    Ok(finished)
}

/// Strict turns, the upper band first: `len` polls.
pub open spec fn alternating(len: nat) -> Seq<bool> {
    Seq::new(len, |i: int| i % 2 == 0)
}

/// Two workers that take strict turns, the upper band first, are both at the start of step
/// `k + 1` after `6 * k` polls: each step takes each of them a publish, a compute and a
/// swap, and neither ever waits.
pub proof fn lemma_alternating_turns(k: nat, steps: u64)
    requires
        k <= steps,
        steps < u64::MAX,
    ensures
        turn_states(alternating(6 * k), steps) == (
            Handshake { step: (k + 1) as u64, phase: Phase::Publish, steps },
            Handshake { step: (k + 1) as u64, phase: Phase::Publish, steps },
        ),
    decreases k,
{
    if k > 0 {
        lemma_alternating_turns((k - 1) as nat, steps);
        let base = (6 * (k - 1)) as nat;
        assert(alternating(base + 1).drop_last() =~= alternating(base));
        assert(alternating(base + 2).drop_last() =~= alternating(base + 1));
        assert(alternating(base + 3).drop_last() =~= alternating(base + 2));
        assert(alternating(base + 4).drop_last() =~= alternating(base + 3));
        assert(alternating(base + 5).drop_last() =~= alternating(base + 4));
        assert(alternating(base + 6).drop_last() =~= alternating(base + 5));
        assert(alternating(base + 1).last());
        assert(!alternating(base + 2).last());
        assert(alternating(base + 3).last());
        assert(!alternating(base + 4).last());
        assert(alternating(base + 5).last());
        assert(!alternating(base + 6).last());
        let at = k as u64;
        let next = (k + 1) as u64;
        let w = |step: u64, phase: Phase| Handshake { step, phase, steps };
        assert(turn_states(alternating(base), steps) == (w(at, Phase::Publish), w(at, Phase::Publish)));
        assert(turn_states(alternating(base + 1), steps) == (
            w(at, Phase::AwaitReady),
            w(at, Phase::Publish),
        ));
        assert(turn_states(alternating(base + 2), steps) == (
            w(at, Phase::AwaitReady),
            w(at, Phase::AwaitReady),
        ));
        assert(turn_states(alternating(base + 3), steps) == (
            w(at, Phase::AwaitDone),
            w(at, Phase::AwaitReady),
        ));
        assert(turn_states(alternating(base + 4), steps) == (
            w(at, Phase::AwaitDone),
            w(at, Phase::AwaitDone),
        ));
        assert(turn_states(alternating(base + 5), steps) == (
            w(next, Phase::Publish),
            w(at, Phase::AwaitDone),
        ));
        assert(turn_states(alternating(base + 6), steps) == (
            w(next, Phase::Publish),
            w(next, Phase::Publish),
        ));
        assert(6 * k == base + 6);
    }
}

/// Strict turns finish a run: after `6 * steps` polls both workers are through.
pub proof fn lemma_alternating_turns_finish(steps: u64)
    requires
        steps < u64::MAX,
    ensures
        turns_finish(alternating(6 * steps as nat), steps),
{
    lemma_alternating_turns(steps as nat, steps);
}

} // verus!
