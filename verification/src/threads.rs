//! How many worker threads a run should use.

use vstd::arithmetic::div_mod::lemma_fundamental_div_mod;
use vstd::prelude::*;

verus! {

/// Each thread should get at least this many cells before another one pays off.
///
/// The solver is memory-bandwidth bound: every cell streams about 2 KB of state
/// per stage, so the useful number of threads follows the number of memory
/// channels rather than the number of cores. Measured optima sit around 16K-37K
/// cells per thread, hence 24K.
pub const CELLS_PER_THREAD: usize = 24576;

/// `x` clamped to `[lo, hi]` (with `lo <= hi`).
pub open spec fn clamp(x: int, lo: int, hi: int) -> int {
    if x < lo { lo } else if x > hi { hi } else { x }
}

/// The thread count for a mesh of `n_cells` cells on a machine offering
/// `available` hardware threads: one thread per whole block of
/// [`CELLS_PER_THREAD`] cells, so that every thread gets at least that many
/// cells; at least one thread, and never more than what is available (an
/// `available` of 0 counts as 1).
pub open spec fn spec_choose_threads(n_cells: nat, available: nat) -> int {
    clamp(
        (n_cells / (CELLS_PER_THREAD as nat)) as int,
        1,
        if available < 1 { 1 } else { available as int },
    )
}

/// Picks the number of threads for a mesh of `n_cells` cells: more than one
/// only when each of them gets at least [`CELLS_PER_THREAD`] cells.
pub fn choose_threads(n_cells: usize, available: usize) -> (r: usize)
    ensures
        r == spec_choose_threads(n_cells as nat, available as nat),
        1 <= r,
        r <= available || r == 1,
        r == 1 || n_cells >= r * CELLS_PER_THREAD,
{
    let blocks: usize = n_cells / CELLS_PER_THREAD;
    let hi: usize = if available < 1 { 1 } else { available };
    if blocks < 1 {
        1
    } else if blocks > hi {
        hi
    } else {
        blocks
    }
}

/// The thread-count rule, stated by what the count must satisfy: with
/// `cap = max(available, 1)`, the count `r` lies in `[1, cap]`; more than one
/// thread only when each gets at least [`CELLS_PER_THREAD`] cells
/// (`r * CELLS_PER_THREAD <= n_cells`); and it stops below `cap` only when one
/// more thread would get fewer than that. So whenever the mesh has between 1 and
/// `available` whole blocks, there is exactly one thread per block.
pub proof fn lemma_choose_threads_rule(n_cells: nat, available: nat)
    ensures
        ({
            let r = spec_choose_threads(n_cells, available);
            let cap: int = if available < 1 { 1 } else { available as int };
            let c = CELLS_PER_THREAD as int;
            &&& 1 <= r <= cap
            &&& r == 1 || r * c <= n_cells
            &&& r == cap || n_cells < (r + 1) * c
            &&& (1 <= n_cells / (CELLS_PER_THREAD as nat) <= available ==> r * c <= n_cells < (r + 1) * c)
        }),
{
    lemma_fundamental_div_mod(n_cells as int, CELLS_PER_THREAD as int);
}

} // verus!
