//! Ghost-layer index rules of the boundary conditions.
//!
//! The boundary conditions are the only code that writes ghost cells. Three
//! kinds of boundary surround the physical cells:
//!
//! 1. the wall (`i < 0`): mirror, ghost row `-1-k` takes physical row `k`
//!    (scalars copied, velocity and `nu~` flipped in sign by the caller's map);
//! 2. the far field (`i >= NI`): characteristic state, a floating-point matter
//!    of the caller;
//! 3. the circumferential cut (`j < 0` or `j >= NJ`): periodic, ghost column
//!    `j` takes column `j mod NJ`.
//!
//! Corner ghosts (both indices outside) are never written: no stencil reads them.

use crate::field::{lemma_read_after_write, Field, FieldView};
use vstd::arithmetic::div_mod::{lemma_mod_add_multiples_vanish, lemma_small_mod};
use vstd::prelude::*;

verus! {

/// `(i, j)` is one of the first `layers` wall ghost rows, within the physical
/// columns.
pub open spec fn in_wall_ghosts<T>(f: FieldView<T>, layers: int, i: int, j: int) -> bool {
    -layers <= i < 0 && 0 <= j < f.nj
}

/// `(i, j)` is one of the first `layers` ghost columns on either side of the
/// circumferential cut, within the physical rows.
pub open spec fn in_seam_ghosts<T>(f: FieldView<T>, layers: int, i: int, j: int) -> bool {
    0 <= i < f.ni && (-layers <= j < 0 || f.nj <= j < f.nj + layers)
}

/// Mirrors the first `layers` rows of physical cells into the wall ghost rows:
/// ghost row `-1-k` takes `flip` of physical row `k`. Nothing else changes.
pub fn mirror_wall<T: Copy, F: Fn(T) -> T>(f: &mut Field<T>, layers: usize, flip: F)
    requires
        old(f).wf(),
        layers <= old(f)@.halo,
        forall|v: T| flip.requires((v,)),
    ensures
        final(f).wf(),
        final(f)@.same_shape(old(f)@),
        forall|i: int, j: int|
            #![trigger final(f)@.at(i, j)]
            old(f)@.in_range(i, j) ==> if in_wall_ghosts(old(f)@, layers as int, i, j) {
                flip.ensures((old(f)@.at(-1 - i, j),), final(f)@.at(i, j))
            } else {
                final(f)@.at(i, j) == old(f)@.at(i, j)
            },
{
    let ghost f0 = f@;
    let nj = f.nj() as isize;
    proof {
        f.lemma_view_wf();
    }
    let mut k: usize = 0;
    while k < layers
        invariant
            f.wf(),
            f@.same_shape(f0),
            f0.wf(),
            layers <= f0.halo,
            nj == f0.nj,
            f0.nj <= isize::MAX,
            f0.halo <= isize::MAX,
            k <= layers,
            forall|v: T| flip.requires((v,)),
            forall|i: int, j: int|
                #![trigger f@.at(i, j)]
                f0.in_range(i, j) ==> if in_wall_ghosts(f0, k as int, i, j) {
                    flip.ensures((f0.at(-1 - i, j),), f@.at(i, j))
                } else {
                    f@.at(i, j) == f0.at(i, j)
                },
        decreases layers - k,
    {
        let row = -1 - (k as isize);
        let mut j: isize = 0;
        while j < nj
            invariant
                f.wf(),
                f@.same_shape(f0),
                f0.wf(),
                layers <= f0.halo,
                nj == f0.nj,
                f0.halo <= isize::MAX,
                k < layers,
                row == -1 - k,
                0 <= j <= nj,
                forall|v: T| flip.requires((v,)),
                forall|i: int, jj: int|
                    #![trigger f@.at(i, jj)]
                    f0.in_range(i, jj) ==> if in_wall_ghosts(f0, k as int, i, jj) || (i == row
                        && 0 <= jj < j) {
                        flip.ensures((f0.at(-1 - i, jj),), f@.at(i, jj))
                    } else {
                        f@.at(i, jj) == f0.at(i, jj)
                    },
            decreases nj - j,
        {
            let ghost f1 = f@;
            proof {
                f.lemma_view_wf();
            }
            let src = f.get(k as isize, j);
            let v = flip(src);
            f.set(row, j, v);
            proof {
                assert forall|i: int, jj: int|
                    #![trigger f@.at(i, jj)]
                    f0.in_range(i, jj) implies if in_wall_ghosts(f0, k as int, i, jj) || (i == row
                        && 0 <= jj < j + 1) {
                        flip.ensures((f0.at(-1 - i, jj),), f@.at(i, jj))
                    } else {
                        f@.at(i, jj) == f0.at(i, jj)
                    } by {
                    lemma_read_after_write(f1, row as int, j as int, v, i, jj);
                }
            }
            j = j + 1;
        }
        proof {
            assert forall|i: int, jj: int|
                #![trigger f@.at(i, jj)]
                f0.in_range(i, jj) implies if in_wall_ghosts(f0, k + 1, i, jj) {
                    flip.ensures((f0.at(-1 - i, jj),), f@.at(i, jj))
                } else {
                    f@.at(i, jj) == f0.at(i, jj)
                } by {
            }
        }
        k = k + 1;
    }
}

/// Physical column whose value a seam ghost column `j` carries: `j mod nj`.
pub open spec fn seam_source(nj: int, j: int) -> int {
    j % nj
}

/// Fills the first `layers` ghost columns on both sides of the circumferential
/// cut, in every physical row: ghost column `j` takes the value of column
/// `j mod NJ` (so `-k` takes `NJ-k` and `NJ-1+k` takes `k-1`). Nothing else
/// changes. A ring without columns (`NJ = 0`) is left as it is.
pub fn fill_periodic_seam<T: Copy>(f: &mut Field<T>, layers: usize)
    requires
        old(f).wf(),
        layers <= old(f)@.halo,
    ensures
        final(f).wf(),
        final(f)@.same_shape(old(f)@),
        forall|i: int, j: int|
            #![trigger final(f)@.at(i, j)]
            old(f)@.in_range(i, j) ==> final(f)@.at(i, j) == if in_seam_ghosts(
                old(f)@,
                layers as int,
                i,
                j,
            ) && old(f)@.nj > 0 {
                old(f)@.at(i, seam_source(old(f)@.nj as int, j))
            } else {
                old(f)@.at(i, j)
            },
{
    let ghost f0 = f@;
    let ni = f.ni() as isize;
    let nj = f.nj() as isize;
    proof {
        f.lemma_view_wf();
    }
    if nj == 0 {
        return;
    }
    let mut i: isize = 0;
    while i < ni
        invariant
            f.wf(),
            f@.same_shape(f0),
            f0.wf(),
            layers <= f0.halo,
            ni == f0.ni,
            nj == f0.nj,
            nj > 0,
            f0.halo <= isize::MAX,
            f0.nj + f0.halo <= isize::MAX,
            0 <= i <= ni,
            forall|a: int, b: int|
                #![trigger f@.at(a, b)]
                f0.in_range(a, b) ==> f@.at(a, b) == if in_seam_ghosts(f0, layers as int, a, b)
                    && a < i {
                    f0.at(a, seam_source(nj as int, b))
                } else {
                    f0.at(a, b)
                },
        decreases ni - i,
    {
        let mut k: isize = 1;
        while k <= layers as isize
            invariant
                f.wf(),
                f@.same_shape(f0),
                f0.wf(),
                layers <= f0.halo,
                ni == f0.ni,
                nj == f0.nj,
                nj > 0,
                f0.halo <= isize::MAX,
                f0.nj + f0.halo <= isize::MAX,
                0 <= i < ni,
                1 <= k <= layers + 1,
                forall|a: int, b: int|
                    #![trigger f@.at(a, b)]
                    f0.in_range(a, b) ==> f@.at(a, b) == if (in_seam_ghosts(
                        f0,
                        layers as int,
                        a,
                        b,
                    ) && a < i) || (a == i && (-k < b < 0 || nj <= b < nj - 1 + k)) {
                        f0.at(a, seam_source(nj as int, b))
                    } else {
                        f0.at(a, b)
                    },
            decreases layers + 1 - k,
        {
            let ghost f1 = f@;
            proof {
                f.lemma_view_wf();
                lemma_mod_add_multiples_vanish(-k as int, nj as int);
                lemma_mod_add_multiples_vanish(k - 1, nj as int);
                if nj - k >= 0 {
                    lemma_small_mod((nj - k) as nat, nj as nat);
                }
                if k - 1 < nj {
                    lemma_small_mod((k - 1) as nat, nj as nat);
                }
                assert(seam_source(nj as int, nj - k) == seam_source(nj as int, -k));
                assert(seam_source(nj as int, k - 1) == seam_source(nj as int, nj - 1 + k));
            }
            let left = f.get(i, nj - k);
            f.set(i, -k, left);
            let ghost f2 = f@;
            proof {
                f.lemma_view_wf();
                lemma_read_after_write(f1, i as int, -k as int, left, i as int, k - 1);
            }
            let right = f.get(i, k - 1);
            f.set(i, nj - 1 + k, right);
            proof {
                assert forall|a: int, b: int|
                    #![trigger f@.at(a, b)]
                    f0.in_range(a, b) implies f@.at(a, b) == if (in_seam_ghosts(
                        f0,
                        layers as int,
                        a,
                        b,
                    ) && a < i) || (a == i && (-(k + 1) < b < 0 || nj <= b < nj - 1 + (k + 1))) {
                        f0.at(a, seam_source(nj as int, b))
                    } else {
                        f0.at(a, b)
                    } by {
                    lemma_read_after_write(f1, i as int, -k as int, left, a, b);
                    lemma_read_after_write(f2, i as int, nj - 1 + k, right, a, b);
                }
            }
            k = k + 1;
        }
        i = i + 1;
    }
}

/// Filling the seam is idempotent: on a field that already holds the filled
/// values of some `g`, filling the same layers again changes no cell.
pub proof fn lemma_seam_fill_idempotent<T>(g: FieldView<T>, g2: FieldView<T>, layers: int)
    requires
        g.wf(),
        g2.same_shape(g),
        0 <= layers <= g.halo,
        forall|i: int, j: int|
            #![trigger g2.at(i, j)]
            g.in_range(i, j) ==> g2.at(i, j) == if in_seam_ghosts(g, layers, i, j) && g.nj > 0 {
                g.at(i, seam_source(g.nj as int, j))
            } else {
                g.at(i, j)
            },
    ensures
        forall|i: int, j: int|
            #![trigger g2.at(i, j)]
            g.in_range(i, j) ==> g2.at(i, j) == if in_seam_ghosts(g2, layers, i, j) && g2.nj > 0 {
                g2.at(i, seam_source(g2.nj as int, j))
            } else {
                g2.at(i, j)
            },
{
    assert forall|i: int, j: int|
        #![trigger g2.at(i, j)]
        g.in_range(i, j) implies g2.at(i, j) == if in_seam_ghosts(g2, layers, i, j) && g2.nj > 0 {
            g2.at(i, seam_source(g2.nj as int, j))
        } else {
            g2.at(i, j)
        } by {
        if in_seam_ghosts(g, layers, i, j) && g.nj > 0 {
            let c = seam_source(g.nj as int, j);
            assert(0 <= c < g.nj);
            assert(g2.at(i, c) == g.at(i, c));
        }
    }
}

} // verus!
