//! Cell gradients and their ghost layer.
//!
//! The Green-Gauss kernel itself is floating-point arithmetic; what is decided
//! here is which value every first-layer ghost cell receives, because the viscous
//! face averages read exactly those cells.

use crate::field::{lemma_read_after_write, Field, FieldView};
use vstd::prelude::*;

verus! {

/// The eight gradient components the viscous terms and the turbulence source
/// consume together: velocity `u`, `v`, temperature `T` and the turbulence
/// working variable `nu~`, each differentiated in `x` and `y`.
#[derive(Clone, Copy, Debug, Default)]
pub struct Grad<S> {
    pub dudx: S,
    pub dudy: S,
    pub dvdx: S,
    pub dvdy: S,
    pub dtdx: S,
    pub dtdy: S,
    pub dnutdx: S,
    pub dnutdy: S,
}

/// The gradient with every component equal to `zero`.
pub open spec fn zero_grad<S>(zero: S) -> Grad<S> {
    Grad {
        dudx: zero,
        dudy: zero,
        dvdx: zero,
        dvdy: zero,
        dtdx: zero,
        dtdy: zero,
        dnutdx: zero,
        dnutdy: zero,
    }
}

/// Wall ghost gradient: velocity and `nu~` gradients carried over from the cell
/// next to the wall, temperature gradient zero (adiabatic wall).
pub open spec fn wall_grad<S>(g: Grad<S>, zero: S) -> Grad<S> {
    Grad { dtdx: zero, dtdy: zero, ..g }
}

/// Value of cell `(a, b)` once the first ghost layer has been filled from `g`:
/// the wall layer `i = -1` takes [`wall_grad`] of the cell above it, the
/// far-field layer `i = NI` is zero, and the two circumferential ghost columns
/// copy the physical column on the other side of the cut. Every other cell,
/// corners and deeper ghost layers included, keeps its value.
pub open spec fn ghost_filled<S>(g: FieldView<Grad<S>>, zero: S, a: int, b: int) -> Grad<S> {
    let (ni, nj) = (g.ni as int, g.nj as int);
    if a == -1 && 0 <= b < nj {
        wall_grad(g.at(0, b), zero)
    } else if a == ni && 0 <= b < nj {
        zero_grad(zero)
    } else if 0 <= a < ni && b == -1 {
        g.at(a, nj - 1)
    } else if 0 <= a < ni && b == nj {
        g.at(a, 0)
    } else {
        g.at(a, b)
    }
}

/// Fills the first ghost layer of the gradient field (see [`ghost_filled`]).
///
/// * wall: velocity and `nu~` gradients extended from the wall cell, temperature
///   gradient set to `zero` (adiabatic wall);
/// * far field: every component set to `zero` (viscous effects are negligible);
/// * circumferential cut: periodic copy.
///
/// `zero` is the scalar zero of the gradient components.
pub fn fill_ghost_gradients<S: Copy>(grad: &mut Field<Grad<S>>, zero: S)
    requires
        old(grad).wf(),
        old(grad)@.halo >= 1,
    ensures
        final(grad).wf(),
        final(grad)@.same_shape(old(grad)@),
        forall|a: int, b: int|
            #![trigger final(grad)@.at(a, b)]
            old(grad)@.in_range(a, b) ==> final(grad)@.at(a, b) == ghost_filled(
                old(grad)@,
                zero,
                a,
                b,
            ),
{
    let ghost g0 = grad@;
    let ni = grad.ni() as isize;
    let nj = grad.nj() as isize;
    proof {
        grad.lemma_view_wf();
    }

    let mut j: isize = 0;
    while j < nj
        invariant
            grad.wf(),
            grad@.same_shape(g0),
            g0.wf(),
            g0.halo >= 1,
            ni == g0.ni,
            nj == g0.nj,
            0 <= j <= nj,
            forall|a: int, b: int|
                #![trigger grad@.at(a, b)]
                g0.in_range(a, b) ==> grad@.at(a, b) == (if a == -1 && 0 <= b < j {
                    wall_grad(g0.at(0, b), zero)
                } else if a == ni && 0 <= b < j {
                    zero_grad(zero)
                } else {
                    g0.at(a, b)
                }),
        decreases nj - j,
    {
        let ghost g1 = grad@;
        proof {
            grad.lemma_view_wf();
        }
        let mut wall = grad.get(0, j);
        wall.dtdx = zero;
        wall.dtdy = zero;
        grad.set(-1, j, wall);
        let ghost g2 = grad@;
        let far = Grad {
            dudx: zero,
            dudy: zero,
            dvdx: zero,
            dvdy: zero,
            dtdx: zero,
            dtdy: zero,
            dnutdx: zero,
            dnutdy: zero,
        };
        grad.set(ni, j, far);
        proof {
            assert forall|a: int, b: int| #![trigger grad@.at(a, b)] g0.in_range(a, b) implies grad@.at(a, b) == (if a == -1 && 0 <= b < j + 1 {
                wall_grad(g0.at(0, b), zero)
            } else if a == ni && 0 <= b < j + 1 {
                zero_grad(zero)
            } else {
                g0.at(a, b)
            }) by {
                lemma_read_after_write(g1, -1, j as int, wall, a, b);
                lemma_read_after_write(g2, ni as int, j as int, far, a, b);
                lemma_read_after_write(g1, -1, j as int, wall, 0, j as int);
            }
        }
        j = j + 1;
    }

    let mut i: isize = 0;
    while i < ni
        invariant
            grad.wf(),
            grad@.same_shape(g0),
            g0.wf(),
            g0.halo >= 1,
            ni == g0.ni,
            nj == g0.nj,
            0 <= i <= ni,
            forall|a: int, b: int|
                #![trigger grad@.at(a, b)]
                g0.in_range(a, b) ==> grad@.at(a, b) == (if 0 <= a < i && b == -1 {
                    g0.at(a, nj - 1)
                } else if 0 <= a < i && b == nj {
                    g0.at(a, 0)
                } else if 0 <= a < ni && (b == -1 || b == nj) {
                    g0.at(a, b)
                } else {
                    ghost_filled(g0, zero, a, b)
                }),
        decreases ni - i,
    {
        let ghost g1 = grad@;
        proof {
            grad.lemma_view_wf();
        }
        let left = grad.get(i, nj - 1);
        grad.set(i, -1, left);
        let ghost g2 = grad@;
        let right = grad.get(i, 0);
        grad.set(i, nj, right);
        proof {
            assert(g1.at(i as int, nj - 1) == g0.at(i as int, nj - 1));
            lemma_read_after_write(g1, i as int, -1, left, i as int, 0);
            assert forall|a: int, b: int| #![trigger grad@.at(a, b)] g0.in_range(a, b) implies grad@.at(a, b) == (if 0 <= a < i + 1 && b == -1 {
                g0.at(a, nj - 1)
            } else if 0 <= a < i + 1 && b == nj {
                g0.at(a, 0)
            } else if 0 <= a < ni && (b == -1 || b == nj) {
                g0.at(a, b)
            } else {
                ghost_filled(g0, zero, a, b)
            }) by {
                lemma_read_after_write(g1, i as int, -1, left, a, b);
                lemma_read_after_write(g2, i as int, nj as int, right, a, b);
                assert(g1.at(i as int, 0) == g0.at(i as int, 0) || nj == 0);
            }
        }
        i = i + 1;
    }
}

/// Filling the first ghost layer is idempotent: on a field that already holds
/// the filled values of some `g` (with at least one physical row), filling
/// again changes no cell.
pub proof fn lemma_ghost_fill_idempotent<S>(g: FieldView<Grad<S>>, g2: FieldView<Grad<S>>, zero: S)
    requires
        g.wf(),
        g2.same_shape(g),
        g.ni >= 1,
        forall|a: int, b: int|
            #![trigger g2.at(a, b)]
            g.in_range(a, b) ==> g2.at(a, b) == ghost_filled(g, zero, a, b),
    ensures
        forall|a: int, b: int|
            #![trigger ghost_filled(g2, zero, a, b)]
            g.in_range(a, b) ==> ghost_filled(g2, zero, a, b) == g2.at(a, b),
{
    assert forall|a: int, b: int|
        #![trigger ghost_filled(g2, zero, a, b)]
        g.in_range(a, b) implies ghost_filled(g2, zero, a, b) == g2.at(a, b) by {
        let (ni, nj) = (g.ni as int, g.nj as int);
        if a == -1 && 0 <= b < nj {
            assert(g2.at(0, b) == g.at(0, b));
        } else if a == ni && 0 <= b < nj {
        } else if 0 <= a < ni && b == -1 {
            assert(g2.at(a, nj - 1) == ghost_filled(g, zero, a, nj - 1));
        } else if 0 <= a < ni && b == nj {
            assert(g2.at(a, 0) == ghost_filled(g, zero, a, 0));
        }
    }
}

/// What each first-layer ghost cell holds once filled, component by
/// component: a wall ghost `(-1, j)` keeps every velocity and `nu~` gradient of
/// the wall cell `(0, j)` and has a zero temperature gradient (adiabatic wall);
/// a far-field ghost `(NI, j)` is zero in every component; the ghost columns
/// `-1` and `NJ` of a physical row copy columns `NJ-1` and `0`; every other
/// cell (physical cells, corners, deeper ghost layers) keeps its value.
pub proof fn lemma_ghost_gradient_rules<S>(g: FieldView<Grad<S>>, zero: S, a: int, b: int)
    ensures
        0 <= b < g.nj ==> ({
            let w = ghost_filled(g, zero, -1, b);
            let c = g.at(0, b);
            &&& w.dudx == c.dudx
            &&& w.dudy == c.dudy
            &&& w.dvdx == c.dvdx
            &&& w.dvdy == c.dvdy
            &&& w.dnutdx == c.dnutdx
            &&& w.dnutdy == c.dnutdy
            &&& w.dtdx == zero
            &&& w.dtdy == zero
        }),
        0 <= b < g.nj ==> ({
            let f = ghost_filled(g, zero, g.ni as int, b);
            &&& f.dudx == zero
            &&& f.dudy == zero
            &&& f.dvdx == zero
            &&& f.dvdy == zero
            &&& f.dtdx == zero
            &&& f.dtdy == zero
            &&& f.dnutdx == zero
            &&& f.dnutdy == zero
        }),
        0 <= a < g.ni ==> ghost_filled(g, zero, a, -1) == g.at(a, g.nj - 1),
        0 <= a < g.ni ==> ghost_filled(g, zero, a, g.nj as int) == g.at(a, 0),
        !((a == -1 || a == g.ni) && 0 <= b < g.nj) && !(0 <= a < g.ni && (b == -1 || b == g.nj))
            ==> ghost_filled(g, zero, a, b) == g.at(a, b),
{
}

} // verus!
