//! Geometric metrics of the finite-volume mesh.
//!
//! With `NI = n_rings - 1` radial and `NJ = n_theta` circumferential cells:
//!
//! * cell `(i, j)`, `i in [0, NI)`, `j in [0, NJ)`, has the nodes `(i,j) (i+1,j)
//!   (i+1,j+1) (i,j+1)` as corners;
//! * tau faces (circumferential edges) are indexed `i in [0, NI]`, `j in [0, NJ)`;
//!   tau face `i` separates cells `i-1` and `i`, its normal points radially out;
//! * n faces (radial edges) are indexed `i in [0, NI)`, `j in [0, NJ)`; n face
//!   `j` separates cells `j-1` and `j`, its normal points towards `+j`.
//!
//! Normals are area-weighted (their length is the edge length). The metric
//! values themselves are floating-point and computed by the caller; this module
//! holds their layout and the index rules of the O-mesh.

use crate::field::Field;
use vstd::arithmetic::div_mod::{
    lemma_fundamental_div_mod, lemma_fundamental_div_mod_converse, lemma_mod_self_0, lemma_small_mod,
};
use vstd::prelude::*;

verus! {

/// Geometry of one face: area-weighted normal and midpoint.
#[derive(Clone, Copy, Debug, Default)]
pub struct FaceGeom<S> {
    /// x component of the area-weighted normal (its length is the edge length)
    pub nx: S,
    /// y component of the area-weighted normal
    pub ny: S,
    /// midpoint x
    pub mx: S,
    /// midpoint y
    pub my: S,
}

/// All time-independent metrics, computed once at setup and read-only after.
#[derive(Debug)]
pub struct Geometry<S> {
    pub ni: usize,
    pub nj: usize,
    /// cell areas (the two-dimensional "volumes")
    pub vol: Field<S>,
    /// cell centroids
    pub cx: Field<S>,
    pub cy: Field<S>,
    /// distance from the cell centre to the nearest wall point (the S-A `d`)
    pub wall_dist: Field<S>,
    /// `1/V`
    pub inv_vol: Field<S>,
    /// `1/d^2`
    pub inv_wall_dist_sq: Field<S>,
    /// circumferential faces, `(NI+1) x NJ`
    pub tau: Field<FaceGeom<S>>,
    /// radial faces, `NI x NJ`
    pub nrm: Field<FaceGeom<S>>,
}

impl<S: Clone> Clone for Geometry<S> {
    fn clone(&self) -> (r: Self)
        ensures
            r.ni == self.ni,
            r.nj == self.nj,
            r.vol@.cloned_from(self.vol@),
            r.cx@.cloned_from(self.cx@),
            r.cy@.cloned_from(self.cy@),
            r.wall_dist@.cloned_from(self.wall_dist@),
            r.inv_vol@.cloned_from(self.inv_vol@),
            r.inv_wall_dist_sq@.cloned_from(self.inv_wall_dist_sq@),
            r.tau@.cloned_from(self.tau@),
            r.nrm@.cloned_from(self.nrm@),
    {
        Geometry {
            ni: self.ni,
            nj: self.nj,
            vol: self.vol.clone(),
            cx: self.cx.clone(),
            cy: self.cy.clone(),
            wall_dist: self.wall_dist.clone(),
            inv_vol: self.inv_vol.clone(),
            inv_wall_dist_sq: self.inv_wall_dist_sq.clone(),
            tau: self.tau.clone(),
            nrm: self.nrm.clone(),
        }
    }
}

/// Circumferential successor of column `j` on a ring of `nj` columns: `j + 1`,
/// wrapping to column 0 past the last column.
pub open spec fn spec_jp1(nj: int, j: int) -> int {
    if j + 1 < nj {
        j + 1
    } else {
        0
    }
}

impl<S> Geometry<S> {
    /// Circumferential index `+1`, wrapping past the last column to 0.
    pub fn jp1(&self, j: isize) -> (r: isize)
        requires
            self.nj <= isize::MAX,
            j < isize::MAX,
        ensures
            r == spec_jp1(self.nj as int, j as int),
    {
        if j + 1 < self.nj as isize {
            j + 1
        } else {
            0
        }
    }
}

/// Half-width of the circumferential window searched for the nearest wall face:
/// 15 faces or a fifth of the ring, whichever is larger, but never more than half
/// the ring.
pub open spec fn spec_wall_window(nj: int) -> int {
    let w = if 15 > nj / 5 {
        15
    } else {
        nj / 5
    };
    if w < nj / 2 {
        w
    } else {
        nj / 2
    }
}

/// The half-width of the wall-distance search window (see [`spec_wall_window`]).
pub fn wall_window(nj: usize) -> (r: isize)
    requires
        nj <= isize::MAX,
    ensures
        r == spec_wall_window(nj as int),
        0 <= r <= nj / 2,
{
    let w: usize = if 15 > nj / 5 {
        15
    } else {
        nj / 5
    };
    let c: usize = if w < nj / 2 {
        w
    } else {
        nj / 2
    };
    c as isize
}

/// Column `j` taken around a ring of `nj` columns (`j.rem_euclid(nj)`).
pub fn wrap_column(j: isize, nj: usize) -> (r: usize)
    requires
        0 < nj <= isize::MAX,
    ensures
        r < nj,
        r as int == j as int % (nj as int),
{
    if j >= 0 {
        (j as usize) % nj
    } else {
        let a = (-(j + 1)) as usize;
        let s = a % nj;
        proof {
            lemma_fundamental_div_mod(a as int, nj as int);
            assert(s < nj);
            let q = a as int / nj as int;
            assert(j as int == (-q - 1) * (nj as int) + (nj - 1 - s)) by (nonlinear_arith)
                requires
                    a as int == nj * q + s,
                    j as int == -(a + 1),
            ;
            lemma_fundamental_div_mod_converse(j as int, nj as int, -q - 1, nj - 1 - s);
        }
        nj - 1 - s
    }
}

/// The circumferential successor is addition modulo the ring length: on a ring
/// of `nj >= 1` columns, the column after `j` is `(j + 1) mod nj`. Every column
/// has exactly one successor and the last column is followed by column 0.
pub proof fn lemma_jp1_is_successor_mod(nj: int, j: int)
    requires
        nj >= 1,
        0 <= j < nj,
    ensures
        spec_jp1(nj, j) == (j + 1) % nj,
        0 <= spec_jp1(nj, j) < nj,
        j == nj - 1 ==> spec_jp1(nj, j) == 0,
        j + 1 < nj ==> spec_jp1(nj, j) == j + 1,
{
    if j + 1 < nj {
        lemma_small_mod((j + 1) as nat, nj as nat);
    } else {
        lemma_mod_self_0(nj);
    }
}

/// The wall-distance window is as wide as a fifth of the ring, never narrower
/// than 15 faces unless that would exceed half the ring, and never wider than
/// half the ring or than the larger of 15 and a fifth of the ring.
pub proof fn lemma_wall_window_bounds(nj: int)
    requires
        nj >= 0,
    ensures
        spec_wall_window(nj) <= nj / 2,
        nj / 5 <= spec_wall_window(nj),
        spec_wall_window(nj) >= 15 || spec_wall_window(nj) == nj / 2,
        spec_wall_window(nj) <= 15 || spec_wall_window(nj) <= nj / 5,
{
    assert(nj / 5 <= nj / 2) by {
        lemma_fundamental_div_mod(nj, 5);
        lemma_fundamental_div_mod(nj, 2);
    }
}

} // verus!
