//! Two-dimensional arrays with a halo of ghost layers.
//!
//! Cell indices range over `[-H, N+H)` in both directions: the physical cells sit
//! at `[0, NI) x [0, NJ)` and the ghost layers live at negative and past-the-end
//! indices. The boundary conditions are the only code that fills ghost cells;
//! every other kernel is a plain rectangular loop over signed indices, so the
//! whole class of hand-written index-mapping mistakes cannot be expressed.
//!
//! Storage is one row-major `Vec` (`i` slow, `j` fast) whose rows include their
//! halo, so a row is one contiguous stretch of `stride = NJ + 2H` slots.

use vstd::arithmetic::div_mod::lemma_fundamental_div_mod_converse;
use vstd::prelude::*;

verus! {

/// Mathematical model of a [`Field`]: its shape and its row-major storage.
pub struct FieldView<T> {
    pub ni: nat,
    pub nj: nat,
    pub halo: nat,
    pub data: Seq<T>,
}

impl<T> FieldView<T> {
    /// Length of one stored row, halo included.
    pub open spec fn stride(self) -> int {
        (self.nj + 2 * self.halo) as int
    }

    /// Number of stored rows, halo included.
    pub open spec fn rows(self) -> int {
        (self.ni + 2 * self.halo) as int
    }

    /// `(i, j)` lies in the physical cells or in the halo.
    pub open spec fn in_range(self, i: int, j: int) -> bool {
        &&& -(self.halo as int) <= i < self.ni + self.halo
        &&& -(self.halo as int) <= j < self.nj + self.halo
    }

    /// `(i, j)` is a physical cell.
    pub open spec fn is_interior(self, i: int, j: int) -> bool {
        0 <= i < self.ni && 0 <= j < self.nj
    }

    /// Position of cell `(i, j)` in the storage.
    pub open spec fn offset(self, i: int, j: int) -> int {
        (i + self.halo) * self.stride() + (j + self.halo)
    }

    /// Position in the storage where row `i` (halo included) starts.
    pub open spec fn row_start(self, i: int) -> int {
        (i + self.halo) * self.stride()
    }

    /// Value stored for cell `(i, j)`.
    pub open spec fn at(self, i: int, j: int) -> T {
        self.data[self.offset(i, j)]
    }

    /// Shape and storage agree, and every signed index fits an `isize`.
    pub open spec fn wf(self) -> bool {
        &&& self.data.len() == self.rows() * self.stride()
        &&& self.rows() <= isize::MAX
        &&& self.stride() <= isize::MAX
    }

    /// The same field with one cell replaced.
    pub open spec fn with(self, i: int, j: int, v: T) -> FieldView<T> {
        FieldView { data: self.data.update(self.offset(i, j), v), ..self }
    }

    /// Same shape as `other`.
    pub open spec fn same_shape<U>(self, other: FieldView<U>) -> bool {
        self.ni == other.ni && self.nj == other.nj && self.halo == other.halo
    }
}

impl<T: Clone> FieldView<T> {
    /// Same shape as `other`, and every stored value a clone of the one at the
    /// same place in `other`.
    pub open spec fn cloned_from(self, other: FieldView<T>) -> bool {
        &&& self.same_shape(other)
        &&& self.data.len() == other.data.len()
        &&& forall|k: int| 0 <= k < self.data.len() ==> cloned::<T>(other.data[k], self.data[k])
    }
}

/// Every element of `s` is a clone of `d`.
pub open spec fn all_clones_of<T: Clone>(s: Seq<T>, d: T) -> bool {
    forall|k: int| 0 <= k < s.len() ==> cloned::<T>(d, #[trigger] s[k])
}

/// Row-major listing of the physical cells: `(0,0), (0,1), ..., (NI-1, NJ-1)`.
pub open spec fn interior_index(nj: nat, k: int) -> (int, int) {
    (k / (nj as int), k % (nj as int))
}

/// Row-major listing of all cells, halo included, starting at `(-H, -H)`.
pub open spec fn all_index(nj: nat, halo: nat, k: int) -> (int, int) {
    let w: int = (nj + 2 * halo) as int;
    (k / w - halo, k % w - halo)
}

/// A halo-indexed two-dimensional array; see the module documentation.
#[derive(Debug)]
pub struct Field<T> {
    data: Vec<T>,
    ni: usize,
    nj: usize,
    halo: usize,
    stride: usize,
}

impl<T> View for Field<T> {
    type V = FieldView<T>;

    closed spec fn view(&self) -> FieldView<T> {
        FieldView { ni: self.ni as nat, nj: self.nj as nat, halo: self.halo as nat, data: self.data@ }
    }
}

/// Cells in range have their offset inside the storage.
pub proof fn lemma_offset_bounds<T>(f: FieldView<T>, i: int, j: int)
    requires
        f.wf(),
        f.in_range(i, j),
    ensures
        0 <= (i + f.halo) * f.stride(),
        0 <= f.offset(i, j) < f.data.len(),
{
    let r = i + f.halo;
    let c = j + f.halo;
    let s = f.stride();
    assert(0 <= r < f.rows());
    assert(0 <= c < s);
    assert(r * s + c < f.rows() * s) by (nonlinear_arith)
        requires
            0 <= r < f.rows(),
            0 <= c < s,
    ;
    assert(0 <= r * s) by (nonlinear_arith)
        requires
            0 <= r,
            0 <= s,
    ;
}

/// Distinct cells, halo included, are stored in distinct slots.
pub proof fn lemma_offset_injective<T>(f: FieldView<T>, i1: int, j1: int, i2: int, j2: int)
    requires
        f.in_range(i1, j1),
        f.in_range(i2, j2),
        f.offset(i1, j1) == f.offset(i2, j2),
    ensures
        i1 == i2 && j1 == j2,
{
    let s = f.stride();
    let r1 = i1 + f.halo;
    let r2 = i2 + f.halo;
    let c1 = j1 + f.halo;
    let c2 = j2 + f.halo;
    assert(r1 == r2 && c1 == c2) by (nonlinear_arith)
        requires
            0 <= c1 < s,
            0 <= c2 < s,
            0 <= r1,
            0 <= r2,
            r1 * s + c1 == r2 * s + c2,
    {
        if r1 < r2 {
            assert(r1 * s + s <= r2 * s);
        } else if r2 < r1 {
            assert(r2 * s + s <= r1 * s);
        }
    }
}

/// A row in range ends inside the storage.
pub proof fn lemma_row_end<T>(f: FieldView<T>, i: int)
    requires
        f.wf(),
        -(f.halo as int) <= i < f.ni + f.halo,
    ensures
        0 <= f.row_start(i),
        f.row_start(i) + f.stride() <= f.data.len(),
{
    let r = i + f.halo;
    let s = f.stride();
    assert(r * s + s <= f.rows() * s) by (nonlinear_arith)
        requires
            0 <= r < f.rows(),
            0 <= s,
    ;
    assert(0 <= r * s) by (nonlinear_arith)
        requires
            0 <= r,
            0 <= s,
    ;
}

/// The physical cells of a well-formed field fit in the storage.
pub proof fn lemma_interior_fits<T>(f: FieldView<T>)
    requires
        f.wf(),
    ensures
        f.ni * f.nj <= f.data.len(),
        f.ni <= isize::MAX,
        f.nj <= isize::MAX,
{
    assert(f.ni * f.nj <= f.rows() * f.stride()) by (nonlinear_arith)
        requires
            0 <= f.ni <= f.rows(),
            0 <= f.nj <= f.stride(),
    ;
}

/// Reading a cell after writing one: the written cell holds the new value and
/// every other cell, halo included, keeps its old value. The shape is unchanged.
pub proof fn lemma_read_after_write<T>(f: FieldView<T>, i: int, j: int, v: T, a: int, b: int)
    requires
        f.wf(),
        f.in_range(i, j),
        f.in_range(a, b),
    ensures
        f.with(i, j, v).wf(),
        f.with(i, j, v).same_shape(f),
        f.with(i, j, v).at(a, b) == (if a == i && b == j {
            v
        } else {
            f.at(a, b)
        }),
{
    lemma_offset_bounds(f, i, j);
    lemma_offset_bounds(f, a, b);
    if f.offset(i, j) == f.offset(a, b) {
        lemma_offset_injective(f, i, j, a, b);
    }
}

impl<T> Field<T> {
    /// The stored stride matches the shape and the view is well formed.
    pub closed spec fn wf(&self) -> bool {
        &&& self.stride == (self.nj + 2 * self.halo) as int
        &&& self@.wf()
    }

    /// A well-formed field has a well-formed view.
    pub proof fn lemma_view_wf(&self)
        requires
            self.wf(),
        ensures
            self@.wf(),
    {
    }

    /// Number of physical rows.
    pub fn ni(&self) -> (r: usize)
        requires
            self.wf(),
        ensures
            r == self@.ni,
    {
        self.ni
    }

    /// Number of physical columns.
    pub fn nj(&self) -> (r: usize)
        requires
            self.wf(),
        ensures
            r == self@.nj,
    {
        self.nj
    }

    /// Number of ghost layers on each side.
    pub fn halo(&self) -> (r: usize)
        requires
            self.wf(),
        ensures
            r == self@.halo,
    {
        self.halo
    }

    /// Length of one stored row, halo included.
    pub fn stride(&self) -> (r: usize)
        requires
            self.wf(),
        ensures
            r == self@.stride(),
    {
        self.stride
    }

    /// Position of cell `(i, j)` in the storage.
    pub fn offset(&self, i: isize, j: isize) -> (r: usize)
        requires
            self.wf(),
            self@.in_range(i as int, j as int),
        ensures
            r == self@.offset(i as int, j as int),
            r < self@.data.len(),
    {
        proof {
            lemma_offset_bounds(self@, i as int, j as int);
        }
        let h = self.halo as isize;
        let r = (i + h) as usize;
        let c = (j + h) as usize;
        assert(r * self.stride + c < self@.data.len());
        assert(self@.data.len() == self.data.len());
        let rs = r * self.stride;
        rs + c
    }

    /// Reference to cell `(i, j)`.
    pub fn at(&self, i: isize, j: isize) -> (r: &T)
        requires
            self.wf(),
            self@.in_range(i as int, j as int),
        ensures
            *r == self@.at(i as int, j as int),
    {
        let o = self.offset(i, j);
        &self.data[o]
    }

    /// Mutable reference to cell `(i, j)`; whatever is written through it
    /// becomes the new value of that cell and of no other.
    pub fn at_mut(&mut self, i: isize, j: isize) -> (r: &mut T)
        requires
            old(self).wf(),
            old(self)@.in_range(i as int, j as int),
        ensures
            *r == old(self)@.at(i as int, j as int),
            final(self)@ == old(self)@.with(i as int, j as int, *final(r)),
            final(self).wf(),
    {
        let o = self.offset(i, j);
        &mut self.data[o]
    }

    /// Overwrites cell `(i, j)`; nothing else changes.
    pub fn set(&mut self, i: isize, j: isize, v: T)
        requires
            old(self).wf(),
            old(self)@.in_range(i as int, j as int),
        ensures
            final(self)@ == old(self)@.with(i as int, j as int, v),
            final(self).wf(),
    {
        let o = self.offset(i, j);
        self.data.set(o, v);
    }

    /// The whole storage, halo included, for bulk copies between fields.
    pub fn raw_mut(&mut self) -> (r: &mut [T])
        requires
            old(self).wf(),
        ensures
            r@ == old(self)@.data,
            final(self)@ == (FieldView { data: final(r)@, ..old(self)@ }),
            final(r)@.len() == r@.len() ==> final(self).wf(),
    {
        self.data.as_mut_slice()
    }

    /// Row `i` with its halo, as one mutable slice of `stride` slots: slot `k`
    /// is cell `(i, k - H)`. Whatever is written into it replaces that stretch
    /// of the storage; nothing else changes.
    pub fn row_mut(&mut self, i: isize) -> (r: &mut [T])
        requires
            old(self).wf(),
            old(self)@.in_range(i as int, -(old(self)@.halo as int)),
        ensures
            r@ == old(self)@.data.subrange(
                old(self)@.row_start(i as int),
                old(self)@.row_start(i as int) + old(self)@.stride(),
            ),
            final(self)@ == (FieldView {
                data: old(self)@.data.subrange(0, old(self)@.row_start(i as int)) + final(r)@
                    + old(self)@.data.subrange(
                    old(self)@.row_start(i as int) + old(self)@.stride(),
                    old(self)@.data.len() as int,
                ),
                ..old(self)@
            }),
            final(r)@.len() == r@.len() ==> final(self).wf(),
    {
        let start = self.offset(i, -(self.halo as isize));
        let stride = self.stride;
        proof {
            lemma_offset_bounds(self@, i as int, -(self@.halo as int));
            lemma_row_end(self@, i as int);
        }
        let all = self.data.as_mut_slice();
        let (_before, rest) = all.split_at_mut(start);
        let (row, after) = rest.split_at_mut(stride);
        proof {
            assert(has_resolved(_before));
            assert(has_resolved(after));
            assert(final(_before)@ == _before@);
            assert(final(after)@ == after@);
            assert(after@ =~= old(self)@.data.subrange(start + stride, old(self)@.data.len() as int));
            assert(_before@ =~= old(self)@.data.subrange(0, start as int));
            assert(final(_before)@ + (final(row)@ + final(after)@) =~= final(_before)@ + final(row)@
                + final(after)@);
        }
        row
    }

    /// Row-major list of the physical cell indices `(i, j)`.
    pub fn interior(&self) -> (r: Vec<(isize, isize)>)
        requires
            self.wf(),
        ensures
            r@.len() == self@.ni * self@.nj,
            forall|k: int|
                0 <= k < r@.len() ==> (r@[k].0 as int, r@[k].1 as int) == interior_index(
                    self@.nj,
                    k,
                ),
    {
        proof {
            lemma_interior_fits(self@);
            assert(self@.data.len() == self.data.len());
        }
        let ni = self.ni;
        let nj = self.nj;
        let mut r: Vec<(isize, isize)> = Vec::new();
        let mut i: usize = 0;
        while i < ni
            invariant
                ni == self@.ni,
                nj == self@.nj,
                ni <= isize::MAX,
                nj <= isize::MAX,
                ni * nj <= usize::MAX,
                i <= ni,
                r@.len() == i * nj,
                forall|k: int|
                    0 <= k < r@.len() ==> (r@[k].0 as int, r@[k].1 as int) == interior_index(nj as nat, k),
            decreases ni - i,
        {
            let mut j: usize = 0;
            while j < nj
                invariant
                    ni == self@.ni,
                    nj == self@.nj,
                    ni <= isize::MAX,
                    nj <= isize::MAX,
                    ni * nj <= usize::MAX,
                    i < ni,
                    j <= nj,
                    r@.len() == i * nj + j,
                    forall|k: int|
                        0 <= k < r@.len() ==> (r@[k].0 as int, r@[k].1 as int) == interior_index(nj as nat, k),
                decreases nj - j,
            {
                proof {
                    lemma_fundamental_div_mod_converse((i * nj + j) as int, nj as int, i as int, j as int);
                }
                r.push((i as isize, j as isize));
                j = j + 1;
            }
            assert(i * nj + nj == (i + 1) * nj) by (nonlinear_arith);
            i = i + 1;
        }
        r
    }

    /// Row-major list of every cell index, halo included, from `(-H, -H)` to
    /// `(NI+H-1, NJ+H-1)`.
    pub fn all_indices(&self) -> (r: Vec<(isize, isize)>)
        requires
            self.wf(),
        ensures
            r@.len() == self@.rows() * self@.stride(),
            forall|k: int|
                0 <= k < r@.len() ==> (r@[k].0 as int, r@[k].1 as int) == all_index(
                    self@.nj,
                    self@.halo,
                    k,
                ),
    {
        proof {
            assert(self@.data.len() == self.data.len());
        }
        let h = self.halo;
        let rows = self.ni + 2 * h;
        let w = self.stride;
        let mut r: Vec<(isize, isize)> = Vec::new();
        let mut a: usize = 0;
        while a < rows
            invariant
                self.wf(),
                h == self@.halo,
                rows == self@.rows(),
                w == self@.stride(),
                rows <= isize::MAX,
                w <= isize::MAX,
                rows * w <= usize::MAX,
                a <= rows,
                r@.len() == a * w,
                forall|k: int|
                    0 <= k < r@.len() ==> (r@[k].0 as int, r@[k].1 as int) == all_index(
                        self@.nj,
                        self@.halo,
                        k,
                    ),
            decreases rows - a,
        {
            let mut b: usize = 0;
            while b < w
                invariant
                    self.wf(),
                    h == self@.halo,
                    rows == self@.rows(),
                    w == self@.stride(),
                    rows <= isize::MAX,
                    w <= isize::MAX,
                    rows * w <= usize::MAX,
                    a < rows,
                    b <= w,
                    r@.len() == a * w + b,
                    forall|k: int|
                        0 <= k < r@.len() ==> (r@[k].0 as int, r@[k].1 as int) == all_index(
                            self@.nj,
                            self@.halo,
                            k,
                        ),
                decreases w - b,
            {
                proof {
                    lemma_fundamental_div_mod_converse((a * w + b) as int, w as int, a as int, b as int);
                }
                r.push((a as isize - h as isize, b as isize - h as isize));
                b = b + 1;
            }
            assert(a * w + w == (a + 1) * w) by (nonlinear_arith);
            a = a + 1;
        }
        r
    }

    /// The whole storage, halo included.
    pub fn raw(&self) -> (r: &[T])
        requires
            self.wf(),
        ensures
            r@ == self@.data,
    {
        self.data.as_slice()
    }
}

impl<T: Clone> Clone for Field<T> {
    fn clone(&self) -> (r: Self)
        ensures
            r@.cloned_from(self@),
            self.wf() ==> r.wf(),
    {
        Field {
            data: self.data.clone(),
            ni: self.ni,
            nj: self.nj,
            halo: self.halo,
            stride: self.stride,
        }
    }
}

impl<T: Clone + Default> Field<T> {
    /// A field of `ni x nj` physical cells with `halo` ghost layers on every
    /// side; all cells, halo included, hold a clone of one value, `T::default()`.
    pub fn new(ni: usize, nj: usize, halo: usize) -> (r: Self)
        requires
            ni + 2 * halo <= isize::MAX,
            nj + 2 * halo <= isize::MAX,
            (ni + 2 * halo) * (nj + 2 * halo) <= usize::MAX,
        ensures
            r.wf(),
            r@.ni == ni,
            r@.nj == nj,
            r@.halo == halo,
            exists|d: T| #[trigger] all_clones_of(r@.data, d),
    {
        let stride = nj + 2 * halo;
        let rows = ni + 2 * halo;
        let d = T::default();
        let ghost dg = d;
        let data = vec![d; rows * stride];
        let r = Field { data, ni, nj, halo, stride };
        assert(all_clones_of(r@.data, dg));
        r
    }
}

impl<T: Copy> Field<T> {
    /// The physical cells in row-major order (the layout of [`Field::interior`]).
    pub fn to_interior_vec(&self) -> (r: Vec<T>)
        requires
            self.wf(),
        ensures
            r@.len() == self@.ni * self@.nj,
            forall|k: int|
                0 <= k < r@.len() ==> r@[k] == self@.at(
                    interior_index(self@.nj, k).0,
                    interior_index(self@.nj, k).1,
                ),
    {
        proof {
            lemma_interior_fits(self@);
            assert(self@.data.len() == self.data.len());
        }
        let ni = self.ni;
        let nj = self.nj;
        let mut r: Vec<T> = Vec::new();
        let mut i: usize = 0;
        while i < ni
            invariant
                self.wf(),
                ni == self@.ni,
                nj == self@.nj,
                ni <= isize::MAX,
                nj <= isize::MAX,
                ni * nj <= usize::MAX,
                i <= ni,
                r@.len() == i * nj,
                forall|k: int|
                    0 <= k < r@.len() ==> r@[k] == self@.at(
                        interior_index(nj as nat, k).0,
                        interior_index(nj as nat, k).1,
                    ),
            decreases ni - i,
        {
            let mut j: usize = 0;
            while j < nj
                invariant
                    self.wf(),
                    ni == self@.ni,
                    nj == self@.nj,
                    ni <= isize::MAX,
                    nj <= isize::MAX,
                    ni * nj <= usize::MAX,
                    i < ni,
                    j <= nj,
                    r@.len() == i * nj + j,
                    forall|k: int|
                        0 <= k < r@.len() ==> r@[k] == self@.at(
                            interior_index(nj as nat, k).0,
                            interior_index(nj as nat, k).1,
                        ),
                decreases nj - j,
            {
                proof {
                    lemma_fundamental_div_mod_converse((i * nj + j) as int, nj as int, i as int, j as int);
                }
                let v = self.get(i as isize, j as isize);
                r.push(v);
                j = j + 1;
            }
            assert(i * nj + nj == (i + 1) * nj) by (nonlinear_arith);
            i = i + 1;
        }
        r
    }

    /// Value of cell `(i, j)`.
    pub fn get(&self, i: isize, j: isize) -> (r: T)
        requires
            self.wf(),
            self@.in_range(i as int, j as int),
        ensures
            r == self@.at(i as int, j as int),
    {
        *self.at(i, j)
    }
}

} // verus!
