//! A minimal column-major matrix.
//!
//! A matrix is modelled by the sequence of its columns: `m@[j][i]` is the entry in row `i` and
//! column `j`.  Arithmetic stays in the modules that use it.
use vstd::prelude::*;

use crate::consts::zero;
use crate::float::F64;
use crate::vector::constant;
use crate::vector::copy;
use crate::vector::fill;
use crate::vector::zeros;

verus! {

/// `m` has `nc` columns of `nr` entries each.
pub open spec fn shaped(m: Seq<Seq<F64>>, nr: nat, nc: nat) -> bool {
    &&& m.len() == nc
    &&& forall|j: int| 0 <= j < nc ==> (#[trigger] m[j]).len() == nr
}

/// The matrix with the entry in row `i` and column `j` replaced.
pub open spec fn with_entry(m: Seq<Seq<F64>>, i: int, j: int, v: F64) -> Seq<Seq<F64>> {
    m.update(j, m[j].update(i, v))
}

/// The matrix with equal entries.
pub open spec fn constant_mat(nr: nat, nc: nat, v: F64) -> Seq<Seq<F64>> {
    Seq::new(nc, |j: int| constant(nr, v))
}

/// Row `i` of `m`.
pub open spec fn row(m: Seq<Seq<F64>>, i: int) -> Seq<F64> {
    Seq::new(m.len(), |j: int| m[j][i])
}

/// A matrix, stored by columns.
#[derive(Debug, Clone)]
pub struct Mat {
    /// The columns.
    pub cols: Vec<Vec<F64>>,
    /// The length of every column.
    pub nrows: usize,
}

impl Mat {
    /// The columns.
    pub open spec fn view(&self) -> Seq<Seq<F64>> {
        Seq::new(self.cols@.len(), |j: int| self.cols@[j]@)
    }

    /// The matrix has `nr` rows and `nc` columns.
    pub open spec fn is(&self, nr: nat, nc: nat) -> bool {
        self.nrows == nr && shaped(self@, nr, nc)
    }

    /// A matrix of zeros.
    pub fn zeros(nrows: usize, ncols: usize) -> (r: Mat)
        ensures
            r.is(nrows as nat, ncols as nat),
            r@ == constant_mat(nrows as nat, ncols as nat, zero()),
    {
        let mut cols: Vec<Vec<F64>> = Vec::with_capacity(ncols);
        for j in 0..ncols
            invariant
                cols@.len() == j,
                forall|c: int| 0 <= c < j ==> (#[trigger] cols@[c])@ == constant(nrows as nat, zero()),
        {
            cols.push(zeros(nrows));
        }
        let r: Mat = Mat { cols, nrows };
        assert(r@ =~= constant_mat(nrows as nat, ncols as nat, zero()));
        r
    }

    /// The matrix whose entries are listed column by column.
    pub fn from_col_major(nrows: usize, ncols: usize, data: Vec<F64>) -> (r: Mat)
        requires
            data@.len() == nrows * ncols,
        ensures
            r.is(nrows as nat, ncols as nat),
            r@ == Seq::new(
                ncols as nat,
                |j: int| data@.subrange(j * nrows as int, (j + 1) * nrows as int),
            ),
    {
        let mut cols: Vec<Vec<F64>> = Vec::with_capacity(ncols);
        let mut at: usize = 0;
        let len: usize = data.len();
        proof {
            assert(0 * nrows == 0);
        }
        for j in 0..ncols
            invariant
                cols@.len() == j,
                at == j * nrows,
                data@.len() == nrows * ncols,
                len == data@.len(),
                forall|c: int|
                    0 <= c < j ==> (#[trigger] cols@[c])@ == data@.subrange(
                        c * nrows as int,
                        (c + 1) * nrows as int,
                    ),
                forall|c: int| 0 <= c < j ==> (#[trigger] cols@[c])@.len() == nrows,
        {
            let mut col: Vec<F64> = Vec::with_capacity(nrows);
            assert((j + 1) * nrows == j * nrows + nrows) by (nonlinear_arith);
            assert((j + 1) * nrows <= nrows * ncols) by (nonlinear_arith)
                requires
                    j + 1 <= ncols,
            ;
            for i in 0..nrows
                invariant
                    col@.len() == i,
                    at == j * nrows,
                    at + nrows <= data@.len(),
                    len == data@.len(),
                    forall|r: int| 0 <= r < i ==> col@[r] == data@[at + r],
            {
                col.push(data[at + i]);
            }
            assert(col@ =~= data@.subrange(j * nrows as int, (j + 1) * nrows as int));
            cols.push(col);
            at = at + nrows;
        }
        let r: Mat = Mat { cols, nrows };
        assert(r@ =~= Seq::new(
            ncols as nat,
            |j: int| data@.subrange(j * nrows as int, (j + 1) * nrows as int),
        ));
        r
    }

    /// The number of rows.
    pub fn nrows(&self) -> (r: usize)
        ensures
            r == self.nrows,
    {
        self.nrows
    }

    /// The number of columns.
    pub fn ncols(&self) -> (r: usize)
        ensures
            r == self@.len(),
    {
        self.cols.len()
    }

    /// The entry in row `i` and column `j`.
    pub fn get(&self, i: usize, j: usize) -> (r: F64)
        requires
            j < self@.len(),
            i < self@[j as int].len(),
        ensures
            r == self@[j as int][i as int],
    {
        self.cols[j][i]
    }

    /// Replaces the entry in row `i` and column `j`.
    pub fn set(&mut self, i: usize, j: usize, v: F64)
        requires
            j < old(self)@.len(),
            i < old(self)@[j as int].len(),
        ensures
            final(self)@ == with_entry(old(self)@, i as int, j as int, v),
            final(self).nrows == old(self).nrows,
            forall|nr: nat, nc: nat| old(self).is(nr, nc) ==> #[trigger] final(self).is(nr, nc),
    {
        self.cols[j][i] = v;
        assert(self@ =~= with_entry(old(self)@, i as int, j as int, v));
    }

    /// Column `j`.
    pub fn col(&self, j: usize) -> (r: &[F64])
        requires
            j < self@.len(),
        ensures
            r@ == self@[j as int],
    {
        self.cols[j].as_slice()
    }

    /// Overwrites column `j`.
    pub fn set_col(&mut self, j: usize, x: &[F64])
        requires
            j < old(self)@.len(),
            old(self)@[j as int].len() == x@.len(),
        ensures
            final(self)@ == old(self)@.update(j as int, x@),
            final(self).nrows == old(self).nrows,
            forall|nr: nat, nc: nat| old(self).is(nr, nc) ==> #[trigger] final(self).is(nr, nc),
    {
        copy(&mut self.cols[j], x);
        assert(self@ =~= old(self)@.update(j as int, x@));
    }

    /// Sets every entry of column `j` to `v`.
    pub fn fill_col(&mut self, j: usize, v: F64)
        requires
            j < old(self)@.len(),
        ensures
            final(self)@ == old(self)@.update(
                j as int,
                constant(old(self)@[j as int].len(), v),
            ),
            final(self).nrows == old(self).nrows,
            forall|nr: nat, nc: nat| old(self).is(nr, nc) ==> #[trigger] final(self).is(nr, nc),
    {
        fill(&mut self.cols[j], v);
        assert(self@ =~= old(self)@.update(j as int, constant(old(self)@[j as int].len(), v)));
    }

    /// Sets every entry to `v`.
    pub fn fill(&mut self, v: F64)
        requires
            old(self).is(old(self).nrows as nat, old(self)@.len()),
        ensures
            final(self).is(old(self).nrows as nat, old(self)@.len()),
            final(self)@ == constant_mat(old(self).nrows as nat, old(self)@.len(), v),
    {
        let n: usize = self.cols.len();
        let ghost nr: nat = self.nrows as nat;
        for j in 0..n
            invariant
                self.is(nr, n as nat),
                self.nrows == old(self).nrows,
                self@.len() == old(self)@.len(),
                forall|c: int| 0 <= c < j ==> #[trigger] self@[c] == constant(nr, v),
        {
            self.fill_col(j, v);
        }
        assert(self@ =~= constant_mat(nr, n as nat, v));
    }

    /// Overwrites the matrix with one of the same shape.
    pub fn copy_from(&mut self, src: &Mat)
        requires
            exists|nr: nat, nc: nat| old(self).is(nr, nc) && src.is(nr, nc),
        ensures
            final(self)@ == src@,
            final(self).nrows == src.nrows,
    {
        let n: usize = self.cols.len();
        let ghost nr: nat = self.nrows as nat;
        assert(self.is(nr, n as nat) && src.is(nr, n as nat)) by {
            let (a, b) = choose|a: nat, b: nat| self.is(a, b) && src.is(a, b);
            assert(self.is(a, b) && src.is(a, b));
        }
        for j in 0..n
            invariant
                self.is(nr, n as nat),
                src.is(nr, n as nat),
                forall|c: int| 0 <= c < j ==> #[trigger] self@[c] == src@[c],
        {
            self.set_col(j, src.col(j));
        }
        assert(self@ =~= src@);
    }

    /// The entries, column by column.
    pub fn data(&self) -> (r: Vec<F64>)
        requires
            exists|nr: nat, nc: nat| self.is(nr, nc),
        ensures
            r@ == self@.flatten(),
    {
        let mut r: Vec<F64> = Vec::new();
        assert(self@.take(0).flatten() =~= Seq::<F64>::empty()) by {
            assert(self@.take(0) =~= Seq::<Seq<F64>>::empty());
        }
        for j in 0..self.cols.len()
            invariant
                r@ == self@.take(j as int).flatten(),
        {
            let ghost before: Seq<F64> = r@;
            let col: &Vec<F64> = &self.cols[j];
            for i in 0..col.len()
                invariant
                    r@ == before + col@.take(i as int),
            {
                r.push(col[i]);
                assert(col@.take(i as int + 1) =~= col@.take(i as int).push(col@[i as int]));
                assert(before + col@.take(i as int + 1) =~= (before + col@.take(i as int)).push(col@[i as int]));
            }
            proof {
                assert(col@.take(col@.len() as int) =~= col@);
                let head = self@.take(j as int);
                assert(self@.take(j as int + 1) =~= head.push(col@));
                head.lemma_flatten_push(col@);
            }
            assert(before + col@.take(col@.len() as int) =~= before + col@);
        }
        assert(self@.take(self@.len() as int) =~= self@);
        r
    }
}

} // verus!
