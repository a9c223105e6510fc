//! The interpolation set with its model and inverse interpolation matrix.
use vstd::prelude::*;

use crate::consts::zero;
use crate::float::F64;
use crate::linalg::all_finite_mat;
use crate::linalg::is_all_finite_mat;
use crate::mat::constant_mat;
use crate::mat::shaped;
use crate::mat::Mat;
use crate::update::Inverse;
use crate::update::Quadratic;
use crate::vector::all_finite;
use crate::vector::constant;
use crate::vector::is_all_finite;
use crate::vector::zeros;

verus! {

/// What a [`Model`] holds.
pub struct ModelView {
    pub xbase: Seq<F64>,
    pub xpt: Seq<Seq<F64>>,
    pub sl: Seq<F64>,
    pub su: Seq<F64>,
    pub fval: Seq<F64>,
    pub kopt: usize,
    pub gopt: Seq<F64>,
    pub hq: Seq<Seq<F64>>,
    pub pq: Seq<F64>,
    pub bmat: Seq<Seq<F64>>,
    pub zmat: Seq<Seq<F64>>,
}

impl ModelView {
    /// The parts have the shapes for `n` variables and `npt` points.
    pub open spec fn fits(self, n: nat, npt: nat) -> bool {
        &&& n > 0
        &&& npt >= n + 2
        &&& npt + n <= usize::MAX
        &&& 2 * n + 1 <= usize::MAX
        &&& 10 * n <= usize::MAX
        &&& self.xbase.len() == n
        &&& shaped(self.xpt, n, npt)
        &&& self.sl.len() == n
        &&& self.su.len() == n
        &&& self.fval.len() == npt
        &&& self.kopt < npt
        &&& self.gopt.len() == n
        &&& shaped(self.hq, n, n)
        &&& self.pq.len() == npt
        &&& shaped(self.bmat, n, npt + n)
        &&& shaped(self.zmat, npt, (npt - n - 1) as nat)
    }

    /// The best point, relative to the base point.
    pub open spec fn xopt(self) -> Seq<F64> {
        self.xpt[self.kopt as int]
    }

    /// The best value.
    pub open spec fn fopt(self) -> F64 {
        self.fval[self.kopt as int]
    }

    /// The quadratic model.
    pub open spec fn quadratic(self) -> Quadratic {
        Quadratic { gopt: self.gopt, hq: self.hq, pq: self.pq }
    }

    /// The inverse interpolation matrix.
    pub open spec fn inverse(self) -> Inverse {
        Inverse { bmat: self.bmat, zmat: self.zmat }
    }

    /// With another quadratic model.
    pub open spec fn with_quadratic(self, q: Quadratic) -> ModelView {
        ModelView { gopt: q.gopt, hq: q.hq, pq: q.pq, ..self }
    }

    /// With another inverse interpolation matrix.
    pub open spec fn with_inverse(self, h: Inverse) -> ModelView {
        ModelView { bmat: h.bmat, zmat: h.zmat, ..self }
    }

    /// Every coefficient of the quadratic model is finite.
    pub open spec fn usable(self) -> bool {
        all_finite(self.gopt) && all_finite_mat(self.hq) && all_finite(self.pq)
    }
}

/// The interpolation set, relative to the base point, with its model.
#[derive(Debug, Clone)]
pub struct Model {
    /// The base point.
    pub xbase: Vec<F64>,
    /// The points, by columns.
    pub xpt: Mat,
    /// The lower bounds on points.
    pub sl: Vec<F64>,
    /// The upper bounds on points.
    pub su: Vec<F64>,
    /// The values at the points.
    pub fval: Vec<F64>,
    /// The best point.
    pub kopt: usize,
    /// The gradient of the model at the best point.
    pub gopt: Vec<F64>,
    /// The explicit Hessian.
    pub hq: Mat,
    /// The coefficients of the implicit Hessian.
    pub pq: Vec<F64>,
    /// The last rows of the inverse interpolation matrix.
    pub bmat: Mat,
    /// The factor of its leading block.
    pub zmat: Mat,
}

/// The model of zeros for `n` variables and `npt` points.
pub open spec fn zero_model(n: nat, npt: nat) -> ModelView {
    ModelView {
        xbase: constant(n, zero()),
        xpt: constant_mat(n, npt, zero()),
        sl: constant(n, zero()),
        su: constant(n, zero()),
        fval: constant(npt, zero()),
        kopt: 0,
        gopt: constant(n, zero()),
        hq: constant_mat(n, n, zero()),
        pq: constant(npt, zero()),
        bmat: constant_mat(n, npt + n, zero()),
        zmat: constant_mat(npt, (npt - n - 1) as nat, zero()),
    }
}

impl Model {
    /// What the model holds.
    pub open spec fn view(&self) -> ModelView {
        ModelView {
            xbase: self.xbase@,
            xpt: self.xpt@,
            sl: self.sl@,
            su: self.su@,
            fval: self.fval@,
            kopt: self.kopt,
            gopt: self.gopt@,
            hq: self.hq@,
            pq: self.pq@,
            bmat: self.bmat@,
            zmat: self.zmat@,
        }
    }

    /// The parts have the shapes for `n` variables and `npt` points.
    pub open spec fn fits(&self, n: nat, npt: nat) -> bool {
        &&& self@.fits(n, npt)
        &&& self.xpt.nrows == n
        &&& self.hq.nrows == n
        &&& self.bmat.nrows == n
        &&& self.zmat.nrows == npt
    }

    /// A model of zeros for `n` variables and `npt` points.
    pub fn new(n: usize, npt: usize) -> (r: Model)
        requires
            n > 0,
            npt >= n + 2,
            npt + n <= usize::MAX,
            10 * n <= usize::MAX,
        ensures
            r.fits(n as nat, npt as nat),
            r@ == zero_model(n as nat, npt as nat),
    {
        Model {
            xbase: zeros(n),
            xpt: Mat::zeros(n, npt),
            sl: zeros(n),
            su: zeros(n),
            fval: zeros(npt),
            kopt: 0,
            gopt: zeros(n),
            hq: Mat::zeros(n, n),
            pq: zeros(npt),
            bmat: Mat::zeros(n, npt + n),
            zmat: Mat::zeros(npt, npt - n - 1),
        }
    }

    /// Whether every coefficient of the quadratic model is finite.
    pub fn is_usable(&self) -> (r: bool)
        ensures
            r == self@.usable(),
    {
        is_all_finite(&self.gopt) && is_all_finite_mat(&self.hq) && is_all_finite(&self.pq)
    }
}

} // verus!
