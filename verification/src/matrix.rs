//! Matrices of exact rational scalars: a sequence of equal-length row
//! vectors.
//!
//! A matrix either stands alone as a square linear map (identity, zero,
//! determinant, products) or carries an augmented linear system `[A | b]`
//! whose right-hand side is the last column; the solver in [`crate::solver`]
//! works on the latter form.

use vstd::prelude::*;
use crate::rational::{
    Rat, Ratio, r_int, r_add, r_sub, r_mul, r_neg, r_eq, fits, cadd, csub, cmul,
    lemma_canon_r_eq, lemma_r_eq_trans, lemma_add_congr, lemma_sub_congr, lemma_mul_congr,
    lemma_ops_nz, lemma_add_zero, lemma_mul_distrib, lemma_mul_comm,
    lemma_mul_assoc, lemma_sub_is_add_neg, lemma_mul_neg, lemma_add_assoc, lemma_add_comm,
    lemma_neg_add,
};
use crate::vector::{
    Vector, all_fit, vec_req, vec_zero, vec_neg, vec_scale, cvec_add, cvec_sub, cvec_scale,
};

verus! {

/// Every row has length `w` and every entry can be carried by a `Rat`.
pub open spec fn mat_wf(m: Seq<Seq<Ratio>>, w: nat) -> bool {
    forall|i: int| 0 <= i < m.len() ==> (#[trigger] m[i]).len() == w && all_fit(m[i])
}

/// Pointwise equality of rational values.
pub open spec fn mat_req(a: Seq<Seq<Ratio>>, b: Seq<Seq<Ratio>>) -> bool {
    a.len() == b.len() && forall|i: int| 0 <= i < a.len() ==> vec_req(#[trigger] a[i], b[i])
}

/// The all-zero matrix with `r` rows of width `c`.
pub open spec fn mat_zero(r: nat, c: nat) -> Seq<Seq<Ratio>> {
    Seq::new(r, |i: int| vec_zero(c))
}

/// Row `i` of the identity: one at position `i`, zero elsewhere.
pub open spec fn unit_row(n: nat, i: int) -> Seq<Ratio> {
    Seq::new(n, |j: int| if j == i {
        r_int(1)
    } else {
        r_int(0)
    })
}

/// The identity matrix of size `n`.
pub open spec fn mat_identity(n: nat) -> Seq<Seq<Ratio>> {
    Seq::new(n, |i: int| unit_row(n, i))
}

/// Row-wise exact negation.
pub open spec fn mat_neg(m: Seq<Seq<Ratio>>) -> Seq<Seq<Ratio>> {
    Seq::new(m.len(), |i: int| vec_neg(m[i]))
}

/// Row-wise reduced sum, as the executable addition produces it.
pub open spec fn cmat_add(a: Seq<Seq<Ratio>>, b: Seq<Seq<Ratio>>) -> Seq<Seq<Ratio>> {
    Seq::new(a.len(), |i: int| cvec_add(a[i], b[i]))
}

/// Row-wise reduced difference.
pub open spec fn cmat_sub(a: Seq<Seq<Ratio>>, b: Seq<Seq<Ratio>>) -> Seq<Seq<Ratio>> {
    Seq::new(a.len(), |i: int| cvec_sub(a[i], b[i]))
}

/// Row-wise reduced scaling.
pub open spec fn cmat_scale(s: Ratio, a: Seq<Seq<Ratio>>) -> Seq<Seq<Ratio>> {
    Seq::new(a.len(), |i: int| cvec_scale(s, a[i]))
}

/// Row-wise exact scaling.
pub open spec fn mat_scale(s: Ratio, a: Seq<Seq<Ratio>>) -> Seq<Seq<Ratio>> {
    Seq::new(a.len(), |i: int| vec_scale(s, a[i]))
}

/// Every quotient of the sequence has a nonzero denominator.
pub open spec fn all_nz(s: Seq<Ratio>) -> bool {
    forall|i: int| 0 <= i < s.len() ==> (#[trigger] s[i]).d != 0
}

/// The exact dot product of the first `k` positions of `a` and `x`.
pub open spec fn r_dot(a: Seq<Ratio>, x: Seq<Ratio>, k: nat) -> Ratio
    decreases k,
{
    if k == 0 {
        r_int(0)
    } else {
        r_add(r_dot(a, x, (k - 1) as nat), r_mul(a[k - 1], x[k - 1]))
    }
}

/// The dot product as the executable code computes it: reduced after
/// every step.
pub open spec fn c_dot(a: Seq<Ratio>, x: Seq<Ratio>, k: nat) -> Ratio
    decreases k,
{
    if k == 0 {
        r_int(0)
    } else {
        cadd(c_dot(a, x, (k - 1) as nat), cmul(a[k - 1], x[k - 1]))
    }
}

/// Whether every reduced step of the executable dot product fits.
pub open spec fn c_dot_fits(a: Seq<Ratio>, x: Seq<Ratio>, k: nat) -> bool
    decreases k,
{
    if k == 0 {
        true
    } else {
        c_dot_fits(a, x, (k - 1) as nat) && fits(cmul(a[k - 1], x[k - 1])) && fits(
            cadd(c_dot(a, x, (k - 1) as nat), cmul(a[k - 1], x[k - 1])),
        )
    }
}

/// Column `j` of a matrix.
pub open spec fn mat_col(m: Seq<Seq<Ratio>>, j: int) -> Seq<Ratio> {
    Seq::new(m.len(), |i: int| m[i][j])
}

/// Partial dot products have nonzero denominators.
pub proof fn lemma_dot_nz(a: Seq<Ratio>, x: Seq<Ratio>, k: nat)
    requires
        all_nz(a),
        all_nz(x),
        k <= a.len(),
        k <= x.len(),
    ensures
        r_dot(a, x, k).d != 0,
    decreases k,
{
    if k > 0 {
        lemma_dot_nz(a, x, (k - 1) as nat);
        lemma_ops_nz(a[k - 1 as int], x[k - 1 as int]);
        lemma_ops_nz(r_dot(a, x, (k - 1) as nat), r_mul(a[k - 1 as int], x[k - 1 as int]));
    }
}

/// Rows that agree pointwise up to `r_eq` have `r_eq` dot products.
pub proof fn lemma_dot_congr(a: Seq<Ratio>, b: Seq<Ratio>, x: Seq<Ratio>, k: nat)
    requires
        all_nz(a),
        all_nz(b),
        all_nz(x),
        k <= a.len(),
        k <= b.len(),
        k <= x.len(),
        forall|i: int| 0 <= i < k ==> r_eq(#[trigger] a[i], b[i]),
    ensures
        r_eq(r_dot(a, x, k), r_dot(b, x, k)),
    decreases k,
{
    if k > 0 {
        let j = k - 1 as int;
        lemma_dot_congr(a, b, x, (k - 1) as nat);
        lemma_dot_nz(a, x, (k - 1) as nat);
        lemma_dot_nz(b, x, (k - 1) as nat);
        lemma_ops_nz(a[j], x[j]);
        lemma_ops_nz(b[j], x[j]);
        lemma_mul_congr(a[j], b[j], x[j], x[j]);
        lemma_add_congr(
            r_dot(a, x, (k - 1) as nat),
            r_dot(b, x, (k - 1) as nat),
            r_mul(a[j], x[j]),
            r_mul(b[j], x[j]),
        );
    }
}

/// The reduced dot product names the same value as the exact one, and its
/// denominator is positive.
pub proof fn lemma_cdot_eq(a: Seq<Ratio>, x: Seq<Ratio>, k: nat)
    requires
        all_fit(a),
        all_fit(x),
        k <= a.len(),
        k <= x.len(),
    ensures
        r_eq(c_dot(a, x, k), r_dot(a, x, k)),
        c_dot(a, x, k).d > 0,
    decreases k,
{
    if k > 0 {
        let j = k - 1 as int;
        lemma_cdot_eq(a, x, (k - 1) as nat);
        assert(all_nz(a) && all_nz(x));
        lemma_dot_nz(a, x, (k - 1) as nat);
        let cd = c_dot(a, x, (k - 1) as nat);
        let rd = r_dot(a, x, (k - 1) as nat);
        let m = r_mul(a[j], x[j]);
        lemma_ops_nz(a[j], x[j]);
        lemma_canon_r_eq(m);
        let cm = cmul(a[j], x[j]);
        lemma_ops_nz(cd, cm);
        lemma_canon_r_eq(r_add(cd, cm));
        lemma_add_congr(cd, rd, cm, m);
        lemma_ops_nz(cd, cm);
        lemma_ops_nz(rd, m);
        lemma_r_eq_trans(c_dot(a, x, k), r_add(cd, cm), r_add(rd, m));
    }
}

/// Scaling a row scales its dot product.
pub proof fn lemma_dot_scale(a: Seq<Ratio>, x: Seq<Ratio>, s: Ratio, k: nat)
    requires
        all_nz(a),
        all_nz(x),
        s.d != 0,
        k <= a.len(),
        k <= x.len(),
    ensures
        r_eq(r_dot(vec_scale(s, a), x, k), r_mul(s, r_dot(a, x, k))),
    decreases k,
{
    let t = vec_scale(s, a);
    if k == 0 {
        assert(r_mul(s, r_int(0)).n == s.n * 0);
        assert(s.n * 0 == 0) by (nonlinear_arith);
        assert(r_eq(r_int(0), r_mul(s, r_int(0))));
    } else {
        let j = k - 1 as int;
        lemma_dot_scale(a, x, s, (k - 1) as nat);
        let dt = r_dot(t, x, (k - 1) as nat);
        let da = r_dot(a, x, (k - 1) as nat);
        let ma = r_mul(a[j], x[j]);
        // (a[j] * s) * x[j] == s * (a[j] * x[j])
        lemma_mul_comm(a[j], s);
        lemma_mul_assoc(s, a[j], x[j]);
        assert(r_mul(t[j], x[j]) == r_mul(s, ma));
        // congruence on the partial sum
        assert(all_nz(t)) by {
            assert forall|i: int| 0 <= i < t.len() implies (#[trigger] t[i]).d != 0 by {
                lemma_ops_nz(a[i], s);
                assert(t[i] == r_mul(a[i], s));
            }
        }
        lemma_dot_nz(t, x, (k - 1) as nat);
        lemma_dot_nz(a, x, (k - 1) as nat);
        lemma_ops_nz(a[j], x[j]);
        lemma_ops_nz(s, ma);
        lemma_ops_nz(s, da);
        lemma_add_congr(dt, r_mul(s, da), r_mul(s, ma), r_mul(s, ma));
        // distribute s over the sum
        lemma_mul_distrib(s, da, ma);
        lemma_ops_nz(da, ma);
        lemma_ops_nz(r_mul(s, da), r_mul(s, ma));
        lemma_r_eq_trans(
            r_dot(t, x, k),
            r_add(r_mul(s, da), r_mul(s, ma)),
            r_mul(s, r_add(da, ma)),
        );
    }
}

/// Subtracting a scaled row subtracts the scaled dot product: the dot
/// product of `a - c * b` with `x` is `dot(a, x) - c * dot(b, x)`.
pub proof fn lemma_dot_sub_scaled(a: Seq<Ratio>, b: Seq<Ratio>, x: Seq<Ratio>, c: Ratio, k: nat)
    requires
        all_nz(a),
        all_nz(b),
        all_nz(x),
        c.d != 0,
        k <= a.len(),
        k <= b.len(),
        k <= x.len(),
        a.len() == b.len(),
    ensures
        r_eq(
            r_dot(Seq::new(a.len(), |i: int| r_sub(a[i], r_mul(b[i], c))), x, k),
            r_sub(r_dot(a, x, k), r_mul(c, r_dot(b, x, k))),
        ),
    decreases k,
{
    let t = Seq::new(a.len(), |i: int| r_sub(a[i], r_mul(b[i], c)));
    assert(all_nz(t)) by {
        assert forall|i: int| 0 <= i < t.len() implies (#[trigger] t[i]).d != 0 by {
            lemma_ops_nz(b[i], c);
            lemma_ops_nz(a[i], r_mul(b[i], c));
            assert(t[i] == r_sub(a[i], r_mul(b[i], c)));
        }
    }
    if k == 0 {
        // 0 ~ 0 - c * 0
        let z = r_int(0);
        let cz = r_mul(c, z);
        assert(cz.n == c.n * 0);
        assert(c.n * 0 == 0) by (nonlinear_arith);
        assert(r_sub(z, cz).n == 0 * cz.d - cz.n * 1);
        assert(0 * cz.d == 0) by (nonlinear_arith);
        assert(r_eq(z, r_sub(z, cz)));
    } else {
        let j = k - 1 as int;
        lemma_dot_sub_scaled(a, b, x, c, (k - 1) as nat);
        let dt = r_dot(t, x, (k - 1) as nat);
        let da = r_dot(a, x, (k - 1) as nat);
        let db = r_dot(b, x, (k - 1) as nat);
        let ma = r_mul(a[j], x[j]);
        let mb = r_mul(b[j], x[j]);
        // denominators
        lemma_dot_nz(t, x, (k - 1) as nat);
        lemma_dot_nz(a, x, (k - 1) as nat);
        lemma_dot_nz(b, x, (k - 1) as nat);
        lemma_ops_nz(a[j], x[j]);
        lemma_ops_nz(b[j], x[j]);
        lemma_ops_nz(b[j], c);
        lemma_ops_nz(c, db);
        lemma_ops_nz(c, mb);
        // t[j] * x[j] ~ ma - c * mb, by pure rearrangement
        lemma_sub_is_add_neg(a[j], r_mul(b[j], c));
        assert(t[j] == r_add(a[j], r_neg(r_mul(b[j], c))));
        lemma_mul_comm(t[j], x[j]);
        lemma_mul_distrib(x[j], a[j], r_neg(r_mul(b[j], c)));
        // x[j] * a[j] == ma, and x[j] * -(b[j] c) == -(c mb)
        lemma_mul_comm(x[j], a[j]);
        lemma_mul_neg(x[j], r_mul(b[j], c));
        lemma_mul_comm(x[j], r_mul(b[j], c));
        lemma_mul_comm(b[j], c);
        lemma_mul_assoc(c, b[j], x[j]);
        assert(r_mul(r_mul(b[j], c), x[j]) == r_mul(c, mb)) by {
            assert(r_mul(b[j], c) == r_mul(c, b[j]));
            assert(r_mul(r_mul(c, b[j]), x[j]) == r_mul(c, r_mul(b[j], x[j])));
        }
        assert(r_mul(x[j], r_neg(r_mul(b[j], c))) == r_neg(r_mul(c, mb)));
        assert(r_eq(r_mul(t[j], x[j]), r_add(ma, r_neg(r_mul(c, mb))))) by {
            assert(r_mul(t[j], x[j]) == r_mul(x[j], t[j]));
            assert(r_eq(
                r_mul(x[j], t[j]),
                r_add(r_mul(x[j], a[j]), r_mul(x[j], r_neg(r_mul(b[j], c)))),
            ));
        }
        // assemble: dt + t[j]x[j] ~ (da + (-c db)) + (ma + (-c mb))
        //                         ~ (da + ma) - c (db + mb)
        let ncdb = r_neg(r_mul(c, db));
        let ncmb = r_neg(r_mul(c, mb));
        lemma_sub_is_add_neg(da, r_mul(c, db));
        lemma_ops_nz(r_mul(c, db), r_mul(c, db));
        lemma_ops_nz(da, r_mul(c, db));
        lemma_ops_nz(ma, r_mul(c, mb));
        lemma_ops_nz(t[j], x[j]);
        lemma_add_congr(dt, r_add(da, ncdb), r_mul(t[j], x[j]), r_add(ma, ncmb));
        // shuffle (da + ncdb) + (ma + ncmb) == (da + ma) + (ncdb + ncmb)
        lemma_add_assoc(da, ncdb, r_add(ma, ncmb));
        lemma_add_comm(ncdb, r_add(ma, ncmb));
        lemma_add_assoc(ma, ncmb, ncdb);
        lemma_add_comm(ncmb, ncdb);
        lemma_add_assoc(ma, ncdb, ncmb);
        lemma_add_assoc(da, ma, r_add(ncdb, ncmb));
        assert(r_add(r_add(da, ncdb), r_add(ma, ncmb)) == r_add(
            r_add(da, ma),
            r_add(ncdb, ncmb),
        )) by {
            assert(r_add(r_add(da, ncdb), r_add(ma, ncmb)) == r_add(
                da,
                r_add(ncdb, r_add(ma, ncmb)),
            ));
            assert(r_add(ncdb, r_add(ma, ncmb)) == r_add(r_add(ma, ncmb), ncdb));
            assert(r_add(r_add(ma, ncmb), ncdb) == r_add(ma, r_add(ncmb, ncdb)));
            assert(r_add(ncmb, ncdb) == r_add(ncdb, ncmb));
            assert(r_add(ma, r_add(ncdb, ncmb)) == r_add(r_add(ma, ncdb), ncmb));
            assert(r_add(da, r_add(ncdb, r_add(ma, ncmb))) == r_add(
                da,
                r_add(ma, r_add(ncdb, ncmb)),
            )) by {
                assert(r_add(ncdb, r_add(ma, ncmb)) == r_add(ma, r_add(ncdb, ncmb)));
            }
            assert(r_add(da, r_add(ma, r_add(ncdb, ncmb))) == r_add(
                r_add(da, ma),
                r_add(ncdb, ncmb),
            ));
        }
        // ncdb + ncmb == -(c db + c mb) ~ -(c (db + mb))
        lemma_neg_add(r_mul(c, db), r_mul(c, mb));
        lemma_mul_distrib(c, db, mb);
        lemma_ops_nz(db, mb);
        // negation respects r_eq
        assert(r_eq(
            r_add(r_mul(c, db), r_mul(c, mb)),
            r_mul(c, r_add(db, mb)),
        ));
        let s1 = r_add(r_mul(c, db), r_mul(c, mb));
        let s2 = r_mul(c, r_add(db, mb));
        assert(r_eq(r_neg(s1), r_neg(s2))) by (nonlinear_arith)
            requires
                r_eq(s1, s2),
        ;
        // final assembly by congruence and transitivity
        lemma_ops_nz(da, ma);
        lemma_ops_nz(c, r_add(db, mb));
        lemma_ops_nz(ncdb, ncmb);
        lemma_add_congr(r_add(da, ma), r_add(da, ma), r_neg(s1), r_neg(s2));
        lemma_sub_is_add_neg(r_add(da, ma), s2);
        lemma_ops_nz(r_add(da, ma), r_neg(s1));
        lemma_r_eq_trans(
            r_dot(t, x, k),
            r_add(r_add(da, ncdb), r_add(ma, ncmb)),
            r_add(r_add(da, ma), r_neg(s1)),
        );
        lemma_r_eq_trans(
            r_dot(t, x, k),
            r_add(r_add(da, ma), r_neg(s1)),
            r_sub(r_add(da, ma), s2),
        );
    }
}

/// The dot product with a unit row picks out one component.
pub proof fn lemma_dot_unit(x: Seq<Ratio>, n: nat, i: int, k: nat)
    requires
        all_nz(x),
        k <= n,
        k <= x.len(),
    ensures
        r_eq(
            r_dot(unit_row(n, i), x, k),
            if 0 <= i < k {
                x[i]
            } else {
                r_int(0)
            },
        ),
    decreases k,
{
    let u = unit_row(n, i);
    if k > 0 {
        let j = k - 1 as int;
        lemma_dot_unit(x, n, i, (k - 1) as nat);
        lemma_dot_nz_unit(x, n, i, (k - 1) as nat);
        let d = r_dot(u, x, (k - 1) as nat);
        if j == i {
            // the unit entry contributes x[i]; the earlier sum is zero
            assert(u[j] == r_int(1));
            assert(r_mul(r_int(1), x[j]).n == 1 * x[j].n && r_mul(r_int(1), x[j]).d == 1 * x[
                j].d);
            assert(r_mul(u[j], x[j]) == x[j]);
            assert(r_eq(d, r_int(0)));
            assert(d.n == 0) by {
                assert(d.n * 1 == 0 * d.d);
            }
            lemma_add_comm(d, x[j]);
            lemma_add_zero(x[j], d);
            assert(r_eq(r_dot(u, x, k), x[i]));
        } else {
            // a zero entry contributes nothing
            assert(u[j] == r_int(0));
            assert(r_mul(r_int(0), x[j]).n == 0 * x[j].n);
            assert(0 * x[j].n == 0) by (nonlinear_arith);
            lemma_add_zero(d, r_mul(u[j], x[j]));
            lemma_ops_nz(u[j], x[j]);
            lemma_ops_nz(d, r_mul(u[j], x[j]));
            if 0 <= i < k {
                lemma_r_eq_trans(r_dot(u, x, k), d, x[i]);
            } else {
                lemma_r_eq_trans(r_dot(u, x, k), d, r_int(0));
            }
        }
    }
}

/// Dot products against unit rows have nonzero denominators.
proof fn lemma_dot_nz_unit(x: Seq<Ratio>, n: nat, i: int, k: nat)
    requires
        all_nz(x),
        k <= n,
        k <= x.len(),
    ensures
        r_dot(unit_row(n, i), x, k).d != 0,
{
    let u = unit_row(n, i);
    assert(all_nz(u)) by {
        assert(forall|j: int| 0 <= j < u.len() ==> (#[trigger] u[j]).d == 1);
    }
    lemma_dot_nz(u, x, k);
}

/// A matrix: rows of equal width, each an exact rational vector.
#[derive(Debug)]
pub struct Matrix {
    rows: Vec<Vector>,
    cols: usize,
}

impl View for Matrix {
    type V = Seq<Seq<Ratio>>;

    closed spec fn view(&self) -> Seq<Seq<Ratio>> {
        self.rows@.map_values(|r: Vector| r@)
    }
}

impl Clone for Matrix {
    /// Clones keep the rows.
    fn clone(&self) -> (r: Matrix)
        ensures
            r@ == self@,
            r.width_spec() == self.width_spec(),
    {
        let mut rows: Vec<Vector> = Vec::new();
        let mut i: usize = 0;
        while i < self.rows.len()
            invariant
                i <= self.rows@.len(),
                rows@.len() == i,
                forall|j: int| 0 <= j < i ==> rows@[j]@ == self.rows@[j]@,
            decreases self.rows@.len() - i,
        {
            rows.push(self.rows[i].clone());
            i = i + 1;
        }
        let r = Matrix { rows, cols: self.cols };
        proof {
            assert(r@ =~~= self@);
        }
        r
    }
}

impl Matrix {
    /// The width every row must have.
    pub closed spec fn width_spec(&self) -> nat {
        self.cols as nat
    }

    /// Every row has the matrix's width and well-formed reduced entries.
    pub open spec fn valid(self) -> bool {
        mat_wf(self@, self.width_spec())
    }

    /// Build a matrix from its rows; all rows must share one length.
    pub fn new(rows: Vec<Vector>) -> (r: Matrix)
        requires
            rows@.len() >= 1,
            forall|i: int| 0 <= i < rows@.len() ==> (#[trigger] rows@[i]).valid(),
            forall|i: int| 0 <= i < rows@.len() ==> (#[trigger] rows@[i])@.len()
                == rows@[0]@.len(),
        ensures
            r@ == rows@.map_values(|v: Vector| v@),
            r@.len() == rows@.len(),
            r.width_spec() == rows@[0]@.len(),
            r.valid(),
    {
        let cols = rows[0].len();
        let r = Matrix { rows, cols };
        proof {
            assert(forall|i: int|
                0 <= i < r@.len() ==> (#[trigger] r@[i]).len() == r.width_spec() && all_fit(
                    r@[i],
                ));
        }
        r
    }

    /// The number of rows.
    pub fn height(&self) -> (r: usize)
        ensures
            r == self@.len(),
    {
        self.rows.len()
    }

    /// The common width of the rows.
    pub fn width(&self) -> (r: usize)
        ensures
            r == self.width_spec(),
    {
        self.cols
    }

    /// The all-zero matrix with `r` rows of width `c`.
    pub fn zero(r: usize, c: usize) -> (m: Matrix)
        ensures
            m@ == mat_zero(r as nat, c as nat),
            m.width_spec() == c,
            m.valid(),
    {
        let mut rows: Vec<Vector> = Vec::new();
        let mut i: usize = 0;
        while i < r
            invariant
                i <= r,
                rows@.len() == i,
                forall|j: int|
                    0 <= j < i ==> (#[trigger] rows@[j])@ == vec_zero(c as nat) && rows@[j].valid(),
            decreases r - i,
        {
            rows.push(Vector::zero(c));
            i = i + 1;
        }
        let m = Matrix { rows, cols: c };
        proof {
            assert(m@ =~~= mat_zero(r as nat, c as nat));
        }
        m
    }

    /// The identity matrix of size `n`.
    pub fn identity(n: usize) -> (m: Matrix)
        ensures
            m@ == mat_identity(n as nat),
            m.width_spec() == n,
            m.valid(),
    {
        let mut rows: Vec<Vector> = Vec::new();
        let mut i: usize = 0;
        while i < n
            invariant
                i <= n,
                rows@.len() == i,
                forall|j: int|
                    0 <= j < i ==> (#[trigger] rows@[j])@ == unit_row(n as nat, j)
                        && rows@[j].valid(),
            decreases n - i,
        {
            let mut c: Vec<Rat> = Vec::new();
            let mut j: usize = 0;
            while j < n
                invariant
                    j <= n,
                    i < n,
                    c@.len() == j,
                    forall|k: int|
                        0 <= k < j ==> (#[trigger] c@[k])@ == (if k == i {
                            r_int(1)
                        } else {
                            r_int(0)
                        }) && c@[k].valid(),
                decreases n - j,
            {
                if j == i {
                    c.push(Rat::one());
                } else {
                    c.push(Rat::zero());
                }
                j = j + 1;
            }
            let row = Vector::new(c);
            proof {
                assert(row@ =~= unit_row(n as nat, i as int));
            }
            rows.push(row);
            i = i + 1;
        }
        let m = Matrix { rows, cols: n };
        proof {
            assert(m@ =~~= mat_identity(n as nat));
        }
        m
    }

    /// The row at position `i`.
    pub fn row(&self, i: usize) -> (r: Vector)
        requires
            i < self@.len(),
        ensures
            r@ == self@[i as int],
    {
        self.rows[i].clone()
    }

    /// The entry at row `i`, column `j`.
    pub fn get(&self, i: usize, j: usize) -> (r: Rat)
        requires
            i < self@.len(),
            j < self@[i as int].len(),
        ensures
            r@ == self@[i as int][j as int],
            self.valid() ==> r.valid(),
    {
        self.rows[i].get(j)
    }

    /// Replace the entry at row `i`, column `j`.
    pub fn set(&mut self, i: usize, j: usize, v: Rat)
        requires
            i < old(self)@.len(),
            j < old(self)@[i as int].len(),
            v.valid(),
        ensures
            final(self)@ == old(self)@.update(i as int, old(self)@[i as int].update(j as int, v@)),
            final(self).width_spec() == old(self).width_spec(),
            old(self).valid() ==> final(self).valid(),
    {
        let mut row = self.rows[i].clone();
        row.set(j, v);
        self.rows[i] = row;
        proof {
            assert(self@ =~~= old(self)@.update(
                i as int,
                old(self)@[i as int].update(j as int, v@),
            ));
        }
    }

    /// Replace the row at position `i`.
    pub fn set_row(&mut self, i: usize, row: Vector)
        requires
            i < old(self)@.len(),
            row.valid(),
            row@.len() == old(self).width_spec(),
        ensures
            final(self)@ == old(self)@.update(i as int, row@),
            final(self).width_spec() == old(self).width_spec(),
            old(self).valid() ==> final(self).valid(),
    {
        self.rows[i] = row;
        proof {
            assert(self@ =~~= old(self)@.update(i as int, row@));
        }
    }

    /// Exchange the rows at positions `i` and `j`.
    pub fn swap_rows(&mut self, i: usize, j: usize)
        requires
            i < old(self)@.len(),
            j < old(self)@.len(),
        ensures
            final(self)@ == old(self)@.update(i as int, old(self)@[j as int]).update(
                j as int,
                old(self)@[i as int],
            ),
            final(self).width_spec() == old(self).width_spec(),
            old(self).valid() ==> final(self).valid(),
    {
        let ri = self.rows[i].clone();
        let rj = self.rows[j].clone();
        self.rows[i] = rj;
        self.rows[j] = ri;
        proof {
            assert(self@ =~~= old(self)@.update(i as int, old(self)@[j as int]).update(
                j as int,
                old(self)@[i as int],
            ));
        }
    }

    /// Row-wise negation; exact and always representable.
    pub fn neg(&self) -> (r: Matrix)
        requires
            self.valid(),
        ensures
            r@ == mat_neg(self@),
            r.width_spec() == self.width_spec(),
            r.valid(),
    {
        let mut rows: Vec<Vector> = Vec::new();
        let mut i: usize = 0;
        while i < self.rows.len()
            invariant
                i <= self@.len(),
                self.valid(),
                rows@.len() == i,
                forall|j: int|
                    0 <= j < i ==> (#[trigger] rows@[j])@ == vec_neg(self@[j]) && rows@[j].valid()
                        && rows@[j]@.len() == self.width_spec(),
            decreases self@.len() - i,
        {
            let v = self.row(i).neg();
            rows.push(v);
            i = i + 1;
        }
        let r = Matrix { rows, cols: self.cols };
        proof {
            assert(r@ =~~= mat_neg(self@));
        }
        r
    }

    /// Row-wise sum; the caller must know that every reduced entry fits.
    pub fn add(&self, other: &Matrix) -> (r: Matrix)
        requires
            self.valid(),
            other.valid(),
            self@.len() == other@.len(),
            self.width_spec() == other.width_spec(),
            forall|i: int, j: int|
                0 <= i < self@.len() && 0 <= j < self.width_spec() ==> fits(
                    #[trigger] cadd(self@[i][j], other@[i][j]),
                ),
        ensures
            r@ == cmat_add(self@, other@),
            r.width_spec() == self.width_spec(),
            r.valid(),
    {
        let mut rows: Vec<Vector> = Vec::new();
        let mut i: usize = 0;
        while i < self.rows.len()
            invariant
                i <= self@.len(),
                self.valid(),
                other.valid(),
                self@.len() == other@.len(),
                self.width_spec() == other.width_spec(),
                forall|ii: int, j: int|
                    0 <= ii < self@.len() && 0 <= j < self.width_spec() ==> fits(
                        #[trigger] cadd(self@[ii][j], other@[ii][j]),
                    ),
                rows@.len() == i,
                forall|j: int|
                    0 <= j < i ==> (#[trigger] rows@[j])@ == cvec_add(self@[j], other@[j])
                        && rows@[j].valid() && rows@[j]@.len() == self.width_spec(),
            decreases self@.len() - i,
        {
            let a = self.row(i);
            let b = other.row(i);
            proof {
                assert(forall|j: int|
                    0 <= j < a@.len() ==> fits(#[trigger] cadd(a@[j], b@[j])));
            }
            let v = a.add(&b);
            rows.push(v);
            i = i + 1;
        }
        let r = Matrix { rows, cols: self.cols };
        proof {
            assert(r@ =~~= cmat_add(self@, other@));
        }
        r
    }

    /// Row-wise difference; the caller must know that every reduced entry
    /// fits.
    pub fn sub(&self, other: &Matrix) -> (r: Matrix)
        requires
            self.valid(),
            other.valid(),
            self@.len() == other@.len(),
            self.width_spec() == other.width_spec(),
            forall|i: int, j: int|
                0 <= i < self@.len() && 0 <= j < self.width_spec() ==> fits(
                    #[trigger] csub(self@[i][j], other@[i][j]),
                ),
        ensures
            r@ == cmat_sub(self@, other@),
            r.width_spec() == self.width_spec(),
            r.valid(),
    {
        let mut rows: Vec<Vector> = Vec::new();
        let mut i: usize = 0;
        while i < self.rows.len()
            invariant
                i <= self@.len(),
                self.valid(),
                other.valid(),
                self@.len() == other@.len(),
                self.width_spec() == other.width_spec(),
                forall|ii: int, j: int|
                    0 <= ii < self@.len() && 0 <= j < self.width_spec() ==> fits(
                        #[trigger] csub(self@[ii][j], other@[ii][j]),
                    ),
                rows@.len() == i,
                forall|j: int|
                    0 <= j < i ==> (#[trigger] rows@[j])@ == cvec_sub(self@[j], other@[j])
                        && rows@[j].valid() && rows@[j]@.len() == self.width_spec(),
            decreases self@.len() - i,
        {
            let a = self.row(i);
            let b = other.row(i);
            proof {
                assert(forall|j: int|
                    0 <= j < a@.len() ==> fits(#[trigger] csub(a@[j], b@[j])));
            }
            let v = a.sub(&b);
            rows.push(v);
            i = i + 1;
        }
        let r = Matrix { rows, cols: self.cols };
        proof {
            assert(r@ =~~= cmat_sub(self@, other@));
        }
        r
    }

    /// Every entry scaled by `s`; the caller must know that every reduced
    /// entry fits.
    pub fn mul_scalar(&self, s: Rat) -> (r: Matrix)
        requires
            self.valid(),
            s.valid(),
            forall|i: int, j: int|
                0 <= i < self@.len() && 0 <= j < self.width_spec() ==> fits(
                    #[trigger] cmul(self@[i][j], s@),
                ),
        ensures
            r@ == cmat_scale(s@, self@),
            r.width_spec() == self.width_spec(),
            r.valid(),
    {
        let mut rows: Vec<Vector> = Vec::new();
        let mut i: usize = 0;
        while i < self.rows.len()
            invariant
                i <= self@.len(),
                self.valid(),
                s.valid(),
                forall|ii: int, j: int|
                    0 <= ii < self@.len() && 0 <= j < self.width_spec() ==> fits(
                        #[trigger] cmul(self@[ii][j], s@),
                    ),
                rows@.len() == i,
                forall|j: int|
                    0 <= j < i ==> (#[trigger] rows@[j])@ == cvec_scale(s@, self@[j])
                        && rows@[j].valid() && rows@[j]@.len() == self.width_spec(),
            decreases self@.len() - i,
        {
            let a = self.row(i);
            proof {
                assert(forall|j: int| 0 <= j < a@.len() ==> fits(#[trigger] cmul(a@[j], s@)));
            }
            let v = a.mul(s);
            rows.push(v);
            i = i + 1;
        }
        let r = Matrix { rows, cols: self.cols };
        proof {
            assert(r@ =~~= cmat_scale(s@, self@));
        }
        r
    }
}

/// A fits witness for a prefix of the dot product.
pub proof fn lemma_cdot_fits_prefix(a: Seq<Ratio>, x: Seq<Ratio>, k1: nat, k2: nat)
    requires
        k1 <= k2,
        c_dot_fits(a, x, k2),
    ensures
        c_dot_fits(a, x, k1),
    decreases k2,
{
    if k1 < k2 {
        lemma_cdot_fits_prefix(a, x, k1, (k2 - 1) as nat);
    }
}

impl Matrix {
    /// The matrix product `self * other`; the caller must know that every
    /// reduced step of every entry's dot product fits.
    #[verifier::loop_isolation(false)]
    pub fn mul(&self, other: &Matrix) -> (r: Matrix)
        requires
            self.valid(),
            other.valid(),
            self@.len() >= 1,
            other@.len() >= 1,
            self.width_spec() == other@.len(),
            forall|i: int, j: int|
                0 <= i < self@.len() && 0 <= j < other.width_spec()
                    ==> #[trigger] c_dot_fits(self@[i], mat_col(other@, j), self.width_spec()),
        ensures
            r@.len() == self@.len(),
            r.width_spec() == other.width_spec(),
            r.valid(),
            forall|i: int, j: int|
                0 <= i < self@.len() && 0 <= j < other.width_spec() ==> #[trigger] r@[i][j]
                    == c_dot(self@[i], mat_col(other@, j), self.width_spec()),
            forall|i: int, j: int|
                0 <= i < self@.len() && 0 <= j < other.width_spec() ==> r_eq(
                    #[trigger] r@[i][j],
                    r_dot(self@[i], mat_col(other@, j), self.width_spec()),
                ),
    {
        let n = self.height();
        let w = self.width();
        let cw = other.width();
        let mut rows: Vec<Vector> = Vec::new();
        let mut i: usize = 0;
        while i < n
            invariant
                i <= n,
                rows@.len() == i,
                forall|ii: int, j: int|
                    0 <= ii < i && 0 <= j < cw ==> (#[trigger] rows@[ii]@[j]) == c_dot(
                        self@[ii],
                        mat_col(other@, j),
                        w as nat,
                    ),
                forall|ii: int|
                    0 <= ii < i ==> (#[trigger] rows@[ii]).valid() && rows@[ii]@.len() == cw,
            decreases n - i,
        {
            let mut c: Vec<Rat> = Vec::new();
            let mut j: usize = 0;
            while j < cw
                invariant
                    j <= cw,
                    i < n,
                    c@.len() == j,
                    forall|jj: int|
                        0 <= jj < j ==> (#[trigger] c@[jj])@ == c_dot(
                            self@[i as int],
                            mat_col(other@, jj),
                            w as nat,
                        ) && c@[jj].valid(),
                decreases cw - j,
            {
                let ghost col = mat_col(other@, j as int);
                let mut acc = Rat::zero();
                let mut k: usize = 0;
                while k < w
                    invariant
                        k <= w,
                        i < n,
                        j < cw,
                        col == mat_col(other@, j as int),
                        acc@ == c_dot(self@[i as int], col, k as nat),
                        acc.valid(),
                    decreases w - k,
                {
                    proof {
                        assert(c_dot_fits(self@[i as int], col, w as nat));
                        lemma_cdot_fits_prefix(self@[i as int], col, (k + 1) as nat, w as nat);
                        assert(col[k as int] == other@[k as int][j as int]);
                    }
                    let t = self.get(i, k).mul(other.get(k, j));
                    acc = acc.add(t);
                    k = k + 1;
                }
                c.push(acc);
                j = j + 1;
            }
            let row = Vector::new(c);
            rows.push(row);
            i = i + 1;
        }
        let r = Matrix { rows, cols: cw };
        proof {
            assert(forall|ii: int| 0 <= ii < n ==> (#[trigger] r@[ii]) == rows@[ii]@);
            assert forall|ii: int, j: int|
                0 <= ii < n && 0 <= j < cw implies r_eq(
                #[trigger] r@[ii][j],
                r_dot(self@[ii], mat_col(other@, j), w as nat),
            ) by {
                let col = mat_col(other@, j);
                assert(all_fit(col)) by {
                    assert forall|kk: int| 0 <= kk < col.len() implies fits(
                        #[trigger] col[kk],
                    ) by {
                        assert(col[kk] == other@[kk][j]);
                    }
                }
                lemma_cdot_eq(self@[ii], col, w as nat);
                assert(r@[ii][j] == c_dot(self@[ii], col, w as nat));
            }
        }
        r
    }
}

/// Multiplying by the identity on the left keeps every entry's value:
/// each entry of `identity(n) * m` names the same rational as the
/// matching entry of `m`.  In particular a column vector is unchanged by
/// the identity map.
pub proof fn lemma_identity_mul(m: Seq<Seq<Ratio>>, w: nat)
    requires
        mat_wf(m, w),
    ensures
        forall|i: int, j: int|
            0 <= i < m.len() && 0 <= j < w ==> r_eq(
                #[trigger] r_dot(unit_row(m.len(), i), mat_col(m, j), m.len()),
                m[i][j],
            ),
{
    assert forall|i: int, j: int| 0 <= i < m.len() && 0 <= j < w implies r_eq(
        #[trigger] r_dot(unit_row(m.len(), i), mat_col(m, j), m.len()),
        m[i][j],
    ) by {
        let col = mat_col(m, j);
        assert(all_nz(col)) by {
            assert forall|kk: int| 0 <= kk < col.len() implies (#[trigger] col[kk]).d != 0 by {
                assert(col[kk] == m[kk][j]);
                assert(fits(m[kk][j]));
            }
        }
        lemma_dot_unit(col, m.len(), i, m.len());
        assert(col[i] == m[i][j]);
    }
}

/// The 2-by-2 determinant of four entries: `a*d - b*c`.
pub open spec fn det2_of(a: Ratio, b: Ratio, c: Ratio, d: Ratio) -> Ratio {
    r_sub(r_mul(a, d), r_mul(b, c))
}

/// The determinant of a 2-by-2 matrix.
pub open spec fn spec_det2(m: Seq<Seq<Ratio>>) -> Ratio {
    det2_of(m[0][0], m[0][1], m[1][0], m[1][1])
}

/// The determinant of a 3-by-3 matrix, by cofactor expansion along the
/// first row.
pub open spec fn spec_det3(m: Seq<Seq<Ratio>>) -> Ratio {
    r_add(
        r_sub(
            r_mul(m[0][0], det2_of(m[1][1], m[1][2], m[2][1], m[2][2])),
            r_mul(m[0][1], det2_of(m[1][0], m[1][2], m[2][0], m[2][2])),
        ),
        r_mul(m[0][2], det2_of(m[1][0], m[1][1], m[2][0], m[2][1])),
    )
}

/// The 2-by-2 determinant as the executable code computes it: reduced at
/// every step.
pub open spec fn cdet2_of(a: Ratio, b: Ratio, c: Ratio, d: Ratio) -> Ratio {
    csub(cmul(a, d), cmul(b, c))
}

/// Whether every reduced step of the 2-by-2 determinant fits.
pub open spec fn cdet2_fits(a: Ratio, b: Ratio, c: Ratio, d: Ratio) -> bool {
    fits(cmul(a, d)) && fits(cmul(b, c)) && fits(csub(cmul(a, d), cmul(b, c)))
}

/// The reduced 2-by-2 determinant names the exact value.
pub proof fn lemma_cdet2_eq(a: Ratio, b: Ratio, c: Ratio, d: Ratio)
    requires
        a.d != 0,
        b.d != 0,
        c.d != 0,
        d.d != 0,
    ensures
        r_eq(cdet2_of(a, b, c, d), det2_of(a, b, c, d)),
        cdet2_of(a, b, c, d).d > 0,
{
    lemma_ops_nz(a, d);
    lemma_ops_nz(b, c);
    lemma_canon_r_eq(r_mul(a, d));
    lemma_canon_r_eq(r_mul(b, c));
    let ma = cmul(a, d);
    let mb = cmul(b, c);
    lemma_ops_nz(ma, mb);
    lemma_canon_r_eq(r_sub(ma, mb));
    lemma_sub_congr(ma, r_mul(a, d), mb, r_mul(b, c));
    lemma_ops_nz(r_mul(a, d), r_mul(b, c));
    lemma_r_eq_trans(cdet2_of(a, b, c, d), r_sub(ma, mb), det2_of(a, b, c, d));
}

impl Matrix {
    /// The determinant of a square 2-by-2 or 3-by-3 matrix, by the direct
    /// formula and cofactor expansion respectively.  The caller must know
    /// that every reduced step fits.
    pub fn det(&self) -> (r: Rat)
        requires
            self.valid(),
            self@.len() == self.width_spec(),
            2 <= self@.len() <= 3,
            self@.len() == 2 ==> cdet2_fits(self@[0][0], self@[0][1], self@[1][0], self@[1][1]),
            self@.len() == 3 ==> det3_fits(self@),
        ensures
            self@.len() == 2 ==> r@ == cdet2_of(self@[0][0], self@[0][1], self@[1][0], self@[1][1])
                && r_eq(r@, spec_det2(self@)),
            self@.len() == 3 ==> r_eq(r@, spec_det3(self@)),
            r.valid(),
    {
        if self.height() == 2 {
            let a = self.get(0, 0);
            let b = self.get(0, 1);
            let c = self.get(1, 0);
            let d = self.get(1, 1);
            let r = a.mul(d).sub(b.mul(c));
            proof {
                lemma_cdet2_eq(a@, b@, c@, d@);
            }
            r
        } else {
            let m00 = self.get(0, 0);
            let m01 = self.get(0, 1);
            let m02 = self.get(0, 2);
            let m10 = self.get(1, 0);
            let m11 = self.get(1, 1);
            let m12 = self.get(1, 2);
            let m20 = self.get(2, 0);
            let m21 = self.get(2, 1);
            let m22 = self.get(2, 2);
            let d0 = m11.mul(m22).sub(m12.mul(m21));
            let d1 = m10.mul(m22).sub(m12.mul(m20));
            let d2 = m10.mul(m21).sub(m11.mul(m20));
            let t0 = m00.mul(d0);
            let t1 = m01.mul(d1);
            let t2 = m02.mul(d2);
            let r = t0.sub(t1).add(t2);
            proof {
                lemma_cdet3_eq(self@);
            }
            r
        }
    }
}

/// Whether every reduced step of the 3-by-3 determinant fits.
pub open spec fn det3_fits(m: Seq<Seq<Ratio>>) -> bool {
    let cd0 = cdet2_of(m[1][1], m[1][2], m[2][1], m[2][2]);
    let cd1 = cdet2_of(m[1][0], m[1][2], m[2][0], m[2][2]);
    let cd2 = cdet2_of(m[1][0], m[1][1], m[2][0], m[2][1]);
    &&& cdet2_fits(m[1][1], m[1][2], m[2][1], m[2][2])
    &&& cdet2_fits(m[1][0], m[1][2], m[2][0], m[2][2])
    &&& cdet2_fits(m[1][0], m[1][1], m[2][0], m[2][1])
    &&& fits(cmul(m[0][0], cd0))
    &&& fits(cmul(m[0][1], cd1))
    &&& fits(cmul(m[0][2], cd2))
    &&& fits(csub(cmul(m[0][0], cd0), cmul(m[0][1], cd1)))
    &&& fits(cadd(csub(cmul(m[0][0], cd0), cmul(m[0][1], cd1)), cmul(m[0][2], cd2)))
}

/// The reduced 3-by-3 determinant names the exact cofactor expansion.
proof fn lemma_cdet3_eq(m: Seq<Seq<Ratio>>)
    requires
        mat_wf(m, 3),
        m.len() == 3,
    ensures
        r_eq(
            cadd(
                csub(
                    cmul(m[0][0], cdet2_of(m[1][1], m[1][2], m[2][1], m[2][2])),
                    cmul(m[0][1], cdet2_of(m[1][0], m[1][2], m[2][0], m[2][2])),
                ),
                cmul(m[0][2], cdet2_of(m[1][0], m[1][1], m[2][0], m[2][1])),
            ),
            spec_det3(m),
        ),
{
    let cd0 = cdet2_of(m[1][1], m[1][2], m[2][1], m[2][2]);
    let cd1 = cdet2_of(m[1][0], m[1][2], m[2][0], m[2][2]);
    let cd2 = cdet2_of(m[1][0], m[1][1], m[2][0], m[2][1]);
    let d0 = det2_of(m[1][1], m[1][2], m[2][1], m[2][2]);
    let d1 = det2_of(m[1][0], m[1][2], m[2][0], m[2][2]);
    let d2 = det2_of(m[1][0], m[1][1], m[2][0], m[2][1]);
    assert(fits(m[0][0]) && fits(m[0][1]) && fits(m[0][2]) && fits(m[1][0]) && fits(m[1][1])
        && fits(m[1][2]) && fits(m[2][0]) && fits(m[2][1]) && fits(m[2][2]));
    lemma_cdet2_eq(m[1][1], m[1][2], m[2][1], m[2][2]);
    lemma_cdet2_eq(m[1][0], m[1][2], m[2][0], m[2][2]);
    lemma_cdet2_eq(m[1][0], m[1][1], m[2][0], m[2][1]);
    // each cofactor term keeps its value through reduction
    lemma_ops_nz(m[1][1], m[2][2]);
    lemma_ops_nz(m[1][2], m[2][1]);
    lemma_ops_nz(r_mul(m[1][1], m[2][2]), r_mul(m[1][2], m[2][1]));
    lemma_ops_nz(m[1][0], m[2][2]);
    lemma_ops_nz(m[1][2], m[2][0]);
    lemma_ops_nz(r_mul(m[1][0], m[2][2]), r_mul(m[1][2], m[2][0]));
    lemma_ops_nz(m[1][0], m[2][1]);
    lemma_ops_nz(m[1][1], m[2][0]);
    lemma_ops_nz(r_mul(m[1][0], m[2][1]), r_mul(m[1][1], m[2][0]));
    lemma_ops_nz(m[0][0], cd0);
    lemma_ops_nz(m[0][1], cd1);
    lemma_ops_nz(m[0][2], cd2);
    lemma_canon_r_eq(r_mul(m[0][0], cd0));
    lemma_canon_r_eq(r_mul(m[0][1], cd1));
    lemma_canon_r_eq(r_mul(m[0][2], cd2));
    lemma_mul_congr(m[0][0], m[0][0], cd0, d0);
    lemma_mul_congr(m[0][1], m[0][1], cd1, d1);
    lemma_mul_congr(m[0][2], m[0][2], cd2, d2);
    lemma_ops_nz(m[0][0], d0);
    lemma_ops_nz(m[0][1], d1);
    lemma_ops_nz(m[0][2], d2);
    let p0 = cmul(m[0][0], cd0);
    let p1 = cmul(m[0][1], cd1);
    let p2 = cmul(m[0][2], cd2);
    lemma_r_eq_trans(p0, r_mul(m[0][0], cd0), r_mul(m[0][0], d0));
    lemma_r_eq_trans(p1, r_mul(m[0][1], cd1), r_mul(m[0][1], d1));
    lemma_r_eq_trans(p2, r_mul(m[0][2], cd2), r_mul(m[0][2], d2));
    // the difference of the first two terms
    lemma_ops_nz(p0, p1);
    lemma_canon_r_eq(r_sub(p0, p1));
    lemma_sub_congr(p0, r_mul(m[0][0], d0), p1, r_mul(m[0][1], d1));
    lemma_ops_nz(r_mul(m[0][0], d0), r_mul(m[0][1], d1));
    lemma_r_eq_trans(
        csub(p0, p1),
        r_sub(p0, p1),
        r_sub(r_mul(m[0][0], d0), r_mul(m[0][1], d1)),
    );
    // and the final sum
    let s = csub(p0, p1);
    lemma_ops_nz(s, p2);
    lemma_canon_r_eq(r_add(s, p2));
    lemma_add_congr(
        s,
        r_sub(r_mul(m[0][0], d0), r_mul(m[0][1], d1)),
        p2,
        r_mul(m[0][2], d2),
    );
    lemma_ops_nz(r_sub(r_mul(m[0][0], d0), r_mul(m[0][1], d1)), r_mul(m[0][2], d2));
    lemma_r_eq_trans(cadd(s, p2), r_add(s, p2), spec_det3(m));
}

/// The determinant of the 2-by-2 identity is one, and of the 2-by-2 zero
/// matrix is zero.
pub proof fn lemma_det2_identity_zero()
    ensures
        r_eq(spec_det2(mat_identity(2)), r_int(1)),
        r_eq(spec_det2(mat_zero(2, 2)), r_int(0)),
{
    let m = mat_identity(2);
    assert(m[0][0] == r_int(1) && m[0][1] == r_int(0) && m[1][0] == r_int(0) && m[1][1]
        == r_int(1));
    let z = mat_zero(2, 2);
    assert(z[0][0] == r_int(0) && z[0][1] == r_int(0) && z[1][0] == r_int(0) && z[1][1]
        == r_int(0));
    lemma_det2_const();
}

/// The 2-by-2 determinant of the constant identity and zero blocks.
proof fn lemma_det2_const()
    ensures
        r_eq(det2_of(r_int(1), r_int(0), r_int(0), r_int(1)), r_int(1)),
        r_eq(det2_of(r_int(0), r_int(0), r_int(0), r_int(0)), r_int(0)),
{
    assert(1int * 1 == 1 && 0int * 0 == 0 && 0int * 1 == 0 && 1int * 0 == 0)
        by (nonlinear_arith);
    let one = r_int(1);
    let zero = r_int(0);
    assert(r_mul(one, one) == one);
    assert(r_mul(zero, zero) == zero);
    assert(det2_of(one, zero, zero, one) == r_sub(one, zero));
    assert(r_sub(one, zero).n == 1 && r_sub(one, zero).d == 1);
    assert(det2_of(zero, zero, zero, zero) == r_sub(zero, zero));
}

/// The determinant of the 3-by-3 identity is one, and of the 3-by-3 zero
/// matrix is zero.
pub proof fn lemma_det3_identity_zero()
    ensures
        r_eq(spec_det3(mat_identity(3)), r_int(1)),
        r_eq(spec_det3(mat_zero(3, 3)), r_int(0)),
{
    let m = mat_identity(3);
    assert(m[0][0] == r_int(1) && m[0][1] == r_int(0) && m[0][2] == r_int(0));
    assert(m[1][0] == r_int(0) && m[1][1] == r_int(1) && m[1][2] == r_int(0));
    assert(m[2][0] == r_int(0) && m[2][1] == r_int(0) && m[2][2] == r_int(1));
    let z = mat_zero(3, 3);
    assert(forall|i: int, j: int| 0 <= i < 3 && 0 <= j < 3 ==> #[trigger] z[i][j] == r_int(0));
}

/// Scaling every entry of a 2-by-2 matrix by `k` scales the determinant
/// by `k * k`.
pub proof fn lemma_det2_scale(m: Seq<Seq<Ratio>>, k: Ratio)
    requires
        mat_wf(m, 2),
        m.len() == 2,
        k.d != 0,
    ensures
        r_eq(spec_det2(mat_scale(k, m)), r_mul(r_mul(k, k), spec_det2(m))),
{
    let s = mat_scale(k, m);
    let a = m[0][0];
    let b = m[0][1];
    let c = m[1][0];
    let d = m[1][1];
    assert(s[0][0] == r_mul(a, k) && s[0][1] == r_mul(b, k) && s[1][0] == r_mul(c, k) && s[1][1]
        == r_mul(d, k));
    lemma_det2_of_scale(a, b, c, d, k);
}

/// Scaling the four entries of a 2-by-2 determinant by `k` scales its
/// value by `k * k`.
pub proof fn lemma_det2_of_scale(a: Ratio, b: Ratio, c: Ratio, d: Ratio, k: Ratio)
    requires
        a.d != 0,
        b.d != 0,
        c.d != 0,
        d.d != 0,
        k.d != 0,
    ensures
        r_eq(
            det2_of(r_mul(a, k), r_mul(b, k), r_mul(c, k), r_mul(d, k)),
            r_mul(r_mul(k, k), det2_of(a, b, c, d)),
        ),
{
    let kk = r_mul(k, k);
    // (a k)(d k) == (k k)(a d), and likewise for the other product
    assert(r_mul(r_mul(a, k), r_mul(d, k)) == r_mul(kk, r_mul(a, d))) by {
        assert((a.n * k.n) * (d.n * k.n) == (k.n * k.n) * (a.n * d.n)) by (nonlinear_arith);
        assert((a.d * k.d) * (d.d * k.d) == (k.d * k.d) * (a.d * d.d)) by (nonlinear_arith);
    }
    assert(r_mul(r_mul(b, k), r_mul(c, k)) == r_mul(kk, r_mul(b, c))) by {
        assert((b.n * k.n) * (c.n * k.n) == (k.n * k.n) * (b.n * c.n)) by (nonlinear_arith);
        assert((b.d * k.d) * (c.d * k.d) == (k.d * k.d) * (b.d * c.d)) by (nonlinear_arith);
    }
    // pull k*k out of the difference
    crate::rational::lemma_mul_distrib_sub(kk, r_mul(a, d), r_mul(b, c));
    lemma_ops_nz(a, d);
    lemma_ops_nz(b, c);
    lemma_ops_nz(k, k);
    lemma_ops_nz(kk, r_mul(a, d));
    lemma_ops_nz(kk, r_mul(b, c));
    lemma_ops_nz(r_mul(kk, r_mul(a, d)), r_mul(kk, r_mul(b, c)));
    assert(det2_of(r_mul(a, k), r_mul(b, k), r_mul(c, k), r_mul(d, k)) == r_sub(
        r_mul(kk, r_mul(a, d)),
        r_mul(kk, r_mul(b, c)),
    ));
    assert(r_eq(
        r_sub(r_mul(kk, r_mul(a, d)), r_mul(kk, r_mul(b, c))),
        r_mul(kk, det2_of(a, b, c, d)),
    )) by {
        assert(r_eq(
            r_mul(kk, det2_of(a, b, c, d)),
            r_sub(r_mul(kk, r_mul(a, d)), r_mul(kk, r_mul(b, c))),
        ));
    }
}

/// Scaling every entry of a 3-by-3 matrix by `k` scales the determinant
/// by `k * k * k`.
pub proof fn lemma_det3_scale(m: Seq<Seq<Ratio>>, k: Ratio)
    requires
        mat_wf(m, 3),
        m.len() == 3,
        k.d != 0,
    ensures
        r_eq(spec_det3(mat_scale(k, m)), r_mul(r_mul(r_mul(k, k), k), spec_det3(m))),
{
    let s = mat_scale(k, m);
    let kk = r_mul(k, k);
    let kkk = r_mul(kk, k);
    assert(forall|i: int, j: int|
        0 <= i < 3 && 0 <= j < 3 ==> #[trigger] s[i][j] == r_mul(m[i][j], k));
    let d0 = det2_of(m[1][1], m[1][2], m[2][1], m[2][2]);
    let d1 = det2_of(m[1][0], m[1][2], m[2][0], m[2][2]);
    let d2 = det2_of(m[1][0], m[1][1], m[2][0], m[2][1]);
    lemma_det2_of_scale(m[1][1], m[1][2], m[2][1], m[2][2], k);
    lemma_det2_of_scale(m[1][0], m[1][2], m[2][0], m[2][2], k);
    lemma_det2_of_scale(m[1][0], m[1][1], m[2][0], m[2][1], k);
    // each term of the scaled expansion is kkk times the original term:
    // (m0j k) * (kk d_j) ~ kkk (m0j d_j)
    lemma_ops_nz(m[1][1], m[2][2]);
    lemma_ops_nz(m[1][2], m[2][1]);
    lemma_ops_nz(r_mul(m[1][1], m[2][2]), r_mul(m[1][2], m[2][1]));
    lemma_ops_nz(m[1][0], m[2][2]);
    lemma_ops_nz(m[1][2], m[2][0]);
    lemma_ops_nz(r_mul(m[1][0], m[2][2]), r_mul(m[1][2], m[2][0]));
    lemma_ops_nz(m[1][0], m[2][1]);
    lemma_ops_nz(m[1][1], m[2][0]);
    lemma_ops_nz(r_mul(m[1][0], m[2][1]), r_mul(m[1][1], m[2][0]));
    lemma_ops_nz(k, k);
    lemma_ops_nz(kk, k);
    // the scaled minors
    let sd0 = det2_of(s[1][1], s[1][2], s[2][1], s[2][2]);
    let sd1 = det2_of(s[1][0], s[1][2], s[2][0], s[2][2]);
    let sd2 = det2_of(s[1][0], s[1][1], s[2][0], s[2][1]);
    assert(r_eq(sd0, r_mul(kk, d0)) && r_eq(sd1, r_mul(kk, d1)) && r_eq(sd2, r_mul(kk, d2)));
    // denominators of the minors and their scaled forms
    lemma_ops_nz(kk, d0);
    lemma_ops_nz(kk, d1);
    lemma_ops_nz(kk, d2);
    lemma_ops_nz(m[1][1], k);
    lemma_ops_nz(m[1][2], k);
    lemma_ops_nz(m[2][1], k);
    lemma_ops_nz(m[2][2], k);
    lemma_ops_nz(m[1][0], k);
    lemma_ops_nz(m[2][0], k);
    lemma_ops_nz(r_mul(m[1][1], k), r_mul(m[2][2], k));
    lemma_ops_nz(r_mul(m[1][2], k), r_mul(m[2][1], k));
    lemma_ops_nz(r_mul(r_mul(m[1][1], k), r_mul(m[2][2], k)), r_mul(r_mul(m[1][2], k), r_mul(
        m[2][1], k)));
    lemma_ops_nz(r_mul(m[1][0], k), r_mul(m[2][2], k));
    lemma_ops_nz(r_mul(m[1][2], k), r_mul(m[2][0], k));
    lemma_ops_nz(r_mul(r_mul(m[1][0], k), r_mul(m[2][2], k)), r_mul(r_mul(m[1][2], k), r_mul(
        m[2][0], k)));
    lemma_ops_nz(r_mul(m[1][0], k), r_mul(m[2][1], k));
    lemma_ops_nz(r_mul(m[1][1], k), r_mul(m[2][0], k));
    lemma_ops_nz(r_mul(r_mul(m[1][0], k), r_mul(m[2][1], k)), r_mul(r_mul(m[1][1], k), r_mul(
        m[2][0], k)));
    // each term of the scaled expansion is kkk times the original term
    let u0 = r_mul(m[0][0], d0);
    let u1 = r_mul(m[0][1], d1);
    let u2 = r_mul(m[0][2], d2);
    lemma_ops_nz(m[0][0], k);
    lemma_ops_nz(m[0][1], k);
    lemma_ops_nz(m[0][2], k);
    lemma_mul_congr(r_mul(m[0][0], k), r_mul(m[0][0], k), sd0, r_mul(kk, d0));
    lemma_mul_congr(r_mul(m[0][1], k), r_mul(m[0][1], k), sd1, r_mul(kk, d1));
    lemma_mul_congr(r_mul(m[0][2], k), r_mul(m[0][2], k), sd2, r_mul(kk, d2));
    lemma_term_scale(m[0][0], d0, k);
    lemma_term_scale(m[0][1], d1, k);
    lemma_term_scale(m[0][2], d2, k);
    let t0 = r_mul(s[0][0], sd0);
    let t1 = r_mul(s[0][1], sd1);
    let t2 = r_mul(s[0][2], sd2);
    assert(r_eq(t0, r_mul(kkk, u0)) && r_eq(t1, r_mul(kkk, u1)) && r_eq(t2, r_mul(kkk, u2)));
    // pull kkk out of the difference and the sum
    lemma_ops_nz(m[0][0], d0);
    lemma_ops_nz(m[0][1], d1);
    lemma_ops_nz(m[0][2], d2);
    lemma_ops_nz(kkk, u0);
    lemma_ops_nz(kkk, u1);
    lemma_ops_nz(kkk, u2);
    lemma_ops_nz(r_mul(m[0][0], k), sd0);
    lemma_ops_nz(r_mul(m[0][1], k), sd1);
    lemma_ops_nz(r_mul(m[0][2], k), sd2);
    lemma_sub_congr(t0, r_mul(kkk, u0), t1, r_mul(kkk, u1));
    crate::rational::lemma_mul_distrib_sub(kkk, u0, u1);
    lemma_ops_nz(u0, u1);
    lemma_ops_nz(r_mul(kkk, u0), r_mul(kkk, u1));
    lemma_r_eq_trans(
        r_sub(t0, t1),
        r_sub(r_mul(kkk, u0), r_mul(kkk, u1)),
        r_mul(kkk, r_sub(u0, u1)),
    );
    lemma_ops_nz(t0, t1);
    lemma_ops_nz(kkk, r_sub(u0, u1));
    lemma_add_congr(r_sub(t0, t1), r_mul(kkk, r_sub(u0, u1)), t2, r_mul(kkk, u2));
    lemma_mul_distrib(kkk, r_sub(u0, u1), u2);
    lemma_ops_nz(r_sub(u0, u1), u2);
    lemma_ops_nz(r_mul(kkk, r_sub(u0, u1)), r_mul(kkk, u2));
    lemma_r_eq_trans(
        r_add(r_sub(t0, t1), t2),
        r_add(r_mul(kkk, r_sub(u0, u1)), r_mul(kkk, u2)),
        r_mul(kkk, r_add(r_sub(u0, u1), u2)),
    );
    assert(spec_det3(s) == r_add(r_sub(t0, t1), t2));
    assert(spec_det3(m) == r_add(r_sub(u0, u1), u2));
}

/// `(a k) * (kk d) ~ (kk k) * (a d)`: pulling the scale factors of one
/// cofactor term together.
proof fn lemma_term_scale(a: Ratio, d: Ratio, k: Ratio)
    requires
        a.d != 0,
        d.d != 0,
        k.d != 0,
    ensures
        r_mul(r_mul(a, k), r_mul(r_mul(k, k), d)) == r_mul(r_mul(r_mul(k, k), k), r_mul(a, d)),
{
    assert((a.n * k.n) * ((k.n * k.n) * d.n) == ((k.n * k.n) * k.n) * (a.n * d.n))
        by (nonlinear_arith);
    assert((a.d * k.d) * ((k.d * k.d) * d.d) == ((k.d * k.d) * k.d) * (a.d * d.d))
        by (nonlinear_arith);
}

impl Matrix {
    /// In-place row-wise sum.
    pub fn add_assign(&mut self, other: &Matrix)
        requires
            old(self).valid(),
            other.valid(),
            old(self)@.len() == other@.len(),
            old(self).width_spec() == other.width_spec(),
            forall|i: int, j: int|
                0 <= i < old(self)@.len() && 0 <= j < old(self).width_spec() ==> fits(
                    #[trigger] cadd(old(self)@[i][j], other@[i][j]),
                ),
        ensures
            final(self)@ == cmat_add(old(self)@, other@),
            final(self).width_spec() == old(self).width_spec(),
            final(self).valid(),
    {
        let r = self.add(other);
        *self = r;
    }

    /// In-place row-wise difference.
    pub fn sub_assign(&mut self, other: &Matrix)
        requires
            old(self).valid(),
            other.valid(),
            old(self)@.len() == other@.len(),
            old(self).width_spec() == other.width_spec(),
            forall|i: int, j: int|
                0 <= i < old(self)@.len() && 0 <= j < old(self).width_spec() ==> fits(
                    #[trigger] csub(old(self)@[i][j], other@[i][j]),
                ),
        ensures
            final(self)@ == cmat_sub(old(self)@, other@),
            final(self).width_spec() == old(self).width_spec(),
            final(self).valid(),
    {
        let r = self.sub(other);
        *self = r;
    }
}

impl PartialEq for Matrix {
    /// Two matrices are equal exactly when they have the same number of
    /// rows and the rows name the same rational values.
    fn eq(&self, other: &Matrix) -> (r: bool) {
        if self.rows.len() != other.rows.len() {
            return false;
        }
        let mut i: usize = 0;
        while i < self.rows.len()
            invariant
                i <= self@.len(),
                self@.len() == other@.len(),
                forall|j: int| 0 <= j < i ==> vec_req(#[trigger] self@[j], other@[j]),
            decreases self@.len() - i,
        {
            let same = self.rows[i] == other.rows[i];
            proof {
                assert(self@[i as int] == self.rows@[i as int]@);
                assert(other@[i as int] == other.rows@[i as int]@);
            }
            if !same {
                proof {
                    assert(!vec_req(self@[i as int], other@[i as int]));
                }
                return false;
            }
            i = i + 1;
        }
        true
    }
}

impl vstd::std_specs::cmp::PartialEqSpecImpl for Matrix {
    open spec fn obeys_eq_spec() -> bool {
        true
    }

    open spec fn eq_spec(&self, other: &Matrix) -> bool {
        mat_req(self@, other@)
    }
}

} // verus!
