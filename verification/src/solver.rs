//! Gauss-Jordan elimination with partial pivoting over exact rationals.
//!
//! [`Matrix::solve`] consumes an augmented system `[A | b]` of shape
//! `n x (n+1)`, reduces the coefficient block to the identity in place, and
//! reads the solution off the augmented column.  Its contract states the
//! real thing: every vector it returns satisfies all equations of the
//! original system exactly.

use vstd::prelude::*;
use crate::rational::{
    Rat, Ratio, r_int, r_add, r_sub, r_mul, r_div, r_eq, r_is_zero, fits, csub,
    cmul, cdiv, lemma_canon_r_eq, lemma_r_eq_trans, lemma_add_congr, lemma_sub_congr,
    lemma_mul_congr, lemma_ops_nz, lemma_mul_cancel, lemma_add_sub_cancel, lemma_mul_one,
    lemma_mul_comm, lemma_sub_self_zero,
};
use crate::vector::{Vector, all_fit, cvec_div};
use crate::matrix::{
    Matrix, all_nz, r_dot, lemma_dot_nz, lemma_dot_congr, lemma_dot_scale,
    lemma_dot_sub_scaled, lemma_dot_unit, unit_row,
};

verus! {

/// Why a solve failed: no usable pivot (the system has no unique
/// solution), or an exact intermediate value outgrew the 64-bit scalar.
#[derive(Debug, Clone, Copy, PartialEq, Eq, Structural)]
pub enum SolveError {
    Singular,
    Overflow,
}

/// `x` solves one equation: the dot product of the row's coefficients
/// (all entries but the last) with `x` equals the last entry.
pub open spec fn row_satisfied(row: Seq<Ratio>, x: Seq<Ratio>) -> bool {
    r_eq(r_dot(row, x, (row.len() - 1) as nat), row[row.len() - 1])
}

/// `x` solves every equation of the augmented system `m`.
pub open spec fn satisfies(m: Seq<Seq<Ratio>>, x: Seq<Ratio>) -> bool {
    forall|i: int| 0 <= i < m.len() ==> row_satisfied(#[trigger] m[i], x)
}

/// Columns `0 .. c` carry a one on the diagonal.
pub open spec fn diag_ones(m: Seq<Seq<Ratio>>, c: int) -> bool {
    forall|j: int| 0 <= j < c ==> r_eq(#[trigger] m[j][j], r_int(1))
}

/// Columns `0 .. c` are zero below the diagonal.
pub open spec fn zeros_below(m: Seq<Seq<Ratio>>, c: int) -> bool {
    forall|j: int, i: int| 0 <= j < c && j < i < m.len() ==> r_eq(#[trigger] m[i][j], r_int(0))
}

/// Columns `c ..` are zero above the diagonal.
pub open spec fn zeros_above(m: Seq<Seq<Ratio>>, c: int) -> bool {
    forall|j: int, i: int|
        c <= j < m.len() && 0 <= i < j ==> r_eq(#[trigger] m[i][j], r_int(0))
}

/// The first row at or past `s` whose entry in column `rn` is nonzero;
/// `n` when the whole rest of the column is zero.
pub open spec fn find_pivot(n: int, m: Seq<Seq<Ratio>>, rn: int, s: int) -> int
    decreases n - s,
{
    if s >= n {
        n
    } else if !r_is_zero(m[s][rn]) {
        s
    } else {
        find_pivot(n, m, rn, s + 1)
    }
}

/// One row of the elimination step: the target row minus the pivot row
/// scaled by `c`, each entry reduced.
pub open spec fn row_updated(a: Seq<Ratio>, b: Seq<Ratio>, c: Ratio) -> Seq<Ratio> {
    Seq::new(a.len(), |i: int| csub(a[i], cmul(b[i], c)))
}

/// Whether every reduced entry of that row fits a 64-bit scalar.
pub open spec fn row_update_fits(a: Seq<Ratio>, b: Seq<Ratio>, c: Ratio) -> bool {
    forall|i: int|
        0 <= i < a.len() ==> fits(#[trigger] cmul(b[i], c)) && fits(csub(a[i], cmul(b[i], c)))
}

/// Whether every reduced entry of the pivot row divided by `v` fits.
pub open spec fn row_div_fits(row: Seq<Ratio>, v: Ratio) -> bool {
    forall|i: int| 0 <= i < row.len() ==> fits(#[trigger] cdiv(row[i], v))
}

/// Eliminate column `rn` from rows `row .. n`, exactly as the executable
/// loop does; fails where a reduced entry stops fitting.
pub open spec fn elim_below(n: int, m: Seq<Seq<Ratio>>, rn: int, row: int) -> Result<
    Seq<Seq<Ratio>>,
    SolveError,
>
    decreases n - row,
{
    if row >= n {
        Ok(m)
    } else {
        let c = m[row][rn];
        if row_update_fits(m[row], m[rn], c) {
            elim_below(n, m.update(row, row_updated(m[row], m[rn], c)), rn, row + 1)
        } else {
            Err(SolveError::Overflow)
        }
    }
}

/// The forward (Gauss) phase from pivot `rn` on: pivot search and swap,
/// then normalization and elimination below, column by column.
pub open spec fn gauss(n: int, m: Seq<Seq<Ratio>>, rn: int) -> Result<
    Seq<Seq<Ratio>>,
    SolveError,
>
    decreases n - rn, 1int,
{
    if rn >= n {
        Ok(m)
    } else if r_is_zero(m[rn][rn]) {
        let s = find_pivot(n, m, rn, rn + 1);
        if s == n {
            Err(SolveError::Singular)
        } else {
            gauss_norm(n, m.update(rn, m[s]).update(s, m[rn]), rn)
        }
    } else {
        gauss_norm(n, m, rn)
    }
}

/// The rest of one Gauss step, once a nonzero pivot stands on the
/// diagonal: normalize the pivot row, eliminate below, and move on.
pub open spec fn gauss_norm(n: int, m2: Seq<Seq<Ratio>>, rn: int) -> Result<
    Seq<Seq<Ratio>>,
    SolveError,
>
    decreases n - rn, 0int,
        when rn < n
{
    let v = m2[rn][rn];
    if row_div_fits(m2[rn], v) {
        match elim_below(n, m2.update(rn, cvec_div(m2[rn], v)), rn, rn + 1) {
            Err(e) => Err(e),
            Ok(m4) => gauss(n, m4, rn + 1),
        }
    } else {
        Err(SolveError::Overflow)
    }
}

/// Eliminate column `rn2` from the rows above it, from row `row - 1` down
/// to row zero, exactly as the executable loop does.
pub open spec fn elim_above(m: Seq<Seq<Ratio>>, rn2: int, row: int) -> Result<
    Seq<Seq<Ratio>>,
    SolveError,
>
    decreases row,
{
    if row <= 0 {
        Ok(m)
    } else {
        let r2 = row - 1;
        let c = m[r2][rn2];
        if row_update_fits(m[r2], m[rn2], c) {
            elim_above(m.update(r2, row_updated(m[r2], m[rn2], c)), rn2, r2)
        } else {
            Err(SolveError::Overflow)
        }
    }
}

/// The backward (Jordan) phase: clear each pivot column above the
/// diagonal, from column `col - 1` leftwards down to column one.
pub open spec fn jordan(m: Seq<Seq<Ratio>>, col: int) -> Result<Seq<Seq<Ratio>>, SolveError>
    decreases col,
{
    if col <= 1 {
        Ok(m)
    } else {
        match elim_above(m, col - 1, col - 1) {
            Err(e) => Err(e),
            Ok(m2) => jordan(m2, col - 1),
        }
    }
}

/// What the whole elimination returns on the augmented system `m`: the
/// solution read off the last column, or the first failure it meets.
pub open spec fn mirror_solve(m: Seq<Seq<Ratio>>) -> Result<Seq<Ratio>, SolveError> {
    let n = m.len() as int;
    match gauss(n, m, 0) {
        Err(e) => Err(e),
        Ok(m2) => match jordan(m2, n) {
            Err(e) => Err(e),
            Ok(m3) => Ok(Seq::new(n as nat, |i: int| m3[i][n])),
        },
    }
}

/// The Gauss phase continued after the elimination of one column.
pub open spec fn gauss_after(n: int, r: Result<Seq<Seq<Ratio>>, SolveError>, rn: int) -> Result<
    Seq<Seq<Ratio>>,
    SolveError,
> {
    match r {
        Err(e) => Err(e),
        Ok(m) => gauss(n, m, rn),
    }
}

/// The Jordan phase continued after the clearing of one column.
pub open spec fn jordan_after(r: Result<Seq<Seq<Ratio>>, SolveError>, col: int) -> Result<
    Seq<Seq<Ratio>>,
    SolveError,
> {
    match r {
        Err(e) => Err(e),
        Ok(m) => jordan(m, col),
    }
}

/// An updated entry `a - b * c`, reduced as the executable row operation
/// computes it, names the exact value.
proof fn lemma_entry_canon(a: Ratio, b: Ratio, c: Ratio)
    requires
        a.d != 0,
        b.d != 0,
        c.d != 0,
    ensures
        r_eq(csub(a, cmul(b, c)), r_sub(a, r_mul(b, c))),
        csub(a, cmul(b, c)).d > 0,
        cmul(b, c).d > 0,
{
    lemma_ops_nz(b, c);
    lemma_canon_r_eq(r_mul(b, c));
    let cm = cmul(b, c);
    lemma_ops_nz(a, cm);
    lemma_canon_r_eq(r_sub(a, cm));
    lemma_sub_congr(a, a, cm, r_mul(b, c));
    lemma_ops_nz(a, r_mul(b, c));
    lemma_r_eq_trans(csub(a, cm), r_sub(a, cm), r_sub(a, r_mul(b, c)));
}

/// Updating an entry that is zero, against a pivot-row entry that is also
/// zero, keeps it zero.
proof fn lemma_zero_entry_kept(a: Ratio, b: Ratio, c: Ratio)
    requires
        a.d != 0,
        b.d != 0,
        c.d != 0,
        r_eq(a, r_int(0)),
        r_eq(b, r_int(0)),
    ensures
        r_eq(csub(a, cmul(b, c)), r_int(0)),
{
    lemma_entry_canon(a, b, c);
    assert(a.n == 0 && b.n == 0);
    assert(r_sub(a, r_mul(b, c)).n == a.n * (r_mul(b, c).d) - (b.n * c.n) * a.d);
    assert(a.n * (r_mul(b, c).d) == 0 && b.n * c.n == 0 && (b.n * c.n) * a.d == 0)
        by (nonlinear_arith)
        requires
            a.n == 0,
            b.n == 0,
    ;
    lemma_ops_nz(b, c);
    lemma_ops_nz(a, r_mul(b, c));
    lemma_r_eq_trans(csub(a, cmul(b, c)), r_sub(a, r_mul(b, c)), r_int(0));
}

/// Updating an entry against a pivot-row entry that is zero keeps its
/// value.
proof fn lemma_entry_kept(a: Ratio, b: Ratio, c: Ratio)
    requires
        a.d != 0,
        b.d != 0,
        c.d != 0,
        r_eq(b, r_int(0)),
    ensures
        r_eq(csub(a, cmul(b, c)), a),
{
    lemma_entry_canon(a, b, c);
    let m = r_mul(b, c);
    assert(b.n == 0);
    assert(m.n == 0) by (nonlinear_arith)
        requires
            m.n == b.n * c.n,
            b.n == 0,
    ;
    assert(r_sub(a, m).n * a.d == a.n * (a.d * m.d)) by (nonlinear_arith)
        requires
            r_sub(a, m).n == a.n * m.d - m.n * a.d,
            m.n == 0,
    ;
    lemma_ops_nz(b, c);
    lemma_ops_nz(a, m);
    lemma_r_eq_trans(csub(a, cmul(b, c)), r_sub(a, m), a);
}

/// The elimination step proper: updating the entry `a` in the pivot
/// column, where the pivot-row entry `b` is one and the factor is `a`
/// itself, zeroes it.
proof fn lemma_entry_eliminated(a: Ratio, b: Ratio)
    requires
        a.d != 0,
        b.d != 0,
        r_eq(b, r_int(1)),
    ensures
        r_eq(csub(a, cmul(b, a)), r_int(0)),
{
    lemma_entry_canon(a, b, a);
    let m = r_mul(b, a);
    lemma_mul_comm(b, a);
    lemma_mul_one(a, b);
    assert(r_eq(m, a));
    lemma_ops_nz(b, a);
    lemma_sub_congr(a, a, m, a);
    lemma_sub_self_zero(a);
    lemma_ops_nz(a, m);
    lemma_ops_nz(a, a);
    lemma_r_eq_trans(r_sub(a, m), r_sub(a, a), r_int(0));
    lemma_r_eq_trans(csub(a, cmul(b, a)), r_sub(a, m), r_int(0));
}

/// A reduced quotient of an entry by the pivot keeps a zero zero.
proof fn lemma_cdiv_zero(a: Ratio, v: Ratio)
    requires
        a.d != 0,
        v.d != 0,
        v.n != 0,
        r_eq(a, r_int(0)),
    ensures
        r_eq(cdiv(a, v), r_int(0)),
{
    assert(r_div(a, v).n == a.n * v.d);
    assert(a.n * v.d == 0) by (nonlinear_arith)
        requires
            a.n == 0,
    ;
    assert(r_div(a, v).d != 0) by (nonlinear_arith)
        requires
            r_div(a, v).d == a.d * v.n,
            a.d != 0,
            v.n != 0,
    ;
    lemma_canon_r_eq(r_div(a, v));
    assert(cdiv(a, v).n == 0);
}

/// The pivot divided by itself is one.
proof fn lemma_cdiv_self(v: Ratio)
    requires
        v.d != 0,
        v.n != 0,
    ensures
        r_eq(cdiv(v, v), r_int(1)),
{
    let q = r_div(v, v);
    assert(q.n == v.n * v.d && q.d == v.d * v.n);
    assert(q.d != 0 && q.n * 1 == 1 * q.d) by (nonlinear_arith)
        requires
            q.n == v.n * v.d,
            q.d == v.d * v.n,
            v.d != 0,
            v.n != 0,
    ;
    lemma_canon_r_eq(q);
    lemma_r_eq_trans(cdiv(v, v), q, r_int(1));
}

/// Dividing a whole row by a nonzero pivot preserves which vectors solve
/// the equation.
proof fn lemma_row_div_preserves(row: Seq<Ratio>, new_row: Seq<Ratio>, v: Ratio, x: Seq<Ratio>)
    requires
        all_fit(row),
        fits(v),
        v.n != 0,
        row.len() >= 1,
        x.len() == row.len() - 1,
        all_nz(x),
        new_row == cvec_div(row, v),
        row_satisfied(new_row, x),
    ensures
        row_satisfied(row, x),
{
    let n = (row.len() - 1) as nat;
    let inv = Ratio { n: v.d, d: v.n };
    let scaled = Seq::new(row.len(), |i: int| r_mul(row[i], inv));
    // the reduced row names the same values as the scaled row
    assert(all_nz(row));
    assert(all_nz(new_row)) by {
        assert forall|i: int| 0 <= i < new_row.len() implies (#[trigger] new_row[i]).d != 0 by {
            assert(new_row[i] == cdiv(row[i], v));
            assert(r_div(row[i], v).d != 0) by (nonlinear_arith)
                requires
                    r_div(row[i], v).d == row[i].d * v.n,
                    row[i].d != 0,
                    v.n != 0,
            ;
            lemma_canon_r_eq(r_div(row[i], v));
        }
    }
    assert(all_nz(scaled)) by {
        assert forall|i: int| 0 <= i < scaled.len() implies (#[trigger] scaled[i]).d != 0 by {
            lemma_ops_nz(row[i], inv);
            assert(scaled[i] == r_mul(row[i], inv));
        }
    }
    assert forall|i: int| 0 <= i < new_row.len() implies r_eq(
        #[trigger] new_row[i],
        scaled[i],
    ) by {
        assert(new_row[i] == cdiv(row[i], v));
        assert(r_div(row[i], v) == r_mul(row[i], inv));
        assert(r_div(row[i], v).d != 0) by (nonlinear_arith)
            requires
                r_div(row[i], v).d == row[i].d * v.n,
                row[i].d != 0,
                v.n != 0,
        ;
        lemma_canon_r_eq(r_div(row[i], v));
        assert(scaled[i] == r_mul(row[i], inv));
    }
    // dot(new_row) ~ dot(scaled) ~ inv * dot(row)
    lemma_dot_congr(new_row, scaled, x, n);
    lemma_dot_scale(row, x, inv, n);
    lemma_dot_nz(new_row, x, n);
    lemma_dot_nz(scaled, x, n);
    lemma_dot_nz(row, x, n);
    assert(r_dot(scaled, x, n) == r_dot(Seq::new(row.len(), |i: int| r_mul(row[i], inv)), x, n));
    // vec_scale builds the same sequence
    assert(scaled =~= crate::vector::vec_scale(inv, row));
    lemma_ops_nz(inv, r_dot(row, x, n));
    lemma_r_eq_trans(r_dot(new_row, x, n), r_dot(scaled, x, n), r_mul(inv, r_dot(row, x, n)));
    // the last entry of the new row is the old last entry over v
    assert(new_row[n as int] == cdiv(row[n as int], v));
    assert(r_div(row[n as int], v) == r_mul(row[n as int], inv));
    assert(r_div(row[n as int], v).d != 0) by (nonlinear_arith)
        requires
            r_div(row[n as int], v).d == row[n as int].d * v.n,
            row[n as int].d != 0,
            v.n != 0,
    ;
    lemma_canon_r_eq(r_div(row[n as int], v));
    // assemble: inv * dot(row) ~ dot(new_row) ~ new_row[n] ~ inv * row[n],
    // then cancel inv
    lemma_mul_comm(row[n as int], inv);
    lemma_ops_nz(row[n as int], inv);
    lemma_r_eq_trans(
        r_mul(inv, r_dot(row, x, n)),
        r_dot(new_row, x, n),
        new_row[n as int],
    );
    lemma_r_eq_trans(r_mul(inv, r_dot(row, x, n)), new_row[n as int], r_mul(inv, row[n as int]));
    lemma_mul_cancel(inv, r_dot(row, x, n), row[n as int]);
}

/// Subtracting a scaled pivot row from a target row preserves which
/// vectors solve the pair of equations: if `x` solves the updated row and
/// the pivot row, it solves the original target row.
proof fn lemma_row_update_preserves(
    a: Seq<Ratio>,
    b: Seq<Ratio>,
    new_row: Seq<Ratio>,
    c: Ratio,
    x: Seq<Ratio>,
)
    requires
        all_fit(a),
        all_fit(b),
        fits(c),
        a.len() == b.len(),
        a.len() >= 1,
        x.len() == a.len() - 1,
        all_nz(x),
        new_row == Seq::new(a.len(), |i: int| csub(a[i], cmul(b[i], c))),
        row_satisfied(new_row, x),
        row_satisfied(b, x),
    ensures
        row_satisfied(a, x),
{
    let n = (a.len() - 1) as nat;
    let raw = Seq::new(a.len(), |i: int| r_sub(a[i], r_mul(b[i], c)));
    assert(all_nz(a) && all_nz(b));
    assert(all_nz(new_row)) by {
        assert forall|i: int| 0 <= i < new_row.len() implies (#[trigger] new_row[i]).d != 0 by {
            assert(new_row[i] == csub(a[i], cmul(b[i], c)));
            lemma_entry_canon(a[i], b[i], c);
        }
    }
    assert(all_nz(raw)) by {
        assert forall|i: int| 0 <= i < raw.len() implies (#[trigger] raw[i]).d != 0 by {
            lemma_ops_nz(b[i], c);
            lemma_ops_nz(a[i], r_mul(b[i], c));
            assert(raw[i] == r_sub(a[i], r_mul(b[i], c)));
        }
    }
    assert forall|i: int| 0 <= i < new_row.len() implies r_eq(#[trigger] new_row[i], raw[i]) by {
        assert(new_row[i] == csub(a[i], cmul(b[i], c)));
        assert(raw[i] == r_sub(a[i], r_mul(b[i], c)));
        lemma_entry_canon(a[i], b[i], c);
    }
    // dot(new_row) ~ dot(raw) ~ dot(a) - c * dot(b)
    lemma_dot_congr(new_row, raw, x, n);
    lemma_dot_sub_scaled(a, b, x, c, n);
    let da = r_dot(a, x, n);
    let db = r_dot(b, x, n);
    lemma_dot_nz(new_row, x, n);
    lemma_dot_nz(raw, x, n);
    lemma_dot_nz(a, x, n);
    lemma_dot_nz(b, x, n);
    lemma_ops_nz(c, db);
    lemma_ops_nz(da, r_mul(c, db));
    lemma_r_eq_trans(r_dot(new_row, x, n), r_dot(raw, x, n), r_sub(da, r_mul(c, db)));
    // the updated last entry
    assert(new_row[n as int] == csub(a[n as int], cmul(b[n as int], c)));
    lemma_entry_canon(a[n as int], b[n as int], c);
    let an = a[n as int];
    let bn = b[n as int];
    // c * dot(b) ~ c * b[n], since x solves the pivot row
    lemma_mul_comm(bn, c);
    lemma_ops_nz(bn, c);
    lemma_mul_congr(c, c, db, bn);
    // dot(a) - c*dot(b) ~ new_row[n] ~ a[n] - b[n]*c == a[n] - c*b[n]
    lemma_ops_nz(c, bn);
    lemma_ops_nz(an, r_mul(bn, c));
    lemma_ops_nz(an, r_mul(c, bn));
    lemma_r_eq_trans(
        r_sub(da, r_mul(c, db)),
        r_dot(new_row, x, n),
        new_row[n as int],
    );
    lemma_r_eq_trans(
        r_sub(da, r_mul(c, db)),
        new_row[n as int],
        r_sub(an, r_mul(bn, c)),
    );
    assert(r_sub(an, r_mul(bn, c)) == r_sub(an, r_mul(c, bn)));
    // da ~ (da - c db) + c db ~ (an - c bn) + c bn ~ an
    lemma_add_sub_cancel(da, r_mul(c, db));
    lemma_sub_congr(da, da, r_mul(c, db), r_mul(c, bn));
    lemma_ops_nz(da, r_mul(c, db));
    lemma_ops_nz(r_sub(da, r_mul(c, db)), r_mul(c, db));
    lemma_add_congr(
        r_sub(da, r_mul(c, db)),
        r_sub(an, r_mul(c, bn)),
        r_mul(c, db),
        r_mul(c, bn),
    );
    lemma_add_sub_cancel(an, r_mul(c, bn));
    let lhs = r_add(r_sub(da, r_mul(c, db)), r_mul(c, db));
    let mid = r_add(r_sub(an, r_mul(c, bn)), r_mul(c, bn));
    lemma_ops_nz(r_sub(an, r_mul(c, bn)), r_mul(c, bn));
    // da ~ lhs ~ mid ~ an
    assert(r_eq(lhs, da)) by {
        lemma_add_sub_cancel(da, r_mul(c, db));
    }
    assert(r_eq(lhs, mid));
    assert(r_eq(mid, an));
    lemma_ops_nz(r_sub(da, r_mul(c, db)), r_mul(c, db));
    assert(r_eq(da, lhs)) by (nonlinear_arith)
        requires
            r_eq(lhs, da),
    ;
    lemma_r_eq_trans(da, lhs, mid);
    lemma_r_eq_trans(da, mid, an);
}

impl Matrix {
    /// Solve the augmented system `[A | b]` by Gauss-Jordan elimination
    /// with partial pivoting, consuming the matrix.
    ///
    /// On success the returned vector solves every equation of the given
    /// system exactly.  `Err(Singular)` reports a pivot column with no
    /// nonzero entry at or below the diagonal: the system has no unique
    /// solution under this elimination order.  `Err(Overflow)` reports an
    /// exact intermediate value whose reduced numerator or denominator no
    /// longer fits the 64-bit scalar.
    #[verifier::loop_isolation(false)]
    #[verifier::rlimit(100)]
    pub fn solve(self) -> (res: Result<Vector, SolveError>)
        requires
            self.valid(),
            self@.len() >= 1,
            self.width_spec() == self@.len() + 1,
        ensures
            res is Ok ==> res->Ok_0@.len() == self@.len() && res->Ok_0.valid() && satisfies(
                self@,
                res->Ok_0@,
            ),
            res is Ok ==> mirror_solve(self@) == Ok::<Seq<Ratio>, SolveError>(res->Ok_0@),
            res is Err ==> mirror_solve(self@) == Err::<Seq<Ratio>, SolveError>(res->Err_0),
    {
        let ghost orig = self@;
        let n = self.height();
        let mut m = self;
        let mut rn: usize = 0;
        while rn < n
            invariant
                rn <= n,
                m@.len() == n,
                m.width_spec() == n + 1,
                m.valid(),
                forall|x: Seq<Ratio>|
                    x.len() == n && all_nz(x) && #[trigger] satisfies(m@, x) ==> satisfies(
                        orig,
                        x,
                    ),
                diag_ones(m@, rn as int),
                zeros_below(m@, rn as int),
                gauss(n as int, m@, rn as int) == gauss(n as int, orig, 0),
            decreases n - rn,
        {
            let ghost m0 = m@;
            let piv = m.get(rn, rn);
            if piv.is_zero() {
                // search below the diagonal for a usable pivot
                let mut s: usize = rn + 1;
                #[verifier::loop_isolation(true)]
                while s < n
                    invariant_except_break
                        rn < n,
                        m@.len() == n,
                        m.width_spec() == n + 1,
                        m.valid(),
                        rn + 1 <= s <= n,
                        forall|i: int| rn < i < s ==> r_is_zero(#[trigger] m@[i][rn as int]),
                        find_pivot(n as int, m@, rn as int, s as int) == find_pivot(
                            n as int,
                            m@,
                            rn as int,
                            rn as int + 1,
                        ),
                    ensures
                        rn + 1 <= s <= n,
                        s < n ==> !r_is_zero(m@[s as int][rn as int]),
                        s == n ==> forall|i: int|
                            rn < i < n ==> r_is_zero(#[trigger] m@[i][rn as int]),
                        find_pivot(n as int, m@, rn as int, rn as int + 1) == s,
                    decreases n - s,
                {
                    if !m.get(s, rn).is_zero() {
                        break ;
                    }
                    s = s + 1;
                }
                if s == n {
                    proof {
                        // the mirror reports the same failure
                        assert(gauss(n as int, m0, rn as int) == Err::<
                            Seq<Seq<Ratio>>,
                            SolveError,
                        >(SolveError::Singular));
                        assert(mirror_solve(orig) == Err::<Seq<Ratio>, SolveError>(
                            SolveError::Singular,
                        ));
                    }
                    return Err(SolveError::Singular);
                }
                let ghost m_old = m@;
                m.swap_rows(rn, s);
                proof {
                    assert(gauss(n as int, m0, rn as int) == gauss_norm(
                        n as int,
                        m@,
                        rn as int,
                    ));
                }
                proof {
                    // a row swap permutes the equations, so the same
                    // vectors solve the system
                    assert forall|x: Seq<Ratio>|
                        x.len() == n && all_nz(x) && #[trigger] satisfies(m@, x) implies satisfies(
                        orig,
                        x,
                    ) by {
                        assert forall|i: int| 0 <= i < n implies row_satisfied(
                            #[trigger] m_old[i],
                            x,
                        ) by {
                            if i == rn {
                                assert(m_old[i] == m@[s as int]);
                            } else if i == s {
                                assert(m_old[i] == m@[rn as int]);
                            } else {
                                assert(m_old[i] == m@[i]);
                            }
                        }
                        assert(satisfies(m_old, x));
                    }
                    // rows at or below the pivot all have zero entries in
                    // the eliminated columns, so the swap keeps the shape
                    assert forall|j: int, i: int|
                        0 <= j < rn && j < i < m@.len() implies r_eq(
                        #[trigger] m@[i][j],
                        r_int(0),
                    ) by {
                        if i == rn {
                            assert(m@[i] == m_old[s as int]);
                        } else if i == s {
                            assert(m@[i] == m_old[rn as int]);
                        } else {
                            assert(m@[i] == m_old[i]);
                        }
                    }
                    assert forall|j: int| 0 <= j < rn implies r_eq(
                        #[trigger] m@[j][j],
                        r_int(1),
                    ) by {
                        assert(m@[j] == m_old[j]);
                    }
                }
            }
            proof {
                if !r_is_zero(m0[rn as int][rn as int]) {
                    assert(m@ == m0);
                    assert(gauss(n as int, m0, rn as int) == gauss_norm(n as int, m@, rn as int));
                }
                assert(gauss_norm(n as int, m@, rn as int) == gauss(n as int, orig, 0));
            }
            // normalize the pivot row so the diagonal entry becomes one
            let ghost m2g = m@;
            let v = m.get(rn, rn);
            let pivot_row = m.row(rn);
            let new_pivot = match pivot_row.checked_div(v) {
                Some(r) => r,
                None => {
                    proof {
                        assert(!row_div_fits(m@[rn as int], v@));
                        assert(gauss_norm(n as int, m@, rn as int) == Err::<
                            Seq<Seq<Ratio>>,
                            SolveError,
                        >(SolveError::Overflow));
                        assert(mirror_solve(orig) == Err::<Seq<Ratio>, SolveError>(
                            SolveError::Overflow,
                        ));
                    }
                    return Err(SolveError::Overflow);
                },
            };
            let ghost m_old = m@;
            m.set_row(rn, new_pivot);
            proof {
                assert(m@ == m2g.update(rn as int, cvec_div(m2g[rn as int], v@)));
                assert(gauss_norm(n as int, m2g, rn as int) == gauss_after(
                    n as int,
                    elim_below(n as int, m@, rn as int, rn as int + 1),
                    rn as int + 1,
                ));
                assert forall|x: Seq<Ratio>|
                    x.len() == n && all_nz(x) && #[trigger] satisfies(m@, x) implies satisfies(
                    orig,
                    x,
                ) by {
                    assert forall|i: int| 0 <= i < n implies row_satisfied(
                        #[trigger] m_old[i],
                        x,
                    ) by {
                        if i == rn {
                            assert(m@[i] == new_pivot@);
                            assert(row_satisfied(new_pivot@, x));
                            lemma_row_div_preserves(m_old[i], new_pivot@, v@, x);
                        } else {
                            assert(m_old[i] == m@[i]);
                        }
                    }
                    assert(satisfies(m_old, x));
                }
                // the pivot row keeps its zeros in eliminated columns
                assert forall|j: int, i: int|
                    0 <= j < rn && j < i < m@.len() implies r_eq(
                    #[trigger] m@[i][j],
                    r_int(0),
                ) by {
                    if i == rn {
                        assert(m@[i][j] == cdiv(m_old[i][j], v@));
                        lemma_cdiv_zero(m_old[i][j], v@);
                    } else {
                        assert(m@[i] == m_old[i]);
                    }
                }
                assert forall|j: int| 0 <= j < rn implies r_eq(#[trigger] m@[j][j], r_int(1)) by {
                    assert(m@[j] == m_old[j]);
                }
                // and its diagonal entry becomes one
                assert(m@[rn as int][rn as int] == cdiv(m_old[rn as int][rn as int], v@));
                lemma_cdiv_self(v@);
                assert(r_eq(m@[rn as int][rn as int], r_int(1)));
            }
            // eliminate the pivot column below the pivot row
            let mut row: usize = rn + 1;
            while row < n
                invariant
                    rn + 1 <= row <= n,
                    m@.len() == n,
                    m.width_spec() == n + 1,
                    m.valid(),
                    forall|x: Seq<Ratio>|
                        x.len() == n && all_nz(x) && #[trigger] satisfies(m@, x) ==> satisfies(
                            orig,
                            x,
                        ),
                    diag_ones(m@, rn as int),
                    zeros_below(m@, rn as int),
                    r_eq(m@[rn as int][rn as int], r_int(1)),
                    forall|i: int| rn < i < row ==> r_eq(#[trigger] m@[i][rn as int], r_int(0)),
                    gauss_after(
                        n as int,
                        elim_below(n as int, m@, rn as int, row as int),
                        rn as int + 1,
                    ) == gauss(n as int, orig, 0),
                decreases n - row,
            {
                let c = m.get(row, rn);
                let target = m.row(row);
                let pivot = m.row(rn);
                let new_row = match target.checked_sub_scaled(&pivot, c) {
                    Some(r) => r,
                    None => {
                        proof {
                            assert(!row_update_fits(m@[row as int], m@[rn as int], c@));
                            assert(elim_below(n as int, m@, rn as int, row as int) == Err::<
                                Seq<Seq<Ratio>>,
                                SolveError,
                            >(SolveError::Overflow));
                            assert(mirror_solve(orig) == Err::<Seq<Ratio>, SolveError>(
                                SolveError::Overflow,
                            ));
                        }
                        return Err(SolveError::Overflow);
                    },
                };
                let ghost m_mid = m@;
                m.set_row(row, new_row);
                proof {
                    assert(new_row@ == row_updated(m_mid[row as int], m_mid[rn as int], c@));
                    assert(m@ == m_mid.update(row as int, new_row@));
                    assert(elim_below(n as int, m_mid, rn as int, row as int) == elim_below(
                        n as int,
                        m@,
                        rn as int,
                        row as int + 1,
                    ));
                    assert forall|x: Seq<Ratio>|
                        x.len() == n && all_nz(x) && #[trigger] satisfies(m@, x) implies satisfies(
                        orig,
                        x,
                    ) by {
                        assert forall|i: int| 0 <= i < n implies row_satisfied(
                            #[trigger] m_mid[i],
                            x,
                        ) by {
                            if i == row {
                                assert(m@[i] == new_row@);
                                assert(row_satisfied(new_row@, x));
                                assert(m@[rn as int] == m_mid[rn as int]);
                                assert(row_satisfied(m_mid[rn as int], x));
                                lemma_row_update_preserves(
                                    m_mid[i],
                                    m_mid[rn as int],
                                    new_row@,
                                    c@,
                                    x,
                                );
                            } else {
                                assert(m_mid[i] == m@[i]);
                            }
                        }
                        assert(satisfies(m_mid, x));
                    }
                    // eliminated columns stay zero below the diagonal
                    assert forall|j: int, i: int|
                        0 <= j < rn && j < i < m@.len() implies r_eq(
                        #[trigger] m@[i][j],
                        r_int(0),
                    ) by {
                        if i == row {
                            assert(m@[i][j] == csub(m_mid[i][j], cmul(m_mid[rn as int][j], c@)));
                            assert(r_eq(m_mid[i][j], r_int(0)));
                            assert(r_eq(m_mid[rn as int][j], r_int(0)));
                            lemma_zero_entry_kept(m_mid[i][j], m_mid[rn as int][j], c@);
                        } else {
                            assert(m@[i] == m_mid[i]);
                        }
                    }
                    assert forall|j: int| 0 <= j < rn implies r_eq(
                        #[trigger] m@[j][j],
                        r_int(1),
                    ) by {
                        assert(m@[j] == m_mid[j]);
                    }
                    // the pivot column entry of the updated row is now zero
                    assert(m@[row as int][rn as int] == csub(
                        m_mid[row as int][rn as int],
                        cmul(m_mid[rn as int][rn as int], c@),
                    ));
                    assert(c@ == m_mid[row as int][rn as int]);
                    lemma_entry_eliminated(m_mid[row as int][rn as int], m_mid[rn as int][rn as int]);
                    // entries already cleared below stay cleared
                    assert forall|i: int| rn < i < row + 1 implies r_eq(
                        #[trigger] m@[i][rn as int],
                        r_int(0),
                    ) by {
                        if i < row {
                            assert(m@[i] == m_mid[i]);
                        }
                    }
                }
                row = row + 1;
            }
            proof {
                // the pivot column is now eliminated
                assert forall|j: int| 0 <= j < rn + 1 implies r_eq(
                    #[trigger] m@[j][j],
                    r_int(1),
                ) by {
                }
                assert(diag_ones(m@, rn as int + 1));
                assert(zeros_below(m@, rn as int + 1));
                assert(elim_below(n as int, m@, rn as int, n as int) == Ok::<
                    Seq<Seq<Ratio>>,
                    SolveError,
                >(m@));
                assert(gauss(n as int, m@, rn as int + 1) == gauss(n as int, orig, 0));
            }
            rn = rn + 1;
        }
        let ghost mg = m@;
        proof {
            assert(gauss(n as int, m@, n as int) == Ok::<Seq<Seq<Ratio>>, SolveError>(m@));
            assert(gauss(n as int, orig, 0) == Ok::<Seq<Seq<Ratio>>, SolveError>(mg));
        }
        // Jordan phase: clear each pivot column above the diagonal, from
        // the last column leftwards
        let mut col: usize = n;
        while col > 1
            invariant
                1 <= col <= n,
                m@.len() == n,
                m.width_spec() == n + 1,
                m.valid(),
                forall|x: Seq<Ratio>|
                    x.len() == n && all_nz(x) && #[trigger] satisfies(m@, x) ==> satisfies(
                        orig,
                        x,
                    ),
                diag_ones(m@, n as int),
                zeros_below(m@, n as int),
                zeros_above(m@, col as int),
                gauss(n as int, orig, 0) == Ok::<Seq<Seq<Ratio>>, SolveError>(mg),
                jordan(m@, col as int) == jordan(mg, n as int),
            decreases col,
        {
            let rn2 = col - 1;
            let mut row: usize = rn2;
            proof {
                assert(jordan(m@, col as int) == jordan_after(
                    elim_above(m@, rn2 as int, rn2 as int),
                    col as int - 1,
                ));
            }
            while row > 0
                invariant
                    0 <= row <= rn2,
                    m@.len() == n,
                    m.width_spec() == n + 1,
                    m.valid(),
                    forall|x: Seq<Ratio>|
                        x.len() == n && all_nz(x) && #[trigger] satisfies(m@, x) ==> satisfies(
                            orig,
                            x,
                        ),
                    diag_ones(m@, n as int),
                    zeros_below(m@, n as int),
                    zeros_above(m@, col as int),
                    forall|i: int|
                        row <= i < rn2 ==> r_eq(#[trigger] m@[i][rn2 as int], r_int(0)),
                    jordan_after(elim_above(m@, rn2 as int, row as int), col as int - 1)
                        == jordan(mg, n as int),
                decreases row,
            {
                row = row - 1;
                let c = m.get(row, rn2);
                let target = m.row(row);
                let pivot = m.row(rn2);
                let new_row = match target.checked_sub_scaled(&pivot, c) {
                    Some(r) => r,
                    None => {
                        proof {
                            assert(!row_update_fits(m@[row as int], m@[rn2 as int], c@));
                            assert(elim_above(m@, rn2 as int, row as int + 1) == Err::<
                                Seq<Seq<Ratio>>,
                                SolveError,
                            >(SolveError::Overflow));
                            assert(jordan(mg, n as int) == Err::<Seq<Seq<Ratio>>, SolveError>(
                                SolveError::Overflow,
                            ));
                            assert(mirror_solve(orig) == Err::<Seq<Ratio>, SolveError>(
                                SolveError::Overflow,
                            ));
                        }
                        return Err(SolveError::Overflow);
                    },
                };
                let ghost m_mid = m@;
                m.set_row(row, new_row);
                proof {
                    assert(new_row@ == row_updated(m_mid[row as int], m_mid[rn2 as int], c@));
                    assert(m@ == m_mid.update(row as int, new_row@));
                    assert(elim_above(m_mid, rn2 as int, row as int + 1) == elim_above(
                        m@,
                        rn2 as int,
                        row as int,
                    ));
                    assert forall|x: Seq<Ratio>|
                        x.len() == n && all_nz(x) && #[trigger] satisfies(m@, x) implies satisfies(
                        orig,
                        x,
                    ) by {
                        assert forall|i: int| 0 <= i < n implies row_satisfied(
                            #[trigger] m_mid[i],
                            x,
                        ) by {
                            if i == row {
                                assert(m@[i] == new_row@);
                                assert(row_satisfied(new_row@, x));
                                assert(m@[rn2 as int] == m_mid[rn2 as int]);
                                assert(row_satisfied(m_mid[rn2 as int], x));
                                lemma_row_update_preserves(
                                    m_mid[i],
                                    m_mid[rn2 as int],
                                    new_row@,
                                    c@,
                                    x,
                                );
                            } else {
                                assert(m_mid[i] == m@[i]);
                            }
                        }
                        assert(satisfies(m_mid, x));
                    }
                    // the diagonal stays one: the pivot row is zero at the
                    // updated row's diagonal column
                    assert forall|j: int| 0 <= j < n implies r_eq(
                        #[trigger] m@[j][j],
                        r_int(1),
                    ) by {
                        if j == row {
                            assert(m@[j][j] == csub(m_mid[j][j], cmul(m_mid[rn2 as int][j], c@)));
                            assert(r_eq(m_mid[rn2 as int][j], r_int(0)));
                            lemma_entry_kept(m_mid[j][j], m_mid[rn2 as int][j], c@);
                            lemma_r_eq_trans(m@[j][j], m_mid[j][j], r_int(1));
                        } else {
                            assert(m@[j] == m_mid[j]);
                        }
                    }
                    // below-diagonal zeros stay zero
                    assert forall|j: int, i: int|
                        0 <= j < n && j < i < m@.len() implies r_eq(
                        #[trigger] m@[i][j],
                        r_int(0),
                    ) by {
                        if i == row {
                            assert(m@[i][j] == csub(m_mid[i][j], cmul(m_mid[rn2 as int][j], c@)));
                            assert(r_eq(m_mid[i][j], r_int(0)));
                            assert(r_eq(m_mid[rn2 as int][j], r_int(0)));
                            lemma_zero_entry_kept(m_mid[i][j], m_mid[rn2 as int][j], c@);
                        } else {
                            assert(m@[i] == m_mid[i]);
                        }
                    }
                    // columns already cleared stay cleared above
                    assert forall|j: int, i: int|
                        col <= j < m@.len() && 0 <= i < j implies r_eq(
                        #[trigger] m@[i][j],
                        r_int(0),
                    ) by {
                        if i == row {
                            assert(m@[i][j] == csub(m_mid[i][j], cmul(m_mid[rn2 as int][j], c@)));
                            assert(r_eq(m_mid[i][j], r_int(0)));
                            assert(r_eq(m_mid[rn2 as int][j], r_int(0)));
                            lemma_zero_entry_kept(m_mid[i][j], m_mid[rn2 as int][j], c@);
                        } else {
                            assert(m@[i] == m_mid[i]);
                        }
                    }
                    // the new entry in the pivot column is eliminated
                    assert(m@[row as int][rn2 as int] == csub(
                        m_mid[row as int][rn2 as int],
                        cmul(m_mid[rn2 as int][rn2 as int], c@),
                    ));
                    assert(c@ == m_mid[row as int][rn2 as int]);
                    lemma_entry_eliminated(
                        m_mid[row as int][rn2 as int],
                        m_mid[rn2 as int][rn2 as int],
                    );
                    assert forall|i: int| row <= i < rn2 implies r_eq(
                        #[trigger] m@[i][rn2 as int],
                        r_int(0),
                    ) by {
                        if i > row {
                            assert(m@[i] == m_mid[i]);
                        }
                    }
                }
            }
            proof {
                assert forall|j: int, i: int|
                    rn2 <= j < m@.len() && 0 <= i < j implies r_eq(
                    #[trigger] m@[i][j],
                    r_int(0),
                ) by {
                }
                assert(zeros_above(m@, rn2 as int));
                assert(elim_above(m@, rn2 as int, 0) == Ok::<Seq<Seq<Ratio>>, SolveError>(m@));
                assert(jordan(m@, col as int - 1) == jordan(mg, n as int));
            }
            col = col - 1;
        }
        // read the solution off the augmented column
        let mut xs: Vec<Rat> = Vec::new();
        let mut i: usize = 0;
        while i < n
            invariant
                i <= n,
                xs@.len() == i,
                forall|j: int|
                    0 <= j < i ==> (#[trigger] xs@[j])@ == m@[j][n as int] && xs@[j].valid(),
            decreases n - i,
        {
            xs.push(m.get(i, n));
            i = i + 1;
        }
        let x = Vector::new(xs);
        proof {
            assert(x@ =~= Seq::new(n as nat, |j: int| m@[j][n as int]));
            assert(all_nz(x@)) by {
                assert forall|j: int| 0 <= j < x@.len() implies (#[trigger] x@[j]).d != 0 by {
                    assert(fits(x@[j]));
                }
            }
            // the coefficient block is the identity, so row `i` states
            // exactly that component `i` equals the augmented entry
            assert forall|i2: int| 0 <= i2 < n implies row_satisfied(#[trigger] m@[i2], x@) by {
                let rowi = m@[i2];
                let u = unit_row(n as nat, i2);
                assert forall|j: int| 0 <= j < n implies r_eq(#[trigger] rowi[j], u[j]) by {
                    if j == i2 {
                        assert(r_eq(rowi[j], r_int(1)));
                    } else if j < i2 {
                        assert(r_eq(rowi[j], r_int(0)));
                    } else {
                        // j > i2: zeros above, from the Jordan phase
                        assert(r_eq(rowi[j], r_int(0)));
                    }
                }
                assert(all_nz(rowi)) by {
                    assert forall|j: int| 0 <= j < rowi.len() implies (#[trigger] rowi[j]).d
                        != 0 by {
                        assert(fits(rowi[j]));
                    }
                }
                assert(all_nz(u)) by {
                    assert(forall|j: int| 0 <= j < u.len() ==> (#[trigger] u[j]).d == 1);
                }
                lemma_dot_congr(rowi, u, x@, n as nat);
                lemma_dot_unit(x@, n as nat, i2, n as nat);
                lemma_dot_nz(rowi, x@, n as nat);
                lemma_dot_nz(u, x@, n as nat);
                assert(x@[i2] == rowi[n as int]);
                lemma_r_eq_trans(r_dot(rowi, x@, n as nat), r_dot(u, x@, n as nat), x@[i2]);
            }
            assert(satisfies(m@, x@));
            assert(satisfies(orig, x@));
            // the mirror agrees: elimination succeeded and returns
            // exactly this vector
            assert(jordan(m@, 1int) == Ok::<Seq<Seq<Ratio>>, SolveError>(m@));
            assert(jordan(mg, n as int) == Ok::<Seq<Seq<Ratio>>, SolveError>(m@));
            assert(x@ == Seq::new(n as nat, |j: int| m@[j][n as int]));
            assert(mirror_solve(orig) == Ok::<Seq<Ratio>, SolveError>(x@));
        }
        Ok(x)
    }
}

} // verus!
