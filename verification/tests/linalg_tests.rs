use linalg::matrix::Matrix;
use linalg::rational::Rat;
use linalg::solver::SolveError;
use linalg::vector::Vector;

fn r(n: i64) -> Rat {
    Rat::from_int(n)
}

fn v(vals: &[i64]) -> Vector {
    Vector::new(vals.iter().map(|&n| Rat::from_int(n)).collect())
}

fn mat(rows: &[&[i64]]) -> Matrix {
    Matrix::new(rows.iter().map(|row| v(row)).collect())
}

/// The exact rational value of a finite `f32`: every such value is a
/// dyadic rational.
fn rat_of(f: f32) -> Rat {
    let mut num = f;
    let mut den: i64 = 1;
    while num.fract() != 0.0 {
        num *= 2.0;
        den *= 2;
    }
    Rat::new(num as i64, den)
}

fn mat3f(vals: [f32; 9]) -> Matrix {
    let rows = vals
        .chunks(3)
        .map(|c| Vector::new(c.iter().map(|&f| rat_of(f)).collect()))
        .collect();
    Matrix::new(rows)
}

#[test]
fn mat_neg() {
    assert_eq!(
        mat3f([
            1.0,
            std::f32::consts::SQRT_2,
            3.14,
            -123.0,
            0.0,
            -std::f32::consts::FRAC_PI_3,
            0.0,
            1.0,
            -6.28,
        ]),
        mat3f([
            -1.0,
            -std::f32::consts::SQRT_2,
            -3.14,
            123.0,
            -0.0,
            std::f32::consts::FRAC_PI_3,
            0.0,
            -1.0,
            6.28,
        ])
        .neg(),
    );
}

#[test]
fn mat_eq() {
    assert_eq!(Matrix::identity(3), Matrix::identity(3));
    assert_ne!(Matrix::identity(3), Matrix::identity(3).neg());
}

#[test]
fn determinants() {
    assert_eq!(Matrix::zero(3, 3).det(), r(0));
    assert_eq!(Matrix::identity(3).det(), r(1));
    assert_eq!(Matrix::identity(3).mul_scalar(r(3)).det(), r(27));
    assert_eq!(mat(&[&[1, 2], &[3, 4]]).det(), r(-2));
}

#[test]
fn solve_three_by_three() {
    let m = mat(&[&[1, 1, 1, 7], &[1, 2, 3, 11], &[2, 1, 2, 12]]);
    assert_eq!(m.solve(), Ok(v(&[4, 2, 1])));

    let m = mat(&[&[1, 2, 3, -1], &[2, 4, 7, 0], &[2, 5, 10, 5]]);
    assert_eq!(m.solve(), Ok(v(&[-5, -1, 2])));
}

#[test]
fn solve_triangular() {
    let m = mat(&[&[1, 0, 0, 4], &[0, 1, 0, 2], &[0, 0, 1, 0]]);
    assert_eq!(m.solve(), Ok(v(&[4, 2, 0])));
}

#[test]
fn solve_singular() {
    // the second pivot column is zero at and below the diagonal
    let m = mat(&[&[0, 0, 1, 1], &[0, 0, 2, 2], &[1, 0, 0, 0]]);
    assert_eq!(m.solve(), Err(SolveError::Singular));

    // a repeated row gives no unique solution either
    let m = mat(&[&[1, 2, 3], &[1, 2, 3]]);
    assert_eq!(m.solve(), Err(SolveError::Singular));
}

#[test]
fn solve_with_row_swap() {
    // zero on the diagonal, nonzero below: a pivot swap is required, and
    // the answer matches the pre-swapped system
    let swapped = mat(&[&[0, 1, 2], &[1, 0, 3]]).solve();
    let direct = mat(&[&[1, 0, 3], &[0, 1, 2]]).solve();
    assert_eq!(swapped, Ok(v(&[3, 2])));
    assert_eq!(swapped, direct);
}

#[test]
fn solve_fractional_solution() {
    // 2x = 1 and 3y = 2: the exact solution has nontrivial denominators
    let m = mat(&[&[2, 0, 1], &[0, 3, 2]]);
    let x = m.solve().unwrap();
    assert_eq!(x.x(), Rat::new(1, 2));
    assert_eq!(x.y(), Rat::new(2, 3));
}

#[test]
fn solve_overflow() {
    // dividing by a tiny fraction makes the reduced numerator outgrow the
    // 64-bit scalar
    let big = (1i64 << 62) - 1;
    let row = Vector::new(vec![Rat::new(1, big), Rat::new(big, 1)]);
    let m = Matrix::new(vec![row]);
    assert_eq!(m.solve(), Err(SolveError::Overflow));
}

#[test]
fn rational_arithmetic() {
    assert_eq!(Rat::new(6, -4), Rat::new(-3, 2));
    assert_eq!(Rat::new(6, -4).num(), -3);
    assert_eq!(Rat::new(6, -4).den(), 2);
    assert_eq!(Rat::new(1, 2).add(Rat::new(1, 3)), Rat::new(5, 6));
    assert_eq!(Rat::new(1, 2).sub(Rat::new(1, 3)), Rat::new(1, 6));
    assert_eq!(Rat::new(2, 3).mul(Rat::new(3, 4)), Rat::new(1, 2));
    assert_eq!(Rat::new(1, 2).div(Rat::new(1, 4)), r(2));
    assert_eq!(r(5).neg(), r(-5));
    assert!(Rat::new(0, 7).is_zero());
    assert!(!Rat::new(1, 7).is_zero());
    // reduction failures are reported, never silently wrapped
    assert!(Rat::new(1, 3).checked_add(Rat::new(1, i64::MAX)).is_none());
}

#[test]
fn vector_self_subtraction_is_zero() {
    let a = v(&[3, -7, 11]);
    assert_eq!(a.sub(&a), Vector::zero(3));
}

#[test]
fn vector_scale_divide_round_trip() {
    let a = v(&[3, -7, 11]);
    let s = Rat::new(5, 3);
    assert_eq!(a.mul(s).div(s), a);
}

#[test]
fn vector_components() {
    let a = v(&[1, 2, 3, 4]);
    assert_eq!(a.len(), 4);
    assert_eq!(a.x(), r(1));
    assert_eq!(a.y(), r(2));
    assert_eq!(a.z(), r(3));
    assert_eq!(a.w(), r(4));
    assert_eq!(a.r(), r(1));
    assert_eq!(a.g(), r(2));
    assert_eq!(a.b(), r(3));
    assert_eq!(a.a(), r(4));
    assert_eq!(a.get(2), r(3));
    let mut b = v(&[0, 0]);
    b.set(1, r(9));
    assert_eq!(b, v(&[0, 9]));
}

#[test]
fn vector_arithmetic() {
    let a = v(&[1, 2]);
    let b = v(&[10, 20]);
    assert_eq!(a.add(&b), v(&[11, 22]));
    assert_eq!(b.sub(&a), v(&[9, 18]));
    assert_eq!(a.neg(), v(&[-1, -2]));
    assert_eq!(a.mul(r(3)), v(&[3, 6]));
    assert_eq!(v(&[4, 8]).div(r(4)), v(&[1, 2]));
    let mut c = v(&[1, 1]);
    c.add_assign(&a);
    assert_eq!(c, v(&[2, 3]));
    c.sub_assign(&a);
    assert_eq!(c, v(&[1, 1]));
    c.mul_assign(r(6));
    assert_eq!(c, v(&[6, 6]));
    c.div_assign(r(2));
    assert_eq!(c, v(&[3, 3]));
}

#[test]
fn vector_magnitude_squared() {
    assert_eq!(v(&[3, 4]).mag_sq(), r(25));
    assert_eq!(v(&[1, 2, 2]).mag_sq(), r(9));
    let half = Vector::new(vec![Rat::new(1, 2), Rat::new(1, 2)]);
    assert_eq!(half.mag_sq(), Rat::new(1, 2));
}

#[test]
fn matrix_arithmetic() {
    let a = mat(&[&[1, 2], &[3, 4]]);
    let b = mat(&[&[5, 6], &[7, 8]]);
    assert_eq!(a.add(&b), mat(&[&[6, 8], &[10, 12]]));
    assert_eq!(b.sub(&a), mat(&[&[4, 4], &[4, 4]]));
    assert_eq!(a.neg(), mat(&[&[-1, -2], &[-3, -4]]));
    assert_eq!(a.mul_scalar(r(2)), mat(&[&[2, 4], &[6, 8]]));
    let mut c = mat(&[&[0, 0], &[0, 0]]);
    c.add_assign(&a);
    assert_eq!(c, a);
    c.sub_assign(&a);
    assert_eq!(c, Matrix::zero(2, 2));
}

#[test]
fn matrix_multiply() {
    let a = mat(&[&[1, 2], &[3, 4]]);
    assert_eq!(a.mul(&a), mat(&[&[7, 10], &[15, 22]]));
    // the identity keeps any column vector unchanged
    let col = mat(&[&[5], &[-7], &[11]]);
    assert_eq!(Matrix::identity(3).mul(&col), col);
    assert_eq!(Matrix::identity(2).mul(&a), a);
}

#[test]
fn matrix_dimensions() {
    let m = mat(&[&[1, 2, 3], &[4, 5, 6]]);
    assert_eq!(m.height(), 2);
    assert_eq!(m.width(), 3);
    assert_eq!(m.get(1, 2), r(6));
    assert_eq!(m.row(0), v(&[1, 2, 3]));
    let mut s = mat(&[&[1, 2], &[3, 4]]);
    s.swap_rows(0, 1);
    assert_eq!(s, mat(&[&[3, 4], &[1, 2]]));
    s.set(0, 0, r(9));
    assert_eq!(s, mat(&[&[9, 4], &[1, 2]]));
}
