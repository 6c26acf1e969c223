//! Exact rational scalars.
//!
//! The toolkit's scalar type is a fraction of two 64-bit integers kept in
//! reduced form with a positive denominator.  Its mathematical value is the
//! ghost quotient [`Ratio`]; all contracts in the crate are stated over
//! `Ratio` values, compared with the cross-multiplication equality [`r_eq`].

use vstd::prelude::*;
use vstd::arithmetic::div_mod::{
    lemma_fundamental_div_mod, lemma_mod_division_less_than_divisor, lemma_mod_multiples_basic,
    lemma_mod_self_0, lemma_small_mod, lemma_add_mod_noop, lemma_div_multiples_vanish,
};
use vstd::arithmetic::mul::{lemma_mul_is_associative, lemma_mul_is_commutative};

verus! {

/// The mathematical value of a scalar: a quotient `n / d` of unbounded
/// integers.  Meaningful only when `d != 0`; every value built by the
/// executable code has `d > 0`.
pub ghost struct Ratio {
    pub n: int,
    pub d: int,
}

/// The rational with value `k`.
pub open spec fn r_int(k: int) -> Ratio {
    Ratio { n: k, d: 1 }
}

/// Exact sum of two quotients, over the common denominator.
pub open spec fn r_add(p: Ratio, q: Ratio) -> Ratio {
    Ratio { n: p.n * q.d + q.n * p.d, d: p.d * q.d }
}

/// Exact difference of two quotients.
pub open spec fn r_sub(p: Ratio, q: Ratio) -> Ratio {
    Ratio { n: p.n * q.d - q.n * p.d, d: p.d * q.d }
}

/// Exact product of two quotients.
pub open spec fn r_mul(p: Ratio, q: Ratio) -> Ratio {
    Ratio { n: p.n * q.n, d: p.d * q.d }
}

/// Exact quotient `p / q`; meaningful only when `q.n != 0`.
pub open spec fn r_div(p: Ratio, q: Ratio) -> Ratio {
    Ratio { n: p.n * q.d, d: p.d * q.n }
}

/// Exact negation.
pub open spec fn r_neg(p: Ratio) -> Ratio {
    Ratio { n: -p.n, d: p.d }
}

/// Equality of the rational values `p.n / p.d` and `q.n / q.d`, by
/// cross-multiplication.  An equivalence relation whenever the denominators
/// are nonzero.
pub open spec fn r_eq(p: Ratio, q: Ratio) -> bool {
    p.n * q.d == q.n * p.d
}

/// Whether the quotient is the rational zero.
pub open spec fn r_is_zero(p: Ratio) -> bool {
    p.n == 0
}

/// Absolute value, as a natural number.
pub open spec fn nabs(x: int) -> nat {
    if x >= 0 {
        x as nat
    } else {
        (-x) as nat
    }
}

/// Greatest common divisor, by Euclid's recursion.
pub open spec fn gcd(a: nat, b: nat) -> nat
    decreases b,
{
    if b == 0 {
        a
    } else {
        gcd(b, a % b)
    }
}

/// The gcd of two numbers, one of them positive, is positive.
pub proof fn lemma_gcd_pos(a: nat, b: nat)
    requires
        a > 0 || b > 0,
    ensures
        gcd(a, b) > 0,
    decreases b,
{
    if b == 0 {
    } else {
        lemma_mod_division_less_than_divisor(a as int, b as int);
        lemma_gcd_pos(b, (a % b) as nat);
    }
}

/// A multiple of a multiple of `k` is a multiple of `k`.
proof fn lemma_divides_mult(k: int, x: int, c: int)
    requires
        k > 0,
        x % k == 0,
    ensures
        (c * x) % k == 0,
{
    lemma_fundamental_div_mod(x, k);
    assert(x == k * (x / k));
    assert(c * x == (c * (x / k)) * k) by {
        lemma_mul_is_associative(c, x / k, k);
        lemma_mul_is_commutative(k, x / k);
        lemma_mul_is_associative(c, k, x / k);
    }
    lemma_mod_multiples_basic(c * (x / k), k);
}

/// A sum of two multiples of `k` is a multiple of `k`.
proof fn lemma_divides_add(k: int, x: int, y: int)
    requires
        k > 0,
        x % k == 0,
        y % k == 0,
    ensures
        (x + y) % k == 0,
{
    lemma_add_mod_noop(x, y, k);
    lemma_small_mod(0, k as nat);
}

/// The gcd divides both of its arguments.
pub proof fn lemma_gcd_divides(a: nat, b: nat)
    requires
        a > 0 || b > 0,
    ensures
        gcd(a, b) > 0,
        a % gcd(a, b) == 0,
        b % gcd(a, b) == 0,
    decreases b,
{
    lemma_gcd_pos(a, b);
    if b == 0 {
        let g = gcd(a, b) as int;
        lemma_mod_self_0(g);
        lemma_small_mod(0, g as nat);
    } else {
        lemma_mod_division_less_than_divisor(a as int, b as int);
        lemma_gcd_divides(b, (a % b) as nat);
        let g = gcd(b, (a % b) as nat) as int;
        // a == (a / b) * b + a % b, and g divides both summands.
        lemma_fundamental_div_mod(a as int, b as int);
        lemma_divides_mult(g, b as int, a as int / b as int);
        lemma_divides_add(g, (a as int / b as int) * b, a as int % b as int);
        assert(b * (a as int / b as int) == (a as int / b as int) * b) by {
            lemma_mul_is_commutative(b as int, a as int / b as int);
        }
    }
}

/// A positive divisor of a positive number is no larger than it.
pub proof fn lemma_divisor_le(g: nat, x: nat)
    requires
        g > 0,
        x > 0,
        x % g == 0,
    ensures
        g <= x,
{
    if g > x {
        lemma_small_mod(x, g);
    }
}

/// The canonical form of a quotient: the sign moved to the numerator and
/// both parts divided by their gcd.  Two quotients are `r_eq` exactly when
/// they share a canonical form.
pub open spec fn canon(p: Ratio) -> Ratio
    recommends
        p.d != 0,
{
    let n = if p.d < 0 {
        -p.n
    } else {
        p.n
    };
    let d = if p.d < 0 {
        -p.d
    } else {
        p.d
    };
    let g = gcd(nabs(n), d as nat) as int;
    Ratio { n: n / g, d: d / g }
}

/// Whether a quotient can be carried by a `Rat`: a positive denominator and
/// both parts within the symmetric 64-bit range.
pub open spec fn fits(p: Ratio) -> bool {
    &&& -(i64::MAX as int) <= p.n <= i64::MAX as int
    &&& 1 <= p.d <= i64::MAX as int
}

/// Canonical sum, and whether it fits a `Rat`.
pub open spec fn cadd(p: Ratio, q: Ratio) -> Ratio {
    canon(r_add(p, q))
}

/// Canonical difference.
pub open spec fn csub(p: Ratio, q: Ratio) -> Ratio {
    canon(r_sub(p, q))
}

/// Canonical product.
pub open spec fn cmul(p: Ratio, q: Ratio) -> Ratio {
    canon(r_mul(p, q))
}

/// Canonical quotient.
pub open spec fn cdiv(p: Ratio, q: Ratio) -> Ratio {
    canon(r_div(p, q))
}

/// The canonical form of a quotient keeps its value and has a positive
/// denominator.
pub proof fn lemma_canon_r_eq(p: Ratio)
    requires
        p.d != 0,
    ensures
        canon(p).d > 0,
        r_eq(canon(p), p),
        canon(p).n == 0 <==> p.n == 0,
{
    let n = if p.d < 0 {
        -p.n
    } else {
        p.n
    };
    let d = if p.d < 0 {
        -p.d
    } else {
        p.d
    };
    let g = gcd(nabs(n), d as nat) as int;
    lemma_gcd_divides(nabs(n), d as nat);
    assert(nabs(n) % g as nat == 0 && d % g == 0 && g > 0);
    lemma_divisor_le(g as nat, d as nat);
    // d / g is positive and exact.
    lemma_fundamental_div_mod(d, g);
    assert(d == g * (d / g));
    // n / g is exact: g divides |n|, hence n.
    assert(n % g == 0) by {
        if n >= 0 {
        } else {
            // |n| == g * q, so n == g * (-q).
            lemma_fundamental_div_mod(-n, g);
            let q = (-n) / g;
            assert(-n == g * q);
            assert(n == (-q) * g) by (nonlinear_arith)
                requires
                    -n == g * q,
            ;
            lemma_mod_multiples_basic(-q, g);
        }
    }
    lemma_fundamental_div_mod(n, g);
    assert(n == g * (n / g));
    // cross-multiplication: (n / g) * d == n * (d / g)
    assert((n / g) * (g * (d / g)) == (g * (n / g)) * (d / g)) by {
        lemma_mul_is_associative(n / g, g, d / g);
        lemma_mul_is_commutative(n / g, g);
        lemma_mul_is_associative(g, n / g, d / g);
    }
    // positivity of d / g
    assert(d / g > 0) by {
        if d / g <= 0 {
            assert(g * (d / g) <= 0) by (nonlinear_arith)
                requires
                    g > 0,
                    d / g <= 0,
            ;
        }
    }
    // relate to the original p (which may have d < 0)
    if p.d < 0 {
        assert(r_eq(canon(p), p)) by (nonlinear_arith)
            requires
                canon(p).n == n / g,
                canon(p).d == d / g,
                n == -p.n,
                d == -p.d,
                (n / g) * d == n * (d / g),
        ;
    }
    // zero numerator is preserved both ways
    assert(n / g == 0 <==> n == 0) by {
        assert(n / g == 0 ==> n == 0) by (nonlinear_arith)
            requires
                n == g * (n / g),
        ;
        assert(n == 0 ==> n / g == 0) by (nonlinear_arith)
            requires
                g > 0,
                n == g * (n / g),
        ;
    }
    assert(canon(p).n == n / g);
    assert(n == 0 <==> p.n == 0);
}

/// Euclid's algorithm.
pub fn gcd_u128(a0: u128, b0: u128) -> (g: u128)
    ensures
        g as nat == gcd(a0 as nat, b0 as nat),
{
    let mut a = a0;
    let mut b = b0;
    while b != 0
        invariant
            gcd(a as nat, b as nat) == gcd(a0 as nat, b0 as nat),
        decreases b,
    {
        proof {
            lemma_mod_division_less_than_divisor(a as int, b as int);
        }
        let t = a % b;
        a = b;
        b = t;
    }
    a
}

/// An exact rational scalar: a reduced fraction of two 64-bit integers with
/// a positive denominator.
#[derive(Clone, Copy, Debug)]
pub struct Rat {
    num: i64,
    den: i64,
}

impl View for Rat {
    type V = Ratio;

    closed spec fn view(&self) -> Ratio {
        Ratio { n: self.num as int, d: self.den as int }
    }
}

/// Reduce `n / d` to canonical form, failing when the reduced parts do not
/// fit a 64-bit scalar.
fn reduce(n: i128, d: i128) -> (r: Option<Rat>)
    requires
        d != 0,
        n != i128::MIN,
        d != i128::MIN,
    ensures
        r is Some <==> fits(canon(Ratio { n: n as int, d: d as int })),
        r is Some ==> r->Some_0@ == canon(Ratio { n: n as int, d: d as int }),
        r is Some ==> r->Some_0.valid(),
{
    let ghost p = Ratio { n: n as int, d: d as int };
    let (sn, sd) = if d < 0 {
        (-n, -d)
    } else {
        (n, d)
    };
    let na: u128 = if sn < 0 {
        (-sn) as u128
    } else {
        sn as u128
    };
    proof {
        assert(na as nat == nabs(sn as int));
        lemma_gcd_divides(nabs(sn as int), sd as nat);
    }
    let g = gcd_u128(na, sd as u128);
    let qn = na / g;
    let qd = (sd as u128) / g;
    proof {
        let gi = g as int;
        let can = canon(p);
        lemma_fundamental_div_mod(na as int, gi);
        lemma_fundamental_div_mod(sd as int, gi);
        assert(na as int == gi * (na as int / gi));
        // the unsigned quotients match the canonical parts
        assert(qd as int == can.d);
        if sn >= 0 {
            assert(qn as int == can.n);
        } else {
            // canonical numerator is sn / g == -(na / g)
            let q = na as int / gi;
            assert(na as int == gi * q);
            assert(sn as int == (-q) * gi) by (nonlinear_arith)
                requires
                    na as int == gi * q,
                    sn as int == -(na as int),
            ;
            lemma_div_multiples_vanish(-q, gi);
            assert(sn as int / gi == -q);
            assert(can.n == -(qn as int));
        }
    }
    if qn <= i64::MAX as u128 && qd <= i64::MAX as u128 {
        let num: i64 = if sn < 0 {
            -(qn as i64)
        } else {
            qn as i64
        };
        let den: i64 = qd as i64;
        proof {
            lemma_canon_r_eq(p);
        }
        Some(Rat { num, den })
    } else {
        proof {
            lemma_canon_r_eq(p);
            let can = canon(p);
            if qd > i64::MAX as u128 {
                assert(!fits(can));
            } else {
                assert(qn > i64::MAX as u128);
                assert(!fits(can));
            }
        }
        None
    }
}

impl Rat {
    /// Every scalar the library hands out satisfies this: a positive
    /// denominator, with both parts in the symmetric 64-bit range.
    pub open spec fn valid(self) -> bool {
        fits(self@)
    }

    /// The scalar with integer value `n`.
    pub fn from_int(n: i64) -> (r: Rat)
        requires
            n != i64::MIN,
        ensures
            r@ == r_int(n as int),
            r.valid(),
    {
        Rat { num: n, den: 1 }
    }

    /// The scalar zero.
    pub fn zero() -> (r: Rat)
        ensures
            r@ == r_int(0),
            r.valid(),
    {
        Rat { num: 0, den: 1 }
    }

    /// The scalar one.
    pub fn one() -> (r: Rat)
        ensures
            r@ == r_int(1),
            r.valid(),
    {
        Rat { num: 1, den: 1 }
    }

    /// Build the reduced fraction `num / den`.
    pub fn new(num: i64, den: i64) -> (r: Rat)
        requires
            den != 0,
            fits(canon(Ratio { n: num as int, d: den as int })),
        ensures
            r@ == canon(Ratio { n: num as int, d: den as int }),
            r_eq(r@, Ratio { n: num as int, d: den as int }),
            r.valid(),
    {
        proof {
            lemma_canon_r_eq(Ratio { n: num as int, d: den as int });
        }
        reduce(num as i128, den as i128).unwrap()
    }

    /// The numerator of the reduced form.
    pub fn num(self) -> (r: i64)
        ensures
            r as int == self@.n,
    {
        self.num
    }

    /// The denominator of the reduced form.
    pub fn den(self) -> (r: i64)
        ensures
            r as int == self@.d,
    {
        self.den
    }

    /// Whether the scalar is exactly zero.
    pub fn is_zero(self) -> (r: bool)
        ensures
            r == r_is_zero(self@),
    {
        self.num == 0
    }

    /// Exact negation; always representable.
    pub fn neg(self) -> (r: Rat)
        requires
            self.valid(),
        ensures
            r@ == r_neg(self@),
            r.valid(),
    {
        Rat { num: -self.num, den: self.den }
    }

    /// Exact sum, reduced; `None` when the reduced sum does not fit.
    pub fn checked_add(self, other: Rat) -> (r: Option<Rat>)
        requires
            self.valid(),
            other.valid(),
        ensures
            r is Some <==> fits(cadd(self@, other@)),
            r is Some ==> r->Some_0@ == cadd(self@, other@),
            r is Some ==> r->Some_0.valid(),
    {
        proof {
            lemma_raw_bounds(self@, other@);
        }
        let n = (self.num as i128) * (other.den as i128) + (other.num as i128) * (self.den
            as i128);
        let d = (self.den as i128) * (other.den as i128);
        reduce(n, d)
    }

    /// Exact difference, reduced; `None` when it does not fit.
    pub fn checked_sub(self, other: Rat) -> (r: Option<Rat>)
        requires
            self.valid(),
            other.valid(),
        ensures
            r is Some <==> fits(csub(self@, other@)),
            r is Some ==> r->Some_0@ == csub(self@, other@),
            r is Some ==> r->Some_0.valid(),
    {
        proof {
            lemma_raw_bounds(self@, other@);
        }
        let n = (self.num as i128) * (other.den as i128) - (other.num as i128) * (self.den
            as i128);
        let d = (self.den as i128) * (other.den as i128);
        reduce(n, d)
    }

    /// Exact product, reduced; `None` when it does not fit.
    pub fn checked_mul(self, other: Rat) -> (r: Option<Rat>)
        requires
            self.valid(),
            other.valid(),
        ensures
            r is Some <==> fits(cmul(self@, other@)),
            r is Some ==> r->Some_0@ == cmul(self@, other@),
            r is Some ==> r->Some_0.valid(),
    {
        proof {
            lemma_raw_bounds(self@, other@);
        }
        let n = (self.num as i128) * (other.num as i128);
        let d = (self.den as i128) * (other.den as i128);
        reduce(n, d)
    }

    /// Exact quotient, reduced; the divisor must be nonzero, and `None` is
    /// returned when the reduced quotient does not fit.
    pub fn checked_div(self, other: Rat) -> (r: Option<Rat>)
        requires
            self.valid(),
            other.valid(),
            !r_is_zero(other@),
        ensures
            r is Some <==> fits(cdiv(self@, other@)),
            r is Some ==> r->Some_0@ == cdiv(self@, other@),
            r is Some ==> r->Some_0.valid(),
    {
        proof {
            lemma_raw_bounds(self@, other@);
        }
        let n = (self.num as i128) * (other.den as i128);
        let d = (self.den as i128) * (other.num as i128);
        proof {
            assert(d != 0) by (nonlinear_arith)
                requires
                    d == self@.d * other@.n,
                    self@.d >= 1,
                    other@.n != 0,
            ;
        }
        reduce(n, d)
    }

    /// Exact sum; the caller must know that the reduced sum fits.
    pub fn add(self, other: Rat) -> (r: Rat)
        requires
            self.valid(),
            other.valid(),
            fits(cadd(self@, other@)),
        ensures
            r@ == cadd(self@, other@),
            r.valid(),
    {
        self.checked_add(other).unwrap()
    }

    /// Exact difference; the caller must know that the reduced result fits.
    pub fn sub(self, other: Rat) -> (r: Rat)
        requires
            self.valid(),
            other.valid(),
            fits(csub(self@, other@)),
        ensures
            r@ == csub(self@, other@),
            r.valid(),
    {
        self.checked_sub(other).unwrap()
    }

    /// Exact product; the caller must know that the reduced result fits.
    pub fn mul(self, other: Rat) -> (r: Rat)
        requires
            self.valid(),
            other.valid(),
            fits(cmul(self@, other@)),
        ensures
            r@ == cmul(self@, other@),
            r.valid(),
    {
        self.checked_mul(other).unwrap()
    }

    /// Exact quotient by a nonzero scalar; the caller must know that the
    /// reduced result fits.
    pub fn div(self, other: Rat) -> (r: Rat)
        requires
            self.valid(),
            other.valid(),
            !r_is_zero(other@),
            fits(cdiv(self@, other@)),
        ensures
            r@ == cdiv(self@, other@),
            r.valid(),
    {
        self.checked_div(other).unwrap()
    }
}

impl PartialEq for Rat {
    /// Two scalars are equal exactly when they name the same rational
    /// value.
    fn eq(&self, other: &Rat) -> (r: bool) {
        let a = self.num as i128;
        let b = other.den as i128;
        let c = other.num as i128;
        let d = self.den as i128;
        proof {
            let m = 0x8000_0000_0000_0000int;
            assert(-(m * m) <= a * b <= m * m && -(m * m) <= c * d <= m * m)
                by (nonlinear_arith)
                requires
                    -m <= a <= m,
                    -m <= b <= m,
                    -m <= c <= m,
                    -m <= d <= m,
            ;
        }
        a * b == c * d
    }
}

impl vstd::std_specs::cmp::PartialEqSpecImpl for Rat {
    open spec fn obeys_eq_spec() -> bool {
        true
    }

    open spec fn eq_spec(&self, other: &Rat) -> bool {
        r_eq(self@, other@)
    }
}

/// `r_eq` is transitive over quotients with nonzero denominators.
pub proof fn lemma_r_eq_trans(p: Ratio, q: Ratio, r: Ratio)
    requires
        q.d != 0,
        r_eq(p, q),
        r_eq(q, r),
    ensures
        r_eq(p, r),
{
    assert(p.n * r.d == r.n * p.d) by (nonlinear_arith)
        requires
            q.d != 0,
            p.n * q.d == q.n * p.d,
            q.n * r.d == r.n * q.d,
    ;
}

/// The denominators of sums, differences and products of well-formed
/// quotients stay positive.
pub proof fn lemma_ops_pos(p: Ratio, q: Ratio)
    requires
        p.d > 0,
        q.d > 0,
    ensures
        r_add(p, q).d > 0,
        r_sub(p, q).d > 0,
        r_mul(p, q).d > 0,
{
    assert(p.d * q.d > 0) by (nonlinear_arith)
        requires
            p.d > 0,
            q.d > 0,
    ;
}

/// Addition respects `r_eq` in both arguments.
pub proof fn lemma_add_congr(p: Ratio, p2: Ratio, q: Ratio, q2: Ratio)
    requires
        p.d != 0,
        p2.d != 0,
        q.d != 0,
        q2.d != 0,
        r_eq(p, p2),
        r_eq(q, q2),
    ensures
        r_eq(r_add(p, q), r_add(p2, q2)),
{
    let a = (p.n * q.d) * (p2.d * q2.d);
    let b = (q.n * p.d) * (p2.d * q2.d);
    let a2 = (p2.n * q2.d) * (p.d * q.d);
    let b2 = (q2.n * p2.d) * (p.d * q.d);
    assert(a == a2) by (nonlinear_arith)
        requires
            a == (p.n * q.d) * (p2.d * q2.d),
            a2 == (p2.n * q2.d) * (p.d * q.d),
            p.n * p2.d == p2.n * p.d,
            q.n * q2.d == q2.n * q.d,
    ;
    assert(b == b2) by (nonlinear_arith)
        requires
            b == (q.n * p.d) * (p2.d * q2.d),
            b2 == (q2.n * p2.d) * (p.d * q.d),
            p.n * p2.d == p2.n * p.d,
            q.n * q2.d == q2.n * q.d,
    ;
    assert((p.n * q.d + q.n * p.d) * (p2.d * q2.d) == a + b) by (nonlinear_arith)
        requires
            a == (p.n * q.d) * (p2.d * q2.d),
            b == (q.n * p.d) * (p2.d * q2.d),
    ;
    assert((p2.n * q2.d + q2.n * p2.d) * (p.d * q.d) == a2 + b2) by (nonlinear_arith)
        requires
            a2 == (p2.n * q2.d) * (p.d * q.d),
            b2 == (q2.n * p2.d) * (p.d * q.d),
    ;
}

/// Subtraction respects `r_eq` in both arguments.
pub proof fn lemma_sub_congr(p: Ratio, p2: Ratio, q: Ratio, q2: Ratio)
    requires
        p.d != 0,
        p2.d != 0,
        q.d != 0,
        q2.d != 0,
        r_eq(p, p2),
        r_eq(q, q2),
    ensures
        r_eq(r_sub(p, q), r_sub(p2, q2)),
{
    assert(r_eq(r_neg(q), r_neg(q2))) by (nonlinear_arith)
        requires
            q.n * q2.d == q2.n * q.d,
    ;
    lemma_add_congr(p, p2, r_neg(q), r_neg(q2));
    assert((-q.n) * p.d == -(q.n * p.d)) by (nonlinear_arith);
    assert((-q2.n) * p2.d == -(q2.n * p2.d)) by (nonlinear_arith);
    assert(r_add(p, r_neg(q)) == r_sub(p, q));
    assert(r_add(p2, r_neg(q2)) == r_sub(p2, q2));
}

/// Multiplication respects `r_eq` in both arguments.
pub proof fn lemma_mul_congr(p: Ratio, p2: Ratio, q: Ratio, q2: Ratio)
    requires
        p.d != 0,
        p2.d != 0,
        q.d != 0,
        q2.d != 0,
        r_eq(p, p2),
        r_eq(q, q2),
    ensures
        r_eq(r_mul(p, q), r_mul(p2, q2)),
{
    let a = (p.n * q.n) * (p2.d * q2.d);
    let b = (p.n * p2.d) * (q.n * q2.d);
    let b2 = (p2.n * p.d) * (q2.n * q.d);
    let a2 = (p2.n * q2.n) * (p.d * q.d);
    assert(a == b) by (nonlinear_arith)
        requires
            a == (p.n * q.n) * (p2.d * q2.d),
            b == (p.n * p2.d) * (q.n * q2.d),
    ;
    assert(b == b2) by (nonlinear_arith)
        requires
            b == (p.n * p2.d) * (q.n * q2.d),
            b2 == (p2.n * p.d) * (q2.n * q.d),
            p.n * p2.d == p2.n * p.d,
            q.n * q2.d == q2.n * q.d,
    ;
    assert(b2 == a2) by (nonlinear_arith)
        requires
            b2 == (p2.n * p.d) * (q2.n * q.d),
            a2 == (p2.n * q2.n) * (p.d * q.d),
    ;
}

/// A quotient minus itself is zero.
pub proof fn lemma_sub_self_zero(p: Ratio)
    ensures
        r_eq(r_sub(p, p), r_int(0)),
{
}

/// Scaling by a nonzero quotient and dividing by it again gives back the
/// original value.
pub proof fn lemma_mul_div_cancel(p: Ratio, s: Ratio)
    requires
        s.n != 0,
    ensures
        r_eq(r_div(r_mul(p, s), s), p),
{
    assert(((p.n * s.n) * s.d) * p.d == p.n * ((p.d * s.d) * s.n)) by (nonlinear_arith);
}

/// Cancel a common nonzero factor on both sides of an `r_eq`.
pub proof fn lemma_mul_cancel(c: Ratio, p: Ratio, q: Ratio)
    requires
        c.n != 0,
        c.d != 0,
        r_eq(r_mul(c, p), r_mul(c, q)),
    ensures
        r_eq(p, q),
{
    assert(p.n * q.d == q.n * p.d) by (nonlinear_arith)
        requires
            c.n != 0,
            c.d != 0,
            (c.n * p.n) * (c.d * q.d) == (c.n * q.n) * (c.d * p.d),
    ;
}

/// Subtracting a quotient and adding it back gives the original value.
pub proof fn lemma_add_sub_cancel(p: Ratio, q: Ratio)
    requires
        q.d != 0,
    ensures
        r_eq(r_add(r_sub(p, q), q), p),
{
    assert(((p.n * q.d - q.n * p.d) * q.d + q.n * (p.d * q.d)) * p.d == p.n * ((p.d * q.d)
        * q.d)) by (nonlinear_arith);
}

/// Multiplying by a value equal to one keeps the value.
pub proof fn lemma_mul_one(p: Ratio, q: Ratio)
    requires
        q.d != 0,
        r_eq(q, r_int(1)),
    ensures
        r_eq(r_mul(p, q), p),
{
    assert((p.n * q.n) * p.d == p.n * (p.d * q.d)) by (nonlinear_arith)
        requires
            q.n == q.d,
    ;
}

/// Multiplying by a value equal to zero gives zero.
pub proof fn lemma_mul_zero(p: Ratio, q: Ratio)
    requires
        r_eq(q, r_int(0)),
    ensures
        r_eq(r_mul(p, q), r_int(0)),
{
    assert(q.n == 0);
    assert(p.n * 0 == 0) by (nonlinear_arith);
}

/// Addition of quotients is commutative, as written.
pub proof fn lemma_add_comm(p: Ratio, q: Ratio)
    ensures
        r_add(p, q) == r_add(q, p),
{
    assert(p.d * q.d == q.d * p.d) by (nonlinear_arith);
}

/// Addition of quotients is associative, as written.
pub proof fn lemma_add_assoc(p: Ratio, q: Ratio, r: Ratio)
    ensures
        r_add(r_add(p, q), r) == r_add(p, r_add(q, r)),
{
    assert((p.n * q.d + q.n * p.d) * r.d == (p.n * q.d) * r.d + (q.n * p.d) * r.d)
        by (nonlinear_arith);
    assert((q.n * r.d + r.n * q.d) * p.d == (q.n * r.d) * p.d + (r.n * q.d) * p.d)
        by (nonlinear_arith);
    assert((q.n * p.d) * r.d == (q.n * r.d) * p.d) by (nonlinear_arith);
    assert(r.n * (p.d * q.d) == (r.n * q.d) * p.d) by (nonlinear_arith);
    assert(p.n * (q.d * r.d) == (p.n * q.d) * r.d) by (nonlinear_arith);
    assert((p.d * q.d) * r.d == p.d * (q.d * r.d)) by (nonlinear_arith);
}

/// Subtraction is addition of the negation, as written.
pub proof fn lemma_sub_is_add_neg(p: Ratio, q: Ratio)
    ensures
        r_sub(p, q) == r_add(p, r_neg(q)),
{
    assert(p.n * q.d - q.n * p.d == p.n * q.d + (-q.n) * p.d) by (nonlinear_arith);
}

/// Multiplication of quotients is commutative, as written.
pub proof fn lemma_mul_comm(p: Ratio, q: Ratio)
    ensures
        r_mul(p, q) == r_mul(q, p),
{
    assert(p.n * q.n == q.n * p.n && p.d * q.d == q.d * p.d) by (nonlinear_arith);
}

/// Multiplication of quotients is associative, as written.
pub proof fn lemma_mul_assoc(p: Ratio, q: Ratio, r: Ratio)
    ensures
        r_mul(r_mul(p, q), r) == r_mul(p, r_mul(q, r)),
{
    assert((p.n * q.n) * r.n == p.n * (q.n * r.n) && (p.d * q.d) * r.d == p.d * (q.d * r.d))
        by (nonlinear_arith);
}

/// A negation factors out of a product, as written.
pub proof fn lemma_mul_neg(p: Ratio, q: Ratio)
    ensures
        r_mul(p, r_neg(q)) == r_neg(r_mul(p, q)),
{
    assert(p.n * (-q.n) == -(p.n * q.n)) by (nonlinear_arith);
}

/// Adding a zero-valued quotient keeps the value.
pub proof fn lemma_add_zero(p: Ratio, z: Ratio)
    requires
        z.n == 0,
    ensures
        r_eq(r_add(p, z), p),
{
    assert((p.n * z.d + z.n * p.d) * p.d == p.n * (p.d * z.d)) by (nonlinear_arith)
        requires
            z.n == 0,
    ;
}

/// Sums, differences and products of quotients with nonzero denominators
/// have nonzero denominators.
pub proof fn lemma_ops_nz(p: Ratio, q: Ratio)
    requires
        p.d != 0,
        q.d != 0,
    ensures
        r_add(p, q).d != 0,
        r_sub(p, q).d != 0,
        r_mul(p, q).d != 0,
        r_neg(p).d != 0,
    {
    assert(p.d * q.d != 0) by (nonlinear_arith)
        requires
            p.d != 0,
            q.d != 0,
    ;
}

/// The sum of two negations is the negation of the sum, as written.
pub proof fn lemma_neg_add(p: Ratio, q: Ratio)
    ensures
        r_add(r_neg(p), r_neg(q)) == r_neg(r_add(p, q)),
{
    assert((-p.n) * q.d + (-q.n) * p.d == -(p.n * q.d + q.n * p.d)) by (nonlinear_arith);
}

/// Multiplication distributes over subtraction, up to `r_eq`.
pub proof fn lemma_mul_distrib_sub(s: Ratio, p: Ratio, q: Ratio)
    ensures
        r_eq(r_mul(s, r_sub(p, q)), r_sub(r_mul(s, p), r_mul(s, q))),
{
    lemma_sub_is_add_neg(p, q);
    lemma_mul_distrib(s, p, r_neg(q));
    lemma_mul_neg(s, q);
    lemma_sub_is_add_neg(r_mul(s, p), r_mul(s, q));
}

/// Multiplication distributes over addition, up to `r_eq`.
pub proof fn lemma_mul_distrib(s: Ratio, p: Ratio, q: Ratio)
    ensures
        r_eq(r_mul(s, r_add(p, q)), r_add(r_mul(s, p), r_mul(s, q))),
{
    let t1 = s.n * p.n;
    let t2 = s.n * q.n;
    let lhs_n = s.n * (p.n * q.d + q.n * p.d);
    let lhs_d = s.d * (p.d * q.d);
    let rhs_n = t1 * (s.d * q.d) + t2 * (s.d * p.d);
    let rhs_d = (s.d * p.d) * (s.d * q.d);
    assert(lhs_n == t1 * q.d + t2 * p.d) by (nonlinear_arith)
        requires
            t1 == s.n * p.n,
            t2 == s.n * q.n,
            lhs_n == s.n * (p.n * q.d + q.n * p.d),
    ;
    assert(lhs_n * rhs_d == (t1 * q.d) * rhs_d + (t2 * p.d) * rhs_d) by (nonlinear_arith)
        requires
            lhs_n == t1 * q.d + t2 * p.d,
    ;
    assert(rhs_n * lhs_d == (t1 * (s.d * q.d)) * lhs_d + (t2 * (s.d * p.d)) * lhs_d)
        by (nonlinear_arith)
        requires
            rhs_n == t1 * (s.d * q.d) + t2 * (s.d * p.d),
    ;
    assert((t1 * q.d) * rhs_d == (t1 * (s.d * q.d)) * lhs_d) by (nonlinear_arith)
        requires
            rhs_d == (s.d * p.d) * (s.d * q.d),
            lhs_d == s.d * (p.d * q.d),
    ;
    assert((t2 * p.d) * rhs_d == (t2 * (s.d * p.d)) * lhs_d) by (nonlinear_arith)
        requires
            rhs_d == (s.d * p.d) * (s.d * q.d),
            lhs_d == s.d * (p.d * q.d),
    ;
}

/// Bounds of the unreduced parts built from two valid scalars: every
/// product of two 64-bit parts, and every sum of two such products, stays
/// strictly inside the 128-bit range.
proof fn lemma_raw_bounds(p: Ratio, q: Ratio)
    requires
        fits(p),
        fits(q),
    ensures
        -(i128::MAX as int) <= p.n * q.d <= i128::MAX as int,
        -(i128::MAX as int) <= q.n * p.d <= i128::MAX as int,
        -(i128::MAX as int) <= p.n * q.n <= i128::MAX as int,
        -(i128::MAX as int) <= p.d * q.n <= i128::MAX as int,
        1 <= p.d * q.d <= i128::MAX as int,
        -(i128::MAX as int) <= p.n * q.d + q.n * p.d <= i128::MAX as int,
        -(i128::MAX as int) <= p.n * q.d - q.n * p.d <= i128::MAX as int,
{
    let m = i64::MAX as int;
    assert(-m * m <= p.n * q.d <= m * m) by (nonlinear_arith)
        requires
            -m <= p.n <= m,
            1 <= q.d <= m,
    ;
    assert(-m * m <= q.n * p.d <= m * m) by (nonlinear_arith)
        requires
            -m <= q.n <= m,
            1 <= p.d <= m,
    ;
    assert(-m * m <= p.n * q.n <= m * m) by (nonlinear_arith)
        requires
            -m <= p.n <= m,
            -m <= q.n <= m,
    ;
    assert(-m * m <= p.d * q.n <= m * m) by (nonlinear_arith)
        requires
            -m <= q.n <= m,
            1 <= p.d <= m,
    ;
    assert(1 <= p.d * q.d <= m * m) by (nonlinear_arith)
        requires
            1 <= p.d <= m,
            1 <= q.d <= m,
    ;
}

} // verus!
