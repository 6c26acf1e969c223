//! Integer routines: factorials, falling products, binomial coefficients,
//! binomial expansion, fast exponentiation, prime testing, factorization,
//! coprimality, Euler's totient and modular exponentiation.
//!
//! The routines are grouped in the [`Integer`] trait; the provided
//! implementation works on `u64` values.  Each contract is stated over the
//! spec-level recursions below.

use vstd::prelude::*;
use vstd::arithmetic::power::pow;
use vstd::arithmetic::div_mod::{
    lemma_div_multiples_vanish, lemma_mul_mod_noop_left, lemma_fundamental_div_mod,
    lemma_mod_multiples_basic, lemma_div_decreases, lemma_div_of0,
};

verus! {

/// `n!`, recursively.
pub open spec fn spec_factorial(n: nat) -> nat
    decreases n,
{
    if n == 0 {
        1
    } else {
        n * spec_factorial((n - 1) as nat)
    }
}

/// The falling product `n * (n-1) * ... * (n-k+1)`, the number of ordered
/// arrangements of `k` items out of `n`.
pub open spec fn spec_perm(n: nat, k: nat) -> nat
    decreases k,
{
    if k == 0 {
        1
    } else if n == 0 {
        0
    } else {
        n * spec_perm((n - 1) as nat, (k - 1) as nat)
    }
}

/// The binomial coefficient, by Pascal's recursion.
pub open spec fn spec_comb(n: nat, k: nat) -> nat
    decreases n,
{
    if k == 0 {
        1
    } else if k > n {
        0
    } else {
        spec_comb((n - 1) as nat, (k - 1) as nat) + spec_comb((n - 1) as nat, k)
    }
}

/// The product of the integers from `a` up to `b`; `1` on an empty range.
pub open spec fn spec_rising(a: nat, b: nat) -> nat
    decreases b,
{
    if a == 0 || b < a {
        1
    } else {
        spec_rising(a, (b - 1) as nat) * b
    }
}

/// Factorials are positive.
pub proof fn lemma_fact_pos(n: nat)
    ensures
        spec_factorial(n) >= 1,
    decreases n,
{
    if n > 0 {
        lemma_fact_pos((n - 1) as nat);
        assert(n * spec_factorial((n - 1) as nat) >= 1) by (nonlinear_arith)
            requires
                n >= 1,
                spec_factorial((n - 1) as nat) >= 1,
        ;
    }
}

/// Factorials grow with their argument.
pub proof fn lemma_fact_mono(i: nat, j: nat)
    requires
        i <= j,
    ensures
        spec_factorial(i) <= spec_factorial(j),
    decreases j,
{
    if i < j {
        lemma_fact_mono(i, (j - 1) as nat);
        lemma_fact_pos((j - 1) as nat);
        assert(spec_factorial((j - 1) as nat) <= j * spec_factorial((j - 1) as nat))
            by (nonlinear_arith)
            requires
                j >= 1,
                spec_factorial((j - 1) as nat) >= 1,
        ;
    }
}

/// Rising products are positive.
pub proof fn lemma_rising_pos(a: nat, b: nat)
    ensures
        spec_rising(a, b) >= 1,
    decreases b,
{
    if !(a == 0 || b < a) {
        lemma_rising_pos(a, (b - 1) as nat);
        assert(spec_rising(a, (b - 1) as nat) * b >= 1) by (nonlinear_arith)
            requires
                b >= 1,
                spec_rising(a, (b - 1) as nat) >= 1,
        ;
    }
}

/// Rising products grow with their upper bound.
pub proof fn lemma_rising_mono(a: nat, b: nat, c: nat)
    requires
        a >= 1,
        b <= c,
    ensures
        spec_rising(a, b) <= spec_rising(a, c),
    decreases c,
{
    if b < c {
        lemma_rising_mono(a, b, (c - 1) as nat);
        lemma_rising_pos(a, (c - 1) as nat);
        if c >= a {
            assert(spec_rising(a, (c - 1) as nat) <= spec_rising(a, (c - 1) as nat) * c)
                by (nonlinear_arith)
                requires
                    c >= 1,
                    spec_rising(a, (c - 1) as nat) >= 1,
            ;
        }
    }
}

/// The falling product is the rising product of the same range.
pub proof fn lemma_perm_rising(n: nat, k: nat)
    requires
        k <= n,
    ensures
        spec_perm(n, k) == spec_rising((n - k + 1) as nat, n),
    decreases k,
{
    if k == 0 {
    } else {
        lemma_perm_rising((n - 1) as nat, (k - 1) as nat);
        let a = (n - k + 1) as nat;
        assert(spec_rising(a, n) == spec_rising(a, (n - 1) as nat) * n);
        assert(n * spec_rising(a, (n - 1) as nat) == spec_rising(a, (n - 1) as nat) * n)
            by (nonlinear_arith)
        ;
    }
}

/// `perm(n, k) * (n - k)! == n!`.
pub proof fn lemma_perm_fact(n: nat, k: nat)
    requires
        k <= n,
    ensures
        spec_perm(n, k) * spec_factorial((n - k) as nat) == spec_factorial(n),
    decreases k,
{
    if k == 0 {
        assert(spec_perm(n, 0) == 1);
        assert(1 * spec_factorial(n) == spec_factorial(n));
    } else {
        lemma_perm_fact((n - 1) as nat, (k - 1) as nat);
        let p = spec_perm((n - 1) as nat, (k - 1) as nat);
        let f = spec_factorial((n - k) as nat);
        let fn1 = spec_factorial((n - 1) as nat);
        assert(p * f == fn1);
        assert(spec_perm(n, k) == n * p);
        assert(spec_factorial(n) == n * fn1);
        assert((n * p) * f == n * (p * f)) by (nonlinear_arith);
        assert(spec_perm(n, k) * f == (n * p) * f);
        assert(n * (p * f) == n * fn1);
    }
}

/// Arranging more items than are available is impossible: the falling
/// product is zero past the triangle.
pub proof fn lemma_perm_gt(n: nat, k: nat)
    requires
        k > n,
    ensures
        spec_perm(n, k) == 0,
    decreases k,
{
    if n > 0 {
        lemma_perm_gt((n - 1) as nat, (k - 1) as nat);
        assert(n * 0 == 0) by (nonlinear_arith);
    }
}

/// `comb(m, m) == 1`.
pub proof fn lemma_comb_diag(m: nat)
    ensures
        spec_comb(m, m) == 1,
    decreases m,
{
    if m > 0 {
        lemma_comb_diag((m - 1) as nat);
        assert(spec_comb((m - 1) as nat, m) == 0);
        assert(spec_comb(m, m) == spec_comb((m - 1) as nat, (m - 1) as nat) + spec_comb(
            (m - 1) as nat, m));
    }
}

/// Binomial coefficients are positive on their triangle.
pub proof fn lemma_comb_pos(n: nat, k: nat)
    requires
        k <= n,
    ensures
        spec_comb(n, k) >= 1,
    decreases n,
{
    if k == 0 {
    } else {
        lemma_comb_pos((n - 1) as nat, (k - 1) as nat);
    }
}

/// `comb(n, k) * k! * (n - k)! == n!`.
pub proof fn lemma_comb_fact(n: nat, k: nat)
    requires
        k <= n,
    ensures
        spec_comb(n, k) * spec_factorial(k) * spec_factorial((n - k) as nat)
            == spec_factorial(n),
    decreases n,
{
    if k == 0 {
        assert(1 * 1 * spec_factorial(n) == spec_factorial(n)) by (nonlinear_arith);
    } else if k == n {
        lemma_comb_diag(n);
        lemma_fact_pos(n);
        assert(1 * spec_factorial(n) * 1 == spec_factorial(n)) by (nonlinear_arith);
    } else {
        // 1 <= k <= n - 1
        let c1 = spec_comb((n - 1) as nat, (k - 1) as nat);
        let c2 = spec_comb((n - 1) as nat, k);
        lemma_comb_fact((n - 1) as nat, (k - 1) as nat);
        lemma_comb_fact((n - 1) as nat, k);
        let fk = spec_factorial(k);
        let fk1 = spec_factorial((k - 1) as nat);
        let fnk = spec_factorial((n - k) as nat);
        let fnk1 = spec_factorial((n - 1 - k) as nat);
        let fn1 = spec_factorial((n - 1) as nat);
        assert(fk == k * fk1);
        assert(fnk == (n - k) * fnk1);
        assert(c1 * fk * fnk == k * fn1) by (nonlinear_arith)
            requires
                fk == k * fk1,
                c1 * fk1 * fnk == fn1,
        ;
        assert(c2 * fk * fnk == (n - k) * fn1) by (nonlinear_arith)
            requires
                fnk == (n - k) * fnk1,
                c2 * fk * fnk1 == fn1,
        ;
        assert((c1 + c2) * fk * fnk == n * fn1) by (nonlinear_arith)
            requires
                c1 * fk * fnk == k * fn1,
                c2 * fk * fnk == (n - k) * fnk1 * 0 + (n - k) * fn1,
        ;
        assert(spec_factorial(n) == n * fn1);
    }
}

/// `perm(n, k) == comb(n, k) * k!`: the ordered count splits into choice
/// and arrangement.
pub proof fn lemma_perm_is_comb_fact(n: nat, k: nat)
    requires
        k <= n,
    ensures
        spec_perm(n, k) == spec_comb(n, k) * spec_factorial(k),
{
    lemma_perm_fact(n, k);
    lemma_comb_fact(n, k);
    lemma_fact_pos((n - k) as nat);
    assert(spec_perm(n, k) == spec_comb(n, k) * spec_factorial(k)) by (nonlinear_arith)
        requires
            spec_perm(n, k) * spec_factorial((n - k) as nat) == spec_factorial(n),
            spec_comb(n, k) * spec_factorial(k) * spec_factorial((n - k) as nat)
                == spec_factorial(n),
            spec_factorial((n - k) as nat) >= 1,
    ;
}

/// `b` to the power `e`, recursively.
pub open spec fn spec_pow(b: nat, e: nat) -> nat
    decreases e,
{
    if e == 0 {
        1
    } else {
        b * spec_pow(b, (e - 1) as nat)
    }
}

/// Powers of a positive base are positive.
pub proof fn lemma_pow_pos(b: nat, e: nat)
    requires
        b >= 1,
    ensures
        spec_pow(b, e) >= 1,
    decreases e,
{
    if e > 0 {
        lemma_pow_pos(b, (e - 1) as nat);
        assert(b * spec_pow(b, (e - 1) as nat) >= 1) by (nonlinear_arith)
            requires
                b >= 1,
                spec_pow(b, (e - 1) as nat) >= 1,
        ;
    }
}

/// Positive powers of zero are zero.
pub proof fn lemma_pow_zero_base(e: nat)
    requires
        e >= 1,
    ensures
        spec_pow(0, e) == 0,
{
    assert(0 * spec_pow(0, (e - 1) as nat) == 0) by (nonlinear_arith);
}

/// Powers add over a sum of exponents.
pub proof fn lemma_pow_add(b: nat, e1: nat, e2: nat)
    ensures
        spec_pow(b, e1 + e2) == spec_pow(b, e1) * spec_pow(b, e2),
    decreases e1,
{
    if e1 == 0 {
        assert(1 * spec_pow(b, e2) == spec_pow(b, e2)) by (nonlinear_arith);
    } else {
        lemma_pow_add(b, (e1 - 1) as nat, e2);
        assert(b * spec_pow(b, ((e1 - 1) + e2) as nat) == (b * spec_pow(b, (e1 - 1) as nat))
            * spec_pow(b, e2)) by (nonlinear_arith)
            requires
                spec_pow(b, ((e1 - 1) + e2) as nat) == spec_pow(b, (e1 - 1) as nat) * spec_pow(
                    b, e2),
        ;
        assert(spec_pow(b, e1 + e2) == b * spec_pow(b, (e1 + e2 - 1) as nat));
    }
}

/// An even power of `b` is the half power of `b * b`.
pub proof fn lemma_pow_square(b: nat, m: nat)
    ensures
        spec_pow(b, 2 * m) == spec_pow(b * b, m),
    decreases m,
{
    if m > 0 {
        lemma_pow_square(b, (m - 1) as nat);
        lemma_pow_add(b, 2, (2 * m - 2) as nat);
        assert(spec_pow(b, 0) == 1);
        assert(spec_pow(b, 1) == b * spec_pow(b, 0));
        assert(spec_pow(b, 2) == b * spec_pow(b, 1));
        assert(spec_pow(b, 2) == b * (b * 1));
        assert(spec_pow(b * b, m) == (b * b) * spec_pow(b * b, (m - 1) as nat));
        assert((b * (b * 1)) * spec_pow(b, (2 * m - 2) as nat) == (b * b) * spec_pow(b * b,
            (m - 1) as nat)) by (nonlinear_arith)
            requires
                spec_pow(b, (2 * m - 2) as nat) == spec_pow(b * b, (m - 1) as nat),
        ;
    }
}

/// Powers of a positive base grow with the exponent.
pub proof fn lemma_pow_mono(b: nat, e1: nat, e2: nat)
    requires
        b >= 1,
        e1 <= e2,
    ensures
        spec_pow(b, e1) <= spec_pow(b, e2),
    decreases e2,
{
    if e1 < e2 {
        lemma_pow_mono(b, e1, (e2 - 1) as nat);
        lemma_pow_pos(b, (e2 - 1) as nat);
        assert(spec_pow(b, (e2 - 1) as nat) <= b * spec_pow(b, (e2 - 1) as nat))
            by (nonlinear_arith)
            requires
                b >= 1,
                spec_pow(b, (e2 - 1) as nat) >= 1,
        ;
    }
}

/// One term of the binomial expansion of `(a + b)^n`.
pub open spec fn spec_binom_term(a: nat, b: nat, n: nat, k: nat) -> nat {
    spec_comb(n, k) * spec_pow(a, (n - k) as nat) * spec_pow(b, k)
}

/// The sum of the binomial-expansion terms with index below `j`.
pub open spec fn spec_binom_sum(a: nat, b: nat, n: nat, j: nat) -> nat
    decreases j,
{
    if j == 0 {
        0
    } else {
        spec_binom_sum(a, b, n, (j - 1) as nat) + spec_binom_term(a, b, n, (j - 1) as nat)
    }
}

/// The full binomial expansion of `(a + b)^n`.
pub open spec fn spec_binom(a: nat, b: nat, n: nat) -> nat {
    spec_binom_sum(a, b, n, n + 1)
}

/// Partial binomial sums grow with the number of terms.
pub proof fn lemma_binom_sum_mono(a: nat, b: nat, n: nat, j1: nat, j2: nat)
    requires
        j1 <= j2,
    ensures
        spec_binom_sum(a, b, n, j1) <= spec_binom_sum(a, b, n, j2),
    decreases j2,
{
    if j1 < j2 {
        lemma_binom_sum_mono(a, b, n, j1, (j2 - 1) as nat);
    }
}

/// Primality as trial division sees it: no divisor in `2 .. n`.  (By this
/// test `0`, `1` and `2` count as prime, matching the factorization below,
/// which stops on such values.)
pub open spec fn spec_prime(n: nat) -> bool {
    forall|i: nat| 2 <= i < n ==> #[trigger] (n % i) != 0
}

/// The first divisor of `n` that is at least `i`; `n` itself when no
/// proper divisor exists from `i` on.
pub open spec fn spec_sdiv_from(n: nat, i: nat) -> nat
    decreases n - i,
{
    if i >= n {
        n
    } else if n % i == 0 {
        i
    } else {
        spec_sdiv_from(n, i + 1)
    }
}

/// The smallest proper divisor of `n` (meaningful when `n` is composite).
pub open spec fn spec_sdiv(n: nat) -> nat {
    spec_sdiv_from(n, 2)
}

/// What the first-divisor search returns: a divisor below `n` with nothing
/// dividing `n` before it, or `n` itself when no proper divisor remains.
pub proof fn lemma_sdiv_from_props(n: nat, i: nat)
    requires
        2 <= i <= n,
    ensures
        i <= spec_sdiv_from(n, i) <= n,
        spec_sdiv_from(n, i) < n ==> n % spec_sdiv_from(n, i) == 0,
        spec_sdiv_from(n, i) == n ==> forall|j: nat| i <= j < n ==> #[trigger] (n % j) != 0,
        forall|j: nat| i <= j < spec_sdiv_from(n, i) ==> #[trigger] (n % j) != 0,
    decreases n - i,
{
    if i >= n {
    } else if n % i == 0 {
    } else {
        lemma_sdiv_from_props(n, i + 1);
    }
}

/// Divisibility is transitive.
proof fn lemma_divides_trans(j: nat, d: nat, n: nat)
    requires
        j >= 1,
        d >= 1,
        d % j == 0,
        n % d == 0,
    ensures
        n % j == 0,
{
    lemma_fundamental_div_mod(d as int, j as int);
    lemma_fundamental_div_mod(n as int, d as int);
    let q1 = d as int / j as int;
    let q2 = n as int / d as int;
    assert(d == j * q1);
    assert(n == d * q2);
    assert(n == (q1 * q2) * j) by (nonlinear_arith)
        requires
            d == j * q1,
            n == d * q2,
    ;
    lemma_mod_multiples_basic(q1 * q2, j as int);
}

/// A composite number has a smallest proper divisor, at least 2, and that
/// divisor is itself prime.
pub proof fn lemma_sdiv_props(n: nat)
    requires
        !spec_prime(n),
    ensures
        n > 2,
        2 <= spec_sdiv(n) < n,
        n % spec_sdiv(n) == 0,
        spec_prime(spec_sdiv(n)),
        forall|j: nat| 2 <= j < spec_sdiv(n) ==> #[trigger] (n % j) != 0,
{
    let w = choose|i: nat| 2 <= i < n && #[trigger] (n % i) == 0;
    assert(2 <= w < n && n % w == 0);
    assert(n > 2);
    lemma_sdiv_from_props(n, 2);
    let d = spec_sdiv(n);
    assert(d < n);
    // minimality makes the divisor prime: a factor of d would divide n
    // before d does
    assert forall|j: nat| 2 <= j < d implies #[trigger] (d % j) != 0 by {
        if d % j == 0 {
            lemma_divides_trans(j, d, n);
        }
    }
}

/// The sequence of prime factors of `n`, smallest first: the smallest
/// divisor, then the factors of the quotient; a prime (by the trial test
/// above) is its own factorization.
pub open spec fn spec_factors(n: nat) -> Seq<nat>
    decreases n,
    when n >= 0
    via spec_factors_decreases
{
    if spec_prime(n) {
        seq![n]
    } else {
        seq![spec_sdiv(n)] + spec_factors(n / spec_sdiv(n))
    }
}

#[via_fn]
proof fn spec_factors_decreases(n: nat) {
    if !spec_prime(n) {
        lemma_sdiv_props(n);
        lemma_div_decreases(n as int, spec_sdiv(n) as int);
    }
}

/// The product of a sequence of naturals.
pub open spec fn spec_prod(s: Seq<nat>) -> nat
    decreases s.len(),
{
    if s.len() == 0 {
        1
    } else {
        s[0] * spec_prod(s.drop_first())
    }
}

/// The factor sequence multiplies back to `n`, and every entry passes the
/// trial-division primality test.
pub proof fn lemma_factors_props(n: nat)
    ensures
        spec_prod(spec_factors(n)) == n,
        forall|i: int|
            0 <= i < spec_factors(n).len() ==> spec_prime(#[trigger] spec_factors(n)[i]),
    decreases n,
{
    if spec_prime(n) {
        let s = spec_factors(n);
        assert(s == seq![n]);
        assert(s.drop_first() =~= Seq::<nat>::empty());
        assert(spec_prod(Seq::<nat>::empty()) == 1);
        assert(spec_prod(s) == s[0] * spec_prod(s.drop_first()));
        assert(spec_prod(s) == n * 1);
        assert(n * 1 == n) by (nonlinear_arith);
    } else {
        lemma_sdiv_props(n);
        let d = spec_sdiv(n);
        let q = n / d;
        lemma_div_decreases(n as int, d as int);
        lemma_factors_props(q);
        let s = spec_factors(n);
        assert(s == seq![d] + spec_factors(q));
        assert(s.drop_first() =~= spec_factors(q));
        assert(s[0] == d);
        assert(spec_prod(s) == d * spec_prod(spec_factors(q)));
        lemma_fundamental_div_mod(n as int, d as int);
        assert(n == d * q);
        assert(spec_prod(s) == n);
        assert forall|i: int| 0 <= i < s.len() implies spec_prime(#[trigger] s[i]) by {
            if i == 0 {
            } else {
                assert(s[i] == spec_factors(q)[i - 1]);
            }
        }
    }
}

/// Coprimality as the factor lists see it: no value occurs in both
/// factorizations.
pub open spec fn spec_coprime(a: nat, b: nat) -> bool {
    !(exists|v: nat| spec_factors(a).contains(v) && spec_factors(b).contains(v))
}

/// The number of integers in `1 .. i` coprime to `n`.
pub open spec fn spec_phi_upto(n: nat, i: nat) -> nat
    decreases i,
{
    if i <= 1 {
        0
    } else {
        spec_phi_upto(n, (i - 1) as nat) + if spec_coprime(n, (i - 1) as nat) {
            1nat
        } else {
            0nat
        }
    }
}

/// Euler's totient under the factor-list notion of coprimality: how many
/// of `1 .. n` share no factor with `n`.
pub open spec fn spec_phi(n: nat) -> nat {
    spec_phi_upto(n, n)
}

/// The first proper divisor of a composite number, by trial division.
fn smallest_divisor(n: u64) -> (d: u64)
    requires
        !spec_prime(n as nat),
    ensures
        d as nat == spec_sdiv(n as nat),
        2 <= d < n,
        n % d == 0,
{
    proof {
        lemma_sdiv_props(n as nat);
    }
    let mut i: u64 = 2;
    while i < n
        invariant
            2 <= i <= n,
            !spec_prime(n as nat),
            forall|j: nat| 2 <= j < i ==> #[trigger] ((n as nat) % j) != 0,
        decreases n - i,
    {
        if n % i == 0 {
            proof {
                lemma_sdiv_props(n as nat);
                let d0 = spec_sdiv(n as nat);
                if d0 < i {
                    assert((n as nat) % d0 != 0);
                }
                if d0 > i {
                    assert((n as nat) % (i as nat) != 0);
                }
            }
            return i;
        }
        i = i + 1;
    }
    proof {
        lemma_sdiv_props(n as nat);
        // a composite number always has a proper divisor below itself
        assert(false);
    }
    n
}

/// Counting and number-theory routines on machine integers.
///
/// `as_nat` is the mathematical value of a machine integer and `max_nat`
/// the largest value the type can carry; each routine's contract is exact
/// whenever its mathematical result fits the type.
pub trait Integer: Sized {
    spec fn as_nat(self) -> nat;

    spec fn max_nat() -> nat;

    /// `self!`.
    fn factorial(self) -> (r: Self)
        requires
            spec_factorial(self.as_nat()) <= Self::max_nat(),
        ensures
            r.as_nat() == spec_factorial(self.as_nat()),
    ;

    /// The number of ordered arrangements of `k` out of `n` items, as the
    /// falling product `n * (n-1) * ... * (n-k+1)`; zero when `k > n`.
    fn permutations(n: Self, k: Self) -> (r: Self)
        requires
            k.as_nat() <= n.as_nat() ==> n.as_nat() - k.as_nat() + 1 <= Self::max_nat(),
            spec_perm(n.as_nat(), k.as_nat()) <= Self::max_nat(),
        ensures
            r.as_nat() == spec_perm(n.as_nat(), k.as_nat()),
    ;

    /// The binomial coefficient `n` choose `k`, computed as the falling
    /// product divided by `k!`; zero when `k > n`.
    fn combinations(n: Self, k: Self) -> (r: Self)
        requires
            k.as_nat() <= n.as_nat() ==> n.as_nat() - k.as_nat() + 1 <= Self::max_nat(),
            spec_perm(n.as_nat(), k.as_nat()) <= Self::max_nat(),
            k.as_nat() > n.as_nat() ==> spec_factorial(k.as_nat()) <= Self::max_nat(),
        ensures
            r.as_nat() == spec_comb(n.as_nat(), k.as_nat()),
    ;

    /// `self` to the power `exp`, by binary exponentiation.
    fn power(self, exp: Self) -> (r: Self)
        requires
            spec_pow(self.as_nat(), exp.as_nat()) <= Self::max_nat(),
        ensures
            r.as_nat() == spec_pow(self.as_nat(), exp.as_nat()),
    ;

    /// The binomial expansion of `(a + b)^n`, summed term by term.
    fn binomial(a: Self, b: Self, n: Self) -> (r: Self)
        requires
            n.as_nat() + 1 <= Self::max_nat(),
            forall|k: nat|
                k <= n.as_nat() ==> spec_perm(n.as_nat(), k) <= Self::max_nat(),
            forall|k: nat|
                k <= n.as_nat() ==> spec_pow(a.as_nat(), k) <= Self::max_nat(),
            forall|k: nat|
                k <= n.as_nat() ==> spec_pow(b.as_nat(), k) <= Self::max_nat(),
            forall|k: nat|
                k <= n.as_nat() ==> spec_comb(n.as_nat(), k) * spec_pow(
                    a.as_nat(),
                    (n.as_nat() - k) as nat,
                ) <= Self::max_nat(),
            forall|k: nat|
                k <= n.as_nat() ==> spec_binom_term(a.as_nat(), b.as_nat(), n.as_nat(), k)
                    <= Self::max_nat(),
            spec_binom(a.as_nat(), b.as_nat(), n.as_nat()) <= Self::max_nat(),
        ensures
            r.as_nat() == spec_binom(a.as_nat(), b.as_nat(), n.as_nat()),
    ;

    /// The prime factors of `self`, smallest first, multiplying back to
    /// `self`.
    fn factors(self) -> (res: Vec<Self>)
        ensures
            res@.map_values(|x: Self| x.as_nat()) == spec_factors(self.as_nat()),
            spec_prod(spec_factors(self.as_nat())) == self.as_nat(),
            forall|i: int|
                0 <= i < res@.len() ==> spec_prime(#[trigger] res@[i].as_nat()),
    ;

    /// Trial-division primality.
    fn is_prime(self) -> (r: bool)
        ensures
            r == spec_prime(self.as_nat()),
    ;

    /// Whether the factor lists of the two numbers share no entry.
    fn is_coprime(self, other: Self) -> (r: bool)
        ensures
            r == spec_coprime(self.as_nat(), other.as_nat()),
    ;

    /// Euler's totient: how many of `1 .. self` are coprime to `self`.
    fn phi(self) -> (r: usize)
        requires
            self.as_nat() <= usize::MAX,
        ensures
            r as nat == spec_phi(self.as_nat()),
    ;

    /// `self^e mod n`, by repeated modular multiplication.
    fn mod_exp(self, e: Self, n: Self) -> (r: Self)
        requires
            n.as_nat() >= 1,
            (n.as_nat() - 1) * self.as_nat() <= Self::max_nat(),
        ensures
            r.as_nat() == if e.as_nat() == 0 {
                1nat
            } else {
                spec_pow(self.as_nat(), e.as_nat()) % n.as_nat()
            },
    ;
}

impl Integer for u64 {
    open spec fn as_nat(self) -> nat {
        self as nat
    }

    open spec fn max_nat() -> nat {
        u64::MAX as nat
    }

    fn factorial(self) -> (r: u64) {
        let mut prod: u64 = 1;
        let mut v: u64 = 1;
        while v <= self
            invariant_except_break
                1 <= v,
                v <= self + 1,
                prod as nat == spec_factorial((v - 1) as nat),
                spec_factorial(self as nat) <= u64::MAX,
            ensures
                prod as nat == spec_factorial(self as nat),
            decreases self - v + 1,
        {
            proof {
                lemma_fact_mono(v as nat, self as nat);
                assert(spec_factorial(v as nat) == v * spec_factorial((v - 1) as nat));
                assert(prod * v == spec_factorial(v as nat)) by (nonlinear_arith)
                    requires
                        prod as nat == spec_factorial((v - 1) as nat),
                        spec_factorial(v as nat) == v * spec_factorial((v - 1) as nat),
                ;
            }
            prod = prod * v;
            if v == self {
                break ;
            }
            v = v + 1;
        }
        prod
    }

    fn permutations(n: u64, k: u64) -> (r: u64) {
        if k > n {
            proof {
                lemma_perm_gt(n as nat, k as nat);
            }
            return 0;
        }
        proof {
            lemma_perm_rising(n as nat, k as nat);
        }
        let a = n - k + 1;
        let mut prod: u64 = 1;
        let mut v: u64 = a;
        while v <= n
            invariant_except_break
                1 <= a,
                a <= v,
                v <= n + 1,
                a as nat == n - k + 1,
                prod as nat == spec_rising(a as nat, (v - 1) as nat),
                spec_rising(a as nat, n as nat) <= u64::MAX,
            ensures
                prod as nat == spec_rising(a as nat, n as nat),
            decreases n - v + 1,
        {
            proof {
                lemma_rising_mono(a as nat, v as nat, n as nat);
                assert(spec_rising(a as nat, v as nat) == spec_rising(a as nat, (v - 1) as nat)
                    * v);
                assert(prod * v == spec_rising(a as nat, v as nat)) by (nonlinear_arith)
                    requires
                        prod as nat == spec_rising(a as nat, (v - 1) as nat),
                        spec_rising(a as nat, v as nat) == spec_rising(a as nat, (v - 1) as nat)
                            * v,
                ;
            }
            prod = prod * v;
            if v == n {
                break ;
            }
            v = v + 1;
        }
        prod
    }

    fn combinations(n: u64, k: u64) -> (r: u64) {
        proof {
            if k <= n {
                lemma_perm_is_comb_fact(n as nat, k as nat);
                lemma_comb_pos(n as nat, k as nat);
                lemma_fact_pos(k as nat);
                // k! is at most the falling product, so the nested
                // factorial call stays in range
                assert(spec_factorial(k as nat) <= spec_comb(n as nat, k as nat)
                    * spec_factorial(k as nat)) by (nonlinear_arith)
                    requires
                        spec_comb(n as nat, k as nat) >= 1,
                        spec_factorial(k as nat) >= 1,
                ;
            }
        }
        let p = Self::permutations(n, k);
        let f = k.factorial();
        proof {
            lemma_fact_pos(k as nat);
            if k <= n {
                lemma_div_multiples_vanish(spec_comb(n as nat, k as nat) as int, f as int);
                assert(spec_comb(n as nat, k as nat) * spec_factorial(k as nat)
                    == spec_factorial(k as nat) * spec_comb(n as nat, k as nat))
                    by (nonlinear_arith);
            } else {
                lemma_perm_gt(n as nat, k as nat);
                lemma_div_of0(f as int);
            }
        }
        p / f
    }

    fn power(self, exp: u64) -> (r: u64) {
        let ghost p0 = spec_pow(self as nat, exp as nat);
        let mut base = self;
        let mut e = exp;
        let mut acc: u64 = 1;
        while e > 1
            invariant
                (acc as nat) * spec_pow(base as nat, e as nat) == p0,
                p0 <= u64::MAX,
                self == 0 ==> base == 0,
                self >= 1 ==> base >= 1 && acc >= 1,
            decreases e,
        {
            let ghost b0 = base as nat;
            let ghost e0 = e as nat;
            let ghost old_acc = acc as nat;
            if e % 2 == 1 {
                proof {
                    if base == 0 {
                        assert(acc * base == 0) by (nonlinear_arith)
                            requires
                                base == 0,
                        ;
                    } else {
                        lemma_pow_pos(b0, (e0 - 1) as nat);
                        assert(spec_pow(b0, e0) == b0 * spec_pow(b0, (e0 - 1) as nat));
                        assert(acc * base <= (acc as nat) * spec_pow(b0, e0)
                            && (acc as nat) * (base as nat) * spec_pow(b0, (e0 - 1) as nat)
                            == (acc as nat) * spec_pow(b0, e0)) by (nonlinear_arith)
                            requires
                                base >= 1,
                                acc >= 0,
                                spec_pow(b0, (e0 - 1) as nat) >= 1,
                                b0 == base as nat,
                                spec_pow(b0, e0) == b0 * spec_pow(b0, (e0 - 1) as nat),
                        ;
                    }
                }
                acc = acc * base;
                proof {
                    if self >= 1 {
                        assert(acc >= 1) by (nonlinear_arith)
                            requires
                                acc == old_acc * base,
                                old_acc >= 1,
                                base >= 1,
                        ;
                    }
                }
            }
            proof {
                // the remaining exponent is even: show it as 2 * (e0 / 2)
                if e % 2 == 1 {
                    assert((acc as nat) * spec_pow(b0, (e0 - 1) as nat) == p0);
                    assert((e0 - 1) as nat == 2 * (e0 / 2));
                } else {
                    assert(e0 == 2 * (e0 / 2));
                }
                lemma_pow_square(b0, e0 / 2);
                assert((acc as nat) * spec_pow(b0 * b0, e0 / 2) == p0);
                // base * base stays in range
                if base == 0 {
                    assert(base * base == 0) by (nonlinear_arith)
                        requires
                            base == 0,
                    ;
                } else {
                    lemma_pow_mono(b0, 1, e0 / 2);
                    assert(b0 * b0 >= 1) by (nonlinear_arith)
                        requires
                            b0 >= 1,
                    ;
                    lemma_pow_pos(b0 * b0, (e0 / 2 - 1) as nat);
                    assert(spec_pow(b0 * b0, e0 / 2) == (b0 * b0) * spec_pow(b0 * b0, (e0 / 2
                        - 1) as nat));
                    assert(b0 * b0 <= (acc as nat) * spec_pow(b0 * b0, e0 / 2))
                        by (nonlinear_arith)
                        requires
                            acc >= 1,
                            b0 >= 1,
                            spec_pow(b0 * b0, (e0 / 2 - 1) as nat) >= 1,
                            spec_pow(b0 * b0, e0 / 2) == (b0 * b0) * spec_pow(b0 * b0, (e0 / 2
                                - 1) as nat),
                    ;
                }
            }
            e = e / 2;
            base = base * base;
            proof {
                if self >= 1 {
                    assert(base >= 1) by (nonlinear_arith)
                        requires
                            base as nat == b0 * b0,
                            b0 >= 1,
                    ;
                }
            }
        }
        if e == 1 {
            proof {
                assert(spec_pow(base as nat, 1) == base as nat * spec_pow(base as nat, 0));
                assert((acc as nat) * (base as nat) == (acc as nat) * spec_pow(base as nat, 1))
                    by (nonlinear_arith)
                    requires
                        spec_pow(base as nat, 1) == base as nat * spec_pow(base as nat, 0),
                        spec_pow(base as nat, 0) == 1,
                ;
            }
            acc = acc * base;
        } else {
            proof {
                assert((acc as nat) * 1 == acc as nat) by (nonlinear_arith);
            }
        }
        acc
    }

    #[verifier::loop_isolation(false)]
    fn binomial(a: u64, b: u64, n: u64) -> (r: u64) {
        let ghost an = a as nat;
        let ghost bn = b as nat;
        let ghost nn = n as nat;
        let mut acc: u64 = 0;
        let mut k: u64 = 0;
        while k <= n
            invariant
                k <= n + 1,
                acc as nat == spec_binom_sum(an, bn, nn, k as nat),
            decreases n - k + 1,
        {
            proof {
                assert(spec_perm(nn, k as nat) <= u64::MAX);
                assert(spec_pow(an, (nn - k as nat) as nat) <= u64::MAX);
                assert(spec_pow(bn, k as nat) <= u64::MAX);
                assert(spec_comb(nn, k as nat) * spec_pow(an, (nn - k as nat) as nat)
                    <= u64::MAX);
                assert(spec_binom_term(an, bn, nn, k as nat) <= u64::MAX);
            }
            let c = Self::combinations(n, k);
            let pa = a.power(n - k);
            let pb = b.power(k);
            let t1 = c * pa;
            let t = t1 * pb;
            proof {
                assert(t as nat == spec_binom_term(an, bn, nn, k as nat));
                lemma_binom_sum_mono(an, bn, nn, (k + 1) as nat, nn + 1);
                assert(spec_binom_sum(an, bn, nn, (k + 1) as nat) == spec_binom_sum(an, bn, nn,
                    k as nat) + spec_binom_term(an, bn, nn, k as nat));
            }
            acc = acc + t;
            k = k + 1;
        }
        acc
    }

    fn is_prime(self) -> (r: bool) {
        let mut i: u64 = 2;
        while i < self
            invariant
                2 <= i,
                i <= self || i == 2,
                forall|j: nat| 2 <= j < i ==> #[trigger] (self as nat % j) != 0,
            decreases self - i,
        {
            if self % i == 0 {
                proof {
                    assert(self as nat % (i as nat) == 0);
                }
                return false;
            }
            i = i + 1;
        }
        true
    }

    fn factors(self) -> (res: Vec<u64>) {
        let mut n = self;
        let mut res: Vec<u64> = Vec::new();
        proof {
            assert(res@.map_values(|x: u64| x as nat) =~= Seq::<nat>::empty());
        }
        loop
            invariant_except_break
                spec_factors(self as nat) == res@.map_values(|x: u64| x as nat)
                    + spec_factors(n as nat),
            ensures
                spec_factors(self as nat) == res@.map_values(|x: u64| x as nat)
                    + spec_factors(n as nat),
                spec_prime(n as nat),
            decreases n,
        {
            if n.is_prime() {
                break ;
            }
            let ghost n0 = n as nat;
            let ghost res0 = res@;
            proof {
                lemma_sdiv_props(n0);
                lemma_div_decreases(n0 as int, spec_sdiv(n0) as int);
            }
            let d = smallest_divisor(n);
            n = n / d;
            res.push(d);
            proof {
                assert(spec_factors(n0) == seq![d as nat] + spec_factors(n as nat));
                assert(res@ == res0.push(d));
                assert(res@.map_values(|x: u64| x as nat) =~= res0.map_values(
                    |x: u64| x as nat).push(d as nat));
                assert(res0.map_values(|x: u64| x as nat).push(d as nat) + spec_factors(
                    n as nat) =~= res0.map_values(|x: u64| x as nat) + (seq![d as nat]
                    + spec_factors(n as nat)));
            }
        }
        let ghost resb = res@;
        res.push(n);
        proof {
            assert(spec_factors(n as nat) == seq![n as nat]);
            assert(res@.map_values(|x: u64| x as nat) =~= resb.map_values(|x: u64| x as nat)
                + seq![n as nat]);
            lemma_factors_props(self as nat);
            assert forall|i: int| 0 <= i < res@.len() implies spec_prime(
                #[trigger] res@[i] as nat) by {
                assert(res@.map_values(|x: u64| x as nat)[i] == res@[i] as nat);
                assert(spec_prime(spec_factors(self as nat)[i]));
            }
        }
        res
    }

    fn is_coprime(self, other: u64) -> (r: bool) {
        let fa = self.factors();
        let fb = other.factors();
        let ghost sa = spec_factors(self as nat);
        let ghost sb = spec_factors(other as nat);
        let mut i: usize = 0;
        while i < fa.len()
            invariant
                i <= fa@.len(),
                sa == spec_factors(self as nat),
                sb == spec_factors(other as nat),
                fa@.map_values(|x: u64| x as nat) == sa,
                fb@.map_values(|x: u64| x as nat) == sb,
                forall|ii: int, jj: int|
                    0 <= ii < i && 0 <= jj < fb@.len() ==> #[trigger] fa@[ii] != #[trigger] fb@[jj],
            decreases fa@.len() - i,
        {
            let mut j: usize = 0;
            while j < fb.len()
                invariant
                    i < fa@.len(),
                    j <= fb@.len(),
                    sa == spec_factors(self as nat),
                    sb == spec_factors(other as nat),
                    fa@.map_values(|x: u64| x as nat) == sa,
                    fb@.map_values(|x: u64| x as nat) == sb,
                    forall|jj: int| 0 <= jj < j ==> fa@[i as int] != #[trigger] fb@[jj],
                decreases fb@.len() - j,
            {
                if fa[i] == fb[j] {
                    proof {
                        let v = fa@[i as int] as nat;
                        assert(sa[i as int] == v);
                        assert(sa.contains(v));
                        assert(sb[j as int] == v);
                        assert(sb.contains(v));
                        assert(spec_factors(self as nat).contains(v) && spec_factors(
                            other as nat).contains(v));
                        assert(!spec_coprime(self as nat, other as nat));
                    }
                    return false;
                }
                j = j + 1;
            }
            i = i + 1;
        }
        proof {
            if !spec_coprime(self as nat, other as nat) {
                let v = choose|v: nat| sa.contains(v) && sb.contains(v);
                let ii = choose|ii: int| 0 <= ii < sa.len() && sa[ii] == v;
                let jj = choose|jj: int| 0 <= jj < sb.len() && sb[jj] == v;
                assert(fa@[ii] as nat == v && fb@[jj] as nat == v);
                assert(fa@[ii] == fb@[jj]);
            }
        }
        true
    }

    fn phi(self) -> (r: usize) {
        let mut count: usize = 0;
        let mut k: u64 = 1;
        while k < self
            invariant
                1 <= k,
                self >= 1 ==> k <= self,
                self == 0 ==> k == 1,
                self as nat <= usize::MAX,
                count <= k - 1,
                count as nat == spec_phi_upto(self as nat, k as nat),
            decreases self - k,
        {
            if self.is_coprime(k) {
                count = count + 1;
            }
            proof {
                assert(spec_phi_upto(self as nat, (k + 1) as nat) == spec_phi_upto(
                    self as nat, k as nat) + if spec_coprime(self as nat, k as nat) {
                    1nat
                } else {
                    0nat
                });
            }
            k = k + 1;
        }
        proof {
            if self == 0 || self == 1 {
                assert(spec_phi_upto(self as nat, self as nat) == 0);
                assert(spec_phi_upto(self as nat, k as nat) == 0);
            }
        }
        count
    }

    fn mod_exp(self, e: u64, n: u64) -> (r: u64) {
        let ghost bn = self as nat;
        let ghost nn = n as nat;
        let mut acc: u64 = 1;
        let mut i: u64 = 0;
        while i < e
            invariant
                i <= e,
                n >= 1,
                bn == self as nat,
                nn == n as nat,
                (nn - 1) * bn <= u64::MAX,
                i == 0 ==> acc == 1,
                i >= 1 ==> acc as nat == spec_pow(bn, i as nat) % nn,
                i >= 1 ==> acc < n,
            decreases e - i,
        {
            proof {
                if i == 0 {
                    assert(acc * self <= u64::MAX) by (nonlinear_arith)
                        requires
                            acc == 1,
                            self <= u64::MAX,
                    ;
                } else {
                    assert(acc * self <= (nn - 1) * bn) by (nonlinear_arith)
                        requires
                            acc as int <= nn - 1,
                            bn == self as nat,
                            bn >= 0,
                            acc >= 0,
                    ;
                }
            }
            let ghost old_acc = acc as nat;
            let t = acc * self;
            acc = t % n;
            proof {
                if i == 0 {
                    assert(t as nat == bn) by (nonlinear_arith)
                        requires
                            t as nat == old_acc * bn,
                            old_acc == 1,
                    ;
                    assert(spec_pow(bn, 1) == bn * spec_pow(bn, 0));
                    assert(bn * 1 == bn) by (nonlinear_arith);
                    assert(acc as nat == spec_pow(bn, 1) % nn);
                } else {
                    lemma_mul_mod_noop_left(spec_pow(bn, i as nat) as int, bn as int, nn as int);
                    assert(spec_pow(bn, (i + 1) as nat) == bn * spec_pow(bn, i as nat));
                    assert(t as nat == (spec_pow(bn, i as nat) % nn) * bn) by (nonlinear_arith)
                        requires
                            t as nat == old_acc * bn,
                            old_acc == spec_pow(bn, i as nat) % nn,
                    ;
                    assert(spec_pow(bn, i as nat) * bn == bn * spec_pow(bn, i as nat))
                        by (nonlinear_arith);
                }
            }
            i = i + 1;
        }
        acc
    }
}

} // verus!
