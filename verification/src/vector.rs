//! Fixed-length vectors of exact rational scalars.
//!
//! A vector's mathematical value is a sequence of [`Ratio`] quotients;
//! component-wise operations state exactly which reduced quotient each
//! resulting component holds.

use vstd::prelude::*;
use crate::rational::{
    Rat, Ratio, r_int, r_add, r_sub, r_mul, r_div, r_neg, r_eq, r_is_zero, fits, cadd, csub,
    cmul, cdiv, canon, lemma_canon_r_eq, lemma_r_eq_trans, lemma_sub_self_zero,
    lemma_mul_div_cancel, lemma_mul_congr, lemma_ops_pos,
};

verus! {

/// Every quotient of the sequence can be carried by a `Rat`.
pub open spec fn all_fit(s: Seq<Ratio>) -> bool {
    forall|i: int| 0 <= i < s.len() ==> fits(#[trigger] s[i])
}

/// Pointwise equality of rational values.
pub open spec fn vec_req(a: Seq<Ratio>, b: Seq<Ratio>) -> bool {
    a.len() == b.len() && forall|i: int| 0 <= i < a.len() ==> r_eq(#[trigger] a[i], b[i])
}

/// The all-zero sequence.
pub open spec fn vec_zero(n: nat) -> Seq<Ratio> {
    Seq::new(n, |i: int| r_int(0))
}

/// Pointwise exact sum.
pub open spec fn vec_add(a: Seq<Ratio>, b: Seq<Ratio>) -> Seq<Ratio> {
    Seq::new(a.len(), |i: int| r_add(a[i], b[i]))
}

/// Pointwise exact difference.
pub open spec fn vec_sub(a: Seq<Ratio>, b: Seq<Ratio>) -> Seq<Ratio> {
    Seq::new(a.len(), |i: int| r_sub(a[i], b[i]))
}

/// Pointwise exact negation.
pub open spec fn vec_neg(a: Seq<Ratio>) -> Seq<Ratio> {
    Seq::new(a.len(), |i: int| r_neg(a[i]))
}

/// Every component scaled by `s`.
pub open spec fn vec_scale(s: Ratio, a: Seq<Ratio>) -> Seq<Ratio> {
    Seq::new(a.len(), |i: int| r_mul(a[i], s))
}

/// Every component divided by `s`.
pub open spec fn vec_div(a: Seq<Ratio>, s: Ratio) -> Seq<Ratio> {
    Seq::new(a.len(), |i: int| r_div(a[i], s))
}

/// Pointwise reduced sum, as the executable addition produces it.
pub open spec fn cvec_add(a: Seq<Ratio>, b: Seq<Ratio>) -> Seq<Ratio> {
    Seq::new(a.len(), |i: int| cadd(a[i], b[i]))
}

/// Pointwise reduced difference.
pub open spec fn cvec_sub(a: Seq<Ratio>, b: Seq<Ratio>) -> Seq<Ratio> {
    Seq::new(a.len(), |i: int| csub(a[i], b[i]))
}

/// Pointwise reduced scaling.
pub open spec fn cvec_scale(s: Ratio, a: Seq<Ratio>) -> Seq<Ratio> {
    Seq::new(a.len(), |i: int| cmul(a[i], s))
}

/// Pointwise reduced division.
pub open spec fn cvec_div(a: Seq<Ratio>, s: Ratio) -> Seq<Ratio> {
    Seq::new(a.len(), |i: int| cdiv(a[i], s))
}

/// A fixed-length vector of exact rational components.
#[derive(Debug)]
pub struct Vector {
    components: Vec<Rat>,
}

impl View for Vector {
    type V = Seq<Ratio>;

    closed spec fn view(&self) -> Seq<Ratio> {
        self.components@.map_values(|r: Rat| r@)
    }
}

impl Clone for Vector {
    /// Clones keep the components.
    fn clone(&self) -> (r: Vector)
        ensures
            r@ == self@,
    {
        let mut c: Vec<Rat> = Vec::new();
        let mut i: usize = 0;
        while i < self.components.len()
            invariant
                i <= self.components@.len(),
                c@.len() == i,
                forall|j: int| 0 <= j < i ==> c@[j] == self.components@[j],
            decreases self.components@.len() - i,
        {
            c.push(self.components[i]);
            i = i + 1;
        }
        let r = Vector { components: c };
        proof {
            assert(r@ =~= self@);
        }
        r
    }
}

impl Vector {
    /// Every component is a well-formed reduced scalar.
    pub open spec fn valid(self) -> bool {
        all_fit(self@)
    }

    /// Build a vector from its component list.
    pub fn new(components: Vec<Rat>) -> (r: Vector)
        requires
            forall|i: int| 0 <= i < components@.len() ==> (#[trigger] components@[i]).valid(),
        ensures
            r@ == components@.map_values(|x: Rat| x@),
            r@.len() == components@.len(),
            forall|i: int| 0 <= i < components@.len() ==> r@[i] == components@[i]@,
            r.valid(),
    {
        let r = Vector { components };
        proof {
            assert(forall|i: int| 0 <= i < r@.len() ==> fits(#[trigger] r@[i]));
        }
        r
    }

    /// The zero vector of the given length.
    pub fn zero(n: usize) -> (r: Vector)
        ensures
            r@ == vec_zero(n as nat),
            r.valid(),
    {
        let mut c: Vec<Rat> = Vec::new();
        let mut i: usize = 0;
        while i < n
            invariant
                i <= n,
                c@.len() == i,
                forall|j: int| 0 <= j < i ==> c@[j]@ == r_int(0) && (#[trigger] c@[j]).valid(),
            decreases n - i,
        {
            c.push(Rat::zero());
            i = i + 1;
        }
        let r = Vector { components: c };
        proof {
            assert(r@ =~= vec_zero(n as nat));
        }
        r
    }

    /// The number of components.
    pub fn len(&self) -> (r: usize)
        ensures
            r == self@.len(),
    {
        self.components.len()
    }

    /// The component at position `i`.
    pub fn get(&self, i: usize) -> (r: Rat)
        requires
            i < self@.len(),
        ensures
            r@ == self@[i as int],
            self.valid() ==> r.valid(),
    {
        self.components[i]
    }

    /// Replace the component at position `i`.
    pub fn set(&mut self, i: usize, v: Rat)
        requires
            i < old(self)@.len(),
            v.valid(),
        ensures
            final(self)@ == old(self)@.update(i as int, v@),
            old(self).valid() ==> final(self).valid(),
    {
        self.components[i] = v;
        proof {
            assert(self@ =~= old(self)@.update(i as int, v@));
        }
    }

    /// The first component.
    pub fn x(&self) -> (r: Rat)
        requires
            self@.len() >= 1,
        ensures
            r@ == self@[0],
            self.valid() ==> r.valid(),
    {
        self.get(0)
    }

    /// The second component.
    pub fn y(&self) -> (r: Rat)
        requires
            self@.len() >= 2,
        ensures
            r@ == self@[1],
            self.valid() ==> r.valid(),
    {
        self.get(1)
    }

    /// The third component.
    pub fn z(&self) -> (r: Rat)
        requires
            self@.len() >= 3,
        ensures
            r@ == self@[2],
            self.valid() ==> r.valid(),
    {
        self.get(2)
    }

    /// The fourth component.
    pub fn w(&self) -> (r: Rat)
        requires
            self@.len() >= 4,
        ensures
            r@ == self@[3],
            self.valid() ==> r.valid(),
    {
        self.get(3)
    }

    /// The first component, read as a red channel.
    pub fn r(&self) -> (r: Rat)
        requires
            self@.len() >= 1,
        ensures
            r@ == self@[0],
            self.valid() ==> r.valid(),
    {
        self.get(0)
    }

    /// The second component, read as a green channel.
    pub fn g(&self) -> (r: Rat)
        requires
            self@.len() >= 2,
        ensures
            r@ == self@[1],
            self.valid() ==> r.valid(),
    {
        self.get(1)
    }

    /// The third component, read as a blue channel.
    pub fn b(&self) -> (r: Rat)
        requires
            self@.len() >= 3,
        ensures
            r@ == self@[2],
            self.valid() ==> r.valid(),
    {
        self.get(2)
    }

    /// The fourth component, read as an alpha channel.
    pub fn a(&self) -> (r: Rat)
        requires
            self@.len() >= 4,
        ensures
            r@ == self@[3],
            self.valid() ==> r.valid(),
    {
        self.get(3)
    }

    /// Component-wise negation; exact and always representable.
    pub fn neg(&self) -> (r: Vector)
        requires
            self.valid(),
        ensures
            r@ == vec_neg(self@),
            r.valid(),
    {
        let mut c: Vec<Rat> = Vec::new();
        let mut i: usize = 0;
        while i < self.components.len()
            invariant
                i <= self@.len(),
                self.valid(),
                c@.len() == i,
                forall|j: int|
                    0 <= j < i ==> c@[j]@ == r_neg(self@[j]) && (#[trigger] c@[j]).valid(),
            decreases self@.len() - i,
        {
            let v = self.get(i);
            c.push(v.neg());
            i = i + 1;
        }
        let r = Vector { components: c };
        proof {
            assert(r@ =~= vec_neg(self@));
        }
        r
    }

    /// Component-wise sum; the caller must know that each reduced sum
    /// fits.
    pub fn add(&self, other: &Vector) -> (r: Vector)
        requires
            self.valid(),
            other.valid(),
            self@.len() == other@.len(),
            forall|i: int| 0 <= i < self@.len() ==> fits(#[trigger] cadd(self@[i], other@[i])),
        ensures
            r@ == cvec_add(self@, other@),
            r.valid(),
    {
        let mut c: Vec<Rat> = Vec::new();
        let mut i: usize = 0;
        while i < self.components.len()
            invariant
                i <= self@.len(),
                self.valid(),
                other.valid(),
                self@.len() == other@.len(),
                forall|j: int|
                    0 <= j < self@.len() ==> fits(#[trigger] cadd(self@[j], other@[j])),
                c@.len() == i,
                forall|j: int|
                    0 <= j < i ==> c@[j]@ == cadd(self@[j], other@[j]) && (
                    #[trigger] c@[j]).valid(),
            decreases self@.len() - i,
        {
            let v = self.get(i).add(other.get(i));
            c.push(v);
            i = i + 1;
        }
        let r = Vector { components: c };
        proof {
            assert(r@ =~= cvec_add(self@, other@));
        }
        r
    }

    /// Component-wise difference; the caller must know that each reduced
    /// difference fits.
    pub fn sub(&self, other: &Vector) -> (r: Vector)
        requires
            self.valid(),
            other.valid(),
            self@.len() == other@.len(),
            forall|i: int| 0 <= i < self@.len() ==> fits(#[trigger] csub(self@[i], other@[i])),
        ensures
            r@ == cvec_sub(self@, other@),
            r.valid(),
    {
        let mut c: Vec<Rat> = Vec::new();
        let mut i: usize = 0;
        while i < self.components.len()
            invariant
                i <= self@.len(),
                self.valid(),
                other.valid(),
                self@.len() == other@.len(),
                forall|j: int|
                    0 <= j < self@.len() ==> fits(#[trigger] csub(self@[j], other@[j])),
                c@.len() == i,
                forall|j: int|
                    0 <= j < i ==> c@[j]@ == csub(self@[j], other@[j]) && (
                    #[trigger] c@[j]).valid(),
            decreases self@.len() - i,
        {
            let v = self.get(i).sub(other.get(i));
            c.push(v);
            i = i + 1;
        }
        let r = Vector { components: c };
        proof {
            assert(r@ =~= cvec_sub(self@, other@));
        }
        r
    }

    /// Every component scaled by `s`; the caller must know that each
    /// reduced product fits.
    pub fn mul(&self, s: Rat) -> (r: Vector)
        requires
            self.valid(),
            s.valid(),
            forall|i: int| 0 <= i < self@.len() ==> fits(#[trigger] cmul(self@[i], s@)),
        ensures
            r@ == cvec_scale(s@, self@),
            r.valid(),
    {
        let mut c: Vec<Rat> = Vec::new();
        let mut i: usize = 0;
        while i < self.components.len()
            invariant
                i <= self@.len(),
                self.valid(),
                s.valid(),
                forall|j: int| 0 <= j < self@.len() ==> fits(#[trigger] cmul(self@[j], s@)),
                c@.len() == i,
                forall|j: int|
                    0 <= j < i ==> c@[j]@ == cmul(self@[j], s@) && (#[trigger] c@[j]).valid(),
            decreases self@.len() - i,
        {
            let v = self.get(i).mul(s);
            c.push(v);
            i = i + 1;
        }
        let r = Vector { components: c };
        proof {
            assert(r@ =~= cvec_scale(s@, self@));
        }
        r
    }

    /// Every component divided by the nonzero scalar `s`; the caller must
    /// know that each reduced quotient fits.
    pub fn div(&self, s: Rat) -> (r: Vector)
        requires
            self.valid(),
            s.valid(),
            !r_is_zero(s@),
            forall|i: int| 0 <= i < self@.len() ==> fits(#[trigger] cdiv(self@[i], s@)),
        ensures
            r@ == cvec_div(self@, s@),
            r.valid(),
    {
        match self.checked_div(s) {
            Some(r) => r,
            None => {
                proof {
                    assert(false);
                }
                Vector { components: Vec::new() }
            },
        }
    }

    /// Every component divided by the nonzero scalar `s`, or `None` as
    /// soon as one reduced quotient does not fit.
    pub fn checked_div(&self, s: Rat) -> (r: Option<Vector>)
        requires
            self.valid(),
            s.valid(),
            !r_is_zero(s@),
        ensures
            r is Some <==> forall|i: int|
                0 <= i < self@.len() ==> fits(#[trigger] cdiv(self@[i], s@)),
            r is Some ==> r->Some_0@ == cvec_div(self@, s@) && r->Some_0.valid(),
    {
        let mut c: Vec<Rat> = Vec::new();
        let mut i: usize = 0;
        while i < self.components.len()
            invariant
                i <= self@.len(),
                self.valid(),
                s.valid(),
                !r_is_zero(s@),
                c@.len() == i,
                forall|j: int| 0 <= j < i ==> fits(#[trigger] cdiv(self@[j], s@)),
                forall|j: int|
                    0 <= j < i ==> c@[j]@ == cdiv(self@[j], s@) && (#[trigger] c@[j]).valid(),
            decreases self@.len() - i,
        {
            match self.get(i).checked_div(s) {
                Some(v) => {
                    c.push(v);
                },
                None => {
                    return None;
                },
            }
            i = i + 1;
        }
        let r = Vector { components: c };
        proof {
            assert(r@ =~= cvec_div(self@, s@));
        }
        Some(r)
    }

    /// In-place component-wise sum.
    pub fn add_assign(&mut self, other: &Vector)
        requires
            old(self).valid(),
            other.valid(),
            old(self)@.len() == other@.len(),
            forall|i: int|
                0 <= i < old(self)@.len() ==> fits(#[trigger] cadd(old(self)@[i], other@[i])),
        ensures
            final(self)@ == cvec_add(old(self)@, other@),
            final(self).valid(),
    {
        let r = self.add(other);
        *self = r;
    }

    /// In-place component-wise difference.
    pub fn sub_assign(&mut self, other: &Vector)
        requires
            old(self).valid(),
            other.valid(),
            old(self)@.len() == other@.len(),
            forall|i: int|
                0 <= i < old(self)@.len() ==> fits(#[trigger] csub(old(self)@[i], other@[i])),
        ensures
            final(self)@ == cvec_sub(old(self)@, other@),
            final(self).valid(),
    {
        let r = self.sub(other);
        *self = r;
    }

    /// In-place scaling.
    pub fn mul_assign(&mut self, s: Rat)
        requires
            old(self).valid(),
            s.valid(),
            forall|i: int| 0 <= i < old(self)@.len() ==> fits(#[trigger] cmul(old(self)@[i], s@)),
        ensures
            final(self)@ == cvec_scale(s@, old(self)@),
            final(self).valid(),
    {
        let r = self.mul(s);
        *self = r;
    }

    /// In-place division by a nonzero scalar.
    pub fn div_assign(&mut self, s: Rat)
        requires
            old(self).valid(),
            s.valid(),
            !r_is_zero(s@),
            forall|i: int| 0 <= i < old(self)@.len() ==> fits(#[trigger] cdiv(old(self)@[i], s@)),
        ensures
            final(self)@ == cvec_div(old(self)@, s@),
            final(self).valid(),
    {
        let r = self.div(s);
        *self = r;
    }

    /// The squared Euclidean magnitude: the exact sum of the squares of
    /// the components.  The caller must know that every reduced step of
    /// that sum fits.
    pub fn mag_sq(&self) -> (r: Rat)
        requires
            self.valid(),
            crate::matrix::c_dot_fits(self@, self@, self@.len()),
        ensures
            r@ == crate::matrix::c_dot(self@, self@, self@.len()),
            r_eq(r@, crate::matrix::r_dot(self@, self@, self@.len())),
            r.valid(),
    {
        let mut acc = Rat::zero();
        let mut k: usize = 0;
        let n = self.components.len();
        while k < n
            invariant
                k <= n,
                n == self@.len(),
                self.valid(),
                crate::matrix::c_dot_fits(self@, self@, self@.len()),
                acc@ == crate::matrix::c_dot(self@, self@, k as nat),
                acc.valid(),
            decreases n - k,
        {
            proof {
                crate::matrix::lemma_cdot_fits_prefix(self@, self@, (k + 1) as nat, self@.len());
            }
            let v = self.get(k);
            let t = v.mul(v);
            acc = acc.add(t);
            k = k + 1;
        }
        proof {
            crate::matrix::lemma_cdot_eq(self@, self@, self@.len());
        }
        acc
    }

    /// The squared magnitude, or `None` as soon as a reduced step of the
    /// sum of squares does not fit; callers that cannot show the bound up
    /// front use this and test the outcome.
    pub fn checked_mag_sq(&self) -> (r: Option<Rat>)
        requires
            self.valid(),
        ensures
            r is Some <==> crate::matrix::c_dot_fits(self@, self@, self@.len()),
            r is Some ==> r->Some_0@ == crate::matrix::c_dot(self@, self@, self@.len()),
            r is Some ==> r_eq(r->Some_0@, crate::matrix::r_dot(self@, self@, self@.len())),
            r is Some ==> r->Some_0.valid(),
    {
        let mut acc = Rat::zero();
        let mut k: usize = 0;
        let n = self.components.len();
        while k < n
            invariant
                k <= n,
                n == self@.len(),
                self.valid(),
                crate::matrix::c_dot_fits(self@, self@, k as nat),
                acc@ == crate::matrix::c_dot(self@, self@, k as nat),
                acc.valid(),
            decreases n - k,
        {
            let v = self.get(k);
            let t = match v.checked_mul(v) {
                Some(t) => t,
                None => {
                    proof {
                        if crate::matrix::c_dot_fits(self@, self@, self@.len()) {
                            crate::matrix::lemma_cdot_fits_prefix(
                                self@,
                                self@,
                                (k + 1) as nat,
                                self@.len(),
                            );
                        }
                    }
                    return None;
                },
            };
            let acc2 = match acc.checked_add(t) {
                Some(a) => a,
                None => {
                    proof {
                        if crate::matrix::c_dot_fits(self@, self@, self@.len()) {
                            crate::matrix::lemma_cdot_fits_prefix(
                                self@,
                                self@,
                                (k + 1) as nat,
                                self@.len(),
                            );
                        }
                    }
                    return None;
                },
            };
            acc = acc2;
            k = k + 1;
        }
        proof {
            crate::matrix::lemma_cdot_eq(self@, self@, self@.len());
        }
        Some(acc)
    }

    /// `self - c * other`, component-wise with reduced intermediate
    /// values, or `None` as soon as one of them does not fit.
    pub fn checked_sub_scaled(&self, other: &Vector, k: Rat) -> (r: Option<Vector>)
        requires
            self.valid(),
            other.valid(),
            k.valid(),
            self@.len() == other@.len(),
        ensures
            r is Some <==> forall|i: int|
                0 <= i < self@.len() ==> fits(#[trigger] cmul(other@[i], k@)) && fits(csub(
                    self@[i],
                    cmul(other@[i], k@),
                )),
            r is Some ==> r->Some_0@ == Seq::new(
                self@.len(),
                |i: int| csub(self@[i], cmul(other@[i], k@)),
            ) && r->Some_0.valid(),
    {
        let mut c: Vec<Rat> = Vec::new();
        let mut i: usize = 0;
        while i < self.components.len()
            invariant
                i <= self@.len(),
                self.valid(),
                other.valid(),
                k.valid(),
                self@.len() == other@.len(),
                c@.len() == i,
                forall|j: int|
                    0 <= j < i ==> fits(#[trigger] cmul(other@[j], k@)) && fits(csub(
                        self@[j],
                        cmul(other@[j], k@),
                    )),
                forall|j: int|
                    0 <= j < i ==> c@[j]@ == csub(self@[j], cmul(other@[j], k@)) && (
                    #[trigger] c@[j]).valid(),
            decreases self@.len() - i,
        {
            let t = match other.get(i).checked_mul(k) {
                Some(t) => t,
                None => {
                    return None;
                },
            };
            let v = match self.get(i).checked_sub(t) {
                Some(v) => v,
                None => {
                    return None;
                },
            };
            c.push(v);
            i = i + 1;
        }
        let r = Vector { components: c };
        proof {
            assert(r@ =~= Seq::new(self@.len(), |i: int| csub(self@[i], cmul(other@[i], k@))));
        }
        Some(r)
    }
}

impl PartialEq for Vector {
    /// Two vectors are equal exactly when they have the same length and
    /// their components name the same rational values.
    fn eq(&self, other: &Vector) -> (r: bool) {
        if self.components.len() != other.components.len() {
            return false;
        }
        let mut i: usize = 0;
        while i < self.components.len()
            invariant
                i <= self@.len(),
                self@.len() == other@.len(),
                forall|j: int| 0 <= j < i ==> r_eq(#[trigger] self@[j], other@[j]),
            decreases self@.len() - i,
        {
            let same = self.components[i] == other.components[i];
            proof {
                assert(self@[i as int] == self.components@[i as int]@);
                assert(other@[i as int] == other.components@[i as int]@);
            }
            if !same {
                proof {
                    assert(!r_eq(self@[i as int], other@[i as int]));
                }
                return false;
            }
            i = i + 1;
        }
        true
    }
}

impl vstd::std_specs::cmp::PartialEqSpecImpl for Vector {
    open spec fn obeys_eq_spec() -> bool {
        true
    }

    open spec fn eq_spec(&self, other: &Vector) -> bool {
        vec_req(self@, other@)
    }
}

/// A vector minus itself is the zero vector.
pub proof fn lemma_vec_sub_self(v: Seq<Ratio>)
    ensures
        vec_req(vec_sub(v, v), vec_zero(v.len())),
{
    assert forall|i: int| 0 <= i < v.len() implies r_eq(#[trigger] vec_sub(v, v)[i], vec_zero(
        v.len(),
    )[i]) by {
        lemma_sub_self_zero(v[i]);
    }
}

/// The reduced difference of a vector with itself, as the executable
/// subtraction computes it, is the zero vector.
pub proof fn lemma_cvec_sub_self(v: Seq<Ratio>)
    requires
        all_fit(v),
    ensures
        vec_req(cvec_sub(v, v), vec_zero(v.len())),
        forall|i: int| 0 <= i < v.len() ==> fits(#[trigger] csub(v[i], v[i])),
{
    assert forall|i: int| 0 <= i < v.len() implies fits(#[trigger] csub(v[i], v[i])) by {
        let p = v[i];
        lemma_ops_pos(p, p);
        // a zero value reduces to 0 / 1, which always fits
        lemma_zero_canon_den(r_sub(p, p));
    }
    assert forall|i: int| 0 <= i < v.len() implies r_eq(#[trigger] cvec_sub(v, v)[i], vec_zero(
        v.len(),
    )[i]) by {
        let p = v[i];
        lemma_ops_pos(p, p);
        lemma_canon_r_eq(r_sub(p, p));
        lemma_sub_self_zero(p);
        lemma_r_eq_trans(canon(r_sub(p, p)), r_sub(p, p), r_int(0));
    }
}

/// The canonical form of a zero quotient is exactly `0 / 1`.
proof fn lemma_zero_canon_den(p: Ratio)
    requires
        p.d != 0,
        p.n == 0,
    ensures
        canon(p) == r_int(0),
{
    lemma_canon_r_eq(p);
    let d = if p.d < 0 {
        -p.d
    } else {
        p.d
    };
    let g = crate::rational::gcd(crate::rational::nabs(0), d as nat) as int;
    assert(crate::rational::gcd(0, d as nat) == d as nat) by {
        assert(crate::rational::gcd(d as nat, 0) == d as nat);
        assert((0nat) % (d as nat) == 0) by (nonlinear_arith)
            requires
                d >= 1,
        ;
    }
    assert(g == d);
    assert(canon(p).n == 0int / g && canon(p).d == d / g);
    assert(0int / g == 0) by (nonlinear_arith)
        requires
            g >= 1,
    ;
    assert(d / g == 1) by (nonlinear_arith)
        requires
            g == d,
            d >= 1,
    ;
}

/// Scaling a vector by a nonzero scalar and dividing by it again gives
/// back the original values (exact round trip).
pub proof fn lemma_vec_scale_div(v: Seq<Ratio>, s: Ratio)
    requires
        s.d != 0,
        !r_is_zero(s),
    ensures
        vec_req(vec_div(vec_scale(s, v), s), v),
{
    assert forall|i: int| 0 <= i < v.len() implies r_eq(
        #[trigger] vec_div(vec_scale(s, v), s)[i],
        v[i],
    ) by {
        lemma_mul_div_cancel(v[i], s);
    }
}

/// The reduced round trip, as the executable scaling and division compute
/// it: `(v * s) / s` names the same values as `v`.
pub proof fn lemma_cvec_scale_div(v: Seq<Ratio>, s: Ratio)
    requires
        all_fit(v),
        fits(s),
        !r_is_zero(s),
    ensures
        vec_req(cvec_div(cvec_scale(s, v), s), v),
{
    assert forall|i: int| 0 <= i < v.len() implies r_eq(
        #[trigger] cvec_div(cvec_scale(s, v), s)[i],
        v[i],
    ) by {
        let p = v[i];
        let m = r_mul(p, s);
        let cm = cmul(p, s);
        lemma_ops_pos(p, s);
        lemma_canon_r_eq(m);
        // the reduced product keeps the value of the raw product
        assert(r_eq(cm, m));
        // dividing values that are r_eq by the same nonzero scalar gives
        // r_eq results: division is multiplication by the flipped scalar
        let inv = Ratio { n: s.d, d: s.n };
        assert(r_div(cm, s) == r_mul(cm, inv));
        assert(r_div(m, s) == r_mul(m, inv));
        lemma_mul_congr(cm, m, inv, inv);
        assert(r_div(cm, s).d != 0) by (nonlinear_arith)
            requires
                r_div(cm, s).d == cm.d * s.n,
                cm.d != 0,
                s.n != 0,
        ;
        lemma_canon_r_eq(r_div(cm, s));
        lemma_mul_div_cancel(p, s);
        // chain: canon(cm / s) ~ cm / s ~ m / s ~ p
        assert(r_div(m, s).d != 0) by (nonlinear_arith)
            requires
                r_div(m, s).d == m.d * s.n,
                m.d != 0,
                s.n != 0,
        ;
        lemma_r_eq_trans(canon(r_div(cm, s)), r_div(cm, s), r_div(m, s));
        lemma_r_eq_trans(canon(r_div(cm, s)), r_div(m, s), p);
        assert(cvec_div(cvec_scale(s, v), s)[i] == canon(r_div(cm, s)));
    }
}

} // verus!
