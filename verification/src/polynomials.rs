//! The algebra engine: polynomials with canonical (fully reduced) coefficients,
//! a field-capability trait with a prime-field implementation, a squarefree
//! check and kernel-dimension (Berlekamp) irreducibility test, and the
//! extension-field parameter generator.
//!
//! All arithmetic keeps values canonical: prime-field elements lie in [0, p),
//! polynomials carry no trailing zero coefficient. Division is avoided inside
//! the elimination and gcd loops (fraction-free scaling and pseudo-remainders),
//! so they work uniformly over any field context.

use vstd::prelude::*;
use vstd::arithmetic::div_mod::lemma_small_mod;
use crate::primes::{spec_prime, is_prime};
use rayon::iter::{IntoParallelIterator, ParallelIterator};

verus! {

pub type Num = u64;

/// Coefficients, lowest degree first; canonical form has no trailing zero.
pub struct Polynomial<T> {
    pub coefs: Vec<T>,
}

pub type Poly = Polynomial<Num>;

pub type Mat<T> = Vec<Vec<T>>;

impl<T> View for Polynomial<T> {
    type V = Seq<T>;

    open spec fn view(&self) -> Seq<T> {
        self.coefs@
    }
}

/// Capability set of a field context: zero test, order, inverse and
/// canonicalization, together with the element operations the generic
/// algorithms run on.
pub trait FieldChar<T: View>: Sized {
    spec fn wf(&self) -> bool;

    spec fn ok(&self, e: &T) -> bool;

    spec fn is_zero_s(&self, e: &T) -> bool;

    spec fn is_one_s(&self, e: &T) -> bool;

    /// The multiplicative identity is not the zero element.
    proof fn lemma_one_nonzero(&self, e: &T)
        requires
            self.wf(),
            self.is_one_s(e),
        ensures
            !self.is_zero_s(e),
    ;

    fn is_zero(&self, elem: &T) -> (r: bool)
        requires
            self.wf(),
            self.ok(elem),
        ensures
            r == self.is_zero_s(elem),
    ;

    /// The order of the field, as a spec-level value.
    spec fn order_s(&self) -> int;

    /// Whether the context's inversion procedure succeeds on this element:
    /// for a genuine field this holds of every nonzero element.
    spec fn invertible_s(&self, e: T::V) -> bool;

    /// The value the context's inversion procedure computes, at the level of
    /// views; meaningful where `invertible_s` holds.
    spec fn inv_v(&self, e: T::V) -> T::V;

    /// The zero test, at the level of views.
    spec fn is_zero_v(&self, e: T::V) -> bool;

    /// The view of the zero element.
    spec fn zero_v(&self) -> T::V;

    /// The two zero tests agree: an element is zero exactly when its view is.
    proof fn lemma_zero_view(&self, e: &T)
        requires
            self.wf(),
        ensures
            self.is_zero_s(e) == self.is_zero_v(e@),
    ;

    /// The product of two field elements, at the level of their views.
    spec fn mul_v(&self, a: T::V, b: T::V) -> T::V;

    /// The sum of two field elements, at the level of their views.
    spec fn add_v(&self, a: T::V, b: T::V) -> T::V;

    /// The difference of two field elements, at the level of their views.
    spec fn sub_v(&self, a: T::V, b: T::V) -> T::V;

    /// A field element scaled by an integer, at the level of its view.
    spec fn natmul_v(&self, e: T::V, k: int) -> T::V;

    /// The view of the multiplicative identity.
    spec fn one_v(&self) -> T::V;

    fn order(&self) -> (r: usize)
        requires
            self.wf(),
        ensures
            r >= 2,
            self.order_s() <= usize::MAX ==> r as int == self.order_s(),
            self.order_s() > usize::MAX ==> r == usize::MAX,
    ;

    fn inverse(&self, elem: &T) -> (r: Option<T>)
        requires
            self.wf(),
            self.ok(elem),
        ensures
            (r is Some) == self.invertible_s(elem@),
            match r {
                Some(v) => self.ok(&v) && !self.is_zero_s(elem)
                    && v@ == self.inv_v(elem@)
                    && self.mul_v(elem@, v@) == self.one_v(),
                None => true,
            },
    ;

    fn intern(&self, poly: Polynomial<T>) -> (r: Polynomial<T>)
        requires
            self.wf(),
        ensures
            forall|i: int| 0 <= i < r@.len() ==> #[trigger] self.ok(&r@[i]),
            r@.len() > 0 ==> !self.is_zero_s(&r@[r@.len() - 1]),
            // canonicalization is idempotent: an already-canonical value,
            // as the two clauses above describe the result, is returned as is
            ((forall|i: int| 0 <= i < poly@.len() ==> #[trigger] self.ok(&poly@[i]))
                && (poly@.len() == 0 || !self.is_zero_s(&poly@[poly@.len() - 1]))) ==> r == poly,
    ;

    fn copy_ok(&self, e: &T) -> (r: T)
        requires
            self.wf(),
            self.ok(e),
        ensures
            self.ok(&r),
            r@ == e@,
            self.is_zero_s(&r) == self.is_zero_s(e),
            self.is_one_s(&r) == self.is_one_s(e),
    ;

    fn zero_el(&self) -> (r: T)
        requires
            self.wf(),
        ensures
            self.ok(&r),
            self.is_zero_s(&r),
            r@ == self.zero_v(),
    ;

    fn one_el(&self) -> (r: T)
        requires
            self.wf(),
        ensures
            self.ok(&r),
            self.is_one_s(&r),
            r@ == self.one_v(),
    ;

    fn add_el(&self, a: &T, b: &T) -> (r: T)
        requires
            self.wf(),
            self.ok(a),
            self.ok(b),
        ensures
            self.ok(&r),
            r@ == self.add_v(a@, b@),
    ;

    fn sub_el(&self, a: &T, b: &T) -> (r: T)
        requires
            self.wf(),
            self.ok(a),
            self.ok(b),
        ensures
            self.ok(&r),
            r@ == self.sub_v(a@, b@),
            self.is_zero_s(b) && self.is_zero_s(a) ==> self.is_zero_s(&r),
            self.is_zero_s(b) && self.is_one_s(a) ==> self.is_one_s(&r),
    ;

    fn mul_el(&self, a: &T, b: &T) -> (r: T)
        requires
            self.wf(),
            self.ok(a),
            self.ok(b),
        ensures
            self.ok(&r),
            r@ == self.mul_v(a@, b@),
            self.is_zero_s(a) ==> self.is_zero_s(&r),
            self.is_one_s(a) && self.is_zero_s(b) ==> self.is_zero_s(&r),
            self.is_one_s(a) && self.is_one_s(b) ==> self.is_one_s(&r),
    ;

    fn nat_mul(&self, e: &T, k: usize) -> (r: T)
        requires
            self.wf(),
            self.ok(e),
        ensures
            self.ok(&r),
            r@ == self.natmul_v(e@, k as int),
    ;
}

/// Canonical polynomial over a context: admissible coefficients, no trailing
/// zero coefficient.
pub open spec fn poly_ok<T: View, F: FieldChar<T>>(p: &F, s: Seq<T>) -> bool {
    &&& forall|i: int| 0 <= i < s.len() ==> #[trigger] p.ok(&s[i])
    &&& s.len() > 0 ==> !p.is_zero_s(&s[s.len() - 1])
}

/// A constant polynomial: every coefficient above degree zero is zero.
pub open spec fn spec_is_constant<T: View, F: FieldChar<T>>(p: &F, s: Seq<T>) -> bool {
    forall|i: int| 1 <= i < s.len() ==> #[trigger] p.is_zero_s(&s[i])
}

/// Constancy of a coefficient-view sequence.
pub open spec fn spec_const_v<T: View, F: FieldChar<T>>(p: &F, s: Seq<T::V>) -> bool {
    forall|i: int| 1 <= i < s.len() ==> #[trigger] p.is_zero_v(s[i])
}

/// The generic canonical-polynomial predicate over the prime-field context
/// says exactly that the raw coefficients are reduced and trail no zero.
pub(crate) proof fn lemma_poly_ok_raw(prime: u32, s: Seq<u64>)
    requires
        prime >= 2,
    ensures
        poly_ok(&prime, s) <==> ((forall|i: int| 0 <= i < s.len() ==> #[trigger] s[i] < prime as u64)
            && (s.len() > 0 ==> s[s.len() - 1] != 0)),
{
    if poly_ok(&prime, s) {
        assert forall|i: int| 0 <= i < s.len() implies s[i] < prime as u64 by {
            assert((&prime).ok(&s[i]));
        }
    }
    if (forall|i: int| 0 <= i < s.len() ==> #[trigger] s[i] < prime as u64)
        && (s.len() > 0 ==> s[s.len() - 1] != 0) {
        assert forall|i: int| 0 <= i < s.len() implies #[trigger] (&prime).ok(&s[i]) by {
            assert(s[i] < prime as u64);
        }
    }
}

/// The element views of a coefficient sequence, index by index.
pub open spec fn views<T: View>(s: Seq<T>) -> Seq<T::V> {
    Seq::new(s.len(), |i: int| s[i]@)
}

/// A coefficient-view sequence with trailing zero elements dropped.
pub open spec fn spec_pnorm_v<T: View, F: FieldChar<T>>(p: &F, s: Seq<T::V>) -> Seq<T::V>
    decreases s.len(),
{
    if s.len() == 0 {
        s
    } else if p.is_zero_v(s[s.len() - 1]) {
        spec_pnorm_v(p, s.drop_last())
    } else {
        s
    }
}

/// Normalization at the view level keeps a prefix and never lengthens.
pub proof fn lemma_pnorm_v_len<T: View, F: FieldChar<T>>(p: &F, s: Seq<T::V>)
    ensures
        spec_pnorm_v(p, s).len() <= s.len(),
    decreases s.len(),
{
    if s.len() > 0 && p.is_zero_v(s[s.len() - 1]) {
        lemma_pnorm_v_len(p, s.drop_last());
    }
}

/// One cancellation round of the pseudo-remainder: scale the dividend by the
/// divisor's leading coefficient, subtract the shifted divisor scaled by the
/// dividend's, and drop the cancelled top term — all at the view level.
pub open spec fn spec_pseudo_step_v<T: View, F: FieldChar<T>>(p: &F, a: Seq<T::V>, b: Seq<T::V>) -> Seq<T::V> {
    let shift = a.len() - b.len();
    let lca = a[a.len() - 1];
    let lcb = b[b.len() - 1];
    Seq::new(
        (a.len() - 1) as nat,
        |k: int|
            {
                let right = if k >= shift { p.mul_v(b[k - shift], lca) } else { p.zero_v() };
                p.sub_v(p.mul_v(a[k], lcb), right)
            },
    )
}

/// The pseudo-remainder chain: cancellation rounds until the degree drops
/// below the divisor's.
pub open spec fn spec_pseudo_rem_v<T: View, F: FieldChar<T>>(p: &F, a: Seq<T::V>, b: Seq<T::V>) -> Seq<T::V>
    decreases a.len() when b.len() >= 1 via spec_pseudo_rem_v_decreases::<T, F>
{
    if a.len() < b.len() {
        a
    } else {
        spec_pseudo_rem_v(p, spec_pnorm_v(p, spec_pseudo_step_v(p, a, b)), b)
    }
}

#[via_fn]
proof fn spec_pseudo_rem_v_decreases<T: View, F: FieldChar<T>>(p: &F, a: Seq<T::V>, b: Seq<T::V>) {
    if b.len() >= 1 && a.len() >= b.len() {
        lemma_pnorm_v_len(p, spec_pseudo_step_v(p, a, b));
    }
}

/// The pseudo-remainder is shorter than the divisor.
pub proof fn lemma_pseudo_rem_v_len<T: View, F: FieldChar<T>>(p: &F, a: Seq<T::V>, b: Seq<T::V>)
    requires
        b.len() >= 1,
    ensures
        spec_pseudo_rem_v(p, a, b).len() < b.len(),
    decreases a.len(),
{
    if a.len() >= b.len() {
        lemma_pnorm_v_len(p, spec_pseudo_step_v(p, a, b));
        lemma_pseudo_rem_v_len(p, spec_pnorm_v(p, spec_pseudo_step_v(p, a, b)), b);
    }
}

/// The Euclidean chain of pseudo-remainders that the gcd walks.
pub open spec fn spec_gcd_v<T: View, F: FieldChar<T>>(p: &F, a: Seq<T::V>, b: Seq<T::V>) -> Seq<T::V>
    decreases b.len() via spec_gcd_v_decreases::<T, F>
{
    if b.len() == 0 {
        a
    } else {
        spec_gcd_v(p, b, spec_pseudo_rem_v(p, a, b))
    }
}

#[via_fn]
proof fn spec_gcd_v_decreases<T: View, F: FieldChar<T>>(p: &F, a: Seq<T::V>, b: Seq<T::V>) {
    if b.len() >= 1 {
        lemma_pseudo_rem_v_len(p, a, b);
    }
}

/// Drops trailing zero coefficients.
fn pnormalize<T: View, F: FieldChar<T>>(p: &F, v: Vec<T>) -> (r: Vec<T>)
    requires
        p.wf(),
        forall|i: int| 0 <= i < v@.len() ==> #[trigger] p.ok(&v@[i]),
    ensures
        poly_ok(p, r@),
        r@.len() <= v@.len(),
        forall|i: int| 0 <= i < r@.len() ==> r@[i] == v@[i],
        views(r@) == spec_pnorm_v(p, views(v@)),
        poly_ok(p, v@) ==> r@ == v@,
{
    let mut v = v;
    let ghost orig = v@;
    loop
        invariant
            p.wf(),
            v@.len() <= orig.len(),
            forall|i: int| 0 <= i < v@.len() ==> v@[i] == orig[i],
            forall|i: int| 0 <= i < v@.len() ==> #[trigger] p.ok(&v@[i]),
            spec_pnorm_v(p, views(v@)) == spec_pnorm_v(p, views(orig)),
            poly_ok(p, orig) ==> v@ == orig,
        ensures
            v@.len() == 0 || !p.is_zero_s(&v@[v@.len() - 1]),
            spec_pnorm_v(p, views(v@)) == spec_pnorm_v(p, views(orig)),
        decreases v@.len(),
    {
        let n = v.len();
        if n == 0 {
            break;
        }
        if !p.is_zero(&v[n - 1]) {
            break;
        }
        proof {
            if poly_ok(p, orig) && v@ =~= orig {
                assert(!p.is_zero_s(&orig[orig.len() - 1]));
                assert(false);
            }
            let ghost pre = v@;
            p.lemma_zero_view(&pre[pre.len() - 1]);
            assert(views(pre).drop_last() =~= views(pre.drop_last()));
            assert(spec_pnorm_v(p, views(pre)) == spec_pnorm_v(p, views(pre.drop_last())));
        }
        v.pop();
    }
    proof {
        if v@.len() > 0 {
            p.lemma_zero_view(&v@[v@.len() - 1]);
        }
        assert(spec_pnorm_v(p, views(v@)) == views(v@));
    }
    v
}

/// Copies a polynomial coefficient by coefficient; the copy is canonical of
/// the same length, with the zero pattern of the source polynomial.
fn copy_poly<T: View, F: FieldChar<T>>(p: &F, f: &Polynomial<T>) -> (r: Polynomial<T>)
    requires
        p.wf(),
        poly_ok(p, f@),
    ensures
        poly_ok(p, r@),
        r@.len() == f@.len(),
        views(r@) == views(f@),
{
    let mut coefs: Vec<T> = Vec::new();
    let mut i: usize = 0;
    while i < f.coefs.len()
        invariant
            p.wf(),
            poly_ok(p, f@),
            i <= f@.len(),
            coefs@.len() == i,
            forall|j: int| 0 <= j < i ==> #[trigger] p.ok(&coefs@[j])
                && coefs@[j]@ == f@[j]@
                && p.is_zero_s(&coefs@[j]) == p.is_zero_s(&f@[j]),
        decreases f@.len() - i,
    {
        coefs.push(p.copy_ok(&f.coefs[i]));
        i = i + 1;
    }
    proof {
        assert forall|j: int| 0 <= j < coefs@.len() implies
            views(coefs@)[j] == views(f@)[j] by {
            assert(p.ok(&coefs@[j]));
        }
        assert(views(coefs@) =~= views(f@));
    }
    proof {
        if coefs@.len() > 0 {
            assert(p.ok(&coefs@[coefs@.len() - 1]));
            assert(p.is_zero_s(&coefs@[coefs@.len() - 1]) == p.is_zero_s(&f@[f@.len() - 1]));
        }
    }
    Polynomial { coefs }
}

/// The extended Euclidean loop that the prime-field inversion runs: returns
/// the final remainder (the gcd of the starting pair) and the accumulated
/// Bezout coefficient, kept reduced mod p.
pub open spec fn spec_egcd(p: int, r0: int, r1: int, t0: int, t1: int) -> (int, int)
    decreases r1 when 0 <= r1
{
    if r1 <= 0 {
        (r0, t0)
    } else {
        let q = r0 / r1;
        let r2 = r0 % r1;
        let qt = ((q % p) * t1) % p;
        let t2 = (t0 + (p - qt)) % p;
        spec_egcd(p, r1, r2, t1, t2)
    }
}

impl FieldChar<u64> for u32 {
    open spec fn wf(&self) -> bool {
        *self >= 2
    }

    open spec fn ok(&self, e: &u64) -> bool {
        *e < *self as u64
    }

    open spec fn is_zero_s(&self, e: &u64) -> bool {
        *e == 0
    }

    open spec fn is_one_s(&self, e: &u64) -> bool {
        *e == 1
    }

    open spec fn order_s(&self) -> int {
        *self as int
    }

    open spec fn invertible_s(&self, e: u64) -> bool {
        e != 0 && ({
            let gt = spec_egcd(*self as int, *self as int, e as int, 0, 1);
            gt.0 == 1 && ((e as int) * gt.1) % (*self as int) == 1
        })
    }

    open spec fn inv_v(&self, e: u64) -> u64 {
        spec_egcd(*self as int, *self as int, e as int, 0, 1).1 as u64
    }

    open spec fn is_zero_v(&self, e: u64) -> bool {
        e == 0
    }

    open spec fn zero_v(&self) -> u64 {
        0u64
    }

    open spec fn mul_v(&self, a: u64, b: u64) -> u64 {
        (((a as int) * (b as int)) % (*self as int)) as u64
    }

    open spec fn add_v(&self, a: u64, b: u64) -> u64 {
        (((a as int) + (b as int)) % (*self as int)) as u64
    }

    open spec fn sub_v(&self, a: u64, b: u64) -> u64 {
        (((a as int) + (*self as int) - (b as int)) % (*self as int)) as u64
    }

    open spec fn natmul_v(&self, e: u64, k: int) -> u64 {
        (((e as int) * (k % (*self as int))) % (*self as int)) as u64
    }

    open spec fn one_v(&self) -> u64 {
        1u64
    }

    proof fn lemma_one_nonzero(&self, e: &u64) {
    }

    proof fn lemma_zero_view(&self, e: &u64) {
    }

    fn is_zero(&self, elem: &u64) -> (r: bool) {
        *elem == 0
    }

    fn order(&self) -> (r: usize) {
        *self as usize
    }

    /// Inverse via the extended Euclidean algorithm on integers, with an
    /// explicit final check; a zero or non-invertible element yields `None`.
    fn inverse(&self, elem: &u64) -> (r: Option<u64>) {
        let p = *self as u64;
        let e = *elem;
        let mut r0: u64 = p;
        let mut r1: u64 = e;
        let mut t0: u64 = 0;
        let mut t1: u64 = 1;
        let ghost target = spec_egcd(p as int, p as int, e as int, 0, 1);
        while r1 != 0
            invariant
                2 <= p <= 0xFFFF_FFFF,
                1 <= r0 <= p,
                r1 < r0,
                t0 < p,
                t1 < p,
                target == spec_egcd(p as int, r0 as int, r1 as int, t0 as int, t1 as int),
            decreases r1,
        {
            let q = r0 / r1;
            let r2 = r0 % r1;
            proof {
                assert((q % p) * t1 <= u64::MAX) by (nonlinear_arith)
                    requires q % p < p, t1 < p, p <= 0xFFFF_FFFFu64,
                {}
            }
            let qt = ((q % p) * t1) % p;
            let t2 = (t0 + (p - qt)) % p;
            proof {
                assert(spec_egcd(p as int, r0 as int, r1 as int, t0 as int, t1 as int)
                    == spec_egcd(p as int, r1 as int, r2 as int, t1 as int, t2 as int));
            }
            r0 = r1;
            r1 = r2;
            t0 = t1;
            t1 = t2;
        }
        proof {
            assert(target == (r0 as int, t0 as int));
            assert(t0 as int == target.1 && (target.1 as u64) as int == t0 as int);
        }
        if r0 == 1 {
            proof {
                assert(e * t0 <= u64::MAX) by (nonlinear_arith)
                    requires e < p, t0 < p, p <= 0xFFFF_FFFFu64,
                {}
            }
            if e != 0 && (e * t0) % p == 1 {
                Some(t0)
            } else {
                None
            }
        } else {
            None
        }
    }

    fn intern(&self, poly: Polynomial<u64>) -> (r: Polynomial<u64>) {
        let p = *self as u64;
        let n = poly.coefs.len();
        let mut canonical = n == 0 || poly.coefs[n - 1] != 0;
        let mut i: usize = 0;
        while i < n
            invariant
                p == *self as u64,
                n == poly@.len(),
                i <= n,
                canonical ==> (n == 0 || poly@[n - 1] != 0),
                canonical ==> forall|j: int| 0 <= j < i ==> #[trigger] poly@[j] < p,
                ((forall|j: int| 0 <= j < n ==> #[trigger] poly@[j] < p)
                    && (n == 0 || poly@[n - 1] != 0)) ==> canonical,
            decreases n - i,
        {
            if poly.coefs[i] >= p {
                canonical = false;
            }
            i = i + 1;
        }
        if canonical {
            return poly;
        }
        proof {
            if (forall|ii: int| 0 <= ii < poly@.len() ==> #[trigger] self.ok(&poly@[ii]))
                && (poly@.len() == 0 || !self.is_zero_s(&poly@[poly@.len() - 1])) {
                assert forall|j: int| 0 <= j < n implies #[trigger] poly@[j] < p by {
                    assert(self.ok(&poly@[j]));
                }
                assert(false);
            }
        }
        Polynomial { coefs: trim_raw(poly.coefs, *self) }
    }

    fn copy_ok(&self, e: &u64) -> (r: u64) {
        *e
    }

    fn zero_el(&self) -> (r: u64) {
        0
    }

    fn one_el(&self) -> (r: u64) {
        1
    }

    fn add_el(&self, a: &u64, b: &u64) -> (r: u64) {
        (*a + *b) % (*self as u64)
    }

    fn sub_el(&self, a: &u64, b: &u64) -> (r: u64) {
        let p = *self as u64;
        let r = (*a + (p - *b)) % p;
        proof {
            if *b == 0 {
                lemma_small_mod(*a as nat, p as nat);
                assert(((*a as int) + p as int) % (p as int) == *a as int) by (nonlinear_arith)
                    requires *a < p, p >= 1, (*a as int) % (p as int) == *a as int,
                {}
            }
        }
        r
    }

    fn mul_el(&self, a: &u64, b: &u64) -> (r: u64) {
        let p = *self as u64;
        proof {
            assert(*a * *b <= u64::MAX) by (nonlinear_arith)
                requires *a < p, *b < p, p <= 0xFFFF_FFFFu64,
            {}
            if *a == 1 {
                assert(*a * *b == *b) by (nonlinear_arith)
                    requires *a == 1u64,
                {}
                lemma_small_mod(*b as nat, p as nat);
            }
            if *a == 0 {
                assert(*a * *b == 0) by (nonlinear_arith)
                    requires *a == 0u64,
                {}
                lemma_small_mod(0nat, p as nat);
            }
        }
        (*a * *b) % p
    }

    fn nat_mul(&self, e: &u64, k: usize) -> (r: u64) {
        let p = *self as u64;
        let kk = (k as u64) % p;
        proof {
            assert(*e * kk <= u64::MAX) by (nonlinear_arith)
                requires *e < p, kk < p, p <= 0xFFFF_FFFFu64,
            {}
        }
        (*e * kk) % p
    }
}

/// Coefficients with trailing zeros dropped.
pub open spec fn spec_norm(s: Seq<u64>) -> Seq<u64>
    decreases s.len(),
{
    if s.len() == 0 {
        s
    } else if s[s.len() - 1] == 0 {
        spec_norm(s.drop_last())
    } else {
        s
    }
}

/// Normalization keeps a prefix of its input; the result has no trailing
/// zero, and a normalized input comes back unchanged.
pub proof fn lemma_norm_props(s: Seq<u64>)
    ensures
        spec_norm(s).len() <= s.len(),
        forall|i: int| 0 <= i < spec_norm(s).len() ==> spec_norm(s)[i] == s[i],
        spec_norm(s).len() > 0 ==> spec_norm(s)[spec_norm(s).len() - 1] != 0,
        (s.len() == 0 || s[s.len() - 1] != 0) ==> spec_norm(s) == s,
    decreases s.len(),
{
    if s.len() > 0 && s[s.len() - 1] == 0 {
        lemma_norm_props(s.drop_last());
        assert forall|i: int| 0 <= i < spec_norm(s).len() implies spec_norm(s)[i] == s[i] by {
            assert(spec_norm(s)[i] == spec_norm(s.drop_last())[i]);
            assert(spec_norm(s.drop_last())[i] == s.drop_last()[i]);
        }
    }
}

/// Each raw coefficient reduced mod p.
pub open spec fn spec_mod_seq(s: Seq<u64>, p: int) -> Seq<u64> {
    Seq::new(s.len(), |i: int| ((s[i] as int) % p) as u64)
}

/// Canonicalization over GF(p): reduce every coefficient mod p, then drop
/// trailing zeros.
pub open spec fn spec_trim(s: Seq<u64>, p: int) -> Seq<u64> {
    spec_norm(spec_mod_seq(s, p))
}

/// The k-th convolution coefficient over the first i terms of a, reduced mod
/// p at every addition, exactly as the product loop accumulates it.
pub open spec fn spec_conv_sum(a: Seq<u64>, b: Seq<u64>, p: int, k: int, i: int) -> int
    decreases i when i >= 0
{
    if i <= 0 {
        0
    } else if k >= i - 1 && k - (i - 1) < b.len() && i - 1 < a.len() {
        (spec_conv_sum(a, b, p, k, i - 1) + ((a[i - 1] as int) * (b[k - (i - 1)] as int)) % p) % p
    } else {
        spec_conv_sum(a, b, p, k, i - 1)
    }
}

/// The raw (unnormalized) product of two coefficient sequences over GF(p).
pub open spec fn spec_conv(a: Seq<u64>, b: Seq<u64>, p: int) -> Seq<u64> {
    if a.len() == 0 || b.len() == 0 {
        Seq::empty()
    } else {
        Seq::new(
            (a.len() + b.len() - 1) as nat,
            |k: int| spec_conv_sum(a, b, p, k, a.len() as int) as u64,
        )
    }
}

/// The polynomial product over GF(p), normalized.
pub open spec fn spec_pmul(a: Seq<u64>, b: Seq<u64>, p: int) -> Seq<u64> {
    spec_norm(spec_conv(a, b, p))
}

/// One cancellation round of division by the monic m: subtract the top term
/// of a times x^shift times m, dropping the cancelled top coefficient.
pub open spec fn spec_prem_step(a: Seq<u64>, m: Seq<u64>, p: int) -> Seq<u64> {
    let shift = a.len() - m.len();
    let factor = a[a.len() - 1] as int;
    Seq::new(
        (a.len() - 1) as nat,
        |k: int| {
            let sub = if k >= shift { (factor * (m[k - shift] as int)) % p } else { 0 };
            (((a[k] as int) + p - sub) % p) as u64
        },
    )
}

/// Euclidean remainder by the monic modulus m over GF(p).
pub open spec fn spec_prem(a: Seq<u64>, m: Seq<u64>, p: int) -> Seq<u64>
    decreases a.len() when m.len() >= 1 via spec_prem_decreases
{
    if a.len() < m.len() {
        a
    } else {
        spec_prem(spec_norm(spec_prem_step(a, m, p)), m, p)
    }
}

#[via_fn]
proof fn spec_prem_decreases(a: Seq<u64>, m: Seq<u64>, p: int) {
    if m.len() >= 1 && a.len() >= m.len() {
        lemma_norm_props(spec_prem_step(a, m, p));
    }
}

/// Exponentiation by squaring modulo the monic m over GF(p), mirroring the
/// even/odd accumulation of the executable loop.
pub open spec fn spec_power(x: Seq<u64>, y: Seq<u64>, pow: int, m: Seq<u64>, p: int) -> Seq<u64>
    decreases pow when pow >= 0 && m.len() >= 1
{
    if pow <= 0 {
        y
    } else if pow % 2 == 0 {
        spec_power(spec_prem(spec_pmul(x, x, p), m, p), y, pow / 2, m, p)
    } else {
        spec_power(x, spec_prem(spec_pmul(y, x, p), m, p), pow - 1, m, p)
    }
}

/// x raised to `pow` in GF(p)[X] modulo the monic m, from the canonical start.
pub open spec fn spec_power_of(x: Seq<u64>, pow: int, m: Seq<u64>, p: int) -> Seq<u64> {
    spec_power(spec_prem(x, m, p), seq![1u64], pow, m, p)
}

/// All coefficients above degree zero are zero: a field constant.
pub open spec fn spec_constant_seq(s: Seq<u64>) -> bool {
    forall|i: int| 1 <= i < s.len() ==> #[trigger] s[i] == 0
}

/// The generic constant test over the prime-field context reads exactly as
/// the raw zero pattern.
pub(crate) proof fn lemma_constant_raw(prime: u32, s: Seq<u64>)
    requires
        prime >= 2,
    ensures
        spec_is_constant(&prime, s) <==> spec_constant_seq(s),
{
    if spec_is_constant(&prime, s) {
        assert forall|i: int| 1 <= i < s.len() implies #[trigger] s[i] == 0 by {
            assert((&prime).is_zero_s(&s[i]));
        }
    }
    if spec_constant_seq(s) {
        assert forall|i: int| 1 <= i < s.len() implies #[trigger] (&prime).is_zero_s(&s[i]) by {
            assert(s[i] == 0);
        }
    }
}

/// Drops trailing zeros from a raw coefficient vector.
pub(crate) fn norm_raw(v: Vec<u64>) -> (r: Vec<u64>)
    ensures
        r@ == spec_norm(v@),
{
    let mut v = v;
    let ghost orig = v@;
    loop
        invariant
            spec_norm(v@) == spec_norm(orig),
        ensures
            v@.len() == 0 || v@[v@.len() - 1] != 0,
        decreases v@.len(),
    {
        let n = v.len();
        if n == 0 {
            break;
        }
        if v[n - 1] != 0 {
            break;
        }
        v.pop();
    }
    v
}

/// Reduces coefficients modulo the prime and drops trailing zeros, stated
/// over the raw values so the prime-field context can rely on it.
fn trim_raw(poly: Vec<u64>, prime: u32) -> (r: Vec<u64>)
    requires
        prime >= 2,
    ensures
        r@ == spec_trim(poly@, prime as int),
        forall|i: int| 0 <= i < r@.len() ==> #[trigger] r@[i] < prime as u64,
        r@.len() > 0 ==> r@[r@.len() - 1] != 0,
        r@.len() <= poly@.len(),
{
    let p = prime as u64;
    let mut out: Vec<u64> = Vec::new();
    let mut i: usize = 0;
    while i < poly.len()
        invariant
            prime >= 2,
            p == prime as u64,
            i <= poly@.len(),
            out@.len() == i,
            forall|j: int| 0 <= j < out@.len() ==> #[trigger] out@[j] == spec_mod_seq(poly@, p as int)[j]
                && out@[j] < p,
        decreases poly@.len() - i,
    {
        out.push(poly[i] % p);
        i = i + 1;
    }
    let ghost outv = out@;
    proof {
        assert(outv =~= spec_mod_seq(poly@, p as int));
        lemma_norm_props(outv);
    }
    let r = norm_raw(out);
    proof {
        assert forall|i: int| 0 <= i < r@.len() implies #[trigger] r@[i] < prime as u64 by {
            assert(r@[i] == spec_norm(outv)[i]);
            assert(spec_norm(outv)[i] == outv[i]);
        }
    }
    r
}

/// Reduces every coefficient modulo the prime and drops trailing zeros.
pub fn trim(poly: Poly, prime: u32) -> (r: Poly)
    requires
        prime >= 2,
    ensures
        r@ == spec_trim(poly@, prime as int),
        poly_ok(&prime, r@),
        r@.len() <= poly@.len(),
{
    Polynomial { coefs: trim_raw(poly.coefs, prime) }
}

/// Schoolbook polynomial product of raw coefficient vectors over GF(p).
pub(crate) fn pmul_raw(a: &Vec<u64>, b: &Vec<u64>, prime: u32) -> (r: Vec<u64>)
    requires
        prime >= 2,
        forall|i: int| 0 <= i < a@.len() ==> #[trigger] a@[i] < prime as u64,
        forall|i: int| 0 <= i < b@.len() ==> #[trigger] b@[i] < prime as u64,
        a@.len() + b@.len() <= usize::MAX,
    ensures
        r@ == spec_pmul(a@, b@, prime as int),
        forall|i: int| 0 <= i < r@.len() ==> #[trigger] r@[i] < prime as u64,
        r@.len() > 0 ==> r@[r@.len() - 1] != 0,
        r@.len() <= a@.len() + b@.len(),
{
    let ghost pi: int = prime as int;
    if a.len() == 0 || b.len() == 0 {
        let r: Vec<u64> = Vec::new();
        proof {
            assert(spec_conv(a@, b@, pi) =~= Seq::<u64>::empty());
        }
        return r;
    }
    let p = prime as u64;
    let n = a.len() + b.len() - 1;
    let mut out: Vec<u64> = Vec::new();
    let mut k: usize = 0;
    while k < n
        invariant
            prime >= 2,
            p == prime as u64,
            pi == prime as int,
            a@.len() >= 1,
            b@.len() >= 1,
            n == a@.len() + b@.len() - 1,
            forall|i: int| 0 <= i < a@.len() ==> #[trigger] a@[i] < p,
            forall|i: int| 0 <= i < b@.len() ==> #[trigger] b@[i] < p,
            k <= n,
            out@.len() == k,
            forall|kk: int| 0 <= kk < out@.len() ==>
                #[trigger] out@[kk] == spec_conv(a@, b@, pi)[kk] && out@[kk] < p,
        decreases n - k,
    {
        let mut acc: u64 = 0;
        let mut i: usize = 0;
        while i < a.len()
            invariant
                prime >= 2,
                p == prime as u64,
                pi == prime as int,
                forall|j: int| 0 <= j < a@.len() ==> #[trigger] a@[j] < p,
                forall|j: int| 0 <= j < b@.len() ==> #[trigger] b@[j] < p,
                i <= a@.len(),
                acc < p,
                acc as int == spec_conv_sum(a@, b@, pi, k as int, i as int),
            decreases a@.len() - i,
        {
            if k >= i && k - i < b.len() {
                proof {
                    assert(a@[i as int] * b@[k - i] <= u64::MAX) by (nonlinear_arith)
                        requires
                            a@[i as int] < p,
                            b@[k - i] < p,
                            p <= 0xFFFF_FFFFu64,
                    {}
                }
                let t = (a[i] * b[k - i]) % p;
                acc = (acc + t) % p;
            }
            i = i + 1;
        }
        proof {
            assert(spec_conv(a@, b@, pi)[k as int] == spec_conv_sum(a@, b@, pi, k as int, a@.len() as int) as u64);
        }
        out.push(acc);
        k = k + 1;
    }
    let ghost outv = out@;
    proof {
        assert(outv =~= spec_conv(a@, b@, pi));
        lemma_norm_props(outv);
    }
    let r = norm_raw(out);
    proof {
        assert forall|i: int| 0 <= i < r@.len() implies #[trigger] r@[i] < prime as u64 by {
            assert(r@[i] == spec_norm(outv)[i]);
            assert(spec_norm(outv)[i] == outv[i]);
        }
    }
    r
}

/// Euclidean remainder of a raw coefficient vector by the monic modulus m
/// over GF(p), cancelling the top term each round.
pub(crate) fn rem_raw(a: Vec<u64>, m: &Vec<u64>, prime: u32) -> (r: Vec<u64>)
    requires
        prime >= 2,
        m@.len() >= 1,
        forall|i: int| 0 <= i < m@.len() ==> #[trigger] m@[i] < prime as u64,
        m@[m@.len() - 1] == 1,
        forall|i: int| 0 <= i < a@.len() ==> #[trigger] a@[i] < prime as u64,
    ensures
        r@ == spec_prem(a@, m@, prime as int),
        r@.len() < m@.len(),
        forall|i: int| 0 <= i < r@.len() ==> #[trigger] r@[i] < prime as u64,
        (a@.len() == 0 || a@[a@.len() - 1] != 0) ==> (r@.len() == 0 || r@[r@.len() - 1] != 0),
{
    let ghost pi: int = prime as int;
    let p = prime as u64;
    let mut cur = a;
    let ghost orig = cur@;
    while cur.len() >= m.len()
        invariant
            prime >= 2,
            p == prime as u64,
            pi == prime as int,
            m@.len() >= 1,
            forall|i: int| 0 <= i < m@.len() ==> #[trigger] m@[i] < p,
            forall|i: int| 0 <= i < cur@.len() ==> #[trigger] cur@[i] < p,
            spec_prem(cur@, m@, pi) == spec_prem(orig, m@, pi),
            cur@ == orig || (cur@.len() == 0 || cur@[cur@.len() - 1] != 0),
        decreases cur@.len(),
    {
        let ghost pre = cur@;
        let da = cur.len() - 1;
        let shift = cur.len() - m.len();
        let factor = cur[da];
        let mut next: Vec<u64> = Vec::new();
        let mut k: usize = 0;
        while k < da
            invariant
                prime >= 2,
                p == prime as u64,
                pi == prime as int,
                m@.len() >= 1,
                cur@ == pre,
                da == cur@.len() - 1,
                cur@.len() >= m@.len(),
                shift == cur@.len() - m@.len(),
                factor == cur@[da as int],
                forall|i: int| 0 <= i < m@.len() ==> #[trigger] m@[i] < p,
                forall|i: int| 0 <= i < cur@.len() ==> #[trigger] cur@[i] < p,
                k <= da,
                next@.len() == k,
                forall|j: int| 0 <= j < next@.len() ==>
                    #[trigger] next@[j] == spec_prem_step(pre, m@, pi)[j] && next@[j] < p,
            decreases da - k,
        {
            let sub = if k >= shift {
                proof {
                    assert(factor * m@[k - shift] <= u64::MAX) by (nonlinear_arith)
                        requires factor < p, m@[k - shift] < p, p <= 0xFFFF_FFFFu64,
                    {}
                }
                (factor * m[k - shift]) % p
            } else {
                0
            };
            next.push((cur[k] + (p - sub)) % p);
            k = k + 1;
        }
        let ghost nextv = next@;
        proof {
            assert(nextv =~= spec_prem_step(pre, m@, pi));
            lemma_norm_props(nextv);
        }
        cur = norm_raw(next);
        proof {
            assert forall|i: int| 0 <= i < cur@.len() implies #[trigger] cur@[i] < p by {
                assert(cur@[i] == spec_norm(nextv)[i]);
                assert(spec_norm(nextv)[i] == nextv[i]);
            }
        }
    }
    cur
}

/// True when the polynomial is constant: every higher coefficient is zero.
fn is_constant<T: View, F: FieldChar<T>>(poly: &Polynomial<T>, p: &F) -> (r: bool)
    requires
        p.wf(),
        forall|i: int| 0 <= i < poly@.len() ==> #[trigger] p.ok(&poly@[i]),
    ensures
        r == spec_is_constant(p, poly@),
        r == spec_const_v(p, views(poly@)),
{
    let mut i: usize = 1;
    while i < poly.coefs.len()
        invariant
            p.wf(),
            1 <= i,
            forall|j: int| 0 <= j < poly@.len() ==> #[trigger] p.ok(&poly@[j]),
            forall|j: int| 1 <= j < i && j < poly@.len() ==> #[trigger] p.is_zero_s(&poly@[j]),
        decreases poly@.len() - i,
    {
        if !p.is_zero(&poly.coefs[i]) {
            proof {
                assert(!p.is_zero_s(&poly@[i as int]));
                p.lemma_zero_view(&poly@[i as int]);
                assert(views(poly@)[i as int] == poly@[i as int]@);
                assert(!p.is_zero_v(views(poly@)[i as int]));
                assert(!spec_const_v(p, views(poly@)));
            }
            return false;
        }
        i = i + 1;
    }
    proof {
        assert forall|j: int| 1 <= j < poly@.len() implies #[trigger] p.is_zero_v(views(poly@)[j]) by {
            p.lemma_zero_view(&poly@[j]);
        }
    }
    true
}

/// One pseudo-remainder pass: repeatedly scales the dividend by the divisor's
/// leading coefficient and cancels the top term, so no division is needed.
/// Over a field this leaves the remainder up to a nonzero scalar.
fn pseudo_rem<T: View, F: FieldChar<T>>(p: &F, a: Polynomial<T>, b: &Polynomial<T>) -> (r: Polynomial<T>)
    requires
        p.wf(),
        poly_ok(p, a@),
        poly_ok(p, b@),
        b@.len() >= 1,
    ensures
        poly_ok(p, r@),
        r@.len() < b@.len(),
        views(r@) == spec_pseudo_rem_v(p, views(a@), views(b@)),
{
    let ghost target = spec_pseudo_rem_v(p, views(a@), views(b@));
    let mut cur = a;
    while cur.coefs.len() >= b.coefs.len()
        invariant
            p.wf(),
            poly_ok(p, cur@),
            poly_ok(p, b@),
            b@.len() >= 1,
            spec_pseudo_rem_v(p, views(cur@), views(b@)) == target,
        decreases cur@.len(),
    {
        let ghost pre = cur@;
        let da = cur.coefs.len() - 1;
        let db = b.coefs.len() - 1;
        let shift = da - db;
        let lca = p.copy_ok(&cur.coefs[da]);
        let lcb = p.copy_ok(&b.coefs[db]);
        let mut next: Vec<T> = Vec::new();
        let mut k: usize = 0;
        while k < da
            invariant
                p.wf(),
                poly_ok(p, cur@),
                poly_ok(p, b@),
                cur@ == pre,
                k <= da,
                da == cur@.len() - 1,
                cur@.len() >= b@.len(),
                db == b@.len() - 1,
                shift == da - db,
                p.ok(&lca),
                p.ok(&lcb),
                lca@ == views(pre)[pre.len() - 1],
                lcb@ == views(b@)[b@.len() - 1],
                next@.len() == k,
                forall|j: int| 0 <= j < next@.len() ==> #[trigger] p.ok(&next@[j]),
                forall|j: int| 0 <= j < next@.len() ==>
                    #[trigger] next@[j]@ == spec_pseudo_step_v(p, views(pre), views(b@))[j],
            decreases da - k,
        {
            let left = p.mul_el(&cur.coefs[k], &lcb);
            let right = if k >= shift {
                p.mul_el(&b.coefs[k - shift], &lca)
            } else {
                p.zero_el()
            };
            next.push(p.sub_el(&left, &right));
            k = k + 1;
        }
        proof {
            assert(views(next@) =~= spec_pseudo_step_v(p, views(pre), views(b@)));
        }
        cur = Polynomial { coefs: pnormalize(p, next) };
        proof {
            assert(spec_pseudo_rem_v(p, views(pre), views(b@))
                == spec_pseudo_rem_v(p, spec_pnorm_v(p, spec_pseudo_step_v(p, views(pre), views(b@))), views(b@)));
        }
    }
    proof {
        assert(spec_pseudo_rem_v(p, views(cur@), views(b@)) == views(cur@));
    }
    cur
}

/// Euclidean gcd chain by pseudo-remainders: the result is exactly the end
/// of the spec-level chain of cancellation rounds, which over a field is the
/// gcd of the canonical inputs up to a nonzero scalar — the constancy that
/// the squarefree test reads is decided by this value.
pub fn gcd<T: View, F: FieldChar<T>>(a: Polynomial<T>, b: Polynomial<T>, p: &F) -> (r: Polynomial<T>)
    requires
        p.wf(),
        poly_ok(p, a@),
        poly_ok(p, b@),
    ensures
        poly_ok(p, r@),
        views(r@) == spec_gcd_v(p, views(a@), views(b@)),
        b@.len() == 0 ==> r@ == a@,
        r@.len() <= a@.len() || r@.len() <= b@.len(),
{
    let ghost a0 = a@;
    let ghost b0 = b@;
    let ghost target = spec_gcd_v(p, views(a@), views(b@));
    let mut a = a;
    let mut b = b;
    while b.coefs.len() > 0
        invariant
            p.wf(),
            poly_ok(p, a@),
            poly_ok(p, b@),
            spec_gcd_v(p, views(a@), views(b@)) == target,
            b0.len() == 0 ==> b@ == b0 && a@ == a0,
            b@.len() <= b0.len(),
            a@.len() <= a0.len() || a@.len() <= b0.len(),
        decreases b@.len(),
    {
        proof {
            assert(spec_gcd_v(p, views(a@), views(b@))
                == spec_gcd_v(p, views(b@), spec_pseudo_rem_v(p, views(a@), views(b@))));
        }
        let r = pseudo_rem(p, a, &b);
        a = b;
        b = r;
    }
    proof {
        assert(views(b@).len() == 0);
        assert(spec_gcd_v(p, views(a@), views(b@)) == views(a@));
    }
    a
}

/// The formal derivative at the view level: coefficient i becomes i + 1
/// times coefficient i + 1, normalized.
pub open spec fn spec_deriv_v<T: View, F: FieldChar<T>>(p: &F, s: Seq<T::V>) -> Seq<T::V> {
    let n = if s.len() == 0 { 0 } else { (s.len() - 1) as nat };
    spec_pnorm_v(p, Seq::new(n, |i: int| p.natmul_v(s[i + 1], i + 1)))
}

/// Formal derivative: coefficient i of f becomes i times coefficient i+1... of f.
fn derivative<T: View, F: FieldChar<T>>(p: &F, f: &Polynomial<T>) -> (r: Polynomial<T>)
    requires
        p.wf(),
        poly_ok(p, f@),
    ensures
        poly_ok(p, r@),
        views(r@) == spec_deriv_v(p, views(f@)),
{
    let mut out: Vec<T> = Vec::new();
    let mut i: usize = 1;
    while i < f.coefs.len()
        invariant
            p.wf(),
            poly_ok(p, f@),
            1 <= i,
            i <= f@.len() || f@.len() == 0,
            f@.len() == 0 ==> out@.len() == 0,
            f@.len() > 0 ==> out@.len() == i - 1,
            forall|j: int| 0 <= j < out@.len() ==> #[trigger] p.ok(&out@[j])
                && out@[j]@ == p.natmul_v(views(f@)[j + 1], j + 1),
        decreases f@.len() - i,
    {
        out.push(p.nat_mul(&f.coefs[i], i));
        i = i + 1;
    }
    proof {
        let n: nat = if f@.len() == 0 { 0 } else { (f@.len() - 1) as nat };
        assert(out@.len() == n);
        assert forall|j: int| 0 <= j < out@.len() implies
            views(out@)[j] == Seq::new(n, |jj: int| p.natmul_v(views(f@)[jj + 1], jj + 1))[j] by {
            assert(p.ok(&out@[j]));
            assert(out@[j]@ == p.natmul_v(views(f@)[j + 1], j + 1));
        }
        assert(views(out@) =~= Seq::new(n, |j: int| p.natmul_v(views(f@)[j + 1], j + 1)));
    }
    Polynomial { coefs: pnormalize(p, out) }
}

/// One cancellation round of Euclidean division at the view level: the top
/// term of a, scaled by the inverse of m's leading coefficient, times the
/// shifted m, is subtracted and the top coefficient dropped.
pub open spec fn spec_rem_step_v<T: View, F: FieldChar<T>>(p: &F, a: Seq<T::V>, m: Seq<T::V>, lcv: T::V) -> Seq<T::V> {
    let shift = a.len() - m.len();
    let factor = p.mul_v(a[a.len() - 1], lcv);
    Seq::new(
        (a.len() - 1) as nat,
        |k: int|
            {
                let sub = if k >= shift { p.mul_v(factor, m[k - shift]) } else { p.zero_v() };
                p.sub_v(a[k], sub)
            },
    )
}

/// The Euclidean remainder chain at the view level.
pub open spec fn spec_rem_mod_v<T: View, F: FieldChar<T>>(p: &F, a: Seq<T::V>, m: Seq<T::V>, lcv: T::V) -> Seq<T::V>
    decreases a.len() when m.len() >= 1 via spec_rem_mod_v_decreases::<T, F>
{
    if a.len() < m.len() {
        a
    } else {
        spec_rem_mod_v(p, spec_pnorm_v(p, spec_rem_step_v(p, a, m, lcv)), m, lcv)
    }
}

#[via_fn]
proof fn spec_rem_mod_v_decreases<T: View, F: FieldChar<T>>(p: &F, a: Seq<T::V>, m: Seq<T::V>, lcv: T::V) {
    if m.len() >= 1 && a.len() >= m.len() {
        lemma_pnorm_v_len(p, spec_rem_step_v(p, a, m, lcv));
    }
}

/// Holds of the output of `rem_mod` for the given input: it is canonical,
/// reduced below the modulus degree, and an already-reduced input is returned
/// unchanged.
pub open spec fn rem_post<T: View, F: FieldChar<T>>(p: &F, a: Seq<T>, m: Seq<T>, r: Seq<T>) -> bool {
    &&& poly_ok(p, r)
    &&& r.len() < m.len()
    &&& a.len() < m.len() ==> r == a
}

/// Euclidean remainder of a by m; the caller supplies the inverse of m's
/// leading coefficient. The top term is cancelled explicitly each round, so the
/// degree strictly drops whatever the context's inverse returned.
pub(crate) fn rem_mod<T: View, F: FieldChar<T>>(p: &F, a: Polynomial<T>, m: &Polynomial<T>, lc_inv: &T) -> (r: Polynomial<T>)
    requires
        p.wf(),
        poly_ok(p, a@),
        poly_ok(p, m@),
        m@.len() >= 1,
        p.ok(lc_inv),
    ensures
        rem_post(p, a@, m@, r@),
        views(r@) == spec_rem_mod_v(p, views(a@), views(m@), lc_inv@),
{
    if a.coefs.len() < m.coefs.len() {
        return a;
    }
    let ghost target = spec_rem_mod_v(p, views(a@), views(m@), lc_inv@);
    let mut cur = a;
    while cur.coefs.len() >= m.coefs.len()
        invariant
            p.wf(),
            poly_ok(p, cur@),
            poly_ok(p, m@),
            m@.len() >= 1,
            p.ok(lc_inv),
            spec_rem_mod_v(p, views(cur@), views(m@), lc_inv@) == target,
        decreases cur@.len(),
    {
        let ghost pre = cur@;
        let da = cur.coefs.len() - 1;
        let dm = m.coefs.len() - 1;
        let shift = da - dm;
        let factor = p.mul_el(&cur.coefs[da], lc_inv);
        let mut next: Vec<T> = Vec::new();
        let mut k: usize = 0;
        while k < da
            invariant
                p.wf(),
                poly_ok(p, cur@),
                poly_ok(p, m@),
                cur@ == pre,
                k <= da,
                da == cur@.len() - 1,
                cur@.len() >= m@.len(),
                dm == m@.len() - 1,
                shift == da - dm,
                p.ok(&factor),
                factor@ == p.mul_v(views(pre)[pre.len() - 1], lc_inv@),
                next@.len() == k,
                forall|j: int| 0 <= j < next@.len() ==> #[trigger] p.ok(&next@[j]),
                forall|j: int| 0 <= j < next@.len() ==>
                    #[trigger] next@[j]@ == spec_rem_step_v(p, views(pre), views(m@), lc_inv@)[j],
            decreases da - k,
        {
            let sub = if k >= shift {
                p.mul_el(&factor, &m.coefs[k - shift])
            } else {
                p.zero_el()
            };
            next.push(p.sub_el(&cur.coefs[k], &sub));
            k = k + 1;
        }
        proof {
            assert(views(next@) =~= spec_rem_step_v(p, views(pre), views(m@), lc_inv@));
        }
        cur = Polynomial { coefs: pnormalize(p, next) };
        proof {
            assert(spec_rem_mod_v(p, views(pre), views(m@), lc_inv@)
                == spec_rem_mod_v(
                    p,
                    spec_pnorm_v(p, spec_rem_step_v(p, views(pre), views(m@), lc_inv@)),
                    views(m@),
                    lc_inv@,
                ));
        }
    }
    proof {
        assert(spec_rem_mod_v(p, views(cur@), views(m@), lc_inv@) == views(cur@));
    }
    cur
}

/// Reducing modulo m is idempotent: reducing a reduced value changes nothing,
/// so reducing twice equals reducing once.
pub proof fn lemma_rem_idempotent<T: View, F: FieldChar<T>>(p: &F, f: Seq<T>, m: Seq<T>, r1: Seq<T>, r2: Seq<T>)
    requires
        m.len() >= 1,
        rem_post(p, f, m, r1),
        rem_post(p, r1, m, r2),
    ensures
        r2 == r1,
{
}

/// The element views of a matrix, row by row.
pub open spec fn mat_views<T: View>(m: Seq<Vec<T>>) -> Seq<Seq<T::V>> {
    Seq::new(m.len(), |i: int| views(m[i]@))
}

/// The first index of the row holding a nonzero element, scanning from j;
/// the row length when every entry from j on is zero.
pub open spec fn spec_first_nonzero_v<T: View, F: FieldChar<T>>(p: &F, row: Seq<T::V>, j: int) -> int
    decreases row.len() - j when 0 <= j <= row.len()
{
    if j >= row.len() {
        row.len() as int
    } else if !p.is_zero_v(row[j]) {
        j
    } else {
        spec_first_nonzero_v(p, row, j + 1)
    }
}

/// One fraction-free elimination pass: each remaining row is scaled by the
/// pivot value and the pivot row, scaled by the row's own pivot-column entry,
/// is subtracted.
pub open spec fn spec_eliminate_v<T: View, F: FieldChar<T>>(
    p: &F,
    rows: Seq<Seq<T::V>>,
    prow: Seq<T::V>,
    piv: int,
) -> Seq<Seq<T::V>> {
    Seq::new(
        rows.len(),
        |i: int|
            Seq::new(
                rows[i].len(),
                |k: int| p.sub_v(p.mul_v(prow[piv], rows[i][k]), p.mul_v(rows[i][piv], prow[k])),
            ),
    )
}

/// The nullity count that the solver accumulates: consume the last row; a row
/// with no nonzero entry adds one, otherwise its pivot column is eliminated
/// from the remaining rows.
pub open spec fn spec_kerdim_v<T: View, F: FieldChar<T>>(p: &F, m: Seq<Seq<T::V>>) -> int
    decreases m.len(),
{
    if m.len() == 0 {
        0
    } else {
        let row = m[m.len() - 1];
        let rest = m.drop_last();
        let piv = spec_first_nonzero_v(p, row, 0);
        if piv >= row.len() {
            1 + spec_kerdim_v(p, rest)
        } else {
            spec_kerdim_v(p, spec_eliminate_v(p, rest, row, piv))
        }
    }
}

/// A matrix whose entries are all admissible under the context.
pub open spec fn mat_ok<T: View, F: FieldChar<T>>(p: &F, m: Seq<Vec<T>>) -> bool {
    forall|i: int, j: int| 0 <= i < m.len() && 0 <= j < m[i]@.len() ==> #[trigger] p.ok(&m[i]@[j])
}

/// Every entry of every row is zero.
pub open spec fn mat_zero<T: View, F: FieldChar<T>>(p: &F, m: Seq<Vec<T>>) -> bool {
    forall|i: int, j: int| 0 <= i < m.len() && 0 <= j < m[i]@.len() ==> #[trigger] p.is_zero_s(&m[i]@[j])
}

/// Row i of an identity-shaped matrix: one on the diagonal, zero elsewhere.
pub open spec fn identity_row<T: View, F: FieldChar<T>>(p: &F, row: Seq<T>, i: int) -> bool {
    &&& 0 <= i < row.len()
    &&& p.is_one_s(&row[i])
    &&& forall|j: int| 0 <= j < row.len() && j != i ==> #[trigger] p.is_zero_s(&row[j])
}

/// The identity matrix: square, ones on the diagonal, zeros elsewhere.
pub open spec fn mat_identity<T: View, F: FieldChar<T>>(p: &F, m: Seq<Vec<T>>) -> bool {
    forall|i: int| 0 <= i < m.len() ==>
        (#[trigger] m[i]@).len() == m.len() && identity_row(p, m[i]@, i)
}

/// The first rows of an identity matrix of width w.
pub open spec fn mat_prefix_identity<T: View, F: FieldChar<T>>(p: &F, m: Seq<Vec<T>>, w: int) -> bool {
    forall|i: int| 0 <= i < m.len() ==>
        (#[trigger] m[i]@).len() == w && identity_row(p, m[i]@, i)
}

/// Kernel dimension by fraction-free Gaussian elimination: consume the last
/// row; a row with no nonzero entry adds one to the nullity, otherwise its
/// pivot column is eliminated from the remaining rows (each row is scaled by
/// the pivot value rather than divided, which preserves the zero pattern over
/// a field). The identity matrix has nullity 0 and the zero matrix nullity n.
pub fn kerdim<T: View, F: FieldChar<T>>(mat: Mat<T>, p: &F) -> (r: usize)
    requires
        p.wf(),
        mat_ok(p, mat@),
        forall|i: int| 0 <= i < mat@.len() ==> (#[trigger] mat@[i]@).len() == mat@.len(),
    ensures
        r as int == spec_kerdim_v(p, mat_views(mat@)),
        r <= mat@.len(),
        mat_zero(p, mat@) ==> r == mat@.len(),
        mat_identity(p, mat@) ==> r == 0,
{
    let ghost orig = mat@;
    let ghost w = mat@.len() as int;
    let ghost target = spec_kerdim_v(p, mat_views(mat@));
    let mut mat = mat;
    let mut ans: usize = 0;
    while mat.len() > 0
        invariant
            p.wf(),
            mat_ok(p, mat@),
            mat@.len() <= orig.len(),
            ans <= orig.len() - mat@.len(),
            ans + spec_kerdim_v(p, mat_views(mat@)) == target,
            forall|i: int| 0 <= i < mat@.len() ==> (#[trigger] mat@[i]@).len() == w,
            w == orig.len(),
            mat_zero(p, orig) ==> (mat_zero(p, mat@) && ans == orig.len() - mat@.len()),
            mat_identity(p, orig) ==> (ans == 0 && mat_prefix_identity(p, mat@, w)),
        decreases mat@.len(),
    {
        let ghost pre = mat@;
        let row = mat.pop().unwrap();
        let ghost rowi = mat@.len() as int;
        proof {
            assert(row@ == pre[pre.len() - 1]@);
            assert(mat_views(pre)[pre.len() - 1] =~= views(row@));
            assert(mat_views(pre).drop_last() =~= mat_views(mat@));
        }
        // scan for the first nonzero entry
        let mut piv: usize = 0;
        let mut found = false;
        let mut j: usize = 0;
        while j < row.len()
            invariant
                p.wf(),
                j <= row@.len(),
                forall|jj: int| 0 <= jj < row@.len() ==> #[trigger] p.ok(&row@[jj]),
                !found ==> forall|jj: int| 0 <= jj < j ==> #[trigger] p.is_zero_s(&row@[jj]),
                !found ==> spec_first_nonzero_v(p, views(row@), 0)
                    == spec_first_nonzero_v(p, views(row@), j as int),
                found ==> piv < row@.len() && !p.is_zero_s(&row@[piv as int])
                    && spec_first_nonzero_v(p, views(row@), 0) == piv as int
                    && forall|jj: int| 0 <= jj < piv ==> #[trigger] p.is_zero_s(&row@[jj]),
            decreases row@.len() - j,
        {
            proof {
                p.lemma_zero_view(&row@[j as int]);
            }
            if !found && !p.is_zero(&row[j]) {
                piv = j;
                found = true;
            }
            j = j + 1;
        }
        proof {
            if !found {
                assert(spec_first_nonzero_v(p, views(row@), 0) == views(row@).len());
            }
        }
        if !found {
            proof {
                assert(spec_kerdim_v(p, mat_views(pre))
                    == 1 + spec_kerdim_v(p, mat_views(mat@)));
                if mat_identity(p, orig) {
                    assert(identity_row(p, row@, rowi));
                    assert(p.is_zero_s(&row@[rowi]));
                    p.lemma_one_nonzero(&row@[rowi]);
                    assert(false);
                }
            }
            ans = ans + 1;
        } else {
            proof {
                if mat_zero(p, orig) {
                    assert(p.is_zero_s(&row@[piv as int]));
                    assert(false);
                }
                if mat_identity(p, orig) {
                    // the pivot of identity row rowi is its diagonal entry
                    assert(identity_row(p, row@, rowi));
                    if piv != rowi {
                        assert(p.is_zero_s(&row@[piv as int]));
                        assert(false);
                    }
                }
            }
            let mut newmat: Mat<T> = Vec::new();
            let mut i: usize = 0;
            while i < mat.len()
                invariant
                    p.wf(),
                    mat_ok(p, mat@),
                    forall|ii: int| 0 <= ii < mat@.len() ==> (#[trigger] mat@[ii]@).len() == w,
                    i <= mat@.len(),
                    newmat@.len() == i,
                    piv < w,
                    row@.len() == w,
                    forall|jj: int| 0 <= jj < row@.len() ==> #[trigger] p.ok(&row@[jj]),
                    found ==> !p.is_zero_s(&row@[piv as int]),
                    forall|ii: int| 0 <= ii < newmat@.len() ==> (#[trigger] newmat@[ii]@).len() == w,
                    mat_ok(p, newmat@),
                    rowi == mat@.len(),
                    rowi < w || mat@.len() == 0,
                    forall|ii: int| 0 <= ii < newmat@.len() ==>
                        views(#[trigger] newmat@[ii]@)
                            == spec_eliminate_v(p, mat_views(mat@), views(row@), piv as int)[ii],
                    mat_identity(p, orig) ==> (mat_prefix_identity(p, mat@, w)
                        && p.is_one_s(&row@[piv as int]) && piv == rowi
                        && forall|ii: int| 0 <= ii < newmat@.len() ==>
                            identity_row(p, #[trigger] newmat@[ii]@, ii)),
                decreases mat@.len() - i,
            {
                let mut nr: Vec<T> = Vec::new();
                let mut k: usize = 0;
                while k < row.len()
                    invariant
                        p.wf(),
                        mat_ok(p, mat@),
                        i < mat@.len(),
                        mat@[i as int]@.len() == w,
                        row@.len() == w,
                        piv < w,
                        k <= w,
                        nr@.len() == k,
                        forall|jj: int| 0 <= jj < row@.len() ==> #[trigger] p.ok(&row@[jj]),
                        forall|jj: int| 0 <= jj < nr@.len() ==> #[trigger] p.ok(&nr@[jj]),
                        rowi == mat@.len(),
                        rowi < w,
                        forall|jj: int| 0 <= jj < nr@.len() ==>
                            #[trigger] nr@[jj]@ == p.sub_v(
                                p.mul_v(views(row@)[piv as int], views(mat@[i as int]@)[jj]),
                                p.mul_v(views(mat@[i as int]@)[piv as int], views(row@)[jj]),
                            ),
                        mat_identity(p, orig) ==> (p.is_one_s(&row@[piv as int])
                            && mat_prefix_identity(p, mat@, w) && piv == rowi
                            && forall|jj: int| 0 <= jj < nr@.len() ==>
                                (jj == i ==> p.is_one_s(&nr@[jj]))
                                && (jj != i ==> p.is_zero_s(#[trigger] &nr@[jj]))),
                    decreases w - k,
                {
                    let left = p.mul_el(&row[piv], &mat[i][k]);
                    let right = p.mul_el(&mat[i][piv], &row[k]);
                    proof {
                        if mat_identity(p, orig) {
                            // the pivot column entry of an identity prefix row
                            // is off-diagonal, hence zero, so the row survives
                            // the elimination with its zero pattern intact
                            assert(identity_row(p, mat@[i as int]@, i as int));
                            assert(i as int != piv as int);
                            assert(p.is_zero_s(&mat@[i as int]@[piv as int]));
                            assert(p.is_zero_s(&right));
                            if k as int == i as int {
                                assert(p.is_one_s(&mat@[i as int]@[k as int]));
                                assert(p.is_one_s(&left));
                            } else {
                                assert(p.is_zero_s(&mat@[i as int]@[k as int]));
                                assert(p.is_zero_s(&left));
                            }
                        }
                    }
                    nr.push(p.sub_el(&left, &right));
                    k = k + 1;
                }
                proof {
                    assert(views(nr@)
                        =~= spec_eliminate_v(p, mat_views(mat@), views(row@), piv as int)[i as int]);
                    if mat_identity(p, orig) {
                        assert(identity_row(p, nr@, i as int));
                    }
                }
                newmat.push(nr);
                i = i + 1;
            }
            proof {
                assert(mat_views(newmat@)
                    =~= spec_eliminate_v(p, mat_views(mat@), views(row@), piv as int));
                assert(spec_kerdim_v(p, mat_views(pre))
                    == spec_kerdim_v(p, spec_eliminate_v(p, mat_views(mat@), views(row@), piv as int)));
                if mat_identity(p, orig) {
                    assert(mat_prefix_identity(p, newmat@, w));
                }
            }
            mat = newmat;
        }
    }
    proof {
        assert(mat_views(mat@) =~= Seq::<Seq<T::V>>::empty());
        assert(spec_kerdim_v(p, mat_views(mat@)) == 0);
    }
    ans
}

/// Builds row `deg` of the Berlekamp operator: the coefficients of
/// x^(q * deg) mod f, with 1 subtracted at position deg.
/// The monomial x^pw, as coefficient views.
pub open spec fn spec_mono_v<T: View, F: FieldChar<T>>(p: &F, pw: int) -> Seq<T::V> {
    Seq::new((pw + 1) as nat, |i: int| if i < pw { p.zero_v() } else { p.one_v() })
}

/// Row `deg` of the Berlekamp operator at the view level: the canonical
/// remainder of x^pw by f, zero-padded to degree deg(f) - 1, with one
/// subtracted at position deg.
pub open spec fn spec_op_row_v<T: View, F: FieldChar<T>>(p: &F, fv: Seq<T::V>, lcv: T::V, pw: int, deg: int) -> Seq<T::V> {
    let fr = spec_rem_mod_v(p, spec_mono_v(p, pw), fv, lcv);
    Seq::new(
        (fv.len() - 1) as nat,
        |k: int|
            {
                let base = if k < fr.len() { fr[k] } else { p.zero_v() };
                if k == deg {
                    p.sub_v(base, p.one_v())
                } else {
                    base
                }
            },
    )
}

/// The order value the solver actually computes: the field order, saturated
/// at the machine word.
pub open spec fn spec_order_exec<T: View, F: FieldChar<T>>(p: &F) -> int {
    if p.order_s() <= usize::MAX {
        p.order_s()
    } else {
        usize::MAX as int
    }
}

/// Whether every operator exponent q * deg fits the machine word.
pub open spec fn spec_op_fits<T: View, F: FieldChar<T>>(p: &F, n: int) -> bool {
    n <= 1 || spec_order_exec(p) <= (usize::MAX - 1) / (n - 1)
}

/// The full Berlekamp operator matrix at the view level.
pub open spec fn spec_operator_v<T: View, F: FieldChar<T>>(p: &F, fv: Seq<T::V>, lcv: T::V) -> Seq<Seq<T::V>> {
    Seq::new((fv.len() - 1) as nat, |d: int| spec_op_row_v(p, fv, lcv, spec_order_exec(p) * d, d))
}

fn operator_row<T: View, F: FieldChar<T>>(p: &F, f: &Polynomial<T>, lc_inv: &T, pow: usize, deg: usize) -> (r: Vec<T>)
    requires
        p.wf(),
        poly_ok(p, f@),
        f@.len() >= 2,
        p.ok(lc_inv),
        deg < f@.len() - 1,
        pow < usize::MAX,
    ensures
        r@.len() == f@.len() - 1,
        forall|j: int| 0 <= j < r@.len() ==> #[trigger] p.ok(&r@[j]),
        views(r@) == spec_op_row_v(p, views(f@), lc_inv@, pow as int, deg as int),
{
    let mut mono: Vec<T> = Vec::new();
    let mut i: usize = 0;
    while i < pow
        invariant
            p.wf(),
            i <= pow,
            mono@.len() == i,
            forall|j: int| 0 <= j < mono@.len() ==> #[trigger] p.ok(&mono@[j])
                && p.is_zero_s(&mono@[j]) && mono@[j]@ == p.zero_v(),
        decreases pow - i,
    {
        mono.push(p.zero_el());
        i = i + 1;
    }
    let one = p.one_el();
    proof {
        p.lemma_one_nonzero(&one);
    }
    mono.push(one);
    proof {
        assert forall|j: int| 0 <= j < mono@.len() implies
            views(mono@)[j] == spec_mono_v(p, pow as int)[j] by {
            assert(p.ok(&mono@[j]));
        }
        assert(views(mono@) =~= spec_mono_v(p, pow as int));
    }
    let factored = rem_mod(p, Polynomial { coefs: mono }, f, lc_inv);
    let n = f.coefs.len() - 1;
    let one2 = p.one_el();
    let mut out: Vec<T> = Vec::new();
    let mut k: usize = 0;
    while k < n
        invariant
            p.wf(),
            poly_ok(p, factored@),
            views(factored@) == spec_rem_mod_v(p, spec_mono_v(p, pow as int), views(f@), lc_inv@),
            n == f@.len() - 1,
            deg < n,
            k <= n,
            out@.len() == k,
            p.ok(&one2),
            one2@ == p.one_v(),
            forall|j: int| 0 <= j < out@.len() ==> #[trigger] p.ok(&out@[j]),
            forall|j: int| 0 <= j < out@.len() ==>
                #[trigger] out@[j]@ == spec_op_row_v(p, views(f@), lc_inv@, pow as int, deg as int)[j],
        decreases n - k,
    {
        let base = if k < factored.coefs.len() {
            p.copy_ok(&factored.coefs[k])
        } else {
            p.zero_el()
        };
        let val = if k == deg {
            p.sub_el(&base, &one2)
        } else {
            base
        };
        out.push(val);
        k = k + 1;
    }
    proof {
        assert(views(out@) =~= spec_op_row_v(p, views(f@), lc_inv@, pow as int, deg as int));
    }
    out
}

/// Builds the n x n matrix of the operator e_i -> x^(q i) mod f - e_i over the
/// base field of order q; `None` when q * i does not fit a machine word.
fn operator<T: View, F: FieldChar<T>>(p: &F, f: &Polynomial<T>, lc_inv: &T) -> (r: Option<Mat<T>>)
    requires
        p.wf(),
        poly_ok(p, f@),
        f@.len() >= 2,
        p.ok(lc_inv),
    ensures
        (r is Some) == spec_op_fits(p, (f@.len() - 1) as int),
        match r {
            Some(m) => {
                &&& m@.len() == f@.len() - 1
                &&& mat_ok(p, m@)
                &&& forall|i: int| 0 <= i < m@.len() ==> (#[trigger] m@[i]@).len() == m@.len()
                &&& mat_views(m@) == spec_operator_v(p, views(f@), lc_inv@)
            },
            None => true,
        },
{
    let n = f.coefs.len() - 1;
    let q = p.order();
    let mut rows: Mat<T> = Vec::new();
    let mut deg: usize = 0;
    while deg < n
        invariant
            p.wf(),
            poly_ok(p, f@),
            f@.len() >= 2,
            p.ok(lc_inv),
            n == f@.len() - 1,
            deg <= n,
            q as int == spec_order_exec(p),
            deg >= 2 ==> q as int <= (usize::MAX - 1) / (deg as int - 1),
            rows@.len() == deg,
            mat_ok(p, rows@),
            forall|i: int| 0 <= i < rows@.len() ==> (#[trigger] rows@[i]@).len() == n,
            forall|i: int| 0 <= i < rows@.len() ==>
                views(#[trigger] rows@[i]@) == spec_operator_v(p, views(f@), lc_inv@)[i],
        decreases n - deg,
    {
        if deg != 0 && q > (usize::MAX - 1) / deg {
            proof {
                if n as int - 1 > deg as int {
                    vstd::arithmetic::div_mod::lemma_div_is_ordered_by_denominator(
                        usize::MAX - 1,
                        deg as int,
                        n as int - 1,
                    );
                }
                assert(!spec_op_fits(p, n as int));
            }
            return None;
        }
        proof {
            if deg != 0 {
                lemma_div_mul_le(usize::MAX - 1, deg as int);
                assert(q * deg < usize::MAX) by (nonlinear_arith)
                    requires
                        q <= (usize::MAX - 1) / (deg as int),
                        deg >= 1,
                        (usize::MAX - 1) / (deg as int) * (deg as int) <= usize::MAX - 1,
                {}
            }
        }
        let pow = q * deg;
        let row = operator_row(p, f, lc_inv, pow, deg);
        rows.push(row);
        deg = deg + 1;
    }
    proof {
        assert(mat_views(rows@) =~= spec_operator_v(p, views(f@), lc_inv@));
        if n as int > 1 {
            assert(spec_op_fits(p, n as int));
        }
    }
    Some(rows)
}

/// Floor division times the divisor stays below the dividend.
proof fn lemma_div_mul_le(x: int, d: int)
    requires
        x >= 0,
        d >= 1,
    ensures
        x / d * d <= x,
{
    vstd::arithmetic::div_mod::lemma_fundamental_div_mod(x, d);
    assert(x / d * d <= x) by (nonlinear_arith)
        requires x == d * (x / d) + x % d, 0 <= x % d,
    {}
}

/// The Berlekamp-style irreducibility test: reject constants, reject
/// polynomials that are not squarefree (gcd with the derivative is not a
/// nonzero constant), then accept exactly when the kernel of the operator
/// matrix has dimension 1.
/// The irreducibility decision at the view level, stage by stage: the
/// polynomial is not a constant; the gcd with its derivative is a nonzero
/// constant (squarefree); the leading coefficient is invertible and the
/// operator exponents fit the machine; and the kernel of the Berlekamp
/// operator has dimension exactly one.
pub open spec fn spec_is_irr_v<T: View, F: FieldChar<T>>(p: &F, fv: Seq<T::V>) -> bool {
    &&& !spec_const_v(p, fv)
    &&& ({
        let g = spec_gcd_v(p, fv, spec_deriv_v(p, fv));
        g.len() != 0 && spec_const_v(p, g)
    })
    &&& p.invertible_s(fv[fv.len() - 1])
    &&& spec_op_fits(p, (fv.len() - 1) as int)
    &&& spec_kerdim_v(p, spec_operator_v(p, fv, p.inv_v(fv[fv.len() - 1]))) == 1
}

pub fn is_irreducible<T: View, F: FieldChar<T>>(f: &Polynomial<T>, p: &F) -> (r: bool)
    requires
        p.wf(),
        poly_ok(p, f@),
    ensures
        r == spec_is_irr_v(p, views(f@)),
        r ==> !spec_is_constant(p, f@) && f@.len() >= 2,
{
    if is_constant(f, p) {
        return false;
    }
    proof {
        if f@.len() < 2 {
            assert(spec_is_constant(p, f@));
        }
    }
    let d = derivative(p, f);
    let g = gcd(copy_poly(p, f), d, p);
    proof {
        assert(views(g@) == spec_gcd_v(p, views(f@), spec_deriv_v(p, views(f@))));
    }
    if g.coefs.len() == 0 {
        return false;
    }
    if !is_constant(&g, p) {
        return false;
    }
    let lc = p.copy_ok(&f.coefs[f.coefs.len() - 1]);
    proof {
        assert(lc@ == views(f@)[f@.len() - 1]);
    }
    match p.inverse(&lc) {
        None => false,
        Some(lc_inv) => {
            match operator(p, f, &lc_inv) {
                None => false,
                Some(m) => kerdim(m, p) == 1,
            }
        },
    }
}

/// Relies on rand's RngExt::random through the thread-local generator: one uniformly
/// random 32-bit value; nothing is assumed about which one.
#[verifier::external_body]
fn random_u32() -> u32 {
    <rand::rngs::ThreadRng as rand::RngExt>::random(&mut rand::rng())
}

/// A uniformly random monic polynomial of the given degree with lower
/// coefficients in [0, prime).
pub fn sample_poly(prime: u32, deg: usize) -> (r: Poly)
    requires
        prime >= 2,
        deg < usize::MAX,
    ensures
        poly_ok(&prime, r@),
        r@.len() == deg + 1,
        r@[deg as int] == 1,
{
    let p = prime as u64;
    let mut coefs: Vec<u64> = Vec::new();
    let mut i: usize = 0;
    while i < deg
        invariant
            prime >= 2,
            p == prime as u64,
            i <= deg,
            coefs@.len() == i,
            forall|j: int| 0 <= j < coefs@.len() ==> #[trigger] (&prime).ok(&coefs@[j]),
        decreases deg - i,
    {
        let c = (random_u32() as u64) % p;
        coefs.push(c);
        i = i + 1;
    }
    coefs.push(1);
    Polynomial { coefs }
}

/// Fast exponentiation of x to `pow` modulo the monic polynomial m over
/// GF(prime), reducing after every multiplication; the result is exactly the
/// spec-level square-and-multiply value. The length caps are the machine
/// bound: a schoolbook product of two such polynomials must index with usize.
pub fn power(x: Poly, pow: u32, m: &Poly, prime: u32) -> (r: Poly)
    requires
        prime >= 2,
        poly_ok(&prime, x@),
        poly_ok(&prime, m@),
        2 <= m@.len() <= usize::MAX / 2,
        m@[m@.len() - 1] == 1,
        x@.len() <= usize::MAX / 2,
    ensures
        r@ == spec_power_of(x@, pow as int, m@, prime as int),
        pow == 0 ==> r@ == seq![1u64],
        poly_ok(&prime, r@),
        r@.len() < m@.len(),
{
    let ghost pi: int = prime as int;
    proof {
        lemma_poly_ok_raw(prime, x@);
        lemma_poly_ok_raw(prime, m@);
    }
    let mut xv = rem_raw(x.coefs, &m.coefs, prime);
    let mut yv: Vec<u64> = Vec::new();
    yv.push(1);
    proof {
        assert(yv@ =~= seq![1u64]);
    }
    let ghost x0 = xv@;
    let ghost pow0: int = pow as int;
    let mut pow = pow;
    while pow > 0
        invariant
            prime >= 2,
            pi == prime as int,
            2 <= m@.len() <= usize::MAX / 2,
            m@[m@.len() - 1] == 1,
            forall|i: int| 0 <= i < m@.len() ==> #[trigger] m@[i] < prime as u64,
            forall|i: int| 0 <= i < xv@.len() ==> #[trigger] xv@[i] < prime as u64,
            forall|i: int| 0 <= i < yv@.len() ==> #[trigger] yv@[i] < prime as u64,
            xv@.len() < m@.len(),
            yv@.len() < m@.len(),
            xv@.len() > 0 ==> xv@[xv@.len() - 1] != 0,
            yv@.len() > 0 ==> yv@[yv@.len() - 1] != 0,
            spec_power(xv@, yv@, pow as int, m@, pi) == spec_power(x0, seq![1u64], pow0, m@, pi),
        decreases pow,
    {
        if pow % 2 == 0 {
            let sq = pmul_raw(&xv, &xv, prime);
            xv = rem_raw(sq, &m.coefs, prime);
            pow = pow / 2;
        } else {
            let yx = pmul_raw(&yv, &xv, prime);
            yv = rem_raw(yx, &m.coefs, prime);
            pow = pow - 1;
        }
    }
    proof {
        lemma_poly_ok_raw(prime, yv@);
    }
    Polynomial { coefs: yv }
}

/// Over the prime field the coefficient views are the coefficients
/// themselves.
pub proof fn lemma_views_u64(s: Seq<u64>)
    ensures
        views(s) == s,
{
    assert(views(s) =~= s);
}

/// A prime p is "good" when p and p^2 + p + 1 = (p^3 - 1) / (p - 1) are both
/// prime, which structures the order of GF(p^3)'s multiplicative group.
pub fn is_good_prime(number: u32) -> (r: bool)
    ensures
        r == (number >= 2 && spec_prime(number as int)
            && spec_prime((number as int) * (number as int) + number as int + 1)),
{
    if number < 2 {
        return false;
    }
    let n = number as u128;
    proof {
        assert(n * n <= u128::MAX && n * n * n <= u128::MAX && n * n + n + 1 <= u128::MAX) by (nonlinear_arith)
            requires n <= 0xFFFF_FFFFu128,
        {}
        assert((n as int) * (n as int) * (n as int) - 1 == ((n as int) - 1) * ((n as int) * (n as int) + (n as int) + 1)) by (nonlinear_arith);
        lemma_exact_div(n as int - 1, (n as int) * (n as int) + (n as int) + 1);
    }
    let cube = n * n * n;
    is_prime(n) && is_prime((cube - 1) / (n - 1))
}

/// (d * q) / d == q for positive d.
proof fn lemma_exact_div(d: int, q: int)
    requires
        d >= 1,
        q >= 0,
    ensures
        (d * q) / d == q,
{
    vstd::arithmetic::div_mod::lemma_fundamental_div_mod(d * q, d);
    assert((d * q) / d == q) by (nonlinear_arith)
        requires d >= 1, d * q == d * ((d * q) / d) + (d * q) % d, 0 <= (d * q) % d < d,
    {}
}

/// Raises a candidate to the (p - 1) power modulo the irreducible; a
/// non-constant result is accepted as generator, a constant one rejected.
/// The result is pinned exactly: it is the spec-level power of the source.
pub fn maybe_generator(good_prime: u32, irreducible: &Poly, source: Poly) -> (r: Option<Poly>)
    requires
        good_prime >= 2,
        poly_ok(&good_prime, irreducible@),
        2 <= irreducible@.len() <= usize::MAX / 2,
        irreducible@[irreducible@.len() - 1] == 1,
        poly_ok(&good_prime, source@),
        source@.len() <= usize::MAX / 2,
    ensures
        ({
            let g = spec_power_of(source@, good_prime - 1, irreducible@, good_prime as int);
            match r {
                Some(gen) => {
                    &&& gen@ == g
                    &&& !spec_constant_seq(g)
                    &&& poly_ok(&good_prime, gen@)
                    &&& gen@.len() < irreducible@.len()
                },
                None => spec_constant_seq(g),
            }
        }),
{
    let generator = power(source, good_prime - 1, irreducible, good_prime);
    proof {
        lemma_constant_raw(good_prime, generator@);
    }
    if is_constant(&generator, &good_prime) {
        None
    } else {
        Some(generator)
    }
}

/// Bounded-retry search for an irreducible monic polynomial of the given
/// degree over GF(good_prime); `None` when the tries are exhausted.
pub fn find_irreducible(good_prime: u32, deg: usize, tries: usize) -> (r: Option<Poly>)
    ensures
        match r {
            Some(f) => {
                &&& good_prime >= 2
                &&& poly_ok(&good_prime, f@)
                &&& f@.len() == deg + 1
                &&& f@[deg as int] == 1
                &&& spec_is_irr_v(&good_prime, f@)
                &&& !spec_is_constant(&good_prime, f@)
            },
            None => true,
        },
        good_prime < 2 || deg >= usize::MAX ==> r is None,
{
    if good_prime < 2 || deg >= usize::MAX {
        return None;
    }
    let mut t: usize = 0;
    while t < tries
        invariant
            good_prime >= 2,
            deg < usize::MAX,
        decreases tries - t,
    {
        let poly = sample_poly(good_prime, deg);
        if is_irreducible(&poly, &good_prime) {
            proof {
                lemma_views_u64(poly@);
            }
            return Some(poly);
        }
        t = t + 1;
    }
    None
}

/// Parameters of an extension-field cryptosystem: a good prime, an irreducible
/// cubic modulus, and a generator of GF(p^3)'s multiplicative group.
pub struct PolynomialEncryption {
    pub good_prime: u32,
    pub irreducible: Poly,
    pub generator: Poly,
}

/// The generator of a parameter set is the (p - 1)-th power of some sampled
/// element modulo the set's own irreducible.
pub open spec fn spec_pe_generator(pe: PolynomialEncryption) -> bool {
    exists|src: Seq<u64>| pe.generator@
        == #[trigger] spec_power_of(src, pe.good_prime - 1, pe.irreducible@, pe.good_prime as int)
}

/// What holds of every generated parameter set.
pub open spec fn spec_pe_valid(pe: PolynomialEncryption) -> bool {
    &&& pe.good_prime >= 2
    &&& poly_ok(&pe.good_prime, pe.irreducible@)
    &&& pe.irreducible@.len() == 4
    &&& pe.irreducible@[3] == 1
    &&& spec_is_irr_v(&pe.good_prime, pe.irreducible@)
    &&& !spec_is_constant(&pe.good_prime, pe.irreducible@)
    &&& poly_ok(&pe.good_prime, pe.generator@)
    &&& pe.generator@.len() < 4
    &&& !spec_is_constant(&pe.good_prime, pe.generator@)
}

/// Finds an irreducible cubic and a generator for GF(good_prime^3), each by
/// bounded-retry sampling; `None` when either search is exhausted. An
/// accepted generator is exactly the (p - 1)-th power of some sampled
/// element, and is not a field constant.
pub fn create_polynomial_encryption(good_prime: u32, tries: usize) -> (r: Option<PolynomialEncryption>)
    ensures
        match r {
            Some(pe) => {
                &&& pe.good_prime == good_prime
                &&& spec_pe_valid(pe)
                &&& !spec_constant_seq(pe.generator@)
                &&& spec_pe_generator(pe)
            },
            None => true,
        },
        good_prime < 2 ==> r is None,
{
    if good_prime < 2 {
        return None;
    }
    let irreducible = match find_irreducible(good_prime, 3, tries) {
        None => {
            return None;
        },
        Some(f) => f,
    };
    let mut t: usize = 0;
    while t < tries
        invariant
            good_prime >= 2,
            poly_ok(&good_prime, irreducible@),
            irreducible@.len() == 4,
            irreducible@[3] == 1,
            spec_is_irr_v(&good_prime, irreducible@),
            !spec_is_constant(&good_prime, irreducible@),
        decreases tries - t,
    {
        let source = sample_poly(good_prime, 3);
        let ghost srcv = source@;
        match maybe_generator(good_prime, &irreducible, source) {
            Some(generator) => {
                proof {
                    assert(generator@ == spec_power_of(
                        srcv,
                        good_prime - 1,
                        irreducible@,
                        good_prime as int,
                    ));
                }
                return Some(PolynomialEncryption { good_prime, irreducible, generator });
            },
            None => {},
        }
        t = t + 1;
    }
    None
}

/// One generation attempt with the default retry bound, for the parallel driver.
fn create_polynomial_encryption_default(good_prime: u32) -> (r: Option<PolynomialEncryption>)
    ensures
        match r {
            Some(pe) => pe.good_prime == good_prime && spec_pe_valid(pe)
                && spec_pe_generator(pe),
            None => true,
        },
{
    create_polynomial_encryption(good_prime, 100)
}

/// Relies on rayon's into_par_iter/filter/filter_map: runs the good-prime
/// filter and one generation attempt per candidate on the worker pool and
/// collects the successes, order unspecified; every output comes from some
/// input candidate that passed the verified good-prime test, and a
/// filter/filter_map chain yields at most one item per input.
#[verifier::external_body]
fn par_polynomial_encryptions(candidates: Vec<u32>) -> (r: Vec<PolynomialEncryption>)
    ensures
        r@.len() <= candidates@.len(),
        forall|i: int| 0 <= i < r@.len() ==> spec_pe_valid(#[trigger] r@[i])
            && spec_pe_generator(r@[i])
            && r@[i].good_prime >= 2
            && spec_prime(r@[i].good_prime as int)
            && spec_prime(
                (r@[i].good_prime as int) * (r@[i].good_prime as int) + r@[i].good_prime + 1,
            )
            && exists|j: int| 0 <= j < candidates@.len() && candidates@[j] == r@[i].good_prime,
{
    candidates
        .into_par_iter()
        .filter(|&n| is_good_prime(n))
        .filter_map(create_polynomial_encryption_default)
        .collect()
}

/// Draws up to `limit` candidates from [from, to) without replacement and
/// generates extension-field parameters for the good primes among them, in
/// parallel; the result order is unspecified.
pub fn polynomial_encryptions(from: u32, to: u32, limit: usize) -> (r: Vec<PolynomialEncryption>)
    ensures
        r@.len() <= limit,
        forall|i: int| 0 <= i < r@.len() ==> spec_pe_valid(#[trigger] r@[i])
            && spec_pe_generator(r@[i])
            && from <= r@[i].good_prime < to
            && spec_prime(r@[i].good_prime as int)
            && spec_prime(
                (r@[i].good_prime as int) * (r@[i].good_prime as int) + r@[i].good_prime + 1,
            ),
{
    let candidates = crate::primes::sample_range(from, to, limit);
    par_polynomial_encryptions(candidates)
}

} // verus!
