//! Elliptic-curve parameter generation over extension fields GF(p^d): an
//! extension-field context layered over the prime field, curve coefficient
//! sampling with the non-singularity check 4a^3 + 27b^2 != 0, brute-force
//! group-order counting through the quadratic irreducibility test, and the
//! near-primality validation of the order.

use vstd::prelude::*;
use crate::conversion::{sequence, spec_digits};
use crate::polynomials::{
    FieldChar, Poly, Polynomial, find_irreducible, is_irreducible, lemma_norm_props,
    lemma_poly_ok_raw, lemma_views_u64, norm_raw, pmul_raw, poly_ok, rem_mod, rem_raw, sample_poly,
    spec_conv, spec_conv_sum, spec_is_irr_v, spec_mod_seq, spec_norm, spec_pmul, spec_prem,
    spec_rem_mod_v, spec_trim, views,
};
use crate::primes::{
    Factorization, factorization, is_prime, lemma_factors_prime_divisors, sample_range,
    spec_factors, spec_prime,
};
use rayon::iter::{IntoParallelIterator, ParallelIterator};
use vstd::arithmetic::power::pow;

verus! {

/// A well-formed extension-field description: prime at least 2, a canonical
/// monic modulus of degree at least 1, small enough that a schoolbook
/// product of two reduced elements can be indexed with a machine word.
pub open spec fn ext_wf(prime: u32, m: Seq<u64>) -> bool {
    &&& prime >= 2
    &&& 2 <= m.len() <= usize::MAX / 2
    &&& forall|i: int| 0 <= i < m.len() ==> #[trigger] m[i] < prime as u64
    &&& m[m.len() - 1] == 1
}

/// A canonical element of GF(prime^d): reduced coefficients, no trailing
/// zero, degree below the modulus degree.
pub open spec fn ext_elem_ok(prime: u32, m: Seq<u64>, e: Seq<u64>) -> bool {
    &&& forall|i: int| 0 <= i < e.len() ==> #[trigger] e[i] < prime as u64
    &&& e.len() > 0 ==> e[e.len() - 1] != 0
    &&& e.len() < m.len()
}

/// An extension field GF(p^d): the prime and the irreducible modulus of
/// degree d that defines it.
pub struct FieldParams(pub u32, pub Poly);

/// Copies a prime-field polynomial exactly.
fn copy_u64_poly(f: &Poly) -> (r: Poly)
    ensures
        r@ == f@,
{
    let mut coefs: Vec<u64> = Vec::new();
    let mut i: usize = 0;
    while i < f.coefs.len()
        invariant
            i <= f@.len(),
            coefs@.len() == i,
            forall|j: int| 0 <= j < i ==> coefs@[j] == f@[j],
        decreases f@.len() - i,
    {
        coefs.push(f.coefs[i]);
        i = i + 1;
    }
    proof {
        assert(coefs@ =~= f@);
    }
    Polynomial { coefs }
}

/// Reduces an arbitrary prime-field polynomial to a canonical element of the
/// extension field: coefficients mod p, then remainder by the monic modulus.
fn reduce_elem(c: Poly, prime: u32, m: &Poly) -> (r: Poly)
    requires
        ext_wf(prime, m@),
    ensures
        ext_elem_ok(prime, m@, r@),
        r@ == spec_rem_mod_v(&prime, spec_trim(c@, prime as int), m@, 1u64),
        ext_elem_ok(prime, m@, c@) ==> r@ == c@,
{
    proof {
        if ext_elem_ok(prime, m@, c@) {
            // an already-canonical element passes through both reductions
            assert forall|i: int| 0 <= i < c@.len() implies
                #[trigger] spec_mod_seq(c@, prime as int)[i] == c@[i] by {
                vstd::arithmetic::div_mod::lemma_small_mod(c@[i] as nat, prime as nat);
            }
            assert(spec_mod_seq(c@, prime as int) =~= c@);
            lemma_norm_props(c@);
        }
    }
    let t = crate::polynomials::trim(c, prime);
    proof {
        lemma_poly_ok_raw(prime, m@);
    }
    let one: u64 = 1;
    let ghost tv = t@;
    let r = rem_mod(&prime, t, m, &one);
    proof {
        lemma_poly_ok_raw(prime, r@);
        lemma_views_u64(tv);
        lemma_views_u64(m@);
        lemma_views_u64(r@);
    }
    r
}

/// Multiplying by the identity element leaves a canonical field element
/// unchanged: the convolution with the one-coefficient sequence [1] is the
/// element itself, which normalization and the remainder then pass through.
proof fn lemma_ext_mul_one(a: Seq<u64>, b: Seq<u64>, m: Seq<u64>, prime: u32)
    requires
        prime >= 2,
        a.len() == 1 && a[0] == 1,
        forall|i: int| 0 <= i < b.len() ==> #[trigger] b[i] < prime as u64,
        b.len() > 0,
        b.len() > 0 ==> b[b.len() - 1] != 0,
        b.len() < m.len(),
    ensures
        spec_ext_mul(a, b, m, prime as int) == b,
{
    let p = prime as int;
    assert forall|k: int| 0 <= k < b.len() implies
        #[trigger] spec_conv(a, b, p)[k] == b[k] by {
        assert(spec_conv_sum(a, b, p, k, 0) == 0);
        assert(spec_conv_sum(a, b, p, k, 1) == (0 + ((a[0] as int) * (b[k] as int)) % p) % p);
        vstd::arithmetic::div_mod::lemma_small_mod(b[k] as nat, prime as nat);
    }
    assert(spec_conv(a, b, p) =~= b);
    lemma_norm_props(b);
    assert(spec_pmul(a, b, p) == b);
}

/// Whether a raw polynomial is a canonical field element: reduced
/// coefficients, no trailing zero, degree below the modulus degree.
fn elem_canonical(e: &Poly, prime: u32, mlen: usize) -> (r: bool)
    requires
        prime >= 2,
    ensures
        r == ext_elem_ok_len(prime, mlen as int, e@),
{
    let n = e.coefs.len();
    if n >= mlen {
        return false;
    }
    if n > 0 && e.coefs[n - 1] == 0 {
        return false;
    }
    let mut j: usize = 0;
    while j < n
        invariant
            j <= n,
            n == e@.len(),
            forall|k: int| 0 <= k < j ==> #[trigger] e@[k] < prime as u64,
        decreases n - j,
    {
        if e.coefs[j] >= (prime as u64) {
            return false;
        }
        j = j + 1;
    }
    true
}

/// The square-and-multiply loop that the extension-field inversion runs:
/// each round multiplies the accumulator in when the exponent bit is set,
/// squares the base, and halves the exponent.
pub open spec fn spec_fermat_loop(m: Seq<u64>, p: int, base: Seq<u64>, acc: Seq<u64>, e: int) -> Seq<u64>
    decreases e when e >= 0
{
    if e <= 0 {
        acc
    } else {
        let acc2 = if e % 2 == 1 {
            spec_ext_mul(acc, base, m, p)
        } else {
            acc
        };
        spec_fermat_loop(m, p, spec_ext_mul(base, base, m, p), acc2, e / 2)
    }
}

/// The exponent the inversion uses: the field order, saturated at the
/// machine word for fields too large to count.
pub open spec fn spec_inv_exponent(prime: u32, m: Seq<u64>) -> int {
    if pow(prime as int, (m.len() - 1) as nat) <= usize::MAX {
        pow(prime as int, (m.len() - 1) as nat)
    } else {
        usize::MAX as int
    }
}

/// `ext_elem_ok` with the modulus length given directly.
pub open spec fn ext_elem_ok_len(prime: u32, mlen: int, e: Seq<u64>) -> bool {
    &&& forall|i: int| 0 <= i < e.len() ==> #[trigger] e[i] < prime as u64
    &&& e.len() > 0 ==> e[e.len() - 1] != 0
    &&& e.len() < mlen
}

impl FieldChar<Poly> for FieldParams {
    open spec fn wf(&self) -> bool {
        ext_wf(self.0, self.1@)
    }

    open spec fn ok(&self, e: &Poly) -> bool {
        ext_elem_ok(self.0, self.1@, e@)
    }

    open spec fn is_zero_s(&self, e: &Poly) -> bool {
        e@.len() == 0
    }

    open spec fn is_one_s(&self, e: &Poly) -> bool {
        e@.len() == 1 && e@[0] == 1
    }

    open spec fn order_s(&self) -> int {
        pow(self.0 as int, (self.1@.len() - 1) as nat)
    }

    open spec fn inv_v(&self, e: Seq<u64>) -> Seq<u64> {
        spec_fermat_loop(
            self.1@,
            self.0 as int,
            spec_ext_mul(e, seq![1u64], self.1@, self.0 as int),
            seq![1u64],
            spec_inv_exponent(self.0, self.1@) - 2,
        )
    }

    open spec fn is_zero_v(&self, e: Seq<u64>) -> bool {
        e.len() == 0
    }

    open spec fn zero_v(&self) -> Seq<u64> {
        Seq::empty()
    }

    open spec fn invertible_s(&self, e: Seq<u64>) -> bool {
        e.len() != 0 && ({
            let p = self.0 as int;
            let cand = spec_fermat_loop(
                self.1@,
                p,
                spec_ext_mul(e, seq![1u64], self.1@, p),
                seq![1u64],
                spec_inv_exponent(self.0, self.1@) - 2,
            );
            spec_ext_mul(e, cand, self.1@, p) == seq![1u64]
        })
    }

    open spec fn mul_v(&self, a: Seq<u64>, b: Seq<u64>) -> Seq<u64> {
        spec_ext_mul(a, b, self.1@, self.0 as int)
    }

    open spec fn add_v(&self, a: Seq<u64>, b: Seq<u64>) -> Seq<u64> {
        spec_ext_add(a, b, self.0 as int)
    }

    open spec fn sub_v(&self, a: Seq<u64>, b: Seq<u64>) -> Seq<u64> {
        spec_ext_sub(a, b, self.0 as int)
    }

    open spec fn natmul_v(&self, e: Seq<u64>, k: int) -> Seq<u64> {
        spec_ext_scale(e, k, self.0 as int)
    }

    open spec fn one_v(&self) -> Seq<u64> {
        seq![1u64]
    }

    proof fn lemma_one_nonzero(&self, e: &Poly) {
    }

    proof fn lemma_zero_view(&self, e: &Poly) {
    }

    fn is_zero(&self, elem: &Poly) -> (r: bool) {
        elem.coefs.len() == 0
    }

    /// The number of field elements, p^d, saturated at the machine word; the
    /// saturation is unreachable for any enumerable field.
    fn order(&self) -> (r: usize) {
        let p = self.0 as usize;
        let deg = self.1.coefs.len() - 1;
        let mut acc: usize = 1;
        let mut i: usize = 0;
        proof {
            vstd::arithmetic::power::lemma_pow0(self.0 as int);
        }
        while i < deg
            invariant
                self.wf(),
                p == self.0 as usize,
                p >= 2,
                i <= deg,
                deg == self.1@.len() - 1,
                acc as int == pow(self.0 as int, i as nat) || acc == usize::MAX,
                acc >= 1,
                i >= 1 ==> acc >= 2,
                deg >= 1,
                self.order_s() <= usize::MAX ==> acc as int == pow(self.0 as int, i as nat),
            decreases deg - i,
        {
            proof {
                if self.order_s() <= usize::MAX {
                    vstd::arithmetic::power::lemma_pow_adds(self.0 as int, i as nat, 1nat);
                    vstd::arithmetic::power::lemma_pow1(self.0 as int);
                    if (i + 1) as nat <= (deg as nat) {
                        vstd::arithmetic::power::lemma_pow_increases(
                            self.0 as nat,
                            (i + 1) as nat,
                            deg as nat,
                        );
                    }
                    vstd::arithmetic::div_mod::lemma_fundamental_div_mod(
                        usize::MAX as int,
                        p as int,
                    );
                    assert(acc <= usize::MAX as int / (p as int)) by (nonlinear_arith)
                        requires
                            acc as int == pow(self.0 as int, i as nat),
                            (acc as int) * (p as int) == pow(self.0 as int, (i + 1) as nat),
                            pow(self.0 as int, (i + 1) as nat) <= usize::MAX as int,
                            usize::MAX as int == (p as int) * (usize::MAX as int / (p as int))
                                + usize::MAX as int % (p as int),
                            0 <= usize::MAX as int % (p as int) < p as int,
                            p >= 2,
                            acc >= 1,
                    {}
                }
            }
            if acc > usize::MAX / p {
                proof {
                    assert(usize::MAX >= 2);
                }
                acc = usize::MAX;
            } else {
                proof {
                    lemma_mul_div_le(usize::MAX as int, p as int);
                    vstd::arithmetic::div_mod::lemma_fundamental_div_mod(
                        usize::MAX as int,
                        p as int,
                    );
                    if acc == usize::MAX {
                        // a saturated accumulator cannot pass the guard
                        assert(false) by (nonlinear_arith)
                            requires
                                acc <= usize::MAX as int / (p as int),
                                acc == usize::MAX as int,
                                usize::MAX as int == (p as int) * (usize::MAX as int / (p as int))
                                    + usize::MAX as int % (p as int),
                                0 <= usize::MAX as int % (p as int) < p as int,
                                p >= 2,
                                usize::MAX >= 2,
                        {}
                    }
                    vstd::arithmetic::power::lemma_pow_adds(self.0 as int, i as nat, 1nat);
                    vstd::arithmetic::power::lemma_pow1(self.0 as int);
                    assert(acc * p == pow(self.0 as int, i as nat) * (p as int))
                        by (nonlinear_arith)
                        requires acc as int == pow(self.0 as int, i as nat), p == self.0 as usize,
                    {}
                    assert(acc * p <= usize::MAX && acc * p >= 2) by (nonlinear_arith)
                        requires
                            acc <= usize::MAX as int / (p as int),
                            (usize::MAX as int / (p as int)) * (p as int) <= usize::MAX as int,
                            p >= 2,
                            acc >= 1,
                    {}
                }
                acc = acc * p;
            }
            i = i + 1;
        }
        proof {
            vstd::arithmetic::power::lemma_pow1(self.0 as int);
            vstd::arithmetic::power::lemma_pow_increases(self.0 as nat, 1nat, deg as nat);
        }
        if acc < 2 {
            proof {
                assert(false);
            }
            2
        } else {
            acc
        }
    }

    /// Inverse by exponentiation in the field with an explicit final check:
    /// the candidate is accepted only if multiplying back gives one, so a
    /// degenerate context surfaces as `None` rather than a wrong value.
    fn inverse(&self, elem: &Poly) -> (r: Option<Poly>) {
        if elem.coefs.len() == 0 {
            return None;
        }
        let q = self.order();
        proof {
            assert(q as int == spec_inv_exponent(self.0, self.1@));
        }
        let mut e: usize = q - 2;
        let mut base = self.mul_el(elem, &self.one_el());
        let mut acc = self.one_el();
        let ghost mp = self.1@;
        let ghost pi = self.0 as int;
        let ghost target = spec_fermat_loop(
            mp,
            pi,
            spec_ext_mul(elem@, seq![1u64], mp, pi),
            seq![1u64],
            spec_inv_exponent(self.0, self.1@) - 2,
        );
        while e > 0
            invariant
                self.wf(),
                self.ok(&base),
                self.ok(&acc),
                mp == self.1@,
                pi == self.0 as int,
                target == spec_fermat_loop(mp, pi, base@, acc@, e as int),
            decreases e,
        {
            if e % 2 == 1 {
                acc = self.mul_el(&acc, &base);
            }
            base = self.mul_el(&base, &base);
            e = e / 2;
        }
        proof {
            assert(acc@ == target);
        }
        let check = self.mul_el(elem, &acc);
        if check.coefs.len() == 1 && check.coefs[0] == 1 {
            proof {
                assert(check@ =~= seq![1u64]);
            }
            Some(acc)
        } else {
            proof {
                if check@ == seq![1u64] {
                    assert(check@.len() == 1 && check@[0] == 1);
                }
            }
            None
        }
    }

    fn intern(&self, poly: Polynomial<Poly>) -> (r: Polynomial<Poly>) {
        let n = poly.coefs.len();
        let mut canonical = n == 0 || poly.coefs[n - 1].coefs.len() != 0;
        let mut i: usize = 0;
        while i < n
            invariant
                self.wf(),
                n == poly@.len(),
                i <= n,
                canonical ==> (n == 0 || !self.is_zero_s(&poly@[n - 1])),
                canonical ==> forall|j: int| 0 <= j < i ==> #[trigger] self.ok(&poly@[j]),
                ((forall|j: int| 0 <= j < n ==> #[trigger] self.ok(&poly@[j]))
                    && (n == 0 || !self.is_zero_s(&poly@[n - 1]))) ==> canonical,
            decreases n - i,
        {
            if !elem_canonical(&poly.coefs[i], self.0, self.1.coefs.len()) {
                proof {
                    assert(!self.ok(&poly@[i as int]));
                }
                canonical = false;
            }
            i = i + 1;
        }
        if canonical {
            return poly;
        }
        proof {
            if (forall|ii: int| 0 <= ii < poly@.len() ==> #[trigger] self.ok(&poly@[ii]))
                && (poly@.len() == 0 || !self.is_zero_s(&poly@[poly@.len() - 1])) {
                assert(false);
            }
        }
        let mut out: Vec<Poly> = Vec::new();
        let mut i: usize = 0;
        while i < poly.coefs.len()
            invariant
                self.wf(),
                i <= poly@.len(),
                out@.len() == i,
                forall|j: int| 0 <= j < out@.len() ==> #[trigger] self.ok(&out@[j]),
            decreases poly@.len() - i,
        {
            let c = copy_u64_poly(&poly.coefs[i]);
            out.push(reduce_elem(c, self.0, &self.1));
            i = i + 1;
        }
        let mut out = out;
        loop
            invariant
                self.wf(),
                forall|j: int| 0 <= j < out@.len() ==> #[trigger] self.ok(&out@[j]),
            ensures
                out@.len() == 0 || !self.is_zero_s(&out@[out@.len() - 1]),
            decreases out@.len(),
        {
            let n = out.len();
            if n == 0 {
                break;
            }
            if out[n - 1].coefs.len() != 0 {
                break;
            }
            out.pop();
        }
        Polynomial { coefs: out }
    }

    fn copy_ok(&self, e: &Poly) -> (r: Poly) {
        copy_u64_poly(e)
    }

    fn zero_el(&self) -> (r: Poly) {
        let coefs: Vec<u64> = Vec::new();
        proof {
            assert(coefs@ =~= Seq::<u64>::empty());
        }
        Polynomial { coefs }
    }

    fn one_el(&self) -> (r: Poly) {
        let mut coefs: Vec<u64> = Vec::new();
        coefs.push(1);
        proof {
            assert(coefs@ =~= seq![1u64]);
        }
        Polynomial { coefs }
    }

    fn add_el(&self, a: &Poly, b: &Poly) -> (r: Poly) {
        Polynomial { coefs: ext_add_raw(&a.coefs, &b.coefs, self.0) }
    }

    fn sub_el(&self, a: &Poly, b: &Poly) -> (r: Poly) {
        proof {
            if b@.len() == 0 {
                // subtracting the zero element leaves the value unchanged
                let pi = self.0 as int;
                let sums = Seq::new(
                    a@.len(),
                    |j: int|
                        {
                            let x = if j < a@.len() { a@[j] as int } else { 0 };
                            let y = if j < b@.len() { b@[j] as int } else { 0 };
                            ((x + pi - y) % pi) as u64
                        },
                );
                assert forall|j: int| 0 <= j < a@.len() implies #[trigger] sums[j] == a@[j] by {
                    vstd::arithmetic::div_mod::lemma_small_mod(a@[j] as nat, self.0 as nat);
                    assert(((a@[j] as int) + pi) % pi == a@[j] as int) by (nonlinear_arith)
                        requires
                            a@[j] < self.0 as u64,
                            self.0 >= 1,
                            (a@[j] as int) % pi == a@[j] as int,
                    {}
                }
                assert(sums =~= a@);
                lemma_norm_props(a@);
            }
        }
        Polynomial { coefs: ext_sub_raw(&a.coefs, &b.coefs, self.0) }
    }

    fn mul_el(&self, a: &Poly, b: &Poly) -> (r: Poly) {
        if a.coefs.len() == 0 || b.coefs.len() == 0 {
            let r: Vec<u64> = Vec::new();
            proof {
                assert(spec_pmul(a@, b@, self.0 as int) =~= Seq::<u64>::empty());
            }
            return Polynomial { coefs: r };
        }
        if a.coefs.len() == 1 && a.coefs[0] == 1 {
            proof {
                lemma_ext_mul_one(a@, b@, self.1@, self.0);
            }
            return copy_u64_poly(b);
        }
        let prod = pmul_raw(&a.coefs, &b.coefs, self.0);
        let r = rem_raw(prod, &self.1.coefs, self.0);
        Polynomial { coefs: r }
    }

    fn nat_mul(&self, e: &Poly, k: usize) -> (r: Poly) {
        Polynomial { coefs: ext_scale_raw(&e.coefs, k as u64, self.0) }
    }
}

/// Floor division times the divisor stays below the dividend.
proof fn lemma_mul_div_le(x: int, d: int)
    requires
        x >= 0,
        d >= 1,
    ensures
        x / d * d <= x,
{
    vstd::arithmetic::div_mod::lemma_fundamental_div_mod(x, d);
    assert(x / d * d <= x) by (nonlinear_arith)
        requires x == d * (x / d) + x % d, 0 <= x % d,
    {}
}

/// The curve y^2 = x^3 + ax + b over GF(prime^d), with its group order.
pub struct Curve {
    pub prime: u32,
    pub irreducible: Poly,
    pub a: Poly,
    pub b: Poly,
    pub size: usize,
}

/// Everything the generator promises of an accepted curve: a well-formed
/// field, canonical coefficients, and a near-prime order.
pub open spec fn spec_curve_accepted(c: Curve) -> bool {
    &&& ext_wf(c.prime, c.irreducible@)
    &&& ext_elem_ok(c.prime, c.irreducible@, c.a@)
    &&& ext_elem_ok(c.prime, c.irreducible@, c.b@)
    &&& spec_is_irr_v(&c.prime, c.irreducible@)
    &&& spec_nonsingular(c.prime, c.irreducible@, c.a@, c.b@)
    &&& spec_good_enough(c.size as int)
}

/// The near-primality test that accepted orders pass: trial division emits at
/// least one factor, and the last emitted factor squared reaches the order.
pub open spec fn spec_good_enough(n: int) -> bool {
    spec_factors(n, 2).len() > 0
        && spec_factors(n, 2).last() * spec_factors(n, 2).last() >= n
}

/// Every order that passes the near-primality test has a prime factor whose
/// square reaches it: the order is dominated by one large prime.
pub proof fn lemma_accepted_order_near_prime(n: int)
    requires
        n >= 0,
        spec_good_enough(n),
    ensures
        exists|q: int| spec_prime(q) && n % q == 0 && #[trigger] (q * q) >= n,
{
    lemma_factors_prime_divisors(n, 2);
    let fs = spec_factors(n, 2);
    let q = fs[fs.len() - 1];
    assert(spec_prime(q) && n % q == 0int && q * q >= n);
}

/// True exactly when the last factor that trial division emits, squared,
/// reaches `size`; false when no factor is emitted at all (a size of 1 or a
/// prime size), so the caller rejects and resamples instead of aborting.
pub fn good_enough(size: u128) -> (r: bool)
    ensures
        r == spec_good_enough(size as int),
{
    let mut st: Factorization = factorization(size);
    let mut last: u128 = 0;
    let mut any = false;
    let ghost mut done: Seq<int> = Seq::empty();
    loop
        invariant
            st.1 >= 2,
            spec_factors(size as int, 2) == done + spec_factors(st.0 as int, st.1 as int),
            any <==> done.len() > 0,
            any ==> done.last() == last as int,
        ensures
            spec_factors(size as int, 2) == done,
            any <==> done.len() > 0,
            any ==> done.last() == last as int,
        decreases st.0,
    {
        match st.next() {
            None => {
                proof {
                    assert(spec_factors(size as int, 2) =~= done);
                }
                break;
            },
            Some(f) => {
                proof {
                    done = done + seq![f as int];
                    assert(spec_factors(size as int, 2)
                        =~= done + spec_factors(st.0 as int, st.1 as int));
                }
                last = f;
                any = true;
            },
        }
    }
    if !any {
        return false;
    }
    if last > 0xFFFF_FFFF_FFFF_FFFF {
        proof {
            assert((last as int) * (last as int) >= size as int) by (nonlinear_arith)
                requires last > 0xFFFF_FFFF_FFFF_FFFFu128, size <= u128::MAX,
            {}
        }
        return true;
    }
    proof {
        assert(last * last <= u128::MAX) by (nonlinear_arith)
            requires last <= 0xFFFF_FFFF_FFFF_FFFFu128,
        {}
    }
    last * last >= size
}

/// A canonical field element read off the digits of `number` in base `prime`,
/// reduced into the field.
/// The canonical field element that the digits of x in base prime denote.
pub open spec fn spec_elem_of(prime: u32, x: int, m: Seq<u64>) -> Seq<u64> {
    let ds = spec_digits(x, prime as int);
    let raw = Seq::new(ds.len(), |i: int| ds[i] as u64);
    spec_rem_mod_v(&prime, spec_trim(raw, prime as int), m, 1u64)
}

/// Whether v is a quadratic non-residue of the field: T^2 - v is accepted by
/// the irreducibility tester over the extension field.
pub open spec fn spec_quad_nonresidue(fp: FieldParams, v: Seq<u64>) -> bool {
    spec_is_irr_v(&fp, seq![fp.sub_v(fp.zero_v(), v), fp.zero_v(), fp.one_v()])
}

/// Whether x counts toward the curve order: x^3 + ax + b, computed in the
/// field, is a quadratic non-residue.
pub open spec fn spec_sol(fp: FieldParams, av: Seq<u64>, bv: Seq<u64>, xv: Seq<u64>) -> bool {
    spec_quad_nonresidue(
        fp,
        fp.add_v(fp.add_v(fp.mul_v(fp.mul_v(xv, xv), xv), fp.mul_v(av, xv)), bv),
    )
}

/// How many of the field elements denoted by 0 .. upto count toward the
/// curve order.
pub open spec fn spec_count_sol(fp: FieldParams, av: Seq<u64>, bv: Seq<u64>, upto: int) -> int
    decreases upto when upto >= 0
{
    if upto <= 0 {
        0
    } else {
        spec_count_sol(fp, av, bv, upto - 1)
            + if spec_sol(fp, av, bv, spec_elem_of(fp.0, upto - 1, fp.1@)) {
                1int
            } else {
                0int
            }
    }
}

fn into_field(prime: u32, number: u128, m: &Poly) -> (r: Poly)
    requires
        ext_wf(prime, m@),
    ensures
        ext_elem_ok(prime, m@, r@),
        r@ == spec_elem_of(prime, number as int, m@),
{
    let digits = sequence(number, prime as u128);
    let mut coefs: Vec<u64> = Vec::new();
    let mut i: usize = 0;
    while i < digits.len()
        invariant
            prime >= 2,
            i <= digits@.len(),
            coefs@.len() == i,
            forall|j: int| 0 <= j < digits@.len() ==>
                #[trigger] digits@[j] < prime as u128
                && digits@[j] as int == spec_digits(number as int, prime as int)[j],
            forall|j: int| 0 <= j < coefs@.len() ==> #[trigger] coefs@[j] < prime as u64
                && coefs@[j] == digits@[j] as u64,
        decreases digits@.len() - i,
    {
        coefs.push(digits[i] as u64);
        i = i + 1;
    }
    proof {
        let ds = spec_digits(number as int, prime as int);
        assert(coefs@ =~= Seq::new(ds.len(), |j: int| ds[j] as u64));
    }
    reduce_elem(Polynomial { coefs }, prime, m)
}

/// Whether x^3 + ax + b has no square root in the field: the quadratic
/// T^2 - v is handed to the irreducibility tester over the extension field.
/// The order counter tallies exactly these x.
fn is_solution(fp: &FieldParams, a: &Poly, b: &Poly, x: &Poly) -> (r: bool)
    requires
        fp.wf(),
        fp.ok(a),
        fp.ok(b),
        fp.ok(x),
    ensures
        r == spec_sol(*fp, a@, b@, x@),
{
    let x2 = fp.mul_el(x, x);
    let x3 = fp.mul_el(&x2, x);
    let ax = fp.mul_el(a, x);
    let v = fp.add_el(&fp.add_el(&x3, &ax), &fp.copy_ok(b));
    is_square(fp, v)
}

/// Whether v is a quadratic non-residue: T^2 - v is irreducible over the
/// extension field.
fn is_square(fp: &FieldParams, v: Poly) -> (r: bool)
    requires
        fp.wf(),
        fp.ok(&v),
    ensures
        r == spec_quad_nonresidue(*fp, v@),
{
    let ghost vv = v@;
    let neg_v = fp.sub_el(&fp.zero_el(), &v);
    let zero = fp.zero_el();
    let one = fp.one_el();
    proof {
        fp.lemma_one_nonzero(&one);
    }
    let mut coefs: Vec<Poly> = Vec::new();
    coefs.push(neg_v);
    coefs.push(zero);
    coefs.push(one);
    let quad = Polynomial { coefs };
    proof {
        assert(poly_ok(fp, quad@));
        assert(views(quad@) =~= seq![fp.sub_v(fp.zero_v(), vv), fp.zero_v(), fp.one_v()]);
    }
    is_irreducible(&quad, fp)
}

/// Product of two field elements: polynomial product mod p, reduced by m.
pub open spec fn spec_ext_mul(a: Seq<u64>, b: Seq<u64>, m: Seq<u64>, p: int) -> Seq<u64> {
    spec_prem(spec_pmul(a, b, p), m, p)
}

/// A field element scaled by the integer k modulo p, coefficientwise.
pub open spec fn spec_ext_scale(e: Seq<u64>, k: int, p: int) -> Seq<u64> {
    spec_norm(Seq::new(e.len(), |i: int| (((e[i] as int) * (k % p)) % p) as u64))
}

/// Difference of two field elements, coefficientwise modulo p.
pub open spec fn spec_ext_sub(a: Seq<u64>, b: Seq<u64>, p: int) -> Seq<u64> {
    let n = if a.len() >= b.len() { a.len() } else { b.len() };
    spec_norm(
        Seq::new(
            n,
            |i: int|
                {
                    let x = if i < a.len() { a[i] as int } else { 0 };
                    let y = if i < b.len() { b[i] as int } else { 0 };
                    ((x + p - y) % p) as u64
                },
        ),
    )
}

/// Sum of two field elements, coefficientwise modulo p.
pub open spec fn spec_ext_add(a: Seq<u64>, b: Seq<u64>, p: int) -> Seq<u64> {
    let n = if a.len() >= b.len() { a.len() } else { b.len() };
    spec_norm(
        Seq::new(
            n,
            |i: int|
                {
                    let x = if i < a.len() { a[i] as int } else { 0 };
                    let y = if i < b.len() { b[i] as int } else { 0 };
                    ((x + y) % p) as u64
                },
        ),
    )
}

/// The discriminant 4a^3 + 27b^2 of the curve is not the zero element of
/// GF(p^d), computed exactly as the checker computes it.
pub open spec fn spec_nonsingular(prime: u32, m: Seq<u64>, a: Seq<u64>, b: Seq<u64>) -> bool {
    let p = prime as int;
    let a3 = spec_ext_mul(spec_ext_mul(a, a, m, p), a, m, p);
    let b2 = spec_ext_mul(b, b, m, p);
    spec_ext_add(spec_ext_scale(a3, 4, p), spec_ext_scale(b2, 27, p), p).len() != 0
}

/// Multiplies two canonical field elements: raw product, then remainder.
fn ext_mul_raw(a: &Vec<u64>, b: &Vec<u64>, m: &Vec<u64>, prime: u32) -> (r: Vec<u64>)
    requires
        ext_wf(prime, m@),
        forall|i: int| 0 <= i < a@.len() ==> #[trigger] a@[i] < prime as u64,
        forall|i: int| 0 <= i < b@.len() ==> #[trigger] b@[i] < prime as u64,
        a@.len() + b@.len() <= usize::MAX,
    ensures
        r@ == spec_ext_mul(a@, b@, m@, prime as int),
        forall|i: int| 0 <= i < r@.len() ==> #[trigger] r@[i] < prime as u64,
        r@.len() < m@.len(),
{
    let prod = pmul_raw(a, b, prime);
    rem_raw(prod, m, prime)
}

/// Scales a canonical field element by k modulo p.
fn ext_scale_raw(e: &Vec<u64>, k: u64, prime: u32) -> (r: Vec<u64>)
    requires
        prime >= 2,
        forall|i: int| 0 <= i < e@.len() ==> #[trigger] e@[i] < prime as u64,
    ensures
        r@ == spec_ext_scale(e@, k as int, prime as int),
        forall|i: int| 0 <= i < r@.len() ==> #[trigger] r@[i] < prime as u64,
        r@.len() <= e@.len(),
        r@.len() > 0 ==> r@[r@.len() - 1] != 0,
{
    let ghost pi: int = prime as int;
    let p = prime as u64;
    let kk = k % p;
    let mut out: Vec<u64> = Vec::new();
    let mut i: usize = 0;
    while i < e.len()
        invariant
            prime >= 2,
            p == prime as u64,
            pi == prime as int,
            kk == (k as int) % pi,
            kk < p,
            forall|j: int| 0 <= j < e@.len() ==> #[trigger] e@[j] < p,
            i <= e@.len(),
            out@.len() == i,
            forall|j: int| 0 <= j < out@.len() ==>
                #[trigger] out@[j] == (((e@[j] as int) * ((k as int) % pi)) % pi) as u64
                && out@[j] < p,
        decreases e@.len() - i,
    {
        proof {
            assert(e@[i as int] * kk <= u64::MAX) by (nonlinear_arith)
                requires e@[i as int] < p, kk < p, p <= 0xFFFF_FFFFu64,
            {}
        }
        out.push((e[i] * kk) % p);
        i = i + 1;
    }
    let ghost outv = out@;
    proof {
        assert(outv =~= Seq::new(e@.len(), |j: int| (((e@[j] as int) * ((k as int) % pi)) % pi) as u64));
        lemma_norm_props(outv);
    }
    let r = norm_raw(out);
    proof {
        assert forall|i: int| 0 <= i < r@.len() implies #[trigger] r@[i] < prime as u64 by {
            assert(r@[i] == spec_norm(outv)[i]);
            assert(spec_norm(outv)[i] == outv[i]);
        }
    }
    r
}

/// Adds two canonical field elements coefficientwise modulo p.
fn ext_add_raw(a: &Vec<u64>, b: &Vec<u64>, prime: u32) -> (r: Vec<u64>)
    requires
        prime >= 2,
        forall|i: int| 0 <= i < a@.len() ==> #[trigger] a@[i] < prime as u64,
        forall|i: int| 0 <= i < b@.len() ==> #[trigger] b@[i] < prime as u64,
    ensures
        r@ == spec_ext_add(a@, b@, prime as int),
        forall|i: int| 0 <= i < r@.len() ==> #[trigger] r@[i] < prime as u64,
        r@.len() > 0 ==> r@[r@.len() - 1] != 0,
        r@.len() <= a@.len() || r@.len() <= b@.len(),
{
    let ghost pi: int = prime as int;
    let p = prime as u64;
    let n = if a.len() >= b.len() {
        a.len()
    } else {
        b.len()
    };
    let mut out: Vec<u64> = Vec::new();
    let mut i: usize = 0;
    while i < n
        invariant
            prime >= 2,
            p == prime as u64,
            pi == prime as int,
            n >= a@.len() && n >= b@.len(),
            n == a@.len() || n == b@.len(),
            forall|j: int| 0 <= j < a@.len() ==> #[trigger] a@[j] < p,
            forall|j: int| 0 <= j < b@.len() ==> #[trigger] b@[j] < p,
            i <= n,
            out@.len() == i,
            forall|j: int| 0 <= j < out@.len() ==> {
                let x = if j < a@.len() { a@[j] as int } else { 0 };
                let y = if j < b@.len() { b@[j] as int } else { 0 };
                #[trigger] out@[j] == ((x + y) % pi) as u64 && out@[j] < p
            },
        decreases n - i,
    {
        let x = if i < a.len() {
            a[i]
        } else {
            0
        };
        let y = if i < b.len() {
            b[i]
        } else {
            0
        };
        out.push((x + y) % p);
        i = i + 1;
    }
    let ghost outv = out@;
    proof {
        assert(outv =~= Seq::new(
            n as nat,
            |j: int|
                {
                    let x = if j < a@.len() { a@[j] as int } else { 0 };
                    let y = if j < b@.len() { b@[j] as int } else { 0 };
                    ((x + y) % pi) as u64
                },
        ));
        lemma_norm_props(outv);
    }
    let r = norm_raw(out);
    proof {
        assert forall|i: int| 0 <= i < r@.len() implies #[trigger] r@[i] < prime as u64 by {
            assert(r@[i] == spec_norm(outv)[i]);
            assert(spec_norm(outv)[i] == outv[i]);
        }
    }
    r
}

/// Subtracts two canonical field elements coefficientwise modulo p.
fn ext_sub_raw(a: &Vec<u64>, b: &Vec<u64>, prime: u32) -> (r: Vec<u64>)
    requires
        prime >= 2,
        forall|i: int| 0 <= i < a@.len() ==> #[trigger] a@[i] < prime as u64,
        forall|i: int| 0 <= i < b@.len() ==> #[trigger] b@[i] < prime as u64,
    ensures
        r@ == spec_ext_sub(a@, b@, prime as int),
        forall|i: int| 0 <= i < r@.len() ==> #[trigger] r@[i] < prime as u64,
        r@.len() > 0 ==> r@[r@.len() - 1] != 0,
        r@.len() <= a@.len() || r@.len() <= b@.len(),
{
    let ghost pi: int = prime as int;
    let p = prime as u64;
    let n = if a.len() >= b.len() {
        a.len()
    } else {
        b.len()
    };
    let mut out: Vec<u64> = Vec::new();
    let mut i: usize = 0;
    while i < n
        invariant
            prime >= 2,
            p == prime as u64,
            pi == prime as int,
            n >= a@.len() && n >= b@.len(),
            n == a@.len() || n == b@.len(),
            forall|j: int| 0 <= j < a@.len() ==> #[trigger] a@[j] < p,
            forall|j: int| 0 <= j < b@.len() ==> #[trigger] b@[j] < p,
            i <= n,
            out@.len() == i,
            forall|j: int| 0 <= j < out@.len() ==> {
                let x = if j < a@.len() { a@[j] as int } else { 0 };
                let y = if j < b@.len() { b@[j] as int } else { 0 };
                #[trigger] out@[j] == ((x + pi - y) % pi) as u64 && out@[j] < p
            },
        decreases n - i,
    {
        let x = if i < a.len() {
            a[i]
        } else {
            0
        };
        let y = if i < b.len() {
            b[i]
        } else {
            0
        };
        out.push((x + (p - y)) % p);
        i = i + 1;
    }
    let ghost outv = out@;
    proof {
        assert(outv =~= Seq::new(
            n as nat,
            |j: int|
                {
                    let x = if j < a@.len() { a@[j] as int } else { 0 };
                    let y = if j < b@.len() { b@[j] as int } else { 0 };
                    ((x + pi - y) % pi) as u64
                },
        ));
        lemma_norm_props(outv);
    }
    let r = norm_raw(out);
    proof {
        assert forall|i: int| 0 <= i < r@.len() implies #[trigger] r@[i] < prime as u64 by {
            assert(r@[i] == spec_norm(outv)[i]);
            assert(spec_norm(outv)[i] == outv[i]);
        }
    }
    r
}

/// Non-singularity of the curve: 4a^3 + 27b^2 is not the zero element of the
/// field, so the curve has no repeated root.
pub fn check_curve(prime: u32, irreducible: &Poly, a: &Poly, b: &Poly) -> (r: bool)
    requires
        ext_wf(prime, irreducible@),
        ext_elem_ok(prime, irreducible@, a@),
        ext_elem_ok(prime, irreducible@, b@),
    ensures
        r == spec_nonsingular(prime, irreducible@, a@, b@),
{
    let a2 = ext_mul_raw(&a.coefs, &a.coefs, &irreducible.coefs, prime);
    let a3 = ext_mul_raw(&a2, &a.coefs, &irreducible.coefs, prime);
    let b2 = ext_mul_raw(&b.coefs, &b.coefs, &irreducible.coefs, prime);
    let four_a3 = ext_scale_raw(&a3, 4, prime);
    let twenty_seven_b2 = ext_scale_raw(&b2, 27, prime);
    let sum = ext_add_raw(&four_a3, &twenty_seven_b2, prime);
    sum.len() != 0
}

/// Counts, over all p^d field elements x, how many make x^3 + ax + b a
/// quadratic non-residue; `None` when the field is too large to enumerate.
fn count_size_checked(prime: u32, irreducible: &Poly, a: &Poly, b: &Poly) -> (r: Option<usize>)
    requires
        ext_wf(prime, irreducible@),
        ext_elem_ok(prime, irreducible@, a@),
        ext_elem_ok(prime, irreducible@, b@),
    ensures
        match r {
            Some(n) => {
                &&& n as int <= pow(prime as int, (irreducible@.len() - 1) as nat)
                &&& exists|fp: FieldParams| fp.0 == prime && fp.1@ == irreducible@
                    && n as int == #[trigger] spec_count_sol(
                        fp,
                        a@,
                        b@,
                        pow(prime as int, (irreducible@.len() - 1) as nat),
                    )
            },
            None => true,
        },
{
    let fp = FieldParams(prime, copy_u64_poly(irreducible));
    let deg = irreducible.coefs.len() - 1;
    let p = prime as u128;
    let mut total: u128 = 1;
    let mut i: usize = 0;
    proof {
        vstd::arithmetic::power::lemma_pow0(prime as int);
    }
    while i < deg
        invariant
            prime >= 2,
            p == prime as u128,
            i <= deg,
            total >= 1,
            total as int == pow(prime as int, i as nat),
        decreases deg - i,
    {
        if total > u128::MAX / p {
            return None;
        }
        proof {
            lemma_mul_div_le(u128::MAX as int, p as int);
            assert(total * p <= u128::MAX && total * p >= 1) by (nonlinear_arith)
                requires
                    total <= u128::MAX as int / (p as int),
                    (u128::MAX as int / (p as int)) * (p as int) <= u128::MAX as int,
                    p >= 2,
                    total >= 1,
            {}
        }
        proof {
            vstd::arithmetic::power::lemma_pow1(prime as int);
            vstd::arithmetic::power::lemma_pow_adds(prime as int, i as nat, 1nat);
            assert(pow(prime as int, (i + 1) as nat) == pow(prime as int, i as nat) * (prime as int));
            assert(total * p == pow(prime as int, i as nat) * (prime as int))
                by (nonlinear_arith)
                requires total as int == pow(prime as int, i as nat), p == prime as u128,
            {}
        }
        total = total * p;
        i = i + 1;
    }
    if total > usize::MAX as u128 {
        return None;
    }
    let mut count: usize = 0;
    let mut x: u128 = 0;
    while x < total
        invariant
            ext_wf(prime, irreducible@),
            ext_elem_ok(prime, irreducible@, a@),
            ext_elem_ok(prime, irreducible@, b@),
            fp.0 == prime,
            fp.1@ == irreducible@,
            total <= usize::MAX as u128,
            total as int == pow(prime as int, (irreducible@.len() - 1) as nat),
            x <= total,
            count <= x,
            count as int == spec_count_sol(fp, a@, b@, x as int),
        decreases total - x,
    {
        let elem = into_field(prime, x, irreducible);
        if is_solution(&fp, a, b, &elem) {
            count = count + 1;
        }
        x = x + 1;
    }
    Some(count)
}

/// The brute-force group-order count; a field too large to enumerate counts
/// as zero, which no near-primality check accepts.
pub fn count_size(prime: u32, irreducible: &Poly, a: &Poly, b: &Poly) -> (r: usize)
    requires
        ext_wf(prime, irreducible@),
        ext_elem_ok(prime, irreducible@, a@),
        ext_elem_ok(prime, irreducible@, b@),
    ensures
        r as int <= pow(prime as int, (irreducible@.len() - 1) as nat),
        r != 0 ==> exists|fp: FieldParams| fp.0 == prime && fp.1@ == irreducible@
            && r as int == #[trigger] spec_count_sol(
                fp,
                a@,
                b@,
                pow(prime as int, (irreducible@.len() - 1) as nat),
            ),
{
    match count_size_checked(prime, irreducible, a, b) {
        Some(n) => n,
        None => {
            proof {
                vstd::arithmetic::power::lemma_pow_positive(prime as int, (irreducible@.len() - 1) as nat);
            }
            0
        },
    }
}

/// Accepts the coefficient pair when the curve is non-singular and its
/// counted order passes the near-primality test.
pub fn create_curve(prime: u32, irreducible: &Poly, a: Poly, b: Poly) -> (r: Option<Curve>)
    requires
        ext_wf(prime, irreducible@),
        spec_is_irr_v(&prime, irreducible@),
        ext_elem_ok(prime, irreducible@, a@),
        ext_elem_ok(prime, irreducible@, b@),
    ensures
        match r {
            Some(c) => {
                &&& c.prime == prime
                &&& c.irreducible@ == irreducible@
                &&& c.a@ == a@
                &&& c.b@ == b@
                &&& spec_curve_accepted(c)
                &&& exists|fp: FieldParams| fp.0 == prime && fp.1@ == irreducible@
                    && c.size as int == #[trigger] spec_count_sol(
                        fp,
                        a@,
                        b@,
                        pow(prime as int, (irreducible@.len() - 1) as nat),
                    )
            },
            None => true,
        },
        !spec_nonsingular(prime, irreducible@, a@, b@) ==> r is None,
{
    if check_curve(prime, irreducible, &a, &b) {
        let size = count_size(prime, irreducible, &a, &b);
        if good_enough(size as u128) {
            let irreducible = copy_u64_poly(irreducible);
            Some(Curve { prime, irreducible, a, b, size })
        } else {
            None
        }
    } else {
        None
    }
}

/// A fresh canonical field element sampled uniformly: a random monic
/// polynomial reduced by the modulus.
pub fn sample_poly_field(prime: u32, irreducible: &Poly) -> (r: Poly)
    requires
        ext_wf(prime, irreducible@),
    ensures
        ext_elem_ok(prime, irreducible@, r@),
{
    let s = sample_poly(prime, irreducible.coefs.len() - 1);
    reduce_elem(s, prime, irreducible)
}

/// Fixes GF(prime^deg) by a bounded-retry search for an irreducible modulus,
/// then retries coefficient pairs until one yields an accepted curve; `None`
/// when either search is exhausted or the arguments are degenerate.
pub fn create_curve_for(prime: u32, deg: usize, tries: usize) -> (r: Option<Curve>)
    ensures
        match r {
            Some(c) => {
                &&& c.prime == prime
                &&& spec_curve_accepted(c)
                &&& c.irreducible@.len() == deg + 1
                &&& c.irreducible@[deg as int] == 1
            },
            None => true,
        },
        prime < 2 || deg == 0 || deg >= usize::MAX / 2 ==> r is None,
{
    if prime < 2 || deg == 0 || deg >= usize::MAX / 2 {
        return None;
    }
    let irreducible = match find_irreducible(prime, deg, tries) {
        None => {
            return None;
        },
        Some(f) => f,
    };
    proof {
        lemma_poly_ok_raw(prime, irreducible@);
        assert(ext_wf(prime, irreducible@));
    }
    let mut t: usize = 0;
    while t < tries
        invariant
            prime >= 2,
            ext_wf(prime, irreducible@),
            spec_is_irr_v(&prime, irreducible@),
            irreducible@.len() == deg + 1,
            irreducible@[deg as int] == 1,
        decreases tries - t,
    {
        let a = sample_poly_field(prime, &irreducible);
        let b = sample_poly_field(prime, &irreducible);
        match create_curve(prime, &irreducible, a, b) {
            Some(c) => {
                return Some(c);
            },
            None => {},
        }
        t = t + 1;
    }
    None
}

/// Relies on rayon's into_par_iter/filter/filter_map: evaluates the primality
/// filter and one curve search per candidate on the worker pool and collects
/// the accepted curves, order unspecified; every output's prime is one of the
/// input candidates.
#[verifier::external_body]
fn par_curves(candidates: Vec<u32>, deg: usize, tries: usize) -> (r: Vec<Curve>)
    ensures
        r@.len() <= candidates@.len(),
        forall|i: int| 0 <= i < r@.len() ==> spec_curve_accepted(#[trigger] r@[i])
            && spec_prime(r@[i].prime as int)
            && r@[i].irreducible@.len() == deg + 1
            && exists|j: int| 0 <= j < candidates@.len() && candidates@[j] == r@[i].prime,
{
    candidates
        .into_par_iter()
        .filter(|&x| is_prime(x as u128))
        .filter_map(move |prime| create_curve_for(prime, deg, tries))
        .collect()
}

/// Draws up to `limit` candidates from [from, to) without replacement and
/// searches, in parallel, for an accepted curve over GF(p^deg) for each prime
/// among them. Every curve returned is non-degenerate and near-prime-ordered.
pub fn curves(from: u32, to: u32, limit: usize, tries: usize, deg: usize) -> (r: Vec<Curve>)
    ensures
        r@.len() <= limit,
        forall|i: int| 0 <= i < r@.len() ==> spec_curve_accepted(#[trigger] r@[i])
            && spec_prime(r@[i].prime as int)
            && r@[i].irreducible@.len() == deg + 1
            && from <= r@[i].prime < to,
{
    let candidates = sample_range(from, to, limit);
    par_curves(candidates, deg, tries)
}

} // verus!
