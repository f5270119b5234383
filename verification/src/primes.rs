//! Trial-division primality, safe primes, candidate generators for a prime
//! group, and prime factorization by repeated trial division.

use vstd::prelude::*;
use vstd::arithmetic::div_mod::{lemma_fundamental_div_mod, lemma_mod_multiples_basic};
use rand::seq::IteratorRandom;
use rayon::iter::{IntoParallelIterator, ParallelIterator};

verus! {

/// A number is prime when it exceeds 1 and no smaller number above 1 divides it.
pub open spec fn spec_prime(n: int) -> bool {
    n > 1 && forall|d: int| 2 <= d < n ==> #[trigger] (n % d) != 0int
}

/// A safe prime: p and (p - 1) / 2 are both prime.
pub open spec fn spec_safe_prime(n: int) -> bool {
    spec_prime(n) && spec_prime((n - 1) / 2)
}

/// A number that equals e * m is divisible by e.
proof fn lemma_multiple_mod_zero(e: int, m: int, n: int)
    requires
        e >= 1,
        n == e * m,
    ensures
        n % e == 0int,
{
    lemma_mod_multiples_basic(m, e);
    assert(m * e == e * m) by (nonlinear_arith);
}

/// If n has no divisor in [2, d) and d * d > n, then n has no divisor in [2, n):
/// a divisor e above the square root pairs with the cofactor n / e below it.
proof fn lemma_no_divisor_above_sqrt(n: int, d: int)
    requires
        n > 1,
        2 <= d,
        d * d > n,
        forall|e: int| 2 <= e < d ==> #[trigger] (n % e) != 0int,
    ensures
        spec_prime(n),
{
    assert forall|e: int| 2 <= e < n implies #[trigger] (n % e) != 0int by {
        if n % e == 0int && e >= d {
            let c = n / e;
            lemma_fundamental_div_mod(n, e);
            assert(n == e * c);
            assert(c >= 2) by (nonlinear_arith)
                requires n == e * c, 2 <= e, e < n, n > 1,
            {}
            assert(c < d) by (nonlinear_arith)
                requires n == e * c, d * d > n, e >= d, d >= 2, c >= 2,
            {}
            lemma_multiple_mod_zero(c, e, n);
            assert(false);
        }
    }
}

/// d <= n / d says the same as d * d <= n, but cannot overflow.
proof fn lemma_div_vs_square(n: int, d: int)
    requires
        d >= 1,
        n >= 0,
    ensures
        (n / d < d) <==> (n < d * d),
{
    lemma_fundamental_div_mod(n, d);
    assert((n / d < d) <==> (n < d * d)) by (nonlinear_arith)
        requires
            d >= 1,
            n >= 0,
            n == d * (n / d) + n % d,
            0 <= n % d < d,
    {}
}

/// Trial division: true exactly when `number` is prime.
pub fn is_prime(number: u128) -> (r: bool)
    ensures
        r == spec_prime(number as int),
{
    if number <= 1 {
        return false;
    }
    let mut d: u128 = 2;
    while d <= number / d
        invariant
            2 <= d,
            number > 1,
            forall|e: int| 2 <= e < d ==> #[trigger] ((number as int) % e) != 0int,
        decreases number + 2 - d,
    {
        proof {
            lemma_div_vs_square(number as int, d as int);
            assert(d < number && d + 1 <= number + 2) by (nonlinear_arith)
                requires number as int >= (d as int) * (d as int), 2 <= d,
            {}
        }
        if number % d == 0 {
            return false;
        }
        d = d + 1;
    }
    proof {
        lemma_div_vs_square(number as int, d as int);
        lemma_no_divisor_above_sqrt(number as int, d as int);
    }
    true
}

/// A safe prime is a prime p whose half, (p - 1) / 2, is prime as well.
pub fn is_safe_prime(number: u32) -> (r: bool)
    ensures
        r == spec_safe_prime(number as int),
{
    let number = number as u128;
    is_prime(number) && is_prime((number - 1) / 2)
}

/// Candidate generators for the group modulo a safe prime: the squares
/// s * s mod p for every s in [2, p - 1).
pub fn generators_for_prime(safe_prime: u32) -> (r: Vec<u32>)
    requires
        safe_prime >= 1,
    ensures
        r@.len() == (if safe_prime >= 3 { safe_prime - 3 } else { 0int }),
        forall|i: int| 0 <= i < r@.len() ==>
            r@[i] == ((i + 2) * (i + 2)) % (safe_prime as int),
{
    let safe_prime = safe_prime as u64;
    let mut r: Vec<u32> = Vec::new();
    let mut s: u64 = 2;
    while s < safe_prime - 1
        invariant
            2 <= s,
            safe_prime >= 1,
            safe_prime <= 0xFFFF_FFFF,
            safe_prime >= 3 ==> s <= safe_prime - 1,
            safe_prime < 3 ==> s == 2,
            r@.len() == s - 2,
            forall|i: int| 0 <= i < r@.len() ==>
                r@[i] == ((i + 2) * (i + 2)) % (safe_prime as int),
        decreases safe_prime - s,
    {
        proof {
            assert((s as int) * (s as int) < 0x1_0000_0000_0000_0000int
                && (s as int) * (s as int) % (safe_prime as int) < safe_prime as int)
                by (nonlinear_arith)
                requires 2 <= s, (s as int) + 1 < safe_prime as int, safe_prime <= 0xFFFF_FFFFu64,
            {}
        }
        let sq = (s * s) % safe_prime;
        r.push(sq as u32);
        s = s + 1;
    }
    r
}

/// The sequence of factors that repeated trial division starting at divisor d
/// emits from n: it stops as soon as the remaining cofactor is below d * d,
/// so the final prime cofactor above the square root is never emitted.
pub open spec fn spec_factors(n: int, d: int) -> Seq<int>
    decreases n, n - d when 2 <= d && n >= 0 via spec_factors_decreases
{
    if n < d * d {
        Seq::empty()
    } else if n % d == 0 {
        seq![d] + spec_factors(n / d, d)
    } else {
        spec_factors(n, d + 1)
    }
}

#[via_fn]
proof fn spec_factors_decreases(n: int, d: int) {
    assert(n >= d * d && d >= 2 ==> 0 <= n / d < n && n - (d + 1) >= 0) by (nonlinear_arith);
}

/// Every factor that trial division emits is prime and divides n, provided
/// divisors below the starting point have already been excluded.
pub proof fn lemma_factors_prime_divisors(n: int, d: int)
    requires
        2 <= d,
        n >= 0,
        forall|e: int| 2 <= e < d ==> #[trigger] (n % e) != 0int,
    ensures
        forall|i: int| 0 <= i < spec_factors(n, d).len() ==>
            spec_prime(#[trigger] spec_factors(n, d)[i]) && n % spec_factors(n, d)[i] == 0int,
    decreases n, n - d,
{
    if n < d * d {
    } else if n % d == 0 {
        let q = n / d;
        lemma_fundamental_div_mod(n, d);
        assert(n == d * q);
        assert(q >= 2 && n - (d + 1) >= 0) by (nonlinear_arith)
            requires n == d * q, n >= d * d, d >= 2,
        {}
        assert(q < n) by (nonlinear_arith)
            requires n == d * q, d >= 2, q >= 2,
        {}
        // d is prime: a proper divisor of d would divide n and sit below d.
        assert forall|e: int| 2 <= e < d implies #[trigger] (d % e) != 0int by {
            if d % e == 0int {
                lemma_fundamental_div_mod(d, e);
                let k = d / e;
                assert(n == e * (k * q)) by (nonlinear_arith)
                    requires n == d * q, d == e * k,
                {}
                lemma_multiple_mod_zero(e, k * q, n);
                assert(false);
            }
        }
        // q inherits the exclusion of divisors below d.
        assert forall|e: int| 2 <= e < d implies #[trigger] (q % e) != 0int by {
            if q % e == 0int {
                lemma_fundamental_div_mod(q, e);
                let k = q / e;
                assert(n == e * (k * d)) by (nonlinear_arith)
                    requires n == d * q, q == e * k,
                {}
                lemma_multiple_mod_zero(e, k * d, n);
                assert(false);
            }
        }
        lemma_factors_prime_divisors(q, d);
        // factors of q divide n as well.
        assert forall|i: int| 0 <= i < spec_factors(n, d).len() implies
            spec_prime(#[trigger] spec_factors(n, d)[i]) && n % spec_factors(n, d)[i] == 0int by {
            if i == 0 {
                assert(spec_factors(n, d)[0] == d);
            } else {
                let f = spec_factors(q, d)[i - 1];
                assert(spec_factors(n, d)[i] == f);
                assert(q % f == 0int);
                lemma_fundamental_div_mod(q, f);
                let k = q / f;
                assert(f >= 2);
                assert(n == f * (k * d)) by (nonlinear_arith)
                    requires n == d * q, q == f * k,
                {}
                lemma_multiple_mod_zero(f, k * d, n);
            }
        }
    } else {
        assert(n - (d + 1) >= 0 && 0 <= n / d < n) by (nonlinear_arith)
            requires n >= d * d, d >= 2,
        {}
        lemma_factors_prime_divisors(n, d + 1);
        assert(spec_factors(n, d) =~= spec_factors(n, d + 1));
    }
}

/// State of a trial-division factorization: the remaining cofactor and the
/// next divisor to try.
pub struct Factorization(pub u128, pub u128);

/// Begins a factorization of `of`, trying divisors upward from 2.
pub fn factorization(of: u128) -> (r: Factorization)
    ensures
        r.0 == of,
        r.1 == 2,
{
    Factorization(of, 2)
}

impl Factorization {
    /// Emits the next trial-division factor, advancing the state; `None` once
    /// the remaining cofactor is below the square of every untried divisor.
    pub fn next(&mut self) -> (r: Option<u128>)
        requires
            old(self).1 >= 2,
        ensures
            final(self).1 >= 2,
            match r {
                Some(f) => {
                    &&& spec_factors(old(self).0 as int, old(self).1 as int)
                        == seq![f as int] + spec_factors(final(self).0 as int, final(self).1 as int)
                    &&& f >= 2
                    &&& old(self).0 % f == 0
                    &&& final(self).0 == old(self).0 / f
                    &&& final(self).1 == f
                    &&& final(self).0 < old(self).0
                    &&& final(self).0 >= 1
                },
                None => {
                    &&& spec_factors(old(self).0 as int, old(self).1 as int) == Seq::<int>::empty()
                    &&& spec_factors(final(self).0 as int, final(self).1 as int)
                        == Seq::<int>::empty()
                    &&& final(self).0 == old(self).0
                },
            },
    {
        loop
            invariant
                self.1 >= 2,
                self.0 == old(self).0,
                spec_factors(old(self).0 as int, old(self).1 as int)
                    == spec_factors(self.0 as int, self.1 as int),
            decreases self.0 + 2 - self.1,
        {
            let Factorization(n, d) = *self;
            proof {
                lemma_div_vs_square(n as int, d as int);
            }
            if n / d < d {
                return None;
            }
            proof {
                assert(d < n && d + 1 <= n + 2) by (nonlinear_arith)
                    requires n as int >= (d as int) * (d as int), 2 <= d,
                {}
            }
            if n % d == 0 {
                proof {
                    lemma_fundamental_div_mod(n as int, d as int);
                    assert(n / d < n && n / d >= 1) by (nonlinear_arith)
                        requires
                            (n as int) % (d as int) == 0int,
                            n as int >= (d as int) * (d as int),
                            2 <= d,
                            (n as int) == (d as int) * ((n as int) / (d as int)) + (n as int) % (d as int),
                    {}
                }
                self.0 = n / d;
                return Some(d);
            }
            self.1 = d + 1;
        }
    }
}

/// The generator is a square: s * s mod p for some s in [2, p - 2].
pub open spec fn spec_square_gen(g: int, p: int) -> bool {
    exists|s: int| 2 <= s < p - 1 && g == #[trigger] ((s * s) % p)
}

/// A safe prime with a generator candidate for its multiplicative group.
pub struct PrimeEncryption {
    pub safe_prime: u32,
    pub generator: u32,
}

/// Relies on rand's IteratorRandom::sample on the thread-local generator: a
/// sample of values drawn from [from, to) without replacement, at most
/// `limit` of them, pairwise distinct since the range repeats no value;
/// which ones come back is not assumed.
#[verifier::external_body]
pub(crate) fn sample_range(from: u32, to: u32, limit: usize) -> (r: Vec<u32>)
    ensures
        forall|i: int| 0 <= i < r@.len() ==> from <= #[trigger] r@[i] < to,
        forall|i: int, j: int| #![trigger r@[i], r@[j]] 0 <= i < j < r@.len() ==> r@[i] != r@[j],
        r@.len() <= limit,
{
    (from..to).sample(&mut rand::rng(), limit)
}

/// Relies on rand's RngExt::random_range: an index below `n`; which one is not
/// assumed.
#[verifier::external_body]
fn choose_index(n: usize) -> (r: usize)
    requires
        n >= 1,
    ensures
        r < n,
{
    <rand::rngs::ThreadRng as rand::RngExt>::random_range(&mut rand::rng(), 0..n)
}

/// Relies on rayon's into_par_iter/filter: keeps exactly the candidates that
/// the verified safe-prime test accepts, evaluated on the worker pool, order
/// unspecified. Every survivor is one of the inputs, a filter yields at most
/// one item per input, and no passing candidate is dropped.
#[verifier::external_body]
fn par_filter_safe_primes(candidates: Vec<u32>) -> (r: Vec<u32>)
    ensures
        r@.len() <= candidates@.len(),
        forall|i: int| 0 <= i < r@.len() ==> spec_safe_prime(#[trigger] r@[i] as int)
            && exists|j: int| 0 <= j < candidates@.len() && candidates@[j] == r@[i],
        forall|j: int| 0 <= j < candidates@.len() && spec_safe_prime(#[trigger] candidates@[j] as int)
            ==> exists|i: int| 0 <= i < r@.len() && r@[i] == candidates@[j],
{
    candidates.into_par_iter().filter(|&n| is_safe_prime(n)).collect()
}

/// Draws up to `limit` candidates from [from, to) without replacement, keeps
/// the safe primes (in parallel), and pairs each with a random generator
/// candidate: a square s * s mod p for some s in [2, p - 2].
pub fn prime_encryptions(from: u32, to: u32, limit: usize) -> (r: Vec<PrimeEncryption>)
    ensures
        r@.len() <= limit,
        forall|i: int| 0 <= i < r@.len() ==> {
            let pe = #[trigger] r@[i];
            &&& spec_safe_prime(pe.safe_prime as int)
            &&& from <= pe.safe_prime < to
            &&& spec_square_gen(pe.generator as int, pe.safe_prime as int)
        },
{
    let candidates = sample_range(from, to, limit);
    let ghost candidate_count = candidates@.len();
    let safes = par_filter_safe_primes(candidates);
    let mut out: Vec<PrimeEncryption> = Vec::new();
    let mut i: usize = 0;
    while i < safes.len()
        invariant
            i <= safes@.len(),
            safes@.len() <= limit,
            out@.len() == i,
            forall|k: int| 0 <= k < safes@.len() ==> spec_safe_prime(#[trigger] safes@[k] as int)
                && from <= safes@[k] < to,
            forall|k: int| 0 <= k < out@.len() ==> {
                let pe = #[trigger] out@[k];
                &&& spec_safe_prime(pe.safe_prime as int)
                &&& from <= pe.safe_prime < to
                &&& spec_square_gen(pe.generator as int, pe.safe_prime as int)
            },
        decreases safes@.len() - i,
    {
        let sp = safes[i];
        proof {
            // a safe prime is at least 5: (sp - 1) / 2 must itself exceed 1
            assert(spec_prime((sp as int - 1) / 2));
            assert(sp >= 5);
        }
        let gens = generators_for_prime(sp);
        let idx = choose_index(gens.len());
        let g = gens[idx];
        proof {
            let s = idx as int + 2;
            assert(gens@[idx as int] == (s * s) % (sp as int));
            assert(spec_square_gen(g as int, sp as int));
        }
        out.push(PrimeEncryption { safe_prime: sp, generator: g });
        i = i + 1;
    }
    out
}

/// Linear least-prime-factor sieve: collects, in increasing order, the
/// numbers below n that no earlier pass marked composite. Each marking pass
/// stamps i * prime with its least prime factor; the index guard is exact,
/// so every write stays below n.
pub fn sieve(n: usize) -> (r: Vec<usize>)
    ensures
        forall|i: int| 0 <= i < r@.len() ==> 2 <= #[trigger] r@[i] < n,
        forall|i: int, j: int| #![trigger r@[i], r@[j]] 0 <= i < j < r@.len() ==> r@[i] < r@[j],
{
    let mut least_primes: Vec<usize> = Vec::new();
    let mut i: usize = 0;
    while i < n
        invariant
            least_primes@.len() == i,
            i <= n,
        decreases n - i,
    {
        least_primes.push(0);
        i = i + 1;
    }
    let mut primes: Vec<usize> = Vec::new();
    let mut i: usize = 2;
    while i < n
        invariant
            2 <= i,
            least_primes@.len() == n,
            forall|k: int| 0 <= k < primes@.len() ==> 2 <= #[trigger] primes@[k] < n,
            forall|k: int| 0 <= k < primes@.len() ==> #[trigger] primes@[k] < i,
            forall|k: int, l: int| #![trigger primes@[k], primes@[l]] 0 <= k < l < primes@.len() ==> primes@[k] < primes@[l],
        decreases n - i,
    {
        if least_primes[i] == 0 {
            least_primes[i] = i;
            primes.push(i);
        }
        let mut t: usize = 0;
        while t < primes.len()
            invariant
                2 <= i < n,
                least_primes@.len() == n,
                t <= primes@.len(),
                forall|k: int| 0 <= k < primes@.len() ==> 2 <= #[trigger] primes@[k] < n,
                forall|k: int| 0 <= k < primes@.len() ==> #[trigger] primes@[k] <= i,
                forall|k: int, l: int| #![trigger primes@[k], primes@[l]] 0 <= k < l < primes@.len() ==> primes@[k] < primes@[l],
            decreases primes@.len() - t,
        {
            let prime = primes[t];
            if prime > least_primes[i] {
                break;
            }
            if i > (n - 1) / prime {
                break;
            }
            proof {
                lemma_fundamental_div_mod((n - 1) as int, prime as int);
                assert(i * prime < n) by (nonlinear_arith)
                    requires
                        i <= ((n - 1) as int) / (prime as int),
                        prime >= 2,
                        n >= 1,
                        (n - 1) as int == (prime as int) * (((n - 1) as int) / (prime as int))
                            + ((n - 1) as int) % (prime as int),
                        0 <= ((n - 1) as int) % (prime as int),
                {}
            }
            least_primes[i * prime] = prime;
            t = t + 1;
        }
        i = i + 1;
    }
    primes
}

/// Integer square root: the largest r with r * r <= number.
pub fn sqrt(number: u128) -> (r: u128)
    ensures
        (r as int) * (r as int) <= number as int,
        ((r as int) + 1) * ((r as int) + 1) > number as int,
{
    let mut r: u128 = 0;
    while r + 1 <= number / (r + 1)
        invariant
            r <= number,
            r < 0x1_0000_0000_0000_0000,
            (r as int) * (r as int) <= number as int,
        decreases number - r,
    {
        proof {
            lemma_div_vs_square(number as int, r as int + 1);
            assert(r + 1 <= number && r + 1 < 0x1_0000_0000_0000_0000) by (nonlinear_arith)
                requires
                    number as int >= ((r as int) + 1) * ((r as int) + 1),
                    r >= 0,
                    number <= u128::MAX,
            {}
        }
        r = r + 1;
    }
    proof {
        lemma_div_vs_square(number as int, r as int + 1);
    }
    r
}

} // verus!
