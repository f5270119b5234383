use dlparams::conversion::{decode_ascii, encode_ascii, sequence};
use dlparams::elliptic_curves::{
    check_curve, count_size, create_curve, create_curve_for, curves, good_enough, FieldParams,
};
use dlparams::polynomials::{FieldChar, Poly, Polynomial};
use dlparams::primes::{
    factorization, generators_for_prime, is_prime, is_safe_prime, prime_encryptions, sieve, sqrt,
};

fn poly(coefs: Vec<u64>) -> Poly {
    Polynomial { coefs }
}

#[test]
fn primality_by_trial_division() {
    assert!(!is_prime(0));
    assert!(!is_prime(1));
    assert!(is_prime(2));
    assert!(is_prime(3));
    assert!(!is_prime(25));
    assert!(is_prime(97));
    assert!(!is_prime(91)); // 7 * 13
    assert!(is_prime(2147483647));
}

#[test]
fn safe_primes() {
    assert!(is_safe_prime(5)); // 2 prime
    assert!(is_safe_prime(11)); // 5 prime
    assert!(is_safe_prime(23)); // 11 prime
    assert!(!is_safe_prime(13)); // 6 not prime
    assert!(!is_safe_prime(4));
    assert!(!is_safe_prime(0));
}

#[test]
fn generator_candidates_are_squares() {
    let g = generators_for_prime(11);
    assert_eq!(g.len(), 8);
    let expected: Vec<u32> = (2u64..10).map(|s| ((s * s) % 11) as u32).collect();
    assert_eq!(g, expected);
}

#[test]
fn factorization_emits_small_factors() {
    let mut f = factorization(12);
    assert_eq!(f.next(), Some(2));
    assert_eq!(f.next(), Some(2));
    assert_eq!(f.next(), None); // the remaining cofactor 3 sits below every d * d tried
    let mut f = factorization(360);
    let mut out = vec![];
    while let Some(d) = f.next() {
        out.push(d);
    }
    assert_eq!(out, vec![2, 2, 2, 3, 3]);
}

#[test]
fn near_prime_orders() {
    assert!(good_enough(9)); // factors [3], 9 >= 9
    assert!(good_enough(4)); // factors [2], 4 >= 4
    assert!(!good_enough(62)); // factors [2], 4 < 62
    assert!(!good_enough(7)); // no factor emitted
    assert!(!good_enough(0));
    assert!(!good_enough(6)); // factors [2]; 4 < 6
}

#[test]
fn integer_square_root() {
    assert_eq!(sqrt(0), 0);
    assert_eq!(sqrt(1), 1);
    assert_eq!(sqrt(15), 3);
    assert_eq!(sqrt(16), 4);
    assert_eq!(sqrt(10_000_000_000), 100_000);
}

#[test]
fn alphabet_roundtrip() {
    let symbols: Vec<u8> = (48..=57).chain(65..=90).chain(97..=122).chain([32, 46]).collect();
    for &s in &symbols {
        let e = encode_ascii(s);
        assert!(e < 64);
        assert_eq!(decode_ascii(e), s);
    }
    assert_eq!(encode_ascii(b'A'), 10);
    assert_eq!(decode_ascii(62), b' ');
}

#[test]
fn digit_expansion() {
    assert_eq!(sequence(13, 5), vec![3, 2]);
    assert_eq!(sequence(0, 7), Vec::<u128>::new());
    assert_eq!(sequence(255, 2), vec![1; 8]);
}

#[test]
fn prime_group_parameters_in_range() {
    // sampling the whole of [10, 50) must surface exactly the safe primes
    // 11, 23 and 47, each paired with a square generator
    let out = prime_encryptions(10, 50, 40);
    let mut primes: Vec<u32> = out.iter().map(|pe| pe.safe_prime).collect();
    primes.sort();
    primes.dedup();
    assert_eq!(primes, vec![11, 23, 47]);
    for pe in &out {
        let p = pe.safe_prime;
        assert!(is_safe_prime(p));
        assert!((10..50).contains(&p));
        let p64 = p as u64;
        assert!(
            (2..p64 - 1).any(|s| (s * s % p64) as u32 == pe.generator),
            "generator {} is no square mod {}",
            pe.generator,
            p
        );
    }
}

// ---- extension-field curve machinery ----

/// GF(9) as pairs (c0, c1) with x^2 = -1 over GF(3).
fn gf9_mul(a: (u64, u64), b: (u64, u64)) -> (u64, u64) {
    let c0 = (a.0 * b.0 + 2 * a.1 * b.1) % 3; // x^2 = -1 = 2
    let c1 = (a.0 * b.1 + a.1 * b.0) % 3;
    (c0, c1)
}

fn gf9_add(a: (u64, u64), b: (u64, u64)) -> (u64, u64) {
    ((a.0 + b.0) % 3, (a.1 + b.1) % 3)
}

fn gf9_elements() -> Vec<(u64, u64)> {
    let mut v = vec![];
    for c1 in 0..3 {
        for c0 in 0..3 {
            v.push((c0, c1));
        }
    }
    v
}

#[test]
fn count_size_matches_brute_force_over_gf9() {
    // curve v = x^3 + x + 1 over GF(9) with modulus x^2 + 1; the counter
    // tallies the x whose v is a quadratic non-residue
    let m = poly(vec![1, 0, 1]);
    let a = poly(vec![1]);
    let b = poly(vec![1]);
    let squares: Vec<(u64, u64)> = gf9_elements().iter().map(|&y| gf9_mul(y, y)).collect();
    let mut expected = 0;
    for x in gf9_elements() {
        let x3 = gf9_mul(gf9_mul(x, x), x);
        let v = gf9_add(gf9_add(x3, x), (1, 0));
        if !squares.contains(&v) {
            expected += 1;
        }
    }
    let counted = count_size(3, &m, &a, &b);
    assert_eq!(counted, expected);
}

#[test]
fn singular_curves_are_rejected() {
    // over GF(9) with a = 0, b = 0: 4a^3 + 27b^2 = 0, a singular curve
    let m = poly(vec![1, 0, 1]);
    assert!(!check_curve(3, &m, &poly(vec![]), &poly(vec![])));
    assert!(check_curve(3, &m, &poly(vec![1]), &poly(vec![1])));
    assert!(create_curve(3, &m, poly(vec![]), poly(vec![])).is_none());
}

#[test]
fn accepted_curves_satisfy_their_invariants() {
    if let Some(c) = create_curve_for(3, 2, 500) {
        assert_eq!(c.prime, 3);
        assert_eq!(c.irreducible.coefs.len(), 3);
        assert_eq!(*c.irreducible.coefs.last().unwrap(), 1);
        assert!(check_curve(c.prime, &c.irreducible, &c.a, &c.b));
        assert!(good_enough(c.size as u128));
        assert_eq!(c.size, count_size(c.prime, &c.irreducible, &c.a, &c.b));
    }
}

#[test]
fn curve_search_returns_validated_curves() {
    let found = curves(3, 20, 17, 200, 2);
    for c in &found {
        assert!(is_prime(c.prime as u128));
        assert!((3..20).contains(&c.prime));
        assert!(check_curve(c.prime, &c.irreducible, &c.a, &c.b));
        assert!(good_enough(c.size as u128));
    }
}

#[test]
fn extension_field_context() {
    let fp = FieldParams(3, poly(vec![1, 0, 1]));
    assert!(fp.is_zero(&poly(vec![])));
    assert!(!fp.is_zero(&poly(vec![0, 1])));
    assert_eq!(fp.order(), 9);
    // (x) * (x) = x^2 = -1 = 2 mod (x^2 + 1)
    let sq = fp.mul_el(&poly(vec![0, 1]), &poly(vec![0, 1]));
    assert_eq!(sq.coefs, vec![2]);
    // inverse of x is 2x: x * 2x = 2x^2 = -2 = 1
    let inv = fp.inverse(&poly(vec![0, 1])).unwrap();
    let check = fp.mul_el(&poly(vec![0, 1]), &inv);
    assert_eq!(check.coefs, vec![1]);
    assert!(fp.inverse(&poly(vec![])).is_none());
    // canonicalization reduces each coefficient mod 3 and then mod x^2 + 1,
    // and drops trailing zero elements
    let raw = dlparams::polynomials::Polynomial {
        coefs: vec![poly(vec![5, 1]), poly(vec![3])],
    };
    let canon = fp.intern(raw);
    assert_eq!(canon.coefs.len(), 1);
    assert_eq!(canon.coefs[0].coefs, vec![2, 1]);
}

#[test]
fn sieve_collects_primes_in_order() {
    assert_eq!(sieve(30), vec![2, 3, 5, 7, 11, 13, 17, 19, 23, 29]);
    assert_eq!(sieve(2), Vec::<usize>::new());
    assert_eq!(sieve(0), Vec::<usize>::new());
    let s = sieve(1000);
    assert_eq!(s.len(), 168);
    for &p in &s {
        assert!(is_prime(p as u128));
    }
}

#[test]
fn canonicalization_is_idempotent() {
    // prime-field context: a canonical polynomial passes through unchanged,
    // and canonicalizing twice equals canonicalizing once
    let p: u32 = 7;
    let once = p.intern(poly(vec![9, 7, 15, 14]));
    assert_eq!(once.coefs, vec![2, 0, 1]);
    let twice = p.intern(poly(once.coefs.clone()));
    assert_eq!(twice.coefs, once.coefs);
    // extension-field context, same law
    let fp = FieldParams(3, poly(vec![1, 0, 1]));
    let raw = dlparams::polynomials::Polynomial {
        coefs: vec![poly(vec![4, 5]), poly(vec![6])],
    };
    let once = fp.intern(raw);
    let copy = dlparams::polynomials::Polynomial {
        coefs: once.coefs.iter().map(|e| poly(e.coefs.clone())).collect(),
    };
    let twice = fp.intern(copy);
    assert_eq!(twice.coefs.len(), once.coefs.len());
    for (x, y) in twice.coefs.iter().zip(once.coefs.iter()) {
        assert_eq!(x.coefs, y.coefs);
    }
}
