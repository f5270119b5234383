use dlparams::polynomials::{
    create_polynomial_encryption, find_irreducible, gcd, is_good_prime, is_irreducible, kerdim,
    maybe_generator, polynomial_encryptions, power, sample_poly, trim, FieldChar, Poly,
    Polynomial,
};

fn poly(coefs: Vec<u64>) -> Poly {
    Polynomial { coefs }
}

fn copy(p: &Poly) -> Poly {
    Polynomial { coefs: p.coefs.clone() }
}

/// Brute-force: a monic cubic over GF(5) is irreducible exactly when it has
/// no root in GF(5).
fn cubic_has_root_mod5(c0: u64, c1: u64, c2: u64) -> bool {
    (0u64..5).any(|x| (x * x * x + c2 * x * x + c1 * x + c0) % 5 == 0)
}

#[test]
fn trim_reduces_and_normalizes() {
    let t = trim(poly(vec![7, 5, 10]), 5);
    assert_eq!(t.coefs, vec![2]);
    let t = trim(poly(vec![0, 0]), 3);
    assert_eq!(t.coefs, Vec::<u64>::new());
    let t = trim(poly(vec![4, 9, 2]), 7);
    assert_eq!(t.coefs, vec![4, 2, 2]);
}

#[test]
fn gcd_constant_for_squarefree() {
    // f = x^2 + 1 over GF(5) is squarefree; gcd(f, f') is a nonzero constant
    let g = gcd(poly(vec![1, 0, 1]), poly(vec![0, 2]), &5u32);
    assert_eq!(g.coefs.len(), 1);
    assert_ne!(g.coefs[0], 0);
}

#[test]
fn gcd_nonconstant_for_repeated_factor() {
    // f = x^3 over GF(5); f' = 3x^2; gcd has positive degree
    let g = gcd(poly(vec![0, 0, 0, 1]), poly(vec![0, 0, 3]), &5u32);
    assert!(g.coefs.len() >= 2);
}

#[test]
fn nullity_of_identity_is_zero() {
    let p: u32 = 5;
    let mat: Vec<Vec<u64>> = vec![
        vec![1, 0, 0],
        vec![0, 1, 0],
        vec![0, 0, 1],
    ];
    assert_eq!(kerdim(mat, &p), 0);
}

#[test]
fn nullity_of_zero_matrix_is_dimension() {
    let p: u32 = 7;
    let mat: Vec<Vec<u64>> = vec![vec![0, 0, 0], vec![0, 0, 0], vec![0, 0, 0]];
    assert_eq!(kerdim(mat, &p), 3);
}

#[test]
fn nullity_of_rank_one_matrix() {
    let p: u32 = 5;
    let mat: Vec<Vec<u64>> = vec![vec![1, 1], vec![1, 1]];
    assert_eq!(kerdim(mat, &p), 1);
}

#[test]
fn irreducibility_rejects_x_cubed() {
    let p: u32 = 5;
    assert!(!is_irreducible(&poly(vec![0, 0, 0, 1]), &p));
}

#[test]
fn irreducibility_matches_root_check_over_gf5() {
    // every monic cubic over GF(5): the tester must agree with the brute
    // force root check, and accept exactly the 40 irreducible ones
    let p: u32 = 5;
    let mut accepted = 0;
    for c0 in 0..5u64 {
        for c1 in 0..5u64 {
            for c2 in 0..5u64 {
                let f = poly(vec![c0, c1, c2, 1]);
                let lib = is_irreducible(&f, &p);
                let brute = !cubic_has_root_mod5(c0, c1, c2);
                assert_eq!(lib, brute, "disagree on {:?}", (c0, c1, c2));
                if lib {
                    accepted += 1;
                }
            }
        }
    }
    assert_eq!(accepted, 40);
}

#[test]
fn power_is_modular_exponentiation() {
    // x^4 mod (x^2 + 1) over GF(5): x^2 = -1, so x^4 = 1
    let r = power(poly(vec![0, 1]), 4, &poly(vec![1, 0, 1]), 5);
    assert_eq!(r.coefs, vec![1]);
    // x^3 mod (x^2 + 1) = -x = 4x
    let r = power(poly(vec![0, 1]), 3, &poly(vec![1, 0, 1]), 5);
    assert_eq!(r.coefs, vec![0, 4]);
}

#[test]
fn sample_poly_is_monic_and_reduced() {
    for _ in 0..20 {
        let s = sample_poly(7, 3);
        assert_eq!(s.coefs.len(), 4);
        assert_eq!(s.coefs[3], 1);
        assert!(s.coefs.iter().all(|&c| c < 7));
    }
}

#[test]
fn maybe_generator_rejects_constants() {
    // over GF(2) with x^3 + x + 1: the constant 1 is no generator
    let m = poly(vec![1, 1, 0, 1]);
    assert!(maybe_generator(2, &m, poly(vec![1])).is_none());
    // x itself survives: x^(2-1) = x is not constant
    let g = maybe_generator(2, &m, poly(vec![0, 1])).unwrap();
    assert_eq!(g.coefs, vec![0, 1]);
}

#[test]
fn good_primes_are_recognized() {
    assert!(is_good_prime(2)); // 7 prime
    assert!(is_good_prime(5)); // 31 prime
    assert!(!is_good_prime(7)); // 57 = 3 * 19
    assert!(!is_good_prime(4));
    assert!(!is_good_prime(1));
    assert!(!is_good_prime(0));
}

#[test]
fn found_irreducible_has_no_root() {
    let f = find_irreducible(5, 3, 500).expect("an irreducible cubic exists");
    assert_eq!(f.coefs.len(), 4);
    assert_eq!(f.coefs[3], 1);
    assert!(!cubic_has_root_mod5(f.coefs[0], f.coefs[1], f.coefs[2]));
}

#[test]
fn polynomial_encryption_for_gf32() {
    let pe = create_polynomial_encryption(2, 500).expect("parameters for GF(8)");
    assert_eq!(pe.good_prime, 2);
    assert_eq!(pe.irreducible.coefs.len(), 4);
    assert_eq!(pe.irreducible.coefs[3], 1);
    // the generator is not a field constant
    assert!(pe.generator.coefs.len() >= 2);
    // the full multiplicative group of GF(8) has prime order 7: the
    // generator to the 7th power is the identity, and no proper divisor
    // of 7 (only 1) collapses it
    let g7 = power(copy(&pe.generator), 7, &pe.irreducible, 2);
    assert_eq!(g7.coefs, vec![1]);
    let g1 = power(copy(&pe.generator), 1, &pe.irreducible, 2);
    assert_ne!(g1.coefs, vec![1]);
}

#[test]
fn field_context_of_prime_field() {
    let p: u32 = 7;
    assert!(p.is_zero(&0));
    assert!(!p.is_zero(&3));
    assert_eq!(p.order(), 7);
    let inv = p.inverse(&3).unwrap();
    assert_eq!((3 * inv) % 7, 1);
    assert!(p.inverse(&0).is_none());
    let t = p.intern(poly(vec![8, 7, 14]));
    assert_eq!(t.coefs, vec![1]);
}

#[test]
fn reduction_is_idempotent() {
    // raising to the first power reduces modulo m; reducing a reduced value
    // changes nothing
    let m = poly(vec![1, 0, 1]);
    let r1 = power(poly(vec![3, 4, 2, 1]), 1, &m, 5);
    assert!(r1.coefs.len() < m.coefs.len());
    let r2 = power(copy(&r1), 1, &m, 5);
    assert_eq!(r1.coefs, r2.coefs);
}

#[test]
fn polynomial_parameter_search() {
    // the good primes below 40 are exactly 2, 3, 5 and 17
    let out = polynomial_encryptions(2, 40, 38);
    assert!(out.len() <= 4);
    for pe in &out {
        assert!(is_good_prime(pe.good_prime));
        assert!((2..40).contains(&pe.good_prime));
        assert_eq!(pe.irreducible.coefs.len(), 4);
        assert_eq!(pe.irreducible.coefs[3], 1);
        assert!(pe.generator.coefs.len() >= 2);
        assert!(pe.generator.coefs.len() <= 3);
    }
}
