//! A small text/integer encoding alphabet and base-m digit expansion.

use vstd::prelude::*;

verus! {

pub const ALPHABET_SIZE: usize = 64;

/// The bytes the alphabet covers: space, dot, digits, upper and lower letters.
pub open spec fn spec_valid_symbol(s: int) -> bool {
    ||| s == 32
    ||| s == 46
    ||| 48 <= s <= 57
    ||| 65 <= s <= 90
    ||| 97 <= s <= 122
}

/// Alphabet position of a valid byte.
pub open spec fn spec_encode_ascii(s: int) -> int {
    if s == 32 {
        62
    } else if s == 46 {
        63
    } else if 48 <= s <= 57 {
        s - 48
    } else if 65 <= s <= 90 {
        s - 55
    } else {
        s - 61
    }
}

/// Byte at an alphabet position.
pub open spec fn spec_decode_ascii(n: int) -> int {
    if 0 <= n <= 9 {
        48 + n
    } else if 10 <= n <= 35 {
        55 + n
    } else if 36 <= n <= 61 {
        61 + n
    } else if n == 62 {
        32
    } else {
        46
    }
}

/// Maps a supported byte to its position in the 64-symbol alphabet.
pub fn encode_ascii(symbol: u8) -> (r: u8)
    requires
        spec_valid_symbol(symbol as int),
    ensures
        r == spec_encode_ascii(symbol as int),
        r < 64,
{
    match symbol {
        32 => 62,
        46 => 63,
        48..=57 => symbol - 48,
        65..=90 => symbol - 55,
        _ => symbol - 61,
    }
}

/// Maps an alphabet position back to the byte it stands for.
pub fn decode_ascii(number: u8) -> (r: u8)
    requires
        number < 64,
    ensures
        r == spec_decode_ascii(number as int),
{
    match number {
        0..=9 => 48 + number,
        10..=35 => 55 + number,
        36..=61 => 61 + number,
        62 => 32,
        _ => 46,
    }
}

/// Decoding inverts encoding on every supported byte.
pub proof fn lemma_encode_decode_roundtrip(s: int)
    requires
        spec_valid_symbol(s),
    ensures
        spec_decode_ascii(spec_encode_ascii(s)) == s,
        0 <= spec_encode_ascii(s) < 64,
{
}

/// Encoding inverts decoding on every alphabet position.
pub proof fn lemma_decode_encode_roundtrip(n: int)
    requires
        0 <= n < 64,
    ensures
        spec_valid_symbol(spec_decode_ascii(n)),
        spec_encode_ascii(spec_decode_ascii(n)) == n,
{
}

/// Base-m digits of n, least significant first, with no trailing zero digit.
pub open spec fn spec_digits(n: int, m: int) -> Seq<int>
    decreases n when m >= 2 && n >= 0 via spec_digits_decreases
{
    if n <= 0 {
        Seq::empty()
    } else {
        seq![n % m] + spec_digits(n / m, m)
    }
}

#[via_fn]
proof fn spec_digits_decreases(n: int, m: int) {
    assert(n >= 1 && m >= 2 ==> n / m < n) by (nonlinear_arith);
}

/// Expands a number into its base-`modulo` digit sequence, least significant
/// digit first; zero expands to the empty sequence.
pub fn sequence(number: u128, modulo: u128) -> (r: Vec<u128>)
    requires
        modulo >= 2,
    ensures
        r@.len() == spec_digits(number as int, modulo as int).len(),
        forall|i: int| 0 <= i < r@.len() ==>
            r@[i] == spec_digits(number as int, modulo as int)[i],
        forall|i: int| 0 <= i < r@.len() ==> r@[i] < modulo,
{
    let ghost orig: int = number as int;
    let ghost m: int = modulo as int;
    let mut number = number;
    let mut r: Vec<u128> = Vec::new();
    while number != 0
        invariant
            modulo >= 2,
            m == modulo as int,
            spec_digits(orig, m).len() == r@.len() + spec_digits(number as int, m).len(),
            forall|i: int| 0 <= i < r@.len() ==> r@[i] == spec_digits(orig, m)[i],
            forall|i: int| 0 <= i < spec_digits(number as int, m).len() ==>
                spec_digits(number as int, m)[i] == spec_digits(orig, m)[r@.len() + i],
            forall|i: int| 0 <= i < r@.len() ==> r@[i] < modulo,
        decreases number,
    {
        let ghost pre: int = number as int;
        let ghost ll: int = r@.len() as int;
        proof {
            assert(pre / m < pre) by (nonlinear_arith)
                requires pre >= 1, m >= 2,
            {}
            assert(spec_digits(pre, m) =~= seq![pre % m] + spec_digits(pre / m, m));
            assert(spec_digits(pre, m)[0] == spec_digits(orig, m)[ll]);
        }
        let digit = number % modulo;
        r.push(digit);
        number = number / modulo;
        proof {
            assert(forall|i: int| 0 <= i < spec_digits(pre / m, m).len() ==>
                #[trigger] spec_digits(pre / m, m)[i] == spec_digits(pre, m)[i + 1]);
            assert forall|i: int| 0 <= i < spec_digits(number as int, m).len() implies
                spec_digits(number as int, m)[i] == spec_digits(orig, m)[r@.len() + i] by {
                assert(spec_digits(pre, m)[i + 1] == spec_digits(orig, m)[ll + i + 1]);
            }
        }
    }
    r
}

} // verus!
