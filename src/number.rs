use vstd::arithmetic::div_mod::{lemma_div_denominator, lemma_fundamental_div_mod, lemma_small_mod};
use vstd::arithmetic::power2::{lemma2_to64, lemma2_to64_rest, lemma_pow2_pos, lemma_pow2_strictly_increases, lemma_pow2_unfold, pow2};
use vstd::prelude::*;

verus! {

/// A JSON number, held the way a JSON reader keeps it: a non-negative
/// integer, a negative integer, or a finite double given by its IEEE-754
/// bit pattern.
#[derive(Clone, Copy, Debug, PartialEq, Eq)]
pub enum Number {
    PosInt(u64),
    NegInt(i64),
    Float(u64),
}

/// How numbers of different representations are compared.
#[derive(Clone, Copy, Debug, PartialEq, Eq)]
pub enum NumericMode {
    /// An integer never equals a float, even of the same magnitude.
    Strict,
    /// Both numbers are converted to doubles before they are compared.
    AssumeFloat,
}

/// 2^53: the first integer past the doubles' run of consecutive integers.
pub open spec fn significand_limit() -> nat {
    0x20_0000_0000_0000
}

/// The value of an integer number; `None` for a float.
pub open spec fn int_value(n: Number) -> Option<int> {
    match n {
        Number::PosInt(u) => Some(u as int),
        Number::NegInt(i) => Some(i as int),
        Number::Float(_) => None,
    }
}

/// Whether the bit pattern encodes a zero (of either sign).
pub open spec fn is_zero_bits(bits: u64) -> bool {
    bits % 0x8000_0000_0000_0000 == 0
}

/// Whether two finite doubles are equal as numbers: the same pattern, or both zeros.
pub open spec fn same_double(a: u64, b: u64) -> bool {
    a == b || (is_zero_bits(a) && is_zero_bits(b))
}

/// How many low bits of `n` must go for the rest to fit a double's significand.
pub open spec fn dropped_bits(n: nat) -> nat
    decreases n,
{
    if n < significand_limit() {
        0
    } else {
        1 + dropped_bits(n / 2)
    }
}

/// The double nearest to the natural number `n` (ties to an even significand),
/// which is itself a natural number.
pub open spec fn round_to_double(n: nat) -> nat {
    let p = pow2(dropped_bits(n));
    let q = n / p;
    let r = n % p;
    if 2 * r > p || (2 * r == p && q % 2 == 1) {
        (q + 1) * p
    } else {
        q * p
    }
}

/// The double nearest to the integer `i`; rounding is symmetric in the sign.
pub open spec fn int_as_double(i: int) -> int {
    if i >= 0 {
        round_to_double(i as nat) as int
    } else {
        -(round_to_double((-i) as nat) as int)
    }
}

/// The value of a double given by its bit pattern, when that value is an integer.
pub open spec fn float_integer(bits: u64) -> Option<int> {
    let negative = bits >= 0x8000_0000_0000_0000;
    let e = (bits / 0x10_0000_0000_0000) % 0x800;
    let f = bits % 0x10_0000_0000_0000;
    let sig: nat = (f + 0x10_0000_0000_0000) as nat;
    let magnitude: Option<nat> = if e == 0 {
        // subnormal numbers lie strictly between -1 and 1
        if f == 0 {
            Some(0)
        } else {
            None
        }
    } else if e == 0x7ff {
        None
    } else if e >= 1075 {
        Some((sig * pow2((e - 1075) as nat)) as nat)
    } else if sig % pow2((1075 - e) as nat) == 0 {
        Some((sig / pow2((1075 - e) as nat)) as nat)
    } else {
        None
    };
    match magnitude {
        Some(m) => Some(
            if negative {
                -(m as int)
            } else {
                m as int
            },
        ),
        None => None,
    }
}

/// Whether two numbers are equal under the numeric mode.
pub open spec fn numbers_agree(a: Number, b: Number, mode: NumericMode) -> bool {
    match (a, b) {
        (Number::Float(x), Number::Float(y)) => same_double(x, y),
        (Number::Float(x), _) => mode == NumericMode::AssumeFloat && float_integer(x) == Some(
            int_as_double(int_value(b)->0),
        ),
        (_, Number::Float(y)) => mode == NumericMode::AssumeFloat && float_integer(y) == Some(
            int_as_double(int_value(a)->0),
        ),
        _ => match mode {
            NumericMode::Strict => int_value(a) == int_value(b),
            NumericMode::AssumeFloat => int_as_double(int_value(a)->0) == int_as_double(
                int_value(b)->0,
            ),
        },
    }
}

/// Equality of numbers is reflexive and symmetric in every mode.
pub proof fn lemma_numbers_agree_equivalence(a: Number, b: Number, mode: NumericMode)
    ensures
        numbers_agree(a, a, mode),
        numbers_agree(a, b, mode) == numbers_agree(b, a, mode),
{
}

/// 2^k for k <= 64.
fn pow2_wide(k: u32) -> (r: u128)
    requires
        k <= 64,
    ensures
        r == pow2(k as nat),
        1 <= r <= 0x1_0000_0000_0000_0000,
{
    proof {
        lemma2_to64();
        lemma_pow2_pos(k as nat);
    }
    let mut r: u128 = 1;
    let mut i: u32 = 0;
    while i < k
        invariant
            i <= k <= 64,
            r == pow2(i as nat),
            pow2(64) == 0x1_0000_0000_0000_0000,
        decreases k - i,
    {
        proof {
            lemma_pow2_unfold((i + 1) as nat);
            if i + 1 < 64 {
                lemma_pow2_strictly_increases((i + 1) as nat, 64);
            }
        }
        r = r * 2;
        i = i + 1;
    }
    proof {
        if k < 64 {
            lemma_pow2_strictly_increases(k as nat, 64);
        }
    }
    r
}

/// The double nearest to `n`, as an integer.
fn round_magnitude(n: u64) -> (r: u128)
    ensures
        r == round_to_double(n as nat),
        r <= 0x2_0000_0000_0000_0000,
{
    let mut q: u64 = n;
    let mut p: u128 = 1;
    let ghost mut k: nat = 0;
    proof {
        lemma2_to64();
    }
    while q >= 0x20_0000_0000_0000
        invariant
            p == pow2(k),
            1 <= p < 0x1000,
            q as int == n as int / p as int,
            dropped_bits(n as nat) == k + dropped_bits(q as nat),
        decreases q,
    {
        proof {
            lemma_div_denominator(n as int, p as int, 2);
            lemma_pow2_unfold(k + 1);
            lemma_fundamental_div_mod(n as int, p as int);
            assert(p * 0x20_0000_0000_0000 <= p * q) by (nonlinear_arith)
                requires
                    q >= 0x20_0000_0000_0000,
                    p >= 1,
            ;
            assert(p * q <= n) by (nonlinear_arith)
                requires
                    n == p * (n as int / p as int) + n as int % p as int,
                    n as int % p as int >= 0,
                    q as int == n as int / p as int,
            ;
        }
        q = q / 2;
        p = p * 2;
        proof {
            k = k + 1;
        }
    }
    let rem: u128 = n as u128 % p;
    proof {
        lemma_fundamental_div_mod(n as int, p as int);
    }
    let up = 2 * rem > p || (2 * rem == p && q % 2 == 1);
    let base: u128 = if up {
        q as u128 + 1
    } else {
        q as u128
    };
    assert(base * p <= 0x20_0000_0000_0000 * 0x1000) by (nonlinear_arith)
        requires
            base <= 0x20_0000_0000_0000,
            p <= 0x1000,
    ;
    base * p
}

/// The signed value of a double's bit pattern when it is an integer of
/// magnitude below 2^66; `None` when it is not an integer or lies further out.
fn float_small_integer(bits: u64) -> (r: Option<i128>)
    ensures
        r matches Some(v) ==> float_integer(bits) == Some(v as int),
        r is None ==> (float_integer(bits) matches Some(v) ==> (v >= 0x4_0000_0000_0000_0000 || v
            <= -0x4_0000_0000_0000_0000)),
{
    proof {
        lemma2_to64();
    }
    let negative = bits >= 0x8000_0000_0000_0000;
    let e = (bits / 0x10_0000_0000_0000) % 0x800;
    let f = bits % 0x10_0000_0000_0000;
    let sig: u64 = f + 0x10_0000_0000_0000;
    let magnitude: u128;
    if e == 0 {
        if f == 0 {
            return Some(0);
        } else {
            return None;
        }
    } else if e == 0x7ff {
        return None;
    } else if e >= 1075 {
        let shift = (e - 1075) as u32;
        if shift > 13 {
            proof {
                if shift > 14 {
                    lemma_pow2_strictly_increases(14, shift as nat);
                }
                assert(sig * pow2(shift as nat) >= 0x4_0000_0000_0000_0000) by (nonlinear_arith)
                    requires
                        sig >= 0x10_0000_0000_0000,
                        pow2(shift as nat) >= 0x4000,
                ;
            }
            return None;
        }
        let p = pow2_wide(shift);
        proof {
            if shift < 13 {
                lemma_pow2_strictly_increases(shift as nat, 13);
            }
        }
        assert(sig as u128 * p <= 0x20_0000_0000_0000 * 0x2000) by (nonlinear_arith)
            requires
                sig < 0x20_0000_0000_0000,
                p <= 0x2000,
        ;
        magnitude = sig as u128 * p;
    } else {
        let shift = (1075 - e) as u32;
        if shift > 53 {
            proof {
                lemma_pow2_strictly_increases(53, shift as nat);
                lemma2_to64_rest();
                lemma_small_mod(sig as nat, pow2(shift as nat));
            }
            return None;
        }
        let p = pow2_wide(shift);
        if sig as u128 % p != 0 {
            return None;
        }
        magnitude = sig as u128 / p;
    }
    let m = magnitude as i128;
    Some(
        if negative {
            -m
        } else {
            m
        },
    )
}

/// Splits an integer number into sign and magnitude.
fn sign_and_magnitude(n: Number) -> (r: (bool, u64))
    requires
        !(n is Float),
    ensures
        int_value(n)->0 == (if r.0 {
            -(r.1 as int)
        } else {
            r.1 as int
        }),
{
    match n {
        Number::PosInt(u) => (false, u),
        Number::NegInt(i) => {
            if i >= 0 {
                (false, i as u64)
            } else {
                (true, (0 - (i as i128)) as u64)
            }
        },
        Number::Float(_) => (false, 0),
    }
}

/// The double nearest to an integer number, as an integer.
fn integer_as_double(n: Number) -> (r: i128)
    requires
        !(n is Float),
    ensures
        r as int == int_as_double(int_value(n)->0),
        -0x2_0000_0000_0000_0000 <= r <= 0x2_0000_0000_0000_0000,
{
    let (negative, magnitude) = sign_and_magnitude(n);
    let rounded = round_magnitude(magnitude) as i128;
    if negative && magnitude != 0 {
        -rounded
    } else {
        rounded
    }
}

/// Compares two numbers under the numeric mode.
pub fn numbers_equal(a: Number, b: Number, mode: NumericMode) -> (r: bool)
    ensures
        r == numbers_agree(a, b, mode),
{
    match (a, b) {
        (Number::Float(x), Number::Float(y)) => {
            x == y || (x % 0x8000_0000_0000_0000 == 0 && y % 0x8000_0000_0000_0000 == 0)
        },
        (Number::Float(x), _) => match mode {
            NumericMode::Strict => false,
            NumericMode::AssumeFloat => {
                let d = integer_as_double(b);
                match float_small_integer(x) {
                    Some(v) => v == d,
                    None => false,
                }
            },
        },
        (_, Number::Float(y)) => match mode {
            NumericMode::Strict => false,
            NumericMode::AssumeFloat => {
                let d = integer_as_double(a);
                match float_small_integer(y) {
                    Some(v) => v == d,
                    None => false,
                }
            },
        },
        _ => match mode {
            NumericMode::Strict => {
                let (sa, ma) = sign_and_magnitude(a);
                let (sb, mb) = sign_and_magnitude(b);
                ma == mb && (sa == sb || ma == 0)
            },
            NumericMode::AssumeFloat => {
                integer_as_double(a) == integer_as_double(b)
            },
        },
    }
}

} // verus!
