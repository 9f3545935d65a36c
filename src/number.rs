//! The order of JSON numbers as binary64 doubles.
use crate::index::int_cmp;
use crate::value::Number;
use std::cmp::Ordering;
use vstd::arithmetic::power2::{lemma_pow2_adds, lemma_pow2_pos, pow2};
use vstd::prelude::*;

verus! {

/// How many times `m` must be halved to fall below 2^53, the first integer
/// past which not every integer is a double.
pub open spec fn excess_bits(m: nat) -> nat
    decreases m,
{
    if m < 9007199254740992 {
        0
    } else {
        1 + excess_bits(m / 2)
    }
}

/// The double nearest to the integer `m`, as mantissa and binary exponent:
/// `m` itself below 2^53; above, `m / 2^k` for the `k` that leaves 53 bits,
/// rounded to nearest with ties to an even mantissa, as a conversion of an
/// integer to binary64 rounds.
pub open spec fn nearest_double(m: nat) -> (nat, int) {
    let k = excess_bits(m);
    if k == 0 {
        (m, 0)
    } else {
        let p = pow2(k);
        let q = m / p;
        let r = m % p;
        let half = p / 2;
        let up = r > half || (r == half && q % 2 == 1);
        ((if up { q + 1 } else { q }) as nat, k as int)
    }
}

/// A number as the double it stands for, as sign, mantissa and binary
/// exponent: its value is (-1 if negative) * mantissa * 2^exponent. An
/// integer is rounded to the nearest double. A float's bit pattern is read as
/// IEEE-754 binary64 (sign bit, 11 exponent bits, 52 fraction bits); a
/// pattern with all exponent bits set and no fraction (an infinity, which no
/// JSON number is) is read by the same formula, above every finite value of
/// its sign; NaN patterns are ordered apart, by `number_cmp`.
pub open spec fn number_parts(n: Number) -> (bool, nat, int) {
    match n {
        Number::PosInt(u) => {
            let (m, e) = nearest_double(u as nat);
            (false, m, e)
        },
        Number::NegInt(i) => {
            let (m, e) = nearest_double((if i < 0 { -i } else { i as int }) as nat);
            (i < 0, m, e)
        },
        Number::Float(bits) => {
            let frac = (bits as int) % pow2(52) as int;
            let biased = ((bits as int) / pow2(52) as int) % 2048;
            let neg = (bits as int) / pow2(63) as int >= 1;
            if biased == 0 {
                (neg, frac as nat, -1074)
            } else {
                (neg, (frac + pow2(52)) as nat, biased - 1075)
            }
        },
    }
}

/// `m * 2^(e - base)`, for `e >= base`.
pub open spec fn scaled(m: nat, e: int, base: int) -> int {
    (m * pow2((e - base) as nat)) as int
}

/// Whether a number is a float whose bit pattern is a NaN: all exponent bits
/// set and a fraction other than zero.
pub open spec fn is_nan(n: Number) -> bool {
    match n {
        Number::Float(bits) => ((bits as int) / pow2(52) as int) % 2048 == 2047 && (bits as int)
            % pow2(52) as int != 0,
        _ => false,
    }
}

/// Numbers compare as doubles: by the values of the doubles they stand for,
/// a negative zero equal to zero; every NaN is equal to every other NaN and
/// above every other number.
pub open spec fn number_cmp(a: Number, b: Number) -> Ordering {
    if is_nan(a) && is_nan(b) {
        Ordering::Equal
    } else if is_nan(a) {
        Ordering::Greater
    } else if is_nan(b) {
        Ordering::Less
    } else {
        let (s1, m1, e1) = number_parts(a);
        let (s2, m2, e2) = number_parts(b);
        let base = if e1 < e2 { e1 } else { e2 };
        let x = if s1 { -scaled(m1, e1, base) } else { scaled(m1, e1, base) };
        let y = if s2 { -scaled(m2, e2, base) } else { scaled(m2, e2, base) };
        int_cmp(x, y)
    }
}

fn nan_exec(n: Number) -> (r: bool)
    ensures
        r == is_nan(n),
{
    match n {
        Number::Float(bits) => {
            proof {
                vstd::arithmetic::power2::lemma2_to64();
                vstd::arithmetic::power2::lemma2_to64_rest();
            }
            let p52: u64 = 4503599627370496;
            (bits / p52) % 2048 == 2047 && bits % p52 != 0
        },
        _ => false,
    }
}

fn parts(n: Number) -> (r: (bool, u64, i64))
    ensures
        r.2 >= -1074 && r.2 <= 972,
        (r.0, r.1 as nat, r.2 as int) == number_parts(n),
{
    match n {
        Number::PosInt(u) => {
            let (m, e) = round_to_double(u);
            (false, m, e)
        },
        Number::NegInt(i) => {
            if i < 0 {
                let m: u64 = if i == i64::MIN {
                    9223372036854775808u64
                } else {
                    (-i) as u64
                };
                let (q, e) = round_to_double(m);
                (true, q, e)
            } else {
                let (q, e) = round_to_double(i as u64);
                (false, q, e)
            }
        },
        Number::Float(bits) => {
            proof {
                vstd::arithmetic::power2::lemma2_to64();
                vstd::arithmetic::power2::lemma2_to64_rest();
            }
            let p52: u64 = 4503599627370496;
            let frac = bits % p52;
            let biased = (bits / p52) % 2048;
            let neg = bits / 9223372036854775808u64 >= 1;
            if biased == 0 {
                (neg, frac, -1074)
            } else {
                (neg, frac + p52, biased as i64 - 1075)
            }
        },
    }
}

/// The double nearest to `m`: see `nearest_double`.
fn round_to_double(m: u64) -> (r: (u64, i64))
    ensures
        0 <= r.1 <= 11,
        (r.0 as nat, r.1 as int) == nearest_double(m as nat),
{
    proof {
        vstd::arithmetic::power2::lemma2_to64();
        vstd::arithmetic::power2::lemma2_to64_rest();
    }
    let mut x: u64 = m;
    let mut k: u64 = 0;
    while x >= 9007199254740992
        invariant
            k <= 11,
            x as nat == (m as nat) / pow2(k as nat),
            pow2(k as nat) * x <= m,
            excess_bits(m as nat) == k + excess_bits(x as nat),
            pow2(11) == 2048,
            pow2(0) == 1,
        decreases x,
    {
        proof {
            lemma_pow2_pos(k as nat);
            if k >= 11 {
                if k > 11 {
                    vstd::arithmetic::power2::lemma_pow2_strictly_increases(11, k as nat);
                }
                assert(pow2(k as nat) * x >= 2048 * 9007199254740992) by (nonlinear_arith)
                    requires
                        pow2(k as nat) >= 2048,
                        x >= 9007199254740992,
                ;
            }
            vstd::arithmetic::power2::lemma_pow2_unfold((k + 1) as nat);
            vstd::arithmetic::div_mod::lemma_div_denominator(m as int, pow2(k as nat) as int, 2);
            assert(pow2((k + 1) as nat) * (x / 2) <= pow2(k as nat) * x) by (nonlinear_arith)
                requires
                    pow2((k + 1) as nat) == 2 * pow2(k as nat),
            ;
        }
        x = x / 2;
        k = k + 1;
    }
    if k == 0 {
        assert(m as nat / pow2(0) == m as nat);
        return (x, 0);
    }
    let p = pow2_u64(k);
    let r = m % p;
    let half = p / 2;
    let up = r > half || (r == half && x % 2 == 1);
    if up {
        (x + 1, k as i64)
    } else {
        (x, k as i64)
    }
}

/// `2^k` for `k < 64`.
fn pow2_u64(k: u64) -> (r: u64)
    requires
        k < 64,
    ensures
        r as nat == pow2(k as nat),
{
    proof {
        vstd::arithmetic::power2::lemma2_to64();
        vstd::arithmetic::power2::lemma2_to64_rest();
    }
    let mut p: u64 = 1;
    let mut i: u64 = 0;
    while i < k
        invariant
            i <= k,
            k < 64,
            p as nat == pow2(i as nat),
        decreases k - i,
    {
        proof {
            lemma_pow2_adds(i as nat, 1);
            assert(pow2(1) == 2) by {
                vstd::arithmetic::power2::lemma2_to64();
            }
            assert(pow2(i as nat) <= pow2(62)) by {
                if i < 62 {
                    vstd::arithmetic::power2::lemma_pow2_strictly_increases(i as nat, 62);
                }
            }
            assert(pow2(62) == 4611686018427387904) by {
                vstd::arithmetic::power2::lemma2_to64_rest();
            }
        }
        p = p * 2;
        i += 1;
    }
    p
}

/// Compares `a` with `b * 2^k`.
fn cmp_shifted(a: u64, b: u64, k: u64) -> (r: Ordering)
    ensures
        r == int_cmp(a as int, b * pow2(k as nat)),
{
    proof {
        lemma_pow2_pos(k as nat);
    }
    if b == 0 {
        assert(b * pow2(k as nat) == 0);
        return if a == 0 {
            Ordering::Equal
        } else {
            Ordering::Greater
        };
    }
    if k >= 64 {
        proof {
            vstd::arithmetic::power2::lemma2_to64_rest();
            if k > 64 {
                vstd::arithmetic::power2::lemma_pow2_strictly_increases(64, k as nat);
            }
            assert(pow2(k as nat) >= pow2(64));
            assert(b * pow2(k as nat) >= pow2(k as nat)) by (nonlinear_arith)
                requires
                    b >= 1,
                    pow2(k as nat) > 0,
            ;
        }
        return Ordering::Less;
    }
    let p = pow2_u64(k);
    let q = u64::MAX / p;
    if b > q {
        proof {
            assert(b * pow2(k as nat) > u64::MAX) by (nonlinear_arith)
                requires
                    b >= q + 1,
                    q as int == (u64::MAX as int) / (p as int),
                    p as int == pow2(k as nat),
                    p > 0,
            ;
        }
        return Ordering::Less;
    }
    proof {
        assert(b * pow2(k as nat) <= u64::MAX) by (nonlinear_arith)
            requires
                b <= q,
                q as int == (u64::MAX as int) / (p as int),
                p as int == pow2(k as nat),
                p > 0,
        ;
    }
    let bs = b * p;
    if a < bs {
        Ordering::Less
    } else if a == bs {
        Ordering::Equal
    } else {
        Ordering::Greater
    }
}

fn reverse(o: Ordering) -> (r: Ordering)
    ensures
        r == match o {
            Ordering::Less => Ordering::Greater,
            Ordering::Equal => Ordering::Equal,
            Ordering::Greater => Ordering::Less,
        },
{
    match o {
        Ordering::Less => Ordering::Greater,
        Ordering::Equal => Ordering::Equal,
        Ordering::Greater => Ordering::Less,
    }
}

/// Compares the magnitudes `m1 * 2^e1` and `m2 * 2^e2`.
fn cmp_magnitudes(m1: u64, e1: i64, m2: u64, e2: i64) -> (r: Ordering)
    requires
        -1074 <= e1 <= 972,
        -1074 <= e2 <= 972,
    ensures
        ({
            let base = if e1 < e2 { e1 as int } else { e2 as int };
            r == int_cmp(scaled(m1 as nat, e1 as int, base), scaled(m2 as nat, e2 as int, base))
        }),
{
    if e1 <= e2 {
        let k = (e2 - e1) as u64;
        proof {
            assert(pow2(0) == 1) by {
                vstd::arithmetic::power2::lemma2_to64();
            }
            assert(m1 * pow2(0) == m1);
        }
        cmp_shifted(m1, m2, k)
    } else {
        let k = (e1 - e2) as u64;
        proof {
            assert(pow2(0) == 1) by {
                vstd::arithmetic::power2::lemma2_to64();
            }
            assert(m2 * pow2(0) == m2);
        }
        let c = cmp_shifted(m2, m1, k);
        reverse(c)
    }
}

/// Compares two numbers by the exact values they denote.
pub fn compare_numbers(a: Number, b: Number) -> (r: Ordering)
    ensures
        r == number_cmp(a, b),
{
    let na = nan_exec(a);
    let nb = nan_exec(b);
    if na && nb {
        return Ordering::Equal;
    } else if na {
        return Ordering::Greater;
    } else if nb {
        return Ordering::Less;
    }
    let (s1, m1, e1) = parts(a);
    let (s2, m2, e2) = parts(b);
    let ghost base = if e1 < e2 { e1 as int } else { e2 as int };
    let c = cmp_magnitudes(m1, e1, m2, e2);
    let ghost x = scaled(m1 as nat, e1 as int, base);
    let ghost y = scaled(m2 as nat, e2 as int, base);
    proof {
        lemma_pow2_pos((e1 - base) as nat);
        lemma_pow2_pos((e2 - base) as nat);
        assert(x >= 0) by (nonlinear_arith)
            requires
                x == m1 * pow2((e1 - base) as nat),
        ;
        assert(y >= 0) by (nonlinear_arith)
            requires
                y == m2 * pow2((e2 - base) as nat),
        ;
        assert(m1 == 0 <==> x == 0) by (nonlinear_arith)
            requires
                x == m1 * pow2((e1 - base) as nat),
                pow2((e1 - base) as nat) > 0,
        ;
        assert(m2 == 0 <==> y == 0) by (nonlinear_arith)
            requires
                y == m2 * pow2((e2 - base) as nat),
                pow2((e2 - base) as nat) > 0,
        ;
    }
    let n1 = s1 && m1 != 0;
    let n2 = s2 && m2 != 0;
    if !n1 && !n2 {
        c
    } else if n1 && n2 {
        reverse(c)
    } else if n1 {
        Ordering::Less
    } else {
        Ordering::Greater
    }
}

} // verus!
