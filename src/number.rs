//! Numbers as IEEE-754 double bit patterns, read with integer arithmetic.
use vstd::arithmetic::power2::*;
use vstd::prelude::*;

verus! {

/// `2^52`: the weight of the lowest exponent bit.
pub const EXPONENT_UNIT: u64 = 0x10_0000_0000_0000;

/// `2^63`: the sign bit.
pub const SIGN_BIT: u64 = 0x8000_0000_0000_0000;

/// `2^56 - 1`: the largest magnitude that the binary format writes as an integer.
pub const MAX_PACKED_INT: u64 = 0xff_ffff_ffff_ffff;

/// The biased exponent field of a double.
pub open spec fn exponent_field(bits: u64) -> int {
    (bits / EXPONENT_UNIT) as int % 2048
}

/// The fraction field of a double.
pub open spec fn fraction_field(bits: u64) -> int {
    (bits % EXPONENT_UNIT) as int
}

/// The sign bit of a double is set.
pub open spec fn sign_set(bits: u64) -> bool {
    bits >= SIGN_BIT
}

/// The magnitude of a finite double that is a whole number, or `None`.
pub open spec fn integral_magnitude(bits: u64) -> Option<nat> {
    let e = exponent_field(bits);
    let frac = fraction_field(bits);
    let mant = (frac + EXPONENT_UNIT) as nat;
    if e == 2047 {
        None
    } else if e == 0 {
        if frac == 0 {
            Some(0)
        } else {
            None
        }
    } else if e >= 1075 {
        Some(mant * pow2((e - 1075) as nat))
    } else if mant % pow2((1075 - e) as nat) == 0 {
        Some(mant / pow2((1075 - e) as nat))
    } else {
        None
    }
}

/// The value of a double that is a whole number, or `None` (fractions,
/// infinities, NaN).
pub open spec fn integral_value(bits: u64) -> Option<int> {
    match integral_magnitude(bits) {
        Some(m) => Some(
            if sign_set(bits) {
                -m
            } else {
                m as int
            },
        ),
        None => None,
    }
}

/// The whole number that `bits` stands for, where its magnitude is at most
/// `2^56 - 1`.
pub open spec fn small_integer(bits: u64) -> Option<int> {
    match integral_value(bits) {
        Some(v) => if -(MAX_PACKED_INT as int) <= v <= MAX_PACKED_INT as int {
            Some(v)
        } else {
            None
        },
        None => None,
    }
}

fn pow2_u64(s: u64) -> (r: u64)
    requires
        s < 64,
    ensures
        r == pow2(s as nat),
{
    proof {
        vstd::bits::lemma_u64_pow2_no_overflow(s as nat);
        vstd::bits::lemma_u64_shl_is_mul(1u64, s);
    }
    1u64 << s
}

/// The whole number that the double `bits` stands for, where it is one whose
/// magnitude is at most `2^56 - 1`.
pub fn integer_of_bits(bits: u64) -> (r: Option<i64>)
    ensures
        match small_integer(bits) {
            Some(v) => r == Some(v as i64),
            None => r is None,
        },
{
    let e = (bits / EXPONENT_UNIT) % 2048;
    let frac = bits % EXPONENT_UNIT;
    let neg = bits >= SIGN_BIT;
    let mant = frac + EXPONENT_UNIT;
    proof {
        lemma2_to64();
        lemma2_to64_rest();
        assert(mant < 2 * EXPONENT_UNIT);
        assert(pow2(53) == 2 * EXPONENT_UNIT);
    }
    let mag: u64 = if e == 2047 {
        return None;
    } else if e == 0 {
        if frac == 0 {
            0
        } else {
            return None;
        }
    } else if e > 1078 {
        proof {
            lemma_pow2_adds(4, (e - 1079) as nat);
            lemma_pow2_pos((e - 1079) as nat);
            assert(pow2((e - 1075) as nat) >= 16) by (nonlinear_arith)
                requires
                    pow2((e - 1075) as nat) == pow2(4) * pow2((e - 1079) as nat),
                    pow2(4) == 16,
                    pow2((e - 1079) as nat) >= 1,
            ;
            assert(mant * pow2((e - 1075) as nat) > MAX_PACKED_INT) by (nonlinear_arith)
                requires
                    pow2((e - 1075) as nat) >= 16,
                    mant >= EXPONENT_UNIT,
            ;
        }
        return None;
    } else if e >= 1075 {
        let p = pow2_u64(e - 1075);
        proof {
            assert(p <= 8);
            assert(mant * p <= MAX_PACKED_INT) by (nonlinear_arith)
                requires
                    p <= 8,
                    mant < 2 * EXPONENT_UNIT,
            ;
        }
        mant * p
    } else if e < 1023 {
        proof {
            lemma_pow2_adds(53, (1075 - e - 53) as nat);
            lemma_pow2_pos((1075 - e - 53) as nat);
            assert(pow2((1075 - e) as nat) >= pow2(53)) by (nonlinear_arith)
                requires
                    pow2((1075 - e) as nat) == pow2(53) * pow2((1075 - e - 53) as nat),
                    pow2((1075 - e - 53) as nat) >= 1,
            ;
            vstd::arithmetic::div_mod::lemma_small_mod(mant as nat, pow2((1075 - e) as nat));
        }
        return None;
    } else {
        let p = pow2_u64(1075 - e);
        proof {
            lemma_pow2_pos((1075 - e) as nat);
        }
        if mant % p != 0 {
            return None;
        }
        proof {
            vstd::arithmetic::div_mod::lemma_div_is_ordered(mant as int, 2 * EXPONENT_UNIT as int, p as int);
        }
        mant / p
    };
    assert(integral_magnitude(bits) == Some(mag as nat));
    if neg {
        Some(-(mag as i64))
    } else {
        Some(mag as i64)
    }
}

/// The double nearest to the whole number `m`, negated where `neg` is set
/// (ties to even). Below `2^53` it is exact.
pub fn bits_of_integer(neg: bool, m: u64) -> (r: u64)
    requires
        m <= MAX_PACKED_INT,
    ensures
        sign_set(r) == neg,
        exponent_field(r) != 2047,
        m < 2 * EXPONENT_UNIT ==> integral_magnitude(r) == Some(m as nat),
        forall|b: u64|
            #[trigger] integral_magnitude(b) == Some(m as nat) && sign_set(b) == neg && m >= 2
                * EXPONENT_UNIT ==> r == b,
{
    let sign: u64 = if neg {
        SIGN_BIT
    } else {
        0
    };
    proof {
        lemma2_to64();
        lemma2_to64_rest();
    }
    if m == 0 {
        return sign;
    }
    // The position `k` of the highest set bit: 2^k <= m < 2^(k+1).
    let mut k: u64 = 0;
    let mut p: u64 = 1;
    while p <= m / 2
        invariant
            1 <= p <= m,
            p == pow2(k as nat),
            k < 56,
            m <= MAX_PACKED_INT,
        decreases m - p,
    {
        proof {
            lemma_pow2_unfold((k + 1) as nat);
        }
        p = p * 2;
        k = k + 1;
        proof {
            lemma2_to64_rest();
            if k > 56 {
                lemma_pow2_strictly_increases(56, k as nat);
            }
        }
    }
    if k <= 52 {
        let q = pow2_u64(52 - k);
        proof {
            lemma_pow2_adds(k as nat, (52 - k) as nat);
            assert(m * q >= EXPONENT_UNIT) by (nonlinear_arith)
                requires
                    m >= p,
                    p * q == EXPONENT_UNIT,
            ;
            assert(m * q < 2 * EXPONENT_UNIT) by (nonlinear_arith)
                requires
                    m < 2 * p,
                    p * q == EXPONENT_UNIT,
                    q > 0,
            ;
        }
        let mant = m * q;
        let e = k + 1023;
        let r = sign + e * EXPONENT_UNIT + (mant - EXPONENT_UNIT);
        proof {
            assert(exponent_field(r) == e);
            assert(fraction_field(r) == mant - EXPONENT_UNIT);
            lemma_pow2_pos((52 - k) as nat);
            vstd::arithmetic::div_mod::lemma_mod_multiples_basic(m as int, q as int);
            assert(mant % q == 0);
            vstd::arithmetic::div_mod::lemma_div_multiples_vanish(m as int, q as int);
            assert(q * m == m * q) by (nonlinear_arith);
            assert(mant / q == m);
            assert(q == pow2((1075 - e) as nat));
            if e >= 1075 {
                assert(k == 52);
                assert(q == 1);
                assert(mant == m);
                assert(integral_magnitude(r) == Some((mant * pow2(0)) as nat));
            } else {
                assert(integral_magnitude(r) == Some((mant / q) as nat));
            }
        }
        r
    } else {
        // Drop `s` low bits, rounding to nearest, ties to even.
        let s = k - 52;
        let d = pow2_u64(s);
        proof {
            lemma_pow2_pos(s as nat);
        }
        let mut q = m / d;
        let rem = m % d;
        let half = d / 2;
        if rem > half || (rem == half && q % 2 == 1) {
            q = q + 1;
        }
        let mut e = k + 1023;
        proof {
            lemma_pow2_adds(52, s as nat);
            assert(m < 2 * p);
            assert(m / d < 2 * EXPONENT_UNIT) by (nonlinear_arith)
                requires
                    m < 2 * p,
                    p == EXPONENT_UNIT * d,
                    d > 0,
            ;
            assert(q <= 2 * EXPONENT_UNIT);
            assert(m / d >= EXPONENT_UNIT) by (nonlinear_arith)
                requires
                    m >= p,
                    p == EXPONENT_UNIT * d,
                    d > 0,
            ;
            lemma_pow2_strictly_increases(0, s as nat);
            assert(m >= 2 * EXPONENT_UNIT) by (nonlinear_arith)
                requires
                    m >= p,
                    p == EXPONENT_UNIT * d,
                    d >= 2,
            ;
        }
        if q == 2 * EXPONENT_UNIT {
            q = EXPONENT_UNIT;
            e = e + 1;
        }
        let r = sign + e * EXPONENT_UNIT + (q - EXPONENT_UNIT);
        proof {
            assert(exponent_field(r) == e);
            assert forall|b: u64|
                #[trigger] integral_magnitude(b) == Some(m as nat) && sign_set(b) == neg && m >= 2
                    * EXPONENT_UNIT implies r == b by {
                lemma_big_integral(b, m as nat);
                let eb = exponent_field(b);
                let j = (eb - 1075) as nat;
                let mant = (fraction_field(b) + EXPONENT_UNIT) as nat;
                if (k as int) < 52 + j {
                    lemma_pow2_strictly_increases((k + 1) as nat, 53 + j);
                    lemma_pow2_adds(52, j);
                    assert(pow2((k + 1) as nat) <= pow2(52 + j)) by {
                        if k + 1 < 52 + j {
                            lemma_pow2_strictly_increases((k + 1) as nat, 52 + j);
                        }
                    }
                    lemma_pow2_unfold((k + 1) as nat);
                    assert(false);
                }
                if (k as int) > 52 + j {
                    lemma_pow2_adds(53, j);
                    assert(pow2(53 + j) <= pow2(k as nat)) by {
                        if 53 + j < k {
                            lemma_pow2_strictly_increases(53 + j, k as nat);
                        }
                    }
                    assert(false);
                }
                assert(s == j);
                assert(m == mant * d);
                vstd::arithmetic::div_mod::lemma_mod_multiples_basic(mant as int, d as int);
                vstd::arithmetic::div_mod::lemma_div_multiples_vanish(mant as int, d as int);
                assert(d * mant == mant * d) by (nonlinear_arith);
                assert(rem == 0);
                assert(m / d == mant);
                assert(e == eb);
                assert(b == (if neg { SIGN_BIT as int } else { 0 }) + eb * EXPONENT_UNIT + fraction_field(b));
            }
        }
        r
    }
}

/// A whole double of magnitude `2^53` or more has the form
/// `mant * 2^j` with `2^52 <= mant < 2^53` and `j >= 1`.
proof fn lemma_big_integral(b: u64, m: nat)
    requires
        integral_magnitude(b) == Some(m),
        m >= 2 * EXPONENT_UNIT,
    ensures
        exponent_field(b) >= 1076,
        m == (fraction_field(b) + EXPONENT_UNIT) * pow2((exponent_field(b) - 1075) as nat),
        pow2((52 + exponent_field(b) - 1075) as nat) <= m,
        m < pow2((53 + exponent_field(b) - 1075) as nat),
{
    lemma2_to64();
    lemma2_to64_rest();
    let e = exponent_field(b);
    let mant = (fraction_field(b) + EXPONENT_UNIT) as nat;
    assert(mant < 2 * EXPONENT_UNIT);
    if e == 0 {
        assert(m == 0);
    } else if e < 1075 {
        lemma_pow2_pos((1075 - e) as nat);
        assert(mant / pow2((1075 - e) as nat) <= mant) by {
            vstd::arithmetic::div_mod::lemma_div_is_ordered_by_denominator(mant as int, 1, pow2((1075 - e) as nat) as int);
        }
        assert(false);
    } else if e == 1075 {
        assert(mant * pow2(0) == mant);
        assert(false);
    }
    let j = (e - 1075) as nat;
    lemma_pow2_adds(52, j);
    lemma_pow2_adds(53, j);
    lemma_pow2_pos(j);
    assert(pow2(52) * pow2(j) <= mant * pow2(j)) by (nonlinear_arith)
        requires
            pow2(52) <= mant,
            pow2(j) > 0,
    ;
    assert(mant * pow2(j) < pow2(53) * pow2(j)) by (nonlinear_arith)
        requires
            mant < pow2(53),
            pow2(j) > 0,
    ;
}


/// The mantissa of the exact form `mantissa * 2^exponent` of a finite double.
pub open spec fn parts_mantissa(bits: u64) -> nat {
    if exponent_field(bits) == 0 {
        (2 * fraction_field(bits)) as nat
    } else {
        (fraction_field(bits) + EXPONENT_UNIT) as nat
    }
}

/// The exponent of the exact form `mantissa * 2^exponent` of a finite double.
pub open spec fn parts_exponent(bits: u64) -> int {
    if exponent_field(bits) == 0 {
        -1075
    } else {
        exponent_field(bits) - 1075
    }
}

/// The double whose exact form is `(-1)^neg * m * 2^x`, where that form is
/// the one [`parts_mantissa`] and [`parts_exponent`] give.
pub open spec fn bits_of_parts_spec(neg: bool, m: nat, x: int) -> Option<u64> {
    let sign: int = if neg {
        SIGN_BIT as int
    } else {
        0
    };
    if x == -1075 && m % 2 == 0 && m < 2 * EXPONENT_UNIT {
        Some((sign + m / 2) as u64)
    } else if -1074 <= x <= 971 && EXPONENT_UNIT <= m < 2 * EXPONENT_UNIT {
        Some((sign + (x + 1075) * EXPONENT_UNIT + (m - EXPONENT_UNIT)) as u64)
    } else {
        None
    }
}

/// The double whose exact form is `(-1)^neg * m * 2^x`, or `None` where that
/// is no such form.
pub fn bits_of_parts(neg: bool, m: u64, x: i64) -> (r: Option<u64>)
    ensures
        r == bits_of_parts_spec(neg, m as nat, x as int),
{
    let sign: u64 = if neg {
        SIGN_BIT
    } else {
        0
    };
    if x == -1075 && m % 2 == 0 && m < 2 * EXPONENT_UNIT {
        Some(sign + m / 2)
    } else if -1074 <= x && x <= 971 && EXPONENT_UNIT <= m && m < 2 * EXPONENT_UNIT {
        Some(sign + ((x + 1075) as u64) * EXPONENT_UNIT + (m - EXPONENT_UNIT))
    } else {
        None
    }
}

/// The exact form of a finite double gives the double back.
pub proof fn lemma_parts_round_trip(bits: u64)
    requires
        exponent_field(bits) != 2047,
    ensures
        bits_of_parts_spec(sign_set(bits), parts_mantissa(bits), parts_exponent(bits)) == Some(bits),
{
    let e = exponent_field(bits);
    let frac = fraction_field(bits);
    assert(bits == (if sign_set(bits) { SIGN_BIT as int } else { 0 }) + e * EXPONENT_UNIT + frac);
}

} // verus!
