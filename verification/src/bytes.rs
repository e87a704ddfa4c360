//! Fixed-width integers and IEEE-754 doubles held as raw bytes.
//!
//! DAF files store integers as 32-bit words and real numbers (including the
//! record counts of the summary records) as 64-bit IEEE-754 doubles, either
//! little-endian ("LTL-IEEE") or big-endian ("BIG-IEEE"). A double is handled
//! here by its bit pattern (`u64`).

use vstd::prelude::*;
use vstd::arithmetic::power2::{
    pow2,
    lemma2_to64,
    lemma_pow2_adds,
    lemma_pow2_pos,
    lemma_pow2_strictly_increases,
    lemma_pow2_unfold,
};
use vstd::bits::{lemma_u64_shl_is_mul, lemma_u64_shr_is_div};

verus! {

/// Unsigned value of the four bytes `s[off..off + 4]`, little-endian when
/// `le` holds, big-endian otherwise.
pub open spec fn spec_u32_at(s: Seq<u8>, off: int, le: bool) -> int {
    if le {
        s[off] + s[off + 1] * 0x100 + s[off + 2] * 0x1_0000 + s[off + 3] * 0x100_0000
    } else {
        s[off + 3] + s[off + 2] * 0x100 + s[off + 1] * 0x1_0000 + s[off] * 0x100_0000
    }
}

/// Two's-complement value of the four bytes `s[off..off + 4]`.
pub open spec fn spec_i32_at(s: Seq<u8>, off: int, le: bool) -> int {
    let u = spec_u32_at(s, off, le);
    if u >= 0x8000_0000 {
        u - 0x1_0000_0000
    } else {
        u
    }
}

/// Unsigned value of the eight bytes `s[off..off + 8]`, little-endian when
/// `le` holds, big-endian otherwise.
pub open spec fn spec_u64_at(s: Seq<u8>, off: int, le: bool) -> int {
    if le {
        s[off] + s[off + 1] * 0x100 + s[off + 2] * 0x1_0000 + s[off + 3] * 0x100_0000 + s[off + 4]
            * 0x1_0000_0000 + s[off + 5] * 0x100_0000_0000 + s[off + 6] * 0x1_0000_0000_0000
            + s[off + 7] * 0x100_0000_0000_0000
    } else {
        s[off + 7] + s[off + 6] * 0x100 + s[off + 5] * 0x1_0000 + s[off + 4] * 0x100_0000 + s[off
            + 3] * 0x1_0000_0000 + s[off + 2] * 0x100_0000_0000 + s[off + 1] * 0x1_0000_0000_0000
            + s[off] * 0x100_0000_0000_0000
    }
}

/// Reads the 32-bit two's-complement integer at `data[off..off + 4]`.
pub fn read_i32(data: &[u8], off: usize, le: bool) -> (r: i32)
    requires
        off + 4 <= data@.len(),
    ensures
        r as int == spec_i32_at(data@, off as int, le),
{
    let b0 = data[off] as u64;
    let b1 = data[off + 1] as u64;
    let b2 = data[off + 2] as u64;
    let b3 = data[off + 3] as u64;
    let u: u64 = if le {
        b0 + b1 * 0x100 + b2 * 0x1_0000 + b3 * 0x100_0000
    } else {
        b3 + b2 * 0x100 + b1 * 0x1_0000 + b0 * 0x100_0000
    };
    if u >= 0x8000_0000 {
        (u as i64 - 0x1_0000_0000) as i32
    } else {
        u as i32
    }
}

/// Reads the 64-bit word at `data[off..off + 8]`: the bit pattern of the
/// double stored there.
pub fn read_u64(data: &[u8], off: usize, le: bool) -> (r: u64)
    requires
        off + 8 <= data@.len(),
    ensures
        r as int == spec_u64_at(data@, off as int, le),
{
    let b0 = data[off] as u64;
    let b1 = data[off + 1] as u64;
    let b2 = data[off + 2] as u64;
    let b3 = data[off + 3] as u64;
    let b4 = data[off + 4] as u64;
    let b5 = data[off + 5] as u64;
    let b6 = data[off + 6] as u64;
    let b7 = data[off + 7] as u64;
    if le {
        b0 + b1 * 0x100 + b2 * 0x1_0000 + b3 * 0x100_0000 + b4 * 0x1_0000_0000 + b5
            * 0x100_0000_0000 + b6 * 0x1_0000_0000_0000 + b7 * 0x100_0000_0000_0000
    } else {
        b7 + b6 * 0x100 + b5 * 0x1_0000 + b4 * 0x100_0000 + b3 * 0x1_0000_0000 + b2
            * 0x100_0000_0000 + b1 * 0x1_0000_0000_0000 + b0 * 0x100_0000_0000_0000
    }
}

/// The sign bit of a double.
pub const DOUBLE_SIGN: u64 = 0x8000_0000_0000_0000;

/// The weight of the lowest exponent bit of a double (2^52).
pub const DOUBLE_EXP_UNIT: u64 = 0x10_0000_0000_0000;

/// The biased exponent field (11 bits) of a double.
pub open spec fn double_exponent(bits: u64) -> int {
    (bits / DOUBLE_EXP_UNIT) as int % 0x800
}

/// The fraction field (52 bits) of a double.
pub open spec fn double_fraction(bits: u64) -> int {
    bits as int % DOUBLE_EXP_UNIT as int
}

/// The double is a NaN: all exponent bits set and a non-zero fraction.
pub open spec fn double_is_nan(bits: u64) -> bool {
    double_exponent(bits) == 0x7ff && double_fraction(bits) != 0
}

/// A key that orders all non-NaN doubles as IEEE-754 does: the magnitude
/// bits, negated when the sign bit is set (so that -0.0 and +0.0 share it).
pub open spec fn double_order_key(bits: u64) -> int {
    if bits >= DOUBLE_SIGN {
        -(bits - DOUBLE_SIGN)
    } else {
        bits as int
    }
}

/// IEEE-754 `a <= b` on two doubles given by their bit patterns: false when
/// either is a NaN, and -0.0 equals +0.0.
pub open spec fn double_le(a: u64, b: u64) -> bool {
    !double_is_nan(a) && !double_is_nan(b) && double_order_key(a) <= double_order_key(b)
}

/// IEEE-754 `a <= b` on two doubles given by their bit patterns.
pub fn double_bits_le(a: u64, b: u64) -> (r: bool)
    ensures
        r == double_le(a, b),
{
    let a_nan = (a / DOUBLE_EXP_UNIT) % 0x800 == 0x7ff && a % DOUBLE_EXP_UNIT != 0;
    let b_nan = (b / DOUBLE_EXP_UNIT) % 0x800 == 0x7ff && b % DOUBLE_EXP_UNIT != 0;
    if a_nan || b_nan {
        return false;
    }
    let a_neg = a >= DOUBLE_SIGN;
    let b_neg = b >= DOUBLE_SIGN;
    if a_neg && b_neg {
        a - DOUBLE_SIGN >= b - DOUBLE_SIGN
    } else if a_neg {
        true
    } else if b_neg {
        a == 0 && b == DOUBLE_SIGN
    } else {
        a <= b
    }
}

/// The number of binary places by which the significand of a finite
/// double is shifted right to give its value (the negated unbiased exponent
/// of the significand's last bit); zero or negative for values of at least 2^52.
pub open spec fn double_shift(bits: u64) -> int {
    if double_exponent(bits) == 0 {
        1074
    } else {
        1075 - double_exponent(bits)
    }
}

/// The integer significand of a finite double (the hidden bit included for
/// normal numbers).
pub open spec fn double_significand(bits: u64) -> int {
    if double_exponent(bits) == 0 {
        double_fraction(bits)
    } else {
        double_fraction(bits) + DOUBLE_EXP_UNIT
    }
}

/// The value of `x.round() as usize` for the double `x` with the given bits:
/// rounding half away from zero, then a saturating cast in which NaN and
/// every negative value give 0 and values beyond `usize::MAX` (+infinity
/// too) give `usize::MAX`.
pub open spec fn double_round_to_usize(bits: u64) -> int {
    if double_exponent(bits) == 0x7ff {
        if double_fraction(bits) != 0 || bits >= DOUBLE_SIGN {
            0
        } else {
            usize::MAX as int
        }
    } else if bits >= DOUBLE_SIGN {
        0
    } else {
        let m = double_significand(bits);
        let k = double_shift(bits);
        let rounded = if k <= 0 {
            m * pow2((-k) as nat)
        } else {
            (m + pow2((k - 1) as nat)) / pow2(k as nat) as int
        };
        if rounded > usize::MAX {
            usize::MAX as int
        } else {
            rounded
        }
    }
}

/// A rounded double is never negative.
pub(crate) proof fn lemma_round_to_usize_nonnegative(bits: u64)
    ensures
        0 <= double_round_to_usize(bits) <= usize::MAX,
{
    if double_exponent(bits) != 0x7ff && bits < DOUBLE_SIGN {
        let m = double_significand(bits);
        let k = double_shift(bits);
        assert(m >= 0);
        if k <= 0 {
            lemma_pow2_pos((-k) as nat);
            let p = pow2((-k) as nat);
            assert(m * p >= 0) by (nonlinear_arith)
                requires
                    m >= 0,
                    p > 0,
            ;
        } else {
            lemma_pow2_pos((k - 1) as nat);
            lemma_pow2_pos(k as nat);
            let p = pow2((k - 1) as nat);
            let q = pow2(k as nat) as int;
            assert((m + p) / q >= 0) by (nonlinear_arith)
                requires
                    m >= 0,
                    p > 0,
                    q > 0,
            ;
        }
    }
}

proof fn lemma_pow2_52()
    ensures
        pow2(52) == DOUBLE_EXP_UNIT,
        pow2(53) == 2 * DOUBLE_EXP_UNIT,
        pow2(12) == 0x1000,
{
    lemma2_to64();
    lemma_pow2_adds(32, 20);
    lemma_pow2_unfold(53);
}

/// `x.round() as usize` for the double `x` given by its bit pattern. DAF
/// summary records store record numbers and counts as doubles; this turns
/// them into integers as the reader does.
pub fn double_bits_round_to_usize(bits: u64) -> (r: usize)
    ensures
        r as int == double_round_to_usize(bits),
{
    let exp = (bits / DOUBLE_EXP_UNIT) % 0x800;
    let frac = bits % DOUBLE_EXP_UNIT;
    if exp == 0x7ff {
        if frac != 0 || bits >= DOUBLE_SIGN {
            return 0;
        } else {
            return usize::MAX;
        }
    }
    if bits >= DOUBLE_SIGN {
        return 0;
    }
    proof {
        lemma_pow2_52();
    }
    if exp == 0 {
        // subnormal or zero: the value is below 1/2
        proof {
            let m = double_significand(bits);
            let k: nat = 1074;
            lemma_pow2_strictly_increases(53, (k - 1) as nat);
            lemma_pow2_unfold(k);
            lemma_pow2_pos(k);
            assert(0 <= m + pow2((k - 1) as nat) < pow2(k));
            assert((m + pow2((k - 1) as nat)) / pow2(k) as int == 0) by (nonlinear_arith)
                requires
                    0 <= m + pow2((k - 1) as nat) < pow2(k),
            ;
        }
        return 0;
    }
    let m: u64 = frac + DOUBLE_EXP_UNIT;
    if exp >= 1075 {
        let e: u64 = exp - 1075;
        if e >= 12 {
            proof {
                if e > 12 {
                    lemma_pow2_strictly_increases(12, e as nat);
                }
                assert(m * pow2(e as nat) >= DOUBLE_EXP_UNIT * 0x1000) by (nonlinear_arith)
                    requires
                        m >= DOUBLE_EXP_UNIT,
                        pow2(e as nat) >= 0x1000,
                ;
            }
            return usize::MAX;
        }
        proof {
            lemma2_to64();
            if e < 11 {
                lemma_pow2_strictly_increases(e as nat, 11);
            }
            lemma_pow2_pos(e as nat);
            assert(m * pow2(e as nat) < 2 * DOUBLE_EXP_UNIT * 0x800) by (nonlinear_arith)
                requires
                    m < 2 * DOUBLE_EXP_UNIT,
                    0 < pow2(e as nat) <= 0x800,
            ;
            lemma_u64_shl_is_mul(m, e);
        }
        let r: u64 = m << e;
        if r > usize::MAX as u64 {
            usize::MAX
        } else {
            r as usize
        }
    } else {
        let k: u64 = 1075 - exp;
        if k >= 54 {
            proof {
                if k > 54 {
                    lemma_pow2_strictly_increases(53, (k - 1) as nat);
                }
                lemma_pow2_unfold(k as nat);
                assert((m + pow2((k - 1) as nat)) / pow2(k as nat) as int == 0) by (nonlinear_arith)
                    requires
                        0 <= m + pow2((k - 1) as nat) < pow2(k as nat),
                ;
            }
            return 0;
        }
        proof {
            if k - 1 < 53 {
                lemma_pow2_strictly_increases((k - 1) as nat, 53);
            }
            lemma_u64_shl_is_mul(1, (k - 1) as u64);
        }
        let half: u64 = 1u64 << (k - 1);
        let sum: u64 = m + half;
        proof {
            lemma_u64_shr_is_div(sum, k);
            lemma_pow2_pos(k as nat);
        }
        let r: u64 = sum >> k;
        proof {
            assert(r <= sum) by (nonlinear_arith)
                requires
                    r == sum as nat / pow2(k as nat),
                    pow2(k as nat) > 0,
            ;
        }
        if r > usize::MAX as u64 {
            usize::MAX
        } else {
            r as usize
        }
    }
}

/// The value of a finite, non-negative double that holds a whole number.
pub open spec fn double_whole_value(bits: u64) -> int {
    let m = double_significand(bits);
    let k = double_shift(bits);
    if k <= 0 {
        m * pow2((-k) as nat)
    } else {
        m / pow2(k as nat) as int
    }
}

/// A non-negative double that holds a whole number rounds to that number
/// (capped at `usize::MAX`): the record numbers and counts that DAF stores
/// as doubles are read back exactly.
pub proof fn law_whole_doubles_round_to_their_value(bits: u64)
    requires
        bits < DOUBLE_SIGN,
        double_exponent(bits) != 0x7ff,
        double_shift(bits) > 0 ==> double_significand(bits) % pow2(double_shift(bits) as nat) as int
            == 0,
    ensures
        double_round_to_usize(bits) == if double_whole_value(bits) > usize::MAX {
            usize::MAX as int
        } else {
            double_whole_value(bits)
        },
{
    let m = double_significand(bits);
    let k = double_shift(bits);
    if k > 0 {
        let p = pow2(k as nat) as int;
        let h = pow2((k - 1) as nat) as int;
        lemma_pow2_unfold(k as nat);
        lemma_pow2_pos((k - 1) as nat);
        assert((m + h) / p == m / p) by (nonlinear_arith)
            requires
                p == 2 * h,
                h > 0,
                m >= 0,
                m % p == 0,
        {
            let q = m / p;
            assert(m == q * p);
            assert(q * p <= m + h < q * p + p);
        }
    }
}

} // verus!
