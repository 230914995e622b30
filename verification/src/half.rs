//! IEEE-754 binary16 and binary32 bit patterns.
use vstd::prelude::*;
use vstd::arithmetic::power2::{pow2, lemma_pow2_adds, lemma_pow2_pos, lemma_pow2_strictly_increases, lemma_pow2_unfold, lemma2_to64};

verus! {

/// Sign bit of a binary16 pattern.
pub open spec fn half_sign(h: u16) -> int {
    h as int / 0x8000
}

/// Biased exponent of a binary16 pattern.
pub open spec fn half_exponent(h: u16) -> int {
    (h as int / 0x400) % 0x20
}

/// Fraction field of a binary16 pattern.
pub open spec fn half_fraction(h: u16) -> int {
    h as int % 0x400
}

/// Whether a binary16 pattern denotes a number, neither infinite nor NaN.
pub open spec fn half_finite(h: u16) -> bool {
    half_exponent(h) < 31
}

/// Magnitude of a finite binary16 number, in units of `2^-24`.
pub open spec fn half_magnitude(h: u16) -> int {
    if half_exponent(h) == 0 {
        half_fraction(h)
    } else {
        (0x400 + half_fraction(h)) * pow2((half_exponent(h) - 1) as nat)
    }
}

/// Sign bit of a binary32 pattern.
pub open spec fn single_sign(w: u32) -> int {
    w as int / 0x8000_0000
}

/// Biased exponent of a binary32 pattern.
pub open spec fn single_exponent(w: u32) -> int {
    (w as int / 0x80_0000) % 0x100
}

/// Fraction field of a binary32 pattern.
pub open spec fn single_fraction(w: u32) -> int {
    w as int % 0x80_0000
}

/// Whether a binary32 pattern denotes a number, neither infinite nor NaN.
pub open spec fn single_finite(w: u32) -> bool {
    single_exponent(w) < 255
}

/// Magnitude of a finite binary32 number, in units of `2^-149`.
pub open spec fn single_magnitude(w: u32) -> int {
    if single_exponent(w) == 0 {
        single_fraction(w)
    } else {
        (0x80_0000 + single_fraction(w)) * pow2((single_exponent(w) - 1) as nat)
    }
}

/// A NaN in binary32.
pub const QUIET_NAN: u32 = 0x7fc0_0000;

/// Whether a binary32 pattern is a NaN.
pub open spec fn is_nan(w: u32) -> bool {
    single_exponent(w) == 255 && single_fraction(w) != 0
}

/// The pattern that stands for NaN is one, and the pattern of all zero bits is zero.
pub proof fn law_fills_are_nan_and_zero()
    ensures
        is_nan(QUIET_NAN),
        single_finite(0) && single_magnitude(0) == 0 && single_sign(0) == 0,
{
}

/// The binary32 pattern `w` denotes what the binary16 pattern `h` denotes: the same number
/// with the same sign, or the same infinity, or a NaN with the same leading fraction bits.
pub open spec fn same_value(h: u16, w: u32) -> bool {
    &&& single_sign(w) == half_sign(h)
    &&& single_finite(w) == half_finite(h)
    &&& half_finite(h) ==> single_magnitude(w) == half_magnitude(h) * pow2(125)
    &&& !half_finite(h) ==> single_fraction(w) == half_fraction(h) * 0x2000
}

/// The binary32 pattern of a binary16 pattern.
pub open spec fn widened(h: u16) -> u32 {
    choose|w: u32| same_value(h, w)
}

/// Binary16 to binary32, on bit patterns: exact for every pattern.
pub fn f16_to_f32(bits: u16) -> (w: u32)
    ensures
        same_value(bits, w),
        w == widened(bits),
        bits as int % 0x8000 == 0 ==> w == (bits as int / 0x8000) * 0x8000_0000,
        0x400 <= bits as int % 0x8000 < 0x7c00 ==> w == (bits as int / 0x8000) * 0x8000_0000 + (
        bits as int % 0x8000) * 0x2000 + 112 * 0x80_0000,
        bits as int % 0x8000 >= 0x7c00 ==> w == (bits as int / 0x8000) * 0x8000_0000 + (bits as int
            % 0x8000) * 0x2000 + 224 * 0x80_0000,
        0 < bits as int % 0x8000 < 0x400 ==> {
            let exponent = (w as int / 0x80_0000) % 0x100;
            &&& w as int / 0x8000_0000 == bits as int / 0x8000
            &&& 103 <= exponent <= 112
            &&& 0x80_0000 + w as int % 0x80_0000 == (bits as int % 0x8000) * pow2(
                (126 - exponent) as nat,
            )
        },
{
    let w: u32 = widen(bits);
    proof {
        law_conversion_is_unique(bits, w, widened(bits));
    }
    w
}

/// Finds the binary32 pattern from the fields of the binary16 pattern.
fn widen(bits: u16) -> (w: u32)
    ensures
        same_value(bits, w),
        bits as int % 0x8000 == 0 ==> w == (bits as int / 0x8000) * 0x8000_0000,
        0x400 <= bits as int % 0x8000 < 0x7c00 ==> w == (bits as int / 0x8000) * 0x8000_0000 + (
        bits as int % 0x8000) * 0x2000 + 112 * 0x80_0000,
        bits as int % 0x8000 >= 0x7c00 ==> w == (bits as int / 0x8000) * 0x8000_0000 + (bits as int
            % 0x8000) * 0x2000 + 224 * 0x80_0000,
        0 < bits as int % 0x8000 < 0x400 ==> {
            let exponent = (w as int / 0x80_0000) % 0x100;
            &&& w as int / 0x8000_0000 == bits as int / 0x8000
            &&& 103 <= exponent <= 112
            &&& 0x80_0000 + w as int % 0x80_0000 == (bits as int % 0x8000) * pow2(
                (126 - exponent) as nat,
            )
        },
{
    let sign: u32 = (bits / 0x8000) as u32;
    let exp: u32 = ((bits / 0x400) % 0x20) as u32;
    let mant: u32 = (bits % 0x400) as u32;
    if exp == 0 {
        if mant == 0 {
            let w: u32 = sign * 0x8000_0000;
            proof {
                assert(single_magnitude(w) == 0);
                assert(half_magnitude(bits) == 0);
            }
            w
        } else {
            let mut e: u32 = 0;
            let mut m: u32 = mant;
            proof {
                lemma2_to64();
            }
            while m < 0x400
                invariant
                    1 <= mant < 0x400,
                    m == mant * pow2(e as nat),
                    m < 0x800,
                    pow2(10) == 0x400,
                    e <= 10,
                    m < 0x400 ==> e < 10,
                decreases 10 - e,
            {
                proof {
                    lemma_pow2_unfold((e + 1) as nat);
                    assert(mant * (2 * pow2(e as nat)) == 2 * (mant * pow2(e as nat)))
                        by (nonlinear_arith);
                    if e + 1 == 10 {
                        assert(mant * pow2(10) >= pow2(10)) by (nonlinear_arith)
                            requires
                                mant >= 1,
                        ;
                    }
                }
                m = m * 2;
                e = e + 1;
            }
            let w: u32 = sign * 0x8000_0000 + (113 - e) * 0x80_0000 + (m - 0x400) * 0x2000;
            proof {
                lemma_fields(sign as int, 113 - e, (m - 0x400) * 0x2000, w);
                lemma_pow2_adds(e as nat, (112 - e) as nat);
                lemma_pow2_adds(112, 13);
                let a = pow2(e as nat);
                let b = pow2((112 - e) as nat);
                assert((0x2000 * (mant * a)) * b == mant * ((a * b) * 0x2000)) by (nonlinear_arith);
                lemma2_to64();
                lemma_pow2_adds(e as nat, 13);
                assert(0x2000 * (mant * a) == mant * (a * 0x2000)) by (nonlinear_arith);
            }
            w
        }
    } else if exp == 31 {
        let w: u32 = sign * 0x8000_0000 + 0xff * 0x80_0000 + mant * 0x2000;
        proof {
            lemma_fields(sign as int, 0xff, mant * 0x2000, w);
        }
        w
    } else {
        let w: u32 = sign * 0x8000_0000 + (exp + 112) * 0x80_0000 + mant * 0x2000;
        proof {
            lemma_fields(sign as int, exp + 112, mant * 0x2000, w);
            lemma2_to64();
            lemma_pow2_adds((exp - 1) as nat, 112);
            lemma_pow2_adds(112, 13);
            let a = pow2((exp - 1) as nat);
            let b = pow2(112);
            let f = 0x400 + mant;
            assert((0x2000 * f) * (a * b) == (f * a) * (b * 0x2000)) by (nonlinear_arith);
        }
        w
    }
}

/// The three fields of a binary32 pattern put together from them.
proof fn lemma_fields(sign: int, exp: int, frac: int, w: u32)
    requires
        0 <= sign <= 1,
        0 <= exp < 0x100,
        0 <= frac < 0x80_0000,
        w == sign * 0x8000_0000 + exp * 0x80_0000 + frac,
    ensures
        single_sign(w) == sign,
        single_exponent(w) == exp,
        single_fraction(w) == frac,
{
}

/// A finite binary32 magnitude determines its exponent and fraction.
proof fn lemma_magnitude_fields(v: u32, w: u32)
    requires
        single_magnitude(v) == single_magnitude(w),
        single_exponent(v) <= single_exponent(w),
    ensures
        single_exponent(v) == single_exponent(w),
        single_fraction(v) == single_fraction(w),
{
    let (a, b) = (single_exponent(v), single_exponent(w));
    let (f, g) = (single_fraction(v), single_fraction(w));
    if b > 0 {
        let q = pow2((b - 1) as nat);
        lemma_pow2_pos((b - 1) as nat);
        assert((0x80_0000 + g) * q >= 0x80_0000 * q) by (nonlinear_arith)
            requires
                g >= 0,
                q > 0,
        ;
        if a < b {
            if a == 0 {
                assert(f < 0x80_0000);
                assert(0x80_0000 * q >= 0x80_0000) by (nonlinear_arith)
                    requires
                        q >= 1,
                ;
            } else {
                let p = pow2((a - 1) as nat);
                lemma_pow2_pos((a - 1) as nat);
                lemma_pow2_unfold(a as nat);
                if a < b - 1 {
                    lemma_pow2_strictly_increases(a as nat, (b - 1) as nat);
                }
                assert((0x80_0000 + f) * p < 0x80_0000 * (2 * p)) by (nonlinear_arith)
                    requires
                        f < 0x80_0000,
                        p > 0,
                ;
                assert(0x80_0000 * (2 * p) <= 0x80_0000 * q) by (nonlinear_arith)
                    requires
                        2 * p <= q,
                ;
            }
        } else {
            assert(f == g) by (nonlinear_arith)
                requires
                    (0x80_0000 + f) * q == (0x80_0000 + g) * q,
                    q > 0,
            ;
        }
    }
}

/// There is one binary32 pattern for each binary16 pattern.
pub proof fn law_conversion_is_unique(h: u16, v: u32, w: u32)
    requires
        same_value(h, v),
        same_value(h, w),
    ensures
        v == w,
{
    if half_finite(h) {
        if single_exponent(v) <= single_exponent(w) {
            lemma_magnitude_fields(v, w);
        } else {
            lemma_magnitude_fields(w, v);
        }
    }
    assert(v == single_sign(v) * 0x8000_0000 + single_exponent(v) * 0x80_0000 + single_fraction(v));
    assert(w == single_sign(w) * 0x8000_0000 + single_exponent(w) * 0x80_0000 + single_fraction(w));
}

} // verus!
