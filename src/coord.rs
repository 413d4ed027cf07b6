//! Pen coordinates. A coordinate is a single-precision IEEE-754 binary value,
//! held here by its 32-bit pattern; the one thing read from it is its
//! truncation toward zero to a pixel index.
use vstd::arithmetic::power2::{
    lemma2_to64,
    lemma_pow2_strictly_increases,
    pow2,
};
use vstd::bits::{lemma_u32_shl_is_mul, lemma_u32_shr_is_div};
use vstd::prelude::*;

verus! {

/// A pen coordinate: the bit pattern of a single-precision binary value
/// (sign bit, 8 exponent bits, 23 fraction bits).
#[derive(Clone, Copy, Debug, PartialEq, Eq, Structural)]
pub struct Coord {
    pub bits: u32,
}

/// The sign bit is set.
pub open spec fn is_negative(bits: u32) -> bool {
    bits >= 0x8000_0000
}

/// The biased exponent field, 0 to 255.
pub open spec fn exponent(bits: u32) -> int {
    (bits / 0x80_0000) as int % 0x100
}

/// The fraction field, below 2^23.
pub open spec fn fraction(bits: u32) -> int {
    bits as int % 0x80_0000
}

/// The largest integer not above the absolute value of a finite value.
/// A normal value is (2^23 + fraction) * 2^(exponent - 150); a subnormal one
/// is below 1.
pub open spec fn floor_magnitude(bits: u32) -> int {
    let e = exponent(bits);
    let s = 0x80_0000 + fraction(bits);
    if e == 0 {
        0
    } else if e >= 150 {
        s * pow2((e - 150) as nat)
    } else {
        s / (pow2((150 - e) as nat) as int)
    }
}

/// `t` limited to the range of a 32-bit signed integer.
pub open spec fn saturate(t: int) -> int {
    if t < i32::MIN {
        i32::MIN as int
    } else if t > i32::MAX {
        i32::MAX as int
    } else {
        t
    }
}

/// The pixel index of a coordinate: its value truncated toward zero and
/// saturated to the 32-bit signed range. Not-a-number gives 0, infinities
/// give the range's ends.
pub open spec fn truncated(bits: u32) -> int {
    if exponent(bits) == 255 && fraction(bits) != 0 {
        0
    } else if exponent(bits) == 255 {
        if is_negative(bits) {
            i32::MIN as int
        } else {
            i32::MAX as int
        }
    } else if is_negative(bits) {
        saturate(-floor_magnitude(bits))
    } else {
        saturate(floor_magnitude(bits))
    }
}

/// A pixel index lies in the 32-bit signed range.
pub proof fn lemma_truncated_fits(bits: u32)
    ensures
        i32::MIN <= truncated(bits) <= i32::MAX,
{
}

impl Coord {
    /// The pixel index: the value truncated toward zero, saturated.
    pub fn to_pixel(self) -> (r: i32)
        ensures
            r == truncated(self.bits),
    {
        let bits = self.bits;
        let e: u32 = (bits >> 23u32) & 0xffu32;
        let m: u32 = bits & 0x7f_ffffu32;
        let neg: bool = bits >= 0x8000_0000u32;
        proof {
            assert(e == (bits / 0x80_0000) % 0x100) by (bit_vector)
                requires
                    e == (bits >> 23u32) & 0xffu32,
            ;
            assert(m == bits % 0x80_0000) by (bit_vector)
                requires
                    m == bits & 0x7f_ffffu32,
            ;
            lemma2_to64();
        }
        if e == 255 {
            if m != 0 {
                0
            } else if neg {
                i32::MIN
            } else {
                i32::MAX
            }
        } else if e >= 158 {
            proof {
                let k = (e - 150) as nat;
                if k > 8 {
                    lemma_pow2_strictly_increases(8, k);
                }
                let s = 0x80_0000 + m;
                assert(s * pow2(k) >= 0x80_0000 * 0x100) by (nonlinear_arith)
                    requires
                        s >= 0x80_0000,
                        pow2(k) >= 0x100,
                ;
            }
            if neg {
                i32::MIN
            } else {
                i32::MAX
            }
        } else if e >= 150 {
            let s: u32 = m + 0x80_0000u32;
            let k: u32 = e - 150;
            proof {
                if k < 7 {
                    lemma_pow2_strictly_increases(k as nat, 7);
                }
                assert(s * pow2(k as nat) < 0x100_0000 * 0x80) by (nonlinear_arith)
                    requires
                        s < 0x100_0000,
                        pow2(k as nat) <= 0x80,
                ;
                lemma_u32_shl_is_mul(s, k);
            }
            let mag: u32 = s << k;
            if neg {
                -(mag as i32)
            } else {
                mag as i32
            }
        } else if e < 127 {
            proof {
                let k = (150 - e) as nat;
                if k > 24 {
                    lemma_pow2_strictly_increases(24, k);
                }
                vstd::arithmetic::div_mod::lemma_basic_div(
                    0x80_0000 + m as int,
                    pow2(k) as int,
                );
            }
            0
        } else {
            let s: u32 = m + 0x80_0000u32;
            let k: u32 = 150 - e;
            proof {
                lemma_u32_shr_is_div(s, k);
            }
            let mag: u32 = s >> k;
            if neg {
                -(mag as i32)
            } else {
                mag as i32
            }
        }
    }
}

} // verus!
