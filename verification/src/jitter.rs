//! The low-discrepancy sequences that jitter the samples of a pixel: Halton sequences, read
//! from their generator as the bits of doubles and turned into fixed-point numbers.

use vstd::arithmetic::power2::{
    lemma2_to64,
    lemma2_to64_rest,
    lemma_pow2_strictly_increases,
    lemma_pow2_unfold,
    pow2,
};
use vstd::prelude::*;
use crate::arith::{clamp, floor_div, floor_quotient, lemma_floor_div, saturate};

verus! {

/// The number of terms that a Halton sequence to a base of two or more is sure to have:
/// `2^20 - 1`.
pub const HALTON_TERMS: usize = 0xf_ffff;

/// The bits of the double that is term `index`, counted from zero, of the Halton sequence
/// to `base`.
pub uninterp spec fn halton_bits(base: u8, index: int) -> u64;

/// The first `count` terms of the Halton sequence to `base`, by `halton::Sequence::new`,
/// each as the bits of the double that the sequence yields. The sequence counts in twenty
/// digits to the base and ends when they run out, so to a base of two or more it has
/// `HALTON_TERMS` terms at least.
#[verifier::external_body]
fn sequence_bits(base: u8, count: usize) -> (terms: Vec<u64>)
    requires
        base >= 2,
    ensures
        terms.len() <= count,
        count <= HALTON_TERMS ==> terms.len() == count,
        forall|i: int| 0 <= i < terms.len() ==> terms[i] == halton_bits(base, i),
{
    halton::Sequence::new(base).take(count).map(|term| term.to_bits()).collect()
}

/// The sign of a double, by its bits: 1 for a negative number.
pub open spec fn sign_of(bits: u64) -> int {
    bits as int / 0x8000_0000_0000_0000
}

/// The biased exponent of a double, by its bits.
pub open spec fn exponent_of(bits: u64) -> int {
    (bits as int / 0x10_0000_0000_0000) % 2048
}

/// The fraction of a double, by its bits.
pub open spec fn fraction_of(bits: u64) -> int {
    bits as int % 0x10_0000_0000_0000
}

/// Whether the bits are those of a double that is no number.
pub open spec fn is_nan(bits: u64) -> bool {
    exponent_of(bits) == 2047 && fraction_of(bits) != 0
}

/// The significand of a double with its sign: the double is `significand * 2^scale`.
pub open spec fn significand_of(bits: u64) -> int {
    let magnitude = if exponent_of(bits) == 0 {
        fraction_of(bits)
    } else {
        0x10_0000_0000_0000 + fraction_of(bits)
    };
    if sign_of(bits) == 0 {
        magnitude
    } else {
        -magnitude
    }
}

/// The power of two that scales the significand of a double.
pub open spec fn scale_of(bits: u64) -> int {
    if exponent_of(bits) == 0 {
        -1074
    } else {
        exponent_of(bits) - 1075
    }
}

/// The fixed-point number of a double, by its bits: the double times 65536, rounded down,
/// and brought into the range of `i64`. An infinity counts as a number beyond every other;
/// what is no number gives zero.
pub open spec fn fixed_of_bits(bits: u64) -> i64 {
    let shift = scale_of(bits) + 16;
    if is_nan(bits) {
        0
    } else if shift >= 0 {
        clamp(significand_of(bits) * pow2(shift as nat)) as i64
    } else {
        clamp(floor_div(significand_of(bits), pow2((-shift) as nat) as int)) as i64
    }
}

/// The first `count` terms of the Halton sequence to `base`, as fixed-point numbers.
pub open spec fn halton_terms(base: u8, count: int) -> Seq<i64> {
    Seq::new(count as nat, |i: int| fixed_of_bits(halton_bits(base, i)))
}

/// Two to the power `e`.
fn power_of_two(e: u32) -> (p: u64)
    requires
        e <= 62,
    ensures
        p == pow2(e as nat),
        1 <= p <= 0x4000_0000_0000_0000,
{
    let mut p: u64 = 1;
    let mut i: u32 = 0;
    proof {
        lemma2_to64();
        lemma2_to64_rest();
    }
    while i < e
        invariant
            i <= e <= 62,
            p == pow2(i as nat),
            1 <= p,
            p <= pow2(62),
            pow2(62) == 0x4000_0000_0000_0000,
        decreases e - i,
    {
        proof {
            lemma_pow2_unfold((i + 1) as nat);
            if i + 1 < 62 {
                lemma_pow2_strictly_increases((i + 1) as nat, 62);
            }
        }
        p = p * 2;
        i += 1;
    }
    p
}

/// The fixed-point number of a double, by its bits.
pub fn fixed_from_bits(bits: u64) -> (fixed: i64)
    ensures
        fixed == fixed_of_bits(bits),
{
    let negative = bits / 0x8000_0000_0000_0000 == 1;
    let exponent = (bits / 0x10_0000_0000_0000) % 2048;
    let fraction = bits % 0x10_0000_0000_0000;
    if exponent == 2047 && fraction != 0 {
        return 0;
    }
    let magnitude: u64 = if exponent == 0 {
        fraction
    } else {
        0x10_0000_0000_0000 + fraction
    };
    let significand: i128 = if negative {
        -(magnitude as i128)
    } else {
        magnitude as i128
    };
    assert(significand == significand_of(bits));
    if exponent >= 1059 {
        // the double is a whole number of 65536ths
        let shift = exponent - 1059;
        assert(shift == scale_of(bits) + 16);
        if shift >= 11 {
            proof {
                lemma2_to64();
                if shift > 11 {
                    lemma_pow2_strictly_increases(11, shift as nat);
                }
                assert(magnitude as int * pow2(shift as nat) >= 0x8000_0000_0000_0000)
                    by (nonlinear_arith)
                    requires
                        magnitude >= 0x10_0000_0000_0000,
                        pow2(shift as nat) >= 2048,
                ;
                assert(significand * pow2(shift as nat) == if negative {
                    -(magnitude as int * pow2(shift as nat))
                } else {
                    magnitude as int * pow2(shift as nat)
                }) by (nonlinear_arith)
                    requires
                        significand == if negative {
                            -(magnitude as int)
                        } else {
                            magnitude as int
                        },
                ;
            }
            if negative {
                i64::MIN
            } else {
                i64::MAX
            }
        } else {
            let factor = power_of_two(shift as u32);
            proof {
                lemma2_to64();
                if shift < 10 {
                    lemma_pow2_strictly_increases(shift as nat, 10);
                }
                assert(-0x8000_0000_0000_0000 <= significand * factor <= 0x8000_0000_0000_0000)
                    by (nonlinear_arith)
                    requires
                        -0x20_0000_0000_0000 < significand < 0x20_0000_0000_0000,
                        1 <= factor <= 1024,
                ;
            }
            saturate(significand * factor as i128)
        }
    } else {
        let shift = if exponent == 0 {
            1058
        } else {
            1059 - exponent
        };
        assert(-shift == scale_of(bits) + 16);
        if shift > 53 {
            proof {
                lemma2_to64_rest();
                lemma_pow2_strictly_increases(53, shift as nat);
                let d = pow2(shift as nat) as int;
                lemma_floor_div(significand as int, d, 0);
                lemma_floor_div(significand as int, d, -1);
                lemma_floor_div(significand as int, d, 1);
                assert(d * 0 == 0 && d * 1 == d && d * (-1) == -d) by (nonlinear_arith);
            }
            if negative && magnitude > 0 {
                -1
            } else {
                0
            }
        } else {
            let divisor = power_of_two(shift as u32);
            saturate(floor_quotient(significand, divisor as i128))
        }
    }
}

/// The first `count` terms of the Halton sequence to `base`, as fixed-point numbers: fewer
/// where the sequence ends before, which it does not do within `HALTON_TERMS` terms.
pub fn halton(base: u8, count: usize) -> (terms: Vec<i64>)
    requires
        base >= 2,
    ensures
        terms.len() <= count,
        count <= HALTON_TERMS ==> terms.len() == count,
        terms@ == halton_terms(base, terms.len() as int),
{
    let bits = sequence_bits(base, count);
    let mut terms: Vec<i64> = Vec::new();
    let mut i: usize = 0;
    while i < bits.len()
        invariant
            i <= bits.len(),
            terms.len() == i,
            forall|k: int| 0 <= k < bits.len() ==> bits[k] == halton_bits(base, k),
            forall|k: int| 0 <= k < i ==> terms[k] == fixed_of_bits(halton_bits(base, k)),
        decreases bits.len() - i,
    {
        terms.push(fixed_from_bits(bits[i]));
        i += 1;
    }
    assert(terms@ =~= halton_terms(base, terms.len() as int));
    terms
}

} // verus!
