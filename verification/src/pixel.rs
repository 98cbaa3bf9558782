//! From a colour channel to the byte of a pixel.
//!
//! A channel between zero and one is scaled by 255 by the caller; the scaled
//! number becomes a byte by dropping its fraction.

use vstd::prelude::*;
use vstd::arithmetic::div_mod::{
    lemma_basic_div,
    lemma_div_by_multiple,
    lemma_div_denominator,
    lemma_div_is_ordered,
    lemma_fundamental_div_mod,
};
use vstd::arithmetic::power2::{lemma2_to64, lemma_pow2_adds, lemma_pow2_pos, pow2};
use vstd::bits::lemma_u64_shr_is_div;
use crate::double::{lemma_less_is_value_order, lemma_unit_is_positive, unit, Double, HIDDEN_BIT, ONE, SIGN_BIT};

verus! {

/// The pattern of 256, the first number too large for a byte.
pub const BYTE_RANGE: u64 = 0x4070_0000_0000_0000;

/// The byte for a scaled channel: its whole part, held within the range of a
/// byte. A NaN gives 0, and the infinities give the ends of the range.
pub open spec fn byte_of(p: Double) -> int {
    if p.nan() {
        0
    } else if !p.finite() {
        if p.negative() {
            0
        } else {
            255
        }
    } else if p.floor() < 0 {
        0
    } else if p.floor() > 255 {
        255
    } else {
        p.floor()
    }
}

/// The byte range denotes 256, exactly.
pub proof fn lemma_byte_range_is_256()
    ensures
        (Double { bits: BYTE_RANGE }).value() == 256 * unit(),
{
    let top = Double { bits: BYTE_RANGE };
    assert(top.exponent() == 1031);
    assert(top.fraction() == 0);
    lemma_unit_is_positive();
    lemma_pow2_adds(1022, 8);
    lemma2_to64();
    let h: int = HIDDEN_BIT as int;
    let w: int = pow2(1022) as int;
    assert(h * (w * 256) == 256 * (h * w)) by (nonlinear_arith);
}

/// The whole part of a number from one up to 256, read off its fields: the
/// significand, shifted right by as many places as its fraction has below the
/// binary point.
proof fn lemma_floor_is_shifted_significand(p: Double, k: nat)
    requires
        !p.negative(),
        p.finite(),
        p.exponent() == 1023 + k,
        k <= 52,
    ensures
        p.floor() == p.significand() / (pow2((52 - k) as nat) as int),
{
    let sig: int = p.significand();
    let c: int = (pow2(k) * pow2(1022)) as int;
    let d: int = pow2((52 - k) as nat) as int;
    lemma_unit_is_positive();
    lemma_pow2_pos(k);
    lemma_pow2_pos(1022);
    lemma_pow2_pos((52 - k) as nat);
    lemma_pow2_adds(1022, k);
    lemma_pow2_adds((52 - k) as nat, k);
    lemma2_to64();
    lemma_hidden_bit_is_a_power_of_two();
    assert(c > 0) by (nonlinear_arith)
        requires
            c == pow2(k) * pow2(1022),
            pow2(k) > 0,
            pow2(1022) > 0,
    ;
    assert(p.value() == sig * c) by (nonlinear_arith)
        requires
            p.value() == sig * pow2(1022 + k),
            pow2(1022 + k) == pow2(1022) * pow2(k),
            c == pow2(k) * pow2(1022),
    ;
    assert(unit() == c * d) by (nonlinear_arith)
        requires
            unit() == HIDDEN_BIT * pow2(1022),
            HIDDEN_BIT as int == d * pow2(k),
            c == pow2(k) * pow2(1022),
    ;
    assert(sig * c >= 0) by (nonlinear_arith)
        requires
            sig >= 0,
            c > 0,
    ;
    lemma_div_denominator(sig * c, c, d);
    lemma_div_by_multiple(sig, c);
}

/// Two to the power 52 is the hidden bit.
proof fn lemma_hidden_bit_is_a_power_of_two()
    ensures
        pow2(52) == HIDDEN_BIT,
{
    lemma_pow2_adds(32, 20);
    lemma2_to64();
}

/// Turns a scaled channel into a byte: the number's whole part, or the nearer
/// end of the byte's range where that lies outside it; 0 for a NaN.
pub fn quantize(p: Double) -> (r: u8)
    ensures
        r == byte_of(p),
{
    proof {
        lemma_unit_is_positive();
    }
    if p.is_nan() {
        0
    } else if p.bits >= SIGN_BIT {
        proof {
            if p.finite() {
                lemma_less_is_value_order(Double { bits: 0 }, p);
                assert(p.value() <= 0);
                lemma_div_is_ordered(p.value(), 0, unit());
            }
        }
        0
    } else if p.bits < ONE {
        proof {
            lemma_less_is_value_order(p, Double { bits: ONE });
            lemma_less_is_value_order(Double { bits: 0 }, p);
            assert((Double { bits: 0 }).value() == 0) by {
                lemma2_to64();
            }
            lemma_basic_div(p.value(), unit());
        }
        0
    } else if p.bits >= BYTE_RANGE {
        proof {
            if p.finite() {
                lemma_byte_range_is_256();
                lemma_less_is_value_order(p, Double { bits: BYTE_RANGE });
                lemma_div_is_ordered(256 * unit(), p.value(), unit());
                lemma_div_by_multiple(256, unit());
            }
        }
        255
    } else {
        let exponent: u64 = p.bits / HIDDEN_BIT;
        let significand: u64 = HIDDEN_BIT + p.bits % HIDDEN_BIT;
        let places: u64 = 52 - (exponent - 1023);
        let whole: u64 = significand >> places;
        proof {
            let k: nat = (exponent - 1023) as nat;
            assert(p.magnitude() == p.bits);
            assert(p.exponent() == exponent);
            assert(p.significand() == significand);
            lemma_floor_is_shifted_significand(p, k);
            lemma_u64_shr_is_div(significand, places);
            assert(whole == p.floor());
            // below 256 the whole part fits a byte
            lemma_byte_range_is_256();
            lemma_less_is_value_order(p, Double { bits: BYTE_RANGE });
            lemma_less_is_value_order(Double { bits: 0 }, p);
            assert((Double { bits: 0 }).value() == 0) by {
                lemma2_to64();
            }
            lemma_fundamental_div_mod(p.value(), unit());
            assert(p.floor() < 256) by (nonlinear_arith)
                requires
                    p.value() < 256 * unit(),
                    p.value() == unit() * p.floor() + p.value() % unit(),
                    0 <= p.value() % unit(),
                    unit() > 0,
            ;
        }
        whole as u8
    }
}

} // verus!
