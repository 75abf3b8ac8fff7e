//! Conversions between integers and single-precision numbers: exact or
//! rounded into a number, cut off toward zero and saturated out of one.

use crate::arith::{lemma_common_factor, lemma_round_exact_units, parts};
use crate::rounding::{power_of_two, round, round_pack};
use crate::single::{Single, Value};
use vstd::arithmetic::div_mod::*;
use vstd::arithmetic::mul::*;
use vstd::arithmetic::power2::*;
use vstd::prelude::*;

verus! {

/// The value of an integer: the integer itself where its magnitude is
/// below 2^24, else the nearest representable value.
pub open spec fn integer_value(n: int) -> Value {
    if n < 0 {
        round(true, ((-n) * pow2(149)) as nat, 1)
    } else {
        round(false, (n * pow2(149)) as nat, 1)
    }
}

/// The whole part of a value that is not negative, as a count: its units
/// divided by 2^149.
pub open spec fn whole_part(units: nat) -> nat {
    units / pow2(149)
}

/// A value cut off toward zero and brought into `0..=255`; zero for what
/// is not a number.
pub open spec fn byte_of(v: Value) -> u8 {
    match v {
        Value::Nan => 0,
        Value::Infinite { negative } => if negative {
            0
        } else {
            255
        },
        Value::Finite { negative, units } => if negative {
            0
        } else if whole_part(units) > 255 {
            255
        } else {
            whole_part(units) as u8
        },
    }
}

/// A value rounded to the nearest whole number, halves away from zero, and
/// brought into `0..=255`; zero for what is not a number.
pub open spec fn rounded_byte_of(v: Value) -> u8 {
    match v {
        Value::Nan => 0,
        Value::Infinite { negative } => if negative {
            0
        } else {
            255
        },
        Value::Finite { negative, units } => if negative {
            0
        } else if whole_part(units + pow2(148)) > 255 {
            255
        } else {
            whole_part(units + pow2(148)) as u8
        },
    }
}

/// A value cut off toward zero and brought into the 32-bit integers;
/// zero for what is not a number.
pub open spec fn integer_of(v: Value) -> i32 {
    match v {
        Value::Nan => 0,
        Value::Infinite { negative } => if negative {
            i32::MIN
        } else {
            i32::MAX
        },
        Value::Finite { negative, units } => if negative {
            if whole_part(units) > 0x8000_0000 {
                i32::MIN
            } else {
                (-(whole_part(units) as int)) as i32
            }
        } else if whole_part(units) > 0x7FFF_FFFF {
            i32::MAX
        } else {
            whole_part(units) as i32
        },
    }
}

/// The whole part of `m * 2^e` units: `m` moved by `e - 149` binary places.
pub proof fn lemma_whole_part(m: nat, e: nat)
    ensures
        e >= 149 ==> whole_part(m * pow2(e)) == m * pow2((e - 149) as nat),
        e < 149 ==> whole_part(m * pow2(e)) == m / pow2((149 - e) as nat),
{
    lemma_pow2_pos(149);
    lemma_pow2_pos(e);
    if e >= 149 {
        let c = pow2((e - 149) as nat);
        lemma_pow2_adds((e - 149) as nat, 149);
        assert(m * pow2(e) == (m * c) * pow2(149) + 0) by (nonlinear_arith)
            requires
                pow2(e) == c * pow2(149),
        ;
        lemma_fundamental_div_mod_converse(
            (m * pow2(e)) as int,
            pow2(149) as int,
            (m * c) as int,
            0,
        );
    } else {
        let b = pow2((149 - e) as nat);
        lemma_pow2_pos((149 - e) as nat);
        lemma_pow2_adds((149 - e) as nat, e);
        lemma_common_factor(m, b, pow2(e));
    }
}

/// The whole part of a finite number given by significand and scale,
/// saturated at 2^32.
fn whole(m: u32, e: u32) -> (w: u64)
    requires
        m < 0x100_0000,
        e <= 253,
    ensures
        whole_part((m as nat) * pow2(e as nat)) >= 0x1_0000_0000 ==> w == 0x1_0000_0000,
        whole_part((m as nat) * pow2(e as nat)) < 0x1_0000_0000 ==> w == whole_part(
            (m as nat) * pow2(e as nat),
        ),
{
    proof {
        lemma_whole_part(m as nat, e as nat);
        lemma2_to64();
    }
    if m == 0 {
        proof {
            assert(0nat * pow2(e as nat) == 0) by (nonlinear_arith);
            lemma_pow2_pos(149);
            lemma_div_basics_1(pow2(149) as int);
            if e >= 149 {
                assert(0nat * pow2((e - 149) as nat) == 0) by (nonlinear_arith);
            }
        }
        return 0;
    }
    if e >= 149 {
        let up: u32 = e - 149;
        if up >= 32 {
            proof {
                if up > 32 {
                    lemma_pow2_strictly_increases(32, up as nat);
                }
                assert((m as nat) * pow2(up as nat) >= 0x1_0000_0000) by (nonlinear_arith)
                    requires
                        m >= 1,
                        pow2(up as nat) >= 0x1_0000_0000,
                ;
            }
            return 0x1_0000_0000;
        }
        proof {
            if up < 31 {
                lemma_pow2_strictly_increases(up as nat, 31);
            }
            assert(m * pow2(up as nat) <= 0x100_0000 * 0x8000_0000) by (nonlinear_arith)
                requires
                    m < 0x100_0000,
                    pow2(up as nat) <= 0x8000_0000,
            ;
        }
        let w: u64 = (m as u64) * (power_of_two(up) as u64);
        if w >= 0x1_0000_0000 {
            0x1_0000_0000
        } else {
            w
        }
    } else {
        let down: u32 = 149 - e;
        if down >= 24 {
            proof {
                if down > 24 {
                    lemma_pow2_strictly_increases(24, down as nat);
                }
                lemma_basic_div(m as int, pow2(down as nat) as int);
            }
            return 0;
        }
        proof {
            lemma_pow2_strictly_increases(down as nat, 24);
        }
        (m as u64) / (power_of_two(down) as u64)
    }
}

impl Single {
    /// The number that an integer stands for, rounded where the integer
    /// has more than 24 significant bits.
    pub fn from_int(n: i32) -> (r: Single)
        ensures
            r@ == integer_value(n as int),
    {
        Single::from_wide(n as i128)
    }

    /// The number that a wide integer stands for, rounded where the integer
    /// has more than 24 significant bits.
    pub fn from_wide(n: i128) -> (r: Single)
        requires
            n > i128::MIN,
        ensures
            r@ == integer_value(n as int),
    {
        let negative = n < 0;
        let magnitude: u128 = if negative {
            (-n) as u128
        } else {
            n as u128
        };
        proof {
            lemma_pow2_pos(149);
            lemma_fundamental_div_mod_converse(
                (magnitude * pow2(149)) as int,
                (1 * pow2(149)) as int,
                magnitude as int,
                0,
            );
        }
        round_pack(negative, magnitude, false, 149, Ghost((magnitude * pow2(149)) as nat), Ghost(1))
    }

    /// The number that a byte stands for.
    pub fn from_u8(b: u8) -> (r: Single)
        ensures
            r@ == (Value::Finite { negative: false, units: (b as nat) * pow2(149) }),
    {
        proof {
            lemma_round_exact_units(b as nat, 149);
            lemma2_to64();
            lemma_pow2_pos(149);
            lemma_pow2_adds(8, 149);
            lemma_pow2_strictly_increases(157, 277);
            assert((b as nat) * pow2(149) < pow2(8) * pow2(149)) by (nonlinear_arith)
                requires
                    b < 256,
                    pow2(8) == 256,
                    pow2(149) > 0,
            ;
            lemma_pow2_pos(149);
        }
        Single::from_int(b as i32)
    }

    /// The number cut off toward zero and brought into `0..=255`.
    pub fn to_u8(self) -> (b: u8)
        ensures
            b == byte_of(self@),
    {
        if self.is_nan() {
            return 0;
        }
        if self.is_sign_negative() {
            return 0;
        }
        if !self.is_finite() {
            return 255;
        }
        let (negative, m, e) = parts(self);
        let w = whole(m, e);
        if w > 255 {
            255
        } else {
            w as u8
        }
    }

    /// The number cut off toward zero and brought into the 32-bit integers.
    pub fn to_int(self) -> (n: i32)
        ensures
            n == integer_of(self@),
    {
        if self.is_nan() {
            return 0;
        }
        let negative = self.is_sign_negative();
        if !self.is_finite() {
            return if negative {
                i32::MIN
            } else {
                i32::MAX
            };
        }
        let (sign, m, e) = parts(self);
        let w = whole(m, e);
        if negative {
            if w > 0x8000_0000 {
                i32::MIN
            } else {
                (-(w as i64)) as i32
            }
        } else {
            if w > 0x7FFF_FFFF {
                i32::MAX
            } else {
                w as i32
            }
        }
    }

    /// The number rounded to the nearest whole number, halves away from
    /// zero, and brought into `0..=255`.
    pub fn round_to_u8(self) -> (b: u8)
        ensures
            b == rounded_byte_of(self@),
    {
        if self.is_nan() {
            return 0;
        }
        if self.is_sign_negative() {
            return 0;
        }
        if !self.is_finite() {
            return 255;
        }
        let (negative, m, e) = parts(self);
        if e >= 149 {
            // A whole number already.
            proof {
                lemma_whole_plus_half(m as nat, e as nat);
            }
            let w = whole(m, e);
            return if w > 255 {
                255
            } else {
                w as u8
            };
        }
        let down: u32 = 149 - e;
        proof {
            lemma_half_up(m as nat, e as nat);
            lemma2_to64();
        }
        if down >= 26 {
            proof {
                if down > 26 {
                    lemma_pow2_strictly_increases(25, (down - 1) as nat);
                }
                lemma_pow2_unfold(down as nat);
                lemma_basic_div(
                    (m + pow2((down - 1) as nat)) as int,
                    pow2(down as nat) as int,
                );
            }
            return 0;
        }
        proof {
            lemma_pow2_strictly_increases((down - 1) as nat, 25);
            lemma_pow2_strictly_increases(down as nat, 26);
        }
        let half: u64 = power_of_two(down - 1) as u64;
        let w: u64 = ((m as u64) + half) / (power_of_two(down) as u64);
        if w > 255 {
            255
        } else {
            w as u8
        }
    }
}

/// Adding a half to a whole number of units does not change its whole part.
pub proof fn lemma_whole_plus_half(m: nat, e: nat)
    requires
        e >= 149,
    ensures
        whole_part(m * pow2(e) + pow2(148)) == whole_part(m * pow2(e)),
{
    lemma_whole_part(m, e);
    let c = m * pow2((e - 149) as nat);
    lemma_pow2_pos(149);
    lemma_pow2_pos(148);
    lemma_pow2_unfold(149);
    lemma_pow2_adds((e - 149) as nat, 149);
    assert(m * pow2(e) == c * pow2(149)) by (nonlinear_arith)
        requires
            pow2(e) == pow2((e - 149) as nat) * pow2(149),
            c == m * pow2((e - 149) as nat),
    ;
    lemma_fundamental_div_mod_converse(
        (m * pow2(e) + pow2(148)) as int,
        pow2(149) as int,
        c as int,
        pow2(148) as int,
    );
}

/// The whole part of `m * 2^e` units and a half, for a scale below the
/// unit: `m` and half the divisor, divided by the divisor `2^(149 - e)`.
pub proof fn lemma_half_up(m: nat, e: nat)
    requires
        e < 149,
    ensures
        whole_part(m * pow2(e) + pow2(148)) == (m + pow2((148 - e) as nat)) / pow2(
            (149 - e) as nat,
        ),
{
    let c = pow2(e);
    let b = pow2((149 - e) as nat);
    let h = pow2((148 - e) as nat);
    lemma_pow2_pos(e);
    lemma_pow2_pos((149 - e) as nat);
    lemma_pow2_adds((149 - e) as nat, e);
    lemma_pow2_adds((148 - e) as nat, e);
    assert(m * c + pow2(148) == (m + h) * c) by (nonlinear_arith)
        requires
            pow2(148) == h * c,
    ;
    lemma_common_factor(m + h, b, c);
}

} // verus!
