//! IEEE 754 single-precision numbers, held by their bit patterns.
//!
//! Every finite single-precision number is a whole multiple of 2^-149, the
//! smallest positive subnormal. The mathematical model of a number is
//! therefore a sign and a natural count of such units, beside the two
//! infinities and "not a number".

use vstd::arithmetic::power2::*;
use vstd::prelude::*;

verus! {

/// The bit that holds the sign.
pub const SIGN_BIT: u32 = 0x8000_0000;

/// The magnitude bits of an infinity; larger magnitudes are not numbers.
pub const INFINITY_BITS: u32 = 0x7f80_0000;

/// The implicit leading bit of a normal significand, 2^23.
pub const HIDDEN_BIT: u32 = 0x0080_0000;

/// The bit pattern produced for every invalid operation.
pub const QUIET_NAN_BITS: u32 = 0x7fc0_0000;

/// What a single-precision bit pattern stands for.
pub enum Value {
    /// Not a number.
    Nan,
    /// Positive or negative infinity.
    Infinite { negative: bool },
    /// `units` times 2^-149, negated where `negative`; zero keeps its sign.
    Finite { negative: bool, units: nat },
}

/// The count of units encoded by magnitude bits below `INFINITY_BITS`:
/// the fraction alone for subnormals, else the significand with its hidden
/// bit, scaled by the exponent.
pub open spec fn magnitude_units(magnitude: nat) -> nat {
    let exponent = magnitude / 0x80_0000;
    let fraction = magnitude % 0x80_0000;
    if exponent == 0 {
        fraction
    } else {
        (0x80_0000 + fraction) * pow2((exponent - 1) as nat)
    }
}

/// The value that a bit pattern encodes.
pub open spec fn decode(bits: u32) -> Value {
    let negative = bits >= 0x8000_0000;
    let magnitude = (bits % 0x8000_0000) as nat;
    if magnitude > 0x7f80_0000 {
        Value::Nan
    } else if magnitude == 0x7f80_0000 {
        Value::Infinite { negative }
    } else {
        Value::Finite { negative, units: magnitude_units(magnitude) }
    }
}

/// A finite value as a signed count of units.
pub open spec fn signed_units(negative: bool, units: nat) -> int {
    if negative {
        -(units as int)
    } else {
        units as int
    }
}

/// Numeric order: `a < b`. False when either side is not a number; the two
/// zeros are equal.
pub open spec fn less(a: Value, b: Value) -> bool {
    match (a, b) {
        (Value::Nan, _) => false,
        (_, Value::Nan) => false,
        (Value::Infinite { negative: na }, Value::Infinite { negative: nb }) => na && !nb,
        (Value::Infinite { negative: na }, Value::Finite { .. }) => na,
        (Value::Finite { .. }, Value::Infinite { negative: nb }) => !nb,
        (Value::Finite { negative: na, units: ua }, Value::Finite { negative: nb, units: ub }) =>
            signed_units(na, ua) < signed_units(nb, ub),
    }
}

/// Numeric equality: `a == b`. False when either side is not a number; the
/// two zeros are equal.
pub open spec fn same(a: Value, b: Value) -> bool {
    match (a, b) {
        (Value::Nan, _) => false,
        (_, Value::Nan) => false,
        (Value::Infinite { negative: na }, Value::Infinite { negative: nb }) => na == nb,
        (Value::Finite { negative: na, units: ua }, Value::Finite { negative: nb, units: ub }) =>
            signed_units(na, ua) == signed_units(nb, ub),
        _ => false,
    }
}

/// Numeric order: `a <= b`.
pub open spec fn at_most(a: Value, b: Value) -> bool {
    less(a, b) || same(a, b)
}

/// The value with its sign flipped.
pub open spec fn negation(a: Value) -> Value {
    match a {
        Value::Nan => Value::Nan,
        Value::Infinite { negative } => Value::Infinite { negative: !negative },
        Value::Finite { negative, units } => Value::Finite { negative: !negative, units },
    }
}

/// The larger of two values. A side that is not a number is ignored; of two
/// equal values the first is kept.
pub open spec fn maximum(a: Value, b: Value) -> Value {
    if a is Nan {
        b
    } else if b is Nan {
        a
    } else if less(a, b) {
        b
    } else {
        a
    }
}

/// The smaller of two values. A side that is not a number is ignored; of two
/// equal values the first is kept.
pub open spec fn minimum(a: Value, b: Value) -> Value {
    if a is Nan {
        b
    } else if b is Nan {
        a
    } else if less(b, a) {
        b
    } else {
        a
    }
}

/// The units of a normal magnitude lie in the binade that its exponent names.
pub proof fn lemma_units_bounds(magnitude: nat)
    requires
        magnitude < 0x7f80_0000,
    ensures
        magnitude < 0x80_0000 ==> magnitude_units(magnitude) == magnitude,
        magnitude >= 0x80_0000 ==> pow2((22 + magnitude / 0x80_0000) as nat) <= magnitude_units(
            magnitude,
        ) < pow2((23 + magnitude / 0x80_0000) as nat),
{
    if magnitude >= 0x80_0000 {
        let e = magnitude / 0x80_0000;
        let f = magnitude % 0x80_0000;
        let p = pow2((e - 1) as nat);
        lemma2_to64();
        lemma_pow2_adds(23, (e - 1) as nat);
        lemma_pow2_adds(24, (e - 1) as nat);
        lemma_pow2_pos((e - 1) as nat);
        assert(0x80_0000 * p <= (0x80_0000 + f) * p < 0x100_0000 * p) by (nonlinear_arith)
            requires
                0 <= f < 0x80_0000,
                p > 0,
        ;
    }
}

/// Larger magnitude bits encode more units: finite numbers are ordered as
/// their bit patterns are.
pub proof fn lemma_units_monotonic(m1: nat, m2: nat)
    requires
        m1 < m2 < 0x7f80_0000,
    ensures
        magnitude_units(m1) < magnitude_units(m2),
{
    let e1 = m1 / 0x80_0000;
    let e2 = m2 / 0x80_0000;
    let f1 = m1 % 0x80_0000;
    let f2 = m2 % 0x80_0000;
    lemma_units_bounds(m1);
    lemma_units_bounds(m2);
    lemma2_to64();
    if e1 == e2 {
        if e1 > 0 {
            let p = pow2((e1 - 1) as nat);
            lemma_pow2_pos((e1 - 1) as nat);
            assert((0x80_0000 + f1) * p < (0x80_0000 + f2) * p) by (nonlinear_arith)
                requires
                    f1 < f2,
                    p > 0,
            ;
        }
    } else {
        assert(e1 < e2);
        if e1 == 0 {
            if e2 > 1 {
                lemma_pow2_strictly_increases(23, (22 + e2) as nat);
            }
        } else {
            if e1 + 1 < e2 {
                lemma_pow2_strictly_increases((23 + e1) as nat, (22 + e2) as nat);
            }
        }
    }
}

/// Finite magnitudes compare as the units they encode; only the zero
/// magnitude encodes no units.
pub proof fn lemma_magnitude_order(m1: nat, m2: nat)
    requires
        m1 <= 0x7f80_0000,
        m2 <= 0x7f80_0000,
    ensures
        m1 < 0x7f80_0000 && m2 < 0x7f80_0000 ==> (m1 < m2 <==> magnitude_units(m1)
            < magnitude_units(m2)),
        m1 < 0x7f80_0000 && m2 < 0x7f80_0000 ==> (m1 == m2 <==> magnitude_units(m1)
            == magnitude_units(m2)),
        m1 < 0x7f80_0000 ==> (m1 == 0 <==> magnitude_units(m1) == 0),
        m2 < 0x7f80_0000 ==> (m2 == 0 <==> magnitude_units(m2) == 0),
{
    if m1 < 0x7f80_0000 && m2 < 0x7f80_0000 {
        if m1 < m2 {
            lemma_units_monotonic(m1, m2);
        }
        if m2 < m1 {
            lemma_units_monotonic(m2, m1);
        }
    }
    if 0 < m1 < 0x7f80_0000 {
        lemma_units_monotonic(0, m1);
    }
    if 0 < m2 < 0x7f80_0000 {
        lemma_units_monotonic(0, m2);
    }
}

/// Whether a value is one that a bit pattern encodes: not a number, an
/// infinity, or a finite value with a significand of at most 24 bits.
pub open spec fn encodable(v: Value) -> bool {
    exists|bits: u32| decode(bits) == v
}

/// The units of a finite magnitude are a significand below 2^24 times a
/// power of two.
pub proof fn lemma_units_form(magnitude: nat) -> (r: (nat, nat))
    requires
        magnitude < 0x7f80_0000,
    ensures
        magnitude_units(magnitude) == r.0 * pow2(r.1),
        r.0 < 0x100_0000,
{
    lemma2_to64();
    let exponent = magnitude / 0x80_0000;
    let fraction = magnitude % 0x80_0000;
    if exponent == 0 {
        assert(fraction * pow2(0) == fraction) by (nonlinear_arith)
            requires
                pow2(0) == 1,
        ;
        (fraction, 0)
    } else {
        ((0x80_0000 + fraction) as nat, (exponent - 1) as nat)
    }
}

/// Numbers that are not negative compare as their bit patterns do, and
/// every negative number but zero lies below zero.
pub proof fn lemma_order_by_bits(a: u32, b: u32)
    requires
        a <= 0x7f80_0000,
    ensures
        b <= 0x7f80_0000 ==> (less(decode(a), decode(b)) <==> a < b),
        b <= 0x7f80_0000 ==> (at_most(decode(a), decode(b)) <==> a <= b),
        0x8000_0000 < b <= 0xff80_0000 ==> less(decode(b), decode(a)),
{
    if b <= 0x7f80_0000 {
        lemma_magnitude_order(a as nat, b as nat);
    } else if 0x8000_0000 < b <= 0xff80_0000 {
        lemma_magnitude_order(a as nat, (b - 0x8000_0000) as nat);
    }
}

/// A number is determined by its value: two bit patterns that encode the
/// same value, not "not a number", are the same.
pub proof fn law_value_determines_bits(a: u32, b: u32)
    requires
        decode(a) == decode(b),
        !(decode(a) is Nan),
    ensures
        a == b,
{
    lemma_magnitude_order((a % 0x8000_0000) as nat, (b % 0x8000_0000) as nat);
}

/// An IEEE 754 single-precision number.
#[derive(Clone, Copy, Debug)]
pub struct Single {
    /// The bit pattern: sign, eight exponent bits, twenty-three fraction bits.
    pub bits: u32,
}

impl View for Single {
    type V = Value;

    open spec fn view(&self) -> Value {
        decode(self.bits)
    }
}

impl Single {
    /// The number with the given bit pattern.
    pub fn from_bits(bits: u32) -> (r: Single)
        ensures
            r.bits == bits,
    {
        Single { bits }
    }

    /// The bit pattern of the number.
    pub fn to_bits(self) -> (bits: u32)
        ensures
            bits == self.bits,
    {
        self.bits
    }

    /// Whether this is not a number.
    pub fn is_nan(self) -> (r: bool)
        ensures
            r == (self@ is Nan),
    {
        self.bits % SIGN_BIT > INFINITY_BITS
    }

    /// Whether this is neither infinite nor not a number.
    pub fn is_finite(self) -> (r: bool)
        ensures
            r == (self@ is Finite),
    {
        self.bits % SIGN_BIT < INFINITY_BITS
    }

    /// Whether the sign bit is set.
    pub fn is_sign_negative(self) -> (r: bool)
        ensures
            r == (self.bits >= 0x8000_0000),
    {
        self.bits >= SIGN_BIT
    }

    /// The number with its sign flipped.
    pub fn neg(self) -> (r: Single)
        ensures
            r@ == negation(self@),
            r.bits % 0x8000_0000 == self.bits % 0x8000_0000,
    {
        let r = if self.bits >= SIGN_BIT {
            Single { bits: self.bits - SIGN_BIT }
        } else {
            Single { bits: self.bits + SIGN_BIT }
        };
        assert(r.bits % 0x8000_0000 == self.bits % 0x8000_0000);
        assert((r.bits >= 0x8000_0000) == !(self.bits >= 0x8000_0000));
        assert(decode(r.bits) == negation(decode(self.bits)));
        r
    }

    /// `self < rhs` in numeric order.
    pub fn lt(self, rhs: Single) -> (r: bool)
        ensures
            r == less(self@, rhs@),
    {
        let am: u32 = self.bits % SIGN_BIT;
        let bm: u32 = rhs.bits % SIGN_BIT;
        if am > INFINITY_BITS || bm > INFINITY_BITS {
            return false;
        }
        let an = self.bits >= SIGN_BIT;
        let bn = rhs.bits >= SIGN_BIT;
        proof {
            lemma_magnitude_order(am as nat, bm as nat);
        }
        if an {
            if bn {
                am > bm
            } else {
                am > 0 || bm > 0
            }
        } else {
            if bn {
                false
            } else {
                am < bm
            }
        }
    }

    /// `self > rhs` in numeric order.
    pub fn gt(self, rhs: Single) -> (r: bool)
        ensures
            r == less(rhs@, self@),
    {
        rhs.lt(self)
    }

    /// `self <= rhs` in numeric order.
    pub fn le(self, rhs: Single) -> (r: bool)
        ensures
            r == at_most(self@, rhs@),
    {
        let am: u32 = self.bits % SIGN_BIT;
        let bm: u32 = rhs.bits % SIGN_BIT;
        if am > INFINITY_BITS || bm > INFINITY_BITS {
            return false;
        }
        let an = self.bits >= SIGN_BIT;
        let bn = rhs.bits >= SIGN_BIT;
        proof {
            lemma_magnitude_order(am as nat, bm as nat);
        }
        if an {
            if bn {
                am >= bm
            } else {
                true
            }
        } else {
            if bn {
                am == 0 && bm == 0
            } else {
                am <= bm
            }
        }
    }

    /// The larger of two numbers; a side that is not a number is ignored.
    pub fn max(self, rhs: Single) -> (r: Single)
        ensures
            r@ == maximum(self@, rhs@),
            r.bits == self.bits || r.bits == rhs.bits,
    {
        if self.is_nan() {
            rhs
        } else if rhs.is_nan() {
            self
        } else if self.lt(rhs) {
            rhs
        } else {
            self
        }
    }

    /// The smaller of two numbers; a side that is not a number is ignored.
    pub fn min(self, rhs: Single) -> (r: Single)
        ensures
            r@ == minimum(self@, rhs@),
            r.bits == self.bits || r.bits == rhs.bits,
    {
        if self.is_nan() {
            rhs
        } else if rhs.is_nan() {
            self
        } else if rhs.lt(self) {
            rhs
        } else {
            self
        }
    }
}

/// The values that a sequence of numbers stands for.
pub open spec fn values(v: Seq<Single>) -> Seq<Value> {
    Seq::new(v.len(), |i: int| v[i]@)
}

/// The bit pattern of 0.5.
pub const HALF_BITS: u32 = 0x3f00_0000;

/// The bit pattern of 1.0.
pub const ONE_BITS: u32 = 0x3f80_0000;

/// The bit pattern of 2.0.
pub const TWO_BITS: u32 = 0x4000_0000;

/// Whether a value is one of the two zeros.
pub open spec fn is_zero(v: Value) -> bool {
    v matches Value::Finite { units, .. } && units == 0
}

/// Positive zero.
pub open spec fn zero_value() -> Value {
    Value::Finite { negative: false, units: 0 }
}

/// The value 0.5.
pub open spec fn half_value() -> Value {
    decode(HALF_BITS)
}

/// The value 1.0.
pub open spec fn one_value() -> Value {
    decode(ONE_BITS)
}

/// The value 2.0.
pub open spec fn two_value() -> Value {
    decode(TWO_BITS)
}

} // verus!
