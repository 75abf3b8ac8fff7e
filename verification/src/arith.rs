//! Correctly rounded arithmetic on single-precision numbers.
//!
//! Each operation is defined on the values that the operands stand for:
//! the exact result, a ratio of counts of units, is rounded to the nearest
//! representable value, ties to even.

use crate::rounding::{
    bit_length, lemma_bit_length_bounds, lemma_round_barrier, lemma_round_encodable,
    lemma_round_monotonic, lemma_round_scaling, lemma_round_upper, lemma_zero_ratio, round,
    round_pack, truncates,
};
use crate::single::{
    at_most, decode, encodable, half_value, is_zero, lemma_magnitude_order, lemma_units_bounds,
    lemma_units_form, less, magnitude_units, negation, one_value, signed_units, two_value,
    zero_value, Single, Value, HIDDEN_BIT, INFINITY_BITS, QUIET_NAN_BITS, SIGN_BIT,
};
use vstd::arithmetic::div_mod::*;
use vstd::arithmetic::mul::*;
use vstd::arithmetic::power2::*;
use vstd::prelude::*;

verus! {

/// The product of two values, rounded. Zero times infinity is not a number.
#[verifier::opaque]
pub open spec fn product(a: Value, b: Value) -> Value {
    match (a, b) {
        (Value::Nan, _) => Value::Nan,
        (_, Value::Nan) => Value::Nan,
        (Value::Infinite { negative: na }, Value::Infinite { negative: nb }) => Value::Infinite {
            negative: na != nb,
        },
        (Value::Infinite { negative: na }, Value::Finite { negative: nb, units }) => if units == 0 {
            Value::Nan
        } else {
            Value::Infinite { negative: na != nb }
        },
        (Value::Finite { negative: na, units }, Value::Infinite { negative: nb }) => if units == 0 {
            Value::Nan
        } else {
            Value::Infinite { negative: na != nb }
        },
        (Value::Finite { negative: na, units: ua }, Value::Finite { negative: nb, units: ub }) =>
            round(na != nb, ua * ub, pow2(149)),
    }
}

/// The sum of two values, rounded. Infinities of opposite sign have no sum;
/// an exact zero is negative only where both operands are.
#[verifier::opaque]
pub open spec fn sum(a: Value, b: Value) -> Value {
    match (a, b) {
        (Value::Nan, _) => Value::Nan,
        (_, Value::Nan) => Value::Nan,
        (Value::Infinite { negative: na }, Value::Infinite { negative: nb }) => if na == nb {
            a
        } else {
            Value::Nan
        },
        (Value::Infinite { .. }, Value::Finite { .. }) => a,
        (Value::Finite { .. }, Value::Infinite { .. }) => b,
        (Value::Finite { negative: na, units: ua }, Value::Finite { negative: nb, units: ub }) => {
            let t = signed_units(na, ua) + signed_units(nb, ub);
            if t == 0 {
                Value::Finite { negative: na && nb, units: 0 }
            } else if t < 0 {
                round(true, (-t) as nat, 1)
            } else {
                round(false, t as nat, 1)
            }
        },
    }
}

/// The difference of two values, rounded: the sum with the second negated.
pub open spec fn difference(a: Value, b: Value) -> Value {
    sum(a, negation(b))
}

/// The quotient of two values, rounded. Zero by zero and infinity by
/// infinity are not numbers; anything else by zero is infinite.
#[verifier::opaque]
pub open spec fn quotient(a: Value, b: Value) -> Value {
    match (a, b) {
        (Value::Nan, _) => Value::Nan,
        (_, Value::Nan) => Value::Nan,
        (Value::Infinite { .. }, Value::Infinite { .. }) => Value::Nan,
        (Value::Infinite { negative: na }, Value::Finite { negative: nb, .. }) => Value::Infinite {
            negative: na != nb,
        },
        (Value::Finite { negative: na, .. }, Value::Infinite { negative: nb }) => Value::Finite {
            negative: na != nb,
            units: 0,
        },
        (Value::Finite { negative: na, units: ua }, Value::Finite { negative: nb, units: ub }) =>
            if ub == 0 {
            if ua == 0 {
                Value::Nan
            } else {
                Value::Infinite { negative: na != nb }
            }
        } else {
            round(na != nb, ua * pow2(149), ub)
        },
    }
}

/// Scaling both sides of a division by the same positive factor changes
/// neither the quotient nor whether there is a remainder.
pub proof fn lemma_common_factor(a: nat, b: nat, c: nat)
    requires
        b > 0,
        c > 0,
    ensures
        b * c > 0,
        (a * c) / (b * c) == a / b,
        ((a * c) % (b * c) != 0) == (a % b != 0),
{
    lemma_mul_strictly_positive(b as int, c as int);
    lemma_div_multiples_vanish_quotient(c as int, a as int, b as int);
    lemma_truncate_middle(a as int, c as int, b as int);
    lemma_mul_is_commutative(a as int, c as int);
    lemma_mul_is_commutative(b as int, c as int);
    let r = a % b;
    assert((a * c) % (b * c) == c * r);
    assert((c * r != 0) == (r != 0)) by (nonlinear_arith)
        requires
            c > 0,
            r >= 0,
    ;
}

/// The sign, significand and scale of a finite number: it stands for
/// `significand * 2^scale` units.
pub fn parts(x: Single) -> (r: (bool, u32, u32))
    requires
        x@ is Finite,
    ensures
        x@ == (Value::Finite { negative: r.0, units: (r.1 as nat) * pow2(r.2 as nat) }),
        r.1 < 0x100_0000,
        r.2 <= 253,
        r.2 > 0 ==> r.1 >= 0x80_0000,
        r.1 == 0 <==> x.bits % 0x8000_0000 == 0,
{
    let magnitude: u32 = x.bits % SIGN_BIT;
    let exponent: u32 = magnitude / HIDDEN_BIT;
    let fraction: u32 = magnitude % HIDDEN_BIT;
    proof {
        lemma2_to64();
    }
    assert(x@ == (Value::Finite {
        negative: x.bits >= 0x8000_0000,
        units: magnitude_units(magnitude as nat),
    }));
    if exponent == 0 {
        assert((fraction as nat) * pow2(0) == fraction) by (nonlinear_arith)
            requires
                pow2(0) == 1,
        ;
        (x.bits >= SIGN_BIT, fraction, 0)
    } else {
        assert(magnitude_units(magnitude as nat) == ((fraction + 0x80_0000) as nat) * pow2(
            (exponent - 1) as nat,
        ));
        (x.bits >= SIGN_BIT, fraction + HIDDEN_BIT, exponent - 1)
    }
}

/// The product of two exact counts, as a quotient truncated at scale 2^k.
pub proof fn lemma_product_truncates(ma: nat, ea: nat, mb: nat, eb: nat)
    ensures
        truncates(ma * mb, false, ea + eb - 149, (ma * pow2(ea)) * (mb * pow2(eb)), pow2(149)),
{
    let k = ea + eb - 149;
    let m = ma * mb;
    let num = (ma * pow2(ea)) * (mb * pow2(eb));
    let den = pow2(149);
    lemma_pow2_pos(149);
    lemma_pow2_adds(ea, eb);
    assert(num == m * pow2(ea + eb)) by (nonlinear_arith)
        requires
            num == (ma * pow2(ea)) * (mb * pow2(eb)),
            m == ma * mb,
            pow2(ea + eb) == pow2(ea) * pow2(eb),
    ;
    if k >= 0 {
        lemma_pow2_adds(149, k as nat);
        let d = den * pow2(k as nat);
        lemma_pow2_pos((ea + eb) as nat);
        assert(num == m * d + 0);
        lemma_fundamental_div_mod_converse(num as int, d as int, m as int, 0);
    } else {
        let p = pow2((-k) as nat);
        lemma_pow2_adds(ea + eb, (-k) as nat);
        assert(num * p == m * den + 0) by (nonlinear_arith)
            requires
                num == m * pow2(ea + eb),
                den == pow2(ea + eb) * p,
        ;
        lemma_fundamental_div_mod_converse((num * p) as int, den as int, m as int, 0);
    }
}

/// The sum of two finite numbers given by their parts, the first with the
/// larger scale.
fn add_ordered(na: bool, ma: u32, ea: u32, nb: bool, mb: u32, eb: u32) -> (r: Single)
    requires
        ma < 0x100_0000,
        mb < 0x100_0000,
        eb <= ea <= 253,
        ea > 0 ==> ma >= 0x80_0000,
    ensures
        r@ == sum(
            Value::Finite { negative: na, units: (ma as nat) * pow2(ea as nat) },
            Value::Finite { negative: nb, units: (mb as nat) * pow2(eb as nat) },
        ),
        !(r@ is Nan),
{
    reveal(sum);
    let d: u32 = ea - eb;
    let ghost ua = (ma as nat) * pow2(ea as nat);
    let ghost ub = (mb as nat) * pow2(eb as nat);
    let ghost t = signed_units(na, ua) + signed_units(nb, ub);
    proof {
        lemma2_to64();
        lemma_pow2_adds(d as nat, eb as nat);
        lemma_pow2_pos(eb as nat);
        lemma_pow2_pos(d as nat);
    }
    if d >= 64 {
        // The smaller operand lies wholly below the bits that are kept.
        let top: u128 = (ma as u128) * 0x100_0000_0000;
        let cut: bool = mb != 0;
        let q: u128 = if cut && na != nb {
            (top - 1) as u128
        } else {
            top
        };
        let k: i32 = (ea as i32) - 40;
        proof {
            lemma_far_sum(na, ma as nat, ea as nat, nb, mb as nat, eb as nat);
            lemma_bit_length_bounds(q as nat);
            if bit_length(q as nat) < 25 {
                lemma_pow2_strictly_increases(bit_length(q as nat), 25);
            }
        }
        return round_pack(na, q, cut, k, Ghost(abs_nat(t)), Ghost(1));
    }
    proof {
        if d < 63 {
            lemma_pow2_strictly_increases(d as nat, 63);
        }
        lemma2_to64_rest();
    }
    let scale: u128 = crate::rounding::power_of_two(d);
    assert(ma * scale < 0x100_0000 * 0x8000_0000_0000_0000) by (nonlinear_arith)
        requires
            ma < 0x100_0000,
            0 < scale <= 0x8000_0000_0000_0000,
    ;
    let a: u128 = (ma as u128) * scale;
    let b: u128 = mb as u128;
    proof {
        assert(ua == a * pow2(eb as nat)) by (nonlinear_arith)
            requires
                ua == (ma as nat) * pow2(ea as nat),
                pow2(ea as nat) == pow2(d as nat) * pow2(eb as nat),
                a == ma * pow2(d as nat),
        ;
    }
    if na == nb {
        let total: u128 = a + b;
        proof {
            assert(abs_nat(t) == total * pow2(eb as nat)) by (nonlinear_arith)
                requires
                    abs_nat(t) == a * pow2(eb as nat) + b * pow2(eb as nat),
                    total == a + b,
            ;
            lemma_near_sum(total as nat, eb as nat, abs_nat(t));
            if total == 0 {
                assert(a * pow2(eb as nat) == 0 && b * pow2(eb as nat) == 0) by (nonlinear_arith)
                    requires
                        a == 0,
                        b == 0,
                ;
            } else {
                assert(total * pow2(eb as nat) > 0) by (nonlinear_arith)
                    requires
                        total > 0,
                        pow2(eb as nat) > 0,
                ;
            }
        }
        if total == 0 {
            return Single::zero(na);
        }
        return round_pack(na, total, false, eb as i32, Ghost(abs_nat(t)), Ghost(1));
    }
    if a == b {
        return Single::zero(false);
    }
    let (negative, gap): (bool, u128) = if a > b {
        (na, (a - b) as u128)
    } else {
        (nb, (b - a) as u128)
    };
    proof {
        let p = pow2(eb as nat);
        assert(a > b ==> a * p - b * p == (a - b) * p && (a - b) * p > 0) by (nonlinear_arith)
            requires
                p > 0,
        ;
        assert(a < b ==> b * p - a * p == (b - a) * p && (b - a) * p > 0) by (nonlinear_arith)
            requires
                p > 0,
        ;
        lemma_near_sum(gap as nat, eb as nat, abs_nat(t));
    }
    round_pack(negative, gap, false, eb as i32, Ghost(abs_nat(t)), Ghost(1))
}

/// The magnitude of an integer.
pub open spec fn abs_nat(t: int) -> nat {
    if t < 0 {
        (-t) as nat
    } else {
        t as nat
    }
}

/// An exact count `m * 2^e`, as a quotient truncated at scale 2^e.
pub proof fn lemma_near_sum(m: nat, e: nat, total: nat)
    requires
        total == m * pow2(e),
    ensures
        truncates(m, false, e as int, total, 1),
{
    lemma_pow2_pos(e);
    lemma_fundamental_div_mod_converse(total as int, (1 * pow2(e)) as int, m as int, 0);
}

/// Where two numbers differ in scale by 64 or more, their sum is the larger
/// one's significand, cut 40 bits below its end, with the smaller operand
/// felt only through the sticky flag and, where the signs differ, a borrow.
pub proof fn lemma_far_sum(na: bool, ma: nat, ea: nat, nb: bool, mb: nat, eb: nat)
    requires
        0x80_0000 <= ma < 0x100_0000,
        mb < 0x100_0000,
        eb + 64 <= ea,
    ensures
        ({
            let t = signed_units(na, ma * pow2(ea)) + signed_units(nb, mb * pow2(eb));
            let top = ma * 0x100_0000_0000;
            let q = if mb != 0 && na != nb {
                (top - 1) as nat
            } else {
                top
            };
            &&& t != 0
            &&& (t < 0) == na
            &&& q >= 0x4000_0000_0000_0000
            &&& truncates(q, mb != 0, ea - 40, abs_nat(t), 1)
        }),
{
    lemma2_to64();
    lemma2_to64_rest();
    let d = (ea - eb) as nat;
    let k = (ea - 40) as nat;
    let c = (d - 40) as nat;
    let pe = pow2(eb);
    let pc = pow2(c);
    lemma_pow2_pos(eb);
    lemma_pow2_pos(c);
    lemma_pow2_adds(c, eb);
    lemma_pow2_adds(40, k);
    if 24 < c {
        lemma_pow2_strictly_increases(24, c);
    }
    assert(mb < pc);
    let pk = pow2(k);
    assert(pk == pc * pe);
    let top = ma * 0x100_0000_0000;
    let ua = ma * pow2(ea);
    let ub = mb * pe;
    assert(ua == top * pk) by (nonlinear_arith)
        requires
            ua == ma * pow2(ea),
            pow2(ea) == 0x100_0000_0000 * pk,
            top == ma * 0x100_0000_0000,
    ;
    assert(ub < pk) by (nonlinear_arith)
        requires
            ub == mb * pe,
            mb < pc,
            pk == pc * pe,
            pe > 0,
    ;
    assert(top * pk >= pk) by (nonlinear_arith)
        requires
            top >= 1,
            pk > 0,
    ;
    assert((ub == 0) == (mb == 0)) by (nonlinear_arith)
        requires
            ub == mb * pe,
            pe > 0,
    ;
    let t = signed_units(na, ua) + signed_units(nb, ub);
    lemma_pow2_pos(k);
    if na == nb {
        assert(abs_nat(t) == top * pk + ub);
        lemma_fundamental_div_mod_converse(abs_nat(t) as int, (1 * pk) as int, top as int, ub as int);
    } else if mb == 0 {
        assert(abs_nat(t) == top * pk + 0);
        lemma_fundamental_div_mod_converse(abs_nat(t) as int, (1 * pk) as int, top as int, 0);
    } else {
        assert(abs_nat(t) == (top - 1) * pk + (pk - ub)) by (nonlinear_arith)
            requires
                abs_nat(t) == top * pk - ub,
        ;
        lemma_fundamental_div_mod_converse(
            abs_nat(t) as int,
            (1 * pk) as int,
            (top - 1) as int,
            (pk - ub) as int,
        );
    }
}

/// The ratio of two exact counts, as the quotient of the significands with
/// fifty more bits, truncated at scale 2^(ea - eb + 99).
pub proof fn lemma_quotient_truncates(ma: nat, ea: nat, mb: nat, eb: nat)
    requires
        mb > 0,
    ensures
        truncates(
            (ma * pow2(50)) / mb,
            (ma * pow2(50)) % mb != 0,
            ea - eb + 99,
            (ma * pow2(ea)) * pow2(149),
            mb * pow2(eb),
        ),
{
    let k = ea - eb + 99;
    let a = ma * pow2(50);
    let num = (ma * pow2(ea)) * pow2(149);
    let den = mb * pow2(eb);
    lemma_pow2_pos(eb);
    lemma_pow2_pos(50);
    if k >= 0 {
        // num == a * 2^(ea + 99) and den * 2^k == mb * 2^(ea + 99).
        let c = pow2(ea + 99);
        lemma_pow2_pos(ea + 99);
        lemma_pow2_adds(50, ea + 99);
        lemma_pow2_adds(ea, 149);
        lemma_pow2_adds(eb, k as nat);
        assert(num == a * c) by (nonlinear_arith)
            requires
                num == (ma * pow2(ea)) * pow2(149),
                a == ma * pow2(50),
                pow2(ea) * pow2(149) == pow2(50) * c,
        ;
        assert(den * pow2(k as nat) == mb * c) by (nonlinear_arith)
            requires
                den == mb * pow2(eb),
                pow2(eb) * pow2(k as nat) == c,
        ;
        lemma_common_factor(a, mb, c);
    } else {
        // num * 2^(-k) == a * 2^eb and den == mb * 2^eb.
        let c = pow2(eb);
        let p = pow2((-k) as nat);
        lemma_pow2_adds(ea, 149);
        lemma_pow2_adds(ea + 149, (-k) as nat);
        lemma_pow2_adds(50, eb);
        assert(num * p == a * c) by (nonlinear_arith)
            requires
                num == (ma * pow2(ea)) * pow2(149),
                a == ma * pow2(50),
                (pow2(ea) * pow2(149)) * p == pow2(50) * c,
        ;
        lemma_common_factor(a, mb, c);
    }
}

/// The difference of a smaller from a larger finite number is not below
/// zero, and that of a larger from a smaller one is below zero: rounding
/// does not lose the sign of a difference.
pub proof fn lemma_difference_sign(a: Value, b: Value)
    requires
        a is Finite,
        b is Finite,
    ensures
        less(a, b) ==> less(difference(a, b), zero_value()),
        !less(a, b) ==> !less(difference(a, b), zero_value()),
        !(difference(a, b) is Nan),
{
    reveal(sum);
    lemma2_to64();
    let t = signed_units(a->Finite_negative, a->units) - signed_units(b->Finite_negative, b->units);
    assert(t == signed_units(a->Finite_negative, a->units) + signed_units(
        negation(b)->Finite_negative,
        negation(b)->units,
    ));
    if t < 0 {
        assert(1 * pow2(0) <= abs_nat(t)) by (nonlinear_arith)
            requires
                pow2(0) == 1,
                abs_nat(t) >= 1,
        ;
        lemma_round_barrier(abs_nat(t), 1, 0);
    }
}

/// Adding a finite number to an infinity, or subtracting it, leaves the infinity.
pub proof fn lemma_infinite_absorbs(a: Value, b: Value)
    requires
        a is Infinite,
        b is Finite,
    ensures
        sum(a, b) == a,
        difference(a, b) == a,
{
    reveal(sum);
}

/// Where twice a radius is at most a bound, the bound less the radius is
/// at least the radius: a disk that fits can be put against either edge.
pub proof fn lemma_room_for_radius(radius: Value, bound: Value)
    requires
        encodable(radius),
        radius is Finite,
        at_most(zero_value(), radius),
        bound is Finite,
        at_most(sum(radius, radius), bound),
    ensures
        at_most(radius, difference(bound, radius)),
{
    reveal(sum);
    lemma2_to64();
    let ur = radius->units;
    let bits = choose|bits: u32| decode(bits) == radius;
    let (m, e) = lemma_units_form((bits % 0x8000_0000) as nat);
    assert(ur == m * pow2(e));
    let sb = signed_units(bound->Finite_negative, bound->units);
    if ur > 0 {
        assert(!radius->Finite_negative);
        // Twice a representable count is representable, so the sum is exact
        // or larger.
        lemma_pow2_unfold(e + 1);
        assert(m * pow2(e + 1) == 2 * ur) by (nonlinear_arith)
            requires
                ur == m * pow2(e),
                pow2(e + 1) == 2 * pow2(e),
        ;
        lemma_round_barrier(2 * ur, m, e + 1);
        assert(sb >= 2 * ur);
        let t = sb - ur;
        assert(t == signed_units(bound->Finite_negative, bound->units) + signed_units(
            negation(radius)->Finite_negative,
            negation(radius)->units,
        ));
        lemma_round_barrier(t as nat, m, e);
    } else {
        let t = sb;
        assert(t == signed_units(bound->Finite_negative, bound->units) + signed_units(
            negation(radius)->Finite_negative,
            negation(radius)->units,
        ));
        assert(sb >= 0);
    }
}

/// A finite value that a bit pattern encodes counts fewer than 2^277
/// units, a significand below 2^24 times a power of two.
pub proof fn lemma_encodable_form(v: Value) -> (r: (nat, nat))
    requires
        encodable(v),
        v is Finite,
    ensures
        v->units == r.0 * pow2(r.1),
        r.0 < 0x100_0000,
        v->units < pow2(277),
{
    let bits = choose|bits: u32| decode(bits) == v;
    let magnitude = (bits % 0x8000_0000) as nat;
    let r = lemma_units_form(magnitude);
    lemma_units_bounds(magnitude);
    lemma2_to64();
    if magnitude >= 0x80_0000 {
        if 23 + magnitude / 0x80_0000 < 277 {
            lemma_pow2_strictly_increases((23 + magnitude / 0x80_0000) as nat, 277);
        }
    } else {
        lemma_pow2_strictly_increases(23, 277);
    }
    r
}

/// One is the identity of the product: `a * 1` is `a`, for every value
/// that a bit pattern encodes.
pub proof fn law_product_one(a: Value)
    requires
        encodable(a),
    ensures
        product(a, one_value()) == a,
{
    reveal(product);
    lemma2_to64();
    lemma_units_bounds(0x3f80_0000);
    assert(one_value() == (Value::Finite { negative: false, units: 0x80_0000 * pow2(126) }));
    lemma_pow2_adds(23, 126);
    lemma_pow2_pos(149);
    if a is Finite {
        let (m, e) = lemma_encodable_form(a);
        let u = a->units;
        lemma_round_scaling(u, 1, pow2(149));
        lemma_round_exact_units(m, e);
        assert(1 * pow2(149) == pow2(149));
    }
}

/// A count with a significand below 2^24 is its own rounding.
pub proof fn lemma_round_exact_units(m: nat, e: nat)
    requires
        m < 0x100_0000,
    ensures
        crate::rounding::rounded_units(m * pow2(e), 1) == m * pow2(e),
{
    lemma_round_barrier(m * pow2(e), m, e);
    // What rounds up from a representable count stays at it: the count is
    // a multiple of the rounding unit, so nothing is cut off.
    lemma2_to64();
    let x = m * pow2(e);
    if m == 0 {
        assert(x == 0) by (nonlinear_arith)
            requires
                x == m * pow2(e),
                m == 0,
        ;
        lemma_zero_ratio(1);
    } else {
        lemma_pow2_pos(e);
        vstd::arithmetic::div_mod::lemma_fundamental_div_mod_converse(
            x as int,
            (1 * pow2(e)) as int,
            m as int,
            0,
        );
        assert(truncates(m, false, e as int, x, 1));
        crate::rounding::lemma_packed_is_rounded(m, false, e as int, x, 1);
        lemma_bit_length_bounds(m);
        let l = bit_length(m);
        if l > 25 {
            lemma_pow2_strictly_increases(24, (l - 1) as nat);
        }
        assert(l <= 24);
        let s = crate::rounding::shift_for(l, e as int);
        lemma_pow2_adds((e - s) as nat, s);
        assert(m * pow2((e - s) as nat) * pow2(s) == m * pow2(e)) by (nonlinear_arith)
            requires
                pow2(e) == pow2((e - s) as nat) * pow2(s),
        ;
    }
}

/// Zero is the identity of the sum: `a + 0` is `a`, for every value that a
/// bit pattern encodes, but that a zero may change its sign.
pub proof fn law_sum_zero(a: Value, zero: Value)
    requires
        encodable(a),
        is_zero(zero),
    ensures
        is_zero(a) ==> is_zero(sum(a, zero)),
        !is_zero(a) ==> sum(a, zero) == a,
{
    reveal(sum);
    if a is Finite {
        let (m, e) = lemma_encodable_form(a);
        lemma_round_exact_units(m, e);
    }
}

/// The square of a zero is the positive zero, whatever the zero's sign.
pub proof fn law_square_of_zero(a: Value)
    requires
        is_zero(a),
    ensures
        product(a, a) == zero_value(),
{
    reveal(product);
    lemma_pow2_pos(149);
    assert(0nat * 0nat == 0) by (nonlinear_arith);
    lemma_zero_ratio(pow2(149));
    lemma_pow2_pos(277);
}

/// A zero times a finite value is a zero.
pub proof fn law_zero_times_finite(zero: Value, b: Value)
    requires
        is_zero(zero),
        b is Finite,
    ensures
        is_zero(product(zero, b)),
{
    reveal(product);
    lemma_pow2_pos(149);
    assert(0nat * b->units == 0) by (nonlinear_arith);
    lemma_zero_ratio(pow2(149));
    lemma_pow2_pos(277);
}

/// Every sum, difference, product and quotient of values that bit
/// patterns encode is such a value.
pub proof fn law_results_encodable(a: Value, b: Value)
    requires
        encodable(a),
        encodable(b),
    ensures
        encodable(sum(a, b)),
        encodable(difference(a, b)),
        encodable(product(a, b)),
        encodable(quotient(a, b)),
{
    lemma_negation_encodable(b);
    lemma_sum_encodable(a, b);
    lemma_sum_encodable(a, negation(b));
    lemma_product_encodable(a, b);
    lemma_quotient_encodable(a, b);
}

/// Each zero is a value that a bit pattern encodes.
pub proof fn lemma_zero_encodable(zero: Value)
    requires
        is_zero(zero),
    ensures
        encodable(zero),
{
    lemma_special_values();
}

/// The special values are encoded by these bit patterns.
proof fn lemma_special_values()
    ensures
        decode(QUIET_NAN_BITS) is Nan,
        decode(0) == (Value::Finite { negative: false, units: 0 }),
        decode(0x8000_0000) == (Value::Finite { negative: true, units: 0 }),
        decode(0x7f80_0000) == (Value::Infinite { negative: false }),
        decode(0xff80_0000) == (Value::Infinite { negative: true }),
{
}

/// The negation of a value that a bit pattern encodes is such a value.
proof fn lemma_negation_encodable(b: Value)
    requires
        encodable(b),
    ensures
        encodable(negation(b)),
{
    let bits = choose|bits: u32| decode(bits) == b;
    let flipped: u32 = if bits >= 0x8000_0000 {
        (bits - 0x8000_0000) as u32
    } else {
        (bits + 0x8000_0000) as u32
    };
    assert(decode(flipped) == negation(b));
}

/// Every product is a value that a bit pattern encodes.
proof fn lemma_product_encodable(a: Value, b: Value)
    requires
        encodable(a),
        encodable(b),
    ensures
        encodable(product(a, b)),
{
    reveal(product);
    lemma_special_values();
    lemma_pow2_pos(149);
    if a is Finite && b is Finite {
        lemma_round_encodable(
            a->Finite_negative != b->Finite_negative,
            a->units * b->units,
            pow2(149),
        );
    }
}

/// Every quotient is a value that a bit pattern encodes.
proof fn lemma_quotient_encodable(a: Value, b: Value)
    requires
        encodable(a),
        encodable(b),
    ensures
        encodable(quotient(a, b)),
{
    reveal(quotient);
    lemma_special_values();
    if a is Finite && b is Finite && b->units > 0 {
        lemma_round_encodable(
            a->Finite_negative != b->Finite_negative,
            a->units * pow2(149),
            b->units,
        );
    }
}

/// Every sum is a value that a bit pattern encodes, whatever is added.
pub proof fn lemma_sum_encodable(a: Value, b: Value)
    ensures
        encodable(sum(a, b)),
{
    reveal(sum);
    lemma_special_values();
    if a is Finite && b is Finite {
        let t = signed_units(a->Finite_negative, a->units) + signed_units(
            b->Finite_negative,
            b->units,
        );
        lemma_round_encodable(t < 0, abs_nat(t), 1);
    }
}

/// The sum does not feel the order of its operands.
pub proof fn law_sum_commutes(a: Value, b: Value)
    ensures
        sum(a, b) == sum(b, a),
{
    reveal(sum);
}

/// The product does not feel the order of its operands.
pub proof fn law_product_commutes(a: Value, b: Value)
    ensures
        product(a, b) == product(b, a),
{
    reveal(product);
    if a is Finite && b is Finite {
        assert(a->units * b->units == b->units * a->units) by (nonlinear_arith);
    }
}

/// The square of a value: not negative, and finite only for a finite value.
pub proof fn lemma_square_value(x: Value)
    ensures
        x is Nan ==> product(x, x) is Nan,
        x is Infinite ==> product(x, x) == (Value::Infinite { negative: false }),
        x is Finite ==> product(x, x) == round(false, x->units * x->units, pow2(149)),
{
    reveal(product);
}

/// The sum of two values that are not negative: finite only where both
/// are, and then the rounded sum of their counts.
pub proof fn lemma_sum_of_squares(p: Value, q: Value)
    requires
        p is Finite ==> !p->Finite_negative,
        q is Finite ==> !q->Finite_negative,
    ensures
        sum(p, q) is Finite ==> p is Finite && q is Finite,
        p is Finite && q is Finite ==> sum(p, q) == if p->units + q->units == 0 {
            zero_value()
        } else {
            round(false, p->units + q->units, 1)
        },
{
    reveal(sum);
}

/// The quotient of two finite values, the second not zero, is their
/// rounded ratio.
pub proof fn lemma_quotient_value(a: Value, b: Value)
    requires
        a is Finite,
        b is Finite,
        b->units > 0,
    ensures
        quotient(a, b) == round(
            a->Finite_negative != b->Finite_negative,
            a->units * pow2(149),
            b->units,
        ),
{
    reveal(quotient);
}

/// A zero divided by a value that is neither zero nor not a number is a zero.
pub proof fn law_zero_quotient(zero: Value, b: Value)
    requires
        is_zero(zero),
        !(b is Nan),
        !is_zero(b),
    ensures
        is_zero(quotient(zero, b)),
{
    reveal(quotient);
    if b is Finite {
        assert(0nat * pow2(149) == 0) by (nonlinear_arith);
        lemma_zero_ratio(b->units);
        lemma_pow2_pos(277);
    }
}

/// The difference of a finite value from itself is a zero.
pub proof fn law_difference_of_equals(v: Value)
    requires
        v is Finite,
    ensures
        is_zero(difference(v, v)),
{
    reveal(sum);
}

/// The sum of two positive finite values is positive: finite and not
/// zero, or infinite.
pub proof fn law_positive_sum(a: Value, b: Value)
    requires
        a is Finite,
        b is Finite,
        less(zero_value(), a),
        less(zero_value(), b),
    ensures
        !(sum(a, b) is Nan),
        !is_zero(sum(a, b)),
{
    reveal(sum);
    lemma2_to64();
    let t = a->units + b->units;
    assert(1 * pow2(0) <= t) by (nonlinear_arith)
        requires
            pow2(0) == 1,
            t >= 1,
    ;
    lemma_round_barrier(t, 1, 0);
}

/// Twice a count with a significand below 2^24 is its own rounding.
proof fn lemma_double_exact(m: nat, e: nat)
    requires
        m < 0x100_0000,
    ensures
        crate::rounding::rounded_units(2 * (m * pow2(e)), 1) == 2 * (m * pow2(e)),
{
    lemma_pow2_unfold(e + 1);
    assert(m * pow2(e + 1) == 2 * (m * pow2(e))) by (nonlinear_arith)
        requires
            pow2(e + 1) == 2 * pow2(e),
    ;
    lemma_round_exact_units(m, e + 1);
}

/// Doubling is exact: two times a finite value counts twice its units,
/// where that is finite.
pub proof fn law_product_two(x: Value)
    requires
        encodable(x),
        x is Finite,
        product(two_value(), x) is Finite,
    ensures
        product(two_value(), x) == (Value::Finite {
            negative: x->Finite_negative,
            units: 2 * x->units,
        }),
{
    reveal(product);
    lemma2_to64();
    lemma_pow2_adds(23, 127);
    lemma_pow2_unfold(150);
    lemma_pow2_pos(149);
    assert(two_value() == (Value::Finite { negative: false, units: 0x80_0000 * pow2(127) }));
    let u = x->units;
    let (m, e) = lemma_encodable_form(x);
    assert((0x80_0000 * pow2(127)) * u == (2 * u) * pow2(149)) by (nonlinear_arith)
        requires
            0x80_0000 * pow2(127) == 2 * pow2(149),
    ;
    lemma_round_scaling(2 * u, 1, pow2(149));
    assert(1 * pow2(149) == pow2(149));
    lemma_double_exact(m, e);
}

/// A positive finite value added to itself counts twice its units, where
/// that is finite.
pub proof fn law_sum_with_itself(x: Value)
    requires
        encodable(x),
        x is Finite,
        less(zero_value(), x),
        sum(x, x) is Finite,
    ensures
        sum(x, x) == (Value::Finite { negative: false, units: 2 * x->units }),
{
    reveal(sum);
    let (m, e) = lemma_encodable_form(x);
    lemma_double_exact(m, e);
}

/// The factor two cancels: twice a value divided by twice a positive mass,
/// times one, is the value divided by the mass, where the doubled values
/// are finite.
pub proof fn law_doubling_cancels(x: Value, mass: Value)
    requires
        encodable(x),
        encodable(mass),
        x is Finite,
        mass is Finite,
        less(zero_value(), mass),
        product(two_value(), x) is Finite,
        sum(mass, mass) is Finite,
    ensures
        product(quotient(product(two_value(), x), sum(mass, mass)), one_value()) == quotient(
            x,
            mass,
        ),
{
    law_product_two(x);
    law_sum_with_itself(mass);
    let twice = product(two_value(), x);
    let both = sum(mass, mass);
    lemma_quotient_value(twice, both);
    lemma_quotient_value(x, mass);
    lemma_pow2_pos(149);
    assert((2 * x->units) * pow2(149) == (x->units * pow2(149)) * 2) by (nonlinear_arith);
    assert(2 * mass->units == mass->units * 2);
    lemma_round_scaling(x->units * pow2(149), mass->units, 2);
    lemma_special_values();
    lemma_double_encodable(x);
    lemma_sum_encodable(mass, mass);
    lemma_quotient_encodable(twice, both);
    law_product_one(quotient(twice, both));
}

/// Twice a value that a bit pattern encodes is such a value.
proof fn lemma_double_encodable(x: Value)
    requires
        encodable(x),
    ensures
        encodable(product(two_value(), x)),
{
    assert(decode(crate::single::TWO_BITS) == two_value());
    lemma_product_encodable(two_value(), x);
}

/// Whether a finite value is no larger in magnitude than another.
pub open spec fn no_larger(a: Value, b: Value) -> bool {
    a is Finite && b is Finite && a->units <= b->units
}

/// A finite sum has finite operands.
pub proof fn lemma_sum_finite(a: Value, b: Value)
    requires
        sum(a, b) is Finite,
    ensures
        a is Finite,
        b is Finite,
{
    reveal(sum);
}

/// A finite product with a finite factor has a finite second factor.
pub proof fn lemma_product_finite(a: Value, b: Value)
    requires
        product(a, b) is Finite,
        a is Finite,
    ensures
        b is Finite,
{
    reveal(product);
}

/// A value between zero and one is finite and counts at most the units of one.
pub proof fn lemma_fraction_units(e: Value)
    requires
        at_most(zero_value(), e),
        at_most(e, one_value()),
    ensures
        e is Finite,
        e->units <= pow2(149),
{
    lemma2_to64();
    lemma_pow2_adds(23, 126);
    lemma_units_bounds(0x3f80_0000);
    assert(one_value() == (Value::Finite { negative: false, units: 0x80_0000 * pow2(126) }));
}

/// The product keeps the order of magnitudes: smaller factors give a
/// product that is no larger, and finite where the larger one is.
pub proof fn lemma_product_monotonic(a1: Value, a2: Value, b1: Value, b2: Value)
    requires
        no_larger(a1, b1),
        no_larger(a2, b2),
        product(b1, b2) is Finite,
    ensures
        no_larger(product(a1, a2), product(b1, b2)),
        product(a1, a2)->Finite_negative == (a1->Finite_negative != a2->Finite_negative),
        product(b1, b2)->Finite_negative == (b1->Finite_negative != b2->Finite_negative),
{
    reveal(product);
    lemma_pow2_pos(149);
    assert(a1->units * a2->units <= b1->units * b2->units) by (nonlinear_arith)
        requires
            a1->units <= b1->units,
            a2->units <= b2->units,
    ;
    lemma_round_monotonic(a1->units * a2->units, b1->units * b2->units, pow2(149));
}

/// The sum of values that are not negative keeps the order of
/// magnitudes, and is finite where the larger one is.
pub proof fn lemma_sum_monotonic(a1: Value, a2: Value, b1: Value, b2: Value)
    requires
        no_larger(a1, b1),
        no_larger(a2, b2),
        !a1->Finite_negative,
        !a2->Finite_negative,
        !b1->Finite_negative,
        !b2->Finite_negative,
        sum(b1, b2) is Finite,
    ensures
        no_larger(sum(a1, a2), sum(b1, b2)),
        !sum(a1, a2)->Finite_negative,
        !sum(b1, b2)->Finite_negative,
{
    lemma_sum_of_squares(a1, a2);
    lemma_sum_of_squares(b1, b2);
    lemma_round_monotonic(a1->units + a2->units, b1->units + b2->units, 1);
}

/// A bounce does not speed up: a finite velocity, reversed and scaled by a
/// factor between zero and one, is no larger than before.
pub proof fn law_bounce_slows(v: Value, factor: Value)
    requires
        encodable(v),
        v is Finite,
        at_most(zero_value(), factor),
        at_most(factor, one_value()),
    ensures
        no_larger(product(negation(v), factor), v),
{
    reveal(product);
    lemma_fraction_units(factor);
    let (m, e) = lemma_encodable_form(v);
    lemma_pow2_pos(149);
    assert(v->units * factor->units <= (m * pow2(e)) * pow2(149)) by (nonlinear_arith)
        requires
            v->units == m * pow2(e),
            factor->units <= pow2(149),
    ;
    lemma_round_upper(v->units * factor->units, pow2(149), m, e);
}

/// Half of a finite value is finite and no larger.
pub proof fn law_half_is_smaller(v: Value)
    requires
        encodable(v),
        v is Finite,
    ensures
        no_larger(product(half_value(), v), v),
        product(half_value(), v)->Finite_negative == v->Finite_negative,
{
    reveal(product);
    lemma2_to64();
    lemma_pow2_adds(23, 125);
    lemma_pow2_unfold(149);
    lemma_units_bounds(0x3f00_0000);
    assert(half_value() == (Value::Finite { negative: false, units: 0x80_0000 * pow2(125) }));
    let (m, e) = lemma_encodable_form(v);
    lemma_pow2_pos(149);
    assert(half_value()->units * v->units <= (m * pow2(e)) * pow2(149)) by (nonlinear_arith)
        requires
            v->units == m * pow2(e),
            half_value()->units <= pow2(149),
    ;
    lemma_round_upper(half_value()->units * v->units, pow2(149), m, e);
}

impl Single {
    /// Not a number.
    pub fn nan() -> (r: Single)
        ensures
            r@ is Nan,
            r.bits == QUIET_NAN_BITS,
    {
        Single { bits: QUIET_NAN_BITS }
    }

    /// The infinity of the given sign.
    pub fn infinity(negative: bool) -> (r: Single)
        ensures
            r@ == (Value::Infinite { negative }),
    {
        if negative {
            Single { bits: SIGN_BIT + INFINITY_BITS }
        } else {
            Single { bits: INFINITY_BITS }
        }
    }

    /// The zero of the given sign.
    pub fn zero(negative: bool) -> (r: Single)
        ensures
            r@ == (Value::Finite { negative, units: 0 }),
    {
        if negative {
            Single { bits: SIGN_BIT }
        } else {
            Single { bits: 0 }
        }
    }

    /// Whether this is one of the two zeros.
    pub fn is_zero(self) -> (r: bool)
        ensures
            r == (self@ matches Value::Finite { units, .. } && units == 0),
    {
        proof {
            if self.bits % 0x8000_0000 < 0x7f80_0000 {
                lemma_magnitude_order((self.bits % 0x8000_0000) as nat, 0);
            }
        }
        self.bits % SIGN_BIT == 0
    }

    /// `self + rhs`, rounded to nearest.
    pub fn add(self, rhs: Single) -> (r: Single)
        ensures
            r@ == sum(self@, rhs@),
            r@ is Nan ==> r.bits == QUIET_NAN_BITS,
    {
        reveal(sum);
        if self.is_nan() || rhs.is_nan() {
            return Single::nan();
        }
        if !self.is_finite() {
            if !rhs.is_finite() && self.is_sign_negative() != rhs.is_sign_negative() {
                return Single::nan();
            }
            return Single::infinity(self.is_sign_negative());
        }
        if !rhs.is_finite() {
            return Single::infinity(rhs.is_sign_negative());
        }
        let (na, ma, ea) = parts(self);
        let (nb, mb, eb) = parts(rhs);
        if ea >= eb {
            add_ordered(na, ma, ea, nb, mb, eb)
        } else {
            add_ordered(nb, mb, eb, na, ma, ea)
        }
    }

    /// `self - rhs`, rounded to nearest.
    pub fn sub(self, rhs: Single) -> (r: Single)
        ensures
            r@ == difference(self@, rhs@),
            r@ is Nan ==> r.bits == QUIET_NAN_BITS,
    {
        self.add(rhs.neg())
    }

    /// `self / rhs`, rounded to nearest.
    pub fn div(self, rhs: Single) -> (r: Single)
        ensures
            r@ == quotient(self@, rhs@),
            r@ is Nan ==> r.bits == QUIET_NAN_BITS,
    {
        reveal(quotient);
        if self.is_nan() || rhs.is_nan() {
            return Single::nan();
        }
        let negative = self.is_sign_negative() != rhs.is_sign_negative();
        if !self.is_finite() {
            if !rhs.is_finite() {
                return Single::nan();
            }
            return Single::infinity(negative);
        }
        if !rhs.is_finite() {
            return Single::zero(negative);
        }
        let (na, ma, ea) = parts(self);
        let (nb, mb, eb) = parts(rhs);
        proof {
            lemma2_to64();
            lemma2_to64_rest();
            lemma_pow2_adds(32, 18);
            lemma_pow2_pos(ea as nat);
            lemma_pow2_pos(eb as nat);
            lemma_pow2_pos(149);
            assert((mb == 0) == ((mb as nat) * pow2(eb as nat) == 0)) by (nonlinear_arith)
                requires
                    pow2(eb as nat) > 0,
            ;
            assert((ma == 0) == ((ma as nat) * pow2(ea as nat) == 0)) by (nonlinear_arith)
                requires
                    pow2(ea as nat) > 0,
            ;
        }
        if mb == 0 {
            if ma == 0 {
                return Single::nan();
            }
            return Single::infinity(negative);
        }
        if ma == 0 {
            proof {
                assert(0nat * pow2(149) == 0) by (nonlinear_arith);
                lemma_zero_ratio((mb as nat) * pow2(eb as nat));
                lemma_pow2_pos(277);
            }
            return Single::zero(negative);
        }
        assert(ma * 0x4_0000_0000_0000 < 0x100_0000 * 0x4_0000_0000_0000) by (nonlinear_arith)
            requires
                ma < 0x100_0000,
        ;
        let wide: u128 = (ma as u128) * 0x4_0000_0000_0000;
        let q: u128 = wide / (mb as u128);
        let cut: bool = wide % (mb as u128) != 0;
        let k: i32 = (ea as i32) - (eb as i32) + 99;
        proof {
            lemma_quotient_truncates(ma as nat, ea as nat, mb as nat, eb as nat);
            // The quotient keeps at least 27 bits.
            assert(q >= 0x400_0000) by {
                lemma_div_is_ordered(0x4_0000_0000_0000, wide as int, mb as int);
                lemma_div_is_ordered_by_denominator(0x4_0000_0000_0000, mb as int, 0x100_0000);
            }
            lemma_bit_length_bounds(q as nat);
            if bit_length(q as nat) < 25 {
                lemma_pow2_strictly_increases(bit_length(q as nat), 25);
            }
        }
        round_pack(
            negative,
            q,
            cut,
            k,
            Ghost(((ma as nat) * pow2(ea as nat)) * pow2(149)),
            Ghost((mb as nat) * pow2(eb as nat)),
        )
    }

    /// `self * rhs`, rounded to nearest.
    pub fn mul(self, rhs: Single) -> (r: Single)
        ensures
            r@ == product(self@, rhs@),
            r@ is Nan ==> r.bits == QUIET_NAN_BITS,
    {
        reveal(product);
        if self.is_nan() || rhs.is_nan() {
            return Single::nan();
        }
        let negative = self.is_sign_negative() != rhs.is_sign_negative();
        if !self.is_finite() || !rhs.is_finite() {
            if self.is_zero() || rhs.is_zero() {
                return Single::nan();
            }
            return Single::infinity(negative);
        }
        let (na, ma, ea) = parts(self);
        let (nb, mb, eb) = parts(rhs);
        assert(ma * mb < 0x100_0000 * 0x100_0000) by (nonlinear_arith)
            requires
                ma < 0x100_0000,
                mb < 0x100_0000,
        ;
        let m: u128 = (ma as u128) * (mb as u128);
        let k: i32 = (ea as i32) + (eb as i32) - 149;
        proof {
            lemma_product_truncates(ma as nat, ea as nat, mb as nat, eb as nat);
            lemma_pow2_pos(149);
        }
        round_pack(
            negative,
            m,
            false,
            k,
            Ghost(((ma as nat) * pow2(ea as nat)) * ((mb as nat) * pow2(eb as nat))),
            Ghost(pow2(149)),
        )
    }
}

} // verus!
