//! The correctly rounded square root of a single-precision number.

use crate::arith::parts;
use crate::rounding::{
    bit_len, bit_length, lemma_bit_length_bounds, lemma_bit_length_scale, lemma_bit_length_unique,
    lemma_encode, power_of_two,
};
use crate::single::{less, zero_value, Single, Value, HIDDEN_BIT, QUIET_NAN_BITS};
use vstd::arithmetic::div_mod::*;
use vstd::arithmetic::mul::*;
use vstd::arithmetic::power2::*;
use vstd::prelude::*;

verus! {

/// Whether `r` is the whole part of the square root of `n`.
pub open spec fn is_floor_root(n: nat, r: nat) -> bool {
    r * r <= n < (r + 1) * (r + 1)
}

/// The whole part of the square root of `n`.
pub open spec fn floor_root(n: nat) -> nat {
    choose|r: nat| is_floor_root(n, r)
}

/// The representable count of units nearest to the square root of `n`,
/// where `n` counts units of 2^-298 (the square of the unit of the result);
/// of two equally near counts the one with the even significand.
pub open spec fn rounded_root_units(n: nat) -> nat {
    let l = bit_length(floor_root(n));
    let s = if l <= 24 {
        0
    } else {
        (l - 24) as nat
    };
    let q = floor_root(n / pow2(2 * s));
    let c = (2 * q + 1) * (2 * q + 1) * pow2(2 * s);
    if 4 * n > c || (4 * n == c && q % 2 == 1) {
        (q + 1) * pow2(s)
    } else {
        q * pow2(s)
    }
}

/// The square root of a value, rounded. No negative number but zero has one.
#[verifier::opaque]
pub open spec fn square_root(a: Value) -> Value {
    match a {
        Value::Nan => Value::Nan,
        Value::Infinite { negative } => if negative {
            Value::Nan
        } else {
            a
        },
        Value::Finite { negative, units } => if units == 0 {
            a
        } else if negative {
            Value::Nan
        } else {
            Value::Finite { negative: false, units: rounded_root_units(units * pow2(149)) }
        },
    }
}

/// Every natural has a whole square root.
pub proof fn lemma_floor_root_exists(n: nat)
    ensures
        is_floor_root(n, floor_root(n)),
    decreases n,
{
    if n == 0 {
        assert((0nat + 1) * (0nat + 1) == 1) by (nonlinear_arith);
        assert(0nat * 0nat == 0) by (nonlinear_arith);
        assert(is_floor_root(0, 0));
    } else {
        lemma_floor_root_exists((n - 1) as nat);
        let r = floor_root((n - 1) as nat);
        if (r + 1) * (r + 1) <= n {
            assert((r + 2) * (r + 2) > (r + 1) * (r + 1)) by (nonlinear_arith);
            assert(is_floor_root(n, r + 1));
        } else {
            assert(is_floor_root(n, r));
        }
    }
}

/// The whole square root is unique.
pub proof fn lemma_floor_root_unique(n: nat, r: nat)
    requires
        is_floor_root(n, r),
    ensures
        floor_root(n) == r,
{
    lemma_floor_root_exists(n);
    let f = floor_root(n);
    assert(f == r) by (nonlinear_arith)
        requires
            r * r <= n < (r + 1) * (r + 1),
            f * f <= n < (f + 1) * (f + 1),
            r >= 0,
            f >= 0,
    ;
}

/// The whole part of the square root of `n`.
pub fn integer_root(n: u64) -> (r: u64)
    requires
        n < 0x1_0000_0000_0000,
    ensures
        is_floor_root(n as nat, r as nat),
        r < 0x100_0000,
{
    let mut r: u64 = 0;
    let mut i: u32 = 24;
    proof {
        lemma2_to64();
    }
    while i > 0
        invariant
            i <= 24,
            r * r <= n < (r + pow2(i as nat)) * (r + pow2(i as nat)),
            n < 0x1_0000_0000_0000,
            r < 0x100_0000,
        decreases i,
    {
        proof {
            lemma2_to64();
            lemma_pow2_unfold(i as nat);
            if i - 1 < 24 {
                lemma_pow2_strictly_increases((i - 1) as nat, 24);
            }
        }
        let half: u64 = power_of_two(i - 1) as u64;
        let candidate: u64 = r + half;
        assert(candidate * candidate < 0x200_0000 * 0x200_0000) by (nonlinear_arith)
            requires
                candidate < 0x200_0000,
        ;
        if candidate * candidate <= n {
            assert(candidate < 0x100_0000) by (nonlinear_arith)
                requires
                    candidate * candidate < 0x1_0000_0000_0000,
            ;
            r = candidate;
        }
        i = i - 1;
    }
    r
}

/// The square root of `big * 4^s`, for `big` of 47 or 48 bits, rounds to the
/// significand `floor_root(big)`, moved up by one where the remainder
/// exceeds it, at the shift `s`.
pub proof fn lemma_root_rounds(big: nat, s: nat, q: nat)
    requires
        0x4000_0000_0000 <= big < 0x1_0000_0000_0000,
        s >= 1,
        is_floor_root(big, q),
    ensures
        0x80_0000 <= q < 0x100_0000,
        rounded_root_units(big * pow2(2 * s)) == if big - q * q > q {
            (q + 1) * pow2(s)
        } else {
            q * pow2(s)
        },
{
    lemma2_to64();
    let n = big * pow2(2 * s);
    let p = pow2(s);
    let pp = pow2(2 * s);
    lemma_pow2_pos(s);
    lemma_pow2_pos(2 * s);
    lemma_pow2_adds(s, s);
    assert(pp == p * p);
    assert(0x80_0000 <= q < 0x100_0000) by (nonlinear_arith)
        requires
            q * q <= big < (q + 1) * (q + 1),
            0x4000_0000_0000 <= big < 0x1_0000_0000_0000,
    ;
    // The whole root of n lies between q * 2^s and (q + 1) * 2^s.
    lemma_floor_root_exists(n);
    let f = floor_root(n);
    assert(q * p <= f < (q + 1) * p) by (nonlinear_arith)
        requires
            f * f <= n < (f + 1) * (f + 1),
            n == big * pp,
            pp == p * p,
            q * q <= big < (q + 1) * (q + 1),
            p > 0,
            f >= 0,
            q >= 0,
    ;
    lemma_pow2_adds(23, s);
    lemma_pow2_adds(24, s);
    assert(0x80_0000 * p <= q * p && (q + 1) * p <= 0x100_0000 * p) by (nonlinear_arith)
        requires
            0x80_0000 <= q < 0x100_0000,
            p > 0,
    ;
    lemma_bit_length_unique(f, 24 + s);
    // Dividing n by 4^s gives big back.
    lemma_fundamental_div_mod_converse(n as int, pp as int, big as int, 0);
    assert(n / pp == big);
    lemma_floor_root_unique(big, q);
    let c = (2 * q + 1) * (2 * q + 1) * pp;
    assert((4 * n > c) == (big - q * q > q) && 4 * n != c) by (nonlinear_arith)
        requires
            n == big * pp,
            c == (2 * q + 1) * (2 * q + 1) * pp,
            pp > 0,
    ;
}

/// The rounded square root never passes a representable count from
/// above: where `n` is at least the square of `m * 2^e`, with `m` below
/// 2^24, its root rounds to at least `m * 2^e`.
pub proof fn lemma_root_lower(n: nat, m: nat, e: nat)
    requires
        m < 0x100_0000,
        (m * pow2(e)) * (m * pow2(e)) <= n,
    ensures
        rounded_root_units(n) >= m * pow2(e),
{
    lemma2_to64();
    lemma_floor_root_exists(n);
    let f = floor_root(n);
    let l = bit_length(f);
    let s: nat = if l <= 24 {
        0
    } else {
        (l - 24) as nat
    };
    let p = pow2(s);
    let pp = pow2(2 * s);
    lemma_pow2_pos(s);
    lemma_pow2_pos(e);
    lemma_pow2_adds(s, s);
    lemma_pow2_pos(2 * s);
    assert(pp == p * p);
    let cut = n / pp;
    lemma_fundamental_div_mod(n as int, pp as int);
    lemma_mod_bound(n as int, pp as int);
    vstd::arithmetic::div_mod::lemma_div_pos_is_pos(n as int, pp as int);
    lemma_floor_root_exists(cut);
    let q = floor_root(cut);
    let y = m * pow2(e);
    assert(rounded_root_units(n) >= q * p) by {
        assert((q + 1) * p >= q * p) by (nonlinear_arith)
            requires
                p > 0,
                q >= 0,
        ;
    }
    if e >= s {
        let c = m * pow2((e - s) as nat);
        lemma_pow2_adds((e - s) as nat, s);
        assert(y == c * p) by (nonlinear_arith)
            requires
                y == m * pow2(e),
                pow2(e) == pow2((e - s) as nat) * p,
                c == m * pow2((e - s) as nat),
        ;
        assert(c * c <= cut) by (nonlinear_arith)
            requires
                (c * p) * (c * p) <= n,
                n == pp * cut + n % pp,
                0 <= n % pp < pp,
                pp == p * p,
                p > 0,
        ;
        assert(c <= q) by (nonlinear_arith)
            requires
                c * c <= cut,
                cut < (q + 1) * (q + 1),
                c >= 0,
                q >= 0,
        ;
        assert(c * p <= q * p) by (nonlinear_arith)
            requires
                c <= q,
                p > 0,
        ;
    } else {
        assert(l == s + 24);
        lemma_bit_length_bounds(f);
        lemma_pow2_adds(23, s);
        lemma_pow2_adds(24, e);
        if 24 + e < 23 + s {
            lemma_pow2_strictly_increases(24 + e, 23 + s);
        }
        let low = 0x80_0000 * p;
        assert(low <= f);
        assert(cut >= 0x80_0000 * 0x80_0000) by (nonlinear_arith)
            requires
                low <= f,
                low == 0x80_0000 * p,
                f * f <= n,
                n == pp * cut + n % pp,
                0 <= n % pp < pp,
                pp == p * p,
                p > 0,
        ;
        assert(q >= 0x80_0000) by (nonlinear_arith)
            requires
                cut >= 0x80_0000 * 0x80_0000,
                cut < (q + 1) * (q + 1),
                q >= 0,
        ;
        assert(y <= 0x100_0000 * pow2(e)) by (nonlinear_arith)
            requires
                y == m * pow2(e),
                m < 0x100_0000,
                pow2(e) > 0,
        ;
        assert(q * p >= 0x80_0000 * p) by (nonlinear_arith)
            requires
                q >= 0x80_0000,
                p > 0,
        ;
    }
}

/// A positive finite square root is that of a positive finite value.
pub proof fn lemma_root_value(v: Value)
    requires
        square_root(v) is Finite,
        less(zero_value(), square_root(v)),
    ensures
        v is Finite,
        !v->Finite_negative,
        v->units > 0,
        square_root(v) == (Value::Finite {
            negative: false,
            units: rounded_root_units(v->units * pow2(149)),
        }),
{
    reveal(square_root);
}

impl Single {
    /// The square root of `self`, rounded to nearest.
    pub fn sqrt(self) -> (r: Single)
        ensures
            r@ == square_root(self@),
            r@ is Nan ==> r.bits == QUIET_NAN_BITS,
    {
        reveal(square_root);
        if self.is_nan() {
            return Single::nan();
        }
        if self.is_zero() {
            return self;
        }
        if self.is_sign_negative() {
            return Single::nan();
        }
        if !self.is_finite() {
            return self;
        }
        let (negative, m, e) = parts(self);
        let la: u32 = bit_len(m as u128);
        let exponent: u32 = e + 149;
        proof {
            lemma2_to64();
            lemma2_to64_rest();
            lemma_bit_length_bounds(m as nat);
            if la > 25 {
                lemma_pow2_strictly_increases(24, (la - 1) as nat);
            }
            assert(1 <= la <= 24);
        }
        let lift: u32 = if (la + exponent) % 2 == 0 {
            48 - la
        } else {
            47 - la
        };
        let s: u32 = (exponent - lift) / 2;
        proof {
            lemma_bit_length_scale(m as nat, lift as nat);
            lemma_bit_length_bounds((m as nat) * pow2(lift as nat));
            lemma_pow2_adds(32, 14);
            lemma_pow2_adds(32, 15);
            lemma_pow2_adds(32, 16);
            lemma_pow2_strictly_increases(lift as nat, 48);
        }
        let big: u64 = (m as u64) * (power_of_two(lift) as u64);
        let q: u64 = integer_root(big);
        proof {
            lemma_root_rounds(big as nat, s as nat, q as nat);
            lemma_pow2_adds(lift as nat, (2 * s) as nat);
            assert((m as nat) * pow2(e as nat) * pow2(149) == (big as nat) * pow2((2 * s) as nat))
                by {
                lemma_pow2_adds(e as nat, 149);
                assert((m as nat) * pow2(e as nat) * pow2(149) == (m as nat) * (pow2(e as nat)
                    * pow2(149))) by (nonlinear_arith);
                assert((m as nat) * pow2(lift as nat) * pow2((2 * s) as nat) == (m as nat) * (pow2(
                    lift as nat,
                ) * pow2((2 * s) as nat))) by (nonlinear_arith);
            }
        }
        let rounded: u32 = if big - q * q > q {
            (q as u32) + 1
        } else {
            q as u32
        };
        proof {
            lemma_encode(s as nat, rounded as nat);
        }
        Single { bits: s * HIDDEN_BIT + rounded }
    }
}

} // verus!
