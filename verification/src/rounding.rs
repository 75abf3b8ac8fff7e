//! Rounding to the nearest single-precision number, ties to even.
//!
//! The exact result of an operation is a ratio of two naturals, counted in
//! units of 2^-149. Representable counts have at most 24 significant bits,
//! so a ratio is rounded to a multiple of the power of two that leaves 24
//! bits before the point.

use crate::single::{
    decode, encodable, magnitude_units, Single, Value, HIDDEN_BIT, INFINITY_BITS, SIGN_BIT,
};
use vstd::arithmetic::div_mod::*;
use vstd::arithmetic::mul::*;
use vstd::arithmetic::power2::*;
use vstd::prelude::*;

verus! {

/// The number of binary digits of `n`; zero has none.
pub open spec fn bit_length(n: nat) -> nat
    decreases n,
{
    if n == 0 {
        0
    } else {
        1 + bit_length(n / 2)
    }
}

/// The exponent of the power of two whose multiples are the representable
/// counts near `num / den`.
pub open spec fn rounding_shift(num: nat, den: nat) -> nat {
    let l = bit_length(num / den);
    if l <= 24 {
        0
    } else {
        (l - 24) as nat
    }
}

/// The representable count of units nearest to `num / den`; of two equally
/// near counts the one with the even significand. The count 2^277 stands
/// for a result too large to be finite.
pub open spec fn rounded_units(num: nat, den: nat) -> nat {
    let s = rounding_shift(num, den);
    let d = den * pow2(s);
    let q = num / d;
    let r = num % d;
    if 2 * r > d || (2 * r == d && q % 2 == 1) {
        (q + 1) * pow2(s)
    } else {
        q * pow2(s)
    }
}

/// The single-precision value nearest to `num / den` units, with the given
/// sign; infinite where the magnitude is too large.
pub open spec fn round(negative: bool, num: nat, den: nat) -> Value {
    let u = rounded_units(num, den);
    if u >= pow2(277) {
        Value::Infinite { negative }
    } else {
        Value::Finite { negative, units: u }
    }
}

/// A positive number lies between the two powers of two that its bit length names.
pub proof fn lemma_bit_length_bounds(n: nat)
    requires
        n > 0,
    ensures
        bit_length(n) >= 1,
        pow2((bit_length(n) - 1) as nat) <= n < pow2(bit_length(n)),
    decreases n,
{
    lemma2_to64();
    if n == 1 {
        assert(bit_length(1) == 1 + bit_length(0));
    } else {
        lemma_bit_length_bounds(n / 2);
        let l = bit_length(n / 2);
        lemma_pow2_unfold(l);
        lemma_pow2_unfold((l + 1) as nat);
    }
}

/// The bit length is the only exponent whose powers of two enclose a number.
pub proof fn lemma_bit_length_unique(n: nat, l: nat)
    requires
        l >= 1,
        pow2((l - 1) as nat) <= n < pow2(l),
    ensures
        bit_length(n) == l,
{
    lemma_pow2_pos((l - 1) as nat);
    lemma_bit_length_bounds(n);
    let b = bit_length(n);
    if b < l {
        if b < l - 1 {
            lemma_pow2_strictly_increases(b, (l - 1) as nat);
        }
    } else if b > l {
        if l < b - 1 {
            lemma_pow2_strictly_increases(l, (b - 1) as nat);
        }
    }
}

/// Dividing by a power of two removes that many binary digits.
pub proof fn lemma_bit_length_shift(n: nat, j: nat)
    ensures
        bit_length(n / pow2(j)) == if bit_length(n) >= j {
            (bit_length(n) - j) as nat
        } else {
            0
        },
    decreases j,
{
    lemma2_to64();
    if j == 0 {
    } else {
        lemma_bit_length_shift(n, (j - 1) as nat);
        let p = pow2((j - 1) as nat);
        lemma_pow2_pos((j - 1) as nat);
        lemma_pow2_unfold(j);
        lemma_div_denominator(n as int, p as int, 2);
        assert(pow2(j) == p * 2);
        assert((n / p) / 2 == n / pow2(j));
    }
}

/// The number of binary digits of `m`.
pub fn bit_len(m: u128) -> (l: u32)
    ensures
        l == bit_length(m as nat),
        l <= 128,
{
    let mut rest: u128 = m;
    let mut l: u32 = 0;
    proof {
        lemma2_to64();
        lemma_pow2_129();
    }
    while rest > 0
        invariant
            bit_length(m as nat) == l + bit_length(rest as nat),
            l <= 128,
            rest * pow2(l as nat) <= m,
            pow2(128) > u128::MAX,
        decreases rest,
    {
        proof {
            let p = pow2(l as nat);
            lemma_pow2_pos(l as nat);
            lemma_pow2_unfold((l + 1) as nat);
            assert((rest / 2) * (2 * p) <= rest * p) by (nonlinear_arith)
                requires
                    p > 0,
                    rest >= 0,
            ;
            if l == 128 {
                assert(rest * p >= p) by (nonlinear_arith)
                    requires
                        rest >= 1,
                        p > 0,
                ;
            }
        }
        rest = rest / 2;
        l = l + 1;
    }
    l
}

/// 2^128 exceeds every `u128`.
pub proof fn lemma_pow2_129()
    ensures
        pow2(128) == 0x1_0000_0000_0000_0000_0000_0000_0000_0000,
        pow2(127) == 0x8000_0000_0000_0000_0000_0000_0000_0000,
{
    lemma2_to64();
    lemma_pow2_adds(64, 64);
    lemma_pow2_adds(64, 63);
    lemma2_to64_rest();
}

/// The power of two with exponent `k`.
pub fn power_of_two(k: u32) -> (p: u128)
    requires
        k < 128,
    ensures
        p == pow2(k as nat),
        p >= 1,
{
    let mut p: u128 = 1;
    let mut i: u32 = 0;
    proof {
        lemma2_to64();
        lemma_pow2_129();
    }
    while i < k
        invariant
            i <= k < 128,
            p == pow2(i as nat),
            pow2(127) == 0x8000_0000_0000_0000_0000_0000_0000_0000,
        decreases k - i,
    {
        proof {
            lemma_pow2_unfold((i + 1) as nat);
            if i + 1 < 127 {
                lemma_pow2_strictly_increases((i + 1) as nat, 127);
            }
        }
        p = p * 2;
        i = i + 1;
    }
    proof {
        lemma_pow2_pos(k as nat);
    }
    p
}

/// Whether `q` is the whole part of `num / den` counted in multiples of 2^k,
/// and `sticky` tells that a fraction was cut off.
pub open spec fn truncates(q: nat, sticky: bool, k: int, num: nat, den: nat) -> bool {
    if k >= 0 {
        &&& q == num / (den * pow2(k as nat))
        &&& sticky == (num % (den * pow2(k as nat)) != 0)
    } else {
        &&& q == (num * pow2((-k) as nat)) / den
        &&& sticky == ((num * pow2((-k) as nat)) % den != 0)
    }
}

/// The rounding shift that a truncated quotient of `l` bits at scale 2^k calls for.
pub open spec fn shift_for(l: nat, k: int) -> nat {
    if l + k - 24 > 0 {
        (l + k - 24) as nat
    } else {
        0
    }
}

/// Multiplying by a power of two adds that many binary digits.
pub proof fn lemma_bit_length_scale(n: nat, i: nat)
    requires
        n > 0,
    ensures
        bit_length(n * pow2(i)) == bit_length(n) + i,
{
    let l = bit_length(n);
    lemma_bit_length_bounds(n);
    lemma_pow2_adds((l - 1) as nat, i);
    lemma_pow2_adds(l, i);
    let p = pow2(i);
    lemma_pow2_pos(i);
    let lo = pow2((l - 1) as nat);
    let hi = pow2(l);
    assert(lo * p <= n * p < hi * p) by (nonlinear_arith)
        requires
            lo <= n < hi,
            p > 0,
    ;
    lemma_bit_length_unique(n * p, l + i);
}

/// The rounding shift of a ratio, from its truncated quotient.
pub proof fn lemma_shift_of_truncated(q: nat, sticky: bool, k: int, num: nat, den: nat)
    requires
        den > 0,
        truncates(q, sticky, k, num, den),
        q > 0 || k < 0,
    ensures
        rounding_shift(num, den) == shift_for(bit_length(q), k),
{
    let f = num / den;
    if k >= 0 {
        let p = pow2(k as nat);
        lemma_pow2_pos(k as nat);
        lemma_div_denominator(num as int, den as int, p as int);
        assert(f / p == q);
        lemma_bit_length_shift(f, k as nat);
        lemma_bit_length_bounds(q);
    } else {
        let j = (-k) as nat;
        let p = pow2(j);
        lemma_pow2_pos(j);
        lemma_div_multiples_vanish_quotient(p as int, num as int, den as int);
        lemma_mul_is_commutative(p as int, num as int);
        lemma_mul_is_commutative(p as int, den as int);
        lemma_mul_nonnegative(num as int, p as int);
        lemma_div_denominator((num * p) as int, den as int, p as int);
        assert(f == q / p);
        lemma_bit_length_shift(q, j);
    }
}

/// Where the quotient is cut at or above the rounding position, nothing is
/// lost: the significand is the quotient scaled up.
pub proof fn lemma_exact_quotient(q: nat, k: int, num: nat, den: nat, s: nat)
    requires
        den > 0,
        k >= s,
        truncates(q, false, k, num, den),
    ensures
        num / (den * pow2(s)) == q * pow2((k - s) as nat),
        num % (den * pow2(s)) == 0,
{
    let pk = pow2(k as nat);
    let ps = pow2(s);
    let pd = pow2((k - s) as nat);
    lemma_pow2_pos(k as nat);
    lemma_pow2_pos(s);
    lemma_pow2_pos((k - s) as nat);
    lemma_pow2_adds(s, (k - s) as nat);
    lemma_mul_strictly_positive(den as int, pk as int);
    lemma_mul_strictly_positive(den as int, ps as int);
    lemma_fundamental_div_mod(num as int, (den * pk) as int);
    assert(num == (den * pk) * q);
    assert((den * pk) * q == (q * pd) * (den * ps) + 0) by (nonlinear_arith)
        requires
            pk == ps * pd,
    ;
    lemma_fundamental_div_mod_converse(num as int, (den * ps) as int, (q * pd) as int, 0);
}

/// Where the quotient is cut below the rounding position, the significand
/// is the quotient cut further, and the remainder compares with half the
/// divisor as the cut-off bits of the quotient compare with half their range.
pub proof fn lemma_cut_quotient(q: nat, sticky: bool, k: int, num: nat, den: nat, s: nat)
    requires
        den > 0,
        s > k,
        truncates(q, sticky, k, num, den),
    ensures
        num / (den * pow2(s)) == q / pow2((s - k) as nat),
        ({
            let d = den * pow2(s);
            let r = num % d;
            let w = q % pow2((s - k) as nat);
            let h = pow2((s - k - 1) as nat);
            &&& 2 * r > d <==> (w > h || (w == h && sticky))
            &&& 2 * r == d <==> (w == h && !sticky)
        }),
{
    let t = (s - k) as nat;
    let pt = pow2(t);
    let ps = pow2(s);
    let h = pow2((t - 1) as nat);
    lemma_pow2_pos(t);
    lemma_pow2_pos(s);
    lemma_pow2_pos((t - 1) as nat);
    lemma_pow2_unfold(t);
    let d = den * ps;
    let r = num % d;
    let w = q % pt;
    lemma_mul_strictly_positive(den as int, ps as int);
    if k >= 0 {
        let pk = pow2(k as nat);
        lemma_pow2_pos(k as nat);
        lemma_pow2_adds(k as nat, t);
        let d0 = den * pk;
        lemma_mul_strictly_positive(den as int, pk as int);
        assert(d0 * pt == d) by (nonlinear_arith)
            requires
                d0 == den * pk,
                d == den * ps,
                ps == pk * pt,
        ;
        lemma_div_denominator(num as int, d0 as int, pt as int);
        lemma_breakdown(num as int, d0 as int, pt as int);
        let r0 = num % d0;
        lemma_mod_bound(num as int, d0 as int);
        assert(r == d0 * w + r0);
        lemma_compare_half(d0, w, r0, h, 1, r, d);
    } else {
        let j = (-k) as nat;
        let pj = pow2(j);
        lemma_pow2_pos(j);
        lemma_pow2_adds(s, j);
        let n = num * pj;
        lemma_mul_nonnegative(num as int, pj as int);
        lemma_div_multiples_vanish_quotient(pj as int, num as int, d as int);
        lemma_mul_is_commutative(pj as int, num as int);
        assert(pj * d == den * pt) by (nonlinear_arith)
            requires
                d == den * ps,
                pt == ps * pj,
        ;
        lemma_div_denominator(n as int, den as int, pt as int);
        assert(num / d == q / pt);
        lemma_truncate_middle(num as int, pj as int, d as int);
        lemma_breakdown(n as int, den as int, pt as int);
        let r0 = n % den;
        lemma_mod_bound(n as int, den as int);
        assert(pj * r == den * w + r0);
        lemma_compare_half(den, w, r0, h, pj, r, d);
    }
}

/// Comparing a remainder `c * r == d0 * w + r0` with half of `c * d == d0 * 2h`.
proof fn lemma_compare_half(d0: nat, w: nat, r0: nat, h: nat, c: nat, r: nat, d: nat)
    requires
        c > 0,
        d0 > 0,
        r0 < d0,
        c * r == d0 * w + r0,
        c * d == d0 * (2 * h),
    ensures
        2 * r > d <==> (w > h || (w == h && r0 != 0)),
        2 * r == d <==> (w == h && r0 == 0),
{
    assert(c * (2 * r) == 2 * (d0 * w) + 2 * r0) by (nonlinear_arith)
        requires
            c * r == d0 * w + r0,
    ;
    assert(c * d == 2 * (d0 * h)) by (nonlinear_arith)
        requires
            c * d == d0 * (2 * h),
    ;
    if w > h {
        assert(d0 * w >= d0 * h + d0) by (nonlinear_arith)
            requires
                w >= h + 1,
        ;
    } else if w < h {
        assert(d0 * w + d0 <= d0 * h) by (nonlinear_arith)
            requires
                w + 1 <= h,
        ;
    }
    assert(2 * r > d <==> c * (2 * r) > c * d) by (nonlinear_arith)
        requires
            c > 0,
    ;
    assert(2 * r == d <==> c * (2 * r) == c * d) by (nonlinear_arith)
        requires
            c > 0,
    ;
}

/// The magnitude bits `s * 2^23 + m` encode `m * 2^s` units, for a
/// significand `m` of 24 bits (or, at the lowest exponent, of fewer).
pub proof fn lemma_encode(s: nat, m: nat)
    requires
        s >= 1 ==> 0x80_0000 <= m,
        m <= 0x100_0000,
    ensures
        s * 0x80_0000 + m < 0x7f80_0000 ==> magnitude_units(s * 0x80_0000 + m) == m * pow2(s),
        s * 0x80_0000 + m >= 0x7f80_0000 <==> m * pow2(s) >= pow2(277),
{
    lemma2_to64();
    let mag = s * 0x80_0000 + m;
    let p = pow2(s);
    lemma_pow2_pos(s);
    if mag < 0x7f80_0000 {
        if m == 0x100_0000 {
            assert(mag / 0x80_0000 == s + 2);
            assert(mag % 0x80_0000 == 0);
            lemma_pow2_unfold(s + 1);
            assert(0x80_0000 * (2 * p) == 0x100_0000 * p) by (nonlinear_arith);
        } else if m >= 0x80_0000 {
            assert(mag / 0x80_0000 == s + 1);
            assert(mag % 0x80_0000 == m - 0x80_0000);
        } else {
            assert(s == 0);
        }
    }
    // Overflow: the count reaches 2^277 exactly when the bits reach infinity.
    lemma_pow2_adds(24, 253);
    lemma_pow2_adds(23, 254);
    if s <= 252 {
        lemma_pow2_strictly_increases(s, 253);
        assert(m * p < 0x100_0000 * pow2(253)) by (nonlinear_arith)
            requires
                m <= 0x100_0000,
                0 < p < pow2(253),
        ;
    } else if s == 253 {
        if m < 0x100_0000 {
            assert(m * p < 0x100_0000 * p) by (nonlinear_arith)
                requires
                    m < 0x100_0000,
                    p > 0,
            ;
        }
    } else {
        if s > 254 {
            lemma_pow2_strictly_increases(254, s);
        }
        assert(m * p >= 0x80_0000 * pow2(254)) by (nonlinear_arith)
            requires
                m >= 0x80_0000,
                p >= pow2(254),
        ;
    }
}

/// The significand that rounding a truncated quotient yields: the quotient
/// cut at the rounding position and moved up by one where the cut-off part
/// is more than half, or is half and the significand is odd.
pub open spec fn packed_significand(q: nat, sticky: bool, k: int) -> nat {
    let s = shift_for(bit_length(q), k);
    let t = s - k;
    if t <= 0 {
        q * pow2((-t) as nat)
    } else {
        let m = q / pow2(t as nat);
        let w = q % pow2(t as nat);
        let h = pow2((t - 1) as nat);
        if w > h || (w == h && (sticky || m % 2 == 1)) {
            m + 1
        } else {
            m
        }
    }
}

/// The significand of a rounded quotient has at most 24 bits, and exactly
/// 24 above the lowest exponent, unless rounding carried it to 2^24.
pub proof fn lemma_packed_significand_bounds(q: nat, sticky: bool, k: int)
    requires
        q > 0 || k < 0,
    ensures
        packed_significand(q, sticky, k) <= 0x100_0000,
        shift_for(bit_length(q), k) >= 1 ==> packed_significand(q, sticky, k) >= 0x80_0000,
        shift_for(bit_length(q), k) > k ==> q / pow2((shift_for(bit_length(q), k) - k) as nat)
            < 0x100_0000,
        shift_for(bit_length(q), k) <= k ==> k - shift_for(bit_length(q), k) <= 24,
{
    lemma2_to64();
    let l = bit_length(q);
    let s = shift_for(l, k);
    let t = s - k;
    if t <= 0 {
        assert(q > 0);
        lemma_bit_length_bounds(q);
        let p = pow2((-t) as nat);
        let m = q * p;
        assert(packed_significand(q, sticky, k) == m);
        lemma_bit_length_scale(q, (-t) as nat);
        lemma_pow2_pos((-t) as nat);
        assert(m > 0) by (nonlinear_arith)
            requires
                m == q * p,
                q > 0,
                p > 0,
        ;
        lemma_bit_length_bounds(m);
        assert(bit_length(m) == l - t);
        assert(bit_length(m) <= 24);
        assert(s >= 1 ==> bit_length(m) == 24);
        if bit_length(m) < 24 {
            lemma_pow2_strictly_increases(bit_length(m), 24);
        }
    } else {
        let m = q / pow2(t as nat);
        assert(packed_significand(q, sticky, k) == m || packed_significand(q, sticky, k) == m + 1);
        lemma_bit_length_shift(q, t as nat);
        if m > 0 {
            lemma_bit_length_bounds(m);
            assert(bit_length(m) == l - t);
            assert(bit_length(m) <= 24);
            assert(s >= 1 ==> bit_length(m) == 24);
            if bit_length(m) < 24 {
                lemma_pow2_strictly_increases(bit_length(m), 24);
            }
        } else {
            lemma_pow2_pos(t as nat);
            lemma_div_pos_is_pos(q as int, pow2(t as nat) as int);
            assert(m == 0);
            assert(bit_length(0) == 0);
            assert(bit_length(m) == 0);
            assert(bit_length(q / pow2(t as nat)) == 0);
            assert(l <= t);
            assert(s == 0);
        }
    }
}

/// The significand computed from a truncated quotient, scaled by the
/// rounding shift, is the rounded count of units.
pub proof fn lemma_packed_is_rounded(q: nat, sticky: bool, k: int, num: nat, den: nat)
    requires
        den > 0,
        truncates(q, sticky, k, num, den),
        sticky && k >= 0 ==> bit_length(q) >= 25,
        q > 0 || k < 0,
    ensures
        rounded_units(num, den) == packed_significand(q, sticky, k) * pow2(
            shift_for(bit_length(q), k),
        ),
{
    let l = bit_length(q);
    let s = shift_for(l, k);
    let t = s - k;
    lemma_shift_of_truncated(q, sticky, k, num, den);
    assert(rounding_shift(num, den) == s);
    let d = den * pow2(s);
    let qs = num / d;
    let r = num % d;
    if t <= 0 {
        assert(!sticky);
        lemma_exact_quotient(q, k, num, den, s);
        assert(qs == q * pow2((-t) as nat));
        assert(r == 0);
        lemma_pow2_pos(s);
        lemma_mul_strictly_positive(den as int, pow2(s) as int);
        assert(rounded_units(num, den) == qs * pow2(s));
    } else {
        lemma_cut_quotient(q, sticky, k, num, den, s);
        let m = q / pow2(t as nat);
        let w = q % pow2(t as nat);
        let h = pow2((t - 1) as nat);
        assert(qs == m);
        assert((2 * r > d) == (w > h || (w == h && sticky)));
        assert((2 * r == d) == (w == h && !sticky));
        if w > h || (w == h && (sticky || m % 2 == 1)) {
            assert(2 * r > d || (2 * r == d && qs % 2 == 1));
            assert(rounded_units(num, den) == (qs + 1) * pow2(s));
        } else {
            assert(!(2 * r > d || (2 * r == d && qs % 2 == 1)));
            assert(rounded_units(num, den) == qs * pow2(s));
        }
    }
}

/// The bits `s * 2^23 + m`, capped at infinity, encode the rounded value
/// whose count of units is `m * 2^s`.
pub proof fn lemma_pack_value(negative: bool, s: nat, m: nat, num: nat, den: nat)
    requires
        s >= 1 ==> 0x80_0000 <= m,
        m <= 0x100_0000,
        rounded_units(num, den) == m * pow2(s),
    ensures
        s * 0x80_0000 + m >= 0x7f80_0000 ==> round(negative, num, den) == (Value::Infinite {
            negative,
        }),
        s * 0x80_0000 + m < 0x7f80_0000 ==> round(negative, num, den) == (Value::Finite {
            negative,
            units: magnitude_units(s * 0x80_0000 + m),
        }),
{
    lemma_encode(s, m);
}

/// The single-precision number nearest to `num / den` units, from the
/// quotient `q` truncated at scale 2^k and its sticky flag.
pub(crate) fn round_pack(
    negative: bool,
    q: u128,
    sticky: bool,
    k: i32,
    Ghost(num): Ghost<nat>,
    Ghost(den): Ghost<nat>,
) -> (r: Single)
    requires
        den > 0,
        -1000 <= k <= 1000,
        truncates(q as nat, sticky, k as int, num, den),
        sticky && k >= 0 ==> bit_length(q as nat) >= 25,
    ensures
        r@ == round(negative, num, den),
        !(r@ is Nan),
{
    let sign: u32 = if negative {
        SIGN_BIT
    } else {
        0
    };
    if q == 0 && !sticky {
        proof {
            lemma_truncated_zero(k as int, num, den);
            lemma_zero_ratio(den);
            lemma2_to64();
            lemma_pow2_pos(277);
        }
        return Single { bits: sign };
    }
    let (s, significand) = cut_significand(q, sticky, k);
    proof {
        lemma_packed_is_rounded(q as nat, sticky, k as int, num, den);
        lemma_pack_value(negative, s as nat, significand as nat, num, den);
    }
    if s >= 254 {
        return Single { bits: sign + INFINITY_BITS };
    }
    let mag: u32 = s * HIDDEN_BIT + significand;
    if mag >= INFINITY_BITS {
        return Single { bits: sign + INFINITY_BITS };
    }
    Single { bits: sign + mag }
}

/// The rounding shift and the rounded significand of a truncated quotient.
fn cut_significand(q: u128, sticky: bool, k: i32) -> (r: (u32, u32))
    requires
        -1000 <= k <= 1000,
        q > 0 || k < 0,
    ensures
        r.0 == shift_for(bit_length(q as nat), k as int),
        r.1 == packed_significand(q as nat, sticky, k as int),
        r.1 <= 0x100_0000,
        r.0 >= 1 ==> r.1 >= 0x80_0000,
{
    let l: i64 = bit_len(q) as i64;
    let kk: i64 = k as i64;
    let s: i64 = if l + kk - 24 > 0 {
        l + kk - 24
    } else {
        0
    };
    let t: i64 = s - kk;
    proof {
        lemma2_to64();
        lemma_packed_significand_bounds(q as nat, sticky, k as int);
    }
    if t <= 0 {
        let p: u128 = power_of_two((-t) as u32);
        return (s as u32, (q * p) as u32);
    }
    proof {
        lemma_pow2_pos(t as nat);
        lemma_pow2_pos((t - 1) as nat);
        lemma_pow2_unfold(t as nat);
    }
    if t > l {
        proof {
            // q < 2^l <= 2^(t-1): nothing reaches the half bit.
            let h = pow2((t - 1) as nat);
            if q > 0 {
                lemma_bit_length_bounds(q as nat);
                if l < t - 1 {
                    lemma_pow2_strictly_increases(l as nat, (t - 1) as nat);
                }
            }
            assert(q < h);
            lemma_small_mod(q as nat, pow2(t as nat));
            lemma_basic_div(q as int, pow2(t as nat) as int);
        }
        return (s as u32, 0);
    }
    let h: u128 = power_of_two((t - 1) as u32);
    let top: u128 = q / h;
    let low: u128 = q % h;
    let c: u128 = top / 2;
    let bit: u128 = top % 2;
    proof {
        lemma_div_denominator(q as int, h as int, 2);
        lemma_breakdown(q as int, h as int, 2);
        assert(h * 2 == pow2(t as nat));
        assert(c == (q as nat) / pow2(t as nat));
        assert(h * bit == if bit == 1 {
            h as int
        } else {
            0
        }) by (nonlinear_arith)
            requires
                bit == 0 || bit == 1,
        ;
        assert((q as nat) % pow2(t as nat) == h * bit + low);
    }
    if bit == 1 && (low > 0 || sticky || c % 2 == 1) {
        (s as u32, (c as u32) + 1)
    } else {
        (s as u32, c as u32)
    }
}

/// A ratio whose truncated quotient is zero with nothing cut off is zero.
pub proof fn lemma_truncated_zero(k: int, num: nat, den: nat)
    requires
        den > 0,
        truncates(0, false, k, num, den),
    ensures
        num == 0,
{
    if k >= 0 {
        let d = den * pow2(k as nat);
        lemma_pow2_pos(k as nat);
        lemma_mul_strictly_positive(den as int, pow2(k as nat) as int);
        lemma_fundamental_div_mod(num as int, d as int);
    } else {
        let p = pow2((-k) as nat);
        let n = num * p;
        lemma_pow2_pos((-k) as nat);
        lemma_fundamental_div_mod(n as int, den as int);
        assert(n == 0);
        assert(num == 0) by (nonlinear_arith)
            requires
                num * p == 0,
                p > 0,
        ;
    }
}

/// Zero divided by anything rounds to zero.
pub proof fn lemma_zero_ratio(den: nat)
    requires
        den > 0,
    ensures
        rounded_units(0, den) == 0,
{
    lemma2_to64();
    assert(0nat / den == 0) by (nonlinear_arith)
        requires
            den > 0,
    ;
    assert(bit_length(0) == 0);
    assert(rounding_shift(0, den) == 0);
    assert(den * pow2(0) == den);
    lemma_small_mod(0, den);
}

/// Rounding never passes a representable count: what is at least
/// `m * 2^e`, with `m` below 2^24, rounds to at least that.
pub proof fn lemma_round_barrier(x: nat, m: nat, e: nat)
    requires
        m < 0x100_0000,
        m * pow2(e) <= x,
    ensures
        rounded_units(x, 1) >= m * pow2(e),
{
    lemma2_to64();
    let l = bit_length(x);
    let s = rounding_shift(x, 1);
    let p = pow2(s);
    lemma_pow2_pos(s);
    lemma_pow2_pos(e);
    assert(x / 1 == x);
    assert(1 * p == p);
    let q = x / p;
    lemma_fundamental_div_mod(x as int, p as int);
    lemma_mod_bound(x as int, p as int);
    lemma_div_pos_is_pos(x as int, p as int);
    assert(rounded_units(x, 1) >= q * p) by {
        assert((q + 1) * p >= q * p) by (nonlinear_arith)
            requires
                p > 0,
                q >= 0,
        ;
    }
    if e >= s {
        let c = pow2((e - s) as nat);
        lemma_pow2_adds((e - s) as nat, s);
        assert(m * pow2(e) == (m * c) * p) by (nonlinear_arith)
            requires
                pow2(e) == c * p,
        ;
        // A multiple of p that is at most x is at most q * p.
        assert(m * c <= q) by (nonlinear_arith)
            requires
                (m * c) * p <= x,
                x == p * q + x % p,
                0 <= x % p < p,
                p > 0,
        ;
        assert((m * c) * p <= q * p) by (nonlinear_arith)
            requires
                m * c <= q,
                p > 0,
        ;
    } else {
        // The significand q has 24 bits, so q * 2^s is at least 2^(23 + s).
        assert(s >= 1);
        assert(l == s + 24);
        lemma_bit_length_shift(x, s);
        assert(bit_length(q) == 24);
        lemma_bit_length_bounds(q);
        lemma_pow2_adds(24, e);
        lemma_pow2_adds(23, s);
        if 24 + e < 23 + s {
            lemma_pow2_strictly_increases(24 + e, 23 + s);
        }
        assert(m * pow2(e) <= 0x100_0000 * pow2(e)) by (nonlinear_arith)
            requires
                m < 0x100_0000,
                pow2(e) > 0,
        ;
        assert(q * p >= 0x80_0000 * p) by (nonlinear_arith)
            requires
                q >= 0x80_0000,
                p > 0,
        ;
    }
}

/// Every rounded value is one that a bit pattern encodes.
pub proof fn lemma_round_encodable(negative: bool, num: nat, den: nat)
    requires
        den > 0,
    ensures
        encodable(round(negative, num, den)),
{
    lemma2_to64();
    // Truncate the ratio 30 bits below the unit: any cut-off part then lies
    // below the rounding position.
    let p = pow2(30);
    lemma_pow2_pos(30);
    let n = num * p;
    let q = n / den;
    let sticky = n % den != 0;
    lemma_div_pos_is_pos(n as int, den as int);
    let k = -30int;
    assert(truncates(q, sticky, k, num, den));
    lemma_packed_is_rounded(q, sticky, k, num, den);
    lemma_packed_significand_bounds(q, sticky, k);
    let s = shift_for(bit_length(q), k);
    let m = packed_significand(q, sticky, k);
    lemma_pack_value(negative, s, m, num, den);
    let magnitude = s * 0x80_0000 + m;
    let sign: nat = if negative {
        0x8000_0000
    } else {
        0
    };
    if magnitude >= 0x7f80_0000 {
        let bits = (sign + 0x7f80_0000) as u32;
        assert(decode(bits) == round(negative, num, den));
    } else {
        let bits = (sign + magnitude) as u32;
        assert(decode(bits) == round(negative, num, den));
    }
}

/// Rounding sees only the ratio: a common factor of both counts changes nothing.
pub proof fn lemma_round_scaling(num: nat, den: nat, c: nat)
    requires
        den > 0,
        c > 0,
    ensures
        rounded_units(num * c, den * c) == rounded_units(num, den),
{
    lemma_mul_strictly_positive(den as int, c as int);
    lemma_div_multiples_vanish_quotient(c as int, num as int, den as int);
    lemma_mul_is_commutative(c as int, num as int);
    lemma_mul_is_commutative(c as int, den as int);
    assert((num * c) / (den * c) == num / den);
    let s = rounding_shift(num, den);
    assert(rounding_shift(num * c, den * c) == s);
    let p = pow2(s);
    lemma_pow2_pos(s);
    let d = den * p;
    lemma_mul_strictly_positive(den as int, p as int);
    assert((den * c) * p == d * c) by (nonlinear_arith)
        requires
            d == den * p,
    ;
    lemma_div_multiples_vanish_quotient(c as int, num as int, d as int);
    lemma_truncate_middle(num as int, c as int, d as int);
    lemma_mul_is_commutative(c as int, d as int);
    let r = num % d;
    assert((num * c) / (d * c) == num / d);
    assert((num * c) % (d * c) == c * r);
    assert((2 * (c * r) > d * c) == (2 * r > d) && (2 * (c * r) == d * c) == (2 * r == d))
        by (nonlinear_arith)
        requires
            c > 0,
    ;
}

/// Above the lowest exponent the significand cut from a ratio has 24 bits.
pub proof fn lemma_cut_has_24_bits(num: nat, den: nat)
    requires
        den > 0,
        rounding_shift(num, den) >= 1,
    ensures
        num / (den * pow2(rounding_shift(num, den))) >= 0x80_0000,
{
    lemma2_to64();
    let s = rounding_shift(num, den);
    let f = num / den;
    lemma_pow2_pos(s);
    lemma_div_denominator(num as int, den as int, pow2(s) as int);
    lemma_bit_length_shift(f, s);
    lemma_div_pos_is_pos(f as int, pow2(s) as int);
    let q = f / pow2(s);
    assert(bit_length(q) == 24);
    lemma_bit_length_bounds(q);
}

/// Rounding a ratio never passes a representable count from above: a
/// ratio of at least `m * 2^e`, with `m` below 2^24, rounds to at least that.
pub proof fn lemma_round_lower(num: nat, den: nat, m: nat, e: nat)
    requires
        den > 0,
        m < 0x100_0000,
        (m * pow2(e)) * den <= num,
    ensures
        rounded_units(num, den) >= m * pow2(e),
{
    lemma2_to64();
    let s = rounding_shift(num, den);
    let p = pow2(s);
    lemma_pow2_pos(s);
    lemma_pow2_pos(e);
    let d = den * p;
    lemma_mul_strictly_positive(den as int, p as int);
    let q = num / d;
    lemma_fundamental_div_mod(num as int, d as int);
    lemma_mod_bound(num as int, d as int);
    lemma_div_pos_is_pos(num as int, d as int);
    assert(rounded_units(num, den) >= q * p) by {
        assert((q + 1) * p >= q * p) by (nonlinear_arith)
            requires
                p > 0,
                q >= 0,
        ;
    }
    let y = m * pow2(e);
    if e >= s {
        let c = pow2((e - s) as nat);
        lemma_pow2_adds((e - s) as nat, s);
        assert(y * den == (m * c) * d) by (nonlinear_arith)
            requires
                y == m * pow2(e),
                pow2(e) == c * p,
                d == den * p,
        ;
        assert(m * c <= q) by (nonlinear_arith)
            requires
                (m * c) * d <= num,
                num == d * q + num % d,
                0 <= num % d < d,
                d > 0,
        ;
        assert(y == (m * c) * p) by (nonlinear_arith)
            requires
                y == m * pow2(e),
                pow2(e) == c * p,
        ;
        assert((m * c) * p <= q * p) by (nonlinear_arith)
            requires
                m * c <= q,
                p > 0,
        ;
    } else {
        lemma_cut_has_24_bits(num, den);
        lemma_pow2_adds(24, e);
        lemma_pow2_adds(23, s);
        if 24 + e < 23 + s {
            lemma_pow2_strictly_increases(24 + e, 23 + s);
        }
        assert(y <= 0x100_0000 * pow2(e)) by (nonlinear_arith)
            requires
                y == m * pow2(e),
                m < 0x100_0000,
                pow2(e) > 0,
        ;
        assert(q * p >= 0x80_0000 * p) by (nonlinear_arith)
            requires
                q >= 0x80_0000,
                p > 0,
        ;
    }
}

/// Rounding a ratio never passes a representable count from below: a
/// ratio of at most `m * 2^e`, with `m` below 2^24, rounds to at most that.
pub proof fn lemma_round_upper(num: nat, den: nat, m: nat, e: nat)
    requires
        den > 0,
        m < 0x100_0000,
        num <= (m * pow2(e)) * den,
    ensures
        rounded_units(num, den) <= m * pow2(e),
{
    lemma2_to64();
    let s = rounding_shift(num, den);
    let p = pow2(s);
    lemma_pow2_pos(s);
    lemma_pow2_pos(e);
    let d = den * p;
    lemma_mul_strictly_positive(den as int, p as int);
    let q = num / d;
    let r = num % d;
    lemma_fundamental_div_mod(num as int, d as int);
    lemma_mod_bound(num as int, d as int);
    lemma_div_pos_is_pos(num as int, d as int);
    let y = m * pow2(e);
    assert(d * q == (q * p) * den) by (nonlinear_arith)
        requires
            d == den * p,
    ;
    if r == 0 {
        assert(q * p <= y) by (nonlinear_arith)
            requires
                (q * p) * den <= y * den,
                den > 0,
        ;
    } else {
        // The ratio lies strictly above q * 2^s, so the bound does too.
        assert(q * p < y) by (nonlinear_arith)
            requires
                (q * p) * den < y * den,
                den > 0,
        ;
        if e >= s {
            let c = pow2((e - s) as nat);
            lemma_pow2_adds((e - s) as nat, s);
            assert(y == (m * c) * p) by (nonlinear_arith)
                requires
                    y == m * pow2(e),
                    pow2(e) == c * p,
            ;
            assert((q + 1) * p <= (m * c) * p) by (nonlinear_arith)
                requires
                    q * p < (m * c) * p,
                    p > 0,
            ;
        } else {
            lemma_cut_has_24_bits(num, den);
            lemma_pow2_adds(24, e);
            lemma_pow2_adds(23, s);
            if 24 + e < 23 + s {
                lemma_pow2_strictly_increases(24 + e, 23 + s);
            }
            assert(y < 0x100_0000 * pow2(e)) by (nonlinear_arith)
                requires
                    y == m * pow2(e),
                    m < 0x100_0000,
                    pow2(e) > 0,
            ;
            assert(q * p >= 0x80_0000 * p) by (nonlinear_arith)
                requires
                    q >= 0x80_0000,
                    p > 0,
            ;
            assert(false);
        }
    }
}

/// The binary digits of a number are at least those of a smaller one.
pub proof fn lemma_bit_length_monotonic(a: nat, b: nat)
    requires
        a <= b,
    ensures
        bit_length(a) <= bit_length(b),
{
    if a > 0 {
        lemma_bit_length_bounds(a);
        lemma_bit_length_bounds(b);
        let la = bit_length(a);
        let lb = bit_length(b);
        if lb < la {
            if lb < la - 1 {
                lemma_pow2_strictly_increases(lb, (la - 1) as nat);
            }
        }
    }
}

/// The significand cut from a ratio has at most 24 bits.
pub proof fn lemma_cut_below_25_bits(num: nat, den: nat)
    requires
        den > 0,
    ensures
        num / (den * pow2(rounding_shift(num, den))) < 0x100_0000,
{
    lemma2_to64();
    let s = rounding_shift(num, den);
    let f = num / den;
    lemma_pow2_pos(s);
    lemma_div_denominator(num as int, den as int, pow2(s) as int);
    lemma_bit_length_shift(f, s);
    lemma_div_pos_is_pos(f as int, pow2(s) as int);
    let q = f / pow2(s);
    if q > 0 {
        lemma_bit_length_bounds(q);
        if bit_length(q) < 24 {
            lemma_pow2_strictly_increases(bit_length(q), 24);
        }
    }
}

/// Rounding keeps the order: of two ratios with one divisor the larger
/// does not round to less.
pub proof fn lemma_round_monotonic(smaller: nat, larger: nat, den: nat)
    requires
        den > 0,
        smaller <= larger,
    ensures
        rounded_units(smaller, den) <= rounded_units(larger, den),
{
    lemma2_to64();
    let low_shift = rounding_shift(smaller, den);
    let high_shift = rounding_shift(larger, den);
    lemma_div_is_ordered(smaller as int, larger as int, den as int);
    lemma_div_pos_is_pos(smaller as int, den as int);
    lemma_bit_length_monotonic(smaller / den, larger / den);
    assert(low_shift <= high_shift);
    let low_unit = pow2(low_shift);
    let high_unit = pow2(high_shift);
    lemma_pow2_pos(low_shift);
    lemma_pow2_pos(high_shift);
    let low_divisor = den * low_unit;
    let high_divisor = den * high_unit;
    lemma_mul_strictly_positive(den as int, low_unit as int);
    lemma_mul_strictly_positive(den as int, high_unit as int);
    let low_cut = smaller / low_divisor;
    let high_cut = larger / high_divisor;
    let low_rest = smaller % low_divisor;
    let high_rest = larger % high_divisor;
    lemma_fundamental_div_mod(smaller as int, low_divisor as int);
    lemma_fundamental_div_mod(larger as int, high_divisor as int);
    lemma_mod_bound(smaller as int, low_divisor as int);
    lemma_mod_bound(larger as int, high_divisor as int);
    lemma_div_pos_is_pos(smaller as int, low_divisor as int);
    lemma_div_pos_is_pos(larger as int, high_divisor as int);
    assert(rounded_units(smaller, den) <= (low_cut + 1) * low_unit) by {
        assert(low_cut * low_unit <= (low_cut + 1) * low_unit) by (nonlinear_arith)
            requires
                low_unit > 0,
                low_cut >= 0,
        ;
    }
    assert(rounded_units(larger, den) >= high_cut * high_unit) by {
        assert(high_cut * high_unit <= (high_cut + 1) * high_unit) by (nonlinear_arith)
            requires
                high_unit > 0,
                high_cut >= 0,
        ;
    }
    if low_shift == high_shift {
        lemma_div_is_ordered(smaller as int, larger as int, low_divisor as int);
        if low_cut < high_cut {
            assert((low_cut + 1) * low_unit <= high_cut * low_unit) by (nonlinear_arith)
                requires
                    low_cut + 1 <= high_cut,
                    low_unit > 0,
            ;
        } else {
            assert(low_cut == high_cut);
            assert(low_rest <= high_rest);
        }
    } else {
        lemma_cut_below_25_bits(smaller, den);
        lemma_cut_has_24_bits(larger, den);
        lemma_pow2_adds(24, low_shift);
        lemma_pow2_adds(23, high_shift);
        if 24 + low_shift < 23 + high_shift {
            lemma_pow2_strictly_increases(24 + low_shift, 23 + high_shift);
        }
        assert((low_cut + 1) * low_unit <= 0x100_0000 * low_unit) by (nonlinear_arith)
            requires
                low_cut < 0x100_0000,
                low_unit > 0,
        ;
        assert(high_cut * high_unit >= 0x80_0000 * high_unit) by (nonlinear_arith)
            requires
                high_cut >= 0x80_0000,
                high_unit > 0,
        ;
    }
}

} // verus!
