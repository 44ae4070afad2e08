//! The quotient of two small integers, divided as reals and cut off, is the
//! integer quotient.
use crate::reals::{lemma_decode, Real};
use crate::rounding::{bits_of, lemma_bits_of, lemma_coarsen, lemma_div_at_least, lemma_div_below, lemma_pow2_ascends, lemma_round_by_parts, lemma_round_zero, nearest, rounded_significand, scaled_exact, scaled_floor};
use vstd::arithmetic::div_mod::{lemma_fundamental_div_mod, lemma_fundamental_div_mod_converse};
use vstd::arithmetic::power2::{lemma2_to64, lemma2_to64_rest, lemma_pow2_adds, lemma_pow2_pos, lemma_pow2_unfold, pow2};
use vstd::prelude::*;

verus! {

/// Rounding the quotient of two numbers below `2^24` does not reach the next
/// integer: the significand `m` that rounding yields at the quantum `2^-k`
/// lies from `q * 2^k` up to, but not at, `(q + 1) * 2^k`, where `q` is the
/// integer quotient.
pub proof fn lemma_rounded_quotient(a: nat, b: nat, l: nat)
    requires
        0 < a < 0x100_0000,
        0 < b < 0x100_0000,
        l == bits_of((a * pow2(50)) / b),
    ensures
        27 <= l <= 74,
        ({
            let m = (a * pow2(50)) / b;
            let inexact = (a * pow2(50)) % b != 0;
            let k = (74 - l) as nat;
            let r = rounded_significand(m, inexact, l - 24);
            &&& nearest(a, b, 0) == (l - 74 + 149) * 0x80_0000 + r
            &&& 0x80_0000 <= r <= 0x100_0000
            &&& (a / b) * pow2(k) <= r < (a / b + 1) * pow2(k)
        }),
{
    lemma2_to64();
    lemma2_to64_rest();
    let p50 = pow2(50);
    let n = a * p50;
    let m = n / b;
    let inexact = n % b != 0;
    let q = a / b;
    lemma_fundamental_div_mod(a as int, b as int);
    lemma_fundamental_div_mod(n as int, b as int);
    assert(n >= 0x400_0000 * b) by (nonlinear_arith)
        requires
            n == a * p50,
            a >= 1,
            p50 == 0x4_0000_0000_0000,
            b < 0x100_0000,
    ;
    lemma_div_at_least(n as int, b as int, 0x400_0000);
    assert(n < 0x100_0000 * 0x4_0000_0000_0000) by (nonlinear_arith)
        requires
            n == a * p50,
            a < 0x100_0000,
            p50 == 0x4_0000_0000_0000,
    ;
    assert(m <= n) by (nonlinear_arith)
        requires
            n == b * m + n % b,
            0 <= n % b,
            b >= 1,
            m >= 0,
    ;
    lemma_bits_of(m);
    lemma_pow2_adds(24, 50);
    if l > 74 {
        lemma_pow2_ascends(74, (l - 1) as nat);
    }
    if l < 27 {
        lemma_pow2_ascends(l, 26);
    }
    let s = l - 74;
    let j = l - 24;
    let k = (74 - l) as nat;
    lemma_round_by_parts(a, b, 0, m, inexact, -50, l, s);
    let r = rounded_significand(m, inexact, j);
    assert(s - (-50) == j);
    // The integer part in units of the quantum, and in half units.
    lemma_coarsen(a, b, 50, j);
    lemma_coarsen(a, b, 50, j - 1);
    lemma_coarsen(a, b, (k + 1) as int, 1);
    assert(50 - j == k);
    assert(50 - (j - 1) == k + 1);
    let pk = pow2(k);
    let pk1 = pow2(k + 1);
    lemma_pow2_unfold(k + 1);
    lemma_pow2_pos(k);
    let t = (a * pk) / b;
    let h = (a * pk1) / b;
    assert(m / pow2(j as nat) == t);
    assert(m / pow2((j - 1) as nat) == h);
    assert(h / 2 == t);
    assert(r == t || (r == t + 1 && h % 2 == 1));
    // The significand is normal.
    lemma_pow2_adds(23, j as nat);
    lemma_pow2_pos(j as nat);
    lemma_div_at_least(m as int, pow2(j as nat) as int, 0x80_0000);
    // From below.
    assert(a * pk >= (q * pk) * b) by (nonlinear_arith)
        requires
            a == b * q + a % b,
            0 <= a % b,
            pk >= 0,
    ;
    lemma_div_at_least((a * pk) as int, b as int, (q * pk) as int);
    // The divisor is below twice the number of quanta in a unit.
    lemma_pow2_adds((l - 1) as nat, k + 1);
    assert(m * b <= n) by (nonlinear_arith)
        requires
            n == b * m + n % b,
            0 <= n % b,
    ;
    let low = pow2((l - 1) as nat);
    assert(low * b <= m * b) by (nonlinear_arith)
        requires
            low <= m,
            b >= 0,
    ;
    lemma_pow2_pos((l - 1) as nat);
    assert(b < pk1) by (nonlinear_arith)
        requires
            low * b < low * pk1,
            low > 0,
    ;
    // From above.
    let top = (q + 1) * pk1 - 1;
    assert(a * pk1 < top * b) by (nonlinear_arith)
        requires
            a == b * q + a % b,
            a % b < b,
            b < pk1,
            top == (q + 1) * pk1 - 1,
            b > 0,
    ;
    assert(top >= 0) by (nonlinear_arith)
        requires
            top == (q + 1) * pk1 - 1,
            pk1 >= 1,
            q >= 0,
    ;
    lemma_div_below((a * pk1) as int, b as int, top);
    assert((q + 1) * pk1 == 2 * ((q + 1) * pk)) by (nonlinear_arith)
        requires
            pk1 == 2 * pk,
    ;
}

/// The quotient of two numbers below `2^24`, rounded to the nearest real and
/// cut off, is their integer quotient.
pub proof fn lemma_quotient_truncates(a: nat, b: nat, neg: bool)
    requires
        a < 0x100_0000,
        0 < b < 0x100_0000,
    ensures
        Real::make(neg, nearest(a, b, 0)).spec_truncate() == if neg {
            -((a / b) as int)
        } else {
            (a / b) as int
        },
{
    lemma2_to64();
    let q = a / b;
    lemma_fundamental_div_mod(a as int, b as int);
    assert(q <= a) by (nonlinear_arith)
        requires
            a == b * q + a % b,
            0 <= a % b,
            b >= 1,
            q >= 0,
    ;
    if a == 0 {
        assert(0 * pow2(0) == 0) by (nonlinear_arith);
        lemma_round_zero(0, b, 0, false, 0);
        lemma_pow2_pos(149);
        assert(1 * pow2(149) == pow2(149)) by (nonlinear_arith);
    } else {
        let m = (a * pow2(50)) / b;
        let l = bits_of(m);
        lemma_rounded_quotient(a, b, l);
        let inexact = (a * pow2(50)) % b != 0;
        let k = (74 - l) as nat;
        let s = l - 74;
        let r = rounded_significand(m, inexact, l - 24);
        let pk = pow2(k);
        lemma_pow2_pos(k);
        if k == 0 {
            assert(q * pk == q && (q + 1) * pk == q + 1) by (nonlinear_arith)
                requires
                    pk == 1,
            ;
        }
        if r < 0x100_0000 {
            lemma_decode(neg, s, r);
            if s == 0 {
                assert(r * 1 == r) by (nonlinear_arith);
            } else {
                assert(1 * pk == pk) by (nonlinear_arith);
                assert((q + 1) * pk == q * pk + pk) by (nonlinear_arith);
                lemma_fundamental_div_mod_converse(r as int, pk as int, q as int, r - q * pk);
            }
        } else {
            assert(k >= 1);
            lemma_decode(neg, s + 1, 0x80_0000);
            assert((s + 149) * 0x80_0000 + r == (s + 1 + 149) * 0x80_0000 + 0x80_0000);
            let ph = pow2((k - 1) as nat);
            lemma_pow2_unfold(k);
            lemma_pow2_pos((k - 1) as nat);
            assert(q * ph <= 0x80_0000 < (q + 1) * ph) by (nonlinear_arith)
                requires
                    q * pk <= 0x100_0000 < (q + 1) * pk,
                    pk == 2 * ph,
            ;
            if k == 1 {
                assert(q == 0x80_0000) by (nonlinear_arith)
                    requires
                        q * ph <= 0x80_0000 < (q + 1) * ph,
                        ph == 1,
                ;
                assert(0x80_0000 * pow2(0) == 0x80_0000) by (nonlinear_arith)
                    requires
                        pow2(0) == 1,
                ;
            } else {
                assert(1 * ph == ph) by (nonlinear_arith);
                assert((q + 1) * ph == q * ph + ph) by (nonlinear_arith);
                lemma_fundamental_div_mod_converse(
                    0x80_0000,
                    ph as int,
                    q as int,
                    0x80_0000 - q * ph,
                );
            }
        }
    }
}

/// The integer part of a quotient does not depend on how the two numbers
/// are written: both may carry a power of two.
pub proof fn lemma_same_quotient_floor(a: nat, b: nat, px: nat, py: nat, s: int)
    requires
        b > 0,
    ensures
        scaled_floor(a * pow2(px), b * pow2(py), py - px - s) == scaled_floor(a, b, -s),
        scaled_exact(a * pow2(px), b * pow2(py), py - px - s) == scaled_exact(a, b, -s),
{
    let k1 = py - px - s;
    let k2 = -s;
    let x = pow2(px) as int;
    let y = pow2(py) as int;
    lemma_pow2_pos(px);
    lemma_pow2_pos(py);
    let n1 = crate::rounding::scaled_num(a * pow2(px), k1) as int;
    let d1 = crate::rounding::scaled_den(b * pow2(py), k1) as int;
    let n2 = crate::rounding::scaled_num(a, k2) as int;
    let d2 = crate::rounding::scaled_den(b, k2) as int;
    let u1 = pow2((if k1 >= 0 { k1 } else { -k1 }) as nat) as int;
    let u2 = pow2((if k2 >= 0 { k2 } else { -k2 }) as nat) as int;
    lemma_pow2_pos((if k1 >= 0 { k1 } else { -k1 }) as nat);
    lemma_pow2_pos((if k2 >= 0 { k2 } else { -k2 }) as nat);
    if k1 >= 0 && k2 >= 0 {
        lemma_pow2_adds(px, k1 as nat);
        lemma_pow2_adds(k2 as nat, py);
        assert(n1 * d2 * 1 == n2 * d1) by (nonlinear_arith)
            requires
                n1 == (a * x) * u1,
                d1 == b * y,
                n2 == a * u2,
                d2 == b,
                x * u1 == u2 * y,
        ;
    } else if k1 >= 0 {
        lemma_pow2_adds(px, k1 as nat);
        lemma_pow2_adds((px + k1) as nat, s as nat);
        assert(n1 * d2 * 1 == n2 * d1) by (nonlinear_arith)
            requires
                n1 == (a * x) * u1,
                d1 == b * y,
                n2 == a,
                d2 == b * u2,
                (x * u1) * u2 == y,
        ;
    } else if k2 >= 0 {
        lemma_pow2_adds(k2 as nat, py);
        lemma_pow2_adds((k2 + py) as nat, (-k1) as nat);
        lemma_pow2_adds(py, (-k1) as nat);
        lemma_pow2_adds(k2 as nat, (py - k1) as nat);
        assert(n1 * d2 * 1 == n2 * d1) by (nonlinear_arith)
            requires
                n1 == a * x,
                d1 == (b * y) * u1,
                n2 == a * u2,
                d2 == b,
                x == u2 * (y * u1),
        ;
    } else {
        lemma_pow2_adds(px, s as nat);
        lemma_pow2_adds(py, (-k1) as nat);
        assert(n1 * d2 * 1 == n2 * d1) by (nonlinear_arith)
            requires
                n1 == a * x,
                d1 == (b * y) * u1,
                n2 == a,
                d2 == b * u2,
                x * u2 == y * u1,
        ;
    }
    assert(d1 > 0 && d2 > 0) by (nonlinear_arith)
        requires
            d1 == b * y || d1 == (b * y) * u1,
            d2 == b || d2 == b * u2,
            b > 0,
            y > 0,
            u1 > 0,
            u2 > 0,
    ;
    crate::rounding::lemma_floor_of_quotient(n2, d2, n1, d1, 1);
}

/// Rounding a quotient does not depend on how the two numbers are written.
pub proof fn lemma_same_quotient(a: nat, b: nat, px: nat, py: nat, s: int)
    requires
        b > 0,
    ensures
        crate::rounding::round_from(a * pow2(px), b * pow2(py), py - px, s)
            == crate::rounding::round_from(a, b, 0, s),
    decreases 105 - s,
{
    if s < 105 {
        lemma_same_quotient_floor(a, b, px, py, s);
        lemma_same_quotient_floor(a, b, px, py, s - 1);
        assert(py - px - s + 1 == py - px - (s - 1));
        assert(0 - s + 1 == -(s - 1));
        lemma_same_quotient(a, b, px, py, s + 1);
    }
}

} // verus!
