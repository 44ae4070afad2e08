//! Rounding a rational number to the nearest IEEE 754 binary32 value, ties to
//! even: what it means, and how it is computed from an integer part and a flag.
use vstd::arithmetic::div_mod::{lemma_fundamental_div_mod, lemma_fundamental_div_mod_converse};
use vstd::arithmetic::power2::{
    lemma2_to64, lemma_pow2_adds, lemma_pow2_pos, lemma_pow2_strictly_increases,
    lemma_pow2_unfold, pow2,
};
use vstd::prelude::*;

verus! {

/// The magnitude bits of an infinite binary32 value.
pub const INFINITY_BITS: u32 = 0x7F80_0000;

/// The numerator of `n / d * 2^k` once the power of two is folded in.
pub open spec fn scaled_num(n: nat, k: int) -> nat {
    if k >= 0 {
        n * pow2(k as nat)
    } else {
        n
    }
}

/// The denominator of `n / d * 2^k` once the power of two is folded in.
pub open spec fn scaled_den(d: nat, k: int) -> nat {
    if k >= 0 {
        d
    } else {
        d * pow2((-k) as nat)
    }
}

/// The integer part of the rational `n / d * 2^k`.
pub open spec fn scaled_floor(n: nat, d: nat, k: int) -> nat {
    scaled_num(n, k) / scaled_den(d, k)
}

/// Whether the rational `n / d * 2^k` is an integer.
pub open spec fn scaled_exact(n: nat, d: nat, k: int) -> bool {
    scaled_num(n, k) % scaled_den(d, k) == 0
}

/// The rational `n / d * 2^k` rounded to the nearest integer, a tie going to
/// the even neighbour. The rounding is read off the integer part of twice the
/// value.
pub open spec fn round_half_even(n: nat, d: nat, k: int) -> nat {
    let h = scaled_floor(n, d, k + 1);
    let t = h / 2;
    if h % 2 == 1 && (!scaled_exact(n, d, k + 1) || t % 2 == 1) {
        t + 1
    } else {
        t
    }
}

/// The magnitude bits of the binary32 value nearest to `n / d * 2^e`, found
/// at the first quantum `2^q`, from `q = s` upwards, in which the value's
/// integer part fits the 24 bits of a significand. A quantum above `2^104`
/// means that the value is out of range and becomes infinity.
pub open spec fn round_from(n: nat, d: nat, e: int, s: int) -> nat
    decreases 105 - s,
{
    if s >= 105 {
        0x7F80_0000
    } else if scaled_floor(n, d, e - s) < 0x100_0000 {
        ((s + 149) * 0x80_0000 + round_half_even(n, d, e - s)) as nat
    } else {
        round_from(n, d, e, s + 1)
    }
}

/// The magnitude bits of the binary32 value nearest to the rational
/// `n / d * 2^e`, ties to even: subnormal below `2^-126`, infinite from
/// `2^128 - 2^103` on.
pub open spec fn nearest(n: nat, d: nat, e: int) -> nat {
    round_from(n, d, e, -149)
}

/// Dividing a rational by `p` and taking the integer part is dividing its
/// integer part by `p`; the quotient is an integer exactly when the rational
/// is one that `p` divides.
pub proof fn lemma_floor_of_quotient(a: int, b: int, a2: int, b2: int, p: int)
    requires
        0 <= a,
        0 < b,
        0 <= a2,
        0 < b2,
        0 < p,
        a2 * b * p == a * b2,
    ensures
        a2 / b2 == (a / b) / p,
        (a2 % b2 == 0) <==> (a % b == 0 && (a / b) % p == 0),
{
    let q = a / b;
    let r = a % b;
    let t = q / p;
    let u = q % p;
    lemma_fundamental_div_mod(a, b);
    lemma_fundamental_div_mod(q, p);
    assert(0 <= r < b);
    assert(0 <= u < p);
    let bp = b * p;
    let w = b * u + r;
    let x = a2 - t * b2;
    assert(bp > 0) by (nonlinear_arith)
        requires
            b > 0,
            p > 0,
            bp == b * p,
    ;
    assert(0 <= w < bp) by (nonlinear_arith)
        requires
            0 <= r < b,
            0 <= u < p,
            w == b * u + r,
            bp == b * p,
    ;
    assert(a == bp * t + w) by (nonlinear_arith)
        requires
            a == b * q + r,
            q == p * t + u,
            bp == b * p,
            w == b * u + r,
    ;
    assert(a * b2 == (t * b2) * bp + w * b2) by (nonlinear_arith)
        requires
            a == bp * t + w,
    ;
    assert(a2 * bp == a2 * b * p) by (nonlinear_arith)
        requires
            bp == b * p,
    ;
    assert(x * bp == a2 * bp - (t * b2) * bp) by (nonlinear_arith)
        requires
            x == a2 - t * b2,
    ;
    assert(x * bp == w * b2);
    assert(0 <= x < b2 && (x == 0 <==> w == 0)) by (nonlinear_arith)
        requires
            x * bp == w * b2,
            0 <= w < bp,
            b2 > 0,
            bp > 0,
    ;
    assert(w == 0 <==> (u == 0 && r == 0)) by (nonlinear_arith)
        requires
            w == b * u + r,
            b > 0,
            0 <= u,
            0 <= r,
    ;
    lemma_fundamental_div_mod_converse(a2, b2, t, x);
}

/// The integer part and the exactness of a value in a coarser scale, read off
/// its integer part in a finer one.
pub proof fn lemma_coarsen(n: nat, d: nat, k: int, j: int)
    requires
        d > 0,
        j >= 0,
    ensures
        scaled_floor(n, d, k - j) == scaled_floor(n, d, k) / pow2(j as nat),
        scaled_exact(n, d, k - j) == (scaled_exact(n, d, k) && scaled_floor(n, d, k) % pow2(
            j as nat,
        ) == 0),
{
    let a = scaled_num(n, k) as int;
    let b = scaled_den(d, k) as int;
    let a2 = scaled_num(n, k - j) as int;
    let b2 = scaled_den(d, k - j) as int;
    let p = pow2(j as nat) as int;
    lemma_pow2_pos(j as nat);
    if k - j >= 0 {
        lemma_pow2_adds((k - j) as nat, j as nat);
        let c = pow2((k - j) as nat) as int;
        assert(a2 * b * p == a * b2) by (nonlinear_arith)
            requires
                a2 == n * c,
                a == n * (c * p),
                b == d,
                b2 == d,
        ;
    } else if k >= 0 {
        lemma_pow2_adds(k as nat, (j - k) as nat);
        lemma_pow2_pos((j - k) as nat);
        let c = pow2(k as nat) as int;
        let c2 = pow2((j - k) as nat) as int;
        assert(a2 * b * p == a * b2) by (nonlinear_arith)
            requires
                a2 == n,
                a == n * c,
                b == d,
                b2 == d * c2,
                p == c * c2,
        ;
        assert(b2 > 0) by (nonlinear_arith)
            requires
                b2 == d * c2,
                d > 0,
                c2 > 0,
        ;
    } else {
        lemma_pow2_adds((-k) as nat, j as nat);
        lemma_pow2_pos((-k) as nat);
        lemma_pow2_pos((j - k) as nat);
        let c = pow2((-k) as nat) as int;
        let c2 = pow2((j - k) as nat) as int;
        assert(a2 * b * p == a * b2) by (nonlinear_arith)
            requires
                a2 == n,
                a == n,
                b == d * c,
                b2 == d * c2,
                c2 == c * p,
        ;
        assert(b > 0 && b2 > 0) by (nonlinear_arith)
            requires
                b == d * c,
                b2 == d * c2,
                d > 0,
                c > 0,
                c2 > 0,
        ;
    }
    lemma_floor_of_quotient(a, b, a2, b2, p);
}

/// A value that is an integer in one scale is an integer in every finer
/// scale, larger by the power of two between them.
pub proof fn lemma_refine(n: nat, d: nat, k: int, j: int)
    requires
        d > 0,
        j >= 0,
        scaled_exact(n, d, k),
    ensures
        scaled_floor(n, d, k + j) == scaled_floor(n, d, k) * pow2(j as nat),
        scaled_exact(n, d, k + j),
{
    lemma_coarsen(n, d, k + j, j);
    lemma_pow2_pos(j as nat);
    lemma_fundamental_div_mod(scaled_floor(n, d, k + j) as int, pow2(j as nat) as int);
    assert(scaled_floor(n, d, k + j) == scaled_floor(n, d, k) * pow2(j as nat))
        by (nonlinear_arith)
        requires
            scaled_floor(n, d, k + j) == pow2(j as nat) * (scaled_floor(n, d, k + j) / pow2(
                j as nat,
            )) + 0,
            scaled_floor(n, d, k) == scaled_floor(n, d, k + j) / pow2(j as nat),
    ;
}

/// The search for the quantum passes over every scale that is no coarser than
/// one in which the integer part needs more than 24 bits.
pub proof fn lemma_skip(n: nat, d: nat, e: int, s: int, big: int)
    requires
        d > 0,
        s <= big + 1,
        scaled_floor(n, d, e - big) >= 0x100_0000,
    ensures
        round_from(n, d, e, s) == round_from(n, d, e, big + 1),
    decreases big + 1 - s,
{
    if s <= big {
        if s < 105 {
            lemma_coarsen(n, d, e - s, big - s);
            lemma_pow2_pos((big - s) as nat);
            let f = scaled_floor(n, d, e - s) as int;
            let p = pow2((big - s) as nat) as int;
            lemma_fundamental_div_mod(f, p);
            assert(f >= f / p) by (nonlinear_arith)
                requires
                    f == p * (f / p) + f % p,
                    0 <= f % p,
                    p >= 1,
                    f / p >= 0,
            ;
            lemma_skip(n, d, e, s + 1, big);
        }
    }
}

/// Powers of two ascend.
pub proof fn lemma_pow2_ascends(a: nat, b: nat)
    requires
        a <= b,
    ensures
        pow2(a) <= pow2(b),
{
    if a < b {
        lemma_pow2_strictly_increases(a, b);
    }
}

/// The value of `2^127`.
pub proof fn lemma_pow2_127()
    ensures
        pow2(127) == 0x8000_0000_0000_0000_0000_0000_0000_0000,
{
    lemma2_to64();
    lemma_pow2_adds(32, 31);
    lemma_pow2_adds(64, 63);
    assert(pow2(63) == 0x8000_0000_0000_0000) by (nonlinear_arith)
        requires
            pow2(63) == pow2(32) * pow2(31),
            pow2(32) == 0x1_0000_0000,
            pow2(31) == 0x8000_0000,
    ;
    assert(pow2(127) == 0x8000_0000_0000_0000_0000_0000_0000_0000) by (nonlinear_arith)
        requires
            pow2(127) == pow2(64) * pow2(63),
            pow2(64) == 0x1_0000_0000_0000_0000,
            pow2(63) == 0x8000_0000_0000_0000,
    ;
}

/// A quotient is at least `c` when the dividend is at least `c` divisors.
pub proof fn lemma_div_at_least(m: int, p: int, c: int)
    requires
        p > 0,
        m >= c * p,
    ensures
        m / p >= c,
{
    lemma_fundamental_div_mod(m, p);
    assert(m / p >= c) by (nonlinear_arith)
        requires
            m == p * (m / p) + m % p,
            0 <= m % p < p,
            m >= c * p,
            p > 0,
    ;
}

/// A quotient is below `c` when the dividend is below `c` divisors.
pub proof fn lemma_div_below(m: int, p: int, c: int)
    requires
        p > 0,
        0 <= m < c * p,
    ensures
        0 <= m / p < c,
{
    lemma_fundamental_div_mod(m, p);
    assert(0 <= m / p < c) by (nonlinear_arith)
        requires
            m == p * (m / p) + m % p,
            0 <= m % p < p,
            0 <= m < c * p,
            p > 0,
    ;
}

/// Writing a value with a numerator `2^j` times as large and an exponent
/// lower by `j` changes nothing of its integer part in any scale.
pub proof fn lemma_rescale_floor(n: nat, e: int, j: nat, s: int)
    ensures
        scaled_floor(n * pow2(j), 1, e - j - s) == scaled_floor(n, 1, e - s),
        scaled_exact(n * pow2(j), 1, e - j - s) == scaled_exact(n, 1, e - s),
{
    let k = e - s;
    let a = scaled_num(n, k) as int;
    let b = scaled_den(1, k) as int;
    let a2 = scaled_num(n * pow2(j), k - j) as int;
    let b2 = scaled_den(1, k - j) as int;
    let q = pow2(j) as int;
    lemma_pow2_pos(j);
    if k - j >= 0 {
        lemma_pow2_adds(j, (k - j) as nat);
        let c = pow2((k - j) as nat) as int;
        assert(a2 * b * 1 == a * b2) by (nonlinear_arith)
            requires
                a2 == (n * q) * c,
                a == n * (q * c),
                b == 1,
                b2 == 1,
        ;
    } else if k >= 0 {
        lemma_pow2_adds(k as nat, (j - k) as nat);
        lemma_pow2_pos((j - k) as nat);
        let c = pow2(k as nat) as int;
        let c2 = pow2((j - k) as nat) as int;
        assert(a2 * b * 1 == a * b2) by (nonlinear_arith)
            requires
                a2 == n * q,
                a == n * c,
                b == 1,
                b2 == 1 * c2,
                q == c * c2,
        ;
        assert(b2 > 0) by (nonlinear_arith)
            requires
                b2 == 1 * c2,
                c2 > 0,
        ;
    } else {
        lemma_pow2_adds(j, (-k) as nat);
        lemma_pow2_pos((-k) as nat);
        lemma_pow2_pos((j - k) as nat);
        let c = pow2((-k) as nat) as int;
        let c2 = pow2((j - k) as nat) as int;
        assert(a2 * b * 1 == a * b2) by (nonlinear_arith)
            requires
                a2 == n * q,
                a == n,
                b == 1 * c,
                b2 == 1 * c2,
                c2 == q * c,
        ;
        assert(b > 0 && b2 > 0) by (nonlinear_arith)
            requires
                b == 1 * c,
                b2 == 1 * c2,
                c > 0,
                c2 > 0,
        ;
    }
    lemma_floor_of_quotient(a, b, a2, b2, 1);
}

/// Rounding depends on the value alone, not on how it is written: a
/// numerator `2^j` times as large with an exponent lower by `j` rounds to the
/// same bits.
pub proof fn lemma_rescale(n: nat, e: int, j: nat, s: int)
    ensures
        round_from(n * pow2(j), 1, e - j, s) == round_from(n, 1, e, s),
    decreases 105 - s,
{
    if s < 105 {
        lemma_rescale_floor(n, e, j, s);
        lemma_rescale_floor(n, e, j, s - 1);
        assert(e - j - s + 1 == e - j - (s - 1));
        assert(e - s + 1 == e - (s - 1));
        lemma_rescale(n, e, j, s + 1);
    }
}

/// The number of bits of `m`: the least `l` with `m < 2^l`.
pub open spec fn bits_of(m: nat) -> nat
    decreases m,
{
    if m == 0 {
        0
    } else {
        1 + bits_of(m / 2)
    }
}

/// A number of `l` bits lies from `2^(l-1)` up to, but not at, `2^l`.
pub proof fn lemma_bits_of(m: nat)
    ensures
        m < pow2(bits_of(m)),
        m > 0 ==> bits_of(m) >= 1 && pow2((bits_of(m) - 1) as nat) <= m,
    decreases m,
{
    lemma2_to64();
    if m > 0 {
        lemma_bits_of(m / 2);
        lemma_pow2_unfold(bits_of(m));
        if m / 2 > 0 {
            lemma_pow2_unfold((bits_of(m) - 1) as nat);
        }
    }
}

/// The significand that rounding yields at the quantum `2^(e + j)` for a
/// value whose integer part in units of `2^e` is `m`, `inexact` telling
/// whether a fraction was cut off.
pub open spec fn rounded_significand(m: nat, inexact: bool, j: int) -> nat {
    if j <= 0 {
        m * pow2((-j) as nat)
    } else {
        let h = m / pow2((j - 1) as nat);
        let t = h / 2;
        if h % 2 == 1 && (inexact || m % pow2((j - 1) as nat) != 0 || t % 2 == 1) {
            t + 1
        } else {
            t
        }
    }
}

/// Rounding a value to binary32 from its integer part `m` in units of `2^e`:
/// with `l` the bit length of `m`, the quantum is `2^s` for
/// `s = max(l - 24 + e, -149)`, and the bits follow from `m` alone, given that
/// a cut-off fraction lies below the rounding position.
pub proof fn lemma_round_by_parts(
    n: nat,
    d: nat,
    e0: int,
    m: nat,
    inexact: bool,
    e: int,
    l: nat,
    s: int,
)
    requires
        d > 0,
        m == scaled_floor(n, d, e0 - e),
        inexact == !scaled_exact(n, d, e0 - e),
        inexact ==> m >= 0x100_0000 || e <= -150,
        l >= 1,
        pow2((l - 1) as nat) <= m < pow2(l),
        s == if l - 24 + e < -149 { -149 } else { l - 24 + e },
    ensures
        s >= 105 ==> nearest(n, d, e0) == 0x7F80_0000,
        s < 105 ==> nearest(n, d, e0) == (s + 149) * 0x80_0000 + rounded_significand(
            m,
            inexact,
            s - e,
        ),
        rounded_significand(m, inexact, s - e) <= 0x100_0000,
{
    let k = e0 - e;
    let j = s - e;
    lemma2_to64();
    if inexact {
        if m >= 0x100_0000 {
            if l < 25 {
                lemma_pow2_ascends(l, 24);
            }
        }
        assert(j >= 1);
    }
    if s > -149 {
        let j1 = l - 25;
        if j1 >= 0 {
            lemma_coarsen(n, d, k, j1);
            lemma_pow2_adds(24, j1 as nat);
            lemma_pow2_pos(j1 as nat);
            lemma_div_at_least(m as int, pow2(j1 as nat) as int, 0x100_0000);
        } else {
            lemma_refine(n, d, k, -j1);
            lemma_pow2_adds((l - 1) as nat, (-j1) as nat);
            assert(m * pow2((-j1) as nat) >= pow2((l - 1) as nat) * pow2((-j1) as nat))
                by (nonlinear_arith)
                requires
                    m >= pow2((l - 1) as nat),
            ;
        }
        assert(e0 - (s - 1) == k - j1);
        lemma_skip(n, d, e0, -149, s - 1);
    }
    assert(nearest(n, d, e0) == round_from(n, d, e0, s));
    if j >= 1 {
        lemma_coarsen(n, d, k, j);
        lemma_coarsen(n, d, k, j - 1);
        lemma_coarsen(n, d, k - (j - 1), 1);
        lemma_pow2_pos(j as nat);
        lemma_pow2_adds(24, j as nat);
        lemma_pow2_ascends(l, (24 + j) as nat);
        lemma_div_below(m as int, pow2(j as nat) as int, 0x100_0000);
        assert(e0 - s == k - j);
        assert(e0 - s + 1 == k - (j - 1));
        assert(scaled_floor(n, d, e0 - s) < 0x100_0000);
        let h = m / pow2((j - 1) as nat);
        assert(scaled_floor(n, d, e0 - s + 1) == h);
        assert(scaled_floor(n, d, e0 - s) == h / 2);
        assert(round_half_even(n, d, e0 - s) == rounded_significand(m, inexact, j));
    } else {
        lemma_refine(n, d, k, -j);
        lemma_refine(n, d, k, 1 - j);
        lemma_pow2_adds(l, (-j) as nat);
        lemma_pow2_ascends((l - j) as nat, 24);
        lemma_pow2_unfold((1 - j) as nat);
        let c = pow2((-j) as nat);
        lemma_pow2_pos((-j) as nat);
        assert(m * c < pow2(l) * c) by (nonlinear_arith)
            requires
                m < pow2(l),
                c > 0,
        ;
        assert(e0 - s == k + (-j));
        assert(e0 - s + 1 == k + (1 - j));
        assert(m * (2 * c) == 2 * (m * c)) by (nonlinear_arith);
        assert(round_half_even(n, d, e0 - s) == m * c);
    }
}

/// `2^k` as a machine integer.
pub fn pow2_u128(k: u32) -> (r: u128)
    requires
        k <= 127,
    ensures
        r == pow2(k as nat),
{
    let mut r: u128 = 1;
    let mut i: u32 = 0;
    proof {
        lemma2_to64();
    }
    while i < k
        invariant
            i <= k <= 127,
            r == pow2(i as nat),
        decreases k - i,
    {
        proof {
            lemma_pow2_unfold((i + 1) as nat);
            lemma_pow2_ascends((i + 1) as nat, 127);
            lemma_pow2_127();
        }
        r = r * 2;
        i += 1;
    }
    r
}

/// The number of bits of `m`: the least `l` with `m < 2^l`.
pub fn bit_length(m: u128) -> (l: u32)
    requires
        m < 0x8000_0000_0000_0000_0000_0000_0000_0000,
    ensures
        l <= 127,
        m < pow2(l as nat),
        l > 0 ==> pow2((l - 1) as nat) <= m,
        m > 0 ==> l > 0,
{
    let mut l: u32 = 0;
    let mut p: u128 = 1;
    proof {
        lemma2_to64();
    }
    while p <= m
        invariant
            l <= 127,
            p == pow2(l as nat),
            l > 0 ==> pow2((l - 1) as nat) <= m,
            m < 0x8000_0000_0000_0000_0000_0000_0000_0000,
        decreases 127 - l,
    {
        proof {
            lemma_pow2_127();
            lemma_pow2_unfold((l + 1) as nat);
            lemma_pow2_ascends((l + 1) as nat, 127);
        }
        p = p * 2;
        l += 1;
    }
    l
}

/// The magnitude bits of the binary32 value nearest to a rational, computed
/// from `m`, its integer part in units of `2^e`, and from whether a fraction
/// was cut off. The rational itself, `n / d * 2^e0`, is ghost.
pub(crate) fn pack(
    m: u128,
    inexact: bool,
    e: i32,
    Ghost(n): Ghost<nat>,
    Ghost(d): Ghost<nat>,
    Ghost(e0): Ghost<int>,
) -> (bits: u32)
    requires
        d > 0,
        m < 0x8000_0000_0000_0000_0000_0000_0000_0000,
        -1000 <= e <= 1000,
        m == scaled_floor(n, d, e0 - e),
        inexact == !scaled_exact(n, d, e0 - e),
        inexact ==> m >= 0x100_0000 || e <= -150,
    ensures
        bits == nearest(n, d, e0),
        bits <= INFINITY_BITS,
{
    if m == 0 {
        proof {
            lemma_round_zero(n, d, e0, inexact, e as int);
        }
        return 0;
    }
    let l = bit_length(m);
    let s0: i32 = l as i32 - 24 + e;
    let s: i32 = if s0 < -149 { -149 } else { s0 };
    proof {
        lemma_round_by_parts(n, d, e0, m as nat, inexact, e as int, l as nat, s as int);
    }
    if s >= 105 {
        return INFINITY_BITS;
    }
    let j: i32 = s - e;
    let mant: u128;
    if j <= 0 {
        proof {
            lemma_pow2_127();
            lemma_pow2_ascends((-j) as nat, 127);
        }
        let p = pow2_u128((-j) as u32);
        mant = m * p;
    } else if j - 1 >= 127 {
        proof {
            lemma_pow2_127();
            lemma_pow2_ascends(127, (j - 1) as nat);
            vstd::arithmetic::div_mod::lemma_small_mod(m as nat, pow2((j - 1) as nat));
            vstd::arithmetic::div_mod::lemma_basic_div(m as int, pow2((j - 1) as nat) as int);
        }
        mant = 0;
    } else {
        let p = pow2_u128((j - 1) as u32);
        proof {
            lemma_pow2_pos((j - 1) as nat);
        }
        let h = m / p;
        let t = h / 2;
        let up = h % 2 == 1 && (inexact || m % p != 0 || t % 2 == 1);
        mant = if up { t + 1 } else { t };
    }
    ((s + 149) as u32) * 0x80_0000 + (mant as u32)
}

/// A value whose integer part is zero in a scale that lies below every
/// binary32 quantum, or that is zero, rounds to zero.
pub proof fn lemma_round_zero(n: nat, d: nat, e0: int, inexact: bool, e: int)
    requires
        d > 0,
        0 == scaled_floor(n, d, e0 - e),
        inexact == !scaled_exact(n, d, e0 - e),
        inexact ==> e <= -150,
    ensures
        nearest(n, d, e0) == 0,
{
    let k = e0 - e;
    let j = -149 - e;
    if j >= 1 {
        lemma_coarsen(n, d, k, j);
        lemma_coarsen(n, d, k, j - 1);
        lemma_pow2_pos(j as nat);
        lemma_pow2_pos((j - 1) as nat);
        assert(e0 + 149 == k - j);
        assert(e0 + 149 + 1 == k - (j - 1));
    } else {
        lemma_refine(n, d, k, -j);
        lemma_refine(n, d, k, 1 - j);
        assert(e0 + 149 == k + (-j));
        assert(e0 + 149 + 1 == k + (1 - j));
        assert(0 * pow2((-j) as nat) == 0) by (nonlinear_arith);
        assert(0 * pow2((1 - j) as nat) == 0) by (nonlinear_arith);
    }
}

} // verus!
