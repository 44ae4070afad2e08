//! Decimal numerals and the reals nearest to them.
use crate::reals::Real;
use crate::rounding::{lemma_div_at_least, lemma_skip, nearest, pack, INFINITY_BITS};
use vstd::arithmetic::div_mod::lemma_fundamental_div_mod_converse;
use vstd::arithmetic::power2::{lemma2_to64, lemma_pow2_adds, lemma_pow2_unfold, pow2};
use vstd::prelude::*;

verus! {

/// The number that a sequence of decimal digits writes, the first digit being
/// the most significant.
pub open spec fn decimal_value(ds: Seq<u8>) -> nat
    decreases ds.len(),
{
    if ds.len() == 0 {
        0
    } else {
        decimal_value(ds.drop_last()) * 10 + ds.last() as nat
    }
}

/// `10^k`.
pub open spec fn pow10(k: nat) -> nat
    decreases k,
{
    if k == 0 {
        1
    } else {
        10 * pow10((k - 1) as nat)
    }
}

/// Every element is a decimal digit.
pub open spec fn all_digits(ds: Seq<u8>) -> bool {
    forall|i: int| 0 <= i < ds.len() ==> #[trigger] ds[i] < 10
}

/// The real nearest to the decimal numeral with the digits `whole` before
/// the point and `fraction` after it.
pub open spec fn spec_from_decimal(whole: Seq<u8>, fraction: Seq<u8>) -> Real {
    Real::make(false, nearest(decimal_value(whole + fraction), pow10(fraction.len()), 0))
}

/// Powers of ten are positive.
pub proof fn lemma_pow10_pos(k: nat)
    ensures
        pow10(k) > 0,
    decreases k,
{
    if k > 0 {
        lemma_pow10_pos((k - 1) as nat);
    }
}

/// A further digit multiplies the number by ten and adds the digit.
pub proof fn lemma_value_push(ds: Seq<u8>, d: u8)
    ensures
        decimal_value(ds.push(d)) == decimal_value(ds) * 10 + d,
{
    assert(ds.push(d).drop_last() =~= ds);
}

/// A numeral of `k` digits writes a number below `10^k`.
pub proof fn lemma_value_bound(ds: Seq<u8>)
    requires
        all_digits(ds),
    ensures
        decimal_value(ds) < pow10(ds.len()),
    decreases ds.len(),
{
    if ds.len() > 0 {
        assert(ds.last() < 10);
        lemma_value_bound(ds.drop_last());
    }
}

/// Digits written after a numeral shift it by one power of ten each.
pub proof fn lemma_value_concat(a: Seq<u8>, b: Seq<u8>)
    ensures
        decimal_value(a + b) == decimal_value(a) * pow10(b.len()) + decimal_value(b),
    decreases b.len(),
{
    if b.len() == 0 {
        assert(a + b =~= a);
        assert(decimal_value(a) * 1 == decimal_value(a)) by (nonlinear_arith);
    } else {
        assert((a + b).drop_last() =~= a + b.drop_last());
        lemma_value_concat(a, b.drop_last());
        let x = decimal_value(a);
        let p = pow10((b.len() - 1) as nat);
        let y = decimal_value(b.drop_last());
        assert((x * p + y) * 10 == x * (10 * p) + y * 10) by (nonlinear_arith);
    }
}

/// The first digits of a numeral write no more than the whole numeral.
pub proof fn lemma_value_monotone(ds: Seq<u8>, i: int)
    requires
        0 <= i <= ds.len(),
    ensures
        decimal_value(ds.take(i)) <= decimal_value(ds),
    decreases ds.len() - i,
{
    if i < ds.len() {
        assert(ds.take(i + 1) =~= ds.take(i).push(ds[i]));
        lemma_value_push(ds.take(i), ds[i]);
        lemma_value_monotone(ds, i + 1);
    } else {
        assert(ds.take(i) =~= ds);
    }
}

/// Doubles the number that the digits write, in place; what does not fit the
/// digits comes back as the carry.
fn double_digits(g: &mut Vec<u8>) -> (carry: u8)
    requires
        all_digits(old(g)@),
    ensures
        all_digits(final(g)@),
        final(g)@.len() == old(g)@.len(),
        carry <= 1,
        decimal_value(final(g)@) + carry * pow10(old(g)@.len()) == 2 * decimal_value(old(g)@),
{
    let k = g.len();
    let mut i: usize = k;
    let mut c: u8 = 0;
    proof {
        assert(g@.skip(k as int) =~= Seq::<u8>::empty());
    }
    while i > 0
        invariant
            i <= k,
            k == g@.len(),
            k == old(g)@.len(),
            c <= 1,
            all_digits(g@),
            all_digits(old(g)@),
            g@.take(i as int) == old(g)@.take(i as int),
            2 * decimal_value(old(g)@.skip(i as int)) == c * pow10((k - i) as nat) + decimal_value(
                g@.skip(i as int),
            ),
        decreases i,
    {
        let ghost before = g@;
        let ghost p = pow10((k - i) as nat);
        assert(g@[i - 1] == old(g)@.take(i as int)[i - 1]);
        let x: u8 = 2 * g[i - 1] + c;
        g.set(i - 1, x % 10);
        proof {
            let d_old = old(g)@[i - 1];
            let d_new = g@[i - 1];
            let c_new = x / 10;
            assert(old(g)@.skip(i - 1) =~= seq![d_old] + old(g)@.skip(i as int));
            assert(g@.skip(i - 1) =~= seq![d_new] + g@.skip(i as int));
            assert(g@.skip(i as int) =~= before.skip(i as int));
            lemma_value_concat(seq![d_old], old(g)@.skip(i as int));
            lemma_value_concat(seq![d_new], g@.skip(i as int));
            assert(seq![d_old] =~= Seq::<u8>::empty().push(d_old));
            assert(seq![d_new] =~= Seq::<u8>::empty().push(d_new));
            lemma_value_push(Seq::<u8>::empty(), d_old);
            lemma_value_push(Seq::<u8>::empty(), d_new);
            assert(decimal_value(seq![d_old]) == d_old);
            assert(decimal_value(seq![d_new]) == d_new);
            let so = decimal_value(old(g)@.skip(i as int));
            let sn = decimal_value(g@.skip(i as int));
            assert(2 * (d_old * p + so) == c_new * (10 * p) + (d_new * p + sn))
                by (nonlinear_arith)
                requires
                    2 * so == c * p + sn,
                    2 * d_old + c == 10 * c_new + d_new,
            ;
            assert(g@.take(i - 1) =~= old(g)@.take(i - 1));
            assert forall|j: int| 0 <= j < g@.len() implies #[trigger] g@[j] < 10 by {
                if j != i - 1 {
                    assert(g@[j] == before[j]);
                }
            }
        }
        c = x / 10;
        i -= 1;
    }
    proof {
        assert(g@.skip(0) =~= g@);
        assert(old(g)@.skip(0) =~= old(g)@);
    }
    c
}

/// Whether the digits write a number other than zero.
fn nonzero(g: &Vec<u8>) -> (r: bool)
    ensures
        r == (decimal_value(g@) != 0),
{
    let mut i: usize = 0;
    let mut r = false;
    proof {
        assert(g@.take(0) =~= Seq::<u8>::empty());
    }
    while i < g.len()
        invariant
            i <= g.len(),
            r == (decimal_value(g@.take(i as int)) != 0),
        decreases g.len() - i,
    {
        proof {
            assert(g@.take(i + 1) =~= g@.take(i as int).push(g@[i as int]));
            lemma_value_push(g@.take(i as int), g@[i as int]);
        }
        if g[i] != 0 {
            r = true;
        }
        i += 1;
    }
    proof {
        assert(g@.take(g@.len() as int) =~= g@);
    }
    r
}

/// A copy of a digit list.
fn copy_digits(f: &Vec<u8>) -> (g: Vec<u8>)
    ensures
        g@ == f@,
{
    let mut g: Vec<u8> = Vec::new();
    let mut i: usize = 0;
    while i < f.len()
        invariant
            i <= f.len(),
            g@ == f@.take(i as int),
        decreases f.len() - i,
    {
        g.push(f[i]);
        proof {
            assert(f@.take(i + 1) =~= f@.take(i as int).push(f@[i as int]));
        }
        i += 1;
    }
    proof {
        assert(f@.take(f@.len() as int) =~= f@);
    }
    g
}

/// The real nearest to a decimal numeral, given by the digits before and
/// after its point.
pub fn from_decimal(whole: &Vec<u8>, fraction: &Vec<u8>) -> (r: Real)
    requires
        all_digits(whole@),
        all_digits(fraction@),
    ensures
        r == spec_from_decimal(whole@, fraction@),
{
    let ghost n = decimal_value(whole@ + fraction@);
    let ghost d = pow10(fraction@.len());
    let ghost f = decimal_value(fraction@);
    proof {
        lemma_value_concat(whole@, fraction@);
        lemma_value_bound(fraction@);
        lemma_pow10_pos(fraction@.len());
        lemma2_to64();
        assert(whole@.take(0) =~= Seq::<u8>::empty());
    }
    let mut w: u128 = 0;
    let mut i: usize = 0;
    while i < whole.len()
        invariant
            i <= whole.len(),
            all_digits(whole@),
            w == decimal_value(whole@.take(i as int)),
            d > 0,
            n == decimal_value(whole@ + fraction@),
            d == pow10(fraction@.len()),
            n == decimal_value(whole@) * d + f,
        decreases whole.len() - i,
    {
        let digit = whole[i] as u128;
        proof {
            assert(whole@.take(i + 1) =~= whole@.take(i as int).push(whole@[i as int]));
            lemma_value_push(whole@.take(i as int), whole@[i as int]);
        }
        if w > (u128::MAX - digit) / 10 {
            proof {
                assert(w * 10 + digit > u128::MAX);
                lemma_value_monotone(whole@, i + 1);
                lemma_beyond_range(n, d, f, decimal_value(whole@));
            }
            return Real { bits: INFINITY_BITS };
        }
        w = w * 10 + digit;
        i += 1;
    }
    proof {
        assert(whole@.take(whole@.len() as int) =~= whole@);
        assert(n * 1 == n) by (nonlinear_arith);
    }
    if w >= 0x100_0000 {
        let cut = nonzero(fraction);
        if w < 0x8000_0000_0000_0000_0000_0000_0000_0000 {
            proof {
                lemma_fundamental_div_mod_converse(n as int, d as int, w as int, f as int);
            }
            let mag = pack(w, cut, 0, Ghost(n), Ghost(d), Ghost(0));
            Real { bits: mag }
        } else {
            let half = w / 2;
            let odd = w % 2 == 1;
            proof {
                let rest = (w % 2) * d + f;
                assert(n == half * (d * 2) + rest) by (nonlinear_arith)
                    requires
                        n == w * d + f,
                        w == 2 * half + w % 2,
                        rest == (w % 2) * d + f,
                ;
                assert(0 <= rest < d * 2 && (rest == 0 <==> (w % 2 == 0 && f == 0)))
                    by (nonlinear_arith)
                    requires
                        rest == (w % 2) * d + f,
                        0 <= w % 2 <= 1,
                        0 <= f < d,
                ;
                lemma_fundamental_div_mod_converse(
                    n as int,
                    (d * 2) as int,
                    half as int,
                    rest as int,
                );
            }
            let mag = pack(half, odd || cut, 1, Ghost(n), Ghost(d), Ghost(0));
            Real { bits: mag }
        }
    } else {
        let mut g = copy_digits(fraction);
        let mut m: u128 = w;
        let mut j: i32 = 0;
        while m < 0x100_0000 && j < 150
            invariant
                0 <= j <= 150,
                j > 0 ==> m < 0x200_0000,
                j == 0 ==> m < 0x100_0000,
                all_digits(g@),
                g@.len() == fraction@.len(),
                d == pow10(fraction@.len()),
                d > 0,
                m * d + decimal_value(g@) == n * pow2(j as nat),
            decreases 150 - j,
        {
            let ghost gv = decimal_value(g@);
            let carry = double_digits(&mut g);
            proof {
                lemma_pow2_unfold((j + 1) as nat);
                let gn = decimal_value(g@);
                let p = pow2(j as nat);
                assert((2 * m + carry) * d + gn == n * (2 * p)) by (nonlinear_arith)
                    requires
                        m * d + gv == n * p,
                        gn + carry * d == 2 * gv,
                ;
            }
            m = 2 * m + carry as u128;
            j += 1;
        }
        let cut = nonzero(&g);
        proof {
            lemma_value_bound(g@);
            lemma_fundamental_div_mod_converse(
                (n * pow2(j as nat)) as int,
                d as int,
                m as int,
                decimal_value(g@) as int,
            );
        }
        let mag = pack(m, cut, -j, Ghost(n), Ghost(d), Ghost(0));
        Real { bits: mag }
    }
}

/// A numeral whose whole part is `2^128` or more is out of range.
pub proof fn lemma_beyond_range(n: nat, d: nat, f: nat, w: nat)
    requires
        d > 0,
        n == w * d + f,
        w > u128::MAX,
    ensures
        nearest(n, d, 0) == 0x7F80_0000,
{
    lemma2_to64();
    lemma_pow2_adds(64, 40);
    vstd::arithmetic::power2::lemma2_to64_rest();
    lemma_pow2_adds(24, 104);
    let q = pow2(104);
    assert(q == 0x1_0000_0000_0000_0000 * 0x100_0000_0000);
    assert(n >= 0x100_0000 * (d * q)) by (nonlinear_arith)
        requires
            n == w * d + f,
            w >= 0x100_0000 * q,
            d > 0,
    ;
    assert(d * q > 0) by (nonlinear_arith)
        requires
            d > 0,
            q > 0,
    ;
    lemma_div_at_least(n as int, (d * q) as int, 0x100_0000);
    lemma_skip(n, d, 0, -149, 104);
}

} // verus!
