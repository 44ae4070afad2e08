//! The real numbers of the language: IEEE 754 binary32 values held as bits, with
//! their arithmetic stated over exact values and computed on integers.
use crate::rounding::{
    bits_of, lemma_bits_of, lemma_div_at_least, lemma_div_below, lemma_pow2_ascends,
    lemma_rescale, lemma_round_by_parts, lemma_round_zero, nearest, pack, pow2_u128,
    rounded_significand, scaled_exact, scaled_floor, INFINITY_BITS,
};
use vstd::arithmetic::div_mod::lemma_fundamental_div_mod_converse;
use vstd::arithmetic::power2::{
    lemma2_to64, lemma2_to64_rest, lemma_pow2_adds, lemma_pow2_pos, pow2,
};
use vstd::prelude::*;

verus! {

/// An integer is its own integer part.
pub proof fn lemma_scaled_integer(m: nat)
    ensures
        scaled_floor(m, 1, 0) == m,
        scaled_exact(m, 1, 0),
{
    lemma2_to64();
    assert(m * 1 == m) by (nonlinear_arith);
}

/// Rounding leaves the values of binary32 as they are: a finite value
/// `m * 2^e`, rounded to the nearest binary32 value, is itself.
pub proof fn lemma_exact_values_stay(a: Real)
    requires
        a.finite(),
    ensures
        nearest(a.significand(), 1, a.exponent()) == a.magnitude(),
{
    let m = a.significand();
    let e = a.exponent();
    lemma_scaled_integer(m);
    lemma2_to64();
    if m == 0 {
        lemma_round_zero(m, 1, e, false, e);
    } else {
        lemma_bits_of(m);
        let l = bits_of(m);
        if a.exponent_field() == 0 {
            if l > 23 {
                lemma_pow2_ascends(23, (l - 1) as nat);
            }
        } else {
            if l > 24 {
                lemma_pow2_ascends(24, (l - 1) as nat);
            }
            if l < 24 {
                lemma_pow2_ascends(l, 23);
            }
        }
        lemma_round_by_parts(m, 1, e, m, false, e, l, e);
        assert(m * 1 == m) by (nonlinear_arith);
    }
}

/// The bit that carries the sign of a binary32 value.
pub const SIGN_BIT: u32 = 0x8000_0000;

/// The bits of the one not-a-number value that arithmetic produces.
pub const NAN_BITS: u32 = 0x7FC0_0000;

/// A real number of the language: an IEEE 754 binary32 value, held as its 32
/// bits. Arithmetic rounds to nearest, ties to even.
#[derive(Debug, Clone, Copy, PartialEq, Eq, Structural)]
pub struct Real {
    pub bits: u32,
}

impl Real {
    /// Whether the sign bit is set.
    pub open spec fn negative(self) -> bool {
        self.bits >= 0x8000_0000
    }

    /// The bits without the sign.
    pub open spec fn magnitude(self) -> nat {
        (self.bits % 0x8000_0000) as nat
    }

    /// The biased exponent, 0 to 255.
    pub open spec fn exponent_field(self) -> nat {
        self.magnitude() / 0x80_0000
    }

    /// The 23 stored bits of the significand.
    pub open spec fn fraction_field(self) -> nat {
        self.magnitude() % 0x80_0000
    }

    /// Whether the value is not a number.
    pub open spec fn nan(self) -> bool {
        self.magnitude() > 0x7F80_0000
    }

    /// Whether the value is an infinity.
    pub open spec fn infinite(self) -> bool {
        self.magnitude() == 0x7F80_0000
    }

    /// Whether the value is a number: neither an infinity nor not-a-number.
    pub open spec fn finite(self) -> bool {
        self.magnitude() < 0x7F80_0000
    }

    /// Whether the value is zero, of either sign.
    pub open spec fn zero(self) -> bool {
        self.magnitude() == 0
    }

    /// The significand `m` of a finite value `m * 2^e`, with the implicit
    /// leading bit of a normal number.
    pub open spec fn significand(self) -> nat {
        if self.exponent_field() == 0 {
            self.fraction_field()
        } else {
            self.fraction_field() + 0x80_0000
        }
    }

    /// The exponent `e` of a finite value `m * 2^e`.
    pub open spec fn exponent(self) -> int {
        if self.exponent_field() == 0 {
            -149
        } else {
            self.exponent_field() - 150
        }
    }

    /// The significand with the value's sign.
    pub open spec fn signed_significand(self) -> int {
        if self.negative() {
            -(self.significand() as int)
        } else {
            self.significand() as int
        }
    }

    /// The value is finite and is the integer `v`.
    pub open spec fn is_integer(self, v: int) -> bool {
        &&& self.finite()
        &&& if self.exponent() >= 0 {
            self.signed_significand() * pow2(self.exponent() as nat) == v
        } else {
            self.signed_significand() == v * pow2((-self.exponent()) as nat)
        }
    }

    /// The value with the given sign and magnitude bits.
    pub open spec fn make(neg: bool, mag: nat) -> Real {
        Real { bits: (if neg { 0x8000_0000 + mag } else { mag }) as u32 }
    }

    /// The not-a-number value that arithmetic produces.
    pub open spec fn spec_nan() -> Real {
        Real { bits: 0x7FC0_0000 }
    }

    /// The real nearest to the integer `a`.
    pub open spec fn spec_from_int(a: int) -> Real {
        Real::make(a < 0, nearest((if a < 0 { -a } else { a }) as nat, 1, 0))
    }

    /// The value with the opposite sign.
    pub open spec fn spec_neg(self) -> Real {
        Real::make(!self.negative(), self.magnitude())
    }

    /// The sum: not-a-number if an operand is one or if two infinities of
    /// opposite sign meet; an infinite operand otherwise; else the exact sum
    /// rounded to nearest, a zero sum being negative only if both operands
    /// are.
    pub open spec fn spec_add(self, other: Real) -> Real {
        if self.nan() || other.nan() {
            Real::spec_nan()
        } else if self.infinite() {
            if other.infinite() && self.negative() != other.negative() {
                Real::spec_nan()
            } else {
                self
            }
        } else if other.infinite() {
            other
        } else {
            let e = if self.exponent() <= other.exponent() {
                self.exponent()
            } else {
                other.exponent()
            };
            let sum = self.signed_significand() * pow2((self.exponent() - e) as nat)
                + other.signed_significand() * pow2((other.exponent() - e) as nat);
            if sum == 0 {
                Real::make(self.negative() && other.negative(), 0)
            } else {
                Real::make(sum < 0, nearest((if sum < 0 { -sum } else { sum }) as nat, 1, e))
            }
        }
    }

    /// The difference: the sum with the second operand's sign turned.
    pub open spec fn spec_sub(self, other: Real) -> Real {
        self.spec_add(other.spec_neg())
    }

    /// The product: not-a-number if an operand is one or if zero meets
    /// infinity; infinite if an operand is; else the exact product rounded to
    /// nearest. The sign is negative if exactly one operand's is.
    pub open spec fn spec_mul(self, other: Real) -> Real {
        let neg = self.negative() != other.negative();
        if self.nan() || other.nan() {
            Real::spec_nan()
        } else if self.infinite() || other.infinite() {
            if self.zero() || other.zero() {
                Real::spec_nan()
            } else {
                Real::make(neg, 0x7F80_0000)
            }
        } else {
            Real::make(
                neg,
                nearest(
                    self.significand() * other.significand(),
                    1,
                    self.exponent() + other.exponent(),
                ),
            )
        }
    }

    /// The quotient: not-a-number if an operand is one, for infinity by
    /// infinity and for zero by zero; infinite for an infinite dividend or a
    /// zero divisor; zero for an infinite divisor; else the exact quotient
    /// rounded to nearest. The sign is negative if exactly one operand's is.
    pub open spec fn spec_div(self, other: Real) -> Real {
        let neg = self.negative() != other.negative();
        if self.nan() || other.nan() {
            Real::spec_nan()
        } else if self.infinite() {
            if other.infinite() {
                Real::spec_nan()
            } else {
                Real::make(neg, 0x7F80_0000)
            }
        } else if other.infinite() {
            Real::make(neg, 0)
        } else if other.zero() {
            if self.zero() {
                Real::spec_nan()
            } else {
                Real::make(neg, 0x7F80_0000)
            }
        } else {
            Real::make(
                neg,
                nearest(self.significand(), other.significand(), self.exponent() - other.exponent()),
            )
        }
    }

    /// The value cut off towards zero and brought into the range of `i32`:
    /// zero for not-a-number, the nearest bound for what lies outside.
    pub open spec fn spec_truncate(self) -> int {
        if self.nan() {
            0
        } else if self.infinite() {
            if self.negative() {
                -0x8000_0000
            } else {
                0x7FFF_FFFF
            }
        } else {
            let t = scaled_floor(self.significand(), 1, self.exponent()) as int;
            if self.negative() {
                if t >= 0x8000_0000 {
                    -0x8000_0000
                } else {
                    -t
                }
            } else {
                if t > 0x7FFF_FFFF {
                    0x7FFF_FFFF
                } else {
                    t
                }
            }
        }
    }

    /// The value with the given bits.
    pub fn from_bits(bits: u32) -> (r: Real)
        ensures
            r.bits == bits,
    {
        Real { bits }
    }

    /// The 32 bits of the value.
    pub fn to_bits(self) -> (bits: u32)
        ensures
            bits == self.bits,
    {
        self.bits
    }

    /// Whether the sign bit is set.
    pub fn is_negative(self) -> (r: bool)
        ensures
            r == self.negative(),
    {
        self.bits >= SIGN_BIT
    }

    /// Whether the value is not a number.
    pub fn is_nan(self) -> (r: bool)
        ensures
            r == self.nan(),
    {
        self.bits % SIGN_BIT > INFINITY_BITS
    }

    /// Whether the value is an infinity.
    pub fn is_infinite(self) -> (r: bool)
        ensures
            r == self.infinite(),
    {
        self.bits % SIGN_BIT == INFINITY_BITS
    }

    /// Whether the value is zero, of either sign.
    pub fn is_zero(self) -> (r: bool)
        ensures
            r == self.zero(),
    {
        self.bits % SIGN_BIT == 0
    }

    fn significand_bits(self) -> (m: u32)
        ensures
            m == self.significand(),
            m < 0x100_0000,
            self.exponent() > -149 ==> m >= 0x80_0000,
    {
        let mag = self.bits % SIGN_BIT;
        if mag / 0x80_0000 == 0 {
            mag % 0x80_0000
        } else {
            mag % 0x80_0000 + 0x80_0000
        }
    }

    fn exponent_value(self) -> (e: i32)
        ensures
            e == self.exponent(),
            -149 <= e <= 105,
            self.finite() ==> e <= 104,
    {
        let mag = self.bits % SIGN_BIT;
        let field = mag / 0x80_0000;
        if field == 0 {
            -149
        } else {
            field as i32 - 150
        }
    }

    fn assemble(neg: bool, mag: u32) -> (r: Real)
        requires
            mag < 0x8000_0000,
        ensures
            r == Real::make(neg, mag as nat),
            r.negative() == neg,
            r.magnitude() == mag,
    {
        if neg {
            Real { bits: SIGN_BIT + mag }
        } else {
            Real { bits: mag }
        }
    }

    /// The real nearest to an integer.
    pub fn from_i32(a: i32) -> (r: Real)
        ensures
            r == Real::spec_from_int(a as int),
    {
        let wide: i64 = a as i64;
        let m: u128 = if wide < 0 { (-wide) as u128 } else { wide as u128 };
        proof {
            lemma_scaled_integer(m as nat);
        }
        let mag = pack(m, false, 0, Ghost(m as nat), Ghost(1), Ghost(0));
        Real::assemble(a < 0, mag)
    }

    /// The value with the opposite sign.
    pub fn neg(self) -> (r: Real)
        ensures
            r == self.spec_neg(),
    {
        if self.bits >= SIGN_BIT {
            Real { bits: self.bits - SIGN_BIT }
        } else {
            Real { bits: self.bits + SIGN_BIT }
        }
    }

    /// The product, rounded to nearest.
    pub fn mul(self, other: Real) -> (r: Real)
        ensures
            r == self.spec_mul(other),
    {
        let neg = self.is_negative() != other.is_negative();
        if self.is_nan() || other.is_nan() {
            return Real { bits: NAN_BITS };
        }
        if self.is_infinite() || other.is_infinite() {
            if self.is_zero() || other.is_zero() {
                return Real { bits: NAN_BITS };
            }
            return Real::assemble(neg, INFINITY_BITS);
        }
        let ma = self.significand_bits() as u128;
        let mb = other.significand_bits() as u128;
        let e = self.exponent_value() + other.exponent_value();
        assert(ma * mb < 0x100_0000 * 0x100_0000) by (nonlinear_arith)
            requires
                ma < 0x100_0000,
                mb < 0x100_0000,
        ;
        let m = ma * mb;
        proof {
            lemma_scaled_integer(m as nat);
        }
        let mag = pack(m, false, e, Ghost(m as nat), Ghost(1), Ghost(e as int));
        Real::assemble(neg, mag)
    }

    /// The quotient, rounded to nearest.
    pub fn div(self, other: Real) -> (r: Real)
        ensures
            r == self.spec_div(other),
    {
        let neg = self.is_negative() != other.is_negative();
        if self.is_nan() || other.is_nan() {
            return Real { bits: NAN_BITS };
        }
        if self.is_infinite() {
            if other.is_infinite() {
                return Real { bits: NAN_BITS };
            }
            return Real::assemble(neg, INFINITY_BITS);
        }
        if other.is_infinite() {
            return Real::assemble(neg, 0);
        }
        if other.is_zero() {
            if self.is_zero() {
                return Real { bits: NAN_BITS };
            }
            return Real::assemble(neg, INFINITY_BITS);
        }
        let ma = self.significand_bits() as u128;
        let mb = other.significand_bits() as u128;
        let e = self.exponent_value() - other.exponent_value();
        let scale = pow2_u128(50);
        proof {
            lemma2_to64_rest();
            assert(mb > 0);
            assert(ma * scale < 0x100_0000 * 0x4_0000_0000_0000) by (nonlinear_arith)
                requires
                    ma < 0x100_0000,
                    scale == 0x4_0000_0000_0000,
            ;
        }
        let num = ma * scale;
        let q = num / mb;
        let inexact = num % mb != 0;
        proof {
            assert(scaled_floor(ma as nat, mb as nat, 50) == q);
            if inexact {
                if ma == 0 {
                    assert(ma * scale == 0) by (nonlinear_arith)
                        requires
                            ma == 0,
                    ;
                }
                assert(ma >= 1);
                assert(num >= 0x100_0000 * mb) by (nonlinear_arith)
                    requires
                        num == ma * scale,
                        ma >= 1,
                        scale == 0x4_0000_0000_0000,
                        mb < 0x100_0000,
                ;
                lemma_div_at_least(num as int, mb as int, 0x100_0000);
            }
        }
        let mag = pack(q, inexact, e - 50, Ghost(ma as nat), Ghost(mb as nat), Ghost(e as int));
        Real::assemble(neg, mag)
    }

    /// The sum of two finite values whose exponents lie so far apart that the
    /// lower one only decides the rounding.
    fn add_far(hi: Real, lo: Real) -> (r: Real)
        requires
            hi.finite(),
            lo.finite(),
            hi.exponent() - lo.exponent() > 60,
        ensures
            r == hi.spec_add(lo),
            r == lo.spec_add(hi),
    {
        let mh = hi.significand_bits() as u128;
        let ml = lo.significand_bits() as u128;
        let eh = hi.exponent_value();
        let el = lo.exponent_value();
        let same = hi.is_negative() == lo.is_negative();
        let inexact = ml != 0;
        let m = if same || ml == 0 { mh * 8 } else { (mh * 8 - 1) as u128 };
        let ghost d = eh - el;
        let ghost q = pow2((d - 3) as nat) as int;
        let ghost t = (mh * 8) * q;
        let ghost n = if same { t + ml } else { t - ml };
        proof {
            let p = pow2(d as nat) as int;
            lemma2_to64();
            lemma_pow2_adds(3, (d - 3) as nat);
            lemma_pow2_ascends(24, (d - 3) as nat);
            assert(mh * p == t) by (nonlinear_arith)
                requires
                    p == 8 * q,
                    t == (mh * 8) * q,
            ;
            assert((-(mh as int)) * p == -t) by (nonlinear_arith)
                requires
                    mh * p == t,
            ;
            assert(ml * 1 == ml && (-(ml as int)) * 1 == -(ml as int)) by (nonlinear_arith);
            assert(t >= q) by (nonlinear_arith)
                requires
                    t == (mh * 8) * q,
                    mh >= 1,
                    q >= 0,
            ;
            let rem = if same || ml == 0 { ml as int } else { q - ml };
            assert(n == m * q + rem) by (nonlinear_arith)
                requires
                    t == (mh * 8) * q,
                    n == if same { t + ml } else { t - ml },
                    m == if same || ml == 0 { mh * 8 } else { mh * 8 - 1 },
                    rem == if same || ml == 0 { ml as int } else { q - ml },
            ;
            lemma_fundamental_div_mod_converse(n, q, m as int, rem);
            assert(1 * q == q) by (nonlinear_arith);
            assert(el - (eh - 3) == -(d - 3));
            let sum = hi.signed_significand() * pow2((hi.exponent() - el) as nat)
                + lo.signed_significand() * pow2((lo.exponent() - el) as nat);
            assert(sum == if hi.negative() { -n } else { n });
            assert(n > 0);
        }
        let mag = pack(m, inexact, eh - 3, Ghost(n as nat), Ghost(1), Ghost(el as int));
        Real::assemble(hi.is_negative(), mag)
    }

    /// The sum, rounded to nearest.
    pub fn add(self, other: Real) -> (r: Real)
        ensures
            r == self.spec_add(other),
    {
        if self.is_nan() || other.is_nan() {
            return Real { bits: NAN_BITS };
        }
        if self.is_infinite() {
            if other.is_infinite() && self.is_negative() != other.is_negative() {
                return Real { bits: NAN_BITS };
            }
            return self;
        }
        if other.is_infinite() {
            return other;
        }
        let ea = self.exponent_value();
        let eb = other.exponent_value();
        let e = if ea <= eb { ea } else { eb };
        if ea - e > 60 {
            return Real::add_far(self, other);
        }
        if eb - e > 60 {
            return Real::add_far(other, self);
        }
        let ma = self.significand_bits() as u128;
        let mb = other.significand_bits() as u128;
        let pa = pow2_u128((ea - e) as u32);
        let pb = pow2_u128((eb - e) as u32);
        proof {
            lemma2_to64_rest();
            lemma_pow2_ascends((ea - e) as nat, 60);
            lemma_pow2_ascends((eb - e) as nat, 60);
            assert(ma * pa < 0x100_0000 * 0x1000_0000_0000_0000) by (nonlinear_arith)
                requires
                    ma < 0x100_0000,
                    pa <= 0x1000_0000_0000_0000,
            ;
            assert(mb * pb < 0x100_0000 * 0x1000_0000_0000_0000) by (nonlinear_arith)
                requires
                    mb < 0x100_0000,
                    pb <= 0x1000_0000_0000_0000,
            ;
            assert((-(ma as int)) * pa == -(ma * pa)) by (nonlinear_arith);
            assert((-(mb as int)) * pb == -(mb * pb)) by (nonlinear_arith);
        }
        let xa = (ma * pa) as i128;
        let xb = (mb * pb) as i128;
        let sa = if self.is_negative() { -xa } else { xa };
        let sb = if other.is_negative() { -xb } else { xb };
        let sum = sa + sb;
        if sum == 0 {
            return Real::assemble(self.is_negative() && other.is_negative(), 0);
        }
        let m = if sum < 0 { (-sum) as u128 } else { sum as u128 };
        proof {
            lemma_scaled_integer(m as nat);
        }
        let mag = pack(m, false, e, Ghost(m as nat), Ghost(1), Ghost(e as int));
        Real::assemble(sum < 0, mag)
    }

    /// The difference, rounded to nearest.
    pub fn sub(self, other: Real) -> (r: Real)
        ensures
            r == self.spec_sub(other),
    {
        self.add(other.neg())
    }

    /// The value cut off towards zero, as an `i32`; what lies outside the
    /// range becomes the nearest bound, not-a-number becomes zero.
    pub fn truncate(self) -> (r: i32)
        ensures
            r == self.spec_truncate(),
    {
        if self.is_nan() {
            return 0;
        }
        if self.is_infinite() {
            return if self.is_negative() { i32::MIN } else { i32::MAX };
        }
        let m = self.significand_bits() as u128;
        let e = self.exponent_value();
        let t: u128;
        if e >= 8 {
            proof {
                lemma2_to64();
                lemma_pow2_ascends(8, e as nat);
                assert(m * pow2(e as nat) >= 0x80_0000 * 0x100) by (nonlinear_arith)
                    requires
                        m >= 0x80_0000,
                        pow2(e as nat) >= 0x100,
                ;
            }
            t = 0x8000_0000;
        } else if e >= 0 {
            let p = pow2_u128(e as u32);
            proof {
                lemma2_to64();
                lemma_pow2_ascends(e as nat, 7);
                assert(m * p < 0x100_0000 * 0x80) by (nonlinear_arith)
                    requires
                        m < 0x100_0000,
                        p <= 0x80,
                ;
            }
            t = m * p;
        } else if e > -24 {
            let p = pow2_u128((-e) as u32);
            proof {
                lemma_pow2_pos((-e) as nat);
                assert(1 * p == p) by (nonlinear_arith);
            }
            t = m / p;
        } else {
            proof {
                lemma2_to64();
                lemma_pow2_ascends(24, (-e) as nat);
                assert(1 * pow2((-e) as nat) == pow2((-e) as nat)) by (nonlinear_arith);
                lemma_div_below(m as int, pow2((-e) as nat) as int, 1);
            }
            t = 0;
        }
        if self.is_negative() {
            if t >= 0x8000_0000 {
                i32::MIN
            } else {
                -(t as i32)
            }
        } else {
            if t > 0x7FFF_FFFF {
                i32::MAX
            } else {
                t as i32
            }
        }
    }
}

/// The magnitude bits of a normal value with exponent `e` and significand
/// `m`, taken apart again.
pub proof fn lemma_decode(neg: bool, e: int, m: nat)
    requires
        -149 <= e <= 104,
        0x80_0000 <= m < 0x100_0000,
    ensures
        ({
            let r = Real::make(neg, ((e + 149) * 0x80_0000 + m) as nat);
            r.finite() && r.negative() == neg && r.significand() == m && r.exponent() == e
        }),
{
    let mag = (e + 149) * 0x80_0000 + m;
    let r = Real::make(neg, mag as nat);
    assert(0 <= mag < 0x7F80_0000);
    assert(r.magnitude() == mag);
    lemma_fundamental_div_mod_converse(mag, 0x80_0000, e + 150, m - 0x80_0000);
}

/// An integer below `2^24` in size is a real: the real nearest to it is the
/// integer itself.
pub proof fn lemma_integer_is_real(neg: bool, n: nat)
    requires
        n < 0x100_0000,
    ensures
        Real::make(neg, nearest(n, 1, 0)).is_integer(
            if neg {
                -(n as int)
            } else {
                n as int
            },
        ),
        Real::make(neg, nearest(n, 1, 0)).exponent() <= 0,
{
    lemma_scaled_integer(n);
    lemma2_to64();
    if n == 0 {
        lemma_round_zero(0, 1, 0, false, 0);
        assert(0 * pow2(149) == 0) by (nonlinear_arith);
    } else {
        lemma_bits_of(n);
        let l = bits_of(n);
        if l > 24 {
            lemma_pow2_ascends(24, (l - 1) as nat);
        }
        let s = l - 24;
        lemma_round_by_parts(n, 1, 0, n, false, 0, l, s);
        let p = pow2((24 - l) as nat);
        let m = n * p;
        assert(rounded_significand(n, false, s) == m);
        lemma_pow2_adds((l - 1) as nat, (24 - l) as nat);
        lemma_pow2_adds(l, (24 - l) as nat);
        lemma_pow2_pos((24 - l) as nat);
        assert(pow2((l - 1) as nat) * p <= m < pow2(l) * p) by (nonlinear_arith)
            requires
                pow2((l - 1) as nat) <= n < pow2(l),
                m == n * p,
                p > 0,
        ;
        lemma_decode(neg, s, m);
        assert((-(n as int)) * p == -(m as int)) by (nonlinear_arith)
            requires
                m == n * p,
        ;
        assert(m * 1 == m) by (nonlinear_arith);
        assert((-(m as int)) * 1 == -(m as int)) by (nonlinear_arith);
    }
}

/// A real that is an integer within the range of `i32` is cut off to that
/// integer.
pub proof fn lemma_integer_truncates(x: Real, v: int)
    requires
        x.is_integer(v),
        -0x8000_0000 <= v < 0x8000_0000,
    ensures
        x.spec_truncate() == v,
{
    let m = x.significand() as int;
    let e = x.exponent();
    let w = if v < 0 { -v } else { v };
    if e >= 0 {
        let p = pow2(e as nat) as int;
        lemma_pow2_pos(e as nat);
        assert(m * p == w) by (nonlinear_arith)
            requires
                (m * p == v || (-m) * p == v),
                m >= 0,
                p > 0,
                w == if v < 0 { -v } else { v },
        ;
        assert(x.negative() && m > 0 ==> v < 0) by (nonlinear_arith)
            requires
                x.negative() ==> (-m) * p == v,
                p > 0,
                m >= 0,
        ;
        assert(!x.negative() ==> v >= 0) by (nonlinear_arith)
            requires
                !x.negative() ==> m * p == v,
                p > 0,
                m >= 0,
        ;
        lemma_fundamental_div_mod_converse(m * p, 1, w, 0);
        assert(scaled_floor(x.significand(), 1, e) == w);
    } else {
        let p = pow2((-e) as nat) as int;
        lemma_pow2_pos((-e) as nat);
        assert(m == w * p) by (nonlinear_arith)
            requires
                (m == v * p || -m == v * p),
                m >= 0,
                p > 0,
                w == if v < 0 { -v } else { v },
        ;
        assert(1 * p == p) by (nonlinear_arith);
        lemma_fundamental_div_mod_converse(m, p, w, 0);
        assert(x.negative() && m > 0 ==> v < 0) by (nonlinear_arith)
            requires
                x.negative() ==> -m == v * p,
                p > 0,
                m >= 0,
        ;
        assert(!x.negative() ==> v >= 0) by (nonlinear_arith)
            requires
                !x.negative() ==> m == v * p,
                p > 0,
                m >= 0,
        ;
        assert(scaled_floor(x.significand(), 1, e) == w);
    }
    if m == 0 {
        assert(w == 0) by (nonlinear_arith)
            requires
                m == 0,
                e >= 0 ==> m * pow2(e as nat) == w,
                e < 0 ==> m == w * pow2((-e) as nat),
                e < 0 ==> pow2((-e) as nat) > 0,
                w >= 0,
        ;
    }
}

/// Turning the sign of an integer turns the sign of the real.
pub proof fn lemma_integer_negated(x: Real, v: int)
    requires
        x.is_integer(v),
    ensures
        x.spec_neg().is_integer(-v),
{
    let m = x.significand() as int;
    let e = x.exponent();
    let y = x.spec_neg();
    assert(y.magnitude() == x.magnitude());
    assert(y.negative() == !x.negative());
    if e >= 0 {
        let p = pow2(e as nat) as int;
        assert((-m) * p == -(m * p)) by (nonlinear_arith);
    } else {
        let p = pow2((-e) as nat) as int;
        assert((-v) * p == -(v * p)) by (nonlinear_arith);
    }
}

/// A real that is the integer `v`, written with a lower exponent `e`: its
/// significand grows by the power of two between the exponents.
pub proof fn lemma_integer_scaled(x: Real, v: int, e: int)
    requires
        x.is_integer(v),
        e <= x.exponent(),
    ensures
        e >= 0 ==> x.signed_significand() * pow2((x.exponent() - e) as nat) * pow2(e as nat)
            == v,
        e < 0 ==> x.signed_significand() * pow2((x.exponent() - e) as nat) == v * pow2(
            (-e) as nat,
        ),
{
    let sx = x.signed_significand();
    let ex = x.exponent();
    let d = pow2((ex - e) as nat) as int;
    if e >= 0 {
        lemma_pow2_adds((ex - e) as nat, e as nat);
        assert(sx * d * pow2(e as nat) == sx * (d * pow2(e as nat))) by (nonlinear_arith);
    } else if ex >= 0 {
        lemma_pow2_adds(ex as nat, (-e) as nat);
        let p = pow2(ex as nat) as int;
        let q = pow2((-e) as nat) as int;
        assert(sx * (p * q) == (sx * p) * q) by (nonlinear_arith);
    } else {
        lemma_pow2_adds((-ex) as nat, (ex - e) as nat);
        let p = pow2((-ex) as nat) as int;
        assert((v * p) * d == v * (p * d)) by (nonlinear_arith);
    }
}

/// Integers add exactly: the sum of two reals that are integers is their
/// integer sum, as long as that is below `2^24` in size.
pub proof fn lemma_integers_add(x: Real, y: Real, a: int, b: int)
    requires
        x.is_integer(a),
        y.is_integer(b),
        -0x100_0000 < a + b < 0x100_0000,
    ensures
        x.spec_add(y).is_integer(a + b),
{
    let ex = x.exponent();
    let ey = y.exponent();
    let e = if ex <= ey { ex } else { ey };
    let tx = x.signed_significand() * pow2((ex - e) as nat);
    let ty = y.signed_significand() * pow2((ey - e) as nat);
    let sum = tx + ty;
    let v = a + b;
    let w = (if v < 0 { -v } else { v }) as nat;
    let n = (if sum < 0 { -sum } else { sum }) as nat;
    lemma_integer_scaled(x, a, e);
    lemma_integer_scaled(y, b, e);
    if e >= 0 {
        let p = pow2(e as nat) as int;
        lemma_pow2_pos(e as nat);
        assert(sum * p == v) by (nonlinear_arith)
            requires
                tx * p == a,
                ty * p == b,
                sum == tx + ty,
                v == a + b,
        ;
        assert(n * p == w && (sum < 0 <==> v < 0) && (sum == 0 <==> v == 0))
            by (nonlinear_arith)
            requires
                sum * p == v,
                p > 0,
                n == if sum < 0 { -sum } else { sum },
                w == if v < 0 { -v } else { v },
        ;
        lemma_rescale(n, e, e as nat, -149);
    } else {
        let p = pow2((-e) as nat) as int;
        lemma_pow2_pos((-e) as nat);
        assert(sum == v * p) by (nonlinear_arith)
            requires
                tx == a * p,
                ty == b * p,
                sum == tx + ty,
                v == a + b,
        ;
        assert(n == w * p && (sum < 0 <==> v < 0) && (sum == 0 <==> v == 0))
            by (nonlinear_arith)
            requires
                sum == v * p,
                p > 0,
                n == if sum < 0 { -sum } else { sum },
                w == if v < 0 { -v } else { v },
        ;
        lemma_rescale(w, 0, (-e) as nat, -149);
    }
    if sum == 0 {
        lemma_round_zero(0, 1, 0, false, 0);
        lemma_scaled_integer(0);
        lemma_integer_is_real(x.negative() && y.negative(), 0);
    } else {
        assert(nearest(n, 1, e) == nearest(w, 1, 0));
        lemma_integer_is_real(sum < 0, w);
    }
}

/// Integers multiply exactly: the product of two reals that are integers is
/// their integer product, as long as that is below `2^24` in size.
pub proof fn lemma_integers_multiply(x: Real, y: Real, a: int, b: int)
    requires
        x.is_integer(a),
        y.is_integer(b),
        -0x100_0000 < a * b < 0x100_0000,
    ensures
        x.spec_mul(y).is_integer(a * b),
{
    let mx = x.significand() as int;
    let my = y.significand() as int;
    let ex = x.exponent();
    let ey = y.exponent();
    let neg = x.negative() != y.negative();
    let v = a * b;
    let ua = if a < 0 { -a } else { a };
    let ub = if b < 0 { -b } else { b };
    let w = (if v < 0 { -v } else { v }) as nat;
    let n = (mx * my) as nat;
    assert(mx * my >= 0) by (nonlinear_arith)
        requires
            mx >= 0,
            my >= 0,
    ;
    assert(w == ua * ub) by (nonlinear_arith)
        requires
            v == a * b,
            w == if v < 0 { -v } else { v },
            ua == if a < 0 { -a } else { a },
            ub == if b < 0 { -b } else { b },
    ;
    lemma_absolute(x, a);
    lemma_absolute(y, b);
    let px = pow2((if ex >= 0 { ex } else { -ex }) as nat) as int;
    let py = pow2((if ey >= 0 { ey } else { -ey }) as nat) as int;
    lemma_pow2_pos((if ex >= 0 { ex } else { -ex }) as nat);
    lemma_pow2_pos((if ey >= 0 { ey } else { -ey }) as nat);
    if ex >= 0 && ey >= 0 {
        lemma_pow2_adds(ex as nat, ey as nat);
        assert(n * (px * py) == w) by (nonlinear_arith)
            requires
                mx * px == ua,
                my * py == ub,
                n == mx * my,
                w == ua * ub,
        ;
        lemma_rescale(n, ex + ey, (ex + ey) as nat, -149);
    } else if ex < 0 && ey < 0 {
        lemma_pow2_adds((-ex) as nat, (-ey) as nat);
        assert(n == w * (px * py)) by (nonlinear_arith)
            requires
                mx == ua * px,
                my == ub * py,
                n == mx * my,
                w == ua * ub,
        ;
        lemma_rescale(w, 0, (-(ex + ey)) as nat, -149);
    } else if ex >= 0 {
        let t = (mx * ub) as nat;
        assert(mx * ub >= 0) by (nonlinear_arith)
            requires
                mx >= 0,
                ub >= 0,
        ;
        assert(n == t * py && w == t * px) by (nonlinear_arith)
            requires
                mx * px == ua,
                my == ub * py,
                n == mx * my,
                w == ua * ub,
                t == mx * ub,
        ;
        lemma_rescale(t, ex, (-ey) as nat, -149);
        lemma_rescale(t, ex, ex as nat, -149);
    } else {
        let t = (ua * my) as nat;
        assert(ua * my >= 0) by (nonlinear_arith)
            requires
                ua >= 0,
                my >= 0,
        ;
        assert(n == t * px && w == t * py) by (nonlinear_arith)
            requires
                mx == ua * px,
                my * py == ub,
                n == mx * my,
                w == ua * ub,
                t == ua * my,
        ;
        lemma_rescale(t, ey, (-ex) as nat, -149);
        lemma_rescale(t, ey, ey as nat, -149);
    }
    assert(nearest(n, 1, ex + ey) == nearest(w, 1, 0));
    lemma_integer_is_real(neg, w);
    if w != 0 {
        assert((neg <==> v < 0)) by (nonlinear_arith)
            requires
                v == a * b,
                v != 0,
                neg == (x.negative() != y.negative()),
                x.negative() ==> a <= 0,
                !x.negative() ==> a >= 0,
                y.negative() ==> b <= 0,
                !y.negative() ==> b >= 0,
        ;
    }
}

/// The size of an integer that a real is, read off the significand; and the
/// sign of the integer, read off the sign of the real.
pub proof fn lemma_absolute(x: Real, v: int)
    requires
        x.is_integer(v),
    ensures
        x.exponent() >= 0 ==> x.significand() * pow2(x.exponent() as nat) == if v < 0 {
            -v
        } else {
            v
        },
        x.exponent() < 0 ==> x.significand() == (if v < 0 {
            -v
        } else {
            v
        }) * pow2((-x.exponent()) as nat),
        x.negative() ==> v <= 0,
        !x.negative() ==> v >= 0,
{
    let m = x.significand() as int;
    let e = x.exponent();
    let w = if v < 0 { -v } else { v };
    if e >= 0 {
        let p = pow2(e as nat) as int;
        lemma_pow2_pos(e as nat);
        assert(m * p == w && (x.negative() ==> v <= 0) && (!x.negative() ==> v >= 0))
            by (nonlinear_arith)
            requires
                x.negative() ==> (-m) * p == v,
                !x.negative() ==> m * p == v,
                m >= 0,
                p > 0,
                w == if v < 0 { -v } else { v },
        ;
    } else {
        let p = pow2((-e) as nat) as int;
        lemma_pow2_pos((-e) as nat);
        assert(m == w * p && (x.negative() ==> v <= 0) && (!x.negative() ==> v >= 0))
            by (nonlinear_arith)
            requires
                x.negative() ==> -m == v * p,
                !x.negative() ==> m == v * p,
                m >= 0,
                p > 0,
                w == if v < 0 { -v } else { v },
        ;
    }
}

} // verus!
