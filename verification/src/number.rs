//! Measured quantities: coordinates, percentages, angles, rates.
//!
//! A quantity is a double-precision number, held by its 64-bit encoding. Comparing two of them is
//! comparing the numbers they encode, and a sum is the exact sum rounded to the nearest number
//! that has an encoding.
use vstd::arithmetic::div_mod::*;
use vstd::arithmetic::mul::*;
use vstd::arithmetic::power2::*;
use vstd::prelude::*;

verus! {

/// A double-precision number, by its encoding: the sign in the top bit, eleven bits of exponent,
/// fifty-two bits of fraction.
#[derive(Clone, Copy, Debug, PartialEq, Eq, Structural)]
pub struct Real {
    pub bits: u64,
}

/// Two numbers that belong together: to the east and to the north.
#[derive(Clone, Copy, Debug, PartialEq, Eq, Structural)]
pub struct Pair {
    pub x: Real,
    pub y: Real,
}

/// The encoding of the negative zero: the sign bit alone.
pub const SIGN: u64 = 0x8000_0000_0000_0000;

/// The magnitude of infinity; anything above it encodes no number.
pub const INFINITY: u64 = 0x7ff0_0000_0000_0000;

/// One more than the largest fraction.
pub const IMPLICIT: u64 = 0x10_0000_0000_0000;

/// Twice [`IMPLICIT`]: every whole count of the smallest unit below this is encoded exactly.
pub const EXACT: u64 = 0x20_0000_0000_0000;

/// An encoding that is no number's.
pub const NOT_A_NUMBER: u64 = 0x7ff8_0000_0000_0000;

/// The size encoded by a magnitude below infinity, counted in the smallest positive number.
pub open spec fn size(mag: nat) -> nat {
    if mag < IMPLICIT {
        mag
    } else {
        (IMPLICIT + mag % IMPLICIT as nat) as nat * pow2((mag / IMPLICIT as nat - 1) as nat)
    }
}

/// How many binary digits `x` has beyond the fifty-three that an encoding keeps.
pub open spec fn excess(x: nat) -> nat
    decreases x,
{
    if x < EXACT {
        0
    } else {
        1 + excess(x / 2)
    }
}

/// Whether dropping the digits beyond the fifty-third rounds `x` up: the nearer neighbour is
/// taken, and of two equally near ones the even one.
pub open spec fn rounds_up(x: nat) -> bool {
    let p = pow2(excess(x));
    let rem = x % p;
    2 * rem > p || (2 * rem == p && (x / p) % 2 == 1)
}

/// The magnitude nearest to the size `x`; infinity where no finite one is near enough.
pub open spec fn nearest(x: nat) -> nat {
    let k = excess(x);
    let m = k * IMPLICIT + x / pow2(k) + if rounds_up(x) { 1int } else { 0int };
    if m >= INFINITY {
        INFINITY as nat
    } else {
        m as nat
    }
}

impl Real {
    pub open spec fn is_negative(self) -> bool {
        self.bits >= SIGN
    }

    pub open spec fn mag(self) -> nat {
        if self.bits >= SIGN {
            (self.bits - SIGN) as nat
        } else {
            self.bits as nat
        }
    }

    pub open spec fn is_nan(self) -> bool {
        self.mag() > INFINITY
    }

    pub open spec fn is_infinite(self) -> bool {
        self.mag() == INFINITY
    }

    pub open spec fn is_finite(self) -> bool {
        self.mag() < INFINITY
    }

    /// The place of a number in the order of all numbers; both zeros have the same one.
    pub open spec fn rank(self) -> int {
        if self.is_negative() {
            -(self.mag() as int)
        } else {
            self.mag() as int
        }
    }

    /// A finite number, counted in the smallest positive one.
    pub open spec fn units(self) -> int {
        if self.is_negative() {
            -(size(self.mag()) as int)
        } else {
            size(self.mag()) as int
        }
    }

    /// `self < other`: false where either is not a number.
    pub open spec fn is_lt(self, other: Real) -> bool {
        !self.is_nan() && !other.is_nan() && self.rank() < other.rank()
    }

    /// `self <= other`: false where either is not a number.
    pub open spec fn is_le(self, other: Real) -> bool {
        !self.is_nan() && !other.is_nan() && self.rank() <= other.rank()
    }

    /// The number of a signed count of the smallest unit, rounded to the nearest.
    pub open spec fn rounded(x: int, negative_zero: bool) -> Real {
        if x > 0 {
            Real { bits: nearest(x as nat) as u64 }
        } else if x < 0 {
            Real { bits: (SIGN + nearest((-x) as nat)) as u64 }
        } else if negative_zero {
            Real { bits: SIGN }
        } else {
            Real { bits: 0 }
        }
    }
}

/// A size of at least `2^(52 + k)` and less than `2^(53 + k)` has `k` digits too many.
proof fn lemma_excess(x: nat, k: nat)
    requires
        IMPLICIT * pow2(k) <= x < EXACT * pow2(k),
    ensures
        excess(x) == k,
    decreases k,
{
    if k == 0 {
        lemma2_to64();
    } else {
        lemma_pow2_unfold(k);
        lemma_pow2_pos((k - 1) as nat);
        let h = pow2((k - 1) as nat);
        assert(IMPLICIT * pow2(k) == 2 * (IMPLICIT * h)) by (nonlinear_arith)
            requires
                pow2(k) == 2 * h,
        ;
        assert(EXACT * pow2(k) == 2 * (EXACT * h)) by (nonlinear_arith)
            requires
                pow2(k) == 2 * h,
        ;
        assert(IMPLICIT * h >= IMPLICIT) by (nonlinear_arith)
            requires
                h >= 1,
        ;
        lemma_excess(x / 2, (k - 1) as nat);
    }
}

/// Where the digits of `x` divide: `q` of them are kept, and `rem` is what is left.
proof fn lemma_nearest(x: nat, k: nat, q: nat, rem: nat)
    requires
        x == q * pow2(k) + rem,
        rem < pow2(k),
        q < EXACT,
        q >= IMPLICIT || k == 0,
    ensures
        excess(x) == k,
        x / pow2(k) == q,
        x % pow2(k) == rem,
{
    lemma_pow2_pos(k);
    let p = pow2(k);
    lemma_fundamental_div_mod_converse(x as int, p as int, q as int, rem as int);
    if k == 0 {
        lemma2_to64();
        assert(x < EXACT);
    } else {
        assert(IMPLICIT * p <= q * p) by (nonlinear_arith)
            requires
                IMPLICIT <= q,
                p >= 1,
        ;
        assert(q * p + p <= EXACT * p) by (nonlinear_arith)
            requires
                q + 1 <= EXACT,
                p >= 1,
        ;
        lemma_excess(x, k);
    }
}

/// Adding to a number less than a quarter of its last digit leaves it what it was.
proof fn lemma_absorb(m: nat, e: nat, t: int)
    requires
        IMPLICIT <= m < EXACT,
        e >= 2,
        -(pow2(e) as int) < 4 * t < pow2(e),
        e * IMPLICIT + m < INFINITY,
    ensures
        m * pow2(e) + t > 0,
        nearest((m * pow2(e) + t) as nat) == e * IMPLICIT + m,
{
    lemma_pow2_pos(e);
    let p = pow2(e);
    assert(m * p >= p) by (nonlinear_arith)
        requires
            m >= 1,
            p >= 1,
    ;
    let x = (m * p + t) as nat;
    if t >= 0 {
        lemma_nearest(x, e, m, t as nat);
    } else if m > IMPLICIT {
        assert(m * p == (m - 1) * p + p) by (nonlinear_arith);
        lemma_nearest(x, e, (m - 1) as nat, (p + t) as nat);
    } else {
        lemma_pow2_unfold(e);
        let h = pow2((e - 1) as nat);
        assert(IMPLICIT * p == (EXACT - 1) * h + h) by (nonlinear_arith)
            requires
                p == 2 * h,
        ;
        lemma_nearest(x, (e - 1) as nat, (EXACT - 1) as nat, (h + t) as nat);
        assert((e - 1) * IMPLICIT + EXACT == e * IMPLICIT + IMPLICIT) by (nonlinear_arith);
    }
}

/// A wider size rounds to no smaller a magnitude.
proof fn lemma_nearest_monotone(x: nat, y: nat)
    requires
        x <= y,
    ensures
        nearest(x) <= nearest(y),
{
    lemma_excess_digits(x);
    lemma_excess_digits(y);
    let (kx, ky) = (excess(x), excess(y));
    let (px, py) = (pow2(kx), pow2(ky));
    let (qx, qy) = (x / px, y / py);
    if kx > ky {
        lemma_pow2_unfold(kx);
        lemma_pow2_pos((kx - 1) as nat);
        lemma_pow2_pos(ky);
        if ky < kx - 1 {
            lemma_pow2_strictly_increases(ky, (kx - 1) as nat);
        }
        let h = pow2((kx - 1) as nat);
        assert(IMPLICIT * px <= x) by (nonlinear_arith)
            requires
                IMPLICIT <= qx,
                qx * px <= x,
                px >= 1,
        ;
        assert(y < EXACT * py) by (nonlinear_arith)
            requires
                qy + 1 <= EXACT,
                y < qy * py + py,
                py >= 1,
        ;
        assert(EXACT * py <= IMPLICIT * px) by (nonlinear_arith)
            requires
                py <= h,
                px == 2 * h,
        ;
    } else if kx < ky {
        assert(kx * IMPLICIT + EXACT <= ky * IMPLICIT + IMPLICIT) by (nonlinear_arith)
            requires
                kx + 1 <= ky,
        ;
    } else {
        lemma_pow2_pos(kx);
        lemma_div_is_ordered(x as int, y as int, px as int);
        if qx == qy {
            lemma_fundamental_div_mod(x as int, px as int);
            lemma_fundamental_div_mod(y as int, px as int);
        }
    }
}

/// What is kept of `x`, and what is dropped.
proof fn lemma_excess_digits(x: nat)
    ensures
        pow2(excess(x)) >= 1,
        x / pow2(excess(x)) < EXACT,
        excess(x) > 0 ==> x / pow2(excess(x)) >= IMPLICIT,
        (x / pow2(excess(x))) * pow2(excess(x)) <= x < (x / pow2(excess(x))) * pow2(excess(x)) + pow2(
            excess(x),
        ),
    decreases x,
{
    let k = excess(x);
    lemma_pow2_pos(k);
    lemma_fundamental_div_mod(x as int, pow2(k) as int);
    lemma_mul_is_commutative(x as int / pow2(k) as int, pow2(k) as int);
    if x < EXACT {
        lemma2_to64();
    } else {
        lemma_excess_digits(x / 2);
        lemma_pow2_unfold(k);
        let h = pow2((k - 1) as nat);
        lemma_div_denominator(x as int, 2, h as int);
        if k == 1 {
            lemma2_to64();
        }
    }
}

/// The smallest magnitudes are their own sizes.
proof fn lemma_small_size(mag: nat)
    requires
        mag < EXACT,
    ensures
        size(mag) == mag,
{
    lemma2_to64();
    if mag >= IMPLICIT {
        assert(mag / IMPLICIT as nat == 1);
        assert(mag % IMPLICIT as nat == mag - IMPLICIT);
        lemma_mul_basics(mag as int);
    }
}

/// A magnitude is what its size rounds to.
proof fn lemma_nearest_exact(mag: nat)
    requires
        mag < INFINITY,
    ensures
        nearest(size(mag)) == mag,
{
    if mag < EXACT {
        lemma2_to64();
        lemma_small_size(mag);
        lemma_nearest(mag, 0, mag, 0);
    } else {
        let e = (mag / IMPLICIT as nat - 1) as nat;
        let m = (IMPLICIT + mag % IMPLICIT as nat) as nat;
        lemma_pow2_pos(e);
        lemma_nearest(m * pow2(e), e, m, 0);
        assert(e * IMPLICIT + m == mag) by (nonlinear_arith)
            requires
                e + 1 == mag / IMPLICIT as nat,
                m == IMPLICIT + mag % IMPLICIT as nat,
        ;
    }
}

impl Real {
    /// `self < other`.
    pub fn lt(self, other: Real) -> (r: bool)
        ensures
            r == self.is_lt(other),
    {
        self.is_number() && other.is_number() && self.order() < other.order()
    }

    /// `self <= other`.
    pub fn le(self, other: Real) -> (r: bool)
        ensures
            r == self.is_le(other),
    {
        self.is_number() && other.is_number() && self.order() <= other.order()
    }

    fn magnitude(self) -> (r: u64)
        ensures
            r == self.mag(),
    {
        if self.bits >= SIGN {
            self.bits - SIGN
        } else {
            self.bits
        }
    }

    /// Whether the encoding is that of a number at all.
    pub fn is_number(self) -> (r: bool)
        ensures
            r == !self.is_nan(),
    {
        self.magnitude() <= INFINITY
    }

    pub fn is_bounded(self) -> (r: bool)
        ensures
            r == self.is_finite(),
    {
        self.magnitude() < INFINITY
    }

    fn order(self) -> (r: i64)
        ensures
            r == self.rank(),
    {
        if self.bits >= SIGN {
            -((self.bits - SIGN) as i64)
        } else {
            self.bits as i64
        }
    }

    /// The smaller of the two; the other one where one is not a number.
    pub fn min(self, other: Real) -> (r: Real)
        ensures
            r == self.smaller(other),
    {
        if !self.is_number() {
            other
        } else if !other.is_number() || self.order() <= other.order() {
            self
        } else {
            other
        }
    }

    /// The larger of the two; the other one where one is not a number.
    pub fn max(self, other: Real) -> (r: Real)
        ensures
            r == self.larger(other),
    {
        if !self.is_number() {
            other
        } else if !other.is_number() || other.order() <= self.order() {
            self
        } else {
            other
        }
    }

    pub open spec fn smaller(self, other: Real) -> Real {
        if self.is_nan() {
            other
        } else if other.is_nan() || self.rank() <= other.rank() {
            self
        } else {
            other
        }
    }

    pub open spec fn larger(self, other: Real) -> Real {
        if self.is_nan() {
            other
        } else if other.is_nan() || other.rank() <= self.rank() {
            self
        } else {
            other
        }
    }

    /// The place of an encoding in the order of all encodings, in which the negative zero comes
    /// before the positive one and what is no number comes at either end.
    pub open spec fn place(self) -> int {
        if self.is_negative() {
            -(self.mag() as int) - 1
        } else {
            self.mag() as int
        }
    }

    /// Whether the encoding comes before another in the order of all encodings.
    pub fn comes_before(self, other: Real) -> (r: bool)
        ensures
            r == (self.place() < other.place()),
    {
        if self.bits >= SIGN {
            if other.bits >= SIGN {
                self.bits > other.bits
            } else {
                true
            }
        } else if other.bits >= SIGN {
            false
        } else {
            self.bits < other.bits
        }
    }

    /// The number, or the nearer of two bounds where it is outside them.
    pub open spec fn clamped(self, low: Real, high: Real) -> Real {
        if self.is_lt(low) {
            low
        } else if high.is_lt(self) {
            high
        } else {
            self
        }
    }

    /// The number, or the nearer of two bounds where it is outside them.
    pub fn clamp(self, low: Real, high: Real) -> (r: Real)
        requires
            low.is_le(high),
        ensures
            r == self.clamped(low, high),
    {
        if self.lt(low) {
            low
        } else if high.lt(self) {
            high
        } else {
            self
        }
    }

    pub open spec fn negated(self) -> Real {
        if self.bits >= SIGN {
            Real { bits: (self.bits - SIGN) as u64 }
        } else {
            Real { bits: (self.bits + SIGN) as u64 }
        }
    }

    /// The same number with the other sign.
    pub fn neg(self) -> (r: Real)
        ensures
            r == self.negated(),
    {
        if self.bits >= SIGN {
            Real { bits: self.bits - SIGN }
        } else {
            Real { bits: self.bits + SIGN }
        }
    }

    /// The digits and the exponent of a finite number.
    fn parts(self) -> (r: (u64, u64))
        requires
            self.is_finite(),
        ensures
            r.0 < EXACT,
            r.1 <= 2045,
            r.0 >= IMPLICIT || r.1 == 0,
            r.1 * IMPLICIT + r.0 == self.mag(),
            size(self.mag()) == r.0 * pow2(r.1 as nat),
    {
        let mag = self.magnitude();
        if mag < EXACT {
            proof {
                lemma2_to64();
                lemma_small_size(mag as nat);
            }
            (mag, 0)
        } else {
            let e = mag / IMPLICIT - 1;
            let m = IMPLICIT + mag % IMPLICIT;
            assert(e * IMPLICIT + m == mag) by (nonlinear_arith)
                requires
                    e + 1 == mag / IMPLICIT,
                    m == IMPLICIT + mag % IMPLICIT,
            ;
            (m, e)
        }
    }
}

impl Real {
    /// The sum as an exact count of the smallest unit, rounded; where an infinity takes part it
    /// prevails, and two opposed ones give no number.
    pub open spec fn sum(self, other: Real) -> Real {
        if self.is_nan() {
            self
        } else if other.is_nan() {
            other
        } else if self.is_infinite() && other.is_infinite() {
            if self.is_negative() == other.is_negative() {
                self
            } else {
                Real { bits: NOT_A_NUMBER }
            }
        } else if self.is_infinite() {
            self
        } else if other.is_infinite() {
            other
        } else {
            Real::rounded(
                self.units() + other.units(),
                self.is_negative() && other.is_negative(),
            )
        }
    }

    /// The number nearest to `a * 2^e`, with the sign given.
    fn round(negative: bool, a: u128, e: u64) -> (r: Real)
        requires
            0 < a < 0x40_0000_0000_0000_0000_0000_0000_0000,
            e <= 2045,
        ensures
            r.bits == nearest(a as nat * pow2(e as nat)) + if negative {
                SIGN as int
            } else {
                0int
            },
    {
        let ghost x = a as nat * pow2(e as nat);
        let mut a = a;
        let mut e = e;
        while a < IMPLICIT as u128 && e > 0
            invariant
                0 < a < 0x40_0000_0000_0000_0000_0000_0000_0000,
                e <= 2045,
                a as nat * pow2(e as nat) == x,
            decreases e,
        {
            proof {
                lemma_pow2_unfold(e as nat);
                let h = pow2((e - 1) as nat);
                assert(a as nat * (2 * h) == (2 * a as nat) * h) by (nonlinear_arith);
            }
            a = a * 2;
            e = e - 1;
        }
        let mut p: u128 = 1;
        let mut k: u64 = 0;
        proof {
            lemma2_to64();
        }
        while a / p >= EXACT as u128
            invariant
                0 < a < 0x40_0000_0000_0000_0000_0000_0000_0000,
                e <= 2045,
                a as nat * pow2(e as nat) == x,
                a >= IMPLICIT as u128 || e == 0,
                p >= 1,
                p == pow2(k as nat),
                p <= a,
                k == 0 || a / p >= IMPLICIT as u128,
                k <= 66,
            decreases a - p,
        {
            proof {
                assert(p <= a / EXACT as u128) by (nonlinear_arith)
                    requires
                        a / p >= EXACT as u128,
                        p >= 1,
                ;
                lemma_pow2_unfold((k + 1) as nat);
                lemma_div_denominator(a as int, p as int, 2);
                lemma2_to64();
                lemma_pow2_adds(64, 2);
                if k > 66 {
                    lemma_pow2_strictly_increases(66, k as nat);
                }
            }
            p = p * 2;
            k = k + 1;
        }
        let q = (a / p) as u64;
        let rem = a % p;
        let up = 2 * rem > p || (2 * rem == p && q % 2 == 1);
        proof {
            let (pe, pk) = (pow2(e as nat), pow2((e + k) as nat));
            lemma_pow2_adds(e as nat, k as nat);
            lemma_pow2_pos(e as nat);
            lemma_fundamental_div_mod(a as int, p as int);
            assert(x == q as nat * pk + rem as nat * pe) by (nonlinear_arith)
                requires
                    x == a as nat * pe,
                    a == p * q + rem,
                    pk == pe * p,
            ;
            assert(rem * pe < pk) by (nonlinear_arith)
                requires
                    rem < p,
                    pe >= 1,
                    pk == pe * p,
            ;
            lemma_nearest(x, (e + k) as nat, q as nat, rem as nat * pe);
            assert((2 * rem > p) == (2 * (rem * pe) > pk)) by (nonlinear_arith)
                requires
                    pe >= 1,
                    pk == pe * p,
            ;
            assert((2 * rem == p) == (2 * (rem * pe) == pk)) by (nonlinear_arith)
                requires
                    pe >= 1,
                    pk == pe * p,
            ;
        }
        let m = (e + k) * IMPLICIT + q + if up {
            1
        } else {
            0
        };
        let mag = if m >= INFINITY {
            INFINITY
        } else {
            m
        };
        Real {
            bits: if negative {
                SIGN + mag
            } else {
                mag
            },
        }
    }

    /// `self + other`.
    pub fn plus(self, other: Real) -> (r: Real)
        ensures
            r == self.sum(other),
    {
        let (x, y) = (self.magnitude(), other.magnitude());
        if x > INFINITY {
            return self;
        }
        if y > INFINITY {
            return other;
        }
        let (nx, ny) = (self.bits >= SIGN, other.bits >= SIGN);
        if x == INFINITY {
            if y == INFINITY && nx != ny {
                return Real { bits: NOT_A_NUMBER };
            }
            return self;
        }
        if y == INFINITY {
            return other;
        }
        let (mx, ex) = self.parts();
        let (my, ey) = other.parts();
        if ex >= ey {
            Real::plus_parts(self, mx, ex, other, my, ey)
        } else {
            Real::plus_parts(other, my, ey, self, mx, ex)
        }
    }

    /// `big + small`, where the exponent of `big` is no less than that of `small`.
    fn plus_parts(big: Real, m: u64, e: u64, small: Real, n: u64, f: u64) -> (r: Real)
        requires
            big.is_finite(),
            small.is_finite(),
            f <= e <= 2045,
            m < EXACT,
            n < EXACT,
            m >= IMPLICIT || e == 0,
            e * IMPLICIT + m == big.mag(),
            size(big.mag()) == m * pow2(e as nat),
            size(small.mag()) == n * pow2(f as nat),
        ensures
            r == Real::rounded(
                big.units() + small.units(),
                big.is_negative() && small.is_negative(),
            ),
    {
        let (nb, ns) = (big.bits >= SIGN, small.bits >= SIGN);
        let d = e - f;
        let ghost pf = pow2(f as nat);
        proof {
            lemma_pow2_adds(f as nat, d as nat);
            lemma_pow2_pos(f as nat);
        }
        if d > 64 {
            proof {
                lemma_pow2_adds(f as nat, 64);
                lemma2_to64();
                lemma_pow2_strictly_increases((f + 64) as nat, e as nat);
                let t = n * pf;
                assert(4 * t < pow2(e as nat)) by (nonlinear_arith)
                    requires
                        t == n * pf,
                        n < 0x20_0000_0000_0000,
                        pow2((f + 64) as nat) == pf * 0x1_0000_0000_0000_0000,
                        pow2((f + 64) as nat) < pow2(e as nat),
                ;
                assert(t >= 0) by (nonlinear_arith)
                    requires
                        t == n * pf,
                ;
                lemma_absorb(m as nat, e as nat, if nb == ns { t } else { -t });
            }
            return big;
        }
        let mut p: u128 = 1;
        let mut i: u64 = 0;
        proof {
            lemma2_to64();
        }
        while i < d
            invariant
                i <= d <= 64,
                p == pow2(i as nat),
                p <= 0x1_0000_0000_0000_0000,
            decreases d - i,
        {
            proof {
                lemma_pow2_unfold((i + 1) as nat);
                lemma2_to64();
                if i + 1 < 64 {
                    lemma_pow2_strictly_increases((i + 1) as nat, 64);
                }
            }
            p = p * 2;
            i = i + 1;
        }
        assert(m as u128 * p <= 0x20_0000_0000_0000u128 * 0x1_0000_0000_0000_0000u128)
            by (nonlinear_arith)
            requires
                m < 0x20_0000_0000_0000,
                p <= 0x1_0000_0000_0000_0000,
        ;
        let wide = m as u128 * p;
        proof {
            assert(size(big.mag()) == wide * pf) by (nonlinear_arith)
                requires
                    size(big.mag()) == m * pow2(e as nat),
                    pow2(e as nat) == pf * p,
                    wide == m * p,
            ;
            assert((wide + n) * pf == wide * pf + n * pf) by (nonlinear_arith);
            assert((wide - n) * pf == wide * pf - n * pf) by (nonlinear_arith);
            assert((n - wide) * pf == n * pf - wide * pf) by (nonlinear_arith);
        }
        if nb == ns {
            let a = wide + n as u128;
            if a == 0 {
                Real {
                    bits: if nb {
                        SIGN
                    } else {
                        0
                    },
                }
            } else {
                proof {
                    lemma_mul_strictly_positive(a as int, pf as int);
                }
                Real::round(nb, a, f)
            }
        } else if wide > n as u128 {
            proof {
                lemma_mul_strictly_positive(wide - n, pf as int);
            }
            Real::round(nb, wide - n as u128, f)
        } else if wide < n as u128 {
            proof {
                lemma_mul_strictly_positive(n - wide, pf as int);
            }
            Real::round(ns, n as u128 - wide, f)
        } else {
            Real { bits: 0 }
        }
    }

    /// The number of a whole count: one is `2^1074` of the smallest unit.
    pub open spec fn of_count(n: nat) -> Real {
        Real::rounded((n * pow2(1074)) as int, false)
    }

    /// The number nearest to a fraction, which is counted in the smallest unit.
    pub open spec fn of_ratio(a: nat, b: nat) -> Real {
        Real::rounded((a * pow2(1074) / b) as int, false)
    }

    /// The number nearest to a whole count.
    pub fn whole(n: u64) -> (r: Real)
        ensures
            r == Real::of_count(n as nat),
    {
        proof {
            lemma_pow2_pos(1074);
            lemma_mul_basics(pow2(1074) as int);
        }
        if n == 0 {
            Real { bits: 0 }
        } else {
            proof {
                lemma_mul_strictly_positive(n as int, pow2(1074) as int);
            }
            Real::round(false, n as u128, 1074)
        }
    }

    /// `self - other`.
    pub fn minus(self, other: Real) -> (r: Real)
        ensures
            r == self.sum(other.negated()),
    {
        self.plus(other.neg())
    }
}

/// Comparing two finite numbers is comparing the sizes that they encode.
pub proof fn order_is_order_of_sizes(a: Real, b: Real)
    requires
        a.is_finite(),
        b.is_finite(),
    ensures
        a.is_lt(b) <==> a.units() < b.units(),
        a.is_le(b) <==> a.units() <= b.units(),
{
    lemma_size_monotone(a.mag(), b.mag());
    lemma_size_monotone(b.mag(), a.mag());
    lemma_size_monotone(0, a.mag());
    lemma_size_monotone(0, b.mag());
}

proof fn lemma_size_monotone(m: nat, n: nat)
    ensures
        m < n ==> size(m) < size(n),
        m == n ==> size(m) == size(n),
{
    if m < n {
        if n < EXACT {
            lemma_small_size(m);
            lemma_small_size(n);
        } else {
            let (dm, dn) = (m / IMPLICIT as nat, n / IMPLICIT as nat);
            lemma_div_is_ordered(m as int, n as int, IMPLICIT as int);
            let pn = pow2((dn - 1) as nat);
            lemma_pow2_pos((dn - 1) as nat);
            let fm = (IMPLICIT + m % IMPLICIT as nat) as nat;
            let fnn = (IMPLICIT + n % IMPLICIT as nat) as nat;
            if dm == 0 {
                assert(fnn * pn >= IMPLICIT) by (nonlinear_arith)
                    requires
                        fnn >= IMPLICIT,
                        pn >= 1,
                ;
            } else if dm == dn {
                lemma_fundamental_div_mod(m as int, IMPLICIT as int);
                lemma_fundamental_div_mod(n as int, IMPLICIT as int);
                lemma_mul_strict_inequality(fm as int, fnn as int, pn as int);
            } else {
                let pm = pow2((dm - 1) as nat);
                lemma_pow2_pos((dm - 1) as nat);
                lemma_pow2_unfold(dm);
                if dm < dn - 1 {
                    lemma_pow2_strictly_increases(dm, (dn - 1) as nat);
                }
                assert(fm * pm < fnn * pn) by (nonlinear_arith)
                    requires
                        fm < EXACT,
                        fnn >= IMPLICIT,
                        pn >= 2 * pm,
                        pm >= 1,
                ;
            }
        }
    }
}

proof fn lemma_rounded(x: int, negative_zero: bool)
    ensures
        !Real::rounded(x, negative_zero).is_nan(),
        x >= 0 ==> Real::rounded(x, negative_zero).rank() == nearest(x as nat),
        x <= 0 ==> Real::rounded(x, negative_zero).rank() == -(nearest((-x) as nat) as int),
{
    lemma_nearest_exact(0);
    lemma_small_size(0);
    let y: nat = if x >= 0 {
        x as nat
    } else {
        (-x) as nat
    };
    let k = excess(y);
    lemma_excess_digits(y);
    assert(k * IMPLICIT >= 0) by (nonlinear_arith)
        requires
            k >= 0,
    ;
    assert(nearest(y) <= INFINITY);
}

/// Adding a quantity that is not negative never makes a finite number smaller, and adding one
/// that is not positive never makes it larger.
pub proof fn sum_keeps_direction(a: Real, b: Real)
    requires
        a.is_finite(),
        b.is_finite(),
    ensures
        !a.sum(b).is_nan(),
        b.rank() >= 0 ==> a.is_le(a.sum(b)),
        b.rank() <= 0 ==> a.sum(b).is_le(a),
{
    lemma_size_monotone(0, b.mag());
    lemma_size_monotone(0, a.mag());
    lemma_nearest_exact(a.mag());
    lemma_rounded(a.units() + b.units(), a.is_negative() && b.is_negative());
    lemma_nearest_exact(0);
    lemma_small_size(0);
    let (x, y) = (a.units(), a.units() + b.units());
    let (ax, ay) = (if x >= 0 { x } else { -x } as nat, if y >= 0 { y } else { -y } as nat);
    if ax <= ay {
        lemma_nearest_monotone(ax, ay);
    } else {
        lemma_nearest_monotone(ay, ax);
    }
    lemma_nearest_monotone(0, ay);
}

/// The sum does not depend on the order of its terms, where both are numbers.
pub proof fn sum_is_symmetric(a: Real, b: Real)
    requires
        !a.is_nan(),
        !b.is_nan(),
    ensures
        a.sum(b) == b.sum(a),
{
}

/// Two neighbouring magnitudes below `(e + 1) * 2^52` are at most `2^e` apart.
proof fn lemma_gap(mag: nat, e: nat)
    requires
        mag + 1 <= (e + 1) * IMPLICIT,
    ensures
        size(mag + 1) <= size(mag) + pow2(e),
{
    let n = mag + 1;
    lemma_pow2_pos(e);
    if n < EXACT {
        lemma_small_size(n);
        lemma_small_size(mag);
    } else {
        lemma_fundamental_div_mod(n as int, IMPLICIT as int);
        let d = n / IMPLICIT as nat;
        assert(d <= e + 1) by (nonlinear_arith)
            requires
                d == n / IMPLICIT as nat,
                n <= (e + 1) * IMPLICIT,
        ;
        let p = pow2((d - 1) as nat);
        lemma_pow2_pos((d - 1) as nat);
        if d - 1 < e {
            lemma_pow2_strictly_increases((d - 1) as nat, e);
        }
        let f = n % IMPLICIT as nat;
        if f > 0 {
            lemma_fundamental_div_mod_converse(
                mag as int,
                IMPLICIT as int,
                d as int,
                f - 1,
            );
            assert((IMPLICIT + f) * p == (IMPLICIT + (f - 1)) * p + p) by (nonlinear_arith);
        } else {
            assert(mag == IMPLICIT * (d - 1) + (IMPLICIT - 1)) by (nonlinear_arith)
                requires
                    mag + 1 == IMPLICIT * d,
            ;
            lemma_fundamental_div_mod_converse(
                mag as int,
                IMPLICIT as int,
                d - 1,
                IMPLICIT - 1,
            );
            lemma_pow2_unfold((d - 1) as nat);
            let h = pow2((d - 2) as nat);
            lemma_pow2_pos((d - 2) as nat);
            assert(IMPLICIT * p == (IMPLICIT + (IMPLICIT - 1)) * h + h) by (nonlinear_arith)
                requires
                    p == 2 * h,
            ;
            if mag < IMPLICIT {
                assert(false);
            }
        }
    }
}

/// Adding a positive quantity no smaller than the spacing of the numbers around `a` moves `a` up,
/// and taking it away moves `a` down.
pub proof fn sum_moves(a: Real, c: Real, e: nat)
    requires
        a.is_finite(),
        c.is_finite(),
        a.mag() + 1 <= (e + 1) * IMPLICIT,
        a.mag() + 1 < INFINITY,
        !c.is_negative(),
        c.units() >= pow2(e),
    ensures
        a.is_lt(a.sum(c)),
        a.sum(c.negated()).is_lt(a),
{
    lemma_pow2_pos(e);
    lemma_size_monotone(0, a.mag());
    lemma_small_size(0);
    lemma_nearest_exact(0);
    lemma_nearest_exact(a.mag());
    lemma_nearest_exact(a.mag() + 1);
    lemma_gap(a.mag(), e);
    if a.mag() > 0 {
        lemma_nearest_exact((a.mag() - 1) as nat);
        lemma_gap((a.mag() - 1) as nat, e);
    }
    let (u, v) = (c.units(), c.negated().units());
    assert(v == -u);
    lemma_moved(a, u, a.is_negative() && c.is_negative());
    lemma_moved(a, v, a.is_negative() && c.negated().is_negative());
}

proof fn lemma_moved(a: Real, u: int, nz: bool)
    requires
        a.is_finite(),
        a.mag() + 1 < INFINITY,
        nearest(0) == 0,
        size(0) == 0,
        nearest(size(a.mag())) == a.mag(),
        nearest(size(a.mag() + 1)) == a.mag() + 1,
        a.mag() > 0 ==> nearest(size((a.mag() - 1) as nat)) == a.mag() - 1,
        u > 0 || u < 0,
        u > 0 ==> u >= size(a.mag() + 1) - size(a.mag()),
        u < 0 ==> -u >= size(a.mag() + 1) - size(a.mag()),
        a.mag() > 0 && u > 0 ==> u >= size(a.mag()) - size((a.mag() - 1) as nat),
        a.mag() > 0 && u < 0 ==> -u >= size(a.mag()) - size((a.mag() - 1) as nat),
    ensures
        u > 0 ==> Real::rounded(a.units() + u, nz).rank() > a.rank(),
        u < 0 ==> Real::rounded(a.units() + u, nz).rank() < a.rank(),
        !Real::rounded(a.units() + u, nz).is_nan(),
{
    let x = a.units() + u;
    lemma_rounded(x, nz);
    let ax: nat = if x >= 0 {
        x as nat
    } else {
        (-x) as nat
    };
    lemma_nearest_monotone(0, ax);
    if ax >= size(a.mag() + 1) {
        lemma_nearest_monotone(size(a.mag() + 1), ax);
    }
    if a.mag() > 0 && ax <= size((a.mag() - 1) as nat) {
        lemma_nearest_monotone(ax, size((a.mag() - 1) as nat));
    }
}

/// A sum is rounded past no number: where the exact sum is at most a finite number, the sum is at
/// most that number too, and where it is at least one, the sum is at least that one.
pub proof fn a_sum_is_rounded_past_no_number(a: Real, b: Real, x: Real)
    requires
        a.is_finite(),
        b.is_finite(),
        x.is_finite(),
    ensures
        a.units() + b.units() <= x.units() ==> a.sum(b).is_le(x),
        a.units() + b.units() >= x.units() ==> x.is_le(a.sum(b)),
{
    let u = a.units() + b.units();
    lemma_rounded(u, a.is_negative() && b.is_negative());
    lemma_nearest_exact(x.mag());
    lemma_nearest_exact(0);
    lemma_small_size(0);
    lemma_size_monotone(0, x.mag());
    let y = x.units();
    let (nu, ny): (nat, nat) = (
        if u >= 0 {
            u as nat
        } else {
            (-u) as nat
        },
        if y >= 0 {
            y as nat
        } else {
            (-y) as nat
        },
    );
    if nu <= ny {
        lemma_nearest_monotone(nu, ny);
    } else {
        lemma_nearest_monotone(ny, nu);
    }
}

/// Adding one to the exponent doubles a number.
pub proof fn the_next_exponent_doubles(x: Real)
    requires
        IMPLICIT <= x.mag(),
        x.mag() + IMPLICIT < INFINITY,
        !x.is_negative(),
    ensures
        (Real { bits: (x.bits + IMPLICIT) as u64 }).units() == 2 * x.units(),
{
    let m = x.mag();
    let e = (m / IMPLICIT as nat - 1) as nat;
    let n = (m + IMPLICIT) as nat;
    lemma_pow2_unfold(e + 1);
    assert(n / IMPLICIT as nat == m / IMPLICIT as nat + 1);
    assert(n % IMPLICIT as nat == m % IMPLICIT as nat);
    let f = (IMPLICIT + m % IMPLICIT as nat) as nat;
    assert(f * (2 * pow2(e)) == 2 * (f * pow2(e))) by (nonlinear_arith);
}

/// The encoding of a fraction is the one whose digits are nearer to it than half of the last digit.
pub proof fn a_ratio_is_encoded(a: nat, b: nat, x: Real, e: nat, k: nat)
    requires
        a > 0,
        b > 0,
        x.bits < INFINITY,
        x.bits as nat / IMPLICIT as nat == e + 1,
        e + k == 1074,
        pow2(e) >= 2 * b,
        -(b as int) < 2 * (b * (IMPLICIT + x.bits as nat % IMPLICIT as nat) - a * pow2(k)) < b,
        b * (IMPLICIT + x.bits as nat % IMPLICIT as nat) > a * pow2(k) ==> x.bits as nat
            % IMPLICIT as nat > 0,
    ensures
        Real::of_ratio(a, b) == x,
        b == 1 ==> Real::of_count(a) == x,
{
    let m = (IMPLICIT + x.bits as nat % IMPLICIT as nat) as nat;
    let p = pow2(e);
    let d = b * m - a * pow2(k);
    let y = a * pow2(1074) / b;
    lemma_pow2_adds(k, e);
    lemma_pow2_pos(e);
    lemma_fundamental_div_mod(x.bits as int, IMPLICIT as int);
    assert(a * pow2(1074) == (b * m - d) * p) by (nonlinear_arith)
        requires
            pow2(1074) == pow2(k) * p,
            b * m - d == a * pow2(k),
    ;
    if d <= 0 {
        let t = -d;
        assert((b * m - d) * p == b * (m * p) + t * p) by (nonlinear_arith)
            requires
                t == -d,
        ;
        let rem = (t * p) / b as int;
        lemma_fundamental_div_mod(t * p, b as int);
        assert(0 <= t * p) by (nonlinear_arith)
            requires
                0 <= t,
                0 < p,
        ;
        lemma_div_pos_is_pos(t * p, b as int);
        assert(2 * rem < p) by (nonlinear_arith)
            requires
                b * rem <= t * p,
                2 * t < b,
                p > 0,
                b > 0,
        ;
        assert(b * (m * p) + b * rem == b * (m * p + rem)) by (nonlinear_arith);
        lemma_fundamental_div_mod_converse(
            a * pow2(1074) as int,
            b as int,
            m * p + rem,
            (t * p) % (b as int),
        );
        lemma_nearest(y, e, m, rem as nat);
    } else {
        let t = b - d;
        let n = (m - 1) as nat;
        assert((b * m - d) * p == b * (n * p) + t * p) by (nonlinear_arith)
            requires
                t == b - d,
                n == m - 1,
        ;
        let rem = (t * p) / b as int;
        lemma_fundamental_div_mod(t * p, b as int);
        assert(0 <= t * p) by (nonlinear_arith)
            requires
                0 <= t,
                0 < p,
        ;
        lemma_div_pos_is_pos(t * p, b as int);
        let over = (t * p) % (b as int);
        assert(2 * rem > p && rem < p) by (nonlinear_arith)
            requires
                b * rem + over == t * p,
                0 <= over < b,
                2 * t >= b + 1,
                t < b,
                p >= 2 * b,
                b > 0,
        ;
        assert(b * (n * p) + b * rem == b * (n * p + rem)) by (nonlinear_arith);
        lemma_fundamental_div_mod_converse(a * pow2(1074) as int, b as int, n * p + rem, over);
        lemma_nearest(y, e, n, rem as nat);
    }
    assert(nearest(y) == x.bits);
    assert(y > 0) by {
        if y == 0 {
            lemma_small_size(0);
            lemma_nearest_exact(0);
        }
    }
    if b == 1 {
        lemma_div_basics(a * pow2(1074) as int);
    }
}

/// A number that is held between two bounds is between them: itself where it is, and the nearer
/// bound where it is not.
pub proof fn a_held_number_is_between_its_bounds(x: Real, low: Real, high: Real)
    requires
        !x.is_nan(),
        low.is_le(high),
    ensures
        low.is_le(x.clamped(low, high)) && x.clamped(low, high).is_le(high),
        low.is_le(x) && x.is_le(high) ==> x.clamped(low, high) == x,
        x.is_lt(low) ==> x.clamped(low, high) == low,
        high.is_lt(x) ==> x.clamped(low, high) == high,
{
}

} // verus!
