//! IEEE 754 binary64 numbers, held as bit patterns.
//!
//! Scores and confidences travel as binary64 numbers. This module keeps such a
//! number as its 64 bits and does on integers the few things that guidance
//! needs of it: comparing, clamping to the unit interval, multiplying, and
//! taking the reciprocal of a rank. What an operation returns is stated over
//! whole numbers, in units of the smallest positive number, two to the power
//! of minus 1074.
use vstd::arithmetic::div_mod::{lemma_fundamental_div_mod, lemma_fundamental_div_mod_converse};
use vstd::arithmetic::power2::{
    lemma2_to64, lemma2_to64_rest, lemma_pow2_adds, lemma_pow2_pos, lemma_pow2_strictly_increases, lemma_pow2_unfold, pow2,
};
use vstd::prelude::*;

verus! {

/// The weight of the lowest exponent bit, and the implicit leading bit of a
/// normal significand.
pub const STEP: u64 = 0x0010_0000_0000_0000;

/// The sign bit.
pub const SIGN: u64 = 0x8000_0000_0000_0000;

/// The magnitude of infinity; every magnitude above it is no number.
pub const INFINITE: u64 = 0x7FF0_0000_0000_0000;

/// A binary64 number as its bit pattern.
///
/// `==` compares bit patterns, so it tells the two zeros apart; numeric
/// comparison is [`Binary64::exceeds`].
#[derive(Clone, Copy, Debug, PartialEq, Eq, Structural)]
pub struct Binary64 {
    pub bits: u64,
}

/// `n / d` rounded to the nearest whole number, a tie to the even one.
pub open spec fn half_even(n: nat, d: nat) -> nat {
    let q: nat = n / d;
    let r: nat = n % d;
    if 2 * r > d || (2 * r == d && q % 2 == 1) {
        q + 1
    } else {
        q
    }
}

/// The magnitude of the number nearest to `n / d` units.
///
/// Below 2^53 units the magnitude counts units. Above, each doubling of the
/// unit raises the exponent field by one.
pub open spec fn nearest(n: nat, d: nat) -> nat
    decreases n - d,
{
    if d == 0 || n < d * 0x20_0000_0000_0000 {
        half_even(n, d)
    } else {
        STEP as nat + nearest(n, 2 * d)
    }
}

/// A magnitude that is too large for a finite number is infinity.
pub open spec fn capped(magnitude: nat) -> nat {
    if magnitude < INFINITE {
        magnitude
    } else {
        INFINITE as nat
    }
}

/// The whole significand of a magnitude, implicit bit included.
pub open spec fn significand(magnitude: nat) -> nat {
    if magnitude < STEP {
        magnitude
    } else {
        STEP as nat + magnitude % STEP as nat
    }
}

/// The power of two, in units, that a magnitude's significand counts.
pub open spec fn scale(magnitude: nat) -> nat {
    if magnitude < STEP {
        0
    } else {
        (magnitude / STEP as nat - 1) as nat
    }
}

/// The absolute value of a finite number, in units.
pub open spec fn units(magnitude: nat) -> nat {
    significand(magnitude) * pow2(scale(magnitude))
}

impl Binary64 {
    /// The number without its sign.
    pub open spec fn magnitude(self) -> nat {
        (self.bits % SIGN) as nat
    }

    pub open spec fn negative(self) -> bool {
        self.bits >= SIGN
    }

    pub open spec fn is_nan(self) -> bool {
        self.magnitude() > INFINITE
    }

    pub open spec fn is_finite(self) -> bool {
        self.magnitude() < INFINITE
    }

    /// The place of a number in numeric order; both zeros are at 0.
    pub open spec fn place(self) -> int {
        if self.negative() {
            -(self.magnitude() as int)
        } else {
            self.magnitude() as int
        }
    }

    /// The value of a finite number, in units.
    pub open spec fn value(self) -> int {
        if self.negative() {
            -(units(self.magnitude()) as int)
        } else {
            units(self.magnitude()) as int
        }
    }

    /// Numeric `>`: what is no number exceeds nothing and is exceeded by nothing.
    pub open spec fn is_above(self, other: Binary64) -> bool {
        !self.is_nan() && !other.is_nan() && self.place() > other.place()
    }

    pub open spec fn spec_zero() -> Binary64 {
        Binary64 { bits: 0 }
    }

    pub open spec fn spec_one() -> Binary64 {
        Binary64 { bits: 0x3FF0_0000_0000_0000 }
    }

    pub open spec fn spec_nan() -> Binary64 {
        Binary64 { bits: 0x7FF8_0000_0000_0000 }
    }

    /// The number of the given sign and magnitude.
    pub open spec fn signed(negative: bool, magnitude: nat) -> Binary64 {
        if negative {
            Binary64 { bits: (SIGN + magnitude) as u64 }
        } else {
            Binary64 { bits: magnitude as u64 }
        }
    }

    /// The number held to the range from zero to one.
    pub open spec fn unit_clamped(self) -> Binary64 {
        if self.is_above(Binary64::spec_one()) {
            Binary64::spec_one()
        } else if Binary64::spec_zero().is_above(self) {
            Binary64::spec_zero()
        } else {
            self
        }
    }

    /// The correctly rounded product.
    pub open spec fn product(self, other: Binary64) -> Binary64 {
        let x: nat = self.magnitude();
        let y: nat = other.magnitude();
        let negative: bool = self.negative() != other.negative();
        if self.is_nan() || other.is_nan() {
            Binary64::spec_nan()
        } else if x == INFINITE || y == INFINITE {
            if x == 0 || y == 0 {
                Binary64::spec_nan()
            } else {
                Binary64::signed(negative, INFINITE as nat)
            }
        } else {
            Binary64::signed(negative, capped(nearest(units(x) * units(y), pow2(1074))))
        }
    }

    /// The correctly rounded reciprocal of a rank; infinite for rank zero.
    pub open spec fn spec_reciprocal(rank: u32) -> Binary64 {
        if rank == 0 {
            Binary64 { bits: INFINITE }
        } else {
            Binary64 { bits: nearest(pow2(1074), rank as nat) as u64 }
        }
    }

    pub fn zero() -> (zero: Binary64)
        ensures
            zero == Binary64::spec_zero(),
    {
        Binary64 { bits: 0 }
    }

    pub fn one() -> (one: Binary64)
        ensures
            one == Binary64::spec_one(),
    {
        Binary64 { bits: 0x3FF0_0000_0000_0000 }
    }

    /// Numeric `>`.
    pub fn exceeds(self, other: Binary64) -> (above: bool)
        ensures
            above == self.is_above(other),
    {
        let x: u64 = self.bits % SIGN;
        let y: u64 = other.bits % SIGN;
        if x > INFINITE || y > INFINITE {
            false
        } else if self.bits >= SIGN {
            other.bits >= SIGN && y > x
        } else if other.bits >= SIGN {
            x > 0 || y > 0
        } else {
            x > y
        }
    }

    /// Holds the number to the range from zero to one.
    pub fn clamp_to_unit(self) -> (clamped: Binary64)
        ensures
            clamped == self.unit_clamped(),
    {
        if self.exceeds(Binary64::one()) {
            Binary64::one()
        } else if Binary64::zero().exceeds(self) {
            Binary64::zero()
        } else {
            self
        }
    }
}

/// Rounding does not depend on a common factor.
proof fn lemma_half_even_scaled(n: nat, d: nat, c: nat)
    requires
        d > 0,
        c > 0,
    ensures
        half_even(n * c, d * c) == half_even(n, d),
{
    let q: nat = n / d;
    let r: nat = n % d;
    lemma_fundamental_div_mod(n as int, d as int);
    assert(n * c == q * (d * c) + r * c) by (nonlinear_arith)
        requires
            n == d * q + r,
    ;
    assert(0 <= r * c < d * c) by (nonlinear_arith)
        requires
            0 <= r < d,
            c > 0,
    ;
    lemma_fundamental_div_mod_converse((n * c) as int, (d * c) as int, q as int, (r * c) as int);
    assert(2 * r > d <==> 2 * (r * c) > d * c) by (nonlinear_arith)
        requires
            c > 0,
    ;
    assert(2 * r == d <==> 2 * (r * c) == d * c) by (nonlinear_arith)
        requires
            c > 0,
    ;
}

/// Where the exponent of the result is known, its significand is one rounding away.
proof fn lemma_nearest_at(n: nat, d: nat, k: nat)
    requires
        d > 0,
        n < d * pow2(53 + k),
        k == 0 || n >= d * pow2((52 + k) as nat),
    ensures
        nearest(n, d) == k * STEP + half_even(n, d * pow2(k)),
    decreases k,
{
    lemma2_to64();
    lemma2_to64_rest();
    if k == 0 {
        assert(d * pow2(0) == d);
    } else {
        let p: nat = pow2((k - 1) as nat);
        lemma_pow2_adds(53, (k - 1) as nat);
        lemma_pow2_pos((k - 1) as nat);
        assert(d * pow2((52 + k) as nat) >= d * pow2(53)) by (nonlinear_arith)
            requires
                pow2((52 + k) as nat) == pow2(53) * p,
                p >= 1,
        ;
        lemma_pow2_unfold(k);
        lemma_pow2_unfold(53 + k);
        lemma_pow2_unfold((52 + k) as nat);
        assert(2 * d * pow2((52 + k) as nat) == d * pow2(53 + k)) by (nonlinear_arith)
            requires
                pow2(53 + k) == 2 * pow2((52 + k) as nat),
        ;
        assert(2 * d * pow2((51 + k) as nat) == d * pow2((52 + k) as nat)) by (nonlinear_arith)
            requires
                pow2((52 + k) as nat) == 2 * pow2((51 + k) as nat),
        ;
        assert(2 * d * p == d * pow2(k)) by (nonlinear_arith)
            requires
                pow2(k) == 2 * p,
        ;
        lemma_nearest_at(n, 2 * d, (k - 1) as nat);
    }
}

/// Two to the power of `e`.
fn two_to(e: u32) -> (power: u128)
    requires
        e < 127,
    ensures
        power == pow2(e as nat),
{
    proof {
        lemma2_to64();
    }
    let mut power: u128 = 1;
    let mut i: u32 = 0;
    while i < e
        invariant
            i <= e < 127,
            power == pow2(i as nat),
        decreases e - i,
    {
        proof {
            lemma_pow2_unfold((i + 1) as nat);
            lemma_pow2_127();
            if i + 1 < 127 {
                lemma_pow2_strictly_increases((i + 1) as nat, 127);
            }
        }
        power = power * 2;
        i = i + 1;
    }
    power
}

proof fn lemma_pow2_127()
    ensures
        pow2(127) == 0x8000_0000_0000_0000_0000_0000_0000_0000,
{
    lemma2_to64();
    lemma2_to64_rest();
    lemma_pow2_adds(64, 63);
}

/// How many bits `n` takes.
fn bit_length(n: u128) -> (length: u32)
    requires
        n < 0x4000_0000_0000_0000_0000_0000_0000_0000,
    ensures
        length <= 126,
        n < pow2(length as nat),
        length > 0 ==> n >= pow2((length - 1) as nat),
{
    proof {
        lemma2_to64();
    }
    let mut power: u128 = 1;
    let mut length: u32 = 0;
    while n >= power
        invariant
            length <= 126,
            n < 0x4000_0000_0000_0000_0000_0000_0000_0000,
            power == pow2(length as nat),
            length > 0 ==> n >= pow2((length - 1) as nat),
        decreases 127 - length,
    {
        proof {
            lemma_pow2_127();
            lemma_pow2_unfold(127);
            lemma_pow2_unfold((length + 1) as nat);
            if length == 126 {
                assert(false);
            }
            if length < 126 {
                lemma_pow2_strictly_increases(length as nat, 126);
            }
        }
        power = power * 2;
        length = length + 1;
    }
    length
}

/// `n / d`, rounded to the nearest whole number, a tie to the even one.
fn divide_half_even(n: u128, d: u128) -> (q: u128)
    requires
        0 < d < 0x8000_0000_0000_0000_0000_0000_0000_0000,
        n < 0x8000_0000_0000_0000_0000_0000_0000_0000,
    ensures
        q == half_even(n as nat, d as nat),
{
    let q: u128 = n / d;
    let r: u128 = n % d;
    if 2 * r > d || (2 * r == d && q % 2 == 1) {
        q + 1
    } else {
        q
    }
}

/// A product of significands `p`, counting `pow2(s)`, rounds at the exponent
/// that its bit length gives.
proof fn lemma_product_exponent(p: nat, s: nat, length: nat, k: nat)
    requires
        length > 0,
        pow2((length - 1) as nat) <= p < pow2(length),
        length + s > 1127 ==> k == length + s - 1127,
        length + s <= 1127 ==> k == 0,
    ensures
        nearest(p * pow2(s), pow2(1074)) == k * STEP + half_even(p * pow2(s), pow2(1074 + k)),
{
    let n: nat = p * pow2(s);
    lemma_pow2_pos(s);
    lemma_pow2_pos(1074);
    lemma_pow2_adds(1074, 53 + k);
    lemma_pow2_adds(1074, k);
    lemma_pow2_adds(length, s);
    assert(n < pow2(length) * pow2(s)) by (nonlinear_arith)
        requires
            n == p * pow2(s),
            p < pow2(length),
            pow2(s) > 0,
    ;
    if length + s < 1127 + k {
        lemma_pow2_strictly_increases(length + s, 1127 + k);
    }
    if k > 0 {
        lemma_pow2_adds((length - 1) as nat, s);
        lemma_pow2_adds(1074, (52 + k) as nat);
        assert(n >= pow2((length - 1) as nat) * pow2(s)) by (nonlinear_arith)
            requires
                n == p * pow2(s),
                p >= pow2((length - 1) as nat),
        ;
    }
    lemma_nearest_at(n, pow2(1074), k);
}

/// The significand of a rounded product, in terms of powers of two that fit.
proof fn lemma_product_significand(p: nat, s: nat, e: nat)
    ensures
        s >= e ==> half_even(p * pow2(s), pow2(e)) == p * pow2((s - e) as nat),
        s < e ==> half_even(p * pow2(s), pow2(e)) == half_even(p, pow2((e - s) as nat)),
{
    lemma_pow2_pos(s);
    lemma_pow2_pos(e);
    if s >= e {
        let shifted: nat = p * pow2((s - e) as nat);
        lemma_pow2_adds((s - e) as nat, e);
        assert(p * pow2(s) == shifted * pow2(e)) by (nonlinear_arith)
            requires
                shifted == p * pow2((s - e) as nat),
                pow2(s) == pow2((s - e) as nat) * pow2(e),
        ;
        lemma_half_even_scaled(shifted, 1, pow2(e));
    } else {
        lemma_pow2_adds((e - s) as nat, s);
        lemma_pow2_pos((e - s) as nat);
        lemma_half_even_scaled(p, pow2((e - s) as nat), pow2(s));
    }
}

/// A product below two to the power of 106 takes at most 106 bits.
proof fn lemma_product_length(p: nat, length: nat)
    requires
        p < pow2(106),
        length > 0 ==> p >= pow2((length - 1) as nat),
    ensures
        length <= 106,
{
    if length > 107 {
        lemma_pow2_strictly_increases(106, (length - 1) as nat);
    }
}

/// The significand of `p * pow2(s)` units at the exponent `k`.
fn round_significand(p: u128, s: u32, length: u32, k: u32) -> (significand: u128)
    requires
        length <= 106,
        p < pow2(length as nat),
        s <= 4090,
        length + s > 1127 ==> k == length + s - 1127,
        length + s <= 1127 ==> k == 0,
    ensures
        significand == half_even(p as nat * pow2(s as nat), pow2(1074 + k as nat)),
        significand <= pow2(107),
{
    proof {
        lemma_product_significand(p as nat, s as nat, 1074 + k as nat);
        lemma_pow2_unfold(107);
        lemma_pow2_unfold(108);
        if length < 107 {
            lemma_pow2_strictly_increases(length as nat, 107);
        }
    }
    if s >= 1074 + k {
        let power: u128 = two_to(s - 1074 - k);
        proof {
            let shift: nat = (s - 1074 - k) as nat;
            lemma_pow2_adds(length as nat, shift);
            lemma_pow2_strictly_increases(length as nat + shift, 107);
            lemma_pow2_127();
            lemma_pow2_strictly_increases(107, 127);
            lemma_pow2_pos(shift);
            assert(p * power < pow2(length as nat) * power) by (nonlinear_arith)
                requires
                    p < pow2(length as nat),
                    power > 0,
            ;
        }
        p * power
    } else if 1074 + k - s >= 108 {
        proof {
            let t: nat = (1074 + k - s) as nat;
            if t > 108 {
                lemma_pow2_strictly_increases(108, t);
            }
            lemma_fundamental_div_mod_converse(p as int, pow2(t) as int, 0, p as int);
        }
        0
    } else {
        let power: u128 = two_to(1074 + k - s);
        proof {
            lemma_pow2_127();
            lemma_pow2_strictly_increases(107, 127);
            lemma_pow2_strictly_increases((1074 + k - s) as nat, 127);
            lemma_pow2_pos((1074 + k - s) as nat);
            lemma_half_even_bound(p as nat, power as nat);
        }
        divide_half_even(p, power)
    }
}

/// Rounding a quotient never exceeds the dividend by more than one.
proof fn lemma_half_even_bound(n: nat, d: nat)
    requires
        d > 0,
    ensures
        half_even(n, d) <= n + 1,
{
    lemma_fundamental_div_mod(n as int, d as int);
    assert(n / d <= n) by (nonlinear_arith)
        requires
            n == d * (n / d) + n % d,
            n % d >= 0,
            d > 0,
    ;
}

/// The magnitude of the number nearest to `p * pow2(s)` units over `pow2(1074)`.
fn round_product(p: u128, s: u32) -> (magnitude: u64)
    requires
        p < pow2(106),
        s <= 4090,
    ensures
        magnitude == capped(nearest(p as nat * pow2(s as nat), pow2(1074))),
{
    proof {
        lemma_pow2_pos(1074);
        lemma_pow2_127();
        lemma_pow2_unfold(127);
        lemma_pow2_strictly_increases(106, 126);
        lemma_pow2_strictly_increases(107, 126);
    }
    if p == 0 {
        assert(p as nat * pow2(s as nat) == 0) by (nonlinear_arith)
            requires
                p == 0,
        ;
        assert(nearest(0, pow2(1074)) == 0);
        return 0;
    }
    let length: u32 = bit_length(p);
    proof {
        lemma2_to64();
        lemma_product_length(p as nat, length as nat);
    }
    let k: u32 = if length + s > 1127 { length + s - 1127 } else { 0 };
    proof {
        lemma_product_exponent(p as nat, s as nat, length as nat, k as nat);
    }
    let significand: u128 = round_significand(p, s, length, k);
    let total: u128 = k as u128 * STEP as u128 + significand;
    if total < INFINITE as u128 {
        total as u64
    } else {
        INFINITE
    }
}

/// The magnitude of the rounded product of two finite magnitudes.
fn multiply_magnitudes(x: u64, y: u64) -> (magnitude: u64)
    requires
        x < INFINITE,
        y < INFINITE,
    ensures
        magnitude == capped(nearest(units(x as nat) * units(y as nat), pow2(1074))),
{
    let x_significand: u64 = if x < STEP { x } else { STEP + x % STEP };
    let y_significand: u64 = if y < STEP { y } else { STEP + y % STEP };
    let x_scale: u32 = if x < STEP { 0 } else { (x / STEP - 1) as u32 };
    let y_scale: u32 = if y < STEP { 0 } else { (y / STEP - 1) as u32 };
    assert(x_significand as u128 * y_significand as u128 <= 0x1f_ffff_ffff_ffff * 0x1f_ffff_ffff_ffff)
        by (nonlinear_arith)
        requires
            x_significand < 0x20_0000_0000_0000,
            y_significand < 0x20_0000_0000_0000,
    ;
    let p: u128 = x_significand as u128 * y_significand as u128;
    let s: u32 = x_scale + y_scale;
    proof {
        lemma2_to64_rest();
        lemma_pow2_adds(53, 53);
        lemma_pow2_adds(x_scale as nat, y_scale as nat);
        assert(units(x as nat) * units(y as nat) == p * pow2(s as nat)) by (nonlinear_arith)
            requires
                units(x as nat) == x_significand * pow2(x_scale as nat),
                units(y as nat) == y_significand * pow2(y_scale as nat),
                p == x_significand * y_significand,
                pow2(s as nat) == pow2(x_scale as nat) * pow2(y_scale as nat),
        ;
    }
    round_product(p, s)
}

/// A quotient below `c` rounds to at most `c`.
proof fn lemma_half_even_at_most(n: nat, d: nat, c: nat)
    requires
        n < d * c,
    ensures
        half_even(n, d) <= c,
{
    assert(d > 0) by (nonlinear_arith)
        requires
            n < d * c,
            n >= 0,
            d >= 0,
    ;
    lemma_fundamental_div_mod(n as int, d as int);
    assert(n / d < c) by (nonlinear_arith)
        requires
            n == d * (n / d) + n % d,
            n % d >= 0,
            n < d * c,
            d > 0,
    ;
}

/// The reciprocal of a rank that takes `j` bits less one rounds at a known exponent.
proof fn lemma_reciprocal(rank: nat, j: nat)
    requires
        0 < rank <= pow2(j),
        j <= 32,
        j > 0 ==> rank > pow2((j - 1) as nat),
    ensures
        nearest(pow2(1074), rank) == (1022 - j) * STEP + half_even(pow2(52 + j), rank),
        half_even(pow2(52 + j), rank) <= pow2(53),
{
    let k: nat = (1022 - j) as nat;
    lemma2_to64();
    lemma_pow2_pos(k);
    lemma_pow2_pos(53 + k);
    lemma_pow2_adds(j, (52 + k) as nat);
    assert(pow2(1074) >= rank * pow2((52 + k) as nat)) by (nonlinear_arith)
        requires
            pow2(1074) == pow2(j) * pow2((52 + k) as nat),
            rank <= pow2(j),
    ;
    if j > 0 {
        lemma_pow2_adds((j - 1) as nat, 53 + k);
        lemma_pow2_adds((j - 1) as nat, 53);
        assert(pow2(1074) < rank * pow2(53 + k)) by (nonlinear_arith)
            requires
                pow2(1074) == pow2((j - 1) as nat) * pow2(53 + k),
                rank > pow2((j - 1) as nat),
                pow2(53 + k) > 0,
        ;
        lemma_pow2_pos(53);
        assert(pow2(52 + j) < rank * pow2(53)) by (nonlinear_arith)
            requires
                pow2(52 + j) == pow2((j - 1) as nat) * pow2(53),
                rank > pow2((j - 1) as nat),
                pow2(53) > 0,
        ;
    } else {
        assert(rank == 1);
        lemma_pow2_strictly_increases(1074, 1075);
        lemma_pow2_strictly_increases(52, 53);
    }
    lemma_half_even_at_most(pow2(52 + j), rank, pow2(53));
    lemma_nearest_at(pow2(1074), rank, k);
    lemma_pow2_adds(52 + j, k);
    lemma_half_even_scaled(pow2(52 + j), rank, pow2(k));
}

impl Binary64 {
    /// The correctly rounded product.
    pub fn times(self, other: Binary64) -> (product: Binary64)
        ensures
            product == self.product(other),
    {
        let x: u64 = self.bits % SIGN;
        let y: u64 = other.bits % SIGN;
        let negative: bool = (self.bits >= SIGN) != (other.bits >= SIGN);
        if x > INFINITE || y > INFINITE {
            return Binary64 { bits: 0x7FF8_0000_0000_0000 };
        }
        let magnitude: u64 = if x == INFINITE || y == INFINITE {
            if x == 0 || y == 0 {
                return Binary64 { bits: 0x7FF8_0000_0000_0000 };
            }
            INFINITE
        } else {
            multiply_magnitudes(x, y)
        };
        if negative {
            Binary64 { bits: SIGN + magnitude }
        } else {
            Binary64 { bits: magnitude }
        }
    }

    /// The correctly rounded reciprocal of a rank; infinite for rank zero.
    pub fn reciprocal(rank: u32) -> (reciprocal: Binary64)
        ensures
            reciprocal == Binary64::spec_reciprocal(rank),
    {
        if rank == 0 {
            return Binary64 { bits: INFINITE };
        }
        proof {
            lemma2_to64();
            lemma2_to64_rest();
        }
        let j: u32 = bit_length((rank - 1) as u128);
        proof {
            if j > 33 {
                lemma_pow2_strictly_increases(32, (j - 1) as nat);
            }
            lemma_reciprocal(rank as nat, j as nat);
            lemma_pow2_127();
            lemma_pow2_strictly_increases((52 + j) as nat, 127);
        }
        let significand: u128 = divide_half_even(two_to(52 + j), rank as u128);
        Binary64 { bits: (1022 - j) as u64 * STEP + significand as u64 }
    }
}

/// A magnitude one exponent higher is twice as large.
proof fn lemma_units_step(magnitude: nat)
    requires
        magnitude >= STEP,
    ensures
        units(magnitude + STEP as nat) == 2 * units(magnitude),
{
    let step: nat = STEP as nat;
    lemma_fundamental_div_mod(magnitude as int, step as int);
    lemma_fundamental_div_mod_converse(
        (magnitude + step) as int,
        step as int,
        (magnitude / step + 1) as int,
        (magnitude % step) as int,
    );
    lemma_pow2_unfold(scale(magnitude + step));
    assert(significand(magnitude) * (2 * pow2(scale(magnitude))) == 2 * (significand(magnitude) * pow2(
        scale(magnitude),
    ))) by (nonlinear_arith);
}

/// Below 2^53 units a magnitude counts units, and 2^53 units are reached next.
proof fn lemma_units_small(magnitude: nat)
    requires
        magnitude <= 2 * STEP,
    ensures
        units(magnitude) == magnitude,
    decreases magnitude,
{
    lemma2_to64();
    if magnitude == 2 * STEP {
        lemma_units_small(STEP as nat);
        lemma_units_step(STEP as nat);
    } else {
        assert(units(magnitude) == magnitude * 1);
    }
}

/// A larger magnitude is a larger number.
proof fn lemma_units_increase(x: nat, y: nat)
    requires
        x < y,
    ensures
        units(x) < units(y),
    decreases y,
{
    let step: nat = STEP as nat;
    if y <= 2 * step {
        lemma_units_small(x);
        lemma_units_small(y);
    } else {
        lemma_units_step((y - step) as nat);
        if x >= 2 * step {
            lemma_units_step((x - step) as nat);
            lemma_units_increase((x - step) as nat, (y - step) as nat);
        } else {
            lemma_units_small(x);
            lemma_units_small(step);
            lemma_units_increase(step, (y - step) as nat);
        }
    }
}

/// Comparing finite numbers compares their values.
pub proof fn law_order_is_numeric(a: Binary64, b: Binary64)
    requires
        a.is_finite(),
        b.is_finite(),
    ensures
        a.is_above(b) <==> a.value() > b.value(),
{
    let x: nat = a.magnitude();
    let y: nat = b.magnitude();
    lemma_units_small(0);
    if x < y {
        lemma_units_increase(x, y);
    }
    if y < x {
        lemma_units_increase(y, x);
    }
    if x > 0 {
        lemma_units_increase(0, x);
    }
    if y > 0 {
        lemma_units_increase(0, y);
    }
}

/// How far, in units over `d`, a magnitude is from `n / d` units.
pub open spec fn distance(magnitude: nat, n: nat, d: nat) -> nat {
    let value: nat = units(magnitude) * d;
    if value >= n {
        (value - n) as nat
    } else {
        (n - value) as nat
    }
}

/// No magnitude is closer to `n / d` units than the nearest one.
pub proof fn law_nearest_is_nearest(n: nat, d: nat, other: nat)
    requires
        d > 0,
    ensures
        distance(nearest(n, d), n, d) <= distance(other, n, d),
    decreases n - d,
{
    let step: nat = STEP as nat;
    if n < d * 0x20_0000_0000_0000 {
        let m: nat = half_even(n, d);
        lemma_half_even_at_most(n, d, 2 * step);
        lemma_units_small(m);
        let closest: nat = if other <= 2 * step { other } else { 2 * step };
        lemma_units_small(closest);
        lemma_half_even_closest(n, d, closest);
        if other > 2 * step {
            lemma_units_increase(2 * step, other);
            assert(units(other) * d >= (2 * step) * d) by (nonlinear_arith)
                requires
                    units(other) >= 2 * step,
            ;
        }
    } else {
        let rest: nat = nearest(n, 2 * d);
        lemma_nearest_at_least(n, 2 * d);
        lemma_units_step(rest);
        let previous: nat = if other >= 2 * step { (other - step) as nat } else { step };
        law_nearest_is_nearest(n, 2 * d, previous);
        lemma_units_step(previous);
        assert(units(rest) * (2 * d) == (2 * units(rest)) * d) by (nonlinear_arith);
        assert(units(previous) * (2 * d) == (2 * units(previous)) * d) by (nonlinear_arith);
        if other < 2 * step {
            lemma_units_small(other);
            lemma_units_small(2 * step);
            assert(units(other) * d <= (2 * step) * d) by (nonlinear_arith)
                requires
                    units(other) <= 2 * step,
            ;
        }
    }
}

/// From 2^52 units on the nearest magnitude has the implicit bit.
proof fn lemma_nearest_at_least(n: nat, d: nat)
    requires
        d > 0,
        n >= d * STEP,
    ensures
        nearest(n, d) >= STEP,
{
    if n < d * 0x20_0000_0000_0000 {
        lemma_fundamental_div_mod(n as int, d as int);
        assert(n / d >= STEP) by (nonlinear_arith)
            requires
                n == d * (n / d) + n % d,
                n % d < d,
                n >= d * STEP,
                d > 0,
        ;
    }
}

/// No whole number is closer to a quotient than the rounded one.
proof fn lemma_half_even_closest(n: nat, d: nat, other: nat)
    requires
        d > 0,
    ensures
        ({
            let here: int = half_even(n, d) * d - n;
            let there: int = other * d - n;
            (if here >= 0 { here } else { -here }) <= (if there >= 0 { there } else { -there })
        }),
{
    let q: nat = n / d;
    lemma_fundamental_div_mod(n as int, d as int);
    assert((q + 1) * d == q * d + d) by (nonlinear_arith);
    assert(d * q == q * d) by (nonlinear_arith);
    if other <= q {
        assert(other * d <= q * d) by (nonlinear_arith)
            requires
                other <= q,
        ;
    } else {
        assert(other * d >= (q + 1) * d) by (nonlinear_arith)
            requires
                other >= q + 1,
        ;
    }
}

/// A number held to the unit interval is in it; one that was in it is unchanged.
pub proof fn law_unit_clamped(x: Binary64)
    requires
        !x.is_nan(),
    ensures
        in_unit(x.unit_clamped()),
        in_unit(x) ==> x.unit_clamped() == x,
{
}

/// A number from zero to one.
pub open spec fn in_unit(x: Binary64) -> bool {
    !x.is_nan() && 0 <= x.place() <= Binary64::spec_one().place()
}

/// No finite number has a magnitude closer to that of an exact product than the
/// product of two finite numbers has.
pub proof fn law_product_is_nearest(a: Binary64, b: Binary64, other: Binary64)
    requires
        a.is_finite(),
        b.is_finite(),
        a.product(b).is_finite(),
    ensures
        ({
            let exact: nat = units(a.magnitude()) * units(b.magnitude());
            distance(a.product(b).magnitude(), exact, pow2(1074)) <= distance(other.magnitude(), exact, pow2(1074))
        }),
{
    lemma_pow2_pos(1074);
    law_nearest_is_nearest(units(a.magnitude()) * units(b.magnitude()), pow2(1074), other.magnitude());
}

/// A rounded quotient is within half of the divisor.
proof fn lemma_half_even_within(n: nat, d: nat)
    requires
        d > 0,
    ensures
        2 * n <= 2 * (half_even(n, d) * d) + d,
        2 * (half_even(n, d) * d) <= 2 * n + d,
{
    let q: nat = n / d;
    lemma_fundamental_div_mod(n as int, d as int);
    assert((q + 1) * d == q * d + d) by (nonlinear_arith);
    assert(d * q == q * d) by (nonlinear_arith);
}

/// A larger divisor gives no larger number.
proof fn lemma_nearest_falls(n: nat, d: nat, e: nat)
    requires
        0 < d <= e,
    ensures
        nearest(n, e) <= nearest(n, d),
    decreases n - d,
{
    if n < d * 0x20_0000_0000_0000 {
        let p: nat = half_even(n, d);
        let q: nat = half_even(n, e);
        lemma_half_even_within(n, d);
        lemma_half_even_within(n, e);
        if q > p && d < e {
            assert(2 * (p * d) + d < 2 * (q * e) - e) by (nonlinear_arith)
                requires
                    q >= p + 1,
                    0 < d < e,
            ;
        }
    } else if n < e * 0x20_0000_0000_0000 {
        lemma_nearest_at_least(n, 2 * d);
        lemma_half_even_at_most(n, e, 0x20_0000_0000_0000);
    } else {
        lemma_nearest_falls(n, 2 * d, 2 * e);
    }
}

/// A worse rank is never stronger.
pub proof fn law_worse_rank_is_not_stronger(better: u32, worse: u32)
    requires
        better <= worse,
    ensures
        !Binary64::spec_reciprocal(worse).is_above(Binary64::spec_reciprocal(better)),
{
    if better > 0 {
        lemma_nearest_falls(pow2(1074), better as nat, worse as nat);
        lemma_reciprocal_bound(better);
        lemma_reciprocal_bound(worse);
    } else if worse > 0 {
        lemma_reciprocal_bound(worse);
    }
}

/// The reciprocal of a rank above zero is a number from zero to one.
pub proof fn law_reciprocal_in_unit(rank: u32)
    requires
        rank > 0,
    ensures
        in_unit(Binary64::spec_reciprocal(rank)),
{
    lemma_reciprocal_bound(rank);
}

/// A reciprocal is at most one.
proof fn lemma_reciprocal_bound(rank: u32)
    requires
        rank > 0,
    ensures
        nearest(pow2(1074), rank as nat) <= 0x3FF0_0000_0000_0000,
{
    lemma2_to64();
    lemma2_to64_rest();
    lemma_nearest_falls(pow2(1074), 1, rank as nat);
    lemma_reciprocal(1, 0);
}

/// The nearest number does not depend on a common factor.
proof fn lemma_nearest_scaled(n: nat, d: nat, c: nat)
    requires
        d > 0,
        c > 0,
    ensures
        nearest(n * c, d * c) == nearest(n, d),
    decreases n - d,
{
    assert(d * c > 0) by (nonlinear_arith)
        requires
            d > 0,
            c > 0,
    ;
    assert(n < d * 0x20_0000_0000_0000 <==> n * c < (d * c) * 0x20_0000_0000_0000) by (nonlinear_arith)
        requires
            c > 0,
    ;
    if n < d * 0x20_0000_0000_0000 {
        lemma_half_even_scaled(n, d, c);
    } else {
        lemma_nearest_scaled(n, 2 * d, c);
        assert((2 * d) * c == 2 * (d * c)) by (nonlinear_arith);
    }
}

/// A number that can be held exactly is nearest to itself.
pub proof fn law_nearest_exact(magnitude: nat)
    ensures
        nearest(units(magnitude), 1) == magnitude,
    decreases magnitude,
{
    let step: nat = STEP as nat;
    if magnitude < 2 * step {
        lemma_units_small(magnitude);
    } else {
        let previous: nat = (magnitude - step) as nat;
        lemma_units_step(previous);
        lemma_units_small(step);
        if previous > step {
            lemma_units_increase(step, previous);
        }
        law_nearest_exact(previous);
        lemma_nearest_scaled(units(previous), 1, 2);
    }
}

/// A product does not depend on the order of its factors.
pub proof fn law_product_commutes(a: Binary64, b: Binary64)
    ensures
        a.product(b) == b.product(a),
{
    assert(units(a.magnitude()) * units(b.magnitude()) == units(b.magnitude()) * units(a.magnitude()))
        by (nonlinear_arith);
}

/// Multiplying by one changes nothing: with a confidence of one a relation weighs
/// its score.
pub proof fn law_one_is_neutral(x: Binary64)
    requires
        !x.is_nan(),
    ensures
        x.product(Binary64::spec_one()) == x,
{
    let one: nat = Binary64::spec_one().magnitude();
    lemma2_to64_rest();
    lemma_pow2_adds(52, 1022);
    assert(significand(one) == pow2(52));
    assert(scale(one) == 1022);
    if x.is_finite() {
        let m: nat = x.magnitude();
        lemma_pow2_pos(1074);
        lemma_nearest_scaled(units(m), 1, pow2(1074));
        law_nearest_exact(m);
    }
}

/// A larger dividend gives no smaller number.
proof fn lemma_nearest_rises(n: nat, m: nat, d: nat)
    requires
        d > 0,
        n <= m,
    ensures
        nearest(n, d) <= nearest(m, d),
{
    if n == 0 {
        assert(half_even(0, d) == 0);
        assert(0 < d * 0x20_0000_0000_0000) by (nonlinear_arith)
            requires
                d > 0,
        ;
    } else {
        assert(0 < d * n <= d * m) by (nonlinear_arith)
            requires
                d > 0,
                0 < n <= m,
        ;
        lemma_nearest_falls(n * m, d * n, d * m);
        lemma_nearest_scaled(n, d, m);
        lemma_nearest_scaled(m, d, n);
        assert(m * n == n * m) by (nonlinear_arith);
    }
}

/// A strength from zero to one makes nothing larger: a relation weighs at most as
/// much as the confidence in it.
pub proof fn law_unit_factor_does_not_raise(factor: Binary64, x: Binary64)
    requires
        in_unit(factor),
        !x.is_nan(),
        x.place() >= 0,
    ensures
        !factor.product(x).is_above(x),
{
    let one: Binary64 = Binary64::spec_one();
    if x.is_finite() {
        let y: nat = units(x.magnitude());
        if factor.magnitude() < one.magnitude() {
            lemma_units_increase(factor.magnitude(), one.magnitude());
        }
        assert(units(factor.magnitude()) * y <= units(one.magnitude()) * y) by (nonlinear_arith)
            requires
                units(factor.magnitude()) <= units(one.magnitude()),
        ;
        lemma_pow2_pos(1074);
        lemma_nearest_rises(units(factor.magnitude()) * y, units(one.magnitude()) * y, pow2(1074));
        law_one_is_neutral(x);
        law_product_commutes(x, one);
    }
}

/// The unit is two to the power of minus 1074: one is that many units.
pub proof fn law_one_is_one()
    ensures
        Binary64::spec_one().value() == pow2(1074),
        Binary64::spec_zero().value() == 0,
{
    let one: nat = Binary64::spec_one().magnitude();
    lemma2_to64_rest();
    lemma_pow2_adds(52, 1022);
    assert(significand(one) == pow2(52));
    assert(scale(one) == 1022);
    lemma_units_small(0);
}

/// Comparing puts all numbers in one order, the infinite ones at its ends; what is
/// no number has no place in it.
pub proof fn law_order_is_total(a: Binary64, b: Binary64, c: Binary64)
    ensures
        !a.is_above(a),
        a.is_above(b) ==> !b.is_above(a),
        a.is_above(b) && b.is_above(c) ==> a.is_above(c),
        a.is_nan() ==> !a.is_above(b) && !b.is_above(a),
        !a.is_nan() && !b.is_nan() && a != b && !(a.magnitude() == 0 && b.magnitude() == 0) ==> a.is_above(b)
            || b.is_above(a),
        a.magnitude() == INFINITE && !a.negative() && b.is_finite() ==> a.is_above(b),
        a.magnitude() == INFINITE && a.negative() && b.is_finite() ==> b.is_above(a),
{
}

/// A number is held to the unit interval at the nearer end, and what is no number
/// stays as it is.
pub proof fn law_clamped_at_the_nearer_end(x: Binary64)
    ensures
        x.is_above(Binary64::spec_one()) ==> x.unit_clamped() == Binary64::spec_one(),
        Binary64::spec_zero().is_above(x) ==> x.unit_clamped() == Binary64::spec_zero(),
        !x.is_above(Binary64::spec_one()) && !Binary64::spec_zero().is_above(x) ==> x.unit_clamped() == x,
        x.unit_clamped().unit_clamped() == x.unit_clamped(),
{
}

/// Clamping keeps the order of numbers.
pub proof fn law_clamping_keeps_order(a: Binary64, b: Binary64)
    requires
        !a.is_above(b),
        !a.is_nan(),
        !b.is_nan(),
    ensures
        !a.unit_clamped().is_above(b.unit_clamped()),
{
}

/// A product is negative where one factor is. It is no number where a factor is
/// none, or where one is zero and the other infinite; else it is infinite where a
/// factor is, and zero where a factor is.
pub proof fn law_product_at_the_ends(a: Binary64, b: Binary64)
    ensures
        a.product(b).is_nan() <==> a.is_nan() || b.is_nan() || (a.magnitude() == INFINITE && b.magnitude() == 0) || (
        a.magnitude() == 0 && b.magnitude() == INFINITE),
        !a.product(b).is_nan() ==> a.product(b).negative() == (a.negative() != b.negative()),
        !a.product(b).is_nan() && (a.magnitude() == INFINITE || b.magnitude() == INFINITE) ==> a.product(b).magnitude()
            == INFINITE,
        !a.product(b).is_nan() && (a.magnitude() == 0 || b.magnitude() == 0) ==> a.product(b).magnitude() == 0,
{
    lemma_pow2_pos(1074);
    lemma_units_small(0);
    let x: nat = units(a.magnitude());
    let y: nat = units(b.magnitude());
    if x == 0 || y == 0 {
        assert(x * y == 0) by (nonlinear_arith)
            requires
                x == 0 || y == 0,
        ;
    }
    assert(half_even(0, pow2(1074)) == 0);
    assert(nearest(0, pow2(1074)) == 0);
}

/// No number is closer to the exact reciprocal of a rank than the one that stands
/// for it.
pub proof fn law_reciprocal_is_nearest(rank: u32, other: nat)
    requires
        rank > 0,
    ensures
        !Binary64::spec_reciprocal(rank).negative(),
        distance(Binary64::spec_reciprocal(rank).magnitude(), pow2(1074), rank as nat) <= distance(
            other,
            pow2(1074),
            rank as nat,
        ),
{
    lemma_reciprocal_bound(rank);
    law_nearest_is_nearest(pow2(1074), rank as nat, other);
}

/// Of two numbers that are equally close to a quotient, rounding takes the one
/// whose last bit is zero.
pub proof fn law_tie_goes_to_even(n: nat, d: nat, other: nat)
    requires
        d > 0,
        other != nearest(n, d),
        distance(other, n, d) == distance(nearest(n, d), n, d),
    ensures
        nearest(n, d) % 2 == 0,
    decreases n - d,
{
    let step: nat = STEP as nat;
    if n < d * 0x20_0000_0000_0000 {
        let q: nat = n / d;
        let r: nat = n % d;
        let m: nat = half_even(n, d);
        lemma_fundamental_div_mod(n as int, d as int);
        lemma_half_even_at_most(n, d, 2 * step);
        lemma_units_small(m);
        assert(d * q == q * d && (q + 1) * d == q * d + d && (q + 2) * d == q * d + 2 * d) by (nonlinear_arith);
        let value: nat = units(other);
        if other <= 2 * step {
            lemma_units_small(other);
        } else {
            lemma_units_small(2 * step);
            lemma_units_increase(2 * step, other);
        }
        if value < q {
            assert(value * d + d <= q * d) by (nonlinear_arith)
                requires
                    value + 1 <= q,
            ;
        } else if value > q + 1 {
            assert(value * d >= (q + 2) * d) by (nonlinear_arith)
                requires
                    value >= q + 2,
            ;
        }
    } else {
        let rest: nat = nearest(n, 2 * d);
        lemma_nearest_at_least(n, 2 * d);
        lemma_units_step(rest);
        assert(units(rest) * (2 * d) == (2 * units(rest)) * d) by (nonlinear_arith);
        if other >= 2 * step {
            let previous: nat = (other - step) as nat;
            lemma_units_step(previous);
            assert(units(previous) * (2 * d) == (2 * units(previous)) * d) by (nonlinear_arith);
            law_tie_goes_to_even(n, 2 * d, previous);
        } else {
            lemma_units_small(other);
            lemma_units_small(2 * step);
            law_nearest_is_nearest(n, d, 2 * step);
            assert(other * d + d <= (2 * step) * d) by (nonlinear_arith)
                requires
                    other + 1 <= 2 * step,
            ;
        }
    }
}

} // verus!
