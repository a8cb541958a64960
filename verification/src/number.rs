//! Numbers, kept as the 64 bits of an IEEE 754 double.
//!
//! What is decided about a number here is decided on its bits: whether it is finite, zero or
//! whole, how two of them are ordered, and which integers it holds exactly. Sums, products,
//! quotients and the spelling of a fraction come from outside (see [`crate::interpreter`]).

use vstd::prelude::*;
use vstd::arithmetic::power2::pow2;
use vstd::arithmetic::power2::lemma_pow2_adds;
use vstd::arithmetic::power2::lemma_pow2_pos;
use vstd::arithmetic::power2::lemma2_to64;
use vstd::arithmetic::power2::lemma2_to64_rest;

verus! {

/// Where the sign bit starts.
pub const SIGN: u64 = 0x8000_0000_0000_0000;

/// Where the exponent starts: the fraction has 52 bits.
pub const HIDDEN: u64 = 0x10_0000_0000_0000;

/// The bits of one.
pub const ONE: u64 = 0x3ff0_0000_0000_0000;

/// The largest magnitude up to which every integer is a number: 2 to the 53rd.
pub const EXACT_INTEGER: u64 = 0x20_0000_0000_0000;

/// An IEEE 754 double, by its bits.
#[derive(Debug, Clone, Copy, PartialEq, Eq, Hash, Structural)]
pub struct Number {
    bits: u64,
}

/// The bits without the sign.
pub open spec fn magnitude(bits: u64) -> u64 {
    if bits >= SIGN {
        (bits - SIGN) as u64
    } else {
        bits
    }
}

/// The biased exponent.
pub open spec fn exponent(bits: u64) -> int {
    magnitude(bits) as int / HIDDEN as int
}

/// The fraction's 52 bits.
pub open spec fn fraction(bits: u64) -> int {
    magnitude(bits) as int % HIDDEN as int
}

/// Neither infinite nor "not a number".
pub open spec fn is_finite_bits(bits: u64) -> bool {
    exponent(bits) < 2047
}

/// Positive or negative zero.
pub open spec fn is_zero_bits(bits: u64) -> bool {
    magnitude(bits) == 0
}

/// "Not a number": the exponent of an infinity with a fraction.
pub open spec fn is_nan_bits(bits: u64) -> bool {
    exponent(bits) == 2047 && fraction(bits) != 0
}

/// A rank that orders numbers as their values are ordered; both zeros rank alike.
pub open spec fn rank(bits: u64) -> int {
    if bits >= SIGN {
        -(magnitude(bits) as int)
    } else {
        magnitude(bits) as int
    }
}

/// The whole number that a magnitude is, if it is one: zero, or the 53 significant bits
/// `HIDDEN + fraction` shifted by the exponent.
pub open spec fn whole_magnitude(bits: u64) -> Option<nat> {
    let significant = (HIDDEN + fraction(bits)) as nat;
    if magnitude(bits) == 0 {
        Some(0)
    } else if exponent(bits) < 1023 || exponent(bits) >= 2047 {
        None
    } else if exponent(bits) >= 1075 {
        Some(significant * pow2((exponent(bits) - 1075) as nat))
    } else if significant % pow2((1075 - exponent(bits)) as nat) == 0 {
        Some(significant / pow2((1075 - exponent(bits)) as nat))
    } else {
        None
    }
}

/// The whole number that `bits` is, if it is one and lies within plus or minus 2 to the 53rd.
pub open spec fn exact_integer(bits: u64) -> Option<int> {
    match whole_magnitude(bits) {
        Some(n) if n <= EXACT_INTEGER => Some(if bits >= SIGN { -(n as int) } else { n as int }),
        _ => None,
    }
}

impl Number {
    /// The bits.
    pub closed spec fn bits(self) -> u64 {
        self.bits
    }

    /// The number with these bits.
    pub fn from_bits(bits: u64) -> (r: Self)
        ensures
            r.bits() == bits,
    {
        Number { bits }
    }

    /// The bits.
    pub fn to_bits(self) -> (r: u64)
        ensures
            r == self.bits(),
    {
        self.bits
    }

    fn magnitude(self) -> (r: u64)
        ensures
            r == magnitude(self.bits()),
            r < SIGN,
    {
        if self.bits >= SIGN {
            self.bits - SIGN
        } else {
            self.bits
        }
    }

    /// Neither infinite nor "not a number".
    pub fn is_finite(self) -> (r: bool)
        ensures
            r == is_finite_bits(self.bits()),
    {
        self.magnitude() / HIDDEN < 2047
    }

    /// Positive or negative zero.
    pub fn is_zero(self) -> (r: bool)
        ensures
            r == is_zero_bits(self.bits()),
    {
        self.magnitude() == 0
    }

    /// "Not a number".
    pub fn is_nan(self) -> (r: bool)
        ensures
            r == is_nan_bits(self.bits()),
    {
        self.magnitude() / HIDDEN == 2047 && self.magnitude() % HIDDEN != 0
    }

    /// The number with the other sign.
    pub fn negated(self) -> (r: Self)
        ensures
            r.bits() == (if self.bits() >= SIGN { self.bits() - SIGN } else { self.bits() + SIGN }),
    {
        if self.bits >= SIGN {
            Number { bits: self.bits - SIGN }
        } else {
            Number { bits: self.bits + SIGN }
        }
    }

    /// Whether two numbers are equal: the same value, neither "not a number".
    pub fn equals(self, other: Self) -> (r: bool)
        ensures
            r == equal_bits(self.bits(), other.bits()),
    {
        !self.is_nan() && !other.is_nan() && self.rank() == other.rank()
    }

    /// Whether the first number is less.
    pub fn less(self, other: Self) -> (r: bool)
        ensures
            r == less_bits(self.bits(), other.bits()),
    {
        !self.is_nan() && !other.is_nan() && self.rank() < other.rank()
    }

    fn rank(self) -> (r: i128)
        ensures
            r == rank(self.bits()),
    {
        if self.bits >= SIGN {
            -(self.magnitude() as i128)
        } else {
            self.magnitude() as i128
        }
    }

    /// The whole number that this is, if it is one within plus or minus 2 to the 53rd.
    pub fn exact_integer(self) -> (r: Option<i64>)
        ensures
            match (r, exact_integer(self.bits())) {
                (Some(a), Some(b)) => a == b,
                (None, None) => true,
                _ => false,
            },
    {
        let magnitude = self.magnitude();
        if magnitude == 0 {
            return Some(0);
        }
        let exponent: u64 = magnitude / HIDDEN;
        let significant: u64 = HIDDEN + magnitude % HIDDEN;
        if exponent < 1023 || exponent >= 2047 {
            return None;
        }
        let n: u64 = if exponent >= 1075 {
            if exponent > 1075 {
                proof {
                    lemma_large(significant as nat, (exponent - 1075) as nat);
                }
                if exponent == 1076 && significant == HIDDEN {
                    // Exactly 2 to the 53rd.
                    proof {
                        lemma2_to64();
                    }
                    EXACT_INTEGER
                } else {
                    return None;
                }
            } else {
                proof {
                    lemma2_to64();
                }
                significant
            }
        } else {
            let shift: u64 = 1075 - exponent;
            let unit = power_of_two(shift);
            if significant % unit != 0 {
                return None;
            }
            proof {
                assert(significant / unit <= significant) by (nonlinear_arith)
                    requires
                        unit >= 1,
                ;
            }
            significant / unit
        };
        if n > EXACT_INTEGER {
            return None;
        }
        if self.bits >= SIGN {
            Some(-(n as i64))
        } else {
            Some(n as i64)
        }
    }

    /// The number that is the integer `n`.
    pub fn from_integer(n: i64) -> (r: Self)
        requires
            -EXACT_INTEGER <= n <= EXACT_INTEGER,
        ensures
            r.bits() == integer_bits(n as int),
            exact_integer(r.bits()) == Some(n as int),
            is_finite_bits(r.bits()),
    {
        proof {
            law_integer_bits(n as int);
        }
        let negative = n < 0;
        let size: u64 = if negative {
            (-n) as u64
        } else {
            n as u64
        };
        if size == 0 {
            return Number { bits: 0 };
        }
        if size == EXACT_INTEGER {
            let bits: u64 = 1076 * HIDDEN;
            return Number { bits: if negative { bits + SIGN } else { bits } };
        }
        let mut shift: u64 = 0;
        let mut significant: u64 = size;
        proof {
            lemma2_to64();
        }
        while significant < HIDDEN
            invariant
                shift <= 52,
                0 < significant < EXACT_INTEGER,
                significant >= pow2(shift as nat),
                normalised(size as nat, 0) == normalised(significant as nat, shift as nat),
            decreases 2 * HIDDEN - significant,
        {
            proof {
                lemma_doubled(shift as nat, significant as nat);
            }
            significant = significant * 2;
            shift = shift + 1;
        }
        let bits: u64 = (1075 - shift) * HIDDEN + (significant - HIDDEN);
        Number { bits: if negative { bits + SIGN } else { bits } }
    }
}

/// The magnitude bits of `size`, doubled `shift` times so far: doubled on until the hidden bit is
/// set, each doubling lowering the exponent by one.
pub open spec fn normalised(size: nat, shift: nat) -> int
    decreases 2 * HIDDEN - size,
{
    if size >= HIDDEN || size == 0 {
        (1075 - shift) * HIDDEN + (size - HIDDEN)
    } else {
        normalised(2 * size, shift + 1)
    }
}

/// The bits of the integer `n`, for `n` within plus or minus 2 to the 53rd.
pub open spec fn integer_bits(n: int) -> u64 {
    let size = (if n < 0 { -n } else { n }) as nat;
    let magnitude = if size == 0 {
        0
    } else if size == EXACT_INTEGER {
        1076 * HIDDEN
    } else {
        normalised(size, 0)
    };
    (if n < 0 { magnitude + SIGN } else { magnitude }) as u64
}

proof fn lemma_doubled(shift: nat, significant: nat)
    requires
        significant < HIDDEN,
        significant >= pow2(shift),
    ensures
        2 * significant >= pow2(shift + 1),
        shift < 52,
{
    lemma2_to64();
    lemma2_to64_rest();
    lemma_pow2_adds(shift, 1);
    if shift >= 52 {
        lemma_pow2_adds(52, (shift - 52) as nat);
        lemma_pow2_pos((shift - 52) as nat);
        assert(pow2(shift) >= HIDDEN) by (nonlinear_arith)
            requires
                pow2(shift) == pow2(52) * pow2((shift - 52) as nat),
                pow2(52) == HIDDEN,
                pow2((shift - 52) as nat) >= 1,
        ;
    }
}

/// Where the doubling ends: at `size` times a power of two that sets the hidden bit.
proof fn lemma_normalised(size: nat, original: nat, shift: nat) -> (k: nat)
    requires
        0 < original < EXACT_INTEGER,
        0 < size < EXACT_INTEGER,
        size == original * pow2(shift),
        size >= pow2(shift),
        shift <= 52,
    ensures
        k <= 52,
        HIDDEN <= original * pow2(k) < 2 * HIDDEN,
        normalised(size, shift) == (1075 - k) * HIDDEN + (original * pow2(k) - HIDDEN),
    decreases 2 * HIDDEN - size,
{
    if size >= HIDDEN {
        shift
    } else {
        lemma_doubled(shift, size);
        lemma2_to64();
        lemma_pow2_adds(shift, 1);
        assert(2 * size == original * (pow2(shift) * 2)) by (nonlinear_arith)
            requires
                size == original * pow2(shift),
        ;
        lemma_normalised(2 * size, original, shift + 1)
    }
}

/// An integer within plus or minus 2 to the 53rd is a finite number, and reads back as itself.
pub proof fn law_integer_bits(n: int)
    requires
        -EXACT_INTEGER <= n <= EXACT_INTEGER,
    ensures
        exact_integer(integer_bits(n)) == Some(n),
        is_finite_bits(integer_bits(n)),
        !is_nan_bits(integer_bits(n)),
        integer_bits(n) != SIGN,
{
    lemma2_to64();
    let size = (if n < 0 { -n } else { n }) as nat;
    if size == EXACT_INTEGER {
        let bits = (1076 * HIDDEN) as u64;
        assert(1076 * HIDDEN / (HIDDEN as int) == 1076);
        assert(1076 * HIDDEN % (HIDDEN as int) == 0);
        assert(HIDDEN as nat * pow2(1) == EXACT_INTEGER) by (nonlinear_arith)
            requires
                pow2(1) == 2,
        ;
        assert(magnitude((bits + SIGN) as u64) == bits);
        assert(magnitude(bits) == bits);
    } else if size > 0 {
        assert(size * pow2(0) == size) by (nonlinear_arith)
            requires
                pow2(0) == 1,
        ;
        let k = lemma_normalised(size, size, 0);
        let unit = pow2(k);
        let significant = size * unit;
        let whole = (1075 - k) * HIDDEN + (significant - HIDDEN);
        lemma_pow2_pos(k);
        assert(0 <= whole < SIGN) by (nonlinear_arith)
            requires
                whole == (1075 - k) * HIDDEN + (significant - HIDDEN),
                HIDDEN <= significant < 2 * HIDDEN,
                0 <= k <= 52,
        ;
        let bits = whole as u64;
        assert(magnitude((bits + SIGN) as u64) == bits);
        assert(magnitude(bits) == bits);
        assert(whole / (HIDDEN as int) == 1075 - k && whole % (HIDDEN as int) == significant - HIDDEN)
            by (nonlinear_arith)
            requires
                whole == (1075 - k) * HIDDEN + (significant - HIDDEN),
                HIDDEN <= significant < 2 * HIDDEN,
        ;
        assert(significant % unit == 0 && significant / unit == size) by (nonlinear_arith)
            requires
                significant == size * unit,
                unit > 0,
        ;
        if k == 0 {
            assert(significant * pow2(0) == significant) by (nonlinear_arith)
                requires
                    pow2(0) == 1,
            ;
        }
    }
}

/// Whether two numbers are equal.
pub open spec fn equal_bits(a: u64, b: u64) -> bool {
    !is_nan_bits(a) && !is_nan_bits(b) && rank(a) == rank(b)
}

/// Whether the first number is less.
pub open spec fn less_bits(a: u64, b: u64) -> bool {
    !is_nan_bits(a) && !is_nan_bits(b) && rank(a) < rank(b)
}

proof fn lemma_large(significant: nat, k: nat)
    requires
        HIDDEN <= significant < 2 * HIDDEN,
        k >= 1,
    ensures
        k == 1 ==> significant * pow2(k) == 2 * significant,
        k > 1 ==> significant * pow2(k) > EXACT_INTEGER,
        k == 1 && significant > HIDDEN ==> significant * pow2(k) > EXACT_INTEGER,
{
    lemma2_to64();
    if k > 1 {
        lemma_pow2_adds(2, (k - 2) as nat);
        lemma_pow2_pos((k - 2) as nat);
        assert(pow2(k) >= 4) by (nonlinear_arith)
            requires
                pow2(k) == pow2(2) * pow2((k - 2) as nat),
                pow2(2) == 4,
                pow2((k - 2) as nat) >= 1,
        ;
        assert(significant * pow2(k) >= significant * 4) by (nonlinear_arith)
            requires
                pow2(k) >= 4,
        ;
    }
}

fn power_of_two(k: u64) -> (r: u64)
    requires
        k <= 52,
    ensures
        r == pow2(k as nat),
        r >= 1,
{
    let mut i: u64 = 0;
    let mut r: u64 = 1;
    proof {
        lemma2_to64();
    }
    while i < k
        invariant
            i <= k <= 52,
            r == pow2(i as nat),
            1 <= r <= HIDDEN,
        decreases k - i,
    {
        proof {
            lemma2_to64_rest();
            lemma_pow2_adds(i as nat, 1);
            lemma2_to64();
            lemma_pow2_adds((i + 1) as nat, (52 - i - 1) as nat);
            lemma_pow2_pos((52 - i - 1) as nat);
            lemma_pow2_pos((i + 1) as nat);
            assert(pow2((i + 1) as nat) <= HIDDEN) by (nonlinear_arith)
                requires
                    pow2((i + 1) as nat) * pow2((52 - i - 1) as nat) == HIDDEN,
                    pow2((52 - i - 1) as nat) >= 1,
                    pow2((i + 1) as nat) >= 1,
            ;
        }
        r = r * 2;
        i = i + 1;
    }
    r
}

/// A whole, non-negative number below 2 to the 53rd as a position.
pub open spec fn position_of(bits: u64) -> Option<int> {
    match exact_integer(bits) {
        Some(n) if 0 <= n < EXACT_INTEGER => Some(n),
        _ => None,
    }
}

/// A whole, non-negative number as an array position.
pub fn array_slot(n: Number) -> (r: Option<u64>)
    ensures
        match (r, position_of(n.bits())) {
            (Some(a), Some(b)) => a == b,
            (None, None) => true,
            _ => false,
        },
{
    match n.exact_integer() {
        Some(i) => if 0 <= i && (i as u64) < EXACT_INTEGER {
            Some(i as u64)
        } else {
            None
        },
        None => None,
    }
}

/// The number that a single-precision pattern is: the same value, wider.
pub open spec fn widened(bits: u32) -> u64 {
    let negative = bits >= 0x8000_0000;
    let size = if negative { bits - 0x8000_0000 } else { bits as int };
    let e = size / 0x80_0000;
    let f = size % 0x80_0000;
    let wide = if e == 255 {
        2047 * HIDDEN + f * 0x2000_0000
    } else if e > 0 {
        (e + 896) * HIDDEN + f * 0x2000_0000
    } else if f == 0 {
        0
    } else {
        widened_small(f as nat, 0)
    };
    (if negative { wide + SIGN } else { wide }) as u64
}

/// A fraction below the single-precision normal range, normalised: each doubling lowers the
/// exponent by one.
pub open spec fn widened_small(f: nat, shift: nat) -> int
    decreases 0x100_0000 - f,
{
    if f >= 0x80_0000 || f == 0 {
        (897 - shift) * HIDDEN + (f - 0x80_0000) * 0x2000_0000
    } else {
        widened_small(2 * f, shift + 1)
    }
}

/// Widen a single-precision pattern.
pub fn widen(bits: u32) -> (r: Number)
    ensures
        r.bits() == widened(bits),
{
    let negative = bits >= 0x8000_0000;
    let size: u64 = if negative {
        (bits - 0x8000_0000) as u64
    } else {
        bits as u64
    };
    let e: u64 = size / 0x80_0000;
    let f: u64 = size % 0x80_0000;
    let wide: u64 = if e == 255 {
        2047 * HIDDEN + f * 0x2000_0000
    } else if e > 0 {
        (e + 896) * HIDDEN + f * 0x2000_0000
    } else if f == 0 {
        0
    } else {
        let mut shift: u64 = 0;
        let mut g: u64 = f;
        proof {
            lemma2_to64();
        }
        while g < 0x80_0000
            invariant
                0 < g < 0x100_0000,
                shift <= 23,
                g >= pow2(shift as nat),
                widened_small(f as nat, 0) == widened_small(g as nat, shift as nat),
            decreases 0x100_0000 - g,
        {
            proof {
                lemma2_to64();
                lemma_pow2_adds(shift as nat, 1);
                if shift >= 23 {
                    assert(pow2(23) == 0x80_0000);
                }
            }
            g = g * 2;
            shift = shift + 1;
        }
        (897 - shift) * HIDDEN + (g - 0x80_0000) * 0x2000_0000
    };
    if negative {
        Number { bits: wide + SIGN }
    } else {
        Number { bits: wide }
    }
}

/// How a whole number's significant bits and exponent hang together.
pub proof fn lemma_scaled(bits: u64, m: nat)
    requires
        whole_magnitude(bits) == Some(m),
        magnitude(bits) != 0,
        m <= EXACT_INTEGER,
    ensures
        m > 0,
        exponent(bits) <= 1076,
        exponent(bits) == 1076 ==> m == EXACT_INTEGER && HIDDEN + fraction(bits) == HIDDEN,
        exponent(bits) <= 1075 ==> HIDDEN + fraction(bits) == m * pow2((1075 - exponent(bits)) as nat),
{
    let e = exponent(bits);
    let significant = (HIDDEN + fraction(bits)) as nat;
    if e >= 1075 {
        let k = (e - 1075) as nat;
        vstd::arithmetic::power2::lemma2_to64();
        if k >= 2 {
            vstd::arithmetic::power2::lemma_pow2_adds(2, (k - 2) as nat);
            vstd::arithmetic::power2::lemma_pow2_pos((k - 2) as nat);
            assert(significant * pow2(k) >= significant * 4) by (nonlinear_arith)
                requires
                    pow2(k) == 4 * pow2((k - 2) as nat),
                    pow2((k - 2) as nat) >= 1,
                    significant >= 0,
            ;
        } else if k == 1 {
            assert(significant * pow2(k) == significant * 2);
        } else {
            assert(significant * pow2(k) == significant) by (nonlinear_arith)
                requires
                    pow2(k) == 1,
            ;
        }
    } else {
        let d = pow2((1075 - e) as nat);
        vstd::arithmetic::power2::lemma_pow2_pos((1075 - e) as nat);
        vstd::arithmetic::div_mod::lemma_fundamental_div_mod(significant as int, d as int);
        assert(significant == m * d) by (nonlinear_arith)
            requires
                significant == d * (significant / d) + significant % d,
                significant % d == 0,
                m == significant / d,
        ;
        assert(m > 0) by (nonlinear_arith)
            requires
                significant == m * d,
                significant > 0,
                d > 0,
                m >= 0,
        ;
    }
}

/// The negative zero is the whole number zero.
pub proof fn law_negative_zero_is_zero()
    ensures
        exact_integer(SIGN) == Some(0int),
        integer_bits(0) == 0,
{
}

/// A whole number within plus or minus 2 to the 53rd has one form, apart from the sign of zero.
pub proof fn law_exact_integer_bits(bits: u64)
    requires
        exact_integer(bits) is Some,
        bits != SIGN,
    ensures
        integer_bits(exact_integer(bits)->0) == bits,
{
    let n = exact_integer(bits)->0;
    let other = integer_bits(n);
    law_integer_bits(n);
    let m = whole_magnitude(bits)->0;
    assert(whole_magnitude(other) == Some(m));
    if magnitude(bits) != 0 {
        lemma_scaled(bits, m);
        assert(magnitude(other) != 0);
        lemma_scaled(other, m);
        let (a, b) = (exponent(bits), exponent(other));
        lemma_one_exponent(m, a, b, (HIDDEN + fraction(bits)) as nat, (HIDDEN + fraction(other)) as nat);
        lemma_one_exponent(m, b, a, (HIDDEN + fraction(other)) as nat, (HIDDEN + fraction(bits)) as nat);
        assert(magnitude(bits) == magnitude(other));
        assert(bits >= SIGN <==> n < 0);
        assert(other >= SIGN <==> n < 0);
    }
}

/// Of two forms of one number, the first does not have the smaller exponent.
proof fn lemma_one_exponent(m: nat, small: int, large: int, s: nat, t: nat)
    requires
        0 < m <= EXACT_INTEGER,
        0 <= small <= 1076,
        0 <= large <= 1076,
        HIDDEN <= s < 2 * HIDDEN,
        HIDDEN <= t < 2 * HIDDEN,
        small <= 1075 ==> s == m * pow2((1075 - small) as nat),
        large == 1076 ==> m == EXACT_INTEGER,
        large <= 1075 ==> t == m * pow2((1075 - large) as nat),
    ensures
        small >= large,
{
    vstd::arithmetic::power2::lemma2_to64();
    if small >= large {
    } else if large == 1076 {
        vstd::arithmetic::power2::lemma_pow2_pos((1075 - small) as nat);
        assert(m * pow2((1075 - small) as nat) >= m) by (nonlinear_arith)
            requires
                pow2((1075 - small) as nat) >= 1,
                m >= 0,
        ;
    } else {
        let k = (1075 - large) as nat;
        let more = (large - small) as nat;
        vstd::arithmetic::power2::lemma_pow2_adds(k, more);
        vstd::arithmetic::power2::lemma_pow2_adds(1, (more - 1) as nat);
        vstd::arithmetic::power2::lemma_pow2_pos((more - 1) as nat);
        assert(pow2(more) >= 2) by (nonlinear_arith)
            requires
                pow2(more) == 2 * pow2((more - 1) as nat),
                pow2((more - 1) as nat) >= 1,
        ;
        assert(s >= 2 * t) by (nonlinear_arith)
            requires
                s == m * (pow2(k) * pow2(more)),
                t == m * pow2(k),
                pow2(more) >= 2,
                t >= 0,
        ;
    }
}

} // verus!
