//! Single- and double-precision numbers, held as their IEEE 754 bits.
//!
//! The library compares such numbers and carries them; what computes with them
//! lies outside.
use vstd::prelude::*;
use vstd::arithmetic::power2::{
    lemma2_to64, lemma_pow2_adds, lemma_pow2_pos, lemma_pow2_unfold, pow2,
};

verus! {

/// A single-precision number, by its bits.
#[derive(Debug, Clone, Copy, PartialEq, Eq, Structural)]
pub struct Single {
    pub bits: u32,
}

/// A double-precision number, by its bits.
#[derive(Debug, Clone, Copy, PartialEq, Eq, Structural)]
pub struct Double {
    pub bits: u64,
}

/// A vector of single-precision numbers.
pub type Vector = Vec<Single>;

impl Single {
    /// The bits without the sign.
    pub open spec fn magnitude(self) -> int {
        if self.bits >= 0x8000_0000 {
            self.bits - 0x8000_0000
        } else {
            self.bits as int
        }
    }

    /// Whether the bits stand for no number.
    pub open spec fn is_nan(self) -> bool {
        self.magnitude() > 0x7f80_0000
    }

    /// A number that orders numbers: greater numbers have greater keys, and
    /// the two zeros have the same. What is no number comes below all numbers.
    pub open spec fn key(self) -> int {
        if self.is_nan() {
            -0x8000_0000
        } else if self.bits >= 0x8000_0000 {
            -self.magnitude()
        } else {
            self.magnitude()
        }
    }

    /// The key of the double-precision number that is this number.
    pub open spec fn wide_key(self) -> int {
        let m = self.magnitude();
        let wide = if m == 0x7f80_0000 {
            0x7ff0_0000_0000_0000
        } else if m < 0x80_0000 {
            wide_magnitude(m, 897)
        } else {
            wide_magnitude(m % 0x80_0000 + 0x80_0000, m / 0x80_0000 + 896)
        };
        if self.bits >= 0x8000_0000 {
            -wide
        } else {
            wide
        }
    }

    /// Whether this number is at least the threshold. What is no number is not,
    /// and nothing is at least what is no number.
    pub open spec fn at_least(self, threshold: Double) -> bool {
        !self.is_nan() && !threshold.is_nan() && self.wide_key() >= threshold.key()
    }

    fn nan(self) -> (r: bool)
        ensures
            r == self.is_nan(),
    {
        let m: u32 = if self.bits >= 0x8000_0000 {
            self.bits - 0x8000_0000
        } else {
            self.bits
        };
        m > 0x7f80_0000
    }

    /// The number's place among the numbers.
    pub fn rank(self) -> (r: i64)
        ensures
            r == self.key(),
    {
        if self.nan() {
            -0x8000_0000
        } else if self.bits >= 0x8000_0000 {
            -((self.bits - 0x8000_0000) as i64)
        } else {
            self.bits as i64
        }
    }

    fn widen(self) -> (r: i64)
        requires
            !self.is_nan(),
        ensures
            r == self.wide_key(),
    {
        let m: u32 = if self.bits >= 0x8000_0000 {
            self.bits - 0x8000_0000
        } else {
            self.bits
        };
        let wide: i64 = if m == 0x7f80_0000 {
            0x7ff0_0000_0000_0000
        } else if m < 0x80_0000 {
            widen_magnitude(m as i64, 897)
        } else {
            widen_magnitude((m % 0x80_0000 + 0x80_0000) as i64, (m / 0x80_0000 + 896) as i64)
        };
        if self.bits >= 0x8000_0000 {
            -wide
        } else {
            wide
        }
    }

    /// Whether this number is at least the threshold.
    pub fn reaches(self, threshold: Double) -> (r: bool)
        ensures
            r == self.at_least(threshold),
    {
        !self.nan() && !threshold.nan() && self.widen() >= threshold.rank()
    }
}

/// The bits, without the sign, of the double-precision number with the
/// significand `m`, of 24 bits at most, and the exponent `e`: the significand
/// is doubled until it has 24 bits.
pub open spec fn wide_magnitude(m: int, e: int) -> int
    decreases 0x100_0000 - m,
{
    if m <= 0 {
        0
    } else if m >= 0x80_0000 {
        e * 0x10_0000_0000_0000 + (m - 0x80_0000) * 0x2000_0000
    } else {
        wide_magnitude(2 * m, e - 1)
    }
}

fn widen_magnitude(m: i64, e: i64) -> (r: i64)
    requires
        0 <= m < 0x100_0000,
        800 <= e < 2046,
    ensures
        r == wide_magnitude(m as int, e as int),
        0 <= r < 0x7ff0_0000_0000_0000,
{
    if m == 0 {
        return 0;
    }
    let mut a: i64 = m;
    let mut b: i64 = e;
    proof {
        lemma2_to64();
    }
    while a < 0x80_0000
        invariant
            0 < a < 0x100_0000,
            0 <= e - b <= 23,
            a >= pow2((e - b) as nat),
            pow2(23) == 0x80_0000,
            800 <= e < 2046,
            wide_magnitude(a as int, b as int) == wide_magnitude(m as int, e as int),
        decreases 0x100_0000 - a,
    {
        proof {
            lemma_pow2_unfold((e - b + 1) as nat);
        }
        a = 2 * a;
        b = b - 1;
    }
    b * 0x10_0000_0000_0000 + (a - 0x80_0000) * 0x2000_0000
}

impl Double {
    /// The bits without the sign.
    pub open spec fn magnitude(self) -> int {
        if self.bits >= 0x8000_0000_0000_0000 {
            self.bits - 0x8000_0000_0000_0000
        } else {
            self.bits as int
        }
    }

    /// Whether the bits stand for no number.
    pub open spec fn is_nan(self) -> bool {
        self.magnitude() > 0x7ff0_0000_0000_0000
    }

    /// A number that orders numbers: greater numbers have greater keys, and
    /// the two zeros have the same.
    pub open spec fn key(self) -> int {
        if self.bits >= 0x8000_0000_0000_0000 {
            -self.magnitude()
        } else {
            self.magnitude()
        }
    }

    fn nan(self) -> (r: bool)
        ensures
            r == self.is_nan(),
    {
        let m: u64 = if self.bits >= 0x8000_0000_0000_0000 {
            self.bits - 0x8000_0000_0000_0000
        } else {
            self.bits
        };
        m > 0x7ff0_0000_0000_0000
    }

    fn rank(self) -> (r: i64)
        ensures
            r == self.key(),
    {
        if self.bits >= 0x8000_0000_0000_0000 {
            -((self.bits - 0x8000_0000_0000_0000) as i64)
        } else {
            self.bits as i64
        }
    }
}

/// A copy of a vector.
pub fn copy_vector(v: &Vector) -> (r: Vector)
    ensures
        r@ == v@,
{
    let mut out: Vec<Single> = Vec::new();
    for i in 0..v.len()
        invariant
            out@ == v@.take(i as int),
    {
        out.push(v[i]);
        assert(out@ =~= v@.take(i + 1));
    }
    out
}

proof fn lemma_wide_below(m: int, e: int)
    requires
        0 < m < 0x80_0000,
    ensures
        wide_magnitude(m, e) < e * 0x10_0000_0000_0000,
    decreases 0x100_0000 - m,
{
    if 2 * m < 0x80_0000 {
        lemma_wide_below(2 * m, e - 1);
    } else {
        assert(wide_magnitude(2 * m, e - 1) == (e - 1) * 0x10_0000_0000_0000 + (2 * m - 0x80_0000)
            * 0x2000_0000);
    }
}

proof fn lemma_wide_grows(m: int, n: int, e: int)
    requires
        0 < m < n < 0x100_0000,
    ensures
        wide_magnitude(m, e) < wide_magnitude(n, e),
    decreases 0x100_0000 - m,
{
    if n < 0x80_0000 {
        lemma_wide_grows(2 * m, 2 * n, e - 1);
    } else if m < 0x80_0000 {
        lemma_wide_below(m, e);
    }
}

/// The bits, without the sign, of the double-precision number that is the
/// single-precision number with the bits `m`.
spec fn widened(m: int) -> int {
    Single { bits: m as u32 }.wide_key()
}

proof fn lemma_widened_grows(m: int, n: int)
    requires
        0 <= m < n <= 0x7f80_0000,
    ensures
        0 <= widened(m) < widened(n),
{
    reveal_with_fuel(wide_magnitude, 25);
    assert(wide_magnitude(1, 897) == 874 * 0x10_0000_0000_0000);
    if 1 < n < 0x80_0000 {
        lemma_wide_grows(1, n, 897);
    }
    if 1 < m < 0x80_0000 {
        lemma_wide_grows(1, m, 897);
    }
    if 0 < m < 0x80_0000 {
        if n < 0x80_0000 {
            lemma_wide_grows(m, n, 897);
        } else {
            lemma_wide_below(m, 897);
        }
    }
}

/// A number is at least a threshold that is a single-precision number exactly
/// where it comes no earlier in the order of single-precision numbers.
pub proof fn law_widening_keeps_order(a: Single, b: Single)
    requires
        !a.is_nan(),
        !b.is_nan(),
    ensures
        a.key() >= b.key() <==> a.wide_key() >= b.wide_key(),
{
    let m = a.magnitude();
    let n = b.magnitude();
    if m < n {
        lemma_widened_grows(m, n);
    }
    if n < m {
        lemma_widened_grows(n, m);
    }
    if m > 0 {
        lemma_widened_grows(0, m);
    }
    if n > 0 {
        lemma_widened_grows(0, n);
    }
    assert(widened(0) == 0);
}

/// The number that a magnitude with a fraction of `width` values per exponent
/// stands for, as a multiple of the smallest one: the exponent says how often
/// the fraction, with its leading one, is doubled.
pub open spec fn multiple(m: int, width: int) -> int {
    if m < width {
        m
    } else {
        (width + m % width) * pow2((m / width - 1) as nat)
    }
}

impl Single {
    /// The number as a multiple of the smallest positive number of its kind.
    pub open spec fn units(self) -> int {
        if self.bits >= 0x8000_0000 {
            -multiple(self.bits - 0x8000_0000, 0x80_0000)
        } else {
            multiple(self.bits as int, 0x80_0000)
        }
    }
}

impl Double {
    /// The number as a multiple of the smallest positive number of its kind.
    pub open spec fn units(self) -> int {
        if self.bits >= 0x8000_0000_0000_0000 {
            -multiple(self.bits - 0x8000_0000_0000_0000, 0x10_0000_0000_0000)
        } else {
            multiple(self.bits as int, 0x10_0000_0000_0000)
        }
    }
}

proof fn lemma_multiple_step(m: int, width: int)
    requires
        0 <= m,
        width == 0x80_0000 || width == 0x10_0000_0000_0000,
    ensures
        0 <= multiple(m, width) < multiple(m + 1, width),
{
    if m >= width {
        let e = m / width;
        let f = m % width;
        let p = pow2((e - 1) as nat) as int;
        lemma_pow2_pos((e - 1) as nat);
        assert(m == e * width + f && 0 <= f < width && e >= 1);
        assert((width + f) * p >= 0) by (nonlinear_arith)
            requires
                width + f >= 0,
                p > 0,
        ;
        if f + 1 < width {
            assert((m + 1) / width == e && (m + 1) % width == f + 1);
            assert((width + f) * p < (width + f + 1) * p) by (nonlinear_arith)
                requires
                    p > 0,
            ;
        } else {
            assert((m + 1) / width == e + 1 && (m + 1) % width == 0);
            lemma_pow2_unfold(e as nat);
            assert((width + f) * p < width * (2 * p)) by (nonlinear_arith)
                requires
                    p > 0,
                    f < width,
            ;
        }
    } else if m + 1 == width {
        lemma2_to64();
        assert(width / width == 1 && width % width == 0);
    }
}

proof fn lemma_multiple_grows(m: int, n: int, width: int)
    requires
        0 <= m < n,
        width == 0x80_0000 || width == 0x10_0000_0000_0000,
    ensures
        0 <= multiple(m, width) < multiple(n, width),
    decreases n - m,
{
    lemma_multiple_step(m, width);
    if m + 1 < n {
        lemma_multiple_grows(m + 1, n, width);
    }
}

/// Widening keeps the number: `k` doublings at most bring the significand to
/// its full width.
proof fn lemma_wide_multiple(m: int, e: int, k: nat)
    requires
        0 < m < 0x100_0000,
        m * pow2(k) >= 0x80_0000,
        e >= 30 + k,
    ensures
        wide_magnitude(m, e) >= 0,
        multiple(wide_magnitude(m, e), 0x10_0000_0000_0000) == m * pow2((e + 28) as nat),
    decreases k,
{
    lemma2_to64();
    if m >= 0x80_0000 {
        let f = (m - 0x80_0000) * 0x2000_0000;
        let w = 0x10_0000_0000_0000int;
        let x = e * w + f;
        assert(0 <= f < w);
        assert(x / w == e && x % w == f);
        lemma_pow2_adds((e - 1) as nat, 29);
        let p = pow2((e - 1) as nat) as int;
        assert((w + f) * p == m * (p * 0x2000_0000)) by (nonlinear_arith)
            requires
                w + f == m * 0x2000_0000,
        ;
    } else {
        assert(k > 0) by {
            if k == 0 {
                assert(pow2(k) == 1);
                assert(m * 1 == m);
            }
        }
        lemma_pow2_unfold(k);
        let q = pow2((k - 1) as nat) as int;
        assert((2 * m) * q == m * (2 * q)) by (nonlinear_arith);
        lemma_wide_multiple(2 * m, e - 1, (k - 1) as nat);
        lemma_pow2_unfold((e + 28) as nat);
        let r = pow2((e + 27) as nat) as int;
        assert((2 * m) * r == m * (2 * r)) by (nonlinear_arith);
    }
}

proof fn lemma_widened_multiple(m: int)
    requires
        0 <= m < 0x7f80_0000,
    ensures
        0 <= widened(m) < 0x7ff0_0000_0000_0000,
        multiple(widened(m), 0x10_0000_0000_0000) == multiple(m, 0x80_0000) * pow2(925),
{
    lemma2_to64();
    lemma_widened_grows(m, 0x7f80_0000);
    if m == 0 {
        assert(0 * pow2(925) == 0) by (nonlinear_arith);
    } else if m < 0x80_0000 {
        assert(m * pow2(23) >= 0x80_0000);
        lemma_wide_multiple(m, 897, 23);
    } else {
        let e = m / 0x80_0000;
        let n = m % 0x80_0000 + 0x80_0000;
        assert(n * pow2(0) >= 0x80_0000);
        lemma_wide_multiple(n, e + 896, 0);
        lemma_pow2_adds((e - 1) as nat, 925);
        let p = pow2((e - 1) as nat) as int;
        let q = pow2(925) as int;
        assert(n * (p * q) == (n * p) * q) by (nonlinear_arith);
    }
}

proof fn lemma_order_by_multiple(m: int, n: int, width: int)
    requires
        0 <= m,
        0 <= n,
        width == 0x80_0000 || width == 0x10_0000_0000_0000,
    ensures
        m < n <==> multiple(m, width) < multiple(n, width),
        m == n <==> multiple(m, width) == multiple(n, width),
        multiple(m, width) >= 0,
        multiple(m, width) == 0 <==> m == 0,
{
    if m < n {
        lemma_multiple_grows(m, n, width);
    } else if n < m {
        lemma_multiple_grows(n, m, width);
    }
    if m > 0 {
        lemma_multiple_grows(0, m, width);
    }
}

/// Scores are ordered as the numbers are that they stand for, and what is no
/// number comes below all of them.
pub proof fn law_scores_order_as_numbers(a: Single, b: Single)
    ensures
        !a.is_nan() && !b.is_nan() ==> (a.key() < b.key() <==> a.units() < b.units()),
        a.is_nan() && !b.is_nan() ==> a.key() < b.key(),
        a.is_nan() && b.is_nan() ==> a.key() == b.key(),
        a.is_nan() <==> 0x7f80_0000 < a.bits < 0x8000_0000 || 0xff80_0000 < a.bits,
{
    lemma_order_by_multiple(a.magnitude(), b.magnitude(), 0x80_0000);
    lemma_order_by_multiple(b.magnitude(), a.magnitude(), 0x80_0000);
}

/// A score reaches a threshold exactly where the number that it stands for is
/// no smaller. The smallest single-precision number is 2^925 times the smallest
/// double-precision one.
pub proof fn law_thresholds_compare_as_numbers(a: Single, t: Double)
    requires
        a.magnitude() < 0x7f80_0000,
        !t.is_nan(),
    ensures
        a.at_least(t) <==> a.units() * pow2(925) >= t.units(),
{
    let w = 0x10_0000_0000_0000int;
    let p = pow2(925) as int;
    lemma_pow2_pos(925);
    lemma_widened_multiple(a.magnitude());
    let x = widened(a.magnitude());
    let y = t.magnitude();
    lemma_order_by_multiple(x, y, w);
    lemma_order_by_multiple(y, x, w);
    let u = multiple(a.magnitude(), 0x80_0000);
    assert((-u) * p == -(u * p)) by (nonlinear_arith);
    assert(a.wide_key() == if a.bits >= 0x8000_0000 {
        -x
    } else {
        x
    });
}

/// An infinite score reaches every threshold that is a number, or only the one
/// below all numbers; and no score reaches, or is reached as, what is no number.
pub proof fn law_thresholds_at_the_ends(a: Single, t: Double)
    ensures
        a.bits == 0x7f80_0000 ==> (a.at_least(t) <==> !t.is_nan()),
        a.bits == 0xff80_0000 ==> (a.at_least(t) <==> t.bits == 0xfff0_0000_0000_0000),
        a.is_nan() || t.is_nan() ==> !a.at_least(t),
        t.is_nan() <==> 0x7ff0_0000_0000_0000 < t.bits < 0x8000_0000_0000_0000
            || 0xfff0_0000_0000_0000 < t.bits,
{
}

} // verus!
