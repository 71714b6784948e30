//! Exact ratios of integers, used for processor utilization, speeds and voltage.

use vstd::prelude::*;

verus! {

/// The quotient `num / den`.
///
/// The denominator carries the sign. A zero denominator stands for a quantity
/// without bound when the numerator is positive, and for no quantity at all
/// when the numerator is zero too; neither exceeds anything or is exceeded.
#[derive(Clone, Copy, PartialEq, Eq, Structural, Debug)]
pub struct Ratio {
    pub num: u128,
    pub den: i64,
}

/// `x / p > y / q` for positive `p` and `q`, by cross multiplication.
pub open spec fn quotient_exceeds(x: int, p: int, y: int, q: int) -> bool {
    x * q > y * p
}

proof fn lemma_quotient_exceeds(x: int, p: int, y: int, q: int)
    requires
        0 <= x,
        0 <= y,
        0 < p,
        0 < q,
    ensures
        quotient_exceeds(x, p, y, q) <==> (x / p > y / q || (x / p == y / q && (x % p) * q > (y
            % q) * p)),
        0 <= (x % p) * q < p * q,
        0 <= (y % q) * p < p * q,
{
    let q1 = x / p;
    let r1 = x % p;
    let q2 = y / q;
    let r2 = y % q;
    vstd::arithmetic::div_mod::lemma_fundamental_div_mod(x, p);
    vstd::arithmetic::div_mod::lemma_fundamental_div_mod(y, q);
    assert(0 <= r1 < p && 0 <= r2 < q);
    assert(0 <= r1 * q < p * q) by (nonlinear_arith)
        requires
            0 <= r1 < p,
            0 < q,
    ;
    assert(0 <= r2 * p < p * q) by (nonlinear_arith)
        requires
            0 <= r2 < q,
            0 < p,
    ;
    assert(x * q == q1 * (p * q) + r1 * q) by (nonlinear_arith)
        requires
            x == p * q1 + r1,
    ;
    assert(y * p == q2 * (p * q) + r2 * p) by (nonlinear_arith)
        requires
            y == q * q2 + r2,
    ;
    let m = p * q;
    if q1 > q2 {
        assert(q1 * m >= q2 * m + m) by (nonlinear_arith)
            requires
                q1 >= q2 + 1,
                m > 0,
        ;
    } else if q1 < q2 {
        assert(q2 * m >= q1 * m + m) by (nonlinear_arith)
            requires
                q2 >= q1 + 1,
                m > 0,
        ;
    }
}

/// Decides `x / p > y / q` without forming a product that could overflow.
fn quotient_more(x: u128, p: u128, y: u128, q: u128) -> (b: bool)
    requires
        0 < p <= 0x8000_0000_0000_0000,
        0 < q <= 0x8000_0000_0000_0000,
    ensures
        b == quotient_exceeds(x as int, p as int, y as int, q as int),
{
    let q1: u128 = x / p;
    let r1: u128 = x % p;
    let q2: u128 = y / q;
    let r2: u128 = y % q;
    proof {
        lemma_quotient_exceeds(x as int, p as int, y as int, q as int);
        assert(p * q <= 0x8000_0000_0000_0000 * 0x8000_0000_0000_0000) by (nonlinear_arith)
            requires
                0 < p <= 0x8000_0000_0000_0000,
                0 < q <= 0x8000_0000_0000_0000,
        ;
    }
    if q1 != q2 {
        q1 > q2
    } else {
        r1 * q > r2 * p
    }
}

/// The absolute value of a denominator.
fn magnitude(den: i64) -> (m: u128)
    ensures
        m == if den < 0 {
            -(den as int)
        } else {
            den as int
        },
{
    if den < 0 {
        (-(den as i128)) as u128
    } else {
        den as u128
    }
}

impl Ratio {
    /// The absolute value of the denominator.
    pub open spec fn scale(self) -> int {
        if self.den < 0 {
            -(self.den as int)
        } else {
            self.den as int
        }
    }

    /// The numerator, with the sign of the denominator.
    pub open spec fn signed_num(self) -> int {
        if self.den < 0 {
            -(self.num as int)
        } else {
            self.num as int
        }
    }

    /// Whether the ratio is a number: its denominator is not zero.
    pub open spec fn is_number(self) -> bool {
        self.den != 0
    }

    /// `self > other`. Nothing exceeds a ratio with a zero denominator; a ratio
    /// without bound exceeds every number.
    pub open spec fn spec_exceeds(self, other: Ratio) -> bool {
        if other.den == 0 {
            false
        } else if self.den == 0 {
            self.num > 0
        } else {
            self.signed_num() * other.scale() > other.signed_num() * self.scale()
        }
    }

    /// `self <= 1`; false of a ratio with a zero denominator.
    pub open spec fn spec_at_most_one(self) -> bool {
        self.den < 0 || (self.den > 0 && self.num <= self.den)
    }

    /// The whole number `n`.
    pub fn whole(n: u64) -> (r: Ratio)
        ensures
            r == (Ratio { num: n as u128, den: 1 }),
    {
        Ratio { num: n as u128, den: 1 }
    }

    /// Decides `self > other`.
    pub fn exceeds(&self, other: &Ratio) -> (b: bool)
        ensures
            b == self.spec_exceeds(*other),
    {
        if other.den == 0 {
            return false;
        }
        if self.den == 0 {
            return self.num > 0;
        }
        let sa: u128 = magnitude(self.den);
        let sb: u128 = magnitude(other.den);
        if self.den > 0 {
            if other.den > 0 {
                quotient_more(self.num, sa, other.num, sb)
            } else {
                proof {
                    lemma_mixed_signs(self.num as int, sa as int, other.num as int, sb as int);
                }
                self.num > 0 || other.num > 0
            }
        } else {
            if other.den > 0 {
                proof {
                    lemma_mixed_signs(other.num as int, sb as int, self.num as int, sa as int);
                }
                false
            } else {
                let b = quotient_more(other.num, sb, self.num, sa);
                proof {
                    assert((-(self.num as int)) * (sb as int) == -((self.num as int) * (sb as int)))
                        by (nonlinear_arith);
                    assert((-(other.num as int)) * (sa as int) == -((other.num as int) * (sa
                        as int))) by (nonlinear_arith);
                }
                b
            }
        }
    }

    /// Decides `self <= 1`.
    pub fn at_most_one(&self) -> (b: bool)
        ensures
            b == self.spec_at_most_one(),
    {
        self.den < 0 || (self.den > 0 && self.num <= self.den as u128)
    }
}

/// A table of speeds as the contracts speak of it.
pub open spec fn table_view(speeds: Option<Vec<Ratio>>) -> Option<Seq<Ratio>> {
    match speeds {
        Some(v) => Some(v@),
        None => None,
    }
}

/// A quotient that is not negative against one that is not positive.
proof fn lemma_mixed_signs(x: int, p: int, y: int, q: int)
    requires
        0 <= x,
        0 <= y,
        0 < p,
        0 < q,
    ensures
        x * q > (-y) * p <==> (x > 0 || y > 0),
        !((-y) * p > x * q),
{
    assert(x * q >= 0 && y * p >= 0 && (-y) * p == -(y * p)) by (nonlinear_arith)
        requires
            0 <= x,
            0 <= y,
            0 < p,
            0 < q,
    ;
    if x > 0 {
        assert(x * q > 0) by (nonlinear_arith)
            requires
                x > 0,
                q > 0,
        ;
    }
    if y > 0 {
        assert(y * p > 0) by (nonlinear_arith)
            requires
                y > 0,
                p > 0,
        ;
    }
}

} // verus!
