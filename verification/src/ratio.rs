//! Exact nonnegative rationals on `u64` parts.
//!
//! Genotype dosages, centroids and accuracies are exact rationals here, kept
//! as numerator/denominator pairs. Every operation has a spec-level mirror
//! over unbounded integers, and the executable form returns `None` exactly
//! when a part of the result leaves the `u64` range.

use vstd::prelude::*;

verus! {

/// An exact nonnegative rational, as a numerator/denominator pair.
/// The pair is not necessarily reduced; two values are equal as rationals
/// when `rat_eq` holds of them.
#[derive(Clone, Copy, PartialEq, Eq, Structural, Debug)]
pub struct Ratio {
    pub num: u64,
    pub den: u64,
}

/// A well-formed rational has a positive denominator.
pub open spec fn rat_wf(r: Ratio) -> bool {
    r.den >= 1
}

/// a/b == c/d  <==>  a*d == c*b
pub open spec fn rat_eq(a: Ratio, b: Ratio) -> bool {
    a.num * b.den == b.num * a.den
}

/// a/b <= c/d  <==>  a*d <= c*b
pub open spec fn rat_le(a: Ratio, b: Ratio) -> bool {
    a.num * b.den <= b.num * a.den
}

/// a/b < c/d  <==>  a*d < c*b
pub open spec fn rat_lt(a: Ratio, b: Ratio) -> bool {
    a.num * b.den < b.num * a.den
}

/// Numerator and denominator of the sum, over unbounded integers.
/// When one denominator divides the other, the sum is put over the larger
/// denominator, which keeps running sums of same-ploidy dosages small.
pub open spec fn spec_add_parts(a: Ratio, b: Ratio) -> (int, int) {
    if a.den % b.den == 0 {
        (a.num + b.num * (a.den / b.den), a.den as int)
    } else if b.den % a.den == 0 {
        (a.num * (b.den / a.den) + b.num, b.den as int)
    } else {
        (a.num * b.den + b.num * a.den, a.den * b.den)
    }
}

/// The checked sum: `Some` exactly when both parts fit in `u64`.
pub open spec fn rat_add_opt(a: Ratio, b: Ratio) -> Option<Ratio> {
    let n = spec_add_parts(a, b).0;
    let d = spec_add_parts(a, b).1;
    if n <= u64::MAX && d <= u64::MAX {
        Some(Ratio { num: n as u64, den: d as u64 })
    } else {
        None
    }
}

/// Parts of |a - b| over unbounded integers.
pub open spec fn spec_sub_abs_parts(a: Ratio, b: Ratio) -> (int, int) {
    let x = a.num * b.den;
    let y = b.num * a.den;
    (if x >= y { x - y } else { y - x }, a.den * b.den)
}

/// The checked absolute difference.
pub open spec fn rat_sub_abs_opt(a: Ratio, b: Ratio) -> Option<Ratio> {
    let n = spec_sub_abs_parts(a, b).0;
    let d = spec_sub_abs_parts(a, b).1;
    if n <= u64::MAX && d <= u64::MAX {
        Some(Ratio { num: n as u64, den: d as u64 })
    } else {
        None
    }
}

/// The checked product.
pub open spec fn rat_mul_opt(a: Ratio, b: Ratio) -> Option<Ratio> {
    if a.num * b.num <= u64::MAX && a.den * b.den <= u64::MAX {
        Some(Ratio { num: (a.num * b.num) as u64, den: (a.den * b.den) as u64 })
    } else {
        None
    }
}

/// The checked division by a positive count.
pub open spec fn rat_div_count_opt(a: Ratio, n: u64) -> Option<Ratio> {
    if a.den * n <= u64::MAX {
        Some(Ratio { num: a.num, den: (a.den * n) as u64 })
    } else {
        None
    }
}

proof fn lemma_mul64_bound(a: u64, b: u64)
    ensures
        a * b <= 0xffff_ffff_ffff_ffff * 0xffff_ffff_ffff_ffff,
        a >= 1 && b >= 1 ==> a * b >= 1,
{
    assert(a * b <= 0xffff_ffff_ffff_ffff * 0xffff_ffff_ffff_ffff) by (nonlinear_arith)
        requires
            a <= 0xffff_ffff_ffff_ffff,
            b <= 0xffff_ffff_ffff_ffff,
    ;
    assert(a >= 1 && b >= 1 ==> a * b >= 1) by (nonlinear_arith);
}

impl Ratio {
    /// Builds the rational num/den.
    pub fn new(num: u64, den: u64) -> (r: Ratio)
        requires
            den >= 1,
        ensures
            r == (Ratio { num, den }),
            rat_wf(r),
    {
        Ratio { num, den }
    }

    /// The rational zero.
    pub fn zero() -> (r: Ratio)
        ensures
            r == (Ratio { num: 0u64, den: 1u64 }),
            rat_wf(r),
            forall|b: Ratio| rat_wf(b) ==> rat_le(r, b),
    {
        Ratio { num: 0, den: 1 }
    }

    /// Exact comparison: self <= other as rationals.
    pub fn le(self, other: Ratio) -> (r: bool)
        requires
            rat_wf(self),
            rat_wf(other),
        ensures
            r == rat_le(self, other),
    {
        proof {
            lemma_mul64_bound(self.num, other.den);
            lemma_mul64_bound(other.num, self.den);
        }
        (self.num as u128) * (other.den as u128) <= (other.num as u128) * (self.den as u128)
    }

    /// Exact comparison: self < other as rationals.
    pub fn lt(self, other: Ratio) -> (r: bool)
        requires
            rat_wf(self),
            rat_wf(other),
        ensures
            r == rat_lt(self, other),
    {
        proof {
            lemma_mul64_bound(self.num, other.den);
            lemma_mul64_bound(other.num, self.den);
        }
        (self.num as u128) * (other.den as u128) < (other.num as u128) * (self.den as u128)
    }

    /// Exact equality of values: self == other as rationals.
    pub fn eq_value(self, other: Ratio) -> (r: bool)
        requires
            rat_wf(self),
            rat_wf(other),
        ensures
            r == rat_eq(self, other),
    {
        proof {
            lemma_mul64_bound(self.num, other.den);
            lemma_mul64_bound(other.num, self.den);
        }
        (self.num as u128) * (other.den as u128) == (other.num as u128) * (self.den as u128)
    }

    /// Checked exact addition.
    pub fn add(self, other: Ratio) -> (r: Option<Ratio>)
        requires
            rat_wf(self),
            rat_wf(other),
        ensures
            r == rat_add_opt(self, other),
            r is Some ==> rat_wf(r.unwrap()),
    {
        if self.den % other.den == 0 {
            let q = self.den / other.den;
            proof { lemma_mul64_bound(other.num, q); }
            let n = self.num as u128 + (other.num as u128) * (q as u128);
            if n <= u64::MAX as u128 {
                Some(Ratio { num: n as u64, den: self.den })
            } else {
                None
            }
        } else if other.den % self.den == 0 {
            let q = other.den / self.den;
            proof { lemma_mul64_bound(self.num, q); }
            let n = (self.num as u128) * (q as u128) + other.num as u128;
            if n <= u64::MAX as u128 {
                Some(Ratio { num: n as u64, den: other.den })
            } else {
                None
            }
        } else {
            proof {
                lemma_mul64_bound(self.num, other.den);
                lemma_mul64_bound(other.num, self.den);
                lemma_mul64_bound(self.den, other.den);
            }
            let p1 = (self.num as u128) * (other.den as u128);
            let p2 = (other.num as u128) * (self.den as u128);
            let d = (self.den as u128) * (other.den as u128);
            if p1 <= u64::MAX as u128 && p2 <= u64::MAX as u128 {
                let n = p1 + p2;
                if n <= u64::MAX as u128 && d <= u64::MAX as u128 {
                    Some(Ratio { num: n as u64, den: d as u64 })
                } else {
                    None
                }
            } else {
                None
            }
        }
    }

    /// Checked exact absolute difference.
    pub fn sub_abs(self, other: Ratio) -> (r: Option<Ratio>)
        requires
            rat_wf(self),
            rat_wf(other),
        ensures
            r == rat_sub_abs_opt(self, other),
            r is Some ==> rat_wf(r.unwrap()),
    {
        proof {
            lemma_mul64_bound(self.num, other.den);
            lemma_mul64_bound(other.num, self.den);
            lemma_mul64_bound(self.den, other.den);
        }
        let x = (self.num as u128) * (other.den as u128);
        let y = (other.num as u128) * (self.den as u128);
        let n = if x >= y { x - y } else { y - x };
        let d = (self.den as u128) * (other.den as u128);
        if n <= u64::MAX as u128 && d <= u64::MAX as u128 {
            Some(Ratio { num: n as u64, den: d as u64 })
        } else {
            None
        }
    }

    /// Checked exact multiplication.
    pub fn mul(self, other: Ratio) -> (r: Option<Ratio>)
        requires
            rat_wf(self),
            rat_wf(other),
        ensures
            r == rat_mul_opt(self, other),
            r is Some ==> rat_wf(r.unwrap()),
    {
        proof {
            lemma_mul64_bound(self.num, other.num);
            lemma_mul64_bound(self.den, other.den);
        }
        let n = (self.num as u128) * (other.num as u128);
        let d = (self.den as u128) * (other.den as u128);
        if n <= u64::MAX as u128 && d <= u64::MAX as u128 {
            Some(Ratio { num: n as u64, den: d as u64 })
        } else {
            None
        }
    }

    /// Checked exact division by a positive count.
    pub fn div_count(self, n: u64) -> (r: Option<Ratio>)
        requires
            rat_wf(self),
            n >= 1,
        ensures
            r == rat_div_count_opt(self, n),
            r is Some ==> rat_wf(r.unwrap()),
    {
        proof { lemma_mul64_bound(self.den, n); }
        let d = (self.den as u128) * (n as u128);
        if d <= u64::MAX as u128 {
            Some(Ratio { num: self.num, den: d as u64 })
        } else {
            None
        }
    }
}

/// Law: when checked addition succeeds, the result is the exact rational sum:
/// r == a + b, stated by cross-multiplication against the common denominator.
pub proof fn lemma_add_exact(a: Ratio, b: Ratio)
    requires
        rat_wf(a),
        rat_wf(b),
        rat_add_opt(a, b) is Some,
    ensures
        rat_add_opt(a, b).unwrap().num * (a.den * b.den)
            == (a.num * b.den + b.num * a.den) * rat_add_opt(a, b).unwrap().den,
        rat_wf(rat_add_opt(a, b).unwrap()),
{
    let r = rat_add_opt(a, b).unwrap();
    lemma_mul64_bound(a.den, b.den);
    if a.den % b.den == 0 {
        let q = a.den as int / b.den as int;
        vstd::arithmetic::div_mod::lemma_fundamental_div_mod(a.den as int, b.den as int);
        assert(a.den == b.den * q);
        assert((a.num + b.num * q) * (a.den * b.den) == (a.num * b.den + b.num * (b.den * q))
            * a.den) by (nonlinear_arith);
    } else if b.den % a.den == 0 {
        let q = b.den as int / a.den as int;
        vstd::arithmetic::div_mod::lemma_fundamental_div_mod(b.den as int, a.den as int);
        assert(b.den == a.den * q);
        assert((a.num * q + b.num) * (a.den * b.den) == (a.num * (a.den * q) + b.num * a.den)
            * b.den) by (nonlinear_arith);
    }
}

/// Law: when checked division by a count succeeds, the result is exactly
/// a / n: r.num * (a.den * n) == a.num * r.den.
pub proof fn lemma_div_count_exact(a: Ratio, n: u64)
    requires
        rat_wf(a),
        n >= 1,
        rat_div_count_opt(a, n) is Some,
    ensures
        rat_div_count_opt(a, n).unwrap().num * (a.den * n)
            == a.num * rat_div_count_opt(a, n).unwrap().den,
{
}

} // verus!
