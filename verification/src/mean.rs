//! The mean of some times, kept as a fraction so that two of them can be told
//! apart without rounding.
use vstd::prelude::*;

verus! {

/// A number as a sum and how many terms that has.
#[verifier::ext_equal]
pub struct Fraction {
    pub sum: int,
    pub count: int,
}

/// The mean of some times: a whole number, and a part of one more.
#[derive(Debug, Clone, Copy)]
pub struct Mean {
    whole: i64,
    rest: u64,
    count: u64,
}

impl View for Mean {
    type V = Fraction;

    closed spec fn view(&self) -> Fraction {
        Fraction { sum: self.whole * self.count + self.rest, count: self.count as int }
    }
}

/// How far a mean is from a time, taken as often as the mean has terms.
pub open spec fn apart_by(m: Fraction, t: int) -> int {
    let d = m.sum - m.count * t;
    if d < 0 {
        -d
    } else {
        d
    }
}

/// Whether a mean is nearer to a time than another.
pub open spec fn closer(a: Fraction, b: Fraction, t: int) -> bool {
    apart_by(a, t) * b.count < apart_by(b, t) * a.count
}

/// Whether two means are equally far from a time.
pub open spec fn level(a: Fraction, b: Fraction, t: int) -> bool {
    apart_by(a, t) * b.count == apart_by(b, t) * a.count
}

/// Of two distances with different whole parts the whole parts decide.
proof fn whole_decides(d: int, f: int, n: int, e: int, g: int, m: int)
    by (nonlinear_arith)
    requires
        0 <= f < n,
        0 <= g < m,
        d < e,
    ensures
        (d * n + f) * m < (e * m + g) * n,
{
    assert((d * n + f) * m < (d * n + n) * m);
    assert((d * n + n) * m == (d + 1) * n * m);
    assert((d + 1) * (n * m) <= e * (n * m));
    assert((e * m + g) * n >= e * m * n);
}

impl Mean {
    /// There are terms, and the part is less than one.
    #[verifier::type_invariant]
    spec fn wf(self) -> bool {
        self.rest < self.count
    }

    /// The mean of some times, given their sum and how many there are.
    pub fn new(sum: i128, count: u64) -> (r: Mean)
        requires
            count > 0,
            count * i64::MIN <= sum <= count * i64::MAX,
        ensures
            r@ == (Fraction { sum: sum as int, count: count as int }),
    {
        let n: i128 = count as i128;
        proof {
            let (s, c) = (sum as int, count as int);
            assert(c * i64::MIN > i128::MIN && c * i64::MAX < i128::MAX) by (nonlinear_arith)
                requires
                    0 < c <= u64::MAX,
            ;
            vstd::arithmetic::div_mod::lemma_fundamental_div_mod(s, c);
            assert(i64::MIN <= s / c <= i64::MAX) by (nonlinear_arith)
                requires
                    c > 0,
                    c * i64::MIN <= s <= c * i64::MAX,
            ;
            assert(s - s % c == (s / c) * c) by (nonlinear_arith)
                requires
                    s == c * (s / c) + s % c,
            ;
            assert((s / c) * c >= i128::MIN) by (nonlinear_arith)
                requires
                    s / c >= i64::MIN,
                    0 < c <= u64::MAX,
            ;
        }
        let whole: i128 = crate::windows::floor_div(sum, n);
        let rest: i128 = sum - whole * n;
        Mean { whole: whole as i64, rest: rest as u64, count }
    }

    /// The distance to a time: its whole part, and what is left over.
    fn parts(&self, t: i64) -> (r: (i128, u64))
        ensures
            0 <= r.0 <= u64::MAX,
            r.1 < self@.count,
            apart_by(self@, t as int) == r.0 * self@.count + r.1,
            0 < self@.count <= u64::MAX,
    {
        proof {
            use_type_invariant(self);
        }
        let d: i128 = self.whole as i128 - t as i128;
        proof {
            let (w, n, x) = (self.whole as int, self.count as int, t as int);
            assert(w * n + self.rest - n * x == (w - x) * n + self.rest) by (nonlinear_arith);
            assert(d * n >= 0 || d < 0) by (nonlinear_arith)
                requires
                    n > 0,
            ;
            assert(d >= 0 || d * n <= -n) by (nonlinear_arith)
                requires
                    n > 0,
            ;
            assert((-d) * n == -(d * n) && (-d - 1) * n == -(d * n) - n) by (nonlinear_arith);
        }
        if d >= 0 {
            (d, self.rest)
        } else if self.rest == 0 {
            (-d, 0)
        } else {
            (-d - 1, self.count - self.rest)
        }
    }

    /// Which of two means is nearer to a time: below zero this one, above
    /// zero the other, zero where they are equally far.
    pub fn compare_to(&self, other: &Mean, t: i64) -> (r: i8)
        ensures
            r < 0 <==> closer(self@, other@, t as int),
            r == 0 <==> level(self@, other@, t as int),
            r > 0 <==> closer(other@, self@, t as int),
    {
        let a: (i128, u64) = self.parts(t);
        let b: (i128, u64) = other.parts(t);
        let n: u64 = self.terms();
        let m: u64 = other.terms();
        proof {
            if a.0 < b.0 {
                whole_decides(a.0 as int, a.1 as int, n as int, b.0 as int, b.1 as int, m as int);
            }
            if b.0 < a.0 {
                whole_decides(b.0 as int, b.1 as int, m as int, a.0 as int, a.1 as int, n as int);
            }
            let (d, f, g, x, y) = (a.0 as int, a.1 as int, b.1 as int, n as int, m as int);
            assert((d * x + f) * y - (d * y + g) * x == f * y - g * x) by (nonlinear_arith);
            assert(f * y <= u128::MAX && g * x <= u128::MAX) by (nonlinear_arith)
                requires
                    0 <= f <= u64::MAX,
                    0 <= g <= u64::MAX,
                    0 <= x <= u64::MAX,
                    0 <= y <= u64::MAX,
            ;
        }
        if a.0 < b.0 {
            return -1;
        }
        if b.0 < a.0 {
            return 1;
        }
        let p: u128 = a.1 as u128 * m as u128;
        let q: u128 = b.1 as u128 * n as u128;
        if p < q {
            -1
        } else if p == q {
            0
        } else {
            1
        }
    }

    /// How many terms the mean has.
    pub fn terms(&self) -> (r: u64)
        ensures
            r == self@.count,
            r > 0,
    {
        proof {
            use_type_invariant(self);
        }
        self.count
    }

    /// The sum of the terms.
    pub fn sum(&self) -> (r: i128)
        ensures
            r == self@.sum,
    {
        proof {
            use_type_invariant(self);
            let (w, n) = (self.whole as int, self.count as int);
            assert(i128::MIN <= w * n <= i128::MAX - u64::MAX) by (nonlinear_arith)
                requires
                    i64::MIN <= w <= i64::MAX,
                    0 < n <= u64::MAX,
            ;
        }
        self.whole as i128 * self.count as i128 + self.rest as i128
    }
}

} // verus!
