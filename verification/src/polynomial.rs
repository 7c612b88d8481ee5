//! Polynomials with exact rational coefficients.
//!
//! A polynomial holds integer numerators, lowest degree first, over one
//! positive denominator shared by all of them. Nothing is rounded: an
//! operation whose exact result does not fit the 32-bit numerators and
//! denominator returns `None`.

use vstd::prelude::*;
use crate::bounds::lemma_product_within;

verus! {

/// The reciprocal of the magnitude below which a coefficient counts as
/// zero: a coefficient `c` is significant when `|c| > 1 / SIGNIFICANCE`.
pub const SIGNIFICANCE: i64 = 10000000000;

/// What a polynomial is: numerators, lowest degree first, over a common
/// denominator. The coefficient of degree `i` is `numerators[i] /
/// denominator`.
pub struct Fractions {
    pub numerators: Seq<int>,
    pub denominator: int,
}

/// The numerator of degree `i`; zero beyond either end.
pub open spec fn numerator_at(numerators: Seq<int>, i: int) -> int {
    if 0 <= i < numerators.len() {
        numerators[i]
    } else {
        0
    }
}

/// `|numerator / denominator| > 1 / SIGNIFICANCE`, for a positive
/// denominator.
pub open spec fn is_significant(numerator: int, denominator: int) -> bool {
    numerator * SIGNIFICANCE > denominator || -numerator * SIGNIFICANCE > denominator
}

/// The numerators and the denominator fit the machine representation.
pub open spec fn fits(p: Fractions) -> bool {
    &&& 1 <= p.denominator <= i32::MAX
    &&& forall|i: int|
        0 <= i < p.numerators.len() ==> i32::MIN <= #[trigger] p.numerators[i] <= i32::MAX
}

/// The larger of two lengths.
pub open spec fn longer(a: nat, b: nat) -> nat {
    if a >= b {
        a
    } else {
        b
    }
}

/// The sum: the shorter operand is padded with zeros, and both are brought
/// over the product of the denominators.
pub open spec fn sum_of(a: Fractions, b: Fractions) -> Fractions {
    Fractions {
        numerators: Seq::new(
            longer(a.numerators.len(), b.numerators.len()),
            |i: int|
                numerator_at(a.numerators, i) * b.denominator + numerator_at(b.numerators, i)
                    * a.denominator,
        ),
        denominator: a.denominator * b.denominator,
    }
}

/// The sum of `a[i] * b[k - i]` over the first `upto` indices `i` of `a`.
pub open spec fn convolution_sum(a: Seq<int>, b: Seq<int>, k: int, upto: nat) -> int
    decreases upto,
{
    if upto == 0 {
        0
    } else {
        convolution_sum(a, b, k, (upto - 1) as nat) + a[upto - 1] * numerator_at(
            b,
            k - (upto - 1),
        )
    }
}

/// The product: the discrete convolution of the numerators, over the
/// product of the denominators. Its length is the sum of the lengths less
/// one.
pub open spec fn product_of(a: Fractions, b: Fractions) -> Fractions {
    Fractions {
        numerators: Seq::new(
            (a.numerators.len() + b.numerators.len() - 1) as nat,
            |k: int| convolution_sum(a.numerators, b.numerators, k, a.numerators.len()),
        ),
        denominator: a.denominator * b.denominator,
    }
}

/// Every coefficient divided by the last one, where that one is
/// significant; the polynomial itself otherwise.
pub open spec fn normalized(p: Fractions) -> Fractions {
    if p.numerators.len() > 0 && is_significant(p.numerators.last(), p.denominator) {
        let leading = p.numerators.last();
        Fractions {
            numerators: Seq::new(
                p.numerators.len(),
                |i: int| if leading < 0 { -p.numerators[i] } else { p.numerators[i] },
            ),
            denominator: if leading < 0 { -leading } else { leading },
        }
    } else {
        p
    }
}

/// The sum of the squares of the first `upto` numerators of the
/// difference of `a` and `b`, taken over the product of the denominators.
pub open spec fn squared_difference_sum(a: Fractions, b: Fractions, upto: nat) -> int
    decreases upto,
{
    if upto == 0 {
        0
    } else {
        let d = numerator_at(a.numerators, upto - 1) * b.denominator - numerator_at(
            b.numerators,
            upto - 1,
        ) * a.denominator;
        squared_difference_sum(a, b, (upto - 1) as nat) + d * d
    }
}

/// The numerator of the squared distance of `a` and `b`; its denominator
/// is the square of the product of the two denominators.
pub open spec fn squared_distance_numerator(a: Fractions, b: Fractions) -> int {
    squared_difference_sum(a, b, longer(a.numerators.len(), b.numerators.len()))
}

/// The numerator of the value of the polynomial at the integer `x`:
/// the sum of `numerators[i] * x^i`. The value itself is this numerator
/// over the denominator of the polynomial.
pub open spec fn value_at(numerators: Seq<int>, x: int) -> int
    decreases numerators.len(),
{
    if numerators.len() == 0 {
        0
    } else {
        numerators[0] + x * value_at(numerators.drop_first(), x)
    }
}

/// The value at `x` of every tail of the coefficients fits 64 bits.
pub open spec fn values_fit(numerators: Seq<int>, x: int) -> bool {
    forall|i: int|
        0 <= i <= numerators.len() ==> i64::MIN <= #[trigger] value_at(
            numerators.skip(i),
            x,
        ) <= i64::MAX
}

/// The weighted blend `(wa * a + wb * b) / scale` of two polynomials,
/// coefficient by coefficient, the shorter padded with zeros.
pub open spec fn blend_of(a: Fractions, b: Fractions, wa: int, wb: int, scale: int) -> Fractions {
    Fractions {
        numerators: Seq::new(
            longer(a.numerators.len(), b.numerators.len()),
            |i: int|
                wa * numerator_at(a.numerators, i) * b.denominator + wb * numerator_at(
                    b.numerators,
                    i,
                ) * a.denominator,
        ),
        denominator: scale * a.denominator * b.denominator,
    }
}

/// `d` is the degree of `p`: the highest index of a significant
/// coefficient, or zero where there is none.
pub open spec fn is_degree_of(p: Fractions, d: int) -> bool {
    &&& forall|i: int|
        d < i < p.numerators.len() ==> !is_significant(#[trigger] p.numerators[i], p.denominator)
    &&& (0 <= d < p.numerators.len() && is_significant(p.numerators[d], p.denominator)) || (d
        == 0 && forall|i: int|
        0 <= i < p.numerators.len() ==> !is_significant(#[trigger] p.numerators[i], p.denominator))
}

/// A polynomial with exact rational coefficients.
#[derive(Debug)]
pub struct Polynomial {
    numerators: Vec<i32>,
    denominator: i32,
}

impl View for Polynomial {
    type V = Fractions;

    closed spec fn view(&self) -> Fractions {
        Fractions {
            numerators: Seq::new(self.numerators@.len(), |i: int| self.numerators@[i] as int),
            denominator: self.denominator as int,
        }
    }
}

impl Polynomial {
    /// The denominator is positive.
    pub open spec fn wf(&self) -> bool {
        fits(self@)
    }

    /// The polynomial with the given integer coefficients, lowest degree
    /// first.
    pub fn new(coefficients: Vec<i32>) -> (p: Polynomial)
        ensures
            p.wf(),
            p@.denominator == 1,
            p@.numerators.len() == coefficients@.len(),
            forall|i: int|
                0 <= i < coefficients@.len() ==> #[trigger] p@.numerators[i] == coefficients@[i],
    {
        Polynomial { numerators: coefficients, denominator: 1 }
    }

    /// The polynomial whose coefficients are `numerators`, lowest degree
    /// first, each divided by `denominator`; `None` where the denominator
    /// is not positive.
    pub fn with_denominator(numerators: Vec<i32>, denominator: i32) -> (result: Option<
        Polynomial,
    >)
        ensures
            result.is_some() <==> denominator >= 1,
            result matches Some(p) ==> {
                &&& p.wf()
                &&& p@.denominator == denominator
                &&& p@.numerators.len() == numerators@.len()
                &&& forall|i: int|
                    0 <= i < numerators@.len() ==> #[trigger] p@.numerators[i] == numerators@[i]
            },
    {
        if denominator >= 1 {
            Some(Polynomial { numerators, denominator })
        } else {
            None
        }
    }

    /// The number of coefficients held, trailing zeros included.
    pub fn len(&self) -> (n: usize)
        ensures
            n == self@.numerators.len(),
    {
        self.numerators.len()
    }

    /// The common denominator of the coefficients.
    pub fn denominator(&self) -> (d: i32)
        ensures
            d == self@.denominator,
    {
        self.denominator
    }

    /// The numerator of the coefficient of degree `degree`; zero beyond
    /// the coefficients held.
    pub fn coefficient(&self, degree: usize) -> (n: i32)
        ensures
            n == numerator_at(self@.numerators, degree as int),
    {
        if degree >= self.numerators.len() {
            0
        } else {
            self.numerators[degree]
        }
    }

    /// The degree: the highest index whose coefficient exceeds
    /// `1 / SIGNIFICANCE` in magnitude, or zero where none does.
    pub fn degree(&self) -> (d: usize)
        requires
            self.wf(),
        ensures
            is_degree_of(self@, d as int),
    {
        let mut i: usize = self.numerators.len();
        while i > 0
            invariant
                i <= self.numerators@.len(),
                self.wf(),
                forall|j: int|
                    i <= j < self@.numerators.len() ==> !is_significant(
                        #[trigger] self@.numerators[j],
                        self@.denominator,
                    ),
            decreases i,
        {
            i -= 1;
            if exceeds_threshold(self.numerators[i], self.denominator) {
                return i;
            }
        }
        0
    }

    /// The sum of two polynomials, or `None` where it does not fit.
    pub fn add(&self, other: &Polynomial) -> (result: Option<Polynomial>)
        requires
            self.wf(),
            other.wf(),
        ensures
            result.is_some() <==> fits(sum_of(self@, other@)),
            result matches Some(p) ==> p@ == sum_of(self@, other@),
    {
        let ghost goal = sum_of(self@, other@);
        let da: i64 = self.denominator as i64;
        let db: i64 = other.denominator as i64;
        proof {
            lemma_product_within(da as int, db as int, 2147483648, 2147483648);
        }
        let den: i64 = da * db;
        if den > 2147483647 {
            return None;
        }
        assert(den >= 1) by (nonlinear_arith)
            requires
                den == da * db,
                da >= 1,
                db >= 1,
        ;
        let la = self.numerators.len();
        let lb = other.numerators.len();
        let len = if la >= lb { la } else { lb };
        let mut numerators: Vec<i32> = Vec::new();
        let mut i: usize = 0;
        while i < len
            invariant
                i <= len,
                len == goal.numerators.len(),
                la == self@.numerators.len(),
                lb == other@.numerators.len(),
                self.wf(),
                other.wf(),
                da == self@.denominator,
                db == other@.denominator,
                goal == sum_of(self@, other@),
                numerators@.len() == i,
                forall|j: int| 0 <= j < i ==> #[trigger] numerators@[j] as int == goal.numerators[j],
            decreases len - i,
        {
            let a: i64 = if i < la { self.numerators[i] as i64 } else { 0 };
            let b: i64 = if i < lb { other.numerators[i] as i64 } else { 0 };
            proof {
                assert(a == numerator_at(self@.numerators, i as int));
                assert(b == numerator_at(other@.numerators, i as int));
                lemma_product_within(a as int, db as int, 2147483648, 2147483648);
                lemma_product_within(b as int, da as int, 2147483648, 2147483648);
            }
            let v: i128 = (a * db) as i128 + (b * da) as i128;
            assert(v == goal.numerators[i as int]);
            if v > 2147483647 || v < -2147483648 {
                return None;
            }
            numerators.push(v as i32);
            i += 1;
        }
        let p = Polynomial { numerators, denominator: den as i32 };
        assert(p@.numerators =~= goal.numerators);
        Some(p)
    }

    /// The product of two polynomials, or `None` where it does not fit.
    /// One of the two at least holds a coefficient, and the length of the
    /// product is one that a vector can have.
    pub fn multiply(&self, other: &Polynomial) -> (result: Option<Polynomial>)
        requires
            self.wf(),
            other.wf(),
            1 <= self@.numerators.len() + other@.numerators.len() <= usize::MAX,
        ensures
            result.is_some() <==> fits(product_of(self@, other@)),
            result matches Some(p) ==> p@ == product_of(self@, other@),
    {
        let ghost goal = product_of(self@, other@);
        let da: i64 = self.denominator as i64;
        let db: i64 = other.denominator as i64;
        proof {
            lemma_product_within(da as int, db as int, 2147483648, 2147483648);
        }
        let den: i64 = da * db;
        if den > 2147483647 {
            return None;
        }
        assert(den >= 1) by (nonlinear_arith)
            requires
                den == da * db,
                da >= 1,
                db >= 1,
        ;
        let la = self.numerators.len();
        let lb = other.numerators.len();
        let len = la + lb - 1;
        let mut numerators: Vec<i32> = Vec::new();
        let mut k: usize = 0;
        while k < len
            invariant
                k <= len,
                len == goal.numerators.len(),
                len == la + lb - 1,
                la == self@.numerators.len(),
                lb == other@.numerators.len(),
                self.wf(),
                other.wf(),
                goal == product_of(self@, other@),
                numerators@.len() == k,
                forall|j: int| 0 <= j < k ==> #[trigger] numerators@[j] as int == goal.numerators[j],
            decreases len - k,
        {
            let mut acc: i128 = 0;
            let mut i: usize = 0;
            while i < la
                invariant
                    i <= la,
                    k < len,
                    len == la + lb - 1,
                    la == self@.numerators.len(),
                    lb == other@.numerators.len(),
                    self.wf(),
                    other.wf(),
                    acc == convolution_sum(self@.numerators, other@.numerators, k as int, i as nat),
                    -(i as int) * 4611686018427387904 <= acc <= (i as int) * 4611686018427387904,
                decreases la - i,
            {
                let a: i128 = self.numerators[i] as i128;
                let b: i128 = if i <= k && k - i < lb {
                    other.numerators[k - i] as i128
                } else {
                    0
                };
                proof {
                    assert(a == self@.numerators[i as int]);
                    assert(b == numerator_at(other@.numerators, k - i));
                    lemma_product_within(a as int, b as int, 2147483648, 2147483648);
                    assert((i as int + 1) * 4611686018427387904 == (i as int)
                        * 4611686018427387904 + 4611686018427387904) by (nonlinear_arith);
                    assert((i as int + 1) * 4611686018427387904 <= 18446744073709551616
                        * 4611686018427387904) by (nonlinear_arith)
                        requires
                            i as int + 1 <= 18446744073709551616,
                    ;
                }
                acc = acc + a * b;
                i += 1;
            }
            assert(acc == goal.numerators[k as int]);
            if acc > 2147483647 || acc < -2147483648 {
                return None;
            }
            numerators.push(acc as i32);
            k += 1;
        }
        let p = Polynomial { numerators, denominator: den as i32 };
        assert(p@.numerators =~= goal.numerators);
        Some(p)
    }

    /// The numerator of the value at the integer `x`, or `None` where the
    /// value of a tail of the coefficients does not fit 64 bits.
    pub fn evaluate(&self, x: i32) -> (result: Option<i64>)
        requires
            self.wf(),
        ensures
            result.is_some() <==> values_fit(self@.numerators, x as int),
            result matches Some(v) ==> v == value_at(self@.numerators, x as int),
    {
        let len = self.numerators.len();
        let ghost all = self@.numerators;
        let mut acc: i64 = 0;
        let mut i: usize = len;
        assert(all.skip(len as int) =~= Seq::<int>::empty());
        while i > 0
            invariant
                i <= len,
                len == all.len(),
                all == self@.numerators,
                self.wf(),
                acc == value_at(all.skip(i as int), x as int),
                forall|j: int|
                    i <= j <= len ==> i64::MIN <= #[trigger] value_at(all.skip(j), x as int)
                        <= i64::MAX,
            decreases i,
        {
            i -= 1;
            let n: i128 = self.numerators[i] as i128;
            proof {
                assert(all.skip(i as int).drop_first() =~= all.skip(i + 1));
                assert(all.skip(i as int)[0] == all[i as int]);
                assert(n == all[i as int]);
                lemma_product_within(x as int, acc as int, 2147483648, 9223372036854775808);
            }
            let next: i128 = n + (x as i128) * (acc as i128);
            assert(next == value_at(all.skip(i as int), x as int));
            if next > 9223372036854775807 || next < -9223372036854775808 {
                return None;
            }
            acc = next as i64;
        }
        assert(all.skip(0) =~= all);
        Some(acc)
    }

    /// The blend `(wa * self + wb * other) / scale`, or `None` where it
    /// does not fit.
    pub fn blend(&self, other: &Polynomial, wa: i32, wb: i32, scale: i32) -> (result: Option<
        Polynomial,
    >)
        requires
            self.wf(),
            other.wf(),
            scale >= 1,
        ensures
            result.is_some() <==> fits(
                blend_of(self@, other@, wa as int, wb as int, scale as int),
            ),
            result matches Some(p) ==> p@ == blend_of(
                self@,
                other@,
                wa as int,
                wb as int,
                scale as int,
            ),
    {
        let ghost goal = blend_of(self@, other@, wa as int, wb as int, scale as int);
        let da: i128 = self.denominator as i128;
        let db: i128 = other.denominator as i128;
        proof {
            lemma_product_within(da as int, db as int, 2147483648, 2147483648);
            lemma_product_within(scale as int, da * db, 2147483648, 9223372036854775808);
            assert(da * db >= 1) by (nonlinear_arith)
                requires
                    da >= 1,
                    db >= 1,
            ;
            assert(scale * (da * db) >= 1) by (nonlinear_arith)
                requires
                    scale >= 1,
                    da * db >= 1,
            ;
            assert(scale * da * db == scale * (da * db)) by (nonlinear_arith);
        }
        let den: i128 = (scale as i128) * (da * db);
        if den > 2147483647 {
            return None;
        }
        let la = self.numerators.len();
        let lb = other.numerators.len();
        let len = if la >= lb { la } else { lb };
        let mut numerators: Vec<i32> = Vec::new();
        let mut i: usize = 0;
        while i < len
            invariant
                i <= len,
                len == goal.numerators.len(),
                la == self@.numerators.len(),
                lb == other@.numerators.len(),
                self.wf(),
                other.wf(),
                da == self@.denominator,
                db == other@.denominator,
                goal == blend_of(self@, other@, wa as int, wb as int, scale as int),
                1 <= goal.denominator <= i32::MAX,
                numerators@.len() == i,
                forall|j: int| 0 <= j < i ==> #[trigger] numerators@[j] as int == goal.numerators[j],
            decreases len - i,
        {
            let a: i128 = if i < la { self.numerators[i] as i128 } else { 0 };
            let b: i128 = if i < lb { other.numerators[i] as i128 } else { 0 };
            proof {
                assert(a == numerator_at(self@.numerators, i as int));
                assert(b == numerator_at(other@.numerators, i as int));
                lemma_product_within(wa as int, a as int, 2147483648, 2147483648);
                lemma_product_within(wb as int, b as int, 2147483648, 2147483648);
                lemma_product_within(db as int, wa * a, 2147483648, 9223372036854775808);
                lemma_product_within(da as int, wb * b, 2147483648, 9223372036854775808);
                assert(wa * a * db == db * (wa * a)) by (nonlinear_arith);
                assert(wb * b * da == da * (wb * b)) by (nonlinear_arith);
            }
            let v: i128 = db * ((wa as i128) * a) + da * ((wb as i128) * b);
            assert(v == goal.numerators[i as int]);
            if v > 2147483647 || v < -2147483648 {
                return None;
            }
            numerators.push(v as i32);
            i += 1;
        }
        let p = Polynomial { numerators, denominator: den as i32 };
        assert(p@.numerators =~= goal.numerators);
        Some(p)
    }

    /// The polynomial scaled so that its last coefficient is one, where
    /// that coefficient is significant; a copy of the polynomial
    /// otherwise. `None` where the result does not fit.
    pub fn normalize(&self) -> (result: Option<Polynomial>)
        requires
            self.wf(),
        ensures
            result.is_some() <==> fits(normalized(self@)),
            result matches Some(p) ==> p@ == normalized(self@),
    {
        let len = self.numerators.len();
        if len == 0 || !exceeds_threshold(self.numerators[len - 1], self.denominator) {
            return Some(self.clone());
        }
        let ghost goal = normalized(self@);
        let leading: i32 = self.numerators[len - 1];
        assert(leading == self@.numerators.last());
        assert(leading != 0);
        if leading == -2147483648 {
            return None;
        }
        let den: i32 = if leading < 0 { -leading } else { leading };
        let mut numerators: Vec<i32> = Vec::new();
        let mut i: usize = 0;
        while i < len
            invariant
                i <= len,
                len == self@.numerators.len(),
                len == goal.numerators.len(),
                goal == normalized(self@),
                leading == self@.numerators.last(),
                is_significant(self@.numerators.last(), self@.denominator),
                numerators@.len() == i,
                forall|j: int| 0 <= j < i ==> #[trigger] numerators@[j] as int == goal.numerators[j],
            decreases len - i,
        {
            let n: i32 = self.numerators[i];
            assert(n == self@.numerators[i as int]);
            if leading < 0 && n == -2147483648 {
                assert(goal.numerators[i as int] == 2147483648);
                return None;
            }
            numerators.push(if leading < 0 { -n } else { n });
            i += 1;
        }
        let p = Polynomial { numerators, denominator: den };
        assert(p@.numerators =~= goal.numerators);
        Some(p)
    }

    /// The square of the distance of two polynomials, as a fraction: the
    /// sum of the squared differences of their coefficients, the shorter
    /// padded with zeros. `None` where the numerator does not fit.
    pub fn distance_squared(&self, other: &Polynomial) -> (result: Option<(u128, u128)>)
        requires
            self.wf(),
            other.wf(),
        ensures
            result.is_some() <==> squared_distance_numerator(self@, other@) <= u128::MAX,
            result matches Some((n, d)) ==> {
                &&& n == squared_distance_numerator(self@, other@)
                &&& d == (self@.denominator * other@.denominator) * (self@.denominator
                    * other@.denominator)
            },
    {
        let da: i128 = self.denominator as i128;
        let db: i128 = other.denominator as i128;
        proof {
            lemma_product_within(da as int, db as int, 2147483648, 2147483648);
            lemma_square_bound(da * db);
        }
        let scale: i128 = da * db;
        let den: u128 = (scale * scale) as u128;
        let la = self.numerators.len();
        let lb = other.numerators.len();
        let len = if la >= lb { la } else { lb };
        let mut acc: u128 = 0;
        let mut i: usize = 0;
        while i < len
            invariant
                i <= len,
                len == longer(self@.numerators.len(), other@.numerators.len()),
                la == self@.numerators.len(),
                lb == other@.numerators.len(),
                self.wf(),
                other.wf(),
                da == self@.denominator,
                db == other@.denominator,
                acc == squared_difference_sum(self@, other@, i as nat),
            decreases len - i,
        {
            let a: i128 = if i < la { self.numerators[i] as i128 } else { 0 };
            let b: i128 = if i < lb { other.numerators[i] as i128 } else { 0 };
            proof {
                assert(a == numerator_at(self@.numerators, i as int));
                assert(b == numerator_at(other@.numerators, i as int));
                lemma_product_within(a as int, db as int, 2147483648, 2147483648);
                lemma_product_within(b as int, da as int, 2147483648, 2147483648);
                lemma_square_bound(a * db - b * da);
            }
            let diff: i128 = a * db - b * da;
            let term: u128 = (diff * diff) as u128;
            if term > u128::MAX - acc {
                proof {
                    lemma_squared_difference_sum_grows(self@, other@, (i + 1) as nat, len as nat);
                }
                return None;
            }
            acc = acc + term;
            i += 1;
        }
        Some((acc, den))
    }
}

impl Clone for Polynomial {
    fn clone(&self) -> (copy: Polynomial)
        ensures
            copy@ == self@,
    {
        let mut numerators: Vec<i32> = Vec::new();
        let mut k: usize = 0;
        while k < self.numerators.len()
            invariant
                k <= self.numerators@.len(),
                numerators@ == self.numerators@.take(k as int),
            decreases self.numerators@.len() - k,
        {
            numerators.push(self.numerators[k]);
            assert(numerators@ =~= self.numerators@.take(k + 1));
            k += 1;
        }
        assert(self.numerators@.take(k as int) =~= self.numerators@);
        Polynomial { numerators, denominator: self.denominator }
    }
}

proof fn lemma_square_bound(x: int)
    requires
        -9223372036854775808 <= x <= 9223372036854775808,
    ensures
        0 <= x * x <= 85070591730234615865843651857942052864,
{
    assert(x * x >= 0) by (nonlinear_arith);
    lemma_product_within(x, x, 9223372036854775808, 9223372036854775808);
}

/// The partial sums of squared differences never shrink.
proof fn lemma_squared_difference_sum_grows(a: Fractions, b: Fractions, low: nat, high: nat)
    requires
        low <= high,
    ensures
        squared_difference_sum(a, b, low) <= squared_difference_sum(a, b, high),
    decreases high,
{
    if low < high {
        lemma_squared_difference_sum_grows(a, b, low, (high - 1) as nat);
        let d = numerator_at(a.numerators, high - 1) * b.denominator - numerator_at(
            b.numerators,
            high - 1,
        ) * a.denominator;
        assert(d * d >= 0) by (nonlinear_arith);
    }
}

/// A polynomial is at distance zero from itself.
pub proof fn lemma_distance_to_self(p: Fractions)
    ensures
        squared_distance_numerator(p, p) == 0,
{
    lemma_difference_to_self(p, p.numerators.len());
}

proof fn lemma_difference_to_self(p: Fractions, upto: nat)
    ensures
        squared_difference_sum(p, p, upto) == 0,
    decreases upto,
{
    if upto > 0 {
        lemma_difference_to_self(p, (upto - 1) as nat);
    }
}

/// Addition is commutative.
pub proof fn lemma_add_commutes(a: Fractions, b: Fractions)
    ensures
        sum_of(a, b) == sum_of(b, a),
{
    assert(a.denominator * b.denominator == b.denominator * a.denominator) by (nonlinear_arith);
    assert(sum_of(a, b).numerators =~= sum_of(b, a).numerators);
}

/// The distance does not depend on the order of the two polynomials.
pub proof fn lemma_distance_symmetric(a: Fractions, b: Fractions)
    ensures
        squared_distance_numerator(a, b) == squared_distance_numerator(b, a),
{
    lemma_difference_symmetric(a, b, longer(a.numerators.len(), b.numerators.len()));
}

proof fn lemma_difference_symmetric(a: Fractions, b: Fractions, upto: nat)
    ensures
        squared_difference_sum(a, b, upto) == squared_difference_sum(b, a, upto),
    decreases upto,
{
    if upto > 0 {
        lemma_difference_symmetric(a, b, (upto - 1) as nat);
        let x = numerator_at(a.numerators, upto - 1) * b.denominator;
        let y = numerator_at(b.numerators, upto - 1) * a.denominator;
        assert((x - y) * (x - y) == (y - x) * (y - x)) by (nonlinear_arith);
    }
}

/// Terms whose partner lies beyond the end of `b` add nothing to a
/// coefficient of the product.
proof fn lemma_convolution_top(a: Seq<int>, b: Seq<int>, upto: nat)
    requires
        a.len() >= 1,
        b.len() >= 1,
        upto < a.len(),
    ensures
        convolution_sum(a, b, a.len() + b.len() - 2, upto) == 0,
    decreases upto,
{
    if upto > 0 {
        lemma_convolution_top(a, b, (upto - 1) as nat);
        assert(numerator_at(b, a.len() + b.len() - 2 - (upto - 1)) == 0);
        assert(a[upto - 1] * 0 == 0);
    }
}

/// The leading coefficient of a product is the product of the leading
/// coefficients.
pub proof fn lemma_product_leading(a: Fractions, b: Fractions)
    requires
        a.numerators.len() >= 1,
        b.numerators.len() >= 1,
    ensures
        product_of(a, b).numerators.len() == a.numerators.len() + b.numerators.len() - 1,
        product_of(a, b).numerators.last() == a.numerators.last() * b.numerators.last(),
{
    let la = a.numerators.len();
    let lb = b.numerators.len();
    lemma_convolution_top(a.numerators, b.numerators, (la - 1) as nat);
    assert(numerator_at(b.numerators, la + lb - 2 - (la - 1)) == b.numerators.last());
}

/// Where the leading coefficients of two polynomials are not zero, the
/// degree of their product is the sum of their degrees.
pub proof fn lemma_product_degree(a: Fractions, b: Fractions)
    requires
        fits(a),
        fits(b),
        fits(product_of(a, b)),
        a.numerators.len() >= 1,
        b.numerators.len() >= 1,
        a.numerators.last() != 0,
        b.numerators.last() != 0,
    ensures
        is_degree_of(a, a.numerators.len() - 1),
        is_degree_of(b, b.numerators.len() - 1),
        is_degree_of(product_of(a, b), (a.numerators.len() - 1) + (b.numerators.len() - 1)),
{
    lemma_product_leading(a, b);
    let x = a.numerators.last();
    let y = b.numerators.last();
    assert(x * y != 0) by (nonlinear_arith)
        requires
            x != 0,
            y != 0,
    ;
    lemma_nonzero_is_significant(x, a.denominator);
    lemma_nonzero_is_significant(y, b.denominator);
    lemma_nonzero_is_significant(x * y, product_of(a, b).denominator);
}

/// A polynomial normalized by a significant last coefficient has the
/// last coefficient one, and each of its coefficients is that of the
/// polynomial divided by its last one.
pub proof fn lemma_normalized_leading(p: Fractions)
    requires
        p.denominator >= 1,
        p.numerators.len() > 0,
        is_significant(p.numerators.last(), p.denominator),
    ensures
        normalized(p).numerators.len() == p.numerators.len(),
        normalized(p).denominator >= 1,
        normalized(p).numerators.last() == normalized(p).denominator,
        forall|i: int|
            0 <= i < p.numerators.len() ==> #[trigger] normalized(p).numerators[i]
                * p.numerators.last() == p.numerators[i] * normalized(p).denominator,
{
    let leading = p.numerators.last();
    let q = normalized(p);
    assert forall|i: int| 0 <= i < p.numerators.len() implies #[trigger] q.numerators[i] * leading
        == p.numerators[i] * q.denominator by {
        let x = p.numerators[i];
        if leading < 0 {
            assert((-x) * leading == x * (-leading)) by (nonlinear_arith);
        }
    }
}

/// `s` without its first element; `s` itself where it is empty.
pub open spec fn tail_of(s: Seq<int>) -> Seq<int> {
    if s.len() > 0 {
        s.drop_first()
    } else {
        s
    }
}

/// The value of a sum is the sum of the values: over the product of the
/// denominators, the numerator of the value of `a + b` at `x` is that of
/// `a` times the denominator of `b` plus that of `b` times the
/// denominator of `a`.
pub proof fn lemma_sum_value(a: Fractions, b: Fractions, x: int)
    ensures
        value_at(sum_of(a, b).numerators, x) == value_at(a.numerators, x) * b.denominator
            + value_at(b.numerators, x) * a.denominator,
    decreases longer(a.numerators.len(), b.numerators.len()),
{
    let sum = sum_of(a, b).numerators;
    if sum.len() == 0 {
        assert(value_at(a.numerators, x) * b.denominator == 0) by (nonlinear_arith)
            requires
                value_at(a.numerators, x) == 0,
        ;
        assert(value_at(b.numerators, x) * a.denominator == 0) by (nonlinear_arith)
            requires
                value_at(b.numerators, x) == 0,
        ;
    } else {
        let a_tail = Fractions { numerators: tail_of(a.numerators), denominator: a.denominator };
        let b_tail = Fractions { numerators: tail_of(b.numerators), denominator: b.denominator };
        lemma_sum_value(a_tail, b_tail, x);
        assert(sum.drop_first() =~= sum_of(a_tail, b_tail).numerators);
        let a0 = numerator_at(a.numerators, 0);
        let b0 = numerator_at(b.numerators, 0);
        let va = value_at(a_tail.numerators, x);
        let vb = value_at(b_tail.numerators, x);
        assert(value_at(a.numerators, x) == a0 + x * va);
        assert(value_at(b.numerators, x) == b0 + x * vb);
        assert(sum[0] == a0 * b.denominator + b0 * a.denominator);
        assert(value_at(sum, x) == sum[0] + x * (va * b.denominator + vb * a.denominator));
        assert((a0 * b.denominator + b0 * a.denominator) + x * (va * b.denominator + vb
            * a.denominator) == (a0 + x * va) * b.denominator + (b0 + x * vb) * a.denominator)
            by (nonlinear_arith);
    }
}

/// The value of a sequence of zeros is zero.
proof fn lemma_value_of_zeros(s: Seq<int>, x: int)
    requires
        forall|i: int| 0 <= i < s.len() ==> #[trigger] s[i] == 0,
    ensures
        value_at(s, x) == 0,
    decreases s.len(),
{
    if s.len() > 0 {
        assert forall|i: int| 0 <= i < s.drop_first().len() implies #[trigger] s.drop_first()[i]
            == 0 by {
            assert(s.drop_first()[i] == s[i + 1]);
        }
        lemma_value_of_zeros(s.drop_first(), x);
        assert(x * value_at(s.drop_first(), x) == 0) by (nonlinear_arith)
            requires
                value_at(s.drop_first(), x) == 0,
        ;
    }
}

/// Zeros appended to a sequence leave its value as it was.
proof fn lemma_value_of_padded(s: Seq<int>, padded: Seq<int>, x: int)
    requires
        padded.len() >= s.len(),
        forall|i: int| 0 <= i < padded.len() ==> #[trigger] padded[i] == numerator_at(s, i),
    ensures
        value_at(padded, x) == value_at(s, x),
    decreases padded.len(),
{
    if s.len() == 0 {
        lemma_value_of_zeros(padded, x);
    } else {
        assert forall|i: int| 0 <= i < padded.drop_first().len() implies
            #[trigger] padded.drop_first()[i] == numerator_at(s.drop_first(), i) by {
            assert(padded.drop_first()[i] == padded[i + 1]);
        }
        lemma_value_of_padded(s.drop_first(), padded.drop_first(), x);
    }
}

/// The value is linear: that of `c * u + v`, taken element by element,
/// is `c` times that of `u` plus that of `v`.
proof fn lemma_value_linear(s: Seq<int>, c: int, u: Seq<int>, v: Seq<int>, x: int)
    requires
        u.len() == s.len(),
        v.len() == s.len(),
        forall|i: int| 0 <= i < s.len() ==> #[trigger] s[i] == c * u[i] + v[i],
    ensures
        value_at(s, x) == c * value_at(u, x) + value_at(v, x),
    decreases s.len(),
{
    if s.len() == 0 {
        assert(c * 0 == 0);
    } else {
        let s1 = s.drop_first();
        let u1 = u.drop_first();
        let v1 = v.drop_first();
        assert forall|i: int| 0 <= i < s1.len() implies #[trigger] s1[i] == c * u1[i] + v1[i] by {
            assert(s1[i] == s[i + 1]);
            assert(u1[i] == u[i + 1]);
            assert(v1[i] == v[i + 1]);
        }
        lemma_value_linear(s1, c, u1, v1, x);
        let vu = value_at(u1, x);
        let vv = value_at(v1, x);
        assert(s[0] == c * u[0] + v[0]);
        assert((c * u[0] + v[0]) + x * (c * vu + vv) == c * (u[0] + x * vu) + (v[0] + x * vv))
            by (nonlinear_arith);
    }
}

/// A coefficient of a product, split off the first coefficient of the
/// first factor.
proof fn lemma_convolution_head(a: Seq<int>, b: Seq<int>, k: int, upto: nat)
    requires
        1 <= upto <= a.len(),
    ensures
        convolution_sum(a, b, k, upto) == a[0] * numerator_at(b, k) + convolution_sum(
            a.drop_first(),
            b,
            k - 1,
            (upto - 1) as nat,
        ),
    decreases upto,
{
    if upto == 1 {
        assert(convolution_sum(a, b, k, 0) == 0);
        assert(convolution_sum(a.drop_first(), b, k - 1, 0) == 0);
    } else {
        lemma_convolution_head(a, b, k, (upto - 1) as nat);
        assert(a.drop_first()[upto - 2] == a[upto - 1]);
    }
}

/// Below degree zero a product has no coefficient, and none where one
/// factor has none.
proof fn lemma_convolution_of_nothing(a: Seq<int>, b: Seq<int>, k: int, upto: nat)
    requires
        upto <= a.len(),
        k < 0 || b.len() == 0,
    ensures
        convolution_sum(a, b, k, upto) == 0,
    decreases upto,
{
    if upto > 0 {
        lemma_convolution_of_nothing(a, b, k, (upto - 1) as nat);
        assert(numerator_at(b, k - (upto - 1)) == 0);
        assert(a[upto - 1] * 0 == 0);
    }
}

/// The value of a product is the product of the values: the numerator of
/// the value of `a * b` at `x` is that of `a` times that of `b`.
pub proof fn lemma_product_value(a: Fractions, b: Fractions, x: int)
    requires
        a.numerators.len() + b.numerators.len() >= 1,
    ensures
        value_at(product_of(a, b).numerators, x) == value_at(a.numerators, x) * value_at(
            b.numerators,
            x,
        ),
    decreases a.numerators.len(),
{
    let product = product_of(a, b).numerators;
    let la = a.numerators.len();
    let lb = b.numerators.len();
    let va = value_at(a.numerators, x);
    let vb = value_at(b.numerators, x);
    if la == 0 || lb == 0 {
        assert forall|k: int| 0 <= k < product.len() implies #[trigger] product[k] == 0 by {
            if la > 0 {
                lemma_convolution_of_nothing(a.numerators, b.numerators, k, la);
            }
        }
        lemma_value_of_zeros(product, x);
        assert(va * vb == 0) by (nonlinear_arith)
            requires
                va == 0 || vb == 0,
        ;
    } else {
        let a_tail = Fractions { numerators: a.numerators.drop_first(), denominator: a.denominator };
        let rest = product_of(a_tail, b).numerators;
        lemma_product_value(a_tail, b, x);
        let a0 = a.numerators[0];
        let b_tail = b.numerators.drop_first();
        let shifted = Seq::new(rest.len(), |j: int| numerator_at(b_tail, j));
        let following = product.drop_first();
        assert(following.len() == rest.len());
        assert forall|j: int| 0 <= j < following.len() implies #[trigger] following[j] == a0
            * shifted[j] + rest[j] by {
            assert(following[j] == product[j + 1]);
            lemma_convolution_head(a.numerators, b.numerators, j + 1, la);
            assert(numerator_at(b.numerators, j + 1) == numerator_at(b_tail, j));
        }
        lemma_value_linear(following, a0, shifted, rest, x);
        lemma_value_of_padded(b_tail, shifted, x);
        lemma_convolution_head(a.numerators, b.numerators, 0, la);
        lemma_convolution_of_nothing(a_tail.numerators, b.numerators, -1, (la - 1) as nat);
        let b0 = b.numerators[0];
        let vta = value_at(a_tail.numerators, x);
        let vtb = value_at(b_tail, x);
        assert(product[0] == a0 * b0);
        assert(va == a0 + x * vta);
        assert(vb == b0 + x * vtb);
        assert(value_at(rest, x) == vta * vb);
        assert(value_at(product, x) == a0 * b0 + x * (a0 * vtb + vta * vb));
        assert(a0 * b0 + x * (a0 * vtb + vta * vb) == (a0 + x * vta) * vb) by (nonlinear_arith)
            requires
                vb == b0 + x * vtb,
        ;
    }
}

/// Over a denominator that fits, every numerator but zero is significant.
pub proof fn lemma_nonzero_is_significant(numerator: int, denominator: int)
    requires
        1 <= denominator <= i32::MAX,
    ensures
        is_significant(numerator, denominator) <==> numerator != 0,
{
}

/// `|numerator / denominator| > 1 / SIGNIFICANCE`.
pub fn exceeds_threshold(numerator: i32, denominator: i32) -> (r: bool)
    ensures
        r == is_significant(numerator as int, denominator as int),
{
    let n: i128 = numerator as i128;
    let d: i128 = denominator as i128;
    let s: i128 = SIGNIFICANCE as i128;
    n * s > d || -n * s > d
}

} // verus!
