//! The terms of the compatibility score of two sets of knot invariants.
//!
//! The score is the weighted sum of twelve similarities, clamped to the
//! unit interval. Nine of them are fractions and are computed here; of
//! the three between polynomials this module gives the squared distance,
//! from which the similarity is `1 / (1 + distance)`.

use vstd::prelude::*;
use crate::knot_invariants::{magnitude, KnotInvariants};
use crate::polynomial::{lemma_distance_to_self, squared_distance_numerator, Fractions};

verus! {

/// A fraction with a positive denominator.
#[derive(Debug, Clone, Copy, PartialEq, Eq, Structural)]
pub struct Ratio {
    pub numerator: i128,
    pub denominator: i128,
}

/// The weights of the twelve similarities, in hundredths.
#[derive(Debug, Clone, Copy, PartialEq, Eq, Structural)]
pub struct Weights {
    pub jones: u8,
    pub alexander: u8,
    pub crossing: u8,
    pub writhe: u8,
    pub signature: u8,
    pub unknotting: u8,
    pub bridge: u8,
    pub braid_index: u8,
    pub determinant: u8,
    pub arf: u8,
    pub volume: u8,
    pub homfly: u8,
}

/// The terms of the compatibility score of two sets of invariants.
#[derive(Debug, Clone, Copy)]
pub struct CompatibilityTerms {
    /// The weight of each similarity.
    pub weights: Weights,
    /// The squared distance of the Jones polynomials as a fraction,
    /// numerator first; `None` where the numerator does not fit.
    pub jones: Option<(u128, u128)>,
    /// The squared distance of the Alexander polynomials.
    pub alexander: Option<(u128, u128)>,
    /// The squared distance of the HOMFLY blends; `None` also where one
    /// of the two sets has none, and the weight is then zero.
    pub homfly: Option<(u128, u128)>,
    pub crossing: Ratio,
    pub writhe: Ratio,
    pub signature: Ratio,
    pub unknotting: Ratio,
    pub bridge: Ratio,
    pub braid_index: Ratio,
    pub determinant: Ratio,
    pub arf: Ratio,
    pub volume: Ratio,
}

/// The weight table. Where one of the two sets has no HOMFLY blend, the
/// weight of that similarity goes in equal parts to the Jones and the
/// Alexander similarity.
pub open spec fn weights_of(both_have_homfly: bool) -> Weights {
    Weights {
        jones: if both_have_homfly { 12 } else { 18 },
        alexander: if both_have_homfly { 12 } else { 18 },
        crossing: 8,
        writhe: 5,
        signature: 10,
        unknotting: 8,
        bridge: 8,
        braid_index: 8,
        determinant: 7,
        arf: 5,
        volume: 5,
        homfly: if both_have_homfly { 12 } else { 0 },
    }
}

/// The sum of the twelve weights.
pub open spec fn total_weight(w: Weights) -> int {
    w.jones + w.alexander + w.crossing + w.writhe + w.signature + w.unknotting + w.bridge
        + w.braid_index + w.determinant + w.arf + w.volume + w.homfly
}

/// The largest of `|a|`, `|b|` and one.
pub open spec fn scale_of(a: int, b: int) -> int {
    let larger = if magnitude(a) >= magnitude(b) { magnitude(a) } else { magnitude(b) };
    if larger >= 1 {
        larger
    } else {
        1
    }
}

/// The similarity of two numbers: `1 - |a - b| / max(|a|, |b|, 1)`.
pub open spec fn scalar_ratio(a: int, b: int) -> (int, int) {
    (scale_of(a, b) - magnitude(a - b), scale_of(a, b))
}

/// The similarity of two numbers that may be undefined: one where both
/// are, one half where one is, that of the two numbers otherwise.
pub open spec fn optional_ratio(a: Option<int>, b: Option<int>) -> (int, int) {
    match (a, b) {
        (None, None) => (1, 1),
        (Some(x), Some(y)) => scalar_ratio(x, y),
        _ => (1, 2),
    }
}

/// The similarity of two flags that may be undefined: one where both are
/// undefined or both are equal, one half where one is undefined, zero
/// where the two differ.
pub open spec fn flag_ratio(a: Option<int>, b: Option<int>) -> (int, int) {
    match (a, b) {
        (None, None) => (1, 1),
        (Some(x), Some(y)) => if x == y {
            (1, 1)
        } else {
            (0, 1)
        },
        _ => (1, 2),
    }
}

/// An optional count as an optional integer.
pub open spec fn count_of(v: Option<usize>) -> Option<int> {
    match v {
        Some(x) => Some(x as int),
        None => None,
    }
}

/// An optional 64-bit value as an optional integer.
pub open spec fn value_of(v: Option<u64>) -> Option<int> {
    match v {
        Some(x) => Some(x as int),
        None => None,
    }
}

/// An optional flag as an optional integer.
pub open spec fn flag_of(v: Option<u8>) -> Option<int> {
    match v {
        Some(x) => Some(x as int),
        None => None,
    }
}

/// An optional wide value as an optional integer.
pub open spec fn wide_of(v: Option<i128>) -> Option<int> {
    match v {
        Some(x) => Some(x as int),
        None => None,
    }
}

impl Ratio {
    /// The fraction as a pair of integers.
    pub open spec fn pair(self) -> (int, int) {
        (self.numerator as int, self.denominator as int)
    }
}

/// What `distance_squared` gives for two polynomials.
pub open spec fn distance_term(a: Fractions, b: Fractions, term: Option<(u128, u128)>) -> bool {
    &&& term.is_some() <==> squared_distance_numerator(a, b) <= u128::MAX
    &&& term matches Some((n, d)) ==> n == squared_distance_numerator(a, b) && d == (a.denominator
        * b.denominator) * (a.denominator * b.denominator)
}

/// `t` holds the terms of the compatibility score of `a` and `b`.
pub open spec fn is_terms_of(t: CompatibilityTerms, a: KnotInvariants, b: KnotInvariants) -> bool {
    let both = a.homfly_polynomial.is_some() && b.homfly_polynomial.is_some();
    &&& t.weights == weights_of(both)
    &&& distance_term(a.jones_polynomial@, b.jones_polynomial@, t.jones)
    &&& distance_term(a.alexander_polynomial@, b.alexander_polynomial@, t.alexander)
    &&& if both {
        distance_term(a.homfly_polynomial.unwrap()@, b.homfly_polynomial.unwrap()@, t.homfly)
    } else {
        t.homfly is None
    }
    &&& t.crossing.pair() == scalar_ratio(a.crossing_number as int, b.crossing_number as int)
    &&& t.writhe.pair() == scalar_ratio(a.writhe as int, b.writhe as int)
    &&& t.signature.pair() == scalar_ratio(a.signature as int, b.signature as int)
    &&& t.unknotting.pair() == optional_ratio(
        count_of(a.unknotting_number),
        count_of(b.unknotting_number),
    )
    &&& t.bridge.pair() == optional_ratio(
        count_of(a.bridge_number),
        count_of(b.bridge_number),
    )
    &&& t.braid_index.pair() == optional_ratio(
        count_of(a.braid_index),
        count_of(b.braid_index),
    )
    &&& t.determinant.pair() == optional_ratio(
        value_of(a.determinant),
        value_of(b.determinant),
    )
    &&& t.arf.pair() == flag_ratio(
        flag_of(a.arf_invariant),
        flag_of(b.arf_invariant),
    )
    &&& t.volume.pair() == optional_ratio(
        value_of(a.hyperbolic_volume),
        value_of(b.hyperbolic_volume),
    )
}

/// Every similarity of `t` is one: the fractions are whole and the
/// distances zero.
pub open spec fn is_full_agreement(t: CompatibilityTerms) -> bool {
    &&& total_weight(t.weights) == 100
    &&& t.jones matches Some((n, d)) && n == 0 && d >= 1
    &&& t.alexander matches Some((n, d)) && n == 0 && d >= 1
    &&& t.weights.homfly != 0 ==> (t.homfly matches Some((n, d)) && n == 0 && d >= 1)
    &&& t.crossing.numerator == t.crossing.denominator >= 1
    &&& t.writhe.numerator == t.writhe.denominator >= 1
    &&& t.signature.numerator == t.signature.denominator >= 1
    &&& t.unknotting.numerator == t.unknotting.denominator >= 1
    &&& t.bridge.numerator == t.bridge.denominator >= 1
    &&& t.braid_index.numerator == t.braid_index.denominator >= 1
    &&& t.determinant.numerator == t.determinant.denominator >= 1
    &&& t.arf.numerator == t.arf.denominator >= 1
    &&& t.volume.numerator == t.volume.denominator >= 1
}

/// The weight table for a comparison.
pub fn weights(both_have_homfly: bool) -> (w: Weights)
    ensures
        w == weights_of(both_have_homfly),
        total_weight(w) == 100,
{
    Weights {
        jones: if both_have_homfly { 12 } else { 18 },
        alexander: if both_have_homfly { 12 } else { 18 },
        crossing: 8,
        writhe: 5,
        signature: 10,
        unknotting: 8,
        bridge: 8,
        braid_index: 8,
        determinant: 7,
        arf: 5,
        volume: 5,
        homfly: if both_have_homfly { 12 } else { 0 },
    }
}

/// The similarity of two numbers of at most 64 bits.
pub fn scalar_similarity(a: i128, b: i128) -> (r: Ratio)
    requires
        -18446744073709551615 <= a <= 18446744073709551615,
        -18446744073709551615 <= b <= 18446744073709551615,
    ensures
        r.pair() == scalar_ratio(a as int, b as int),
        r.denominator >= 1,
        r.numerator <= r.denominator,
{
    let size_a: i128 = if a < 0 { -a } else { a };
    let size_b: i128 = if b < 0 { -b } else { b };
    let larger: i128 = if size_a >= size_b { size_a } else { size_b };
    let scale: i128 = if larger >= 1 { larger } else { 1 };
    let gap: i128 = if a - b < 0 { b - a } else { a - b };
    Ratio { numerator: scale - gap, denominator: scale }
}

/// The similarity of two numbers that may be undefined.
pub fn optional_similarity(a: Option<i128>, b: Option<i128>) -> (r: Ratio)
    requires
        a matches Some(x) ==> -18446744073709551615 <= x <= 18446744073709551615,
        b matches Some(y) ==> -18446744073709551615 <= y <= 18446744073709551615,
    ensures
        r.pair() == optional_ratio(wide_of(a), wide_of(b)),
        r.denominator >= 1,
        r.numerator <= r.denominator,
{
    match (a, b) {
        (None, None) => Ratio { numerator: 1, denominator: 1 },
        (Some(x), Some(y)) => scalar_similarity(x, y),
        _ => Ratio { numerator: 1, denominator: 2 },
    }
}

/// The similarity of two flags that may be undefined.
pub fn flag_similarity(a: Option<u8>, b: Option<u8>) -> (r: Ratio)
    ensures
        r.pair() == flag_ratio(flag_of(a), flag_of(b)),
        r.denominator >= 1,
        0 <= r.numerator <= r.denominator,
{
    match (a, b) {
        (None, None) => Ratio { numerator: 1, denominator: 1 },
        (Some(x), Some(y)) => if x == y {
            Ratio { numerator: 1, denominator: 1 }
        } else {
            Ratio { numerator: 0, denominator: 1 }
        },
        _ => Ratio { numerator: 1, denominator: 2 },
    }
}

fn widen_count(v: Option<usize>) -> (r: Option<i128>)
    ensures
        wide_of(r) == count_of(v),
        r matches Some(x) ==> 0 <= x <= 18446744073709551615,
{
    match v {
        Some(x) => Some(x as i128),
        None => None,
    }
}

fn widen_value(v: Option<u64>) -> (r: Option<i128>)
    ensures
        wide_of(r) == value_of(v),
        r matches Some(x) ==> 0 <= x <= 18446744073709551615,
{
    match v {
        Some(x) => Some(x as i128),
        None => None,
    }
}

impl KnotInvariants {
    /// The terms of the compatibility score of two sets of invariants.
    pub fn compatibility_terms(&self, other: &KnotInvariants) -> (t: CompatibilityTerms)
        requires
            self.wf(),
            other.wf(),
        ensures
            is_terms_of(t, *self, *other),
    {
        let homfly = match (&self.homfly_polynomial, &other.homfly_polynomial) {
            (Some(a), Some(b)) => a.distance_squared(b),
            _ => None,
        };
        let both = self.homfly_polynomial.is_some() && other.homfly_polynomial.is_some();
        CompatibilityTerms {
            weights: weights(both),
            jones: self.jones_polynomial.distance_squared(&other.jones_polynomial),
            alexander: self.alexander_polynomial.distance_squared(&other.alexander_polynomial),
            homfly,
            crossing: scalar_similarity(
                self.crossing_number as i128,
                other.crossing_number as i128,
            ),
            writhe: scalar_similarity(self.writhe as i128, other.writhe as i128),
            signature: scalar_similarity(self.signature as i128, other.signature as i128),
            unknotting: optional_similarity(
                widen_count(self.unknotting_number),
                widen_count(other.unknotting_number),
            ),
            bridge: optional_similarity(
                widen_count(self.bridge_number),
                widen_count(other.bridge_number),
            ),
            braid_index: optional_similarity(
                widen_count(self.braid_index),
                widen_count(other.braid_index),
            ),
            determinant: optional_similarity(
                widen_value(self.determinant),
                widen_value(other.determinant),
            ),
            arf: flag_similarity(self.arf_invariant, other.arf_invariant),
            volume: optional_similarity(
                widen_value(self.hyperbolic_volume),
                widen_value(other.hyperbolic_volume),
            ),
        }
    }
}

/// Compared with itself, a set of invariants agrees in every term: each
/// similarity is one, and so is the score, the weights adding up to one.
pub proof fn lemma_self_compatibility(k: KnotInvariants, t: CompatibilityTerms)
    requires
        k.wf(),
        is_terms_of(t, k, k),
    ensures
        is_full_agreement(t),
{
    lemma_distance_to_self(k.jones_polynomial@);
    lemma_distance_to_self(k.alexander_polynomial@);
    lemma_positive_square(k.jones_polynomial@.denominator);
    lemma_positive_square(k.alexander_polynomial@.denominator);
    if k.homfly_polynomial.is_some() {
        lemma_distance_to_self(k.homfly_polynomial.unwrap()@);
        lemma_positive_square(k.homfly_polynomial.unwrap()@.denominator);
    }
}

proof fn lemma_positive_square(d: int)
    requires
        d >= 1,
    ensures
        (d * d) * (d * d) >= 1,
{
    assert(d * d >= 1) by (nonlinear_arith)
        requires
            d >= 1,
    ;
    assert((d * d) * (d * d) >= 1) by (nonlinear_arith)
        requires
            d * d >= 1,
    ;
}

} // verus!
