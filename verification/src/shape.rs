//! The shape of the signal: where it is strong, where it is weak, and that it changes in one
//! direction only.
//!
//! The laws below hold of arithmetic that keeps order. They ask nothing of exactness: an operation
//! that rounds keeps order, as long as it rounds larger results to no smaller ones. A value that is
//! no number compares to nothing, and the laws speak of results that are numbers.
use vstd::prelude::*;
use crate::formula::{
    difference_parts, evaluates, exponential_part, negative_part, product_parts, quotient_parts,
    sum_parts, within_parts, Formula,
};
use crate::grid::{Cell, Grid};
use crate::numerics::{
    answers_above, answers_at_least, answers_below, compares, is_clamped, is_count, is_decimal,
    is_difference, is_exponential, is_magnitude, is_negative, is_pi, is_product, is_quotient,
    is_sum, is_zero, Comparison, Numerics,
};
use crate::series::is_number;
use crate::signal::{
    coherence_formula, curvature_formula, damping_formula, deformation_formula, depth_formula,
    extent_formula, goldstein_formula, incidence_formula, inner_formula, middle_formula,
    offset_formula, radius_formula, sinking_formula, spatial_formula, swath_formula,
    temporal_formula, thermal_formula, weight_formula, EFFECTIVE_LOOKS,
};
use crate::uniqueness::{formulas_have_one_value, single_valued};

verus! {

// ── Order ──

/// Whether `a` is at most `b`.
pub open spec fn at_most<K: Numerics>(k: &K, a: K::Value, b: K::Value) -> bool {
    answers_at_least(k, b, a, true)
}

/// Whether a value is at least zero.
pub open spec fn not_negative<K: Numerics>(k: &K, a: K::Value) -> bool {
    exists|zero: K::Value| #[trigger] is_zero(k, zero) && at_most(k, zero, a)
}

/// Whether a value is at most zero.
pub open spec fn not_positive<K: Numerics>(k: &K, a: K::Value) -> bool {
    exists|zero: K::Value| #[trigger] is_zero(k, zero) && at_most(k, a, zero)
}

/// Whether a value is above zero.
pub open spec fn positive<K: Numerics>(k: &K, a: K::Value) -> bool {
    exists|zero: K::Value| #[trigger] is_zero(k, zero) && answers_above(k, a, zero, true)
}

/// Whether a value is neither above nor below zero.
pub open spec fn vanishes<K: Numerics>(k: &K, a: K::Value) -> bool {
    not_negative(k, a) && not_positive(k, a)
}

/// Whether the comparison of numbers is an order.
pub open spec fn compares_in_order<K: Numerics>(k: &K) -> bool {
    &&& forall|a: K::Value, b: K::Value|
        #![trigger compares(k, a, b, Comparison::Less)]
        #![trigger compares(k, b, a, Comparison::Greater)]
        compares(k, a, b, Comparison::Less) == compares(k, b, a, Comparison::Greater)
    &&& forall|a: K::Value, b: K::Value| #[trigger]
        compares(k, a, b, Comparison::Equal) ==> compares(k, b, a, Comparison::Equal)
    &&& forall|a: K::Value, b: K::Value| #[trigger]
        at_most(k, a, b) ==> is_number(k, a) && is_number(k, b)
    &&& forall|a: K::Value, b: K::Value|
        is_number(k, a) && is_number(k, b) ==> !#[trigger] compares(
            k,
            a,
            b,
            Comparison::Unordered,
        )
    &&& forall|a: K::Value, b: K::Value, c: K::Value| #[trigger]
        at_most(k, a, b) && #[trigger] at_most(k, b, c) ==> at_most(k, a, c)
    &&& forall|a: K::Value, b: K::Value, c: K::Value|
        #![trigger at_most(k, a, b), answers_above(k, c, b, true)]
        at_most(k, a, b) && answers_above(k, c, b, true) ==> answers_above(k, c, a, true)
}

/// Whether nothing but numbers leads to numbers.
pub open spec fn numbers_come_from_numbers<K: Numerics>(k: &K) -> bool {
    &&& forall|a: K::Value, b: K::Value, r: K::Value| #[trigger]
        is_sum(k, a, b, r) && is_number(k, r) ==> is_number(k, a) && is_number(k, b)
    &&& forall|a: K::Value, b: K::Value, r: K::Value| #[trigger]
        is_difference(k, a, b, r) && is_number(k, r) ==> is_number(k, a) && is_number(k, b)
    &&& forall|a: K::Value, b: K::Value, r: K::Value| #[trigger]
        is_product(k, a, b, r) && is_number(k, r) ==> is_number(k, a) && is_number(k, b)
    &&& forall|a: K::Value, b: K::Value, r: K::Value| #[trigger]
        is_quotient(k, a, b, r) && is_number(k, r) ==> is_number(k, a) && is_number(k, b)
    &&& forall|a: K::Value, r: K::Value| #[trigger]
        is_negative(k, a, r) && is_number(k, r) ==> is_number(k, a)
    &&& forall|a: K::Value, r: K::Value| #[trigger]
        is_exponential(k, a, r) && is_number(k, r) ==> is_number(k, a)
}

/// Whether the values of decimals with up to nine places and of counts are in their order, and on
/// the side of zero where they belong.
pub open spec fn decimals_in_order<K: Numerics>(k: &K) -> bool {
    &&& forall|d: i64, e: i64, places: u32, r: K::Value, s: K::Value|
        d <= e && places <= 9 && #[trigger] is_decimal(k, d, places, r) && #[trigger] is_decimal(
            k,
            e,
            places,
            s,
        ) ==> at_most(k, r, s)
    &&& forall|d: i64, places: u32, r: K::Value|
        places <= 9 && #[trigger] is_decimal(k, d, places, r) ==> {
            &&& d > 0 ==> positive(k, r)
            &&& d >= 0 ==> not_negative(k, r)
            &&& d <= 0 ==> not_positive(k, r)
        }
    &&& forall|tenth: K::Value, one: K::Value| #[trigger]
        is_decimal(k, 1, 1, tenth) && #[trigger] is_decimal(k, 1, 0, one) ==> at_most(k, tenth, one)
    &&& forall|m: usize, n: usize, r: K::Value, s: K::Value|
        m <= n && #[trigger] is_count(k, m, r) && #[trigger] is_count(k, n, s) ==> at_most(k, r, s)
    &&& forall|n: usize, r: K::Value| #[trigger]
        is_count(k, n, r) ==> {
            &&& not_negative(k, r)
            &&& n == 0 ==> not_positive(k, r)
            &&& n > 0 ==> positive(k, r)
        }
    &&& forall|n: usize, c: K::Value, two: K::Value, half: K::Value|
        n > 0 && #[trigger] is_count(k, n, c) && is_decimal(k, 2, 0, two)
            && #[trigger] is_quotient(k, c, two, half) ==> positive(k, half)
    &&& forall|r: K::Value| #[trigger] is_pi(k, r) ==> not_negative(k, r)
}

/// Whether sums and differences keep order.
pub open spec fn sums_keep_order<K: Numerics>(k: &K) -> bool {
    &&& forall|a: K::Value, b: K::Value, c: K::Value, d: K::Value, r: K::Value, s: K::Value|
        #![trigger is_sum(k, a, c, r), is_sum(k, b, d, s)]
        at_most(k, a, b) && at_most(k, c, d) && is_sum(k, a, c, r) && is_sum(k, b, d, s)
            && is_number(k, r) && is_number(k, s) ==> at_most(k, r, s)
    &&& forall|a: K::Value, b: K::Value, r: K::Value|
        #[trigger] is_sum(k, a, b, r) && is_number(k, r) ==> {
            &&& not_negative(k, a) && not_negative(k, b) ==> not_negative(k, r)
            &&& not_positive(k, a) && not_positive(k, b) ==> not_positive(k, r)
            &&& positive(k, a) && not_negative(k, b) ==> positive(k, r)
        }
    &&& forall|a: K::Value, b: K::Value, c: K::Value, d: K::Value, r: K::Value, s: K::Value|
        #![trigger is_difference(k, a, d, r), is_difference(k, b, c, s)]
        at_most(k, a, b) && at_most(k, c, d) && is_difference(k, a, d, r) && is_difference(
            k,
            b,
            c,
            s,
        ) && is_number(k, r) && is_number(k, s) ==> at_most(k, r, s)
    &&& forall|a: K::Value, b: K::Value, r: K::Value|
        #[trigger] is_difference(k, a, b, r) && is_number(k, r) ==> {
            &&& at_most(k, b, a) ==> not_negative(k, r)
            &&& at_most(k, a, b) ==> not_positive(k, r)
            &&& not_negative(k, b) ==> at_most(k, r, a)
        }
    &&& forall|a: K::Value, b: K::Value, r: K::Value, s: K::Value|
        at_most(k, a, b) && #[trigger] is_negative(k, a, r) && #[trigger] is_negative(k, b, s)
            ==> at_most(k, s, r)
}

/// Whether products keep order, and turn it where one factor is not positive.
pub open spec fn products_keep_order<K: Numerics>(k: &K) -> bool {
    &&& forall|a: K::Value, b: K::Value, c: K::Value, d: K::Value, r: K::Value, s: K::Value|
        #![trigger is_product(k, a, c, r), is_product(k, b, d, s)]
        not_negative(k, a) && at_most(k, a, b) && not_negative(k, c) && at_most(k, c, d)
            && is_product(k, a, c, r) && is_product(k, b, d, s) && is_number(k, r) && is_number(
            k,
            s,
        ) ==> at_most(k, r, s)
    &&& forall|a: K::Value, b: K::Value, c: K::Value, d: K::Value, r: K::Value, s: K::Value|
        #![trigger is_product(k, a, c, r), is_product(k, b, d, s)]
        at_most(k, a, b) && not_positive(k, b) && not_negative(k, d) && at_most(k, d, c)
            && is_product(k, a, c, r) && is_product(k, b, d, s) && is_number(k, r) && is_number(
            k,
            s,
        ) ==> at_most(k, r, s)
    &&& forall|a: K::Value, b: K::Value, c: K::Value, r: K::Value, s: K::Value|
        #![trigger is_product(k, a, c, r), is_product(k, b, c, s)]
        at_most(k, a, b) && is_product(k, a, c, r) && is_product(k, b, c, s) && is_number(k, r)
            && is_number(k, s) && not_negative(k, c) ==> at_most(k, r, s)
    &&& forall|a: K::Value, b: K::Value, c: K::Value, r: K::Value, s: K::Value|
        #![trigger is_product(k, c, a, r), is_product(k, c, b, s)]
        at_most(k, a, b) && is_product(k, c, a, r) && is_product(k, c, b, s) && is_number(k, r)
            && is_number(k, s) ==> {
            &&& not_negative(k, c) ==> at_most(k, r, s)
            &&& not_positive(k, c) ==> at_most(k, s, r)
        }
    &&& forall|a: K::Value, b: K::Value, r: K::Value|
        #[trigger] is_product(k, a, b, r) && is_number(k, r) ==> {
            &&& not_negative(k, a) && not_negative(k, b) ==> not_negative(k, r)
            &&& not_negative(k, a) && not_positive(k, b) ==> not_positive(k, r)
            &&& not_positive(k, a) && not_negative(k, b) ==> not_positive(k, r)
            &&& vanishes(k, a) || vanishes(k, b) ==> vanishes(k, r)
            &&& a == b ==> not_negative(k, r)
        }
}

/// Whether quotients by positive values keep order.
pub open spec fn quotients_keep_order<K: Numerics>(k: &K) -> bool {
    &&& forall|a: K::Value, b: K::Value, c: K::Value, r: K::Value, s: K::Value|
        #![trigger is_quotient(k, a, c, r), is_quotient(k, b, c, s)]
        at_most(k, a, b) && positive(k, c) && is_quotient(k, a, c, r) && is_quotient(k, b, c, s)
            && is_number(k, r) && is_number(k, s) ==> at_most(k, r, s)
    &&& forall|a: K::Value, b: K::Value, r: K::Value|
        #[trigger] is_quotient(k, a, b, r) && is_number(k, r) ==> {
            &&& not_negative(k, a) && positive(k, b) ==> not_negative(k, r)
            &&& not_positive(k, a) && positive(k, b) ==> not_positive(k, r)
            &&& vanishes(k, a) ==> vanishes(k, r)
        }
}

/// Whether the exponential keeps order and is never negative.
pub open spec fn exponential_keeps_order<K: Numerics>(k: &K) -> bool {
    &&& forall|a: K::Value, b: K::Value, r: K::Value, s: K::Value|
        at_most(k, a, b) && #[trigger] is_exponential(k, a, r) && #[trigger] is_exponential(
            k,
            b,
            s,
        ) ==> at_most(k, r, s)
    &&& forall|a: K::Value, r: K::Value| #[trigger]
        is_exponential(k, a, r) && is_number(k, a) ==> not_negative(k, r)
}

/// Whether arithmetic keeps order.
pub open spec fn keeps_order<K: Numerics>(k: &K) -> bool {
    &&& single_valued(k)
    &&& compares_in_order(k)
    &&& numbers_come_from_numbers(k)
    &&& decimals_in_order(k)
    &&& sums_keep_order(k)
    &&& products_keep_order(k)
    &&& quotients_keep_order(k)
    &&& exponential_keeps_order(k)
}

/// What is not positive is at most what is not negative.
proof fn lemma_across_zero<K: Numerics>(k: &K, a: K::Value, b: K::Value)
    requires
        single_valued(k),
        compares_in_order(k),
        not_positive(k, a),
        not_negative(k, b),
    ensures
        at_most(k, a, b),
{
    let zero1 = choose|zero: K::Value| #[trigger] is_zero(k, zero) && at_most(k, a, zero);
    let zero2 = choose|zero: K::Value| #[trigger] is_zero(k, zero) && at_most(k, zero, b);
    assert(is_decimal(k, 0, 0, zero1) && is_decimal(k, 0, 0, zero2));
}

/// Keeping values within the same two ends keeps their order; a number that comes out comes from a
/// number and lies within the ends.
proof fn lemma_clamping_keeps_order<K: Numerics>(
    k: &K,
    x: K::Value,
    y: K::Value,
    low: K::Value,
    high: K::Value,
    r: K::Value,
    s: K::Value,
)
    requires
        single_valued(k),
        compares_in_order(k),
        at_most(k, low, high),
        is_clamped(k, x, low, high, r),
        is_clamped(k, y, low, high, s),
        at_most(k, x, y),
    ensures
        at_most(k, r, s),
{
    lemma_clamped_number(k, x, low, high, r);
    lemma_clamped_number(k, y, low, high, s);
    if answers_below(k, y, low, true) {
        // Then `x` is below as well.
        assert(compares(k, y, low, Comparison::Less));
        assert(compares(k, low, y, Comparison::Greater));
        assert(answers_above(k, low, y, true));
        assert(answers_above(k, low, x, true));
        assert(compares(k, low, x, Comparison::Greater));
        assert(compares(k, x, low, Comparison::Less));
    }
    if answers_above(k, x, high, true) {
        // Then `y` is above as well.
        lemma_above_carries(k, x, y, high);
    }
}

/// What is at least a value above a limit is not below it, nor level with it.
proof fn lemma_above_carries<K: Numerics>(k: &K, x: K::Value, y: K::Value, high: K::Value)
    requires
        single_valued(k),
        compares_in_order(k),
        at_most(k, x, y),
        answers_above(k, x, high, true),
    ensures
        at_most(k, high, y),
        !answers_above(k, y, high, false),
{
    assert(compares(k, x, high, Comparison::Greater));
    assert(at_most(k, high, x));
    assert(at_most(k, high, y));
    if answers_above(k, y, high, false) {
        let c = choose|c: Comparison|
            #[trigger] compares(k, y, high, c) && false == (c is Greater);
        assert(c is Less || c is Equal || c is Unordered);
        assert(is_number(k, y) && is_number(k, high));
        if c is Less {
            assert(compares(k, high, y, Comparison::Greater));
            assert(at_most(k, y, high));
        } else if c is Equal {
            assert(compares(k, high, y, Comparison::Equal));
            assert(at_most(k, y, high));
        }
        assert(at_most(k, y, high));
        assert(answers_above(k, x, y, true));
        assert(compares(k, x, y, Comparison::Greater));
        assert(compares(k, y, x, Comparison::Less));
    }
}

/// A number within two ends comes from a number, and is neither below the one nor above the other.
proof fn lemma_clamped_number<K: Numerics>(
    k: &K,
    x: K::Value,
    low: K::Value,
    high: K::Value,
    r: K::Value,
)
    requires
        single_valued(k),
        compares_in_order(k),
        at_most(k, low, high),
        is_clamped(k, x, low, high, r),
    ensures
        is_number(k, r) ==> is_number(k, x),
        is_number(k, x) ==> at_most(k, low, r) && at_most(k, r, high),
{
    if answers_below(k, x, low, true) {
        assert(compares(k, x, low, Comparison::Less));
        assert(compares(k, low, x, Comparison::Greater));
        assert(at_most(k, x, low));
    }
    if answers_above(k, x, high, true) {
        assert(compares(k, x, high, Comparison::Greater));
        assert(at_most(k, high, x));
    }
    if is_number(k, x) {
        assert(is_number(k, low) && is_number(k, high));
        assert(at_most(k, low, low)) by {
            assert(compares(k, low, low, Comparison::Equal));
        }
        assert(at_most(k, high, high)) by {
            assert(compares(k, high, high, Comparison::Equal));
        }
        if answers_below(k, x, low, false) {
            let c = choose|c: Comparison|
                #[trigger] compares(k, x, low, c) && false == (c is Less);
            assert(c is Equal || c is Greater);
            assert(at_most(k, low, x));
        }
        if answers_above(k, x, high, false) {
            let c = choose|c: Comparison|
                #[trigger] compares(k, x, high, c) && false == (c is Greater);
            assert(c is Equal || c is Less);
            if c is Less {
                assert(compares(k, high, x, Comparison::Greater));
            } else {
                assert(compares(k, high, x, Comparison::Equal));
            }
            assert(at_most(k, x, high));
        }
    }
}

// ── Coherence ──

/// The value of a decimal is one.
proof fn lemma_one_decimal<K: Numerics>(
    k: &K,
    digits: i64,
    places: u32,
    r: K::Value,
    s: K::Value,
)
    requires
        single_valued(k),
        evaluates(k, Formula::Decimal(digits, places), r),
        evaluates(k, Formula::Decimal(digits, places), s),
    ensures
        r == s,
        is_decimal(k, digits, places, r),
{
}

/// The exponential of minus a distance over a positive value never rises with the distance, and is
/// not negative.
proof fn lemma_decay<K: Numerics>(
    k: &K,
    radius1: Formula<K::Value>,
    radius2: Formula<K::Value>,
    scale: Formula<K::Value>,
    r1: K::Value,
    r2: K::Value,
    v1: K::Value,
    v2: K::Value,
)
    requires
        keeps_order(k),
        evaluates(k, radius1, r1),
        evaluates(k, radius2, r2),
        at_most(k, r1, r2),
        forall|c: K::Value| evaluates(k, scale, c) ==> positive(k, c),
        evaluates(k, radius1.negative().over(scale).exponential(), v1),
        evaluates(k, radius2.negative().over(scale).exponential(), v2),
        is_number(k, v1),
        is_number(k, v2),
    ensures
        at_most(k, v2, v1),
        not_negative(k, v1),
        not_negative(k, v2),
{
    let x1 = exponential_part(k, radius1.negative().over(scale), v1);
    let x2 = exponential_part(k, radius2.negative().over(scale), v2);
    let (n1, c1) = quotient_parts(k, radius1.negative(), scale, x1);
    let (n2, c2) = quotient_parts(k, radius2.negative(), scale, x2);
    let s1 = negative_part(k, radius1, n1);
    let s2 = negative_part(k, radius2, n2);
    formulas_have_one_value(k, radius1, r1, s1);
    formulas_have_one_value(k, radius2, r2, s2);
    formulas_have_one_value(k, scale, c1, c2);
    assert(at_most(k, n2, n1));
    assert(at_most(k, x2, x1));
}

/// The coherence of a place never rises with its distance from the center.
proof fn lemma_spatial<K: Numerics>(
    k: &K,
    bbox: Seq<K::Value>,
    a: (K::Value, K::Value),
    b: (K::Value, K::Value),
    ra: K::Value,
    rb: K::Value,
    va: K::Value,
    vb: K::Value,
)
    requires
        keeps_order(k),
        evaluates(k, radius_formula(a, bbox), ra),
        evaluates(k, radius_formula(b, bbox), rb),
        at_most(k, ra, rb),
        evaluates(k, spatial_formula(a, bbox), va),
        evaluates(k, spatial_formula(b, bbox), vb),
        is_number(k, va),
        is_number(k, vb),
    ensures
        at_most(k, vb, va),
        not_negative(k, va),
        not_negative(k, vb),
{
    let scale = Formula::<K::Value>::Decimal(15, 1);
    let top = Formula::<K::Value>::Decimal(95, 2);
    let fa = radius_formula(a, bbox);
    let fb = radius_formula(b, bbox);
    let (ta, ea) = product_parts(k, top, fa.negative().over(scale).exponential(), va);
    let (tb, eb) = product_parts(k, top, fb.negative().over(scale).exponential(), vb);
    lemma_one_decimal(k, 95, 2, ta, tb);
    assert forall|c: K::Value| evaluates(k, scale, c) implies positive(k, c) by {
        assert(is_decimal(k, 15, 1, c));
    }
    lemma_decay(k, fa, fb, scale, ra, rb, ea, eb);
}

/// The coherence after some days never rises with their number.
proof fn lemma_temporal<K: Numerics>(k: &K, ta: i64, tb: i64, va: K::Value, vb: K::Value)
    requires
        keeps_order(k),
        ta <= tb,
        evaluates(k, temporal_formula(ta), va),
        evaluates(k, temporal_formula(tb), vb),
        is_number(k, va),
        is_number(k, vb),
    ensures
        at_most(k, vb, va),
        not_negative(k, va),
        not_negative(k, vb),
{
    let year = Formula::<K::Value>::Decimal(365, 0);
    let rate = Formula::<K::Value>::Decimal(3, 1);
    let fa = Formula::<K::Value>::Decimal(ta, 0);
    let fb = Formula::<K::Value>::Decimal(tb, 0);
    let xa = exponential_part(k, fa.negative().over(year).times(rate), va);
    let xb = exponential_part(k, fb.negative().over(year).times(rate), vb);
    let (qa, ca) = product_parts(k, fa.negative().over(year), rate, xa);
    let (qb, cb) = product_parts(k, fb.negative().over(year), rate, xb);
    let (na, ya) = quotient_parts(k, fa.negative(), year, qa);
    let (nb, yb) = quotient_parts(k, fb.negative(), year, qb);
    let da = negative_part(k, fa, na);
    let db = negative_part(k, fb, nb);
    lemma_one_decimal(k, 3, 1, ca, cb);
    lemma_one_decimal(k, 365, 0, ya, yb);
    assert(is_decimal(k, ta, 0, da) && is_decimal(k, tb, 0, db));
    assert(at_most(k, da, db));
    assert(at_most(k, nb, na));
    assert(at_most(k, qb, qa));
    assert(at_most(k, xb, xa));
}

/// The share of the signal is not negative.
proof fn lemma_thermal<K: Numerics>(k: &K, v: K::Value)
    requires
        keeps_order(k),
        evaluates(k, thermal_formula(), v),
        is_number(k, v),
    ensures
        not_negative(k, v),
{
    let ten = Formula::<K::Value>::Decimal(10, 0);
    let looks = Formula::<K::Value>::Count(EFFECTIVE_LOOKS);
    let one = Formula::<K::Value>::Decimal(1, 0);
    let snr = ten.times(looks);
    let (x, y) = quotient_parts(k, snr, one.plus(snr), v);
    let (t, n) = product_parts(k, ten, looks, x);
    let (o, x2) = sum_parts(k, one, snr, y);
    formulas_have_one_value(k, snr, x, x2);
    assert(is_decimal(k, 10, 0, t) && is_count(k, EFFECTIVE_LOOKS, n) && is_decimal(k, 1, 0, o));
    assert(not_negative(k, x));
    assert(positive(k, y));
}

/// Where arithmetic keeps order, coherence never rises with the distance from the center of the box
/// nor with the time between the acquisitions, and stays within 0.05 and 0.99.
pub proof fn coherence_never_rises<K: Numerics>(
    k: &K,
    bbox: Seq<K::Value>,
    a: (K::Value, K::Value),
    b: (K::Value, K::Value),
    ra: K::Value,
    rb: K::Value,
    ta: i64,
    tb: i64,
    va: K::Value,
    vb: K::Value,
)
    requires
        keeps_order(k),
        evaluates(k, radius_formula(a, bbox), ra),
        evaluates(k, radius_formula(b, bbox), rb),
        at_most(k, ra, rb),
        ta <= tb,
        evaluates(k, coherence_formula(a, bbox, ta), va),
        evaluates(k, coherence_formula(b, bbox, tb), vb),
        is_number(k, va),
        is_number(k, vb),
    ensures
        at_most(k, vb, va),
        forall|low: K::Value| is_decimal(k, 5, 2, low) ==> at_most(k, low, vb),
        forall|high: K::Value| is_decimal(k, 99, 2, high) ==> at_most(k, va, high),
{
    let low = Formula::<K::Value>::Decimal(5, 2);
    let high = Formula::<K::Value>::Decimal(99, 2);
    let pair_a = spatial_formula(a, bbox).times(temporal_formula(ta));
    let pair_b = spatial_formula(b, bbox).times(temporal_formula(tb));
    let (xa, la, ha) = within_parts(k, pair_a.times(thermal_formula()), low, high, va);
    let (xb, lb, hb) = within_parts(k, pair_b.times(thermal_formula()), low, high, vb);
    lemma_one_decimal(k, 5, 2, la, lb);
    lemma_one_decimal(k, 99, 2, ha, hb);
    assert(at_most(k, la, ha));
    lemma_clamped_number(k, xa, la, ha, va);
    lemma_clamped_number(k, xb, la, ha, vb);
    let (pa, ga) = product_parts(k, pair_a, thermal_formula(), xa);
    let (pb, gb) = product_parts(k, pair_b, thermal_formula(), xb);
    formulas_have_one_value(k, thermal_formula(), ga, gb);
    lemma_thermal(k, ga);
    let (sa, ea) = product_parts(k, spatial_formula(a, bbox), temporal_formula(ta), pa);
    let (sb, eb) = product_parts(k, spatial_formula(b, bbox), temporal_formula(tb), pb);
    lemma_spatial(k, bbox, a, b, ra, rb, sa, sb);
    lemma_temporal(k, ta, tb, ea, eb);
    assert(at_most(k, pb, pa));
    assert(at_most(k, xb, xa));
    lemma_clamping_keeps_order(k, xb, xa, la, ha, vb, va);
}

// ── Subsidence ──

/// The depth of the bowl never rises with the distance from its middle, and is not negative.
proof fn lemma_weight<K: Numerics>(
    k: &K,
    bbox: Seq<K::Value>,
    a: (K::Value, K::Value),
    b: (K::Value, K::Value),
    ra: K::Value,
    rb: K::Value,
    va: K::Value,
    vb: K::Value,
)
    requires
        keeps_order(k),
        evaluates(k, radius_formula(a, bbox), ra),
        evaluates(k, radius_formula(b, bbox), rb),
        at_most(k, ra, rb),
        evaluates(k, weight_formula(a, bbox), va),
        evaluates(k, weight_formula(b, bbox), vb),
        bowl_has_a_width(k),
        is_number(k, va),
        is_number(k, vb),
    ensures
        at_most(k, vb, va),
        not_negative(k, va),
        not_negative(k, vb),
{
    let variance = Formula::<K::Value>::Decimal(4, 1).times(Formula::Decimal(4, 1));
    let scale = Formula::<K::Value>::Decimal(2, 0).times(variance);
    lemma_decay(k, radius_formula(a, bbox), radius_formula(b, bbox), scale, ra, rb, va, vb);
}

/// Whether twice the square of 0.4 is positive, as it is where it is not rounded to zero.
pub open spec fn bowl_has_a_width<K: Numerics>(k: &K) -> bool {
    let variance = Formula::<K::Value>::Decimal(4, 1).times(Formula::Decimal(4, 1));
    forall|c: K::Value| #[trigger]
        evaluates(k, Formula::<K::Value>::Decimal(2, 0).times(variance), c) ==> positive(k, c)
}

/// The phase of sinking ground is on the side of zero opposite to the days, and falls with them.
proof fn lemma_sinking<K: Numerics>(k: &K, ta: i64, tb: i64, va: K::Value, vb: K::Value)
    requires
        keeps_order(k),
        0 <= ta <= tb,
        evaluates(k, sinking_formula(ta), va),
        evaluates(k, sinking_formula(tb), vb),
        is_number(k, va),
        is_number(k, vb),
    ensures
        at_most(k, vb, va),
        not_positive(k, va),
        not_positive(k, vb),
        ta == 0 ==> vanishes(k, va),
{
    let rate = Formula::<K::Value>::Decimal(-5i64, 3);
    let cycle = Formula::<K::Value>::Decimal(120, 1);
    let wavelength = Formula::<K::Value>::Decimal(5546, 5);
    let turn = Formula::<K::Value>::Decimal(4, 0).times(Formula::Pi);
    let fa = Formula::<K::Value>::Decimal(ta, 0);
    let fb = Formula::<K::Value>::Decimal(tb, 0);
    let ma = rate.times(fa.over(cycle));
    let mb = rate.times(fb.over(cycle));
    let (pa, wa) = quotient_parts(k, turn.times(ma), wavelength, va);
    let (pb, wb) = quotient_parts(k, turn.times(mb), wavelength, vb);
    let (ua, xa) = product_parts(k, turn, ma, pa);
    let (ub, xb) = product_parts(k, turn, mb, pb);
    let (four, pi) = product_parts(k, Formula::Decimal(4, 0), Formula::Pi, ua);
    let (ra, qa) = product_parts(k, rate, fa.over(cycle), xa);
    let (rb, qb) = product_parts(k, rate, fb.over(cycle), xb);
    let (da, ca) = quotient_parts(k, fa, cycle, qa);
    let (db, cb) = quotient_parts(k, fb, cycle, qb);
    formulas_have_one_value(k, turn, ua, ub);
    lemma_one_decimal(k, 5546, 5, wa, wb);
    lemma_one_decimal(k, -5i64, 3, ra, rb);
    lemma_one_decimal(k, 120, 1, ca, cb);
    assert(is_decimal(k, ta, 0, da) && is_decimal(k, tb, 0, db));
    assert(is_decimal(k, 4, 0, four) && is_pi(k, pi));
    assert(not_negative(k, ua));
    assert(at_most(k, da, db));
    assert(at_most(k, qa, qb));
    assert(not_negative(k, qa) && not_negative(k, qb));
    assert(not_positive(k, ra));
    assert(at_most(k, xb, xa));
    assert(not_positive(k, xa) && not_positive(k, xb));
    assert(at_most(k, pb, pa));
    assert(not_positive(k, pa) && not_positive(k, pb));
    if ta == 0 {
        assert(vanishes(k, da));
        assert(vanishes(k, qa));
        assert(vanishes(k, xa));
        assert(vanishes(k, pa));
    }
}

/// Where arithmetic keeps order, the bowl sinks: the phase of a place is never positive, no place
/// shows more of it than one closer to the middle, and it grows with the days; after no days there
/// is none.
pub proof fn bowl_is_deepest_inside<K: Numerics>(
    k: &K,
    bbox: Seq<K::Value>,
    a: (K::Value, K::Value),
    b: (K::Value, K::Value),
    ra: K::Value,
    rb: K::Value,
    ta: i64,
    tb: i64,
    va: K::Value,
    vb: K::Value,
)
    requires
        keeps_order(k),
        bowl_has_a_width(k),
        evaluates(k, radius_formula(a, bbox), ra),
        evaluates(k, radius_formula(b, bbox), rb),
        at_most(k, ra, rb),
        0 <= tb <= ta,
        evaluates(k, deformation_formula(a, bbox, ta), va),
        evaluates(k, deformation_formula(b, bbox, tb), vb),
        is_number(k, va),
        is_number(k, vb),
    ensures
        at_most(k, va, vb),
        not_positive(k, va),
        not_positive(k, vb),
        tb == 0 ==> vanishes(k, vb),
{
    let (sa, wa) = product_parts(k, sinking_formula(ta), weight_formula(a, bbox), va);
    let (sb, wb) = product_parts(k, sinking_formula(tb), weight_formula(b, bbox), vb);
    lemma_weight(k, bbox, a, b, ra, rb, wa, wb);
    lemma_sinking(k, tb, ta, sb, sa);
}

/// The distance of the middle of two edges from it vanishes.
proof fn lemma_no_offset<K: Numerics>(
    k: &K,
    low: K::Value,
    high: K::Value,
    middle: K::Value,
    v: K::Value,
)
    requires
        keeps_order(k),
        evaluates(k, middle_formula(low, high), middle),
        evaluates(k, offset_formula(middle, low, high), v),
        is_number(k, v),
    ensures
        vanishes(k, v),
{
    let place = Formula::Known(middle);
    let (d, e) = quotient_parts(
        k,
        place.minus(middle_formula(low, high)),
        extent_formula(low, high),
        v,
    );
    let (x, m) = difference_parts(k, place, middle_formula(low, high), d);
    formulas_have_one_value(k, middle_formula(low, high), middle, m);
    assert(x == middle);
    assert(is_number(k, middle));
    assert(compares(k, middle, middle, Comparison::Equal));
    assert(at_most(k, middle, middle));
    assert(vanishes(k, d));
}

/// A squared distance is not negative.
proof fn lemma_radius<K: Numerics>(
    k: &K,
    bbox: Seq<K::Value>,
    a: (K::Value, K::Value),
    v: K::Value,
) -> (parts: (K::Value, K::Value))
    requires
        keeps_order(k),
        evaluates(k, radius_formula(a, bbox), v),
        is_number(k, v),
    ensures
        not_negative(k, v),
        evaluates(k, offset_formula(a.0, bbox[0], bbox[2]), parts.0),
        evaluates(k, offset_formula(a.1, bbox[1], bbox[3]), parts.1),
        is_number(k, parts.0),
        is_number(k, parts.1),
        vanishes(k, parts.0) && vanishes(k, parts.1) ==> not_positive(k, v),
{
    let dx = offset_formula(a.0, bbox[0], bbox[2]);
    let dy = offset_formula(a.1, bbox[1], bbox[3]);
    let (xx, yy) = sum_parts(k, dx.times(dx), dy.times(dy), v);
    let (x1, x2) = product_parts(k, dx, dx, xx);
    let (y1, y2) = product_parts(k, dy, dy, yy);
    formulas_have_one_value(k, dx, x1, x2);
    formulas_have_one_value(k, dy, y1, y2);
    assert(not_negative(k, xx) && not_negative(k, yy));
    (x1, y1)
}

/// Where arithmetic keeps order, no place is closer to the center of a box than the middle of its
/// edges.
pub proof fn middle_is_closest<K: Numerics>(
    k: &K,
    bbox: Seq<K::Value>,
    middle: (K::Value, K::Value),
    b: (K::Value, K::Value),
    rm: K::Value,
    rb: K::Value,
)
    requires
        keeps_order(k),
        evaluates(k, middle_formula(bbox[0], bbox[2]), middle.0),
        evaluates(k, middle_formula(bbox[1], bbox[3]), middle.1),
        evaluates(k, radius_formula(middle, bbox), rm),
        evaluates(k, radius_formula(b, bbox), rb),
        is_number(k, rm),
        is_number(k, rb),
    ensures
        at_most(k, rm, rb),
        vanishes(k, rm),
{
    let (x, y) = lemma_radius(k, bbox, middle, rm);
    lemma_no_offset(k, bbox[0], bbox[2], middle.0, x);
    lemma_no_offset(k, bbox[1], bbox[3], middle.1, y);
    lemma_radius(k, bbox, b, rb);
    lemma_across_zero(k, rm, rb);
}

/// Where arithmetic keeps order, the bowl is deepest in the middle of the box: no place shows more
/// subsidence, nor does its phase have a larger size.
pub proof fn bowl_is_deepest_in_the_middle<K: Numerics>(
    k: &K,
    bbox: Seq<K::Value>,
    middle: (K::Value, K::Value),
    b: (K::Value, K::Value),
    rm: K::Value,
    rb: K::Value,
    days: i64,
    vm: K::Value,
    vb: K::Value,
    size_m: K::Value,
    size_b: K::Value,
)
    requires
        keeps_order(k),
        bowl_has_a_width(k),
        evaluates(k, middle_formula(bbox[0], bbox[2]), middle.0),
        evaluates(k, middle_formula(bbox[1], bbox[3]), middle.1),
        evaluates(k, radius_formula(middle, bbox), rm),
        evaluates(k, radius_formula(b, bbox), rb),
        is_number(k, rm),
        is_number(k, rb),
        days >= 0,
        evaluates(k, deformation_formula(middle, bbox, days), vm),
        evaluates(k, deformation_formula(b, bbox, days), vb),
        is_number(k, vm),
        is_number(k, vb),
        is_magnitude(k, vm, size_m),
        is_magnitude(k, vb, size_b),
        forall|x: K::Value, y: K::Value, r: K::Value, s: K::Value|
            at_most(k, x, y) && not_positive(k, y) && #[trigger] is_magnitude(k, x, r)
                && #[trigger] is_magnitude(k, y, s) ==> at_most(k, s, r),
    ensures
        at_most(k, vm, vb),
        not_positive(k, vb),
        at_most(k, size_b, size_m),
{
    middle_is_closest(k, bbox, middle, b, rm, rb);
    bowl_is_deepest_inside(k, bbox, middle, b, rm, rb, days, days, vm, vb);
}

// ── Filter ──

/// Cells that are mirrored in one direction, or in both, are equally far from the edges, and what
/// the Goldstein filter makes of a phase is the same there.
pub proof fn mirrored_cells_are_filtered_alike<V>(
    grid: Grid,
    cell: Cell,
    mirror: Cell,
    index: int,
    mirror_index: int,
    phase: V,
)
    requires
        0 <= index < grid.cells(),
        0 <= mirror_index < grid.cells(),
        grid.has_cell(index, cell),
        grid.has_cell(mirror_index, mirror),
        mirror.col == cell.col || mirror.col == grid.width - 1 - cell.col,
        mirror.row == cell.row || mirror.row == grid.height - 1 - cell.row,
    ensures
        mirror.edge_x == cell.edge_x,
        mirror.edge_y == cell.edge_y,
        goldstein_formula(phase, grid, mirror) == goldstein_formula(phase, grid, cell),
{
}

/// How close a cell is to the middle in one direction: not negative, growing with the distance from
/// the edge, and nothing at the edge.
proof fn lemma_depth<K: Numerics>(
    k: &K,
    edge1: usize,
    edge2: usize,
    n: usize,
    v1: K::Value,
    v2: K::Value,
)
    requires
        keeps_order(k),
        n > 0,
        edge1 <= edge2,
        evaluates(k, depth_formula(edge1, n), v1),
        evaluates(k, depth_formula(edge2, n), v2),
        is_number(k, v1),
        is_number(k, v2),
    ensures
        at_most(k, v1, v2),
        not_negative(k, v1),
        not_negative(k, v2),
        edge1 == 0 ==> vanishes(k, v1),
{
    let two = Formula::<K::Value>::Decimal(2, 0);
    let half = Formula::<K::Value>::Count(n).over(two);
    let (e1, h1) = quotient_parts(k, Formula::Count(edge1), half, v1);
    let (e2, h2) = quotient_parts(k, Formula::Count(edge2), half, v2);
    formulas_have_one_value(k, half, h1, h2);
    let (c, t) = quotient_parts(k, Formula::Count(n), two, h1);
    assert(is_count(k, n, c) && is_decimal(k, 2, 0, t));
    assert(positive(k, h1));
    assert(is_count(k, edge1, e1) && is_count(k, edge2, e2));
    assert(at_most(k, e1, e2));
}

/// The parts of a damping: what is left of one, the weighted noise that is taken away, the strength
/// of the filter, the noise, and how close the cell is to the middle.
proof fn lemma_damping_parts<K: Numerics>(k: &K, grid: Grid, cell: Cell, v: K::Value) -> (parts: (
    K::Value,
    K::Value,
    K::Value,
    K::Value,
))
    requires
        keeps_order(k),
        evaluates(k, damping_formula(grid, cell), v),
        is_number(k, v),
    ensures
        ({
            let (one, inner, noise, taken) = parts;
            &&& is_decimal(k, 1, 0, one)
            &&& is_difference(k, one, taken, v)
            &&& is_difference(k, one, inner, noise)
            &&& evaluates(k, inner_formula(grid, cell), inner)
            &&& is_number(k, inner)
            &&& is_number(k, noise)
            &&& is_number(k, taken)
            &&& evaluates(k, taken_formula(noise), taken)
        }),
{
    let one = Formula::<K::Value>::Decimal(1, 0);
    let strength = Formula::<K::Value>::Decimal(3, 1);
    let noise = one.minus(inner_formula(grid, cell));
    let alpha = Formula::<K::Value>::Decimal(5, 1).plus(noise.times(strength));
    let (o, t) = difference_parts(k, one, alpha.times(noise).times(strength), v);
    let (an, c) = product_parts(k, alpha.times(noise), strength, t);
    let (al, n) = product_parts(k, alpha, noise, an);
    let (half, nc) = sum_parts(k, Formula::Decimal(5, 1), noise.times(strength), al);
    let (n2, c2) = product_parts(k, noise, strength, nc);
    formulas_have_one_value(k, noise, n, n2);
    let (o2, inner) = difference_parts(k, one, inner_formula(grid, cell), n);
    lemma_one_decimal(k, 1, 0, o, o2);
    let known = Formula::Known(n);
    assert(evaluates(k, known.times(strength), nc)) by {
        assert(is_product(k, n, c2, nc));
        assert(evaluates(k, known, n));
    }
    assert(evaluates(k, Formula::Decimal(5, 1).plus(known.times(strength)), al)) by {
        assert(is_sum(k, half, nc, al));
    }
    assert(evaluates(
        k,
        Formula::Decimal(5, 1).plus(known.times(strength)).times(known),
        an,
    )) by {
        assert(is_product(k, al, n, an));
        assert(evaluates(k, known, n));
    }
    assert(evaluates(k, taken_formula(n), t)) by {
        assert(is_product(k, an, c, t));
    }
    (o, inner, n, t)
}

/// What the filter takes away for some noise.
pub open spec fn taken_formula<V>(noise: V) -> Formula<V> {
    let strength = Formula::Decimal(3, 1);
    let known = Formula::Known(noise);
    Formula::Decimal(5, 1).plus(known.times(strength)).times(known).times(strength)
}

/// What the filter takes away grows with the noise, and is not negative.
proof fn lemma_taken<K: Numerics>(
    k: &K,
    n1: K::Value,
    n2: K::Value,
    v1: K::Value,
    v2: K::Value,
)
    requires
        keeps_order(k),
        not_negative(k, n1),
        at_most(k, n1, n2),
        evaluates(k, taken_formula(n1), v1),
        evaluates(k, taken_formula(n2), v2),
        is_number(k, v1),
        is_number(k, v2),
    ensures
        at_most(k, v1, v2),
        not_negative(k, v1),
{
    let strength = Formula::<K::Value>::Decimal(3, 1);
    let half = Formula::<K::Value>::Decimal(5, 1);
    let f1 = Formula::Known(n1);
    let f2 = Formula::Known(n2);
    let (x1, c1) = product_parts(k, half.plus(f1.times(strength)).times(f1), strength, v1);
    let (x2, c2) = product_parts(k, half.plus(f2.times(strength)).times(f2), strength, v2);
    let (a1, m1) = product_parts(k, half.plus(f1.times(strength)), f1, x1);
    let (a2, m2) = product_parts(k, half.plus(f2.times(strength)), f2, x2);
    let (h1, p1) = sum_parts(k, half, f1.times(strength), a1);
    let (h2, p2) = sum_parts(k, half, f2.times(strength), a2);
    let (q1, d1) = product_parts(k, f1, strength, p1);
    let (q2, d2) = product_parts(k, f2, strength, p2);
    assert(m1 == n1 && m2 == n2 && q1 == n1 && q2 == n2);
    lemma_one_decimal(k, 3, 1, c1, c2);
    lemma_one_decimal(k, 3, 1, d1, d2);
    lemma_one_decimal(k, 3, 1, c1, d1);
    lemma_one_decimal(k, 5, 1, h1, h2);
    assert(not_negative(k, c1) && not_negative(k, h1));
    assert(at_most(k, p1, p2));
    assert(not_negative(k, p1));
    assert(at_most(k, h1, h1)) by {
        assert(compares(k, h1, h1, Comparison::Equal));
    }
    assert(at_most(k, a1, a2));
    assert(not_negative(k, a1));
    assert(at_most(k, x1, x2));
    assert(not_negative(k, x1));
}

/// The damping of two cells is in the order of how close they are to the middle.
proof fn lemma_damping_order<K: Numerics>(
    k: &K,
    grid: Grid,
    cell1: Cell,
    cell2: Cell,
    inner1: K::Value,
    inner2: K::Value,
    v1: K::Value,
    v2: K::Value,
)
    requires
        keeps_order(k),
        evaluates(k, inner_formula(grid, cell1), inner1),
        evaluates(k, inner_formula(grid, cell2), inner2),
        at_most(k, inner1, inner2),
        forall|one: K::Value| is_decimal(k, 1, 0, one) ==> at_most(k, inner2, one),
        evaluates(k, damping_formula(grid, cell1), v1),
        evaluates(k, damping_formula(grid, cell2), v2),
        is_number(k, v1),
        is_number(k, v2),
    ensures
        at_most(k, v1, v2),
        forall|one: K::Value| is_decimal(k, 1, 0, one) ==> at_most(k, v2, one),
{
    let (o1, i1, n1, t1) = lemma_damping_parts(k, grid, cell1, v1);
    let (o2, i2, n2, t2) = lemma_damping_parts(k, grid, cell2, v2);
    formulas_have_one_value(k, inner_formula(grid, cell1), inner1, i1);
    formulas_have_one_value(k, inner_formula(grid, cell2), inner2, i2);
    assert(o1 == o2);
    assert(is_number(k, o1));
    assert(at_most(k, o1, o1)) by {
        assert(compares(k, o1, o1, Comparison::Equal));
    }
    assert(not_negative(k, n2));
    assert(at_most(k, n2, n1));
    lemma_taken(k, n2, n1, t2, t1);
    assert(at_most(k, v1, v2));
    assert(at_most(k, v2, o2));
}

/// How close a cell is to the middle lies between a tenth and one; it is a tenth on the border, and
/// never less on a cell that is farther from it in both directions.
proof fn lemma_inner<K: Numerics>(
    k: &K,
    grid: Grid,
    cell1: Cell,
    cell2: Cell,
    v1: K::Value,
    v2: K::Value,
)
    requires
        keeps_order(k),
        grid.width > 0,
        grid.height > 0,
        cell1.edge_x == 0 || cell1.edge_y == 0 || cell1.edge_x <= cell2.edge_x && cell1.edge_y
            <= cell2.edge_y,
        evaluates(k, inner_formula(grid, cell1), v1),
        evaluates(k, inner_formula(grid, cell2), v2),
        is_number(k, v1),
        is_number(k, v2),
    ensures
        at_most(k, v1, v2),
        cell1.edge_x == 0 || cell1.edge_y == 0 ==> is_decimal(k, 1, 1, v1),
        forall|one: K::Value| is_decimal(k, 1, 0, one) ==> at_most(k, v2, one),
{
    let tenth = Formula::<K::Value>::Decimal(1, 1);
    let one = Formula::<K::Value>::Decimal(1, 0);
    let x1 = depth_formula::<K::Value>(cell1.edge_x, grid.width);
    let y1 = depth_formula::<K::Value>(cell1.edge_y, grid.height);
    let x2 = depth_formula::<K::Value>(cell2.edge_x, grid.width);
    let y2 = depth_formula::<K::Value>(cell2.edge_y, grid.height);
    let (p1, l1, h1) = within_parts(k, x1.times(y1), tenth, one, v1);
    let (p2, l2, h2) = within_parts(k, x2.times(y2), tenth, one, v2);
    lemma_one_decimal(k, 1, 1, l1, l2);
    lemma_one_decimal(k, 1, 0, h1, h2);
    assert(at_most(k, l1, h1));
    lemma_clamped_number(k, p1, l1, h1, v1);
    lemma_clamped_number(k, p2, l1, h1, v2);
    let (a1, b1) = product_parts(k, x1, y1, p1);
    let (a2, b2) = product_parts(k, x2, y2, p2);
    if cell1.edge_x == 0 || cell1.edge_y == 0 {
        lemma_depth(k, cell1.edge_x, cell1.edge_x, grid.width, a1, a1);
        lemma_depth(k, cell1.edge_y, cell1.edge_y, grid.height, b1, b1);
        assert(vanishes(k, p1));
        lemma_below_tenth(k, p1, l1, h1, v1);
    } else {
        lemma_depth(k, cell1.edge_x, cell2.edge_x, grid.width, a1, a2);
        lemma_depth(k, cell1.edge_y, cell2.edge_y, grid.height, b1, b2);
        assert(at_most(k, p1, p2));
        lemma_clamping_keeps_order(k, p1, p2, l1, h1, v1, v2);
    }
}

/// What vanishes is kept at a positive lower end.
proof fn lemma_below_tenth<K: Numerics>(
    k: &K,
    x: K::Value,
    low: K::Value,
    high: K::Value,
    r: K::Value,
)
    requires
        keeps_order(k),
        vanishes(k, x),
        is_decimal(k, 1, 1, low),
        is_clamped(k, x, low, high, r),
    ensures
        r == low,
{
    assert(positive(k, low));
    let zero1 = choose|zero: K::Value|
        #[trigger] is_zero(k, zero) && answers_above(k, low, zero, true);
    let zero2 = choose|zero: K::Value| #[trigger] is_zero(k, zero) && at_most(k, x, zero);
    assert(is_decimal(k, 0, 0, zero1) && is_decimal(k, 0, 0, zero2));
    assert(answers_above(k, low, x, true));
    assert(compares(k, low, x, Comparison::Greater));
    assert(compares(k, x, low, Comparison::Less));
}

/// Where arithmetic keeps order, the filter damps cells on the border most, and never damps a cell
/// more that is farther from the border in both directions; it never amplifies.
pub proof fn deeper_cells_are_damped_less<K: Numerics>(
    k: &K,
    grid: Grid,
    cell1: Cell,
    cell2: Cell,
    v1: K::Value,
    v2: K::Value,
)
    requires
        keeps_order(k),
        grid.width > 0,
        grid.height > 0,
        cell1.edge_x == 0 || cell1.edge_y == 0 || cell1.edge_x <= cell2.edge_x && cell1.edge_y
            <= cell2.edge_y,
        evaluates(k, damping_formula(grid, cell1), v1),
        evaluates(k, damping_formula(grid, cell2), v2),
        is_number(k, v1),
        is_number(k, v2),
    ensures
        at_most(k, v1, v2),
        forall|one: K::Value| is_decimal(k, 1, 0, one) ==> at_most(k, v2, one),
{
    let (o1, i1, n1, t1) = lemma_damping_parts(k, grid, cell1, v1);
    let (o2, i2, n2, t2) = lemma_damping_parts(k, grid, cell2, v2);
    lemma_inner(k, grid, cell1, cell2, i1, i2);
    lemma_damping_order(k, grid, cell1, cell2, i1, i2, v1, v2);
}

/// Where arithmetic keeps order, all cells on the border of a grid are damped alike.
pub proof fn border_cells_are_damped_alike<K: Numerics>(
    k: &K,
    grid: Grid,
    cell1: Cell,
    cell2: Cell,
    v1: K::Value,
    v2: K::Value,
)
    requires
        keeps_order(k),
        grid.width > 0,
        grid.height > 0,
        cell1.edge_x == 0 || cell1.edge_y == 0,
        cell2.edge_x == 0 || cell2.edge_y == 0,
        evaluates(k, damping_formula(grid, cell1), v1),
        evaluates(k, damping_formula(grid, cell2), v2),
        is_number(k, v1),
        is_number(k, v2),
    ensures
        v1 == v2,
{
    let (o1, i1, n1, t1) = lemma_damping_parts(k, grid, cell1, v1);
    let (o2, i2, n2, t2) = lemma_damping_parts(k, grid, cell2, v2);
    lemma_inner(k, grid, cell1, cell1, i1, i1);
    lemma_inner(k, grid, cell2, cell2, i2, i2);
    assert(is_decimal(k, 1, 1, i1) && is_decimal(k, 1, 1, i2));
    assert(n1 == n2);
    formulas_have_one_value(k, taken_formula(n1), t1, t2);
}

/// The Goldstein filter multiplies a phase with a damping that does not depend on it.
pub proof fn filter_is_a_damping<K: Numerics>(
    k: &K,
    phase: K::Value,
    grid: Grid,
    cell: Cell,
    filtered: K::Value,
) -> (damping: K::Value)
    requires
        evaluates(k, goldstein_formula(phase, grid, cell), filtered),
    ensures
        evaluates(k, damping_formula(grid, cell), damping),
        is_product(k, phase, damping, filtered),
{
    let (p, d) = product_parts(k, Formula::Known(phase), damping_formula(grid, cell), filtered);
    d
}

// ── Incidence ──

/// The angle of a column in the swath never falls towards the far end.
proof fn lemma_swath<K: Numerics>(
    k: &K,
    col1: usize,
    col2: usize,
    width: usize,
    v1: K::Value,
    v2: K::Value,
)
    requires
        keeps_order(k),
        width > 0,
        col1 <= col2,
        evaluates(k, swath_formula(col1, width), v1),
        evaluates(k, swath_formula(col2, width), v2),
        is_number(k, v1),
        is_number(k, v2),
    ensures
        at_most(k, v1, v2),
{
    let half = Formula::<K::Value>::Decimal(5, 1);
    let near = Formula::<K::Value>::Decimal(291, 1);
    let far = Formula::<K::Value>::Decimal(460, 1);
    let count = Formula::<K::Value>::Count(width);
    let f1 = Formula::<K::Value>::Count(col1).plus(half);
    let f2 = Formula::<K::Value>::Count(col2).plus(half);
    let (n1, x1) = sum_parts(k, near, f1.over(count).times(far.minus(near)), v1);
    let (n2, x2) = sum_parts(k, near, f2.over(count).times(far.minus(near)), v2);
    let (q1, s1) = product_parts(k, f1.over(count), far.minus(near), x1);
    let (q2, s2) = product_parts(k, f2.over(count), far.minus(near), x2);
    let (p1, w1) = quotient_parts(k, f1, count, q1);
    let (p2, w2) = quotient_parts(k, f2, count, q2);
    let (c1, h1) = sum_parts(k, Formula::Count(col1), half, p1);
    let (c2, h2) = sum_parts(k, Formula::Count(col2), half, p2);
    let (e, d) = difference_parts(k, far, near, s1);
    formulas_have_one_value(k, far.minus(near), s1, s2);
    lemma_one_decimal(k, 291, 1, n1, n2);
    lemma_one_decimal(k, 5, 1, h1, h2);
    assert(is_count(k, width, w1) && is_count(k, width, w2));
    assert(w1 == w2);
    assert(is_count(k, col1, c1) && is_count(k, col2, c2));
    assert(is_decimal(k, 460, 1, e) && is_decimal(k, 291, 1, d));
    assert(at_most(k, d, e));
    assert(not_negative(k, s1));
    assert(at_most(k, c1, c2));
    assert(at_most(k, h1, h1)) by {
        assert(compares(k, h1, h1, Comparison::Equal));
    }
    assert(at_most(k, p1, p2));
    assert(positive(k, w1));
    assert(at_most(k, q1, q2));
    assert(at_most(k, x1, x2));
    assert(at_most(k, n1, n1)) by {
        assert(compares(k, n1, n1, Comparison::Equal));
    }
}

/// Where arithmetic keeps order, the angle of incidence never falls from the west side of a row to
/// the east side.
pub proof fn angles_never_fall_to_the_east<K: Numerics>(
    k: &K,
    bbox: Seq<K::Value>,
    grid: Grid,
    cell1: Cell,
    cell2: Cell,
    v1: K::Value,
    v2: K::Value,
)
    requires
        keeps_order(k),
        grid.width > 0,
        cell1.row == cell2.row,
        cell1.col <= cell2.col,
        evaluates(k, incidence_formula(bbox, grid, cell1), v1),
        evaluates(k, incidence_formula(bbox, grid, cell2), v2),
        is_number(k, v1),
        is_number(k, v2),
    ensures
        at_most(k, v1, v2),
{
    let circle = Formula::<K::Value>::Decimal(180, 0);
    let curvature = curvature_formula(bbox, cell1.row, grid.height);
    let f1 = swath_formula::<K::Value>(cell1.col, grid.width);
    let f2 = swath_formula::<K::Value>(cell2.col, grid.width);
    let (r1, c1) = quotient_parts(k, f1.plus(curvature).times(Formula::Pi), circle, v1);
    let (r2, c2) = quotient_parts(k, f2.plus(curvature).times(Formula::Pi), circle, v2);
    let (d1, p1) = product_parts(k, f1.plus(curvature), Formula::Pi, r1);
    let (d2, p2) = product_parts(k, f2.plus(curvature), Formula::Pi, r2);
    let (s1, t1) = sum_parts(k, f1, curvature, d1);
    let (s2, t2) = sum_parts(k, f2, curvature, d2);
    formulas_have_one_value(k, curvature, t1, t2);
    lemma_one_decimal(k, 180, 0, c1, c2);
    assert(is_pi(k, p1) && is_pi(k, p2));
    lemma_swath(k, cell1.col, cell2.col, grid.width, s1, s2);
    assert(at_most(k, t1, t1)) by {
        assert(compares(k, t1, t1, Comparison::Equal));
    }
    assert(at_most(k, d1, d2));
    assert(at_most(k, r1, r2));
}

} // verus!
