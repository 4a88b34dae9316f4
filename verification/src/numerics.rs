//! Measured values and what can be done with them.
//!
//! The processing knows values only through the operations below, and nothing is taken for
//! granted of what an operation gives: the contracts say which operations are applied to which
//! values, in which order, and where each result goes.
use vstd::prelude::*;

verus! {

/// How one value compares to another. Values that are no numbers compare to nothing.
#[derive(Clone, Copy, PartialEq, Eq, Debug)]
pub enum Comparison {
    Less,
    Equal,
    Greater,
    Unordered,
}

/// A number type and its arithmetic.
pub trait Numerics {
    type Value: Copy;

    /// The value written with `digits` and a decimal point in front of the last `places` of them.
    fn decimal(&self, digits: i64, places: u32) -> Self::Value;

    /// A number of things as a value.
    fn count(&self, n: usize) -> Self::Value;

    /// `a + b`
    fn plus(&self, a: Self::Value, b: Self::Value) -> Self::Value;

    /// `a - b`
    fn minus(&self, a: Self::Value, b: Self::Value) -> Self::Value;

    /// `a * b`
    fn times(&self, a: Self::Value, b: Self::Value) -> Self::Value;

    /// `a / b`
    fn over(&self, a: Self::Value, b: Self::Value) -> Self::Value;

    /// The ratio of a circle's circumference to its diameter.
    fn pi(&self) -> Self::Value;

    /// `-a`
    fn negative(&self, a: Self::Value) -> Self::Value;

    /// The square root of `a`.
    fn root(&self, a: Self::Value) -> Self::Value;

    /// Euler's number to the power of `a`.
    fn exponential(&self, a: Self::Value) -> Self::Value;

    /// The sine of the angle `a`, in radians.
    fn sine(&self, a: Self::Value) -> Self::Value;

    /// The cosine of the angle `a`, in radians.
    fn cosine(&self, a: Self::Value) -> Self::Value;

    /// `a` to the power of `b`.
    fn power(&self, a: Self::Value, b: Self::Value) -> Self::Value;

    /// `|a|`
    fn magnitude(&self, a: Self::Value) -> Self::Value;

    /// The larger of two values.
    fn larger(&self, a: Self::Value, b: Self::Value) -> Self::Value;

    /// How `a` compares to `b`.
    fn compare(&self, a: Self::Value, b: Self::Value) -> Comparison;
}

/// `r` can be the value of a decimal number.
pub open spec fn is_decimal<K: Numerics>(k: &K, digits: i64, places: u32, r: K::Value) -> bool {
    call_ensures(K::decimal, (k, digits, places), r)
}

/// `r` can be the value zero.
pub open spec fn is_zero<K: Numerics>(k: &K, r: K::Value) -> bool {
    is_decimal(k, 0, 0, r)
}

/// `r` can be the value of a number of things.
pub open spec fn is_count<K: Numerics>(k: &K, n: usize, r: K::Value) -> bool {
    call_ensures(K::count, (k, n), r)
}

/// `r` can be `a + b`.
pub open spec fn is_sum<K: Numerics>(k: &K, a: K::Value, b: K::Value, r: K::Value) -> bool {
    call_ensures(K::plus, (k, a, b), r)
}

/// `r` can be `a - b`.
pub open spec fn is_difference<K: Numerics>(k: &K, a: K::Value, b: K::Value, r: K::Value) -> bool {
    call_ensures(K::minus, (k, a, b), r)
}

/// `r` can be `a * b`.
pub open spec fn is_product<K: Numerics>(k: &K, a: K::Value, b: K::Value, r: K::Value) -> bool {
    call_ensures(K::times, (k, a, b), r)
}

/// `r` can be `a / b`.
pub open spec fn is_quotient<K: Numerics>(k: &K, a: K::Value, b: K::Value, r: K::Value) -> bool {
    call_ensures(K::over, (k, a, b), r)
}

/// `r` can be the ratio of a circle's circumference to its diameter.
pub open spec fn is_pi<K: Numerics>(k: &K, r: K::Value) -> bool {
    call_ensures(K::pi, (k,), r)
}

/// `r` can be `a` to the power of `b`.
pub open spec fn is_power<K: Numerics>(k: &K, a: K::Value, b: K::Value, r: K::Value) -> bool {
    call_ensures(K::power, (k, a, b), r)
}

/// `r` can be `-a`.
pub open spec fn is_negative<K: Numerics>(k: &K, a: K::Value, r: K::Value) -> bool {
    call_ensures(K::negative, (k, a), r)
}

/// `r` can be the square root of `a`.
pub open spec fn is_root<K: Numerics>(k: &K, a: K::Value, r: K::Value) -> bool {
    call_ensures(K::root, (k, a), r)
}

/// `r` can be Euler's number to the power of `a`.
pub open spec fn is_exponential<K: Numerics>(k: &K, a: K::Value, r: K::Value) -> bool {
    call_ensures(K::exponential, (k, a), r)
}

/// `r` can be the sine of `a`.
pub open spec fn is_sine<K: Numerics>(k: &K, a: K::Value, r: K::Value) -> bool {
    call_ensures(K::sine, (k, a), r)
}

/// `r` can be the cosine of `a`.
pub open spec fn is_cosine<K: Numerics>(k: &K, a: K::Value, r: K::Value) -> bool {
    call_ensures(K::cosine, (k, a), r)
}

/// `r` can be `|a|`.
pub open spec fn is_magnitude<K: Numerics>(k: &K, a: K::Value, r: K::Value) -> bool {
    call_ensures(K::magnitude, (k, a), r)
}

/// `r` can be the larger of `a` and `b`.
pub open spec fn is_larger<K: Numerics>(k: &K, a: K::Value, b: K::Value, r: K::Value) -> bool {
    call_ensures(K::larger, (k, a, b), r)
}

/// `c` can be how `a` compares to `b`.
pub open spec fn compares<K: Numerics>(k: &K, a: K::Value, b: K::Value, c: Comparison) -> bool {
    call_ensures(K::compare, (k, a, b), c)
}

/// `yes` can be the answer to `a >= b`.
pub open spec fn answers_at_least<K: Numerics>(
    k: &K,
    a: K::Value,
    b: K::Value,
    yes: bool,
) -> bool {
    exists|c: Comparison|
        #[trigger] compares(k, a, b, c) && yes == (c is Equal || c is Greater)
}

/// `yes` can be the answer to `a < b`.
pub open spec fn answers_below<K: Numerics>(k: &K, a: K::Value, b: K::Value, yes: bool) -> bool {
    exists|c: Comparison| #[trigger] compares(k, a, b, c) && yes == (c is Less)
}

/// `yes` can be the answer to `a > b`.
pub open spec fn answers_above<K: Numerics>(k: &K, a: K::Value, b: K::Value, yes: bool) -> bool {
    exists|c: Comparison| #[trigger] compares(k, a, b, c) && yes == (c is Greater)
}

/// `r` can be `x`, or the nearer end where `x` lies outside of `low` to `high`.
pub open spec fn is_clamped<K: Numerics>(
    k: &K,
    x: K::Value,
    low: K::Value,
    high: K::Value,
    r: K::Value,
) -> bool {
    ||| answers_below(k, x, low, true) && r == low
    ||| answers_below(k, x, low, false) && answers_above(k, x, high, true) && r == high
    ||| answers_below(k, x, low, false) && answers_above(k, x, high, false) && r == x
}

/// `sums` can be the sums of the first values, of none up to all of them, added one by one.
pub open spec fn are_running_sums<K: Numerics>(
    k: &K,
    values: Seq<K::Value>,
    sums: Seq<K::Value>,
) -> bool {
    &&& sums.len() == values.len() + 1
    &&& is_zero(k, sums[0])
    &&& forall|i: int|
        0 <= i < values.len() ==> is_sum(k, sums[i], #[trigger] values[i], sums[i + 1])
}

/// `m` can be the mean of some values: their sum over their number.
pub open spec fn is_mean<K: Numerics>(k: &K, values: Seq<K::Value>, m: K::Value) -> bool {
    exists|sums: Seq<K::Value>, n: K::Value|
        {
            &&& #[trigger] are_running_sums(k, values, sums)
            &&& #[trigger] is_count(k, values.len() as usize, n)
            &&& is_quotient(k, sums.last(), n, m)
        }
}

/// Whether `a >= b`.
pub fn at_least<K: Numerics>(k: &K, a: K::Value, b: K::Value) -> (yes: bool)
    ensures
        answers_at_least(k, a, b, yes),
{
    let c = k.compare(a, b);
    assert(compares(k, a, b, c));
    match c {
        Comparison::Equal => true,
        Comparison::Greater => true,
        Comparison::Less => false,
        Comparison::Unordered => false,
    }
}

/// Whether `a < b`.
pub fn below<K: Numerics>(k: &K, a: K::Value, b: K::Value) -> (yes: bool)
    ensures
        answers_below(k, a, b, yes),
{
    let c = k.compare(a, b);
    assert(compares(k, a, b, c));
    match c {
        Comparison::Less => true,
        Comparison::Equal => false,
        Comparison::Greater => false,
        Comparison::Unordered => false,
    }
}

/// Whether `a > b`.
pub fn above<K: Numerics>(k: &K, a: K::Value, b: K::Value) -> (yes: bool)
    ensures
        answers_above(k, a, b, yes),
{
    let c = k.compare(a, b);
    assert(compares(k, a, b, c));
    match c {
        Comparison::Greater => true,
        Comparison::Less => false,
        Comparison::Equal => false,
        Comparison::Unordered => false,
    }
}

/// Keeps a value within two ends.
pub fn clamp<K: Numerics>(k: &K, x: K::Value, low: K::Value, high: K::Value) -> (r: K::Value)
    ensures
        is_clamped(k, x, low, high, r),
{
    if below(k, x, low) {
        low
    } else if above(k, x, high) {
        high
    } else {
        x
    }
}

/// Where comparisons are decided and the ends are in order, a value that is kept within them is
/// below neither the one nor above the other, and stays as it is where it was so before.
pub proof fn clamped_value_lies_within<K: Numerics>(
    k: &K,
    x: K::Value,
    low: K::Value,
    high: K::Value,
    r: K::Value,
)
    requires
        is_clamped(k, x, low, high, r),
        forall|a: K::Value, b: K::Value|
            #[trigger] answers_below(k, a, b, true) != answers_below(k, a, b, false),
        forall|a: K::Value, b: K::Value|
            #[trigger] answers_above(k, a, b, true) != answers_above(k, a, b, false),
        answers_below(k, low, low, false),
        answers_above(k, low, high, false),
        answers_below(k, high, low, false),
        answers_above(k, high, high, false),
    ensures
        !answers_below(k, r, low, true),
        !answers_above(k, r, high, true),
        !answers_below(k, x, low, true) && !answers_above(k, x, high, true) ==> r == x,
{
}

/// The mean of some values.
pub fn mean<K: Numerics>(k: &K, values: &Vec<K::Value>) -> (m: K::Value)
    ensures
        is_mean(k, values@, m),
{
    let mut sum = k.decimal(0, 0);
    let ghost mut sums: Seq<K::Value> = seq![sum];
    let mut i: usize = 0;
    while i < values.len()
        invariant
            i <= values.len(),
            sums.len() == i + 1,
            sum == sums[i as int],
            is_zero(k, sums[0]),
            forall|j: int|
                0 <= j < i ==> is_sum(k, sums[j], #[trigger] values@[j], sums[j + 1]),
        decreases values.len() - i,
    {
        sum = k.plus(sum, values[i]);
        proof {
            sums = sums.push(sum);
        }
        i = i + 1;
    }
    let n = k.count(values.len());
    let m = k.over(sum, n);
    proof {
        assert(are_running_sums(k, values@, sums));
        assert(is_count(k, values@.len() as usize, n));
        assert(is_quotient(k, sums.last(), n, m));
    }
    m
}

} // verus!
