//! Arithmetic on real numbers, and what formulas come to with it.
use vstd::arithmetic::power::*;
use vstd::prelude::*;
use crate::formula::{
    cosine_part, difference_parts, evaluates, exponential_part, negative_part, product_parts,
    quotient_parts, sine_part, sum_parts, within_parts, Formula,
};
use crate::numerics::{
    above, are_running_sums, at_least, below, clamp, is_clamped, is_count, is_decimal, is_magnitude,
    is_mean, is_power, is_quotient, is_root, is_sum, mean, Comparison, Numerics,
};

verus! {

/// The real numbers that values stand for, the ratio of a circle, and the functions of analysis.
#[verifier::reject_recursive_types(V)]
pub struct Reals<V> {
    pub of: spec_fn(V) -> real,
    pub pi: real,
    pub exp: spec_fn(real) -> real,
    pub sin: spec_fn(real) -> real,
    pub cos: spec_fn(real) -> real,
    pub root: spec_fn(real) -> real,
    pub pow: spec_fn(real, real) -> real,
}

/// Whether every operation on values is the one on the real numbers that they stand for.
pub open spec fn computes_in_reals<K: Numerics>(k: &K, m: Reals<K::Value>) -> bool {
    &&& forall|d: i64, places: u32, r: K::Value| #[trigger]
        call_ensures(K::decimal, (k, d, places), r) ==> (m.of)(r) == (d as real) / (pow(
            10,
            places as nat,
        ) as real)
    &&& forall|n: usize, r: K::Value| #[trigger]
        call_ensures(K::count, (k, n), r) ==> (m.of)(r) == n as real
    &&& forall|a: K::Value, b: K::Value, r: K::Value| #[trigger]
        call_ensures(K::plus, (k, a, b), r) ==> (m.of)(r) == (m.of)(a) + (m.of)(b)
    &&& forall|a: K::Value, b: K::Value, r: K::Value| #[trigger]
        call_ensures(K::minus, (k, a, b), r) ==> (m.of)(r) == (m.of)(a) - (m.of)(b)
    &&& forall|a: K::Value, b: K::Value, r: K::Value| #[trigger]
        call_ensures(K::times, (k, a, b), r) ==> (m.of)(r) == (m.of)(a) * (m.of)(b)
    &&& forall|a: K::Value, b: K::Value, r: K::Value|
        #[trigger] call_ensures(K::over, (k, a, b), r) && (m.of)(b) != 0real ==> (m.of)(r) == (
        m.of)(a) / (m.of)(b)
    &&& forall|r: K::Value| #[trigger] call_ensures(K::pi, (k,), r) ==> (m.of)(r) == m.pi
    &&& m.pi > 0real
    &&& forall|a: K::Value, r: K::Value| #[trigger]
        call_ensures(K::negative, (k, a), r) ==> (m.of)(r) == -(m.of)(a)
    &&& forall|a: K::Value, r: K::Value| #[trigger]
        call_ensures(K::magnitude, (k, a), r) ==> (m.of)(r) == (if (m.of)(a) < 0real {
            -(m.of)(a)
        } else {
            (m.of)(a)
        })
    &&& forall|a: K::Value, b: K::Value, r: K::Value| #[trigger]
        call_ensures(K::larger, (k, a, b), r) ==> (m.of)(r) == (if (m.of)(a) < (m.of)(b) {
            (m.of)(b)
        } else {
            (m.of)(a)
        })
    &&& forall|a: K::Value, r: K::Value| #[trigger]
        call_ensures(K::exponential, (k, a), r) ==> (m.of)(r) == (m.exp)((m.of)(a))
    &&& forall|a: K::Value, r: K::Value| #[trigger]
        call_ensures(K::sine, (k, a), r) ==> (m.of)(r) == (m.sin)((m.of)(a))
    &&& forall|a: K::Value, r: K::Value| #[trigger]
        call_ensures(K::cosine, (k, a), r) ==> (m.of)(r) == (m.cos)((m.of)(a))
    &&& forall|a: K::Value, r: K::Value| #[trigger]
        call_ensures(K::root, (k, a), r) ==> (m.of)(r) == (m.root)((m.of)(a))
    &&& forall|a: K::Value, b: K::Value, r: K::Value| #[trigger]
        call_ensures(K::power, (k, a, b), r) ==> (m.of)(r) == (m.pow)((m.of)(a), (m.of)(b))
    &&& forall|a: K::Value, b: K::Value, c: Comparison| #[trigger]
        call_ensures(K::compare, (k, a, b), c) ==> c == (if (m.of)(a) < (m.of)(b) {
            Comparison::Less
        } else if (m.of)(a) == (m.of)(b) {
            Comparison::Equal
        } else {
            Comparison::Greater
        })
}

/// What a formula comes to in real numbers.
pub open spec fn meaning<V>(m: Reals<V>, f: Formula<V>) -> real
    decreases f,
{
    match f {
        Formula::Known(x) => (m.of)(x),
        Formula::Decimal(d, places) => (d as real) / (pow(10, places as nat) as real),
        Formula::Count(n) => n as real,
        Formula::Pi => m.pi,
        Formula::Plus(a, b) => meaning(m, *a) + meaning(m, *b),
        Formula::Minus(a, b) => meaning(m, *a) - meaning(m, *b),
        Formula::Times(a, b) => meaning(m, *a) * meaning(m, *b),
        Formula::Over(a, b) => meaning(m, *a) / meaning(m, *b),
        Formula::Power(a, b) => (m.pow)(meaning(m, *a), meaning(m, *b)),
        Formula::Negative(a) => -meaning(m, *a),
        Formula::Magnitude(a) => if meaning(m, *a) < 0real {
            -meaning(m, *a)
        } else {
            meaning(m, *a)
        },
        Formula::Root(a) => (m.root)(meaning(m, *a)),
        Formula::Exponential(a) => (m.exp)(meaning(m, *a)),
        Formula::Sine(a) => (m.sin)(meaning(m, *a)),
        Formula::Cosine(a) => (m.cos)(meaning(m, *a)),
        Formula::Within(a, low, high) => if meaning(m, *a) < meaning(m, *low) {
            meaning(m, *low)
        } else if meaning(m, *a) > meaning(m, *high) {
            meaning(m, *high)
        } else {
            meaning(m, *a)
        },
    }
}

/// Whether a formula divides by nothing that is zero.
pub open spec fn divides<V>(m: Reals<V>, f: Formula<V>) -> bool
    decreases f,
{
    match f {
        Formula::Known(_) => true,
        Formula::Decimal(_, _) => true,
        Formula::Count(_) => true,
        Formula::Pi => true,
        Formula::Plus(a, b) => divides(m, *a) && divides(m, *b),
        Formula::Minus(a, b) => divides(m, *a) && divides(m, *b),
        Formula::Times(a, b) => divides(m, *a) && divides(m, *b),
        Formula::Over(a, b) => divides(m, *a) && divides(m, *b) && meaning(m, *b) != 0real,
        Formula::Power(a, b) => divides(m, *a) && divides(m, *b),
        Formula::Negative(a) => divides(m, *a),
        Formula::Magnitude(a) => divides(m, *a),
        Formula::Root(a) => divides(m, *a),
        Formula::Exponential(a) => divides(m, *a),
        Formula::Sine(a) => divides(m, *a),
        Formula::Cosine(a) => divides(m, *a),
        Formula::Within(a, low, high) => divides(m, *a) && divides(m, *low) && divides(m, *high),
    }
}

/// In real numbers, what a formula is evaluated to is what it comes to.
pub proof fn values_are_what_formulas_come_to<K: Numerics>(
    k: &K,
    m: Reals<K::Value>,
    f: Formula<K::Value>,
    v: K::Value,
)
    requires
        computes_in_reals(k, m),
        divides(m, f),
        evaluates(k, f, v),
    ensures
        (m.of)(v) == meaning(m, f),
    decreases f,
{
    match f {
        Formula::Known(_) => {},
        Formula::Decimal(_, _) => {},
        Formula::Count(_) => {},
        Formula::Pi => {},
        Formula::Plus(a, b) => {
            let (x, y) = sum_parts(k, *a, *b, v);
            values_are_what_formulas_come_to(k, m, *a, x);
            values_are_what_formulas_come_to(k, m, *b, y);
        },
        Formula::Minus(a, b) => {
            let (x, y) = difference_parts(k, *a, *b, v);
            values_are_what_formulas_come_to(k, m, *a, x);
            values_are_what_formulas_come_to(k, m, *b, y);
        },
        Formula::Times(a, b) => {
            let (x, y) = product_parts(k, *a, *b, v);
            values_are_what_formulas_come_to(k, m, *a, x);
            values_are_what_formulas_come_to(k, m, *b, y);
        },
        Formula::Over(a, b) => {
            let (x, y) = quotient_parts(k, *a, *b, v);
            values_are_what_formulas_come_to(k, m, *a, x);
            values_are_what_formulas_come_to(k, m, *b, y);
        },
        Formula::Power(a, b) => {
            let (x, y) = choose|x: K::Value, y: K::Value| #[trigger]
                is_power(k, x, y, v) && evaluates(k, *a, x) && evaluates(k, *b, y);
            values_are_what_formulas_come_to(k, m, *a, x);
            values_are_what_formulas_come_to(k, m, *b, y);
        },
        Formula::Negative(a) => {
            let x = negative_part(k, *a, v);
            values_are_what_formulas_come_to(k, m, *a, x);
        },
        Formula::Magnitude(a) => {
            let x = choose|x: K::Value| #[trigger] is_magnitude(k, x, v) && evaluates(k, *a, x);
            values_are_what_formulas_come_to(k, m, *a, x);
        },
        Formula::Root(a) => {
            let x = choose|x: K::Value| #[trigger] is_root(k, x, v) && evaluates(k, *a, x);
            values_are_what_formulas_come_to(k, m, *a, x);
        },
        Formula::Exponential(a) => {
            let x = exponential_part(k, *a, v);
            values_are_what_formulas_come_to(k, m, *a, x);
        },
        Formula::Sine(a) => {
            let x = sine_part(k, *a, v);
            values_are_what_formulas_come_to(k, m, *a, x);
        },
        Formula::Cosine(a) => {
            let x = cosine_part(k, *a, v);
            values_are_what_formulas_come_to(k, m, *a, x);
        },
        Formula::Within(a, low, high) => {
            let (x, l, h) = within_parts(k, *a, *low, *high, v);
            values_are_what_formulas_come_to(k, m, *a, x);
            values_are_what_formulas_come_to(k, m, *low, l);
            values_are_what_formulas_come_to(k, m, *high, h);
            lemma_clamped(k, m, x, l, h, v);
        },
    }
}

/// In real numbers, a clamped value is the number, or the nearer end.
proof fn lemma_clamped<K: Numerics>(
    k: &K,
    m: Reals<K::Value>,
    x: K::Value,
    low: K::Value,
    high: K::Value,
    r: K::Value,
)
    requires
        computes_in_reals(k, m),
        is_clamped(k, x, low, high, r),
    ensures
        (m.of)(x) < (m.of)(low) ==> r == low,
        (m.of)(x) >= (m.of)(low) && (m.of)(x) > (m.of)(high) ==> r == high,
        (m.of)(x) >= (m.of)(low) && (m.of)(x) <= (m.of)(high) ==> r == x,
{
}

/// The powers of ten behind a few decimal places.
pub proof fn tens()
    ensures
        pow(10, 0) == 1,
        pow(10, 1) == 10,
        pow(10, 2) == 100,
        pow(10, 3) == 1000,
        pow(10, 4) == 10000,
        pow(10, 5) == 100000,
{
    reveal(pow);
    reveal_with_fuel(pow, 7);
}

/// In real numbers, the answer to a question is the true one, and a value that is kept within two
/// ends is the number itself or the nearer end.
pub proof fn questions_are_answered_truly<K: Numerics>(
    k: &K,
    m: Reals<K::Value>,
    a: K::Value,
    b: K::Value,
    c: K::Value,
    at_least_b: bool,
    below_b: bool,
    above_b: bool,
    clamped: K::Value,
)
    requires
        computes_in_reals(k, m),
        call_ensures(at_least::<K>, (k, a, b), at_least_b),
        call_ensures(below::<K>, (k, a, b), below_b),
        call_ensures(above::<K>, (k, a, b), above_b),
        call_ensures(clamp::<K>, (k, a, b, c), clamped),
    ensures
        at_least_b <==> (m.of)(a) >= (m.of)(b),
        below_b <==> (m.of)(a) < (m.of)(b),
        above_b <==> (m.of)(a) > (m.of)(b),
        (m.of)(a) < (m.of)(b) ==> (m.of)(clamped) == (m.of)(b),
        (m.of)(b) <= (m.of)(a) <= (m.of)(c) ==> (m.of)(clamped) == (m.of)(a),
        (m.of)(b) <= (m.of)(a) && (m.of)(a) > (m.of)(c) ==> (m.of)(clamped) == (m.of)(c),
{
    lemma_clamped(k, m, a, b, c, clamped);
}

/// The sum of some numbers.
pub open spec fn sum(s: Seq<real>) -> real {
    s.fold_left(0real, |a: real, b: real| a + b)
}

/// A number behind others is added to their sum.
pub proof fn sum_grows(s: Seq<real>, x: real)
    ensures
        sum(Seq::<real>::empty()) == 0real,
        sum(s.push(x)) == sum(s) + x,
{
    reveal_with_fuel(Seq::fold_left, 2);
    assert(s.push(x).drop_last() =~= s);
}

/// The numbers that some values stand for.
pub open spec fn numbers<V>(m: Reals<V>, values: Seq<V>) -> Seq<real> {
    values.map_values(|v: V| (m.of)(v))
}

/// In real numbers, the last running sum is the sum.
proof fn lemma_running_sum<K: Numerics>(
    k: &K,
    m: Reals<K::Value>,
    values: Seq<K::Value>,
    sums: Seq<K::Value>,
    n: int,
)
    requires
        computes_in_reals(k, m),
        are_running_sums(k, values, sums),
        0 <= n <= values.len(),
    ensures
        (m.of)(sums[n]) == sum(numbers(m, values).take(n)),
    decreases n,
{
    tens();
    let all = numbers(m, values);
    if n == 0 {
        assert(is_decimal(k, 0, 0, sums[0]));
        assert((m.of)(sums[0]) == 0real / 1real);
        assert(all.take(0) =~= Seq::<real>::empty());
        sum_grows(Seq::empty(), 0real);
    } else {
        lemma_running_sum(k, m, values, sums, n - 1);
        assert(is_sum(k, sums[n - 1], values[n - 1], sums[n]));
        assert(all.take(n) =~= all.take(n - 1).push(all[n - 1]));
        sum_grows(all.take(n - 1), all[n - 1]);
    }
}

/// In real numbers, a possible mean is the sum over the number.
pub proof fn possible_mean_is_sum_over_number<K: Numerics>(
    k: &K,
    m: Reals<K::Value>,
    values: Seq<K::Value>,
    v: K::Value,
)
    requires
        computes_in_reals(k, m),
        0 < values.len() <= usize::MAX,
        is_mean(k, values, v),
    ensures
        (m.of)(v) == sum(numbers(m, values)) / (values.len() as real),
{
    let (sums, n) = choose|sums: Seq<K::Value>, n: K::Value|
        {
            &&& #[trigger] are_running_sums(k, values, sums)
            &&& #[trigger] is_count(k, values.len() as usize, n)
            &&& is_quotient(k, sums.last(), n, v)
        };
    lemma_running_sum(k, m, values, sums, values.len() as int);
    assert(numbers(m, values).take(values.len() as int) =~= numbers(m, values));
    assert((m.of)(n) == values.len() as real);
}

/// In real numbers, a mean is the sum of all the numbers over how many they are.
pub proof fn mean_is_sum_over_number<K: Numerics>(
    k: &K,
    m: Reals<K::Value>,
    values: &Vec<K::Value>,
    v: K::Value,
)
    requires
        computes_in_reals(k, m),
        values.len() > 0,
        call_ensures(mean::<K>, (k, values), v),
    ensures
        (m.of)(v) * (values.len() as real) == values@.map_values(
            |x: K::Value| (m.of)(x),
        ).fold_left(0real, |a: real, b: real| a + b),
{
    possible_mean_is_sum_over_number(k, m, values@, v);
    let (x, s, n) = ((m.of)(v), sum(numbers(m, values@)), values.len() as real);
    assert(x * n == s) by (nonlinear_arith)
        requires
            x == s / n,
            n > 0real,
    ;
    assert(numbers(m, values@) =~= values@.map_values(|x: K::Value| (m.of)(x)));
}

// ── Any arithmetic ──

/// With any arithmetic, questions about two values that have no order are answered with no, and a
/// value without an order is kept as it is.
pub proof fn values_without_an_order_are_kept<K: Numerics>(
    k: &K,
    a: K::Value,
    b: K::Value,
    c: K::Value,
    at_least_b: bool,
    below_b: bool,
    above_b: bool,
    clamped: K::Value,
)
    requires
        forall|o: Comparison|
            #[trigger] call_ensures(K::compare, (k, a, b), o) ==> o == Comparison::Unordered,
        forall|o: Comparison|
            #[trigger] call_ensures(K::compare, (k, a, c), o) ==> o == Comparison::Unordered,
        call_ensures(at_least::<K>, (k, a, b), at_least_b),
        call_ensures(below::<K>, (k, a, b), below_b),
        call_ensures(above::<K>, (k, a, b), above_b),
        call_ensures(clamp::<K>, (k, a, b, c), clamped),
    ensures
        !at_least_b,
        !below_b,
        !above_b,
        clamped == a,
{
}

/// With any arithmetic, a mean is the quotient of the sum, made by adding every value to zero, one
/// after the other, and of the number of values.
pub proof fn means_are_quotients<K: Numerics>(k: &K, values: &Vec<K::Value>, v: K::Value) -> (sums:
    Seq<K::Value>)
    requires
        call_ensures(mean::<K>, (k, values), v),
    ensures
        sums.len() == values@.len() + 1,
        call_ensures(K::decimal, (k, 0i64, 0u32), sums[0]),
        forall|i: int|
            0 <= i < values@.len() ==> call_ensures(
                K::plus,
                (k, sums[i], #[trigger] values@[i]),
                sums[i + 1],
            ),
        exists|n: K::Value|
            call_ensures(K::count, (k, values@.len() as usize), n) && #[trigger] call_ensures(
                K::over,
                (k, sums.last(), n),
                v,
            ),
{
    let (sums, n) = choose|sums: Seq<K::Value>, n: K::Value|
        {
            &&& #[trigger] are_running_sums(k, values@, sums)
            &&& #[trigger] is_count(k, values@.len() as usize, n)
            &&& is_quotient(k, sums.last(), n, v)
        };
    assert(call_ensures(K::over, (k, sums.last(), n), v));
    assert forall|i: int| 0 <= i < values@.len() implies call_ensures(
        K::plus,
        (k, sums[i], #[trigger] values@[i]),
        sums[i + 1],
    ) by {
        assert(is_sum(k, sums[i], values@[i], sums[i + 1]));
    }
    sums
}

} // verus!
