//! One request, one answer: where the arithmetic gives one result, so does the processing.
//!
//! The contracts say of a value that it can be what some operations give. The laws below say that
//! this leaves no choice: wherever each operation has one result, each contract admits one result.
use vstd::prelude::*;
use crate::atmosphere::{
    adds_to_rate, are_mean_rates, are_rate_totals, are_residuals, column, covers, differ_in_noise,
    is_corrected, is_mean_rate, is_screened, is_smoothed, is_smoothed_value, is_weighted_rate,
    noise_enters_no_rate, picked, stacks_differ_in_noise,
};
use crate::calendar::baseline_days;
use crate::formula::{evaluates, Formula};
use crate::grid::{every_number_has_one_cell, is_window, window_is_unique, Cell, Grid};
use crate::insar::{
    are_centers, are_incidence_angles, are_interferograms, are_referred, describes,
    interferograms_fill_the_grid, is_cleaned, is_coherence, is_displacement, is_filtered_phase,
    is_interferogram, is_made_from, is_processed, is_threshold, is_time_series, processed_grid,
    result_does_not_depend_on_excess, result_does_not_depend_on_listing_order, same_choices,
    ProcessResult, ProcessingParams, SCENES_FOR_CORRECTION,
};
use crate::numerics::{
    answers_above, answers_at_least, answers_below, are_running_sums, compares, is_clamped,
    is_cosine, is_count, is_decimal, is_difference, is_exponential, is_larger, is_magnitude,
    is_mean, is_negative, is_pi, is_power, is_product, is_quotient, is_root, is_sine, is_sum,
    is_zero, Comparison, Numerics,
};
use crate::scenes::{
    chronological_order_is_unique, dated, dates_differ, is_chronological, sorting_keeps_the_scenes,
    SceneText, StacFeature,
};
use crate::series::{
    accumulates, are_mean_coherences, are_running_bests, are_running_tops, is_gated,
    is_max_subsidence, is_reference, is_referred, is_series, is_yearly_rate, raises,
    takes_into_account, DisplacementFrame,
};
use crate::signal::{
    atmosphere_formula, center_formula, coherence_formula, deformation_formula, goldstein_formula,
    incidence_formula, multilook_coherence_formula, multilook_formula, vertical_formula,
};

verus! {

/// Whether every operation has one result.
pub open spec fn single_valued<K: Numerics>(k: &K) -> bool {
    &&& forall|digits: i64, places: u32, r: K::Value, s: K::Value| #[trigger]
        is_decimal(k, digits, places, r) && #[trigger] is_decimal(k, digits, places, s) ==> r == s
    &&& forall|n: usize, r: K::Value, s: K::Value| #[trigger]
        is_count(k, n, r) && #[trigger] is_count(k, n, s) ==> r == s
    &&& forall|r: K::Value, s: K::Value| #[trigger]
        is_pi(k, r) && #[trigger] is_pi(k, s) ==> r == s
    &&& forall|a: K::Value, b: K::Value, r: K::Value, s: K::Value| #[trigger]
        is_sum(k, a, b, r) && #[trigger] is_sum(k, a, b, s) ==> r == s
    &&& forall|a: K::Value, b: K::Value, r: K::Value, s: K::Value| #[trigger]
        is_difference(k, a, b, r) && #[trigger] is_difference(k, a, b, s) ==> r == s
    &&& forall|a: K::Value, b: K::Value, r: K::Value, s: K::Value| #[trigger]
        is_product(k, a, b, r) && #[trigger] is_product(k, a, b, s) ==> r == s
    &&& forall|a: K::Value, b: K::Value, r: K::Value, s: K::Value| #[trigger]
        is_quotient(k, a, b, r) && #[trigger] is_quotient(k, a, b, s) ==> r == s
    &&& forall|a: K::Value, b: K::Value, r: K::Value, s: K::Value| #[trigger]
        is_power(k, a, b, r) && #[trigger] is_power(k, a, b, s) ==> r == s
    &&& forall|a: K::Value, b: K::Value, r: K::Value, s: K::Value| #[trigger]
        is_larger(k, a, b, r) && #[trigger] is_larger(k, a, b, s) ==> r == s
    &&& forall|a: K::Value, r: K::Value, s: K::Value| #[trigger]
        is_negative(k, a, r) && #[trigger] is_negative(k, a, s) ==> r == s
    &&& forall|a: K::Value, r: K::Value, s: K::Value| #[trigger]
        is_magnitude(k, a, r) && #[trigger] is_magnitude(k, a, s) ==> r == s
    &&& forall|a: K::Value, r: K::Value, s: K::Value| #[trigger]
        is_root(k, a, r) && #[trigger] is_root(k, a, s) ==> r == s
    &&& forall|a: K::Value, r: K::Value, s: K::Value| #[trigger]
        is_exponential(k, a, r) && #[trigger] is_exponential(k, a, s) ==> r == s
    &&& forall|a: K::Value, r: K::Value, s: K::Value| #[trigger]
        is_sine(k, a, r) && #[trigger] is_sine(k, a, s) ==> r == s
    &&& forall|a: K::Value, r: K::Value, s: K::Value| #[trigger]
        is_cosine(k, a, r) && #[trigger] is_cosine(k, a, s) ==> r == s
    &&& forall|a: K::Value, b: K::Value, c: Comparison, d: Comparison| #[trigger]
        compares(k, a, b, c) && #[trigger] compares(k, a, b, d) ==> c == d
}

// ── Values ──

/// Where every operation has one result, so has every question.
pub proof fn questions_have_one_answer<K: Numerics>(k: &K, a: K::Value, b: K::Value)
    requires
        single_valued(k),
    ensures
        !(answers_at_least(k, a, b, true) && answers_at_least(k, a, b, false)),
        !(answers_below(k, a, b, true) && answers_below(k, a, b, false)),
        !(answers_above(k, a, b, true) && answers_above(k, a, b, false)),
{
}

/// Where every operation has one result, a value is kept within two ends in one way.
pub proof fn clamping_has_one_result<K: Numerics>(
    k: &K,
    x: K::Value,
    low: K::Value,
    high: K::Value,
    r: K::Value,
    s: K::Value,
)
    requires
        single_valued(k),
        is_clamped(k, x, low, high, r),
        is_clamped(k, x, low, high, s),
    ensures
        r == s,
{
    questions_have_one_answer(k, x, low);
    questions_have_one_answer(k, x, high);
}

/// Where every operation has one result, so has every formula.
pub proof fn formulas_have_one_value<K: Numerics>(
    k: &K,
    formula: Formula<K::Value>,
    v: K::Value,
    w: K::Value,
)
    requires
        single_valued(k),
        evaluates(k, formula, v),
        evaluates(k, formula, w),
    ensures
        v == w,
    decreases formula,
{
    match formula {
        Formula::Known(_) => {},
        Formula::Decimal(_, _) => {},
        Formula::Count(_) => {},
        Formula::Pi => {},
        Formula::Plus(a, b) => {
            let (x, y) = choose|x: K::Value, y: K::Value| #[trigger]
                is_sum(k, x, y, v) && evaluates(k, *a, x) && evaluates(k, *b, y);
            let (x2, y2) = choose|x: K::Value, y: K::Value| #[trigger]
                is_sum(k, x, y, w) && evaluates(k, *a, x) && evaluates(k, *b, y);
            formulas_have_one_value(k, *a, x, x2);
            formulas_have_one_value(k, *b, y, y2);
        },
        Formula::Minus(a, b) => {
            let (x, y) = choose|x: K::Value, y: K::Value| #[trigger]
                is_difference(k, x, y, v) && evaluates(k, *a, x) && evaluates(k, *b, y);
            let (x2, y2) = choose|x: K::Value, y: K::Value| #[trigger]
                is_difference(k, x, y, w) && evaluates(k, *a, x) && evaluates(k, *b, y);
            formulas_have_one_value(k, *a, x, x2);
            formulas_have_one_value(k, *b, y, y2);
        },
        Formula::Times(a, b) => {
            let (x, y) = choose|x: K::Value, y: K::Value| #[trigger]
                is_product(k, x, y, v) && evaluates(k, *a, x) && evaluates(k, *b, y);
            let (x2, y2) = choose|x: K::Value, y: K::Value| #[trigger]
                is_product(k, x, y, w) && evaluates(k, *a, x) && evaluates(k, *b, y);
            formulas_have_one_value(k, *a, x, x2);
            formulas_have_one_value(k, *b, y, y2);
        },
        Formula::Over(a, b) => {
            let (x, y) = choose|x: K::Value, y: K::Value| #[trigger]
                is_quotient(k, x, y, v) && evaluates(k, *a, x) && evaluates(k, *b, y);
            let (x2, y2) = choose|x: K::Value, y: K::Value| #[trigger]
                is_quotient(k, x, y, w) && evaluates(k, *a, x) && evaluates(k, *b, y);
            formulas_have_one_value(k, *a, x, x2);
            formulas_have_one_value(k, *b, y, y2);
        },
        Formula::Power(a, b) => {
            let (x, y) = choose|x: K::Value, y: K::Value| #[trigger]
                is_power(k, x, y, v) && evaluates(k, *a, x) && evaluates(k, *b, y);
            let (x2, y2) = choose|x: K::Value, y: K::Value| #[trigger]
                is_power(k, x, y, w) && evaluates(k, *a, x) && evaluates(k, *b, y);
            formulas_have_one_value(k, *a, x, x2);
            formulas_have_one_value(k, *b, y, y2);
        },
        Formula::Negative(a) => {
            let x = choose|x: K::Value| #[trigger] is_negative(k, x, v) && evaluates(k, *a, x);
            let x2 = choose|x: K::Value| #[trigger] is_negative(k, x, w) && evaluates(k, *a, x);
            formulas_have_one_value(k, *a, x, x2);
        },
        Formula::Magnitude(a) => {
            let x = choose|x: K::Value| #[trigger] is_magnitude(k, x, v) && evaluates(k, *a, x);
            let x2 = choose|x: K::Value| #[trigger] is_magnitude(k, x, w) && evaluates(k, *a, x);
            formulas_have_one_value(k, *a, x, x2);
        },
        Formula::Root(a) => {
            let x = choose|x: K::Value| #[trigger] is_root(k, x, v) && evaluates(k, *a, x);
            let x2 = choose|x: K::Value| #[trigger] is_root(k, x, w) && evaluates(k, *a, x);
            formulas_have_one_value(k, *a, x, x2);
        },
        Formula::Exponential(a) => {
            let x = choose|x: K::Value| #[trigger] is_exponential(k, x, v) && evaluates(k, *a, x);
            let x2 = choose|x: K::Value| #[trigger] is_exponential(k, x, w) && evaluates(k, *a, x);
            formulas_have_one_value(k, *a, x, x2);
        },
        Formula::Sine(a) => {
            let x = choose|x: K::Value| #[trigger] is_sine(k, x, v) && evaluates(k, *a, x);
            let x2 = choose|x: K::Value| #[trigger] is_sine(k, x, w) && evaluates(k, *a, x);
            formulas_have_one_value(k, *a, x, x2);
        },
        Formula::Cosine(a) => {
            let x = choose|x: K::Value| #[trigger] is_cosine(k, x, v) && evaluates(k, *a, x);
            let x2 = choose|x: K::Value| #[trigger] is_cosine(k, x, w) && evaluates(k, *a, x);
            formulas_have_one_value(k, *a, x, x2);
        },
        Formula::Within(a, low, high) => {
            let (x, l, h) = choose|x: K::Value, l: K::Value, h: K::Value| #[trigger]
                is_clamped(k, x, l, h, v) && evaluates(k, *a, x) && evaluates(k, *low, l)
                    && evaluates(k, *high, h);
            let (x2, l2, h2) = choose|x: K::Value, l: K::Value, h: K::Value| #[trigger]
                is_clamped(k, x, l, h, w) && evaluates(k, *a, x) && evaluates(k, *low, l)
                    && evaluates(k, *high, h);
            formulas_have_one_value(k, *a, x, x2);
            formulas_have_one_value(k, *low, l, l2);
            formulas_have_one_value(k, *high, h, h2);
            clamping_has_one_result(k, x, l, h, v, w);
        },
    }
}

/// Running sums of the same values are the same.
proof fn lemma_one_sum<K: Numerics>(
    k: &K,
    values: Seq<K::Value>,
    sums1: Seq<K::Value>,
    sums2: Seq<K::Value>,
    n: int,
)
    requires
        single_valued(k),
        are_running_sums(k, values, sums1),
        are_running_sums(k, values, sums2),
        0 <= n <= values.len(),
    ensures
        sums1[n] == sums2[n],
    decreases n,
{
    if n > 0 {
        lemma_one_sum(k, values, sums1, sums2, n - 1);
        assert(is_sum(k, sums1[n - 1], values[n - 1], sums1[n]));
        assert(is_sum(k, sums2[n - 1], values[n - 1], sums2[n]));
    } else {
        assert(is_decimal(k, 0, 0, sums1[0]) && is_decimal(k, 0, 0, sums2[0]));
    }
}

/// Where every operation has one result, some values have one mean.
pub proof fn values_have_one_mean<K: Numerics>(
    k: &K,
    values: Seq<K::Value>,
    m1: K::Value,
    m2: K::Value,
)
    requires
        single_valued(k),
        is_mean(k, values, m1),
        is_mean(k, values, m2),
    ensures
        m1 == m2,
{
    let (sums1, n1) = choose|sums: Seq<K::Value>, n: K::Value|
        {
            &&& #[trigger] are_running_sums(k, values, sums)
            &&& #[trigger] is_count(k, values.len() as usize, n)
            &&& is_quotient(k, sums.last(), n, m1)
        };
    let (sums2, n2) = choose|sums: Seq<K::Value>, n: K::Value|
        {
            &&& #[trigger] are_running_sums(k, values, sums)
            &&& #[trigger] is_count(k, values.len() as usize, n)
            &&& is_quotient(k, sums.last(), n, m2)
        };
    lemma_one_sum(k, values, sums1, sums2, values.len() as int);
}

// ── Stacks ──

/// Whether two stacks hold the same values.
pub open spec fn same_stacks<V>(a: Seq<Vec<V>>, b: Seq<Vec<V>>) -> bool {
    &&& a.len() == b.len()
    &&& forall|p: int|
        #![trigger a[p]]
        #![trigger b[p]]
        0 <= p < a.len() ==> a[p]@ == b[p]@
}

/// The values of a cell are the same in stacks that hold the same values.
proof fn lemma_same_columns<V>(a: Seq<Vec<V>>, b: Seq<Vec<V>>, pairs: nat, cell: int)
    requires
        same_stacks(a, b),
        pairs <= a.len(),
    ensures
        column(a, pairs, cell) == column(b, pairs, cell),
{
    assert forall|p: int| 0 <= p < pairs implies column(a, pairs, cell)[p] == column(
        b,
        pairs,
        cell,
    )[p] by {
        assert(a[p]@ == b[p]@);
    }
    assert(column(a, pairs, cell) =~= column(b, pairs, cell));
}

/// One pair has one share in a mean rate.
proof fn lemma_one_share<K: Numerics>(
    k: &K,
    min_coherence: K::Value,
    displacement: K::Value,
    coherence: K::Value,
    before: (K::Value, K::Value),
    after1: (K::Value, K::Value),
    after2: (K::Value, K::Value),
)
    requires
        single_valued(k),
        adds_to_rate(k, min_coherence, displacement, coherence, before, after1),
        adds_to_rate(k, min_coherence, displacement, coherence, before, after2),
    ensures
        after1 == after2,
{
    questions_have_one_answer(k, coherence, min_coherence);
}

/// The totals of the same pairs are the same.
proof fn lemma_one_total<K: Numerics>(
    k: &K,
    min_coherence: K::Value,
    displacements: Seq<K::Value>,
    coherences: Seq<K::Value>,
    totals1: Seq<(K::Value, K::Value)>,
    totals2: Seq<(K::Value, K::Value)>,
    n: int,
)
    requires
        single_valued(k),
        are_rate_totals(k, min_coherence, displacements, coherences, totals1),
        are_rate_totals(k, min_coherence, displacements, coherences, totals2),
        0 <= n <= displacements.len(),
    ensures
        totals1[n] == totals2[n],
    decreases n,
{
    if n > 0 {
        lemma_one_total(k, min_coherence, displacements, coherences, totals1, totals2, n - 1);
        lemma_one_share(
            k,
            min_coherence,
            displacements[n - 1],
            coherences[n - 1],
            totals1[n - 1],
            totals1[n],
            totals2[n],
        );
    } else {
        assert(is_decimal(k, 0, 0, totals1[0].0) && is_decimal(k, 0, 0, totals2[0].0));
        assert(is_decimal(k, 0, 0, totals1[0].1) && is_decimal(k, 0, 0, totals2[0].1));
    }
}

/// Where every operation has one result, a cell has one mean rate.
pub proof fn cells_have_one_rate<K: Numerics>(
    k: &K,
    min_coherence: K::Value,
    displacements: Seq<K::Value>,
    coherences: Seq<K::Value>,
    rate1: K::Value,
    rate2: K::Value,
)
    requires
        single_valued(k),
        is_mean_rate(k, min_coherence, displacements, coherences, rate1),
        is_mean_rate(k, min_coherence, displacements, coherences, rate2),
    ensures
        rate1 == rate2,
{
    let totals1 = choose|totals: Seq<(K::Value, K::Value)>|
        #[trigger] are_rate_totals(k, min_coherence, displacements, coherences, totals)
            && is_weighted_rate(k, totals.last(), rate1);
    let totals2 = choose|totals: Seq<(K::Value, K::Value)>|
        #[trigger] are_rate_totals(k, min_coherence, displacements, coherences, totals)
            && is_weighted_rate(k, totals.last(), rate2);
    let n = displacements.len() as int;
    lemma_one_total(k, min_coherence, displacements, coherences, totals1, totals2, n);
    lemma_one_weighted_rate(k, totals1.last(), rate1, rate2);
}

/// A weighted sum has one rate.
proof fn lemma_one_weighted_rate<K: Numerics>(
    k: &K,
    total: (K::Value, K::Value),
    rate1: K::Value,
    rate2: K::Value,
)
    requires
        single_valued(k),
        is_weighted_rate(k, total, rate1),
        is_weighted_rate(k, total, rate2),
    ensures
        rate1 == rate2,
{
    let zero1 = choose|zero: K::Value|
        #[trigger] is_zero(k, zero) && {
            ||| answers_above(k, total.1, zero, true) && is_quotient(k, total.0, total.1, rate1)
            ||| answers_above(k, total.1, zero, false) && rate1 == total.0
        };
    let zero2 = choose|zero: K::Value|
        #[trigger] is_zero(k, zero) && {
            ||| answers_above(k, total.1, zero, true) && is_quotient(k, total.0, total.1, rate2)
            ||| answers_above(k, total.1, zero, false) && rate2 == total.0
        };
    assert(is_decimal(k, 0, 0, zero1) && is_decimal(k, 0, 0, zero2));
    questions_have_one_answer(k, total.1, zero1);
}

/// Where every operation has one result, a grid is smoothed in one way.
pub proof fn grids_are_smoothed_in_one_way<K: Numerics>(
    k: &K,
    data: Seq<K::Value>,
    side: int,
    smoothed1: Seq<K::Value>,
    smoothed2: Seq<K::Value>,
)
    requires
        single_valued(k),
        is_smoothed(k, data, side, smoothed1),
        is_smoothed(k, data, side, smoothed2),
    ensures
        smoothed1 == smoothed2,
{
    assert forall|i: int| 0 <= i < data.len() implies smoothed1[i] == smoothed2[i] by {
        assert(is_smoothed_value(k, data, side, i, smoothed1[i]));
        assert(is_smoothed_value(k, data, side, i, smoothed2[i]));
        if i < side * side {
            let window1 = choose|window: Seq<usize>|
                #[trigger] is_window(side, data.len() as int, i, window) && is_mean(
                    k,
                    picked(data, window),
                    smoothed1[i],
                );
            let window2 = choose|window: Seq<usize>|
                #[trigger] is_window(side, data.len() as int, i, window) && is_mean(
                    k,
                    picked(data, window),
                    smoothed2[i],
                );
            window_is_unique(side, data.len() as int, i, window1, window2);
            values_have_one_mean(k, picked(data, window1), smoothed1[i], smoothed2[i]);
        } else {
            assert(is_decimal(k, 0, 0, smoothed1[i]) && is_decimal(k, 0, 0, smoothed2[i]));
        }
    }
    assert(smoothed1 =~= smoothed2);
}

/// A number has one square root, rounded down.
proof fn lemma_one_side(n: int, side1: int, side2: int)
    requires
        0 <= side1,
        0 <= side2,
        side1 * side1 <= n < (side1 + 1) * (side1 + 1),
        side2 * side2 <= n < (side2 + 1) * (side2 + 1),
    ensures
        side1 == side2,
{
    if side1 < side2 {
        assert((side1 + 1) * (side1 + 1) <= side2 * side2) by (nonlinear_arith)
            requires
                0 <= side1 < side2,
        ;
    } else if side2 < side1 {
        assert((side2 + 1) * (side2 + 1) <= side1 * side1) by (nonlinear_arith)
            requires
                0 <= side2 < side1,
        ;
    }
}

/// Where every operation has one result, a pair has one atmospheric phase screen.
pub proof fn pairs_have_one_screen<K: Numerics>(
    k: &K,
    displacement: Seq<K::Value>,
    rates: Seq<K::Value>,
    corrected1: Seq<K::Value>,
    corrected2: Seq<K::Value>,
)
    requires
        single_valued(k),
        displacement.len() >= rates.len(),
        is_screened(k, displacement, rates, corrected1),
        is_screened(k, displacement, rates, corrected2),
    ensures
        corrected1 == corrected2,
{
    let (residuals1, side1, screen1) = choose|
        residuals: Seq<K::Value>,
        side: int,
        screen: Seq<K::Value>,
    |
        {
            &&& #[trigger] are_residuals(k, displacement, rates, residuals)
            &&& 0 <= side
            &&& side * side <= rates.len() < (side + 1) * (side + 1)
            &&& #[trigger] is_smoothed(k, residuals, side, screen)
            &&& forall|i: int|
                0 <= i < rates.len() ==> is_difference(
                    k,
                    displacement[i],
                    screen[i],
                    #[trigger] corrected1[i],
                )
        };
    let (residuals2, side2, screen2) = choose|
        residuals: Seq<K::Value>,
        side: int,
        screen: Seq<K::Value>,
    |
        {
            &&& #[trigger] are_residuals(k, displacement, rates, residuals)
            &&& 0 <= side
            &&& side * side <= rates.len() < (side + 1) * (side + 1)
            &&& #[trigger] is_smoothed(k, residuals, side, screen)
            &&& forall|i: int|
                0 <= i < rates.len() ==> is_difference(
                    k,
                    displacement[i],
                    screen[i],
                    #[trigger] corrected2[i],
                )
        };
    assert(residuals1 =~= residuals2) by {
        assert forall|i: int| 0 <= i < rates.len() implies residuals1[i] == residuals2[i] by {
            assert(is_difference(k, displacement[i], rates[i], residuals1[i]));
            assert(is_difference(k, displacement[i], rates[i], residuals2[i]));
        }
    }
    lemma_one_side(rates.len() as int, side1, side2);
    grids_are_smoothed_in_one_way(k, residuals1, side1, screen1, screen2);
    assert forall|i: int| 0 <= i < displacement.len() implies corrected1[i] == corrected2[i] by {
        if i < rates.len() {
            assert(is_difference(k, displacement[i], screen1[i], corrected1[i]));
            assert(is_difference(k, displacement[i], screen2[i], corrected2[i]));
        }
    }
    assert(corrected1 =~= corrected2);
}

/// Where every operation has one result, the atmosphere is removed from a stack in one way.
pub proof fn stacks_are_corrected_in_one_way<K: Numerics>(
    k: &K,
    min_coherence: K::Value,
    displacements1: Seq<Vec<K::Value>>,
    coherences1: Seq<Vec<K::Value>>,
    corrected1: Seq<Vec<K::Value>>,
    displacements2: Seq<Vec<K::Value>>,
    coherences2: Seq<Vec<K::Value>>,
    corrected2: Seq<Vec<K::Value>>,
)
    requires
        single_valued(k),
        same_stacks(displacements1, displacements2),
        same_stacks(coherences1, coherences2),
        coherences1.len() >= displacements1.len(),
        covers(displacements1, displacements1.len(), displacements1[0].len() as int),
        is_corrected(k, min_coherence, displacements1, coherences1, corrected1),
        is_corrected(k, min_coherence, displacements2, coherences2, corrected2),
    ensures
        same_stacks(corrected1, corrected2),
{
    let pairs = displacements1.len();
    if pairs > 0 {
        let n = displacements1[0].len() as int;
        assert(displacements2[0]@ == displacements1[0]@);
        let rates1 = choose|rates: Seq<K::Value>|
            {
                &&& #[trigger] are_mean_rates(
                    k,
                    min_coherence,
                    displacements1,
                    coherences1,
                    displacements1[0].len() as int,
                    rates,
                )
                &&& forall|p: int|
                    0 <= p < displacements1.len() ==> is_screened(
                        k,
                        displacements1[p]@,
                        rates,
                        (#[trigger] corrected1[p])@,
                    )
            };
        let rates2 = choose|rates: Seq<K::Value>|
            {
                &&& #[trigger] are_mean_rates(
                    k,
                    min_coherence,
                    displacements2,
                    coherences2,
                    displacements2[0].len() as int,
                    rates,
                )
                &&& forall|p: int|
                    0 <= p < displacements2.len() ==> is_screened(
                        k,
                        displacements2[p]@,
                        rates,
                        (#[trigger] corrected2[p])@,
                    )
            };
        assert forall|i: int| 0 <= i < n implies rates1[i] == rates2[i] by {
            lemma_same_columns(displacements1, displacements2, pairs, i);
            lemma_same_columns(coherences1, coherences2, pairs, i);
            cells_have_one_rate(
                k,
                min_coherence,
                column(displacements1, pairs, i),
                column(coherences1, pairs, i),
                rates1[i],
                rates2[i],
            );
        }
        assert(rates1 =~= rates2);
        assert forall|p: int|
            #![trigger corrected1[p]]
            #![trigger corrected2[p]]
            0 <= p < corrected1.len() implies corrected1[p]@ == corrected2[p]@ by {
            assert(displacements1[p]@ == displacements2[p]@);
            assert(displacements1[p].len() >= n);
            assert(is_screened(k, displacements1[p]@, rates1, corrected1[p]@));
            assert(is_screened(k, displacements2[p]@, rates2, corrected2[p]@));
            pairs_have_one_screen(
                k,
                displacements1[p]@,
                rates1,
                corrected1[p]@,
                corrected2[p]@,
            );
        }
    }
}

/// Where every operation has one result, a cell's mean rate does not depend on what it shows in
/// pairs that are not coherent there.
pub proof fn noise_does_not_change_the_rate<K: Numerics>(
    k: &K,
    min_coherence: K::Value,
    displacements1: Seq<K::Value>,
    displacements2: Seq<K::Value>,
    coherences: Seq<K::Value>,
    rate1: K::Value,
    rate2: K::Value,
)
    requires
        single_valued(k),
        differ_in_noise(k, min_coherence, displacements1, displacements2, coherences),
        is_mean_rate(k, min_coherence, displacements1, coherences, rate1),
        is_mean_rate(k, min_coherence, displacements2, coherences, rate2),
    ensures
        rate1 == rate2,
{
    noise_enters_no_rate(
        k,
        min_coherence,
        displacements1,
        displacements2,
        coherences,
        rate1,
    );
    cells_have_one_rate(k, min_coherence, displacements2, coherences, rate1, rate2);
}

/// Where every operation has one result, a displacement that is not coherent never influences
/// another pair: if two stacks differ in such displacements only, every pair in which they agree is
/// corrected to the same displacements.
pub proof fn noise_stays_in_its_pair<K: Numerics>(
    k: &K,
    min_coherence: K::Value,
    displacements1: Seq<Vec<K::Value>>,
    corrected1: Seq<Vec<K::Value>>,
    displacements2: Seq<Vec<K::Value>>,
    corrected2: Seq<Vec<K::Value>>,
    coherences: Seq<Vec<K::Value>>,
    q: int,
)
    requires
        single_valued(k),
        stacks_differ_in_noise(k, min_coherence, displacements1, displacements2, coherences),
        covers(displacements1, displacements1.len(), displacements1[0].len() as int),
        is_corrected(k, min_coherence, displacements1, coherences, corrected1),
        is_corrected(k, min_coherence, displacements2, coherences, corrected2),
        0 <= q < displacements1.len(),
        displacements1[q]@ == displacements2[q]@,
    ensures
        corrected1[q]@ == corrected2[q]@,
{
    let pairs = displacements1.len();
    let n = displacements1[0].len() as int;
    assert(displacements2[0].len() == n);
    let rates1 = choose|rates: Seq<K::Value>|
        {
            &&& #[trigger] are_mean_rates(
                k,
                min_coherence,
                displacements1,
                coherences,
                displacements1[0].len() as int,
                rates,
            )
            &&& forall|p: int|
                0 <= p < displacements1.len() ==> is_screened(
                    k,
                    displacements1[p]@,
                    rates,
                    (#[trigger] corrected1[p])@,
                )
        };
    let rates2 = choose|rates: Seq<K::Value>|
        {
            &&& #[trigger] are_mean_rates(
                k,
                min_coherence,
                displacements2,
                coherences,
                displacements2[0].len() as int,
                rates,
            )
            &&& forall|p: int|
                0 <= p < displacements2.len() ==> is_screened(
                    k,
                    displacements2[p]@,
                    rates,
                    (#[trigger] corrected2[p])@,
                )
        };
    assert forall|i: int| 0 <= i < n implies rates1[i] == rates2[i] by {
        let column1 = column(displacements1, pairs, i);
        let column2 = column(displacements2, pairs, i);
        let measured = column(coherences, pairs, i);
        assert forall|p: int|
            0 <= p < pairs && #[trigger] column1[p] != column2[p] implies !answers_at_least(
            k,
            measured[p],
            min_coherence,
            true,
        ) by {
            assert(displacements1[p].len() >= n);
            assert(column1[p] == displacements1[p]@[i]);
        }
        assert(is_mean_rate(k, min_coherence, column1, measured, rates1[i]));
        assert(is_mean_rate(k, min_coherence, column2, measured, rates2[i]));
        noise_does_not_change_the_rate(
            k,
            min_coherence,
            column1,
            column2,
            measured,
            rates1[i],
            rates2[i],
        );
    }
    assert(rates1 =~= rates2);
    assert(displacements1[q].len() >= n);
    assert(is_screened(k, displacements1[q]@, rates1, corrected1[q]@));
    assert(is_screened(k, displacements2[q]@, rates2, corrected2[q]@));
    pairs_have_one_screen(k, displacements1[q]@, rates1, corrected1[q]@, corrected2[q]@);
}

// ── Interferograms ──

/// Where every operation has one result, the cells of a grid have one center each.
pub proof fn grids_have_one_set_of_centers<K: Numerics>(
    k: &K,
    bbox: [K::Value; 4],
    grid: Grid,
    centers1: Seq<(K::Value, K::Value)>,
    centers2: Seq<(K::Value, K::Value)>,
)
    requires
        single_valued(k),
        grid.valid(),
        are_centers(k, bbox, grid, centers1),
        are_centers(k, bbox, grid, centers2),
    ensures
        centers1 == centers2,
{
    assert forall|i: int| 0 <= i < grid.cells() implies centers1[i] == centers2[i] by {
        let cell = every_number_has_one_cell(grid, i);
        let lon = center_formula(bbox@[0], bbox@[2], cell.col, grid.width);
        let lat = center_formula(bbox@[1], bbox@[3], cell.row, grid.height);
        formulas_have_one_value(k, lon, centers1[i].0, centers2[i].0);
        formulas_have_one_value(k, lat, centers1[i].1, centers2[i].1);
    }
    assert(centers1 =~= centers2);
}

/// Where every operation has one result, the cells of a grid have one angle of incidence each.
pub proof fn grids_have_one_set_of_angles<K: Numerics>(
    k: &K,
    bbox: [K::Value; 4],
    grid: Grid,
    angles1: Seq<K::Value>,
    angles2: Seq<K::Value>,
)
    requires
        single_valued(k),
        grid.valid(),
        are_incidence_angles(k, bbox, grid, angles1),
        are_incidence_angles(k, bbox, grid, angles2),
    ensures
        angles1 == angles2,
{
    assert forall|i: int| 0 <= i < grid.cells() implies angles1[i] == angles2[i] by {
        let cell = every_number_has_one_cell(grid, i);
        formulas_have_one_value(k, incidence_formula(bbox@, grid, cell), angles1[i], angles2[i]);
    }
    assert(angles1 =~= angles2);
}

/// A cell has one filtered phase.
proof fn lemma_one_phase<K: Numerics>(
    k: &K,
    bbox: [K::Value; 4],
    grid: Grid,
    cell: Cell,
    center: (K::Value, K::Value),
    days: i64,
    phase1: K::Value,
    phase2: K::Value,
)
    requires
        single_valued(k),
        is_filtered_phase(k, bbox, grid, cell, center, days, phase1),
        is_filtered_phase(k, bbox, grid, cell, center, days, phase2),
    ensures
        phase1 == phase2,
{
    let (deformation1, atmosphere1, raw1, looked1) = choose|
        deformation: K::Value,
        atmosphere: K::Value,
        raw: K::Value,
        looked: K::Value,
    |
        {
            &&& #[trigger] is_sum(k, deformation, atmosphere, raw)
            &&& evaluates(k, deformation_formula(center, bbox@, days), deformation)
            &&& evaluates(k, atmosphere_formula(center, cell.index), atmosphere)
            &&& #[trigger] evaluates(k, multilook_formula(raw), looked)
            &&& evaluates(k, goldstein_formula(looked, grid, cell), phase1)
        };
    let (deformation2, atmosphere2, raw2, looked2) = choose|
        deformation: K::Value,
        atmosphere: K::Value,
        raw: K::Value,
        looked: K::Value,
    |
        {
            &&& #[trigger] is_sum(k, deformation, atmosphere, raw)
            &&& evaluates(k, deformation_formula(center, bbox@, days), deformation)
            &&& evaluates(k, atmosphere_formula(center, cell.index), atmosphere)
            &&& #[trigger] evaluates(k, multilook_formula(raw), looked)
            &&& evaluates(k, goldstein_formula(looked, grid, cell), phase2)
        };
    let deformed = deformation_formula(center, bbox@, days);
    formulas_have_one_value(k, deformed, deformation1, deformation2);
    let air = atmosphere_formula(center, cell.index);
    formulas_have_one_value(k, air, atmosphere1, atmosphere2);
    assert(raw1 == raw2);
    formulas_have_one_value(k, multilook_formula(raw1), looked1, looked2);
    formulas_have_one_value(k, goldstein_formula(looked1, grid, cell), phase1, phase2);
}

/// Where every operation has one result, a cell has one displacement and one coherence between two
/// acquisitions.
pub proof fn cells_have_one_measurement<K: Numerics>(
    k: &K,
    bbox: [K::Value; 4],
    grid: Grid,
    cell: Cell,
    center: (K::Value, K::Value),
    angle: K::Value,
    days: i64,
    d1: K::Value,
    d2: K::Value,
    r1: K::Value,
    r2: K::Value,
)
    requires
        single_valued(k),
        is_displacement(k, bbox, grid, cell, center, angle, days, d1),
        is_displacement(k, bbox, grid, cell, center, angle, days, d2),
        is_coherence(k, bbox, center, days, r1),
        is_coherence(k, bbox, center, days, r2),
    ensures
        d1 == d2,
        r1 == r2,
{
    let phase1 = choose|phase: K::Value| #[trigger]
        is_filtered_phase(k, bbox, grid, cell, center, days, phase) && evaluates(
            k,
            vertical_formula(phase, angle),
            d1,
        );
    let phase2 = choose|phase: K::Value| #[trigger]
        is_filtered_phase(k, bbox, grid, cell, center, days, phase) && evaluates(
            k,
            vertical_formula(phase, angle),
            d2,
        );
    lemma_one_phase(k, bbox, grid, cell, center, days, phase1, phase2);
    formulas_have_one_value(k, vertical_formula(phase1, angle), d1, d2);
    let raw1 = choose|raw: K::Value| #[trigger]
        evaluates(k, coherence_formula(center, bbox@, days), raw) && evaluates(
            k,
            multilook_coherence_formula(raw),
            r1,
        );
    let raw2 = choose|raw: K::Value| #[trigger]
        evaluates(k, coherence_formula(center, bbox@, days), raw) && evaluates(
            k,
            multilook_coherence_formula(raw),
            r2,
        );
    formulas_have_one_value(k, coherence_formula(center, bbox@, days), raw1, raw2);
    formulas_have_one_value(k, multilook_coherence_formula(raw1), r1, r2);
}

/// Where every operation has one result, acquisitions have one stack of interferograms.
pub proof fn scenes_have_one_stack<K: Numerics>(
    k: &K,
    bbox: [K::Value; 4],
    grid: Grid,
    centers: Seq<(K::Value, K::Value)>,
    scenes: Seq<SceneText>,
    displacements1: Seq<Vec<K::Value>>,
    coherences1: Seq<Vec<K::Value>>,
    displacements2: Seq<Vec<K::Value>>,
    coherences2: Seq<Vec<K::Value>>,
)
    requires
        single_valued(k),
        grid.valid(),
        are_interferograms(k, bbox, grid, centers, scenes, displacements1, coherences1),
        are_interferograms(k, bbox, grid, centers, scenes, displacements2, coherences2),
    ensures
        same_stacks(displacements1, displacements2),
        same_stacks(coherences1, coherences2),
{
    let angles1 = choose|angles: Seq<K::Value>|
        {
            &&& #[trigger] are_incidence_angles(k, bbox, grid, angles)
            &&& forall|p: int|
                0 <= p < scenes.len() - 1 ==> is_interferogram(
                    k,
                    bbox,
                    grid,
                    centers,
                    angles,
                    baseline_days(scenes[p].date, scenes[p + 1].date) as i64,
                    (#[trigger] displacements1[p])@,
                    coherences1[p]@,
                )
        };
    let angles2 = choose|angles: Seq<K::Value>|
        {
            &&& #[trigger] are_incidence_angles(k, bbox, grid, angles)
            &&& forall|p: int|
                0 <= p < scenes.len() - 1 ==> is_interferogram(
                    k,
                    bbox,
                    grid,
                    centers,
                    angles,
                    baseline_days(scenes[p].date, scenes[p + 1].date) as i64,
                    (#[trigger] displacements2[p])@,
                    coherences2[p]@,
                )
        };
    grids_have_one_set_of_angles(k, bbox, grid, angles1, angles2);
    assert forall|p: int|
        #![trigger displacements1[p]]
        #![trigger displacements2[p]]
        #![trigger coherences1[p]]
        #![trigger coherences2[p]]
        0 <= p < scenes.len() - 1 implies displacements1[p]@ == displacements2[p]@
        && coherences1[p]@ == coherences2[p]@ by {
        let days = baseline_days(scenes[p].date, scenes[p + 1].date) as i64;
        let d1 = displacements1[p]@;
        let d2 = displacements2[p]@;
        let r1 = coherences1[p]@;
        let r2 = coherences2[p]@;
        assert(is_interferogram(k, bbox, grid, centers, angles1, days, d1, r1));
        assert(is_interferogram(k, bbox, grid, centers, angles1, days, d2, r2));
        assert forall|i: int| 0 <= i < grid.cells() implies d1[i] == d2[i] && r1[i] == r2[i] by {
            let cell = every_number_has_one_cell(grid, i);
            cells_have_one_measurement(
                k,
                bbox,
                grid,
                cell,
                centers[i],
                angles1[i],
                days,
                d1[i],
                d2[i],
                r1[i],
                r2[i],
            );
        }
        assert(d1 =~= d2);
        assert(r1 =~= r2);
    }
}

// ── Series ──

/// The best among the first cells is the same where the means are.
proof fn lemma_one_best<K: Numerics>(
    k: &K,
    means: Seq<K::Value>,
    bests1: Seq<(int, K::Value)>,
    bests2: Seq<(int, K::Value)>,
    n: int,
)
    requires
        single_valued(k),
        are_running_bests(k, means, bests1),
        are_running_bests(k, means, bests2),
        0 <= n <= means.len(),
    ensures
        bests1[n] == bests2[n],
    decreases n,
{
    if n > 0 {
        lemma_one_best(k, means, bests1, bests2, n - 1);
        assert(takes_into_account(k, n - 1, means[n - 1], bests1[n - 1], bests1[n]));
        assert(takes_into_account(k, n - 1, means[n - 1], bests2[n - 1], bests2[n]));
        questions_have_one_answer(k, means[n - 1], bests1[n - 1].1);
    } else {
        assert(is_decimal(k, 0, 0, bests1[0].1) && is_decimal(k, 0, 0, bests2[0].1));
    }
}

/// Where every operation has one result, a stack has one reference cell.
pub proof fn stacks_have_one_reference<K: Numerics>(
    k: &K,
    coherences1: Seq<Vec<K::Value>>,
    coherences2: Seq<Vec<K::Value>>,
    n: int,
    cell1: int,
    coherence1: K::Value,
    cell2: int,
    coherence2: K::Value,
)
    requires
        single_valued(k),
        n >= 0,
        same_stacks(coherences1, coherences2),
        is_reference(k, coherences1, n, cell1, coherence1),
        is_reference(k, coherences2, n, cell2, coherence2),
    ensures
        cell1 == cell2,
        coherence1 == coherence2,
{
    let (means1, bests1) = choose|means: Seq<K::Value>, bests: Seq<(int, K::Value)>|
        {
            &&& #[trigger] are_mean_coherences(k, coherences1, n, means)
            &&& #[trigger] are_running_bests(k, means, bests)
            &&& bests.last() == (cell1, coherence1)
        };
    let (means2, bests2) = choose|means: Seq<K::Value>, bests: Seq<(int, K::Value)>|
        {
            &&& #[trigger] are_mean_coherences(k, coherences2, n, means)
            &&& #[trigger] are_running_bests(k, means, bests)
            &&& bests.last() == (cell2, coherence2)
        };
    assert forall|i: int| 0 <= i < n implies means1[i] == means2[i] by {
        lemma_same_columns(coherences1, coherences2, coherences1.len(), i);
        values_have_one_mean(
            k,
            column(coherences1, coherences1.len(), i),
            means1[i],
            means2[i],
        );
    }
    assert(means1 =~= means2);
    lemma_one_best(k, means1, bests1, bests2, n);
}

/// Where every operation has one result, a stack is cleaned and referred to a cell in one way.
pub proof fn stacks_are_referred_in_one_way<K: Numerics>(
    k: &K,
    min_coherence: K::Value,
    n_scenes: nat,
    displacements1: Seq<Vec<K::Value>>,
    coherences1: Seq<Vec<K::Value>>,
    referred1: Seq<Vec<K::Value>>,
    displacements2: Seq<Vec<K::Value>>,
    coherences2: Seq<Vec<K::Value>>,
    referred2: Seq<Vec<K::Value>>,
    cell: int,
)
    requires
        single_valued(k),
        same_stacks(displacements1, displacements2),
        same_stacks(coherences1, coherences2),
        coherences1.len() >= displacements1.len(),
        covers(displacements1, displacements1.len(), displacements1[0].len() as int),
        are_referred(
            k,
            min_coherence,
            n_scenes,
            displacements1,
            coherences1,
            cell,
            referred1,
        ),
        are_referred(
            k,
            min_coherence,
            n_scenes,
            displacements2,
            coherences2,
            cell,
            referred2,
        ),
    ensures
        same_stacks(referred1, referred2),
{
    let cleaned1 = choose|cleaned: Seq<Vec<K::Value>>|
        {
            &&& #[trigger] is_cleaned(
                k,
                min_coherence,
                n_scenes,
                displacements1,
                coherences1,
                cleaned,
            )
            &&& referred1.len() == cleaned.len()
            &&& forall|p: int|
                0 <= p < referred1.len() ==> is_referred(
                    k,
                    cleaned[p]@,
                    cell,
                    (#[trigger] referred1[p])@,
                )
        };
    let cleaned2 = choose|cleaned: Seq<Vec<K::Value>>|
        {
            &&& #[trigger] is_cleaned(
                k,
                min_coherence,
                n_scenes,
                displacements2,
                coherences2,
                cleaned,
            )
            &&& referred2.len() == cleaned.len()
            &&& forall|p: int|
                0 <= p < referred2.len() ==> is_referred(
                    k,
                    cleaned[p]@,
                    cell,
                    (#[trigger] referred2[p])@,
                )
        };
    if n_scenes >= SCENES_FOR_CORRECTION {
        stacks_are_corrected_in_one_way(
            k,
            min_coherence,
            displacements1,
            coherences1,
            cleaned1,
            displacements2,
            coherences2,
            cleaned2,
        );
    }
    assert(same_stacks(cleaned1, cleaned2));
    assert forall|p: int|
        #![trigger referred1[p]]
        #![trigger referred2[p]]
        0 <= p < referred1.len() implies referred1[p]@ == referred2[p]@ by {
        let d = cleaned1[p]@;
        assert(d == cleaned2[p]@);
        assert(is_referred(k, d, cell, referred1[p]@));
        assert(is_referred(k, d, cell, referred2[p]@));
        assert forall|i: int| 0 <= i < d.len() implies referred1[p]@[i] == referred2[p]@[i] by {
            assert(is_difference(k, d[i], d[cell], referred1[p]@[i]));
            assert(is_difference(k, d[i], d[cell], referred2[p]@[i]));
        }
        assert(referred1[p]@ =~= referred2[p]@);
    }
}

/// Whether two frames hold the same epoch.
pub open spec fn same_frames<V>(a: DisplacementFrame<V>, b: DisplacementFrame<V>) -> bool {
    &&& a.scene() == b.scene()
    &&& a.displacement_mm@ == b.displacement_mm@
    &&& a.coherence@ == b.coherence@
    &&& a.grid_w == b.grid_w
    &&& a.grid_h == b.grid_h
}

/// Where every operation has one result, a stack has one time series.
pub proof fn stacks_have_one_series<K: Numerics>(
    k: &K,
    min_coherence: K::Value,
    grid: Grid,
    scenes: Seq<SceneText>,
    referred1: Seq<Vec<K::Value>>,
    coherences1: Seq<Vec<K::Value>>,
    frames1: Seq<DisplacementFrame<K::Value>>,
    referred2: Seq<Vec<K::Value>>,
    coherences2: Seq<Vec<K::Value>>,
    frames2: Seq<DisplacementFrame<K::Value>>,
    f: int,
)
    requires
        single_valued(k),
        same_stacks(referred1, referred2),
        same_stacks(coherences1, coherences2),
        referred1.len() >= scenes.len() - 1,
        coherences1.len() >= scenes.len() - 1,
        is_series(k, min_coherence, grid, scenes, referred1, coherences1, frames1),
        is_series(k, min_coherence, grid, scenes, referred2, coherences2, frames2),
        0 <= f < scenes.len(),
    ensures
        same_frames(frames1[f], frames2[f]),
    decreases f,
{
    assert(frames1[f].fills(grid) && frames2[f].fills(grid));
    let d1 = frames1[f].displacement_mm@;
    let d2 = frames2[f].displacement_mm@;
    let c1 = frames1[f].coherence@;
    let c2 = frames2[f].coherence@;
    if f == 0 {
        assert forall|i: int| 0 <= i < grid.cells() implies d1[i] == d2[i] && c1[i] == c2[i] by {
            assert(is_zero(k, frames1[0].displacement_mm@[i]));
            assert(is_zero(k, frames2[0].displacement_mm@[i]));
            assert(is_decimal(k, 0, 0, d1[i]) && is_decimal(k, 0, 0, d2[i]));
            assert(is_decimal(k, 1, 0, frames1[0].coherence@[i]));
            assert(is_decimal(k, 1, 0, frames2[0].coherence@[i]));
        }
    } else {
        stacks_have_one_series(
            k,
            min_coherence,
            grid,
            scenes,
            referred1,
            coherences1,
            frames1,
            referred2,
            coherences2,
            frames2,
            f - 1,
        );
        let moved = referred1[f - 1]@;
        let measured = coherences1[f - 1]@;
        assert(moved == referred2[f - 1]@ && measured == coherences2[f - 1]@);
        let before = frames1[f - 1].displacement_mm@;
        assert(before == frames2[f - 1].displacement_mm@);
        assert forall|i: int| 0 <= i < grid.cells() implies d1[i] == d2[i] && c1[i] == c2[i] by {
            assert(accumulates(
                k,
                min_coherence,
                moved[i],
                measured[i],
                before[i],
                frames1[f].displacement_mm@[i],
            ));
            assert(accumulates(
                k,
                min_coherence,
                moved[i],
                measured[i],
                before[i],
                frames2[f].displacement_mm@[i],
            ));
            assert(is_gated(k, min_coherence, measured[i], frames1[f].coherence@[i]));
            assert(is_gated(k, min_coherence, measured[i], frames2[f].coherence@[i]));
            questions_have_one_answer(k, measured[i], min_coherence);
            lemma_one_gate(k, min_coherence, measured[i], c1[i], c2[i]);
        }
    }
    assert(d1 =~= d2);
    assert(c1 =~= c2);
}

/// A frame shows one coherence.
proof fn lemma_one_gate<K: Numerics>(
    k: &K,
    min_coherence: K::Value,
    coherence: K::Value,
    shown1: K::Value,
    shown2: K::Value,
)
    requires
        single_valued(k),
        is_gated(k, min_coherence, coherence, shown1),
        is_gated(k, min_coherence, coherence, shown2),
    ensures
        shown1 == shown2,
{
    questions_have_one_answer(k, coherence, min_coherence);
    if is_zero(k, shown1) && is_zero(k, shown2) {
        assert(is_decimal(k, 0, 0, shown1) && is_decimal(k, 0, 0, shown2));
    }
}

/// The largest displacement among the first cells is the same where the displacements are.
proof fn lemma_one_top<K: Numerics>(
    k: &K,
    min_coherence: K::Value,
    displacement: Seq<K::Value>,
    coherence: Seq<K::Value>,
    tops1: Seq<K::Value>,
    tops2: Seq<K::Value>,
    n: int,
)
    requires
        single_valued(k),
        are_running_tops(k, min_coherence, displacement, coherence, tops1),
        are_running_tops(k, min_coherence, displacement, coherence, tops2),
        0 <= n <= displacement.len(),
    ensures
        tops1[n] == tops2[n],
    decreases n,
{
    if n > 0 {
        let i = n - 1;
        lemma_one_top(k, min_coherence, displacement, coherence, tops1, tops2, i);
        assert(raises(k, min_coherence, displacement[i], coherence[i], tops1[i], tops1[n]));
        assert(raises(k, min_coherence, displacement[i], coherence[i], tops2[i], tops2[n]));
        questions_have_one_answer(k, coherence[i], min_coherence);
    } else {
        assert(is_decimal(k, 0, 0, tops1[0]) && is_decimal(k, 0, 0, tops2[0]));
    }
}

/// Where every operation has one result, a series has one largest displacement.
pub proof fn series_have_one_maximum<K: Numerics>(
    k: &K,
    min_coherence: K::Value,
    displacement: Seq<K::Value>,
    coherence: Seq<K::Value>,
    top1: K::Value,
    top2: K::Value,
)
    requires
        single_valued(k),
        is_max_subsidence(k, min_coherence, displacement, coherence, top1),
        is_max_subsidence(k, min_coherence, displacement, coherence, top2),
    ensures
        top1 == top2,
{
    let tops1 = choose|tops: Seq<K::Value>|
        #[trigger] are_running_tops(k, min_coherence, displacement, coherence, tops) && top1
            == tops.last();
    let tops2 = choose|tops: Seq<K::Value>|
        #[trigger] are_running_tops(k, min_coherence, displacement, coherence, tops) && top2
            == tops.last();
    let n = displacement.len() as int;
    lemma_one_top(k, min_coherence, displacement, coherence, tops1, tops2, n);
}

/// Where every operation has one result, a displacement has one yearly rate.
pub proof fn displacements_have_one_rate<K: Numerics>(
    k: &K,
    displacement: K::Value,
    days: i64,
    rate1: K::Value,
    rate2: K::Value,
)
    requires
        single_valued(k),
        is_yearly_rate(k, displacement, days, rate1),
        is_yearly_rate(k, displacement, days, rate2),
    ensures
        rate1 == rate2,
{
    if days <= 0 {
        assert(is_decimal(k, 0, 0, rate1) && is_decimal(k, 0, 0, rate2));
    }
}

// ── Answers ──

/// Whether two results are the same.
pub open spec fn same_results<V>(a: ProcessResult<V>, b: ProcessResult<V>) -> bool {
    &&& a.bbox == b.bbox
    &&& a.grid_w == b.grid_w
    &&& a.grid_h == b.grid_h
    &&& a.max_subsidence_mm == b.max_subsidence_mm
    &&& a.mean_subsidence_rate_mm_yr == b.mean_subsidence_rate_mm_yr
    &&& a.frames.len() == b.frames.len()
    &&& forall|f: int|
        0 <= f < a.frames.len() ==> same_frames(#[trigger] a.frames@[f], b.frames@[f])
    &&& a.processing.grid_size == b.processing.grid_size
    &&& a.processing.effective_looks == b.processing.effective_looks
    &&& a.processing.looks_range == b.processing.looks_range
    &&& a.processing.looks_azimuth == b.processing.looks_azimuth
    &&& a.processing.min_coherence == b.processing.min_coherence
    &&& a.processing.goldstein_alpha == b.processing.goldstein_alpha
    &&& a.processing.n_scenes == b.processing.n_scenes
    &&& a.processing.n_pairs == b.processing.n_pairs
    &&& a.processing.reference_point@ == b.processing.reference_point@
    &&& a.processing.reference_coherence == b.processing.reference_coherence
    &&& a.processing.atmospheric_correction == b.processing.atmospheric_correction
}

/// Where every operation has one result, a request has one threshold.
pub proof fn requests_have_one_threshold<K: Numerics>(
    k: &K,
    x: K::Value,
    r: K::Value,
    s: K::Value,
)
    requires
        single_valued(k),
        is_threshold(k, x, r),
        is_threshold(k, x, s),
    ensures
        r == s,
{
    let (low1, high1) = choose|low: K::Value, high: K::Value|
        #[trigger] is_decimal(k, 0, 0, low) && #[trigger] is_decimal(k, 95, 2, high) && is_clamped(
            k,
            x,
            low,
            high,
            r,
        );
    let (low2, high2) = choose|low: K::Value, high: K::Value|
        #[trigger] is_decimal(k, 0, 0, low) && #[trigger] is_decimal(k, 95, 2, high) && is_clamped(
            k,
            x,
            low,
            high,
            s,
        );
    clamping_has_one_result(k, x, low1, high1, r, s);
}

/// Where every operation has one result, acquisitions have one time series.
pub proof fn scenes_have_one_time_series<K: Numerics>(
    k: &K,
    bbox: [K::Value; 4],
    grid: Grid,
    scenes: Seq<SceneText>,
    r: ProcessResult<K::Value>,
    s: ProcessResult<K::Value>,
)
    requires
        single_valued(k),
        grid.valid(),
        scenes.len() >= 2,
        r.processing.min_coherence == s.processing.min_coherence,
        is_time_series(k, bbox, grid, scenes, r),
        is_time_series(k, bbox, grid, scenes, s),
    ensures
        r.max_subsidence_mm == s.max_subsidence_mm,
        r.frames.len() == scenes.len(),
        s.frames.len() == scenes.len(),
        forall|f: int|
            0 <= f < scenes.len() ==> same_frames(#[trigger] r.frames@[f], s.frames@[f]),
        r.processing.reference_coherence == s.processing.reference_coherence,
        exists|center: (K::Value, K::Value)| #[trigger]
            describes(k, grid, scenes.len(), center, r.processing) && describes(
                k,
                grid,
                scenes.len(),
                center,
                s.processing,
            ),
{
    let min = r.processing.min_coherence;
    let (centers1, displacements1, coherences1, reference1, referred1) = choose|
        centers: Seq<(K::Value, K::Value)>,
        displacements: Seq<Vec<K::Value>>,
        coherences: Seq<Vec<K::Value>>,
        reference: int,
        referred: Seq<Vec<K::Value>>,
    | #[trigger]
        is_made_from(
            k,
            bbox,
            grid,
            scenes,
            centers,
            displacements,
            coherences,
            reference,
            referred,
            r,
        );
    let (centers2, displacements2, coherences2, reference2, referred2) = choose|
        centers: Seq<(K::Value, K::Value)>,
        displacements: Seq<Vec<K::Value>>,
        coherences: Seq<Vec<K::Value>>,
        reference: int,
        referred: Seq<Vec<K::Value>>,
    | #[trigger]
        is_made_from(
            k,
            bbox,
            grid,
            scenes,
            centers,
            displacements,
            coherences,
            reference,
            referred,
            s,
        );
    grids_have_one_set_of_centers(k, bbox, grid, centers1, centers2);
    scenes_have_one_stack(
        k,
        bbox,
        grid,
        centers1,
        scenes,
        displacements1,
        coherences1,
        displacements2,
        coherences2,
    );
    stacks_have_one_reference(
        k,
        coherences1,
        coherences2,
        grid.cells(),
        reference1,
        r.processing.reference_coherence,
        reference2,
        s.processing.reference_coherence,
    );
    interferograms_fill_the_grid(
        k,
        bbox,
        grid,
        centers1,
        scenes,
        displacements1,
        coherences1,
    );
    assert(displacements1[0].len() == grid.cells());
    stacks_are_referred_in_one_way(
        k,
        min,
        scenes.len(),
        displacements1,
        coherences1,
        referred1,
        displacements2,
        coherences2,
        referred2,
        reference1,
    );
    assert forall|f: int| 0 <= f < scenes.len() implies same_frames(
        #[trigger] r.frames@[f],
        s.frames@[f],
    ) by {
        stacks_have_one_series(
            k,
            min,
            grid,
            scenes,
            referred1,
            coherences1,
            r.frames@,
            referred2,
            coherences2,
            s.frames@,
            f,
        );
    }
    let last = scenes.len() - 1;
    assert(same_frames(r.frames@[last], s.frames@[last]));
    assert(coherences1[last - 1]@ == coherences2[last - 1]@);
    series_have_one_maximum(
        k,
        min,
        r.frames@.last().displacement_mm@,
        coherences1.last()@,
        r.max_subsidence_mm,
        s.max_subsidence_mm,
    );
    assert(describes(k, grid, scenes.len(), centers1[reference1], r.processing));
}

/// Where every operation has one result, a request has one answer.
pub proof fn requests_have_one_answer<K: Numerics>(
    k: &K,
    bbox: [K::Value; 4],
    features: Seq<StacFeature>,
    params: ProcessingParams<K::Value>,
    r: ProcessResult<K::Value>,
    s: ProcessResult<K::Value>,
)
    requires
        single_valued(k),
        dated(features).len() >= 2,
        is_processed(k, bbox, features, params, r),
        is_processed(k, bbox, features, params, s),
    ensures
        same_results(r, s),
{
    let grid = processed_grid(params.grid_size);
    let side = grid.width as int;
    assert(grid.valid()) by {
        assert(25 <= side * side <= 40000) by (nonlinear_arith)
            requires
                5 <= side <= 200,
        ;
    }
    let scenes1 = choose|scenes: Seq<SceneText>|
        {
            &&& #[trigger] is_chronological(dated(features), scenes)
            &&& is_time_series(k, bbox, grid, scenes, r)
            &&& is_yearly_rate(
                k,
                r.max_subsidence_mm,
                baseline_days(scenes[0].date, scenes.last().date) as i64,
                r.mean_subsidence_rate_mm_yr,
            )
        };
    let scenes2 = choose|scenes: Seq<SceneText>|
        {
            &&& #[trigger] is_chronological(dated(features), scenes)
            &&& is_time_series(k, bbox, grid, scenes, s)
            &&& is_yearly_rate(
                k,
                s.max_subsidence_mm,
                baseline_days(scenes[0].date, scenes.last().date) as i64,
                s.mean_subsidence_rate_mm_yr,
            )
        };
    chronological_order_is_unique(dated(features), scenes1, scenes2);
    sorting_keeps_the_scenes(dated(features), scenes1);
    requests_have_one_threshold(
        k,
        params.min_coherence,
        r.processing.min_coherence,
        s.processing.min_coherence,
    );
    scenes_have_one_time_series(k, bbox, grid, scenes1, r, s);
    let days = baseline_days(scenes1[0].date, scenes1.last().date) as i64;
    displacements_have_one_rate(
        k,
        r.max_subsidence_mm,
        days,
        r.mean_subsidence_rate_mm_yr,
        s.mean_subsidence_rate_mm_yr,
    );
    let center = choose|center: (K::Value, K::Value)| #[trigger]
        describes(k, grid, scenes1.len(), center, r.processing) && describes(
            k,
            grid,
            scenes1.len(),
            center,
            s.processing,
        );
    assert(is_decimal(k, 5, 1, r.processing.goldstein_alpha));
    assert(is_decimal(k, 5, 1, s.processing.goldstein_alpha));
}

/// Where every operation has one result, equivalent requests have one answer: neither the order in
/// which scenes of different dates are listed, nor features without a date, nor what lies beyond
/// the limits of the parameters makes a difference.
pub proof fn equivalent_requests_have_one_answer<K: Numerics>(
    k: &K,
    bbox: [K::Value; 4],
    features1: Seq<StacFeature>,
    params1: ProcessingParams<K::Value>,
    r: ProcessResult<K::Value>,
    features2: Seq<StacFeature>,
    params2: ProcessingParams<K::Value>,
    s: ProcessResult<K::Value>,
)
    requires
        single_valued(k),
        dated(features1).len() >= 2,
        forall|t: SceneText| dated(features1).contains(t) <==> dated(features2).contains(t),
        dates_differ(dated(features1)),
        dates_differ(dated(features2)),
        same_choices(k, params1, params2),
        is_processed(k, bbox, features1, params1, r),
        is_processed(k, bbox, features2, params2, s),
    ensures
        same_results(r, s),
{
    result_does_not_depend_on_listing_order(k, bbox, features2, features1, params2, s);
    result_does_not_depend_on_excess(k, bbox, features1, params1, params2, s);
    requests_have_one_answer(k, bbox, features1, params1, r, s);
}

/// Where every operation has one result, thresholds on the same side of the limits come to the
/// same: two that are below zero, or two that are above 0.95 and not below zero.
pub proof fn thresholds_beyond_the_limits_come_to_the_same<K: Numerics>(
    k: &K,
    x: K::Value,
    y: K::Value,
    low: K::Value,
    high: K::Value,
)
    requires
        single_valued(k),
        is_decimal(k, 0, 0, low),
        is_decimal(k, 95, 2, high),
        answers_below(k, x, low, true) && answers_below(k, y, low, true) || {
            &&& answers_below(k, x, low, false)
            &&& answers_below(k, y, low, false)
            &&& answers_above(k, x, high, true)
            &&& answers_above(k, y, high, true)
        },
    ensures
        forall|r: K::Value| is_threshold(k, x, r) <==> is_threshold(k, y, r),
{
    questions_have_one_answer(k, x, low);
    questions_have_one_answer(k, y, low);
    questions_have_one_answer(k, x, high);
    questions_have_one_answer(k, y, high);
    let limit = if answers_below(k, x, low, true) { low } else { high };
    assert forall|r: K::Value| is_threshold(k, x, r) <==> is_threshold(k, y, r) by {
        assert(is_clamped(k, x, low, high, limit) && is_clamped(k, y, low, high, limit));
        assert(is_threshold(k, x, limit) && is_threshold(k, y, limit));
        if is_threshold(k, x, r) {
            requests_have_one_threshold(k, x, r, limit);
        }
        if is_threshold(k, y, r) {
            requests_have_one_threshold(k, y, r, limit);
        }
    }
}

} // verus!
