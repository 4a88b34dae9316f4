//! Stacks of interferograms, in numbers: what smoothing, correction, reference and integration do
//! to them where they compute with real numbers, whatever the number of pairs and of cells.
use vstd::prelude::*;
use crate::atmosphere::{
    adds_to_rate, are_mean_rates, are_rate_totals, are_residuals, cell_values, column, covers,
    is_corrected, is_mean_rate, is_screened, is_smoothed, is_smoothed_value, is_weighted_rate,
    mean_rate, picked, remove_atmospheric_phase, spatial_smooth,
};
use crate::grid::{is_neighbour, is_window, Grid};
use crate::numerics::{
    answers_above, compares, is_decimal, is_difference, is_larger, is_magnitude, is_mean,
    is_product, is_quotient, is_sum, is_zero, Comparison, Numerics,
};
use crate::promises::reals::{
    computes_in_reals, numbers, possible_mean_is_sum_over_number, sum, sum_grows, tens, Reals,
};
use crate::scenes::{scene_texts, Scene, SceneText};
use crate::series::{
    accumulates, are_mean_coherences, are_running_bests, are_running_tops, continues,
    find_reference_point, integrate, is_gated, is_max_subsidence, is_reference, is_referred,
    is_series, is_yearly_rate, max_subsidence, raises, refer_to_cell, takes_into_account,
    yearly_rate, DisplacementFrame,
};

verus! {

// ── Smoothing ──

/// The sum of the values of those of the first `n` places that are near.
pub open spec fn sum_of(n: int, near: spec_fn(int) -> bool, value: spec_fn(int) -> real) -> real {
    sum(
        Seq::new(
            n as nat,
            |j: int|
                if near(j) {
                    value(j)
                } else {
                    0real
                },
        ),
    )
}

/// One more place.
proof fn lemma_sum_of(n: int, near: spec_fn(int) -> bool, value: spec_fn(int) -> real)
    requires
        n >= 0,
    ensures
        sum_of(0, near, value) == 0real,
        sum_of(n + 1, near, value) == sum_of(n, near, value) + (if near(n) {
            value(n)
        } else {
            0real
        }),
{
    let term = |j: int|
        if near(j) {
            value(j)
        } else {
            0real
        };
    sum_grows(Seq::new(n as nat, term), term(n));
    assert(Seq::new((n + 1) as nat, term) =~= Seq::new(n as nat, term).push(term(n)));
    assert(Seq::new(0nat, term) =~= Seq::<real>::empty());
}

/// Listing the near places in order and adding their values is adding the values of all places
/// that are near.
proof fn lemma_listed(
    window: Seq<usize>,
    n: int,
    near: spec_fn(int) -> bool,
    value: spec_fn(int) -> real,
)
    requires
        0 <= n <= usize::MAX,
        forall|i: int, j: int| 0 <= i < j < window.len() ==> window[i] < window[j],
        forall|i: int|
            0 <= i < window.len() ==> (#[trigger] window[i]) < n && near(window[i] as int),
        forall|j: int| 0 <= j < n && #[trigger] near(j) ==> window.contains(j as usize),
    ensures
        sum(Seq::new(window.len(), |q: int| value(window[q] as int))) == sum_of(n, near, value),
        window.len() as real == sum_of(n, near, |j: int| 1real),
    decreases n,
{
    let term = |q: int| value(window[q] as int);
    let listed = Seq::new(window.len(), term);
    if n == 0 {
        assert(window.len() == 0) by {
            if window.len() > 0 {
                assert(window[0] < 0);
            }
        }
        assert(listed =~= Seq::<real>::empty());
        sum_grows(Seq::empty(), 0real);
        lemma_sum_of(0, near, value);
        lemma_sum_of(0, near, |j: int| 1real);
    } else {
        lemma_sum_of(n - 1, near, value);
        lemma_sum_of(n - 1, near, |j: int| 1real);
        if near(n - 1) {
            assert(window.contains((n - 1) as usize));
            let at = choose|i: int| 0 <= i < window.len() && window[i] == (n - 1) as usize;
            let last = window.len() - 1;
            assert(at == last) by {
                if at < last {
                    assert(window[at] < window[last]);
                    assert(window[last] < n);
                }
            }
            let rest = window.drop_last();
            assert forall|i: int| 0 <= i < rest.len() implies (#[trigger] rest[i]) < n - 1 && near(
                rest[i] as int,
            ) by {
                assert(window[i] < window[last]);
            }
            assert forall|j: int| 0 <= j < n - 1 && #[trigger] near(j) implies rest.contains(
                j as usize,
            ) by {
                assert(window.contains(j as usize));
                let i = choose|i: int| 0 <= i < window.len() && window[i] == j as usize;
                assert(rest[i] == j as usize);
            }
            lemma_listed(rest, n - 1, near, value);
            let before = Seq::new(rest.len(), |q: int| value(rest[q] as int));
            assert(listed =~= before.push(value(n - 1)));
            sum_grows(before, value(n - 1));
        } else {
            assert forall|i: int| 0 <= i < window.len() implies (#[trigger] window[i]) < n - 1
                && near(window[i] as int) by {
                assert(near(window[i] as int));
            }
            lemma_listed(window, n - 1, near, value);
        }
    }
}

/// Whether two cells of a square grid are within two rows and two columns of each other.
pub open spec fn near(side: int, cell: int) -> spec_fn(int) -> bool {
    |j: int|
        j < side * side && -2 <= cell / side - j / side <= 2 && -2 <= cell % side - j % side <= 2
}

/// The number in a cell of a smoothed grid.
pub open spec fn smoothed_number(data: Seq<real>, side: int, cell: int) -> real {
    if cell < side * side {
        sum_of(data.len() as int, near(side, cell), |j: int| data[j]) / sum_of(
            data.len() as int,
            near(side, cell),
            |j: int| 1real,
        )
    } else {
        0real
    }
}

/// In real numbers, a smoothed value is the mean over the near cells.
proof fn lemma_smoothed<K: Numerics>(
    k: &K,
    m: Reals<K::Value>,
    data: Seq<K::Value>,
    side: int,
    cell: int,
    value: K::Value,
)
    requires
        computes_in_reals(k, m),
        data.len() <= usize::MAX,
        0 <= cell < data.len(),
        0 <= side,
        is_smoothed_value(k, data, side, cell, value),
    ensures
        (m.of)(value) == smoothed_number(numbers(m, data), side, cell),
        cell < side * side ==> sum_of(data.len() as int, near(side, cell), |j: int| 1real)
            >= 1real,
{
    tens();
    let n = data.len() as int;
    if cell < side * side {
        let window = choose|window: Seq<usize>|
            #[trigger] is_window(side, n, cell, window) && is_mean(k, picked(data, window), value);
        let all = numbers(m, data);
        let amount = |j: int| all[j];
        let close = near(side, cell);
        assert forall|i: int| 0 <= i < window.len() implies (#[trigger] window[i]) < n && close(
            window[i] as int,
        ) by {
            assert(is_neighbour(side, n, cell, window[i] as int));
        }
        assert forall|j: int| 0 <= j < n && #[trigger] close(j) implies window.contains(
            j as usize,
        ) by {
            assert(is_neighbour(side, n, cell, j));
        }
        lemma_listed(window, n, close, amount);
        assert(close(cell));
        assert(window.contains(cell as usize));
        assert(window.len() > 0);
        lemma_short(window, n);
        possible_mean_is_sum_over_number(k, m, picked(data, window), value);
        assert(numbers(m, picked(data, window)) =~= Seq::new(
            window.len(),
            |q: int| amount(window[q] as int),
        ));
    }
}

/// A list of places in order is no longer than there are places.
proof fn lemma_short(window: Seq<usize>, n: int)
    requires
        0 <= n,
        forall|i: int, j: int| 0 <= i < j < window.len() ==> window[i] < window[j],
        forall|i: int| 0 <= i < window.len() ==> (#[trigger] window[i]) < n,
    ensures
        window.len() <= n,
    decreases n,
{
    if window.len() > 0 {
        let last = window.len() - 1;
        assert(window[last] < n);
        let rest = window.drop_last();
        assert forall|i: int| 0 <= i < rest.len() implies (#[trigger] rest[i]) < n - 1 by {
            assert(window[i] < window[last]);
        }
        lemma_short(rest, n - 1);
    }
}

/// In real numbers, smoothing gives every cell of the square, whatever its side, the mean over the
/// cells within two rows and two columns that have a value; cells behind the square get zero.
pub proof fn smoothing_takes_the_mean_within_two_rows_and_columns<K: Numerics>(
    k: &K,
    m: Reals<K::Value>,
    data: &Vec<K::Value>,
    side: usize,
    smoothed: Vec<K::Value>,
    cell: int,
)
    requires
        computes_in_reals(k, m),
        side * side <= usize::MAX,
        call_ensures(spatial_smooth::<K>, (k, data, side), smoothed),
        0 <= cell < data.len(),
    ensures
        smoothed.len() == data.len(),
        cell >= side * side ==> (m.of)(smoothed@[cell]) == 0real,
        cell < side * side ==> {
            let within = |j: int|
                {
                    &&& j < side * side
                    &&& -2 <= cell / side as int - j / side as int <= 2
                    &&& -2 <= cell % side as int - j % side as int <= 2
                };
            let total = Seq::new(
                data@.len(),
                |j: int|
                    if within(j) {
                        (m.of)(data@[j])
                    } else {
                        0real
                    },
            ).fold_left(0real, |a: real, b: real| a + b);
            let count = Seq::new(
                data@.len(),
                |j: int|
                    if within(j) {
                        1real
                    } else {
                        0real
                    },
            ).fold_left(0real, |a: real, b: real| a + b);
            count >= 1real && (m.of)(smoothed@[cell]) * count == total
        },
{
    let n = data@.len() as int;
    let s = side as int;
    lemma_smoothed(k, m, data@, s, cell, smoothed@[cell]);
    if cell < s * s {
        let within = |j: int|
            {
                &&& j < side * side
                &&& -2 <= cell / side as int - j / side as int <= 2
                &&& -2 <= cell % side as int - j % side as int <= 2
            };
        let totals = Seq::new(
            data@.len(),
            |j: int|
                if within(j) {
                    (m.of)(data@[j])
                } else {
                    0real
                },
        );
        let counts = Seq::new(
            data@.len(),
            |j: int|
                if within(j) {
                    1real
                } else {
                    0real
                },
        );
        let all = numbers(m, data@);
        let close = near(s, cell);
        assert(totals =~= Seq::new(
            n as nat,
            |j: int|
                if close(j) {
                    (|j: int| all[j])(j)
                } else {
                    0real
                },
        ));
        assert(counts =~= Seq::new(
            n as nat,
            |j: int|
                if close(j) {
                    (|j: int| 1real)(j)
                } else {
                    0real
                },
        ));
        assert(sum(totals) == sum_of(n, close, |j: int| all[j]));
        assert(sum(counts) == sum_of(n, close, |j: int| 1real));
        let (x, t, c) = ((m.of)(smoothed@[cell]), sum(totals), sum(counts));
        assert(x * c == t) by (nonlinear_arith)
            requires
                x == t / c,
                c >= 1real,
        ;
    }
}

/// Places with equal values add up to that value times their number.
proof fn lemma_equal_values(
    n: int,
    near: spec_fn(int) -> bool,
    value: spec_fn(int) -> real,
    x: real,
)
    requires
        n >= 0,
        forall|j: int| 0 <= j < n ==> #[trigger] value(j) == x,
    ensures
        sum_of(n, near, value) == x * sum_of(n, near, |j: int| 1real),
    decreases n,
{
    let one = |j: int| 1real;
    if n == 0 {
        lemma_sum_of(0, near, value);
        lemma_sum_of(0, near, one);
        assert(x * 0real == 0real);
    } else {
        lemma_equal_values(n - 1, near, value, x);
        lemma_sum_of(n - 1, near, value);
        lemma_sum_of(n - 1, near, one);
        let count = sum_of(n - 1, near, one);
        assert(x * (count + 1real) == x * count + x && x * (count + 0real) == x * count)
            by (nonlinear_arith);
    }
}

/// The same number in all cells is what every cell of the square has after smoothing.
proof fn lemma_smoothed_constant(data: Seq<real>, side: int, cell: int, x: real)
    requires
        0 <= cell < data.len(),
        0 <= side,
        cell < side * side,
        forall|j: int| 0 <= j < data.len() ==> data[j] == x,
        sum_of(data.len() as int, near(side, cell), |j: int| 1real) >= 1real,
    ensures
        smoothed_number(data, side, cell) == x,
{
    let n = data.len() as int;
    lemma_equal_values(n, near(side, cell), |j: int| data[j], x);
    let count = sum_of(n, near(side, cell), |j: int| 1real);
    assert((x * count) / count == x) by (nonlinear_arith)
        requires
            count >= 1real,
    ;
}

/// In real numbers, smoothing leaves a constant as it is, on a grid of any side.
pub proof fn smoothing_keeps_constants<K: Numerics>(
    k: &K,
    m: Reals<K::Value>,
    data: &Vec<K::Value>,
    side: usize,
    smoothed: Vec<K::Value>,
    x: real,
    cell: int,
)
    requires
        computes_in_reals(k, m),
        side * side <= usize::MAX,
        call_ensures(spatial_smooth::<K>, (k, data, side), smoothed),
        forall|j: int| 0 <= j < data.len() ==> (m.of)(#[trigger] data@[j]) == x,
        0 <= cell < data.len(),
        cell < side * side,
    ensures
        (m.of)(smoothed@[cell]) == x,
{
    lemma_smoothed(k, m, data@, side as int, cell, smoothed@[cell]);
    lemma_smoothed_constant(numbers(m, data@), side as int, cell, x);
}

/// The values of a cell are those that the pairs have for it, in their order.
pub proof fn cell_values_go_through_the_pairs<V: Copy>(
    stack: &Vec<Vec<V>>,
    pairs: usize,
    cell: usize,
    values: Vec<V>,
    p: int,
)
    requires
        call_ensures(cell_values::<V>, (stack, pairs, cell), values),
        0 <= p < pairs,
    ensures
        values.len() == pairs,
        values@[p] == stack@[p]@[cell as int],
{
}

// ── Rates ──

/// The weights of the pairs in which a cell is coherent.
pub open spec fn weights(min: real, pairs: nat, coherence: spec_fn(int) -> real) -> Seq<real> {
    Seq::new(
        pairs,
        |p: int|
            if coherence(p) >= min {
                coherence(p) * coherence(p)
            } else {
                0real
            },
    )
}

/// The weighted displacements of the pairs in which a cell is coherent.
pub open spec fn weighted(
    min: real,
    pairs: nat,
    displacement: spec_fn(int) -> real,
    coherence: spec_fn(int) -> real,
) -> Seq<real> {
    Seq::new(
        pairs,
        |p: int|
            if coherence(p) >= min {
                displacement(p) * (coherence(p) * coherence(p))
            } else {
                0real
            },
    )
}

/// The mean rate of a cell.
pub open spec fn rate_number(
    min: real,
    pairs: nat,
    displacement: spec_fn(int) -> real,
    coherence: spec_fn(int) -> real,
) -> real {
    if sum(weights(min, pairs, coherence)) > 0real {
        sum(weighted(min, pairs, displacement, coherence)) / sum(weights(min, pairs, coherence))
    } else {
        0real
    }
}

/// The totals of the first pairs.
proof fn lemma_totals<K: Numerics>(
    k: &K,
    m: Reals<K::Value>,
    min: K::Value,
    displacements: Seq<K::Value>,
    coherences: Seq<K::Value>,
    totals: Seq<(K::Value, K::Value)>,
    n: int,
)
    requires
        computes_in_reals(k, m),
        coherences.len() >= displacements.len(),
        are_rate_totals(k, min, displacements, coherences, totals),
        0 <= n <= displacements.len(),
    ensures
        ({
            let d = |p: int| (m.of)(displacements[p]);
            let c = |p: int| (m.of)(coherences[p]);
            let ws = weights((m.of)(min), displacements.len(), c).take(n);
            let ds = weighted((m.of)(min), displacements.len(), d, c).take(n);
            &&& (m.of)(totals[n].0) == sum(ds)
            &&& (m.of)(totals[n].1) == sum(ws)
            &&& sum(ws) >= 0real
            &&& sum(ws) == 0real ==> sum(ds) == 0real
        }),
    decreases n,
{
    tens();
    let d = |p: int| (m.of)(displacements[p]);
    let c = |p: int| (m.of)(coherences[p]);
    let ws = weights((m.of)(min), displacements.len(), c);
    let ds = weighted((m.of)(min), displacements.len(), d, c);
    if n == 0 {
        assert(ws.take(0) =~= Seq::<real>::empty());
        assert(ds.take(0) =~= Seq::<real>::empty());
        sum_grows(Seq::empty(), 0real);
        assert((m.of)(totals[0].0) == 0real / 1real);
        assert((m.of)(totals[0].1) == 0real / 1real);
    } else {
        let q = n - 1;
        lemma_totals(k, m, min, displacements, coherences, totals, q);
        assert(ws.take(n) =~= ws.take(q).push(ws[q]));
        assert(ds.take(n) =~= ds.take(q).push(ds[q]));
        sum_grows(ws.take(q), ws[q]);
        sum_grows(ds.take(q), ds[q]);
        assert(adds_to_rate(
            k,
            min,
            displacements[q],
            coherences[q],
            totals[q],
            totals[q + 1],
        ));
        let (x, y) = (c(q), d(q));
        assert(x * x >= 0real) by (nonlinear_arith);
        assert(x * x == 0real ==> y * (x * x) == 0real) by (nonlinear_arith);
    }
}

/// In real numbers, a possible mean rate is the weighted mean.
pub proof fn possible_rate_is_weighted_mean<K: Numerics>(
    k: &K,
    m: Reals<K::Value>,
    min: K::Value,
    displacements: Seq<K::Value>,
    coherences: Seq<K::Value>,
    rate: K::Value,
)
    requires
        computes_in_reals(k, m),
        coherences.len() >= displacements.len(),
        is_mean_rate(k, min, displacements, coherences, rate),
    ensures
        (m.of)(rate) == rate_number(
            (m.of)(min),
            displacements.len(),
            |p: int| (m.of)(displacements[p]),
            |p: int| (m.of)(coherences[p]),
        ),
        sum(weights((m.of)(min), displacements.len(), |p: int| (m.of)(coherences[p]))) >= 0real,
{
    tens();
    let totals = choose|totals: Seq<(K::Value, K::Value)>|
        #[trigger] are_rate_totals(k, min, displacements, coherences, totals) && is_weighted_rate(
            k,
            totals.last(),
            rate,
        );
    let n = displacements.len() as int;
    lemma_totals(k, m, min, displacements, coherences, totals, n);
    let d = |p: int| (m.of)(displacements[p]);
    let c = |p: int| (m.of)(coherences[p]);
    let ws = weights((m.of)(min), displacements.len(), c);
    let ds = weighted((m.of)(min), displacements.len(), d, c);
    assert(ws.take(n) =~= ws);
    assert(ds.take(n) =~= ds);
    let total = totals.last();
    let zero = choose|zero: K::Value|
        #[trigger] is_zero(k, zero) && {
            ||| answers_above(k, total.1, zero, true) && is_quotient(k, total.0, total.1, rate)
            ||| answers_above(k, total.1, zero, false) && rate == total.0
        };
    assert((m.of)(zero) == 0real / 1real);
}

/// In real numbers, the mean rate of a cell is the mean of its displacements in all pairs in which
/// it is coherent, weighted by the squares of the coherences; zero where there is no weight.
pub proof fn rates_are_weighted_means<K: Numerics>(
    k: &K,
    m: Reals<K::Value>,
    min: K::Value,
    displacements: &Vec<K::Value>,
    coherences: &Vec<K::Value>,
    rate: K::Value,
)
    requires
        computes_in_reals(k, m),
        coherences.len() >= displacements.len(),
        call_ensures(mean_rate::<K>, (k, min, displacements, coherences), rate),
    ensures
        ({
            let weight = |p: int|
                if (m.of)(coherences@[p]) >= (m.of)(min) {
                    (m.of)(coherences@[p]) * (m.of)(coherences@[p])
                } else {
                    0real
                };
            let all = sum(Seq::new(displacements@.len(), weight));
            &&& (m.of)(rate) * all == sum(
                Seq::new(displacements@.len(), |p: int| (m.of)(displacements@[p]) * weight(p)),
            )
            &&& all == 0real ==> (m.of)(rate) == 0real
            &&& all >= 0real
        }),
{
    possible_rate_is_weighted_mean(k, m, min, displacements@, coherences@, rate);
    let n = displacements@.len();
    let d = |p: int| (m.of)(displacements@[p]);
    let c = |p: int| (m.of)(coherences@[p]);
    let weight = |p: int|
        if (m.of)(coherences@[p]) >= (m.of)(min) {
            (m.of)(coherences@[p]) * (m.of)(coherences@[p])
        } else {
            0real
        };
    let ws = weights((m.of)(min), n, c);
    let ds = weighted((m.of)(min), n, d, c);
    assert(ws =~= Seq::new(n, weight));
    let products = Seq::new(n, |p: int| (m.of)(displacements@[p]) * weight(p));
    assert forall|p: int| 0 <= p < n implies ds[p] == #[trigger] products[p] by {
        let y = d(p);
        assert(y * 0real == 0real);
    }
    assert(ds =~= products);
    let (x, all, total) = ((m.of)(rate), sum(ws), sum(ds));
    if all > 0real {
        assert(x * all == total) by (nonlinear_arith)
            requires
                x == total / all,
                all > 0real,
        ;
    } else {
        let totals = choose|totals: Seq<(K::Value, K::Value)>|
            #[trigger] are_rate_totals(k, min, displacements@, coherences@, totals)
                && is_weighted_rate(k, totals.last(), rate);
        lemma_totals(k, m, min, displacements@, coherences@, totals, n as int);
        assert(ws.take(n as int) =~= ws);
        assert(ds.take(n as int) =~= ds);
        assert(x * all == 0real) by (nonlinear_arith)
            requires
                all == 0real,
        ;
    }
}

// ── Correction ──

/// The numbers of a stack, by pair and cell.
pub open spec fn stack_numbers<V>(m: Reals<V>, stack: Seq<Vec<V>>) -> spec_fn(int, int) -> real {
    |p: int, i: int| (m.of)(stack[p]@[i])
}

/// What a pair shows besides the mean rates of the cells.
pub open spec fn residual_numbers(
    min: real,
    pairs: nat,
    cells: nat,
    displacement: spec_fn(int, int) -> real,
    coherence: spec_fn(int, int) -> real,
    p: int,
) -> Seq<real> {
    Seq::new(
        cells,
        |j: int|
            displacement(p, j) - rate_number(
                min,
                pairs,
                |q: int| displacement(q, j),
                |q: int| coherence(q, j),
            ),
    )
}

/// A displacement after the correction.
pub open spec fn corrected_number(
    min: real,
    pairs: nat,
    cells: nat,
    side: int,
    displacement: spec_fn(int, int) -> real,
    coherence: spec_fn(int, int) -> real,
    p: int,
    i: int,
) -> real {
    displacement(p, i) - smoothed_number(
        residual_numbers(min, pairs, cells, displacement, coherence, p),
        side,
        i,
    )
}

/// Two squares that are the largest below a number are one.
proof fn lemma_one_square(n: int, a: int, b: int)
    requires
        0 <= a,
        0 <= b,
        a * a <= n < (a + 1) * (a + 1),
        b * b <= n < (b + 1) * (b + 1),
    ensures
        a == b,
{
    assert(a == b) by (nonlinear_arith)
        requires
            0 <= a,
            0 <= b,
            a * a <= n < (a + 1) * (a + 1),
            b * b <= n < (b + 1) * (b + 1),
    ;
}

/// In real numbers, a stack that can come out of the correction holds the corrected numbers.
pub proof fn possible_correction_removes_the_smooth_part<K: Numerics>(
    k: &K,
    m: Reals<K::Value>,
    min: K::Value,
    displacements: Seq<Vec<K::Value>>,
    coherences: Seq<Vec<K::Value>>,
    corrected: Seq<Vec<K::Value>>,
    side: int,
    p: int,
    i: int,
)
    requires
        computes_in_reals(k, m),
        displacements.len() > 0,
        covers(displacements, displacements.len(), displacements[0].len() as int),
        covers(coherences, displacements.len(), displacements[0].len() as int),
        is_corrected(k, min, displacements, coherences, corrected),
        0 <= side,
        side * side <= displacements[0].len() < (side + 1) * (side + 1),
        0 <= p < displacements.len(),
        0 <= i < displacements[0].len(),
    ensures
        (m.of)(corrected[p]@[i]) == corrected_number(
            (m.of)(min),
            displacements.len(),
            displacements[0]@.len(),
            side,
            stack_numbers(m, displacements),
            stack_numbers(m, coherences),
            p,
            i,
        ),
        i < side * side ==> sum_of(
            displacements[0].len() as int,
            near(side, i),
            |j: int| 1real,
        ) >= 1real,
{
    let n = displacements[0].len() as int;
    let pairs = displacements.len();
    let d = stack_numbers(m, displacements);
    let c = stack_numbers(m, coherences);
    let rates = choose|rates: Seq<K::Value>|
        {
            &&& #[trigger] are_mean_rates(k, min, displacements, coherences, n, rates)
            &&& forall|p: int|
                0 <= p < displacements.len() ==> is_screened(
                    k,
                    displacements[p]@,
                    rates,
                    (#[trigger] corrected[p])@,
                )
        };
    assert(is_screened(k, displacements[p]@, rates, corrected[p]@));
    let (residuals, own_side, screen) = choose|
        residuals: Seq<K::Value>,
        own_side: int,
        screen: Seq<K::Value>,
    |
        {
            &&& #[trigger] are_residuals(k, displacements[p]@, rates, residuals)
            &&& 0 <= own_side
            &&& own_side * own_side <= rates.len() < (own_side + 1) * (own_side + 1)
            &&& #[trigger] is_smoothed(k, residuals, own_side, screen)
            &&& forall|i: int|
                0 <= i < rates.len() ==> is_difference(
                    k,
                    displacements[p]@[i],
                    screen[i],
                    #[trigger] corrected[p]@[i],
                )
        };
    lemma_one_square(n, side, own_side);
    assert(is_smoothed_value(k, residuals, side, i, screen[i]));
    lemma_smoothed(k, m, residuals, side, i, screen[i]);
    assert(is_difference(k, displacements[p]@[i], screen[i], corrected[p]@[i]));
    let plain = residual_numbers((m.of)(min), pairs, n as nat, d, c, p);
    assert forall|j: int| 0 <= j < n implies numbers(m, residuals)[j] == #[trigger] plain[j] by {
        assert(is_difference(k, displacements[p]@[j], rates[j], residuals[j]));
        let ds = column(displacements, pairs, j);
        let cs = column(coherences, pairs, j);
        assert(is_mean_rate(k, min, ds, cs, rates[j]));
        possible_rate_is_weighted_mean(k, m, min, ds, cs, rates[j]);
        lemma_same_rate(
            (m.of)(min),
            pairs,
            |q: int| (m.of)(ds[q]),
            |q: int| (m.of)(cs[q]),
            |q: int| d(q, j),
            |q: int| c(q, j),
        );
    }
    assert(numbers(m, residuals) =~= plain);
}

/// The rate goes by what the pairs show.
proof fn lemma_same_rate(
    min: real,
    pairs: nat,
    d1: spec_fn(int) -> real,
    c1: spec_fn(int) -> real,
    d2: spec_fn(int) -> real,
    c2: spec_fn(int) -> real,
)
    requires
        forall|p: int| 0 <= p < pairs ==> #[trigger] d1(p) == d2(p),
        forall|p: int| 0 <= p < pairs ==> #[trigger] c1(p) == c2(p),
    ensures
        rate_number(min, pairs, d1, c1) == rate_number(min, pairs, d2, c2),
{
    assert(weights(min, pairs, c1) =~= weights(min, pairs, c2));
    assert(weighted(min, pairs, d1, c1) =~= weighted(min, pairs, d2, c2));
}

/// In real numbers, the correction takes from every displacement of every pair, however many pairs
/// and cells there are, the mean of what the cells within two rows and two columns show besides
/// their mean rates. Cells behind the largest square that the cells fill keep their displacement.
pub proof fn correction_removes_the_smooth_part<K: Numerics>(
    k: &K,
    m: Reals<K::Value>,
    displacements: &mut Vec<Vec<K::Value>>,
    coherences: &Vec<Vec<K::Value>>,
    min: K::Value,
    rate: spec_fn(int) -> real,
    side: int,
    p: int,
    i: int,
)
    requires
        computes_in_reals(k, m),
        call_ensures(
            remove_atmospheric_phase::<K>,
            (k, displacements, coherences, min),
            (),
        ),
        0 <= p < old(displacements).len(),
        forall|q: int|
            0 <= q < old(displacements).len() ==> {
                &&& (#[trigger] old(displacements)@[q]).len() >= old(displacements)@[0].len()
                &&& q < coherences.len()
                &&& coherences@[q].len() >= old(displacements)@[0].len()
            },
        0 <= i < old(displacements)@[0].len(),
        0 <= side,
        side * side <= old(displacements)@[0].len() < (side + 1) * (side + 1),
        forall|j: int|
            0 <= j < old(displacements)@[0].len() ==> {
                let weight = |q: int|
                    if (m.of)(coherences@[q]@[j]) >= (m.of)(min) {
                        (m.of)(coherences@[q]@[j]) * (m.of)(coherences@[q]@[j])
                    } else {
                        0real
                    };
                let all = sum(Seq::new(old(displacements)@.len(), weight));
                &&& #[trigger] rate(j) * all == sum(
                    Seq::new(
                        old(displacements)@.len(),
                        |q: int| (m.of)(old(displacements)@[q]@[j]) * weight(q),
                    ),
                )
                &&& all == 0real ==> rate(j) == 0real
            },
    ensures
        final(displacements).len() == old(displacements).len(),
        final(displacements)@[p].len() == old(displacements)@[p].len(),
        i >= side * side ==> (m.of)(final(displacements)@[p]@[i]) == (m.of)(
            old(displacements)@[p]@[i],
        ),
        i < side * side ==> {
            let within = |j: int|
                {
                    &&& j < side * side
                    &&& -2 <= i / side - j / side <= 2
                    &&& -2 <= i % side - j % side <= 2
                };
            let total = sum(
                Seq::new(
                    old(displacements)@[0]@.len(),
                    |j: int|
                        if within(j) {
                            (m.of)(old(displacements)@[p]@[j]) - rate(j)
                        } else {
                            0real
                        },
                ),
            );
            let count = sum(
                Seq::new(
                    old(displacements)@[0]@.len(),
                    |j: int|
                        if within(j) {
                            1real
                        } else {
                            0real
                        },
                ),
            );
            &&& count >= 1real
            &&& ((m.of)(old(displacements)@[p]@[i]) - (m.of)(final(displacements)@[p]@[i])) * count
                == total
        },
{
    let ds = old(displacements)@;
    let cs = coherences@;
    let after = final(displacements)@;
    let n = ds[0].len() as int;
    let pairs = ds.len();
    let d = stack_numbers(m, ds);
    let c = stack_numbers(m, cs);
    assert(is_corrected(k, min, ds, cs, after));
    assert(covers(ds, pairs, n));
    assert(cs.len() >= pairs) by {
        assert(ds[pairs - 1].len() >= n);
    }
    assert forall|q: int| 0 <= q < pairs implies (#[trigger] cs[q]).len() >= n by {
        assert(ds[q].len() >= n);
    }
    assert(covers(cs, pairs, n));
    possible_correction_removes_the_smooth_part(k, m, min, ds, cs, after, side, p, i);
    let rates = choose|rates: Seq<K::Value>|
        {
            &&& #[trigger] are_mean_rates(k, min, ds, cs, n, rates)
            &&& forall|p: int|
                0 <= p < ds.len() ==> is_screened(k, ds[p]@, rates, (#[trigger] after[p])@)
        };
    assert(is_screened(k, ds[p]@, rates, after[p]@));
    let plain = residual_numbers((m.of)(min), pairs, n as nat, d, c, p);
    assert forall|j: int| 0 <= j < n implies #[trigger] plain[j] == d(p, j) - rate(j) by {
        let weight = |q: int|
            if (m.of)(cs[q]@[j]) >= (m.of)(min) {
                (m.of)(cs[q]@[j]) * (m.of)(cs[q]@[j])
            } else {
                0real
            };
        let dj = |q: int| d(q, j);
        let cj = |q: int| c(q, j);
        let ws = weights((m.of)(min), pairs, cj);
        let ts = weighted((m.of)(min), pairs, dj, cj);
        assert(ws =~= Seq::new(pairs, weight));
        let products = Seq::new(pairs, |q: int| (m.of)(ds[q]@[j]) * weight(q));
        assert forall|q: int| 0 <= q < pairs implies ts[q] == #[trigger] products[q] by {
            let y = dj(q);
            assert(y * 0real == 0real);
        }
        assert(ts =~= products);
        let (x, all, total) = (rate(j), sum(ws), sum(ts));
        assert(x * all == total);
        assert(all >= 0real) by {
            let own = column(ds, pairs, j);
            let coh = column(cs, pairs, j);
            assert(is_mean_rate(k, min, own, coh, rates[j]));
            possible_rate_is_weighted_mean(k, m, min, own, coh, rates[j]);
            assert(weights((m.of)(min), pairs, |q: int| (m.of)(coh[q])) =~= ws);
        }
        if all > 0real {
            assert(x == total / all) by (nonlinear_arith)
                requires
                    x * all == total,
                    all > 0real,
            ;
        }
    }
    if i < side * side {
        let within = |j: int|
            {
                &&& j < side * side
                &&& -2 <= i / side - j / side <= 2
                &&& -2 <= i % side - j % side <= 2
            };
        let close = near(side, i);
        let totals = Seq::new(
            n as nat,
            |j: int|
                if within(j) {
                    (m.of)(ds[p]@[j]) - rate(j)
                } else {
                    0real
                },
        );
        let counts = Seq::new(
            n as nat,
            |j: int|
                if within(j) {
                    1real
                } else {
                    0real
                },
        );
        assert(totals =~= Seq::new(
            n as nat,
            |j: int|
                if close(j) {
                    (|j: int| plain[j])(j)
                } else {
                    0real
                },
        ));
        assert(counts =~= Seq::new(
            n as nat,
            |j: int|
                if close(j) {
                    (|j: int| 1real)(j)
                } else {
                    0real
                },
        ));
        assert(sum(totals) == sum_of(n, close, |j: int| plain[j]));
        assert(sum(counts) == sum_of(n, close, |j: int| 1real));
        let (x, t, count) = ((m.of)(ds[p]@[i]) - (m.of)(after[p]@[i]), sum(totals), sum(counts));
        assert(x * count == t) by (nonlinear_arith)
            requires
                x == t / count,
                count >= 1real,
        ;
    }
}

/// In real numbers, what all cells of a pair show besides their mean rates, where it is the same in
/// all of them, is removed completely, whatever the number of cells: every cell of the square is
/// left with its mean rate.
pub proof fn correction_removes_constants_completely<K: Numerics>(
    k: &K,
    m: Reals<K::Value>,
    displacements: &mut Vec<Vec<K::Value>>,
    coherences: &Vec<Vec<K::Value>>,
    min: K::Value,
    x: real,
    side: int,
    p: int,
    i: int,
)
    requires
        computes_in_reals(k, m),
        call_ensures(
            remove_atmospheric_phase::<K>,
            (k, displacements, coherences, min),
            (),
        ),
        0 <= p < old(displacements).len(),
        covers(
            old(displacements)@,
            old(displacements)@.len(),
            old(displacements)@[0].len() as int,
        ),
        covers(coherences@, old(displacements)@.len(), old(displacements)@[0].len() as int),
        0 <= i < side * side,
        0 <= side,
        side * side == old(displacements)@[0].len(),
        forall|j: int|
            0 <= j < side * side ==> (m.of)(#[trigger] old(displacements)@[p]@[j]) == x
                + rate_number(
                (m.of)(min),
                old(displacements)@.len(),
                |q: int| (m.of)(old(displacements)@[q]@[j]),
                |q: int| (m.of)(coherences@[q]@[j]),
            ),
    ensures
        (m.of)(final(displacements)@[p]@[i]) == (m.of)(old(displacements)@[p]@[i]) - x,
{
    let ds = old(displacements)@;
    let cs = coherences@;
    let after = final(displacements)@;
    let n = ds[0].len() as int;
    let d = stack_numbers(m, ds);
    let c = stack_numbers(m, cs);
    assert(side * side < (side + 1) * (side + 1)) by (nonlinear_arith)
        requires
            side >= 0,
    ;
    possible_correction_removes_the_smooth_part(k, m, min, ds, cs, after, side, p, i);
    let plain = residual_numbers((m.of)(min), ds.len(), n as nat, d, c, p);
    assert forall|j: int| 0 <= j < plain.len() implies plain[j] == x by {
        assert((m.of)(ds[p]@[j]) == d(p, j));
        lemma_same_rate(
            (m.of)(min),
            ds.len(),
            |q: int| (m.of)(ds[q]@[j]),
            |q: int| (m.of)(cs[q]@[j]),
            |q: int| d(q, j),
            |q: int| c(q, j),
        );
    }
    lemma_smoothed_constant(plain, side, i, x);
}

/// With any arithmetic, the correction leaves the cells alone that the first pair does not have,
/// and keeps the number of pairs and of cells; without pairs there is nothing to correct.
pub proof fn correction_stays_within_the_first_pair<K: Numerics>(
    k: &K,
    displacements: &mut Vec<Vec<K::Value>>,
    coherences: &Vec<Vec<K::Value>>,
    min: K::Value,
    p: int,
    i: int,
)
    requires
        call_ensures(
            remove_atmospheric_phase::<K>,
            (k, displacements, coherences, min),
            (),
        ),
    ensures
        final(displacements).len() == old(displacements).len(),
        0 <= p < old(displacements).len() ==> final(displacements)@[p].len() == old(
            displacements,
        )@[p].len(),
        0 <= p < old(displacements).len() && old(displacements)@[0].len() <= i < old(
            displacements,
        )@[p].len() ==> final(displacements)@[p]@[i] == old(displacements)@[p]@[i],
{
    let ds = old(displacements)@;
    let after = final(displacements)@;
    if 0 <= p < ds.len() {
        let rates = choose|rates: Seq<K::Value>|
            {
                &&& #[trigger] are_mean_rates(
                    k,
                    min,
                    ds,
                    coherences@,
                    ds[0].len() as int,
                    rates,
                )
                &&& forall|p: int|
                    0 <= p < ds.len() ==> is_screened(k, ds[p]@, rates, (#[trigger] after[p])@)
            };
        assert(is_screened(k, ds[p]@, rates, after[p]@));
    }
}

// ── Reference ──

/// The mean of a cell over all pairs.
pub open spec fn cell_mean(pairs: nat, value: spec_fn(int, int) -> real, cell: int) -> real {
    sum(Seq::new(pairs, |p: int| value(p, cell))) / (pairs as real)
}

/// The best of the first cells.
proof fn lemma_best<K: Numerics>(
    k: &K,
    m: Reals<K::Value>,
    means: Seq<K::Value>,
    bests: Seq<(int, K::Value)>,
    n: int,
)
    requires
        computes_in_reals(k, m),
        are_running_bests(k, means, bests),
        0 <= n <= means.len(),
    ensures
        (m.of)(bests[n].1) >= 0real,
        forall|j: int| 0 <= j < n ==> (m.of)(#[trigger] means[j]) <= (m.of)(bests[n].1),
        bests[n].0 == 0 || 0 <= bests[n].0 < n,
        (m.of)(bests[n].1) == 0real ==> bests[n].0 == 0,
        (m.of)(bests[n].1) > 0real ==> 0 <= bests[n].0 < n && bests[n].1 == means[bests[n].0],
        forall|j: int|
            0 <= j < bests[n].0 ==> (m.of)(#[trigger] means[j]) < (m.of)(bests[n].1),
    decreases n,
{
    tens();
    if n == 0 {
        assert(is_zero(k, bests[0].1));
        assert((m.of)(bests[0].1) == 0real / 1real);
    } else {
        lemma_best(k, m, means, bests, n - 1);
        assert(takes_into_account(
            k,
            n - 1,
            means[n - 1],
            bests[n - 1],
            bests[n],
        ));
    }
}

/// In real numbers, a possible reference is the first cell with the highest mean coherence.
pub proof fn possible_reference_is_first_of_the_best<K: Numerics>(
    k: &K,
    m: Reals<K::Value>,
    coherences: Seq<Vec<K::Value>>,
    n: int,
    cell: int,
    coherence: K::Value,
)
    requires
        computes_in_reals(k, m),
        0 < coherences.len() <= usize::MAX,
        n > 0,
        is_reference(k, coherences, n, cell, coherence),
    ensures
        0 <= cell < n,
        (m.of)(coherence) >= 0real,
        forall|j: int|
            0 <= j < n ==> #[trigger] cell_mean(
                coherences.len(),
                stack_numbers(m, coherences),
                j,
            ) <= (m.of)(coherence),
        (m.of)(coherence) == 0real ==> cell == 0,
        (m.of)(coherence) > 0real ==> (m.of)(coherence) == cell_mean(
            coherences.len(),
            stack_numbers(m, coherences),
            cell,
        ),
        forall|j: int|
            0 <= j < cell ==> #[trigger] cell_mean(
                coherences.len(),
                stack_numbers(m, coherences),
                j,
            ) < (m.of)(coherence),
{
    let (means, bests) = choose|means: Seq<K::Value>, bests: Seq<(int, K::Value)>|
        {
            &&& #[trigger] are_mean_coherences(k, coherences, n, means)
            &&& #[trigger] are_running_bests(k, means, bests)
            &&& bests.last() == (cell, coherence)
        };
    lemma_best(k, m, means, bests, n);
    assert forall|j: int| 0 <= j < n implies (m.of)(means[j]) == #[trigger] cell_mean(
        coherences.len(),
        stack_numbers(m, coherences),
        j,
    ) by {
        let own = column(coherences, coherences.len(), j);
        assert(is_mean(k, own, means[j]));
        possible_mean_is_sum_over_number(k, m, own, means[j]);
        let all = stack_numbers(m, coherences);
        assert(numbers(m, own) =~= Seq::new(coherences.len(), |p: int| all(p, j)));
    }
}

/// In real numbers, the reference is the first of all cells with the highest mean coherence over
/// all pairs, and is given with that mean; it is the first cell where no mean is above zero.
pub proof fn reference_is_first_of_the_best<K: Numerics>(
    k: &K,
    m: Reals<K::Value>,
    coherences: &Vec<Vec<K::Value>>,
    n: usize,
    best: (usize, K::Value),
    j: int,
)
    requires
        computes_in_reals(k, m),
        coherences.len() > 0,
        n > 0,
        call_ensures(find_reference_point::<K>, (k, coherences, n), best),
        0 <= j < n,
    ensures
        best.0 < n,
        ({
            let total = |cell: int|
                sum(Seq::new(coherences@.len(), |p: int| (m.of)(coherences@[p]@[cell])));
            let pairs = coherences@.len() as real;
            &&& total(j) <= (m.of)(best.1) * pairs
            &&& j < best.0 ==> total(j) < (m.of)(best.1) * pairs
            &&& (m.of)(best.1) > 0real ==> total(best.0 as int) == (m.of)(best.1) * pairs
            &&& (m.of)(best.1) >= 0real
            &&& (m.of)(best.1) == 0real ==> best.0 == 0
        }),
{
    possible_reference_is_first_of_the_best(k, m, coherences@, n as int, best.0 as int, best.1);
    let pairs = coherences@.len() as real;
    let b = (m.of)(best.1);
    let all = stack_numbers(m, coherences@);
    let at = best.0 as int;
    let own = sum(Seq::new(coherences@.len(), |p: int| (m.of)(coherences@[p]@[j])));
    let x = cell_mean(coherences@.len(), stack_numbers(m, coherences@), j);
    assert(Seq::new(coherences@.len(), |p: int| (m.of)(coherences@[p]@[j])) =~= Seq::new(
        coherences@.len(),
        |p: int| all(p, j),
    ));
    assert((x <= b ==> own <= b * pairs) && (x < b ==> own < b * pairs)) by (nonlinear_arith)
        requires
            x == own / pairs,
            pairs > 0real,
    ;
    let top = sum(Seq::new(coherences@.len(), |p: int| (m.of)(coherences@[p]@[at])));
    assert(Seq::new(coherences@.len(), |p: int| (m.of)(coherences@[p]@[at])) =~= Seq::new(
        coherences@.len(),
        |p: int| all(p, at),
    ));
    let y = cell_mean(coherences@.len(), stack_numbers(m, coherences@), best.0 as int);
    assert(y == b ==> top == b * pairs) by (nonlinear_arith)
        requires
            y == top / pairs,
            pairs > 0real,
    ;
}

/// In real numbers, referring to a cell takes its displacement from that of every cell of every
/// pair.
pub proof fn referring_takes_the_reference_away<K: Numerics>(
    k: &K,
    m: Reals<K::Value>,
    displacements: &mut Vec<Vec<K::Value>>,
    cell: usize,
    p: int,
    i: int,
)
    requires
        computes_in_reals(k, m),
        call_ensures(refer_to_cell::<K>, (k, displacements, cell), ()),
        0 <= p < old(displacements).len(),
        0 <= i < old(displacements)@[p].len(),
    ensures
        final(displacements).len() == old(displacements).len(),
        final(displacements)@[p].len() == old(displacements)@[p].len(),
        (m.of)(final(displacements)@[p]@[i]) == (m.of)(old(displacements)@[p]@[i]) - (m.of)(
            old(displacements)@[p]@[cell as int],
        ),
{
    let after = final(displacements)@;
    assert(is_referred(k, old(displacements)@[p]@, cell as int, after[p]@));
}

// ── Integration ──

/// What a frame shows in a cell.
pub open spec fn frame_number(
    min: real,
    displacement: spec_fn(int, int) -> real,
    coherence: spec_fn(int, int) -> real,
    f: int,
    i: int,
) -> real {
    sum(
        Seq::new(
            f as nat,
            |p: int|
                if coherence(p, i) >= min {
                    displacement(p, i)
                } else {
                    0real
                },
        ),
    )
}

/// In real numbers, a possible frame shows the sum over the coherent pairs before it.
pub proof fn possible_frames_add_up<K: Numerics>(
    k: &K,
    m: Reals<K::Value>,
    min: K::Value,
    grid: Grid,
    scenes: Seq<SceneText>,
    displacements: Seq<Vec<K::Value>>,
    coherences: Seq<Vec<K::Value>>,
    frames: Seq<DisplacementFrame<K::Value>>,
    f: int,
    i: int,
)
    requires
        computes_in_reals(k, m),
        is_series(k, min, grid, scenes, displacements, coherences, frames),
        0 <= f < frames.len(),
        0 <= i < grid.width * grid.height,
    ensures
        (m.of)(frames[f].displacement_mm@[i]) == frame_number(
            (m.of)(min),
            stack_numbers(m, displacements),
            stack_numbers(m, coherences),
            f,
            i,
        ),
        (m.of)(frames[f].coherence@[i]) == (if f == 0 {
            1real
        } else if (m.of)(coherences[f - 1]@[i]) < (m.of)(min) {
            0real
        } else {
            (m.of)(coherences[f - 1]@[i])
        }),
    decreases f,
{
    tens();
    let d = stack_numbers(m, displacements);
    let c = stack_numbers(m, coherences);
    let term = |p: int|
        if c(p, i) >= (m.of)(min) {
            d(p, i)
        } else {
            0real
        };
    assert(frames[f].fills(grid));
    if f == 0 {
        assert(is_zero(k, frames[0].displacement_mm@[i]));
        assert((m.of)(frames[0].displacement_mm@[i]) == 0real / 1real);
        assert(is_decimal(k, 1, 0, frames[0].coherence@[i]));
        assert((m.of)(frames[0].coherence@[i]) == 1real / 1real);
        assert(Seq::new(0nat, term) =~= Seq::<real>::empty());
        sum_grows(Seq::empty(), 0real);
    } else {
        possible_frames_add_up(
            k,
            m,
            min,
            grid,
            scenes,
            displacements,
            coherences,
            frames,
            f - 1,
            i,
        );
        assert(continues(
            k,
            min,
            displacements[f - 1]@,
            coherences[f - 1]@,
            frames[f - 1],
            frames[f],
        ));
        assert(accumulates(
            k,
            min,
            displacements[f - 1]@[i],
            coherences[f - 1]@[i],
            frames[f - 1].displacement_mm@[i],
            frames[f].displacement_mm@[i],
        ));
        let shown = frames[f].coherence@[i];
        assert(is_gated(k, min, coherences[f - 1]@[i], shown));
        assert(is_zero(k, shown) ==> (m.of)(shown) == 0real / 1real);
        let before = Seq::new((f - 1) as nat, term);
        assert(Seq::new(f as nat, term) =~= before.push(term(f - 1)));
        sum_grows(before, term(f - 1));
    }
}

/// In real numbers, every frame of a stack of any length shows in every cell the sum of the
/// displacements of all pairs before it in which the cell is coherent, beside the coherence of the
/// last of them, or zero where that is too low. The first frame shows no displacement, fully
/// coherent. The frames are those of the scenes, in their order.
pub proof fn frames_add_up_the_coherent_pairs<K: Numerics>(
    k: &K,
    m: Reals<K::Value>,
    min: K::Value,
    grid: &Grid,
    scenes: &Vec<Scene>,
    displacements: &Vec<Vec<K::Value>>,
    coherences: &Vec<Vec<K::Value>>,
    frames: Vec<DisplacementFrame<K::Value>>,
    f: int,
    i: int,
)
    requires
        computes_in_reals(k, m),
        call_ensures(
            integrate::<K>,
            (k, min, grid, scenes, displacements, coherences),
            frames,
        ),
        0 <= f < scenes.len(),
        0 <= i < grid.width * grid.height,
    ensures
        frames.len() == scenes.len(),
        frames@[f].date@ == scenes@[f].date@,
        frames@[f].scene_id@ == scenes@[f].id@,
        frames@[f].grid_w == grid.width,
        frames@[f].grid_h == grid.height,
        frames@[f].displacement_mm.len() == grid.width * grid.height,
        frames@[f].coherence.len() == grid.width * grid.height,
        (m.of)(frames@[f].displacement_mm@[i]) == sum(
            Seq::new(
                f as nat,
                |p: int|
                    if (m.of)(coherences@[p]@[i]) >= (m.of)(min) {
                        (m.of)(displacements@[p]@[i])
                    } else {
                        0real
                    },
            ),
        ),
        f == 0 ==> (m.of)(frames@[f].displacement_mm@[i]) == 0real,
        f == 0 ==> (m.of)(frames@[f].coherence@[i]) == 1real,
        f > 0 && (m.of)(coherences@[f - 1]@[i]) < (m.of)(min) ==> (m.of)(frames@[f].coherence@[i])
            == 0real && (m.of)(frames@[f].displacement_mm@[i]) == (m.of)(
            frames@[f - 1].displacement_mm@[i],
        ),
        f > 0 && (m.of)(coherences@[f - 1]@[i]) >= (m.of)(min) ==> (m.of)(frames@[f].coherence@[i])
            == (m.of)(coherences@[f - 1]@[i]) && (m.of)(frames@[f].displacement_mm@[i]) == (m.of)(
            frames@[f - 1].displacement_mm@[i],
        ) + (m.of)(displacements@[f - 1]@[i]),
{
    tens();
    let texts = scene_texts(scenes@);
    let (ds, cs) = (displacements@, coherences@);
    possible_frames_add_up(k, m, min, *grid, texts, ds, cs, frames@, f, i);
    assert(frames@[f].fills(*grid) && frames@[f].scene() == texts[f]);
    let d = stack_numbers(m, ds);
    let c = stack_numbers(m, cs);
    let term = |p: int|
        if c(p, i) >= (m.of)(min) {
            d(p, i)
        } else {
            0real
        };
    let plain = Seq::new(
        f as nat,
        |p: int|
            if (m.of)(coherences@[p]@[i]) >= (m.of)(min) {
                (m.of)(displacements@[p]@[i])
            } else {
                0real
            },
    );
    assert(plain =~= Seq::new(f as nat, term));
    sum_grows(Seq::empty(), 0real);
    if f > 0 {
        possible_frames_add_up(k, m, min, *grid, texts, ds, cs, frames@, f - 1, i);
        let before = Seq::new((f - 1) as nat, term);
        assert(Seq::new(f as nat, term) =~= before.push(term(f - 1)));
        sum_grows(before, term(f - 1));
    } else {
        assert(plain =~= Seq::empty());
    }
}

/// With any arithmetic, in every frame after the first, a cell whose coherence is not below the
/// least one shows the sum of the frame before and the displacement of the pair; every other cell,
/// also one whose coherence cannot be ordered, shows what the frame before shows.
pub proof fn every_frame_continues_the_one_before<K: Numerics>(
    k: &K,
    min: K::Value,
    grid: &Grid,
    scenes: &Vec<Scene>,
    displacements: &Vec<Vec<K::Value>>,
    coherences: &Vec<Vec<K::Value>>,
    frames: Vec<DisplacementFrame<K::Value>>,
    f: int,
    i: int,
    order: Comparison,
)
    requires
        call_ensures(
            integrate::<K>,
            (k, min, grid, scenes, displacements, coherences),
            frames,
        ),
        1 <= f < scenes.len(),
        0 <= i < grid.width * grid.height,
        forall|c: Comparison|
            #[trigger] call_ensures(K::compare, (k, coherences@[f - 1]@[i], min), c) ==> c == order,
    ensures
        order is Greater || order is Equal ==> call_ensures(
            K::plus,
            (k, frames@[f - 1].displacement_mm@[i], displacements@[f - 1]@[i]),
            frames@[f].displacement_mm@[i],
        ),
        order is Less || order is Unordered ==> frames@[f].displacement_mm@[i] == frames@[f
            - 1].displacement_mm@[i],
        order is Less ==> call_ensures(K::decimal, (k, 0i64, 0u32), frames@[f].coherence@[i]),
        !(order is Less) ==> frames@[f].coherence@[i] == coherences@[f - 1]@[i],
{
    assert(frames@[f].fills(*grid));
    assert(continues(
        k,
        min,
        displacements@[f - 1]@,
        coherences@[f - 1]@,
        frames@[f - 1],
        frames@[f],
    ));
    assert(accumulates(
        k,
        min,
        displacements@[f - 1]@[i],
        coherences@[f - 1]@[i],
        frames@[f - 1].displacement_mm@[i],
        frames@[f].displacement_mm@[i],
    ));
    assert(is_gated(k, min, coherences@[f - 1]@[i], frames@[f].coherence@[i]));
}

// ── Summary figures ──

/// The top of the first cells.
proof fn lemma_top<K: Numerics>(
    k: &K,
    m: Reals<K::Value>,
    min: K::Value,
    displacement: Seq<K::Value>,
    coherence: Seq<K::Value>,
    tops: Seq<K::Value>,
    n: int,
)
    requires
        computes_in_reals(k, m),
        are_running_tops(k, min, displacement, coherence, tops),
        0 <= n <= displacement.len(),
    ensures
        (m.of)(tops[n]) >= 0real,
        forall|j: int|
            0 <= j < n && (m.of)(coherence[j]) >= (m.of)(min) ==> -(m.of)(tops[n]) <= (m.of)(
                #[trigger] displacement[j],
            ) <= (m.of)(tops[n]),
        (m.of)(tops[n]) > 0real ==> exists|j: int|
            0 <= j < n && (m.of)(coherence[j]) >= (m.of)(min) && ((m.of)(#[trigger] displacement[j])
                == (m.of)(tops[n]) || (m.of)(displacement[j]) == -(m.of)(tops[n])),
    decreases n,
{
    tens();
    if n == 0 {
        assert(is_zero(k, tops[0]));
        assert((m.of)(tops[0]) == 0real / 1real);
    } else {
        lemma_top(k, m, min, displacement, coherence, tops, n - 1);
        let d = displacement[n - 1];
        assert(raises(k, min, d, coherence[n - 1], tops[n - 1], tops[n]));
        if (m.of)(coherence[n - 1]) >= (m.of)(min) {
            let size = choose|size: K::Value| #[trigger]
                is_magnitude(k, d, size) && is_larger(k, tops[n - 1], size, tops[n]);
            assert((m.of)(size) == (if (m.of)(d) < 0real {
                -(m.of)(d)
            } else {
                (m.of)(d)
            }));
        }
    }
}

/// In real numbers, a possible maximum is an upper bound that is reached.
pub proof fn possible_maximum_is_reached<K: Numerics>(
    k: &K,
    m: Reals<K::Value>,
    min: K::Value,
    displacement: Seq<K::Value>,
    coherence: Seq<K::Value>,
    top: K::Value,
)
    requires
        computes_in_reals(k, m),
        is_max_subsidence(k, min, displacement, coherence, top),
    ensures
        (m.of)(top) >= 0real,
        forall|j: int|
            0 <= j < displacement.len() && (m.of)(coherence[j]) >= (m.of)(min) ==> -(m.of)(top) <= (
            m.of)(#[trigger] displacement[j]) <= (m.of)(top),
        (m.of)(top) > 0real ==> exists|j: int|
            0 <= j < displacement.len() && (m.of)(coherence[j]) >= (m.of)(min) && ((m.of)(
                #[trigger] displacement[j],
            ) == (m.of)(top) || (m.of)(displacement[j]) == -(m.of)(top)),
{
    let tops = choose|tops: Seq<K::Value>|
        #[trigger] are_running_tops(k, min, displacement, coherence, tops) && top == tops.last();
    lemma_top(k, m, min, displacement, coherence, tops, displacement.len() as int);
}

/// In real numbers, the greatest displacement is not exceeded in any coherent cell, in either
/// direction, and is reached in one, however many cells there are; it is zero where no cell is
/// coherent.
pub proof fn maximum_is_reached_and_not_exceeded<K: Numerics>(
    k: &K,
    m: Reals<K::Value>,
    min: K::Value,
    displacement: &Vec<K::Value>,
    coherence: &Vec<K::Value>,
    top: K::Value,
    i: int,
)
    requires
        computes_in_reals(k, m),
        call_ensures(max_subsidence::<K>, (k, min, displacement, coherence), top),
        0 <= i < displacement.len(),
    ensures
        (m.of)(top) >= 0real,
        (m.of)(coherence@[i]) >= (m.of)(min) ==> -(m.of)(top) <= (m.of)(displacement@[i]) <= (m.of)(
            top,
        ),
        (m.of)(top) == 0real || exists|j: int|
            0 <= j < displacement.len() && (m.of)(coherence@[j]) >= (m.of)(min) && ((m.of)(
                #[trigger] displacement@[j],
            ) == (m.of)(top) || (m.of)(displacement@[j]) == -(m.of)(top)),
{
    possible_maximum_is_reached(k, m, min, displacement@, coherence@, top);
}

/// In real numbers, a possible yearly rate spreads the displacement over the days.
pub proof fn possible_rate_spreads_over_the_days<K: Numerics>(
    k: &K,
    m: Reals<K::Value>,
    displacement: K::Value,
    days: i64,
    rate: K::Value,
)
    requires
        computes_in_reals(k, m),
        is_yearly_rate(k, displacement, days, rate),
    ensures
        days > 0 ==> (m.of)(rate) * (days as real) == (m.of)(displacement) * (36525real / 100real),
        days <= 0 ==> (m.of)(rate) == 0real,
{
    tens();
    if days > 0 {
        let (year, scaled, span) = choose|year: K::Value, scaled: K::Value, span: K::Value|
            {
                &&& #[trigger] is_decimal(k, 36525, 2, year)
                &&& #[trigger] is_product(k, displacement, year, scaled)
                &&& #[trigger] is_decimal(k, days, 0, span)
                &&& is_quotient(k, scaled, span, rate)
            };
        let (r, t, x, y) = ((m.of)(rate), days as real, (m.of)(displacement), (m.of)(year));
        let (s, u) = ((m.of)(scaled), (m.of)(span));
        assert(y == 36525real / 100real);
        assert(u == t / 1real);
        assert(s == x * y);
        assert(r == s / u);
        assert(r * t == x * (36525real / 100real)) by (nonlinear_arith)
            requires
                y == 36525real / 100real,
                u == t / 1real,
                s == x * y,
                r == s / u,
                t > 0real,
        ;
    } else {
        assert((m.of)(rate) == 0real / 1real);
    }
}

/// In real numbers, the yearly rate is what the displacement comes to in 365.25 days, where it took
/// any number of days, and zero where it took none.
pub proof fn yearly_rate_spreads_over_the_days<K: Numerics>(
    k: &K,
    m: Reals<K::Value>,
    displacement: K::Value,
    days: i64,
    rate: K::Value,
)
    requires
        computes_in_reals(k, m),
        call_ensures(yearly_rate::<K>, (k, displacement, days), rate),
    ensures
        days > 0 ==> (m.of)(rate) * (days as real) == (m.of)(displacement) * (36525real / 100real),
        days <= 0 ==> (m.of)(rate) == 0real,
{
    possible_rate_spreads_over_the_days(k, m, displacement, days, rate);
}

// ── Any arithmetic ──

/// With any arithmetic, only cells whose coherence is not below the least one, and can be ordered,
/// count for the greatest displacement.
pub proof fn maximum_leaves_out_what_is_not_coherent<K: Numerics>(
    k: &K,
    min: K::Value,
    displacement: &Vec<K::Value>,
    coherence: &Vec<K::Value>,
    top: K::Value,
    order: spec_fn(int) -> Comparison,
) -> (tops: Seq<K::Value>)
    requires
        call_ensures(max_subsidence::<K>, (k, min, displacement, coherence), top),
        forall|i: int, c: Comparison|
            0 <= i < displacement.len() && #[trigger] call_ensures(
                K::compare,
                (k, coherence@[i], min),
                c,
            ) ==> c == order(i),
    ensures
        tops.len() == displacement.len() + 1,
        tops.last() == top,
        call_ensures(K::decimal, (k, 0i64, 0u32), tops[0]),
        forall|i: int|
            0 <= i < displacement.len() && (order(i) is Less || order(i) is Unordered)
                ==> #[trigger] tops[i + 1] == tops[i],
        forall|i: int|
            #![trigger order(i)]
            0 <= i < displacement.len() && (order(i) is Equal || order(i) is Greater) ==> exists|
                size: K::Value,
            |
                call_ensures(K::magnitude, (k, displacement@[i]), size) && #[trigger] call_ensures(
                    K::larger,
                    (k, tops[i], size),
                    tops[i + 1],
                ),
{
    let tops = choose|tops: Seq<K::Value>|
        #[trigger] are_running_tops(k, min, displacement@, coherence@, tops) && top == tops.last();
    assert forall|i: int|
        0 <= i < displacement.len() && (order(i) is Less || order(i) is Unordered) implies
        #[trigger] tops[i + 1] == tops[i] by {
        assert(raises(k, min, displacement@[i], coherence@[i], tops[i], tops[i + 1]));
    }
    assert forall|i: int|
        #![trigger order(i)]
        0 <= i < displacement.len() && (order(i) is Equal || order(i) is Greater) implies exists|
        size: K::Value,
    |
        call_ensures(K::magnitude, (k, displacement@[i]), size) && #[trigger] call_ensures(
            K::larger,
            (k, tops[i], size),
            tops[i + 1],
        ) by {
        assert(raises(k, min, displacement@[i], coherence@[i], tops[i], tops[i + 1]));
        let size = choose|size: K::Value| #[trigger]
            is_magnitude(k, displacement@[i], size) && is_larger(k, tops[i], size, tops[i + 1]);
        assert(call_ensures(K::larger, (k, tops[i], size), tops[i + 1]));
    }
    tops
}

/// With any arithmetic, only pairs in which the coherence is not below the least one, and can be
/// ordered, enter the mean rate of a cell, each with the square of the coherence as its weight.
pub proof fn rates_leave_out_what_is_not_coherent<K: Numerics>(
    k: &K,
    min: K::Value,
    displacements: &Vec<K::Value>,
    coherences: &Vec<K::Value>,
    rate: K::Value,
    order: spec_fn(int) -> Comparison,
) -> (totals: Seq<(K::Value, K::Value)>)
    requires
        call_ensures(mean_rate::<K>, (k, min, displacements, coherences), rate),
        forall|p: int, c: Comparison|
            0 <= p < displacements.len() && #[trigger] call_ensures(
                K::compare,
                (k, coherences@[p], min),
                c,
            ) ==> c == order(p),
    ensures
        totals.len() == displacements.len() + 1,
        call_ensures(K::decimal, (k, 0i64, 0u32), totals[0].0),
        call_ensures(K::decimal, (k, 0i64, 0u32), totals[0].1),
        exists|zero: K::Value, c: Comparison|
            {
                &&& call_ensures(K::decimal, (k, 0i64, 0u32), zero)
                &&& #[trigger] call_ensures(K::compare, (k, totals.last().1, zero), c)
                &&& c is Greater ==> call_ensures(
                    K::over,
                    (k, totals.last().0, totals.last().1),
                    rate,
                )
                &&& !(c is Greater) ==> rate == totals.last().0
            },
        forall|p: int|
            0 <= p < displacements.len() && (order(p) is Less || order(p) is Unordered)
                ==> #[trigger] totals[p + 1] == totals[p],
        forall|p: int|
            #![trigger order(p)]
            0 <= p < displacements.len() && (order(p) is Equal || order(p) is Greater) ==> exists|
                weight: K::Value,
                weighted: K::Value,
            |
                {
                    &&& #[trigger] call_ensures(
                        K::times,
                        (k, coherences@[p], coherences@[p]),
                        weight,
                    )
                    &&& #[trigger] call_ensures(K::times, (k, displacements@[p], weight), weighted)
                    &&& call_ensures(K::plus, (k, totals[p].0, weighted), totals[p + 1].0)
                    &&& call_ensures(K::plus, (k, totals[p].1, weight), totals[p + 1].1)
                },
{
    let totals = choose|totals: Seq<(K::Value, K::Value)>|
        #[trigger] are_rate_totals(k, min, displacements@, coherences@, totals) && is_weighted_rate(
            k,
            totals.last(),
            rate,
        );
    let total = totals.last();
    let zero = choose|zero: K::Value|
        #[trigger] is_zero(k, zero) && {
            ||| answers_above(k, total.1, zero, true) && is_quotient(k, total.0, total.1, rate)
            ||| answers_above(k, total.1, zero, false) && rate == total.0
        };
    let above_zero = answers_above(k, total.1, zero, true) && is_quotient(
        k,
        total.0,
        total.1,
        rate,
    );
    let c = choose|c: Comparison|
        #[trigger] compares(k, total.1, zero, c) && above_zero == (c is Greater);
    assert(call_ensures(K::compare, (k, total.1, zero), c));
    assert forall|p: int|
        0 <= p < displacements.len() && (order(p) is Less || order(p) is Unordered) implies
        #[trigger] totals[p + 1] == totals[p] by {
        assert(adds_to_rate(
            k,
            min,
            displacements@[p],
            coherences@[p],
            totals[p],
            totals[p + 1],
        ));
    }
    assert forall|p: int|
        #![trigger order(p)]
        0 <= p < displacements.len() && (order(p) is Equal || order(p) is Greater) implies exists|
        weight: K::Value,
        weighted: K::Value,
    |
        {
            &&& #[trigger] call_ensures(K::times, (k, coherences@[p], coherences@[p]), weight)
            &&& #[trigger] call_ensures(K::times, (k, displacements@[p], weight), weighted)
            &&& call_ensures(K::plus, (k, totals[p].0, weighted), totals[p + 1].0)
            &&& call_ensures(K::plus, (k, totals[p].1, weight), totals[p + 1].1)
        } by {
        assert(adds_to_rate(
            k,
            min,
            displacements@[p],
            coherences@[p],
            totals[p],
            totals[p + 1],
        ));
        let (weight, weighted) = choose|weight: K::Value, weighted: K::Value|
            {
                &&& #[trigger] is_product(k, coherences@[p], coherences@[p], weight)
                &&& #[trigger] is_product(k, displacements@[p], weight, weighted)
                &&& is_sum(k, totals[p].0, weighted, totals[p + 1].0)
                &&& is_sum(k, totals[p].1, weight, totals[p + 1].1)
            };
        assert(call_ensures(K::times, (k, coherences@[p], coherences@[p]), weight));
        assert(call_ensures(K::times, (k, displacements@[p], weight), weighted));
    }
    totals
}

/// With any arithmetic, a cell becomes the reference only where its mean coherence is above that of
/// the best one before it; a mean that cannot be ordered does not.
pub proof fn reference_is_only_replaced_by_a_better_one<K: Numerics>(
    k: &K,
    coherences: &Vec<Vec<K::Value>>,
    n: usize,
    best: (usize, K::Value),
) -> (steps: (Seq<K::Value>, Seq<(int, K::Value)>))
    requires
        call_ensures(find_reference_point::<K>, (k, coherences, n), best),
    ensures
        steps.0.len() == n,
        steps.1.len() == n + 1,
        steps.1[0].0 == 0,
        call_ensures(K::decimal, (k, 0i64, 0u32), steps.1[0].1),
        steps.1.last() == (best.0 as int, best.1),
        forall|i: int|
            0 <= i < n ==> is_mean(
                k,
                Seq::new(coherences@.len(), |p: int| coherences@[p]@[i]),
                #[trigger] steps.0[i],
            ),
        forall|i: int|
            0 <= i < n && (forall|c: Comparison|
                #[trigger] call_ensures(K::compare, (k, steps.0[i], steps.1[i].1), c) ==> c
                    == Comparison::Greater) ==> #[trigger] steps.1[i + 1] == (i, steps.0[i]),
        forall|i: int|
            0 <= i < n && (forall|c: Comparison|
                #[trigger] call_ensures(K::compare, (k, steps.0[i], steps.1[i].1), c) ==> c
                    != Comparison::Greater) ==> #[trigger] steps.1[i + 1] == steps.1[i],
{
    let (means, bests) = choose|means: Seq<K::Value>, bests: Seq<(int, K::Value)>|
        {
            &&& #[trigger] are_mean_coherences(k, coherences@, n as int, means)
            &&& #[trigger] are_running_bests(k, means, bests)
            &&& bests.last() == (best.0 as int, best.1)
        };
    assert forall|i: int| 0 <= i < n implies is_mean(
        k,
        Seq::new(coherences@.len(), |p: int| coherences@[p]@[i]),
        #[trigger] means[i],
    ) by {
        assert(is_mean(k, column(coherences@, coherences@.len(), i), means[i]));
        assert(column(coherences@, coherences@.len(), i) =~= Seq::new(
            coherences@.len(),
            |p: int| coherences@[p]@[i],
        ));
    }
    assert forall|i: int|
        0 <= i < n && (forall|c: Comparison|
            #[trigger] call_ensures(K::compare, (k, means[i], bests[i].1), c) ==> c
                == Comparison::Greater) implies #[trigger] bests[i + 1] == (i, means[i]) by {
        assert(takes_into_account(k, i, means[i], bests[i], bests[i + 1]));
    }
    assert forall|i: int|
        0 <= i < n && (forall|c: Comparison|
            #[trigger] call_ensures(K::compare, (k, means[i], bests[i].1), c) ==> c
                != Comparison::Greater) implies #[trigger] bests[i + 1] == bests[i] by {
        assert(takes_into_account(k, i, means[i], bests[i], bests[i + 1]));
    }
    (means, bests)
}

/// With any arithmetic, a smoothed value is a mean of all the cells within two rows and two columns
/// that have a value, on a grid of any side; behind the square it is zero.
pub proof fn smoothing_leaves_out_no_neighbour<K: Numerics>(
    k: &K,
    data: &Vec<K::Value>,
    side: usize,
    smoothed: Vec<K::Value>,
    cell: int,
) -> (window: Seq<usize>)
    requires
        side * side <= usize::MAX,
        call_ensures(spatial_smooth::<K>, (k, data, side), smoothed),
        0 <= cell < data.len(),
    ensures
        cell >= side * side ==> call_ensures(K::decimal, (k, 0i64, 0u32), smoothed@[cell]),
        cell < side * side ==> {
            &&& is_mean(
                k,
                Seq::new(window.len(), |j: int| data@[window[j] as int]),
                smoothed@[cell],
            )
            &&& forall|i: int, j: int| 0 <= i < j < window.len() ==> window[i] < window[j]
            &&& forall|other: usize| #[trigger]
                window.contains(other) <==> {
                    &&& other < data.len()
                    &&& other < side * side
                    &&& -2 <= cell / side as int - other as int / side as int <= 2
                    &&& -2 <= cell % side as int - other as int % side as int <= 2
                }
        },
{
    let s = side as int;
    let n = data@.len() as int;
    if cell < s * s {
        assert(is_smoothed_value(k, data@, s, cell, smoothed@[cell]));
        let window = choose|window: Seq<usize>|
            #[trigger] is_window(s, n, cell, window) && is_mean(
                k,
                picked(data@, window),
                smoothed@[cell],
            );
        assert(picked(data@, window) =~= Seq::new(
            window.len(),
            |j: int| data@[window[j] as int],
        ));
        assert forall|other: usize| #[trigger] window.contains(other) <==> {
            &&& other < data.len()
            &&& other < side * side
            &&& -2 <= cell / side as int - other as int / side as int <= 2
            &&& -2 <= cell % side as int - other as int % side as int <= 2
        } by {
            if window.contains(other) {
                let i = choose|i: int| 0 <= i < window.len() && window[i] == other;
                assert(is_neighbour(s, n, cell, window[i] as int));
            }
            if other < data.len() && other < side * side && -2 <= cell / side as int - other as int
                / side as int <= 2 && -2 <= cell % side as int - other as int % side as int <= 2 {
                assert(is_neighbour(s, n, cell, other as int));
            }
        }
        window
    } else {
        assert(is_smoothed_value(k, data@, s, cell, smoothed@[cell]));
        Seq::empty()
    }
}

/// With any arithmetic, the correction of a pair takes from its displacements their smoothed
/// differences to the mean rates of all cells.
pub proof fn correction_goes_by_rates_and_smoothing<K: Numerics>(
    k: &K,
    displacements: &mut Vec<Vec<K::Value>>,
    coherences: &Vec<Vec<K::Value>>,
    min: K::Value,
    p: int,
)
    requires
        call_ensures(
            remove_atmospheric_phase::<K>,
            (k, displacements, coherences, min),
            (),
        ),
        0 <= p < old(displacements).len(),
    ensures
        exists|
            rates: Seq<K::Value>,
            residuals: Seq<K::Value>,
            side: int,
            screen: Seq<K::Value>,
        |
            {
                &&& #[trigger] rates.len() == old(displacements)@[0].len()
                &&& residuals.len() == old(displacements)@[0].len()
                &&& 0 <= side
                &&& side * side <= old(displacements)@[0].len() < (side + 1) * (side + 1)
                &&& #[trigger] is_smoothed(k, residuals, side, screen)
                &&& forall|j: int|
                    0 <= j < old(displacements)@[0].len() ==> is_mean_rate(
                        k,
                        min,
                        Seq::new(old(displacements)@.len(), |q: int| old(displacements)@[q]@[j]),
                        Seq::new(old(displacements)@.len(), |q: int| coherences@[q]@[j]),
                        #[trigger] rates[j],
                    )
                &&& forall|j: int|
                    0 <= j < old(displacements)@[0].len() ==> call_ensures(
                        K::minus,
                        (k, old(displacements)@[p]@[j], rates[j]),
                        #[trigger] residuals[j],
                    )
                &&& forall|j: int|
                    0 <= j < old(displacements)@[0].len() ==> call_ensures(
                        K::minus,
                        (k, old(displacements)@[p]@[j], #[trigger] screen[j]),
                        final(displacements)@[p]@[j],
                    )
            },
{
    let ds = old(displacements)@;
    let cs = coherences@;
    let after = final(displacements)@;
    let n = ds[0].len() as int;
    let rates = choose|rates: Seq<K::Value>|
        {
            &&& #[trigger] are_mean_rates(k, min, ds, cs, n, rates)
            &&& forall|p: int|
                0 <= p < ds.len() ==> is_screened(k, ds[p]@, rates, (#[trigger] after[p])@)
        };
    assert(is_screened(k, ds[p]@, rates, after[p]@));
    let (residuals, side, screen) = choose|
        residuals: Seq<K::Value>,
        side: int,
        screen: Seq<K::Value>,
    |
        {
            &&& #[trigger] are_residuals(k, ds[p]@, rates, residuals)
            &&& 0 <= side
            &&& side * side <= rates.len() < (side + 1) * (side + 1)
            &&& #[trigger] is_smoothed(k, residuals, side, screen)
            &&& forall|i: int|
                0 <= i < rates.len() ==> is_difference(
                    k,
                    ds[p]@[i],
                    screen[i],
                    #[trigger] after[p]@[i],
                )
        };
    assert forall|j: int| 0 <= j < n implies is_mean_rate(
        k,
        min,
        Seq::new(ds.len(), |q: int| ds[q]@[j]),
        Seq::new(ds.len(), |q: int| cs[q]@[j]),
        #[trigger] rates[j],
    ) by {
        assert(column(ds, ds.len(), j) =~= Seq::new(ds.len(), |q: int| ds[q]@[j]));
        assert(column(cs, ds.len(), j) =~= Seq::new(ds.len(), |q: int| cs[q]@[j]));
    }
    assert forall|j: int| 0 <= j < n implies call_ensures(
        K::minus,
        (k, ds[p]@[j], rates[j]),
        #[trigger] residuals[j],
    ) by {
        assert(is_difference(k, ds[p]@[j], rates[j], residuals[j]));
    }
    assert forall|j: int| 0 <= j < n implies call_ensures(
        K::minus,
        (k, ds[p]@[j], #[trigger] screen[j]),
        after[p]@[j],
    ) by {
        assert(is_difference(k, ds[p]@[j], screen[j], after[p]@[j]));
    }
    assert(rates.len() == n && is_smoothed(k, residuals, side, screen));
}

} // verus!
