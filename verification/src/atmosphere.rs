//! Removal of the atmospheric phase screen from a stack of interferograms.
use vstd::prelude::*;
use crate::grid::{is_window, smoothing_window, square_side};
use crate::numerics::{
    above, answers_above, answers_at_least, at_least, is_difference, is_mean, is_product,
    is_quotient, is_sum, is_zero, mean, Numerics,
};

verus! {

/// The values of one cell in the first `pairs` grids of a stack.
pub open spec fn column<V>(stack: Seq<Vec<V>>, pairs: nat, cell: int) -> Seq<V> {
    Seq::new(pairs, |p: int| stack[p]@[cell])
}

/// Whether the first `pairs` grids of a stack are there and have at least `n` values each.
pub open spec fn covers<V>(stack: Seq<Vec<V>>, pairs: nat, n: int) -> bool {
    &&& pairs <= stack.len()
    &&& forall|p: int| 0 <= p < pairs ==> (#[trigger] stack[p]).len() >= n
}

/// The values at some places.
pub open spec fn picked<V>(data: Seq<V>, places: Seq<usize>) -> Seq<V> {
    Seq::new(places.len(), |j: int| data[places[j] as int])
}

/// One pair's share in a mean rate: where it is coherent, its displacement weighted with the
/// square of its coherence is added to the weighted sum, and the weight to the weights.
pub open spec fn adds_to_rate<K: Numerics>(
    k: &K,
    min_coherence: K::Value,
    displacement: K::Value,
    coherence: K::Value,
    before: (K::Value, K::Value),
    after: (K::Value, K::Value),
) -> bool {
    ||| {
        &&& answers_at_least(k, coherence, min_coherence, true)
        &&& exists|weight: K::Value, weighted: K::Value|
            {
                &&& #[trigger] is_product(k, coherence, coherence, weight)
                &&& #[trigger] is_product(k, displacement, weight, weighted)
                &&& is_sum(k, before.0, weighted, after.0)
                &&& is_sum(k, before.1, weight, after.1)
            }
    }
    ||| answers_at_least(k, coherence, min_coherence, false) && after == before
}

/// `totals` can be the weighted sums and weights of the first pairs, of none up to all of them.
pub open spec fn are_rate_totals<K: Numerics>(
    k: &K,
    min_coherence: K::Value,
    displacements: Seq<K::Value>,
    coherences: Seq<K::Value>,
    totals: Seq<(K::Value, K::Value)>,
) -> bool {
    &&& totals.len() == displacements.len() + 1
    &&& is_zero(k, totals[0].0)
    &&& is_zero(k, totals[0].1)
    &&& forall|p: int|
        0 <= p < displacements.len() ==> adds_to_rate(
            k,
            min_coherence,
            #[trigger] displacements[p],
            coherences[p],
            totals[p],
            totals[p + 1],
        )
}

/// `rate` can be the weighted sum over its weight, or the bare sum where the weight is not above
/// zero.
pub open spec fn is_weighted_rate<K: Numerics>(
    k: &K,
    total: (K::Value, K::Value),
    rate: K::Value,
) -> bool {
    exists|zero: K::Value|
        #[trigger] is_zero(k, zero) && {
            ||| answers_above(k, total.1, zero, true) && is_quotient(k, total.0, total.1, rate)
            ||| answers_above(k, total.1, zero, false) && rate == total.0
        }
}

/// `rate` can be the mean displacement per pair of a cell, from its coherent pairs, each weighted
/// with the square of its coherence.
pub open spec fn is_mean_rate<K: Numerics>(
    k: &K,
    min_coherence: K::Value,
    displacements: Seq<K::Value>,
    coherences: Seq<K::Value>,
    rate: K::Value,
) -> bool {
    exists|totals: Seq<(K::Value, K::Value)>|
        #[trigger] are_rate_totals(k, min_coherence, displacements, coherences, totals)
            && is_weighted_rate(k, totals.last(), rate)
}

/// `value` can be the smoothed value of a cell: the mean over its neighbourhood, or zero outside
/// the square grid.
pub open spec fn is_smoothed_value<K: Numerics>(
    k: &K,
    data: Seq<K::Value>,
    side: int,
    cell: int,
    value: K::Value,
) -> bool {
    if cell < side * side {
        exists|window: Seq<usize>|
            #[trigger] is_window(side, data.len() as int, cell, window) && is_mean(
                k,
                picked(data, window),
                value,
            )
    } else {
        is_zero(k, value)
    }
}

/// `smoothed` can be the smoothed values of a square grid.
pub open spec fn is_smoothed<K: Numerics>(
    k: &K,
    data: Seq<K::Value>,
    side: int,
    smoothed: Seq<K::Value>,
) -> bool {
    &&& smoothed.len() == data.len()
    &&& forall|i: int|
        0 <= i < data.len() ==> is_smoothed_value(k, data, side, i, #[trigger] smoothed[i])
}

/// `rates` can be the mean displacements per pair of the first `n` cells of a stack.
pub open spec fn are_mean_rates<K: Numerics>(
    k: &K,
    min_coherence: K::Value,
    displacements: Seq<Vec<K::Value>>,
    coherences: Seq<Vec<K::Value>>,
    n: int,
    rates: Seq<K::Value>,
) -> bool {
    &&& rates.len() == n
    &&& forall|i: int|
        0 <= i < n ==> is_mean_rate(
            k,
            min_coherence,
            column(displacements, displacements.len(), i),
            column(coherences, displacements.len(), i),
            #[trigger] rates[i],
        )
}

/// `residuals` can be what is left of the displacements when the mean rates are taken away.
pub open spec fn are_residuals<K: Numerics>(
    k: &K,
    displacement: Seq<K::Value>,
    rates: Seq<K::Value>,
    residuals: Seq<K::Value>,
) -> bool {
    &&& residuals.len() == rates.len()
    &&& forall|i: int|
        0 <= i < rates.len() ==> is_difference(
            k,
            displacement[i],
            #[trigger] rates[i],
            residuals[i],
        )
}

/// `corrected` can be the displacements of a pair without its atmospheric phase screen: the
/// screen is what is left of them beside the mean rates, smoothed over the grid.
pub open spec fn is_screened<K: Numerics>(
    k: &K,
    displacement: Seq<K::Value>,
    rates: Seq<K::Value>,
    corrected: Seq<K::Value>,
) -> bool {
    &&& corrected.len() == displacement.len()
    &&& exists|residuals: Seq<K::Value>, side: int, screen: Seq<K::Value>|
        {
            &&& #[trigger] are_residuals(k, displacement, rates, residuals)
            &&& 0 <= side
            &&& side * side <= rates.len() < (side + 1) * (side + 1)
            &&& #[trigger] is_smoothed(k, residuals, side, screen)
            &&& forall|i: int|
                0 <= i < rates.len() ==> is_difference(
                    k,
                    displacement[i],
                    screen[i],
                    #[trigger] corrected[i],
                )
        }
    &&& forall|i: int|
        rates.len() <= i < displacement.len() ==> #[trigger] corrected[i] == displacement[i]
}

/// `corrected` can be a stack without its atmospheric phase screens.
pub open spec fn is_corrected<K: Numerics>(
    k: &K,
    min_coherence: K::Value,
    displacements: Seq<Vec<K::Value>>,
    coherences: Seq<Vec<K::Value>>,
    corrected: Seq<Vec<K::Value>>,
) -> bool {
    &&& corrected.len() == displacements.len()
    &&& displacements.len() > 0 ==> exists|rates: Seq<K::Value>|
        {
            &&& #[trigger] are_mean_rates(
                k,
                min_coherence,
                displacements,
                coherences,
                displacements[0].len() as int,
                rates,
            )
            &&& forall|p: int|
                0 <= p < displacements.len() ==> is_screened(
                    k,
                    displacements[p]@,
                    rates,
                    (#[trigger] corrected[p])@,
                )
        }
}

/// The values at some places.
fn pick<V: Copy>(data: &Vec<V>, places: &Vec<usize>) -> (values: Vec<V>)
    requires
        forall|j: int| 0 <= j < places.len() ==> (#[trigger] places@[j]) < data.len(),
    ensures
        values@ == picked(data@, places@),
{
    let mut values: Vec<V> = Vec::new();
    let mut j: usize = 0;
    while j < places.len()
        invariant
            j <= places.len(),
            forall|i: int| 0 <= i < places.len() ==> (#[trigger] places@[i]) < data.len(),
            values@ == picked(data@, places@).take(j as int),
        decreases places.len() - j,
    {
        values.push(data[places[j]]);
        j = j + 1;
    }
    values
}

/// The values of one cell in the first `pairs` grids of a stack.
pub fn cell_values<V: Copy>(stack: &Vec<Vec<V>>, pairs: usize, cell: usize) -> (values: Vec<V>)
    requires
        covers(stack@, pairs as nat, cell + 1),
    ensures
        values@ == column(stack@, pairs as nat, cell as int),
{
    let mut values: Vec<V> = Vec::new();
    let mut p: usize = 0;
    while p < pairs
        invariant
            p <= pairs <= stack.len(),
            covers(stack@, pairs as nat, cell + 1),
            values@ == column(stack@, pairs as nat, cell as int).take(p as int),
        decreases pairs - p,
    {
        let grid = &stack[p];
        assert(stack@[p as int].len() >= cell + 1);
        values.push(grid[cell]);
        p = p + 1;
    }
    values
}

/// Smooths the values of a square grid with a box filter.
pub fn spatial_smooth<K: Numerics>(k: &K, data: &Vec<K::Value>, grid_side: usize) -> (smoothed: Vec<
    K::Value,
>)
    requires
        grid_side * grid_side <= usize::MAX,
    ensures
        is_smoothed(k, data@, grid_side as int, smoothed@),
{
    let mut smoothed: Vec<K::Value> = Vec::new();
    let mut i: usize = 0;
    while i < data.len()
        invariant
            grid_side * grid_side <= usize::MAX,
            i <= data.len(),
            smoothed.len() == i,
            forall|j: int|
                0 <= j < i ==> is_smoothed_value(
                    k,
                    data@,
                    grid_side as int,
                    j,
                    #[trigger] smoothed@[j],
                ),
        decreases data.len() - i,
    {
        if i < grid_side * grid_side {
            let row: usize = i / grid_side;
            let col: usize = i % grid_side;
            proof {
                lemma_square_place(i as int, grid_side as int);
            }
            let window = smoothing_window(row, col, grid_side, data.len());
            let value = mean(k, &pick(data, &window));
            assert(is_window(grid_side as int, data@.len() as int, i as int, window@));
            smoothed.push(value);
        } else {
            smoothed.push(k.decimal(0, 0));
        }
        i = i + 1;
    }
    smoothed
}

/// The place of a cell of a square grid.
proof fn lemma_square_place(i: int, side: int)
    requires
        0 <= i < side * side,
        side >= 0,
    ensures
        side > 0,
        0 <= i / side < side,
        0 <= i % side < side,
        (i / side) * side + i % side == i,
{
    assert(side > 0) by (nonlinear_arith)
        requires
            0 <= i < side * side,
            side >= 0,
    ;
    vstd::arithmetic::div_mod::lemma_fundamental_div_mod(i, side);
    vstd::arithmetic::div_mod::lemma_mod_bound(i, side);
    let q = i / side;
    assert(0 <= q < side && q * side + i % side == i) by (nonlinear_arith)
        requires
            i == side * q + i % side,
            0 <= i % side < side,
            0 <= i < side * side,
            side > 0,
    ;
}

/// The mean displacement per pair of a cell.
pub fn mean_rate<K: Numerics>(
    k: &K,
    min_coherence: K::Value,
    displacements: &Vec<K::Value>,
    coherences: &Vec<K::Value>,
) -> (rate: K::Value)
    requires
        coherences.len() >= displacements.len(),
    ensures
        is_mean_rate(k, min_coherence, displacements@, coherences@, rate),
{
    let mut sum = k.decimal(0, 0);
    let mut weights = k.decimal(0, 0);
    let ghost mut totals: Seq<(K::Value, K::Value)> = seq![(sum, weights)];
    let mut p: usize = 0;
    while p < displacements.len()
        invariant
            p <= displacements.len() <= coherences.len(),
            totals.len() == p + 1,
            totals[p as int] == (sum, weights),
            is_zero(k, totals[0].0),
            is_zero(k, totals[0].1),
            forall|q: int|
                0 <= q < p ==> adds_to_rate(
                    k,
                    min_coherence,
                    #[trigger] displacements@[q],
                    coherences@[q],
                    totals[q],
                    totals[q + 1],
                ),
        decreases displacements.len() - p,
    {
        let coherence = coherences[p];
        let ghost before = (sum, weights);
        if at_least(k, coherence, min_coherence) {
            let weight = k.times(coherence, coherence);
            let weighted = k.times(displacements[p], weight);
            sum = k.plus(sum, weighted);
            weights = k.plus(weights, weight);
            assert(is_product(k, coherence, coherence, weight));
            assert(is_product(k, displacements@[p as int], weight, weighted));
        }
        proof {
            assert(adds_to_rate(
                k,
                min_coherence,
                displacements@[p as int],
                coherences@[p as int],
                before,
                (sum, weights),
            ));
            totals = totals.push((sum, weights));
        }
        p = p + 1;
    }
    let zero = k.decimal(0, 0);
    assert(is_zero(k, zero));
    assert(are_rate_totals(k, min_coherence, displacements@, coherences@, totals));
    let rate = if above(k, weights, zero) {
        k.over(sum, weights)
    } else {
        sum
    };
    assert(is_weighted_rate(k, totals.last(), rate));
    rate
}

/// Takes the atmospheric phase screen away from the displacements of one pair.
fn remove_screen<K: Numerics>(k: &K, displacement: &Vec<K::Value>, rates: &Vec<K::Value>) -> (
    corrected: Vec<K::Value>)
    requires
        displacement.len() >= rates.len(),
    ensures
        is_screened(k, displacement@, rates@, corrected@),
{
    let n = rates.len();
    let mut residuals: Vec<K::Value> = Vec::new();
    let mut i: usize = 0;
    while i < n
        invariant
            i <= n == rates.len() <= displacement.len(),
            residuals.len() == i,
            forall|j: int|
                0 <= j < i ==> is_difference(
                    k,
                    displacement@[j],
                    #[trigger] rates@[j],
                    residuals@[j],
                ),
        decreases n - i,
    {
        residuals.push(k.minus(displacement[i], rates[i]));
        i = i + 1;
    }
    assert(are_residuals(k, displacement@, rates@, residuals@));
    let side = square_side(n);
    let screen = spatial_smooth(k, &residuals, side);
    let mut corrected: Vec<K::Value> = Vec::new();
    let mut i: usize = 0;
    while i < displacement.len()
        invariant
            i <= displacement.len(),
            n == screen.len() <= displacement.len(),
            corrected.len() == i,
            forall|j: int|
                0 <= j < i && j < n ==> is_difference(
                    k,
                    displacement@[j],
                    screen@[j],
                    #[trigger] corrected@[j],
                ),
            forall|j: int| n <= j < i ==> #[trigger] corrected@[j] == displacement@[j],
        decreases displacement.len() - i,
    {
        if i < n {
            corrected.push(k.minus(displacement[i], screen[i]));
        } else {
            corrected.push(displacement[i]);
        }
        i = i + 1;
    }
    assert(is_smoothed(k, residuals@, side as int, screen@));
    corrected
}

/// Estimates the atmospheric phase screen of every pair and takes it away.
///
/// The mean displacement per pair stands for the deformation; what a pair shows beside it,
/// smoothed over the grid, stands for the atmosphere.
pub fn remove_atmospheric_phase<K: Numerics>(
    k: &K,
    pair_displacements: &mut Vec<Vec<K::Value>>,
    pair_coherences: &Vec<Vec<K::Value>>,
    min_coherence: K::Value,
)
    requires
        old(pair_displacements).len() > 0 ==> {
            let pairs = old(pair_displacements)@.len();
            let n = old(pair_displacements)@[0].len() as int;
            &&& covers(old(pair_displacements)@, pairs, n)
            &&& covers(pair_coherences@, pairs, n)
        },
    ensures
        is_corrected(
            k,
            min_coherence,
            old(pair_displacements)@,
            pair_coherences@,
            final(pair_displacements)@,
        ),
{
    if pair_displacements.len() == 0 {
        return ;
    }
    let pairs = pair_displacements.len();
    let n = pair_displacements[0].len();
    let mut rates: Vec<K::Value> = Vec::new();
    let mut i: usize = 0;
    while i < n
        invariant
            i <= n,
            pair_displacements@ == old(pair_displacements)@,
            pairs == pair_displacements.len(),
            covers(pair_displacements@, pairs as nat, n as int),
            covers(pair_coherences@, pairs as nat, n as int),
            rates.len() == i,
            forall|j: int|
                0 <= j < i ==> is_mean_rate(
                    k,
                    min_coherence,
                    column(pair_displacements@, pairs as nat, j),
                    column(pair_coherences@, pairs as nat, j),
                    #[trigger] rates@[j],
                ),
        decreases n - i,
    {
        let displacements = cell_values(pair_displacements, pairs, i);
        let coherences = cell_values(pair_coherences, pairs, i);
        rates.push(mean_rate(k, min_coherence, &displacements, &coherences));
        i = i + 1;
    }
    let mut corrected: Vec<Vec<K::Value>> = Vec::new();
    let mut p: usize = 0;
    while p < pairs
        invariant
            p <= pairs == pair_displacements.len(),
            pair_displacements@ == old(pair_displacements)@,
            covers(pair_displacements@, pairs as nat, n as int),
            rates.len() == n,
            corrected.len() == p,
            forall|q: int|
                0 <= q < p ==> is_screened(
                    k,
                    pair_displacements@[q]@,
                    rates@,
                    (#[trigger] corrected@[q])@,
                ),
        decreases pairs - p,
    {
        assert(pair_displacements@[p as int].len() >= n);
        corrected.push(remove_screen(k, &pair_displacements[p], &rates));
        p = p + 1;
    }
    assert(are_mean_rates(
        k,
        min_coherence,
        old(pair_displacements)@,
        pair_coherences@,
        n as int,
        rates@,
    ));
    *pair_displacements = corrected;
}

// ── Laws of the correction ──

/// Whether two columns of displacements differ at most where the coherence is not at least the
/// threshold.
pub open spec fn differ_in_noise<K: Numerics>(
    k: &K,
    min_coherence: K::Value,
    displacements1: Seq<K::Value>,
    displacements2: Seq<K::Value>,
    coherences: Seq<K::Value>,
) -> bool {
    &&& displacements1.len() == displacements2.len()
    &&& forall|p: int|
        0 <= p < displacements1.len() && #[trigger] displacements1[p] != displacements2[p]
            ==> !answers_at_least(k, coherences[p], min_coherence, true)
}

/// Whether two stacks of displacements have the same shape and differ at most at entries whose
/// coherence is not at least the threshold.
pub open spec fn stacks_differ_in_noise<K: Numerics>(
    k: &K,
    min_coherence: K::Value,
    displacements1: Seq<Vec<K::Value>>,
    displacements2: Seq<Vec<K::Value>>,
    coherences: Seq<Vec<K::Value>>,
) -> bool {
    &&& displacements1.len() == displacements2.len()
    &&& forall|p: int|
        #![trigger displacements1[p]]
        #![trigger displacements2[p]]
        0 <= p < displacements1.len() ==> displacements1[p].len() == displacements2[p].len()
    &&& forall|p: int, i: int|
        0 <= p < displacements1.len() && 0 <= i < displacements1[p].len()
            && #[trigger] displacements1[p]@[i] != displacements2[p]@[i] ==> !answers_at_least(
            k,
            coherences[p]@[i],
            min_coherence,
            true,
        )
}

/// What a cell shows in pairs that are not coherent there enters no mean rate: rates that are
/// possible with one content of such entries are possible with every other.
pub proof fn noise_enters_no_rate<K: Numerics>(
    k: &K,
    min_coherence: K::Value,
    displacements1: Seq<K::Value>,
    displacements2: Seq<K::Value>,
    coherences: Seq<K::Value>,
    rate: K::Value,
)
    requires
        differ_in_noise(k, min_coherence, displacements1, displacements2, coherences),
        is_mean_rate(k, min_coherence, displacements1, coherences, rate),
    ensures
        is_mean_rate(k, min_coherence, displacements2, coherences, rate),
{
    let totals = choose|totals: Seq<(K::Value, K::Value)>|
        #[trigger] are_rate_totals(k, min_coherence, displacements1, coherences, totals)
            && is_weighted_rate(k, totals.last(), rate);
    assert forall|p: int| 0 <= p < displacements2.len() implies adds_to_rate(
        k,
        min_coherence,
        #[trigger] displacements2[p],
        coherences[p],
        totals[p],
        totals[p + 1],
    ) by {
        assert(adds_to_rate(
            k,
            min_coherence,
            displacements1[p],
            coherences[p],
            totals[p],
            totals[p + 1],
        ));
    }
    assert(are_rate_totals(k, min_coherence, displacements2, coherences, totals));
}

/// `grid` can be what the correction of a stack makes of one of its pairs.
pub open spec fn is_corrected_pair<K: Numerics>(
    k: &K,
    min_coherence: K::Value,
    displacements: Seq<Vec<K::Value>>,
    coherences: Seq<Vec<K::Value>>,
    pair: int,
    grid: Seq<K::Value>,
) -> bool {
    exists|rates: Seq<K::Value>|
        #[trigger] are_mean_rates(
            k,
            min_coherence,
            displacements,
            coherences,
            displacements[0].len() as int,
            rates,
        ) && is_screened(k, displacements[pair]@, rates, grid)
}

/// Every pair of a corrected stack is what the correction can make of it.
pub proof fn correction_is_made_of_pairs<K: Numerics>(
    k: &K,
    min_coherence: K::Value,
    displacements: Seq<Vec<K::Value>>,
    coherences: Seq<Vec<K::Value>>,
    corrected: Seq<Vec<K::Value>>,
    pair: int,
)
    requires
        is_corrected(k, min_coherence, displacements, coherences, corrected),
        0 <= pair < displacements.len(),
    ensures
        is_corrected_pair(k, min_coherence, displacements, coherences, pair, corrected[pair]@),
{
    let rates = choose|rates: Seq<K::Value>|
        {
            &&& #[trigger] are_mean_rates(
                k,
                min_coherence,
                displacements,
                coherences,
                displacements[0].len() as int,
                rates,
            )
            &&& forall|p: int|
                0 <= p < displacements.len() ==> is_screened(
                    k,
                    displacements[p]@,
                    rates,
                    (#[trigger] corrected[p])@,
                )
        };
    assert(is_screened(k, displacements[pair]@, rates, corrected[pair]@));
}

/// A displacement that is not coherent never influences another pair: if two stacks differ in such
/// displacements only, what the correction can make of a pair in which they agree is the same.
pub proof fn noise_does_not_leave_its_pair<K: Numerics>(
    k: &K,
    min_coherence: K::Value,
    displacements1: Seq<Vec<K::Value>>,
    displacements2: Seq<Vec<K::Value>>,
    coherences: Seq<Vec<K::Value>>,
    pair: int,
    grid: Seq<K::Value>,
)
    requires
        stacks_differ_in_noise(k, min_coherence, displacements1, displacements2, coherences),
        covers(displacements1, displacements1.len(), displacements1[0].len() as int),
        0 <= pair < displacements1.len(),
        displacements1[pair]@ == displacements2[pair]@,
        is_corrected_pair(k, min_coherence, displacements1, coherences, pair, grid),
    ensures
        is_corrected_pair(k, min_coherence, displacements2, coherences, pair, grid),
{
    let pairs = displacements1.len();
    let n = displacements1[0].len() as int;
    assert(displacements2[0].len() == n);
    let rates = choose|rates: Seq<K::Value>|
        #[trigger] are_mean_rates(
            k,
            min_coherence,
            displacements1,
            coherences,
            displacements1[0].len() as int,
            rates,
        ) && is_screened(k, displacements1[pair]@, rates, grid);
    assert forall|i: int| 0 <= i < n implies is_mean_rate(
        k,
        min_coherence,
        column(displacements2, pairs, i),
        column(coherences, pairs, i),
        #[trigger] rates[i],
    ) by {
        let column1 = column(displacements1, pairs, i);
        let column2 = column(displacements2, pairs, i);
        let measured = column(coherences, pairs, i);
        assert forall|p: int|
            0 <= p < pairs && #[trigger] column1[p] != column2[p] implies !answers_at_least(
            k,
            measured[p],
            min_coherence,
            true,
        ) by {
            assert(displacements1[p].len() >= n);
            assert(column1[p] == displacements1[p]@[i]);
        }
        assert(is_mean_rate(k, min_coherence, column1, measured, rates[i]));
        noise_enters_no_rate(k, min_coherence, column1, column2, measured, rates[i]);
    }
    assert(are_mean_rates(k, min_coherence, displacements2, coherences, n, rates));
}

} // verus!
