//! From pairs to a time series: the reference cell, the frames and the summary figures.
use vstd::prelude::*;
use crate::atmosphere::{cell_values, column, covers};
use crate::grid::Grid;
use crate::numerics::{
    above, answers_above, answers_at_least, answers_below, at_least, below, compares, is_decimal,
    is_difference, is_larger, is_magnitude, is_mean, is_product, is_quotient, is_sum, is_zero, mean,
    Comparison, Numerics,
};
use crate::scenes::{Scene, SceneText};

verus! {

/// One epoch of the time series.
pub struct DisplacementFrame<V> {
    pub date: String,
    pub scene_id: String,
    /// Vertical displacement since the first epoch, in millimetres.
    pub displacement_mm: Vec<V>,
    pub coherence: Vec<V>,
    pub grid_w: usize,
    pub grid_h: usize,
}

impl<V> DisplacementFrame<V> {
    /// The acquisition that the epoch comes from.
    pub open spec fn scene(self) -> SceneText {
        SceneText { id: self.scene_id@, date: self.date@ }
    }

    /// Whether the frame has a value for every cell of a grid.
    pub open spec fn fills(self, grid: Grid) -> bool {
        &&& self.grid_w == grid.width
        &&& self.grid_h == grid.height
        &&& self.displacement_mm.len() == grid.cells()
        &&& self.coherence.len() == grid.cells()
    }
}

// ── Reference cell ──

/// The search for the best cell takes one cell into account: it becomes the best one where its
/// mean is above the best so far.
pub open spec fn takes_into_account<K: Numerics>(
    k: &K,
    cell: int,
    mean: K::Value,
    before: (int, K::Value),
    after: (int, K::Value),
) -> bool {
    ||| answers_above(k, mean, before.1, true) && after == (cell, mean)
    ||| answers_above(k, mean, before.1, false) && after == before
}

/// `bests` can be the best cells among the first cells, of none up to all of them, each with its
/// mean; cell 0 with mean zero is the best among none.
pub open spec fn are_running_bests<K: Numerics>(
    k: &K,
    means: Seq<K::Value>,
    bests: Seq<(int, K::Value)>,
) -> bool {
    &&& bests.len() == means.len() + 1
    &&& bests[0].0 == 0
    &&& is_zero(k, bests[0].1)
    &&& forall|i: int|
        0 <= i < means.len() ==> takes_into_account(
            k,
            i,
            #[trigger] means[i],
            bests[i],
            bests[i + 1],
        )
}

/// `means` can be the mean coherences of the first `n` cells over all pairs.
pub open spec fn are_mean_coherences<K: Numerics>(
    k: &K,
    coherences: Seq<Vec<K::Value>>,
    n: int,
    means: Seq<K::Value>,
) -> bool {
    &&& means.len() == n
    &&& forall|i: int|
        0 <= i < n ==> is_mean(
            k,
            column(coherences, coherences.len(), i),
            #[trigger] means[i],
        )
}

/// `cell` and `coherence` can be the most coherent one of the first `n` cells and its mean
/// coherence; the first of several equally coherent cells counts.
pub open spec fn is_reference<K: Numerics>(
    k: &K,
    coherences: Seq<Vec<K::Value>>,
    n: int,
    cell: int,
    coherence: K::Value,
) -> bool {
    exists|means: Seq<K::Value>, bests: Seq<(int, K::Value)>|
        {
            &&& #[trigger] are_mean_coherences(k, coherences, n, means)
            &&& #[trigger] are_running_bests(k, means, bests)
            &&& bests.last() == (cell, coherence)
        }
}

/// Finds the cell with the highest mean coherence over all pairs, to which displacements are
/// referred.
pub fn find_reference_point<K: Numerics>(
    k: &K,
    pair_coherences: &Vec<Vec<K::Value>>,
    n_cells: usize,
) -> (best: (usize, K::Value))
    requires
        covers(pair_coherences@, pair_coherences@.len(), n_cells as int),
    ensures
        is_reference(k, pair_coherences@, n_cells as int, best.0 as int, best.1),
        n_cells > 0 ==> best.0 < n_cells,
{
    let mut best_idx: usize = 0;
    let mut best_mean = k.decimal(0, 0);
    let ghost mut means: Seq<K::Value> = Seq::empty();
    let ghost mut bests: Seq<(int, K::Value)> = seq![(0int, best_mean)];
    let mut i: usize = 0;
    while i < n_cells
        invariant
            i <= n_cells,
            covers(pair_coherences@, pair_coherences@.len(), n_cells as int),
            best_idx < n_cells || best_idx == 0,
            means.len() == i,
            bests.len() == i + 1,
            bests[0].0 == 0,
            is_zero(k, bests[0].1),
            bests[i as int] == (best_idx as int, best_mean),
            forall|j: int|
                0 <= j < i ==> is_mean(
                    k,
                    column(pair_coherences@, pair_coherences@.len(), j),
                    #[trigger] means[j],
                ),
            forall|j: int|
                0 <= j < i ==> takes_into_account(
                    k,
                    j,
                    #[trigger] means[j],
                    bests[j],
                    bests[j + 1],
                ),
        decreases n_cells - i,
    {
        let values = cell_values(pair_coherences, pair_coherences.len(), i);
        let mean_coherence = mean(k, &values);
        if above(k, mean_coherence, best_mean) {
            best_mean = mean_coherence;
            best_idx = i;
        }
        proof {
            means = means.push(mean_coherence);
            bests = bests.push((best_idx as int, best_mean));
        }
        i = i + 1;
    }
    assert(are_mean_coherences(k, pair_coherences@, n_cells as int, means));
    assert(are_running_bests(k, means, bests));
    (best_idx, best_mean)
}

/// `referred` can be displacements of one pair, relative to those of a cell.
pub open spec fn is_referred<K: Numerics>(
    k: &K,
    displacement: Seq<K::Value>,
    cell: int,
    referred: Seq<K::Value>,
) -> bool {
    &&& referred.len() == displacement.len()
    &&& forall|i: int|
        0 <= i < displacement.len() ==> is_difference(
            k,
            displacement[i],
            displacement[cell],
            #[trigger] referred[i],
        )
}

/// Makes the displacements of every pair relative to those of a cell.
pub fn refer_to_cell<K: Numerics>(k: &K, pair_displacements: &mut Vec<Vec<K::Value>>, cell: usize)
    requires
        covers(old(pair_displacements)@, old(pair_displacements)@.len(), cell + 1),
    ensures
        final(pair_displacements).len() == old(pair_displacements).len(),
        forall|p: int|
            0 <= p < old(pair_displacements).len() ==> is_referred(
                k,
                old(pair_displacements)@[p]@,
                cell as int,
                (#[trigger] final(pair_displacements)@[p])@,
            ),
{
    let mut referred: Vec<Vec<K::Value>> = Vec::new();
    let mut p: usize = 0;
    while p < pair_displacements.len()
        invariant
            p <= pair_displacements.len(),
            pair_displacements@ == old(pair_displacements)@,
            covers(pair_displacements@, pair_displacements@.len(), cell + 1),
            referred.len() == p,
            forall|q: int|
                0 <= q < p ==> is_referred(
                    k,
                    pair_displacements@[q]@,
                    cell as int,
                    (#[trigger] referred@[q])@,
                ),
        decreases pair_displacements.len() - p,
    {
        let displacement = &pair_displacements[p];
        assert(pair_displacements@[p as int].len() >= cell + 1);
        let origin = displacement[cell];
        let mut row: Vec<K::Value> = Vec::new();
        let mut i: usize = 0;
        while i < displacement.len()
            invariant
                i <= displacement.len(),
                cell < displacement.len(),
                origin == displacement@[cell as int],
                row.len() == i,
                forall|j: int|
                    0 <= j < i ==> is_difference(
                        k,
                        displacement@[j],
                        displacement@[cell as int],
                        #[trigger] row@[j],
                    ),
            decreases displacement.len() - i,
        {
            row.push(k.minus(displacement[i], origin));
            i = i + 1;
        }
        referred.push(row);
        p = p + 1;
    }
    *pair_displacements = referred;
}

// ── Integration ──

/// A cell's displacement after one more pair: the pair's displacement is added where the pair is
/// coherent, and the earlier value is carried forward where it is not.
pub open spec fn accumulates<K: Numerics>(
    k: &K,
    min_coherence: K::Value,
    displacement: K::Value,
    coherence: K::Value,
    before: K::Value,
    after: K::Value,
) -> bool {
    ||| answers_at_least(k, coherence, min_coherence, true) && is_sum(
        k,
        before,
        displacement,
        after,
    )
    ||| answers_at_least(k, coherence, min_coherence, false) && after == before
}

/// The coherence that a frame shows: zero where it is below the threshold.
pub open spec fn is_gated<K: Numerics>(
    k: &K,
    min_coherence: K::Value,
    coherence: K::Value,
    shown: K::Value,
) -> bool {
    ||| answers_below(k, coherence, min_coherence, true) && is_zero(k, shown)
    ||| answers_below(k, coherence, min_coherence, false) && shown == coherence
}

/// Whether a frame is a reference epoch: no displacement and full coherence everywhere.
pub open spec fn is_reference_epoch<K: Numerics>(
    k: &K,
    frame: DisplacementFrame<K::Value>,
) -> bool {
    &&& forall|i: int|
        0 <= i < frame.displacement_mm.len() ==> is_zero(k, #[trigger] frame.displacement_mm@[i])
    &&& forall|i: int|
        0 <= i < frame.coherence.len() ==> is_decimal(k, 1, 0, #[trigger] frame.coherence@[i])
}

/// Whether a frame continues the one before it with the measurements of a pair.
pub open spec fn continues<K: Numerics>(
    k: &K,
    min_coherence: K::Value,
    displacement: Seq<K::Value>,
    coherence: Seq<K::Value>,
    before: DisplacementFrame<K::Value>,
    after: DisplacementFrame<K::Value>,
) -> bool {
    &&& forall|i: int|
        0 <= i < after.displacement_mm.len() ==> accumulates(
            k,
            min_coherence,
            displacement[i],
            coherence[i],
            before.displacement_mm@[i],
            #[trigger] after.displacement_mm@[i],
        )
    &&& forall|i: int|
        0 <= i < after.coherence.len() ==> is_gated(
            k,
            min_coherence,
            coherence[i],
            #[trigger] after.coherence@[i],
        )
}

/// Whether frames are the time series of acquisitions and their pairs: one frame for each
/// acquisition, the first one a reference epoch, each other one continuing the one before.
pub open spec fn is_series<K: Numerics>(
    k: &K,
    min_coherence: K::Value,
    grid: Grid,
    scenes: Seq<SceneText>,
    displacements: Seq<Vec<K::Value>>,
    coherences: Seq<Vec<K::Value>>,
    frames: Seq<DisplacementFrame<K::Value>>,
) -> bool {
    &&& frames.len() == scenes.len()
    &&& forall|f: int|
        0 <= f < frames.len() ==> (#[trigger] frames[f]).fills(grid) && frames[f].scene()
            == scenes[f]
    &&& frames.len() > 0 ==> is_reference_epoch(k, frames[0])
    &&& forall|f: int|
        1 <= f < frames.len() ==> continues(
            k,
            min_coherence,
            displacements[f - 1]@,
            coherences[f - 1]@,
            frames[f - 1],
            #[trigger] frames[f],
        )
}

/// `n` times the value of a decimal number.
fn repeated<K: Numerics>(k: &K, digits: i64, n: usize) -> (values: Vec<K::Value>)
    ensures
        values.len() == n,
        forall|i: int| 0 <= i < n ==> is_decimal(k, digits, 0, #[trigger] values@[i]),
{
    let mut values: Vec<K::Value> = Vec::new();
    let mut i: usize = 0;
    while i < n
        invariant
            i <= n,
            values.len() == i,
            forall|j: int| 0 <= j < i ==> is_decimal(k, digits, 0, #[trigger] values@[j]),
        decreases n - i,
    {
        values.push(k.decimal(digits, 0));
        i = i + 1;
    }
    values
}

/// The frame that continues another one with the measurements of a pair.
fn next_frame<K: Numerics>(
    k: &K,
    min_coherence: K::Value,
    grid: &Grid,
    scene: &Scene,
    displacement: &Vec<K::Value>,
    coherence: &Vec<K::Value>,
    before: &DisplacementFrame<K::Value>,
) -> (after: DisplacementFrame<K::Value>)
    requires
        before.fills(*grid),
        displacement.len() >= grid.cells(),
        coherence.len() >= grid.cells(),
    ensures
        after.fills(*grid),
        after.scene() == scene@,
        continues(k, min_coherence, displacement@, coherence@, *before, after),
{
    let n = before.displacement_mm.len();
    let mut cumulative: Vec<K::Value> = Vec::new();
    let mut shown: Vec<K::Value> = Vec::new();
    let mut i: usize = 0;
    while i < n
        invariant
            i <= n == before.displacement_mm.len(),
            n <= displacement.len(),
            n <= coherence.len(),
            cumulative.len() == i,
            shown.len() == i,
            forall|j: int|
                0 <= j < i ==> accumulates(
                    k,
                    min_coherence,
                    displacement@[j],
                    coherence@[j],
                    before.displacement_mm@[j],
                    #[trigger] cumulative@[j],
                ),
            forall|j: int|
                0 <= j < i ==> is_gated(k, min_coherence, coherence@[j], #[trigger] shown@[j]),
        decreases n - i,
    {
        if at_least(k, coherence[i], min_coherence) {
            cumulative.push(k.plus(before.displacement_mm[i], displacement[i]));
        } else {
            cumulative.push(before.displacement_mm[i]);
        }
        if below(k, coherence[i], min_coherence) {
            shown.push(k.decimal(0, 0));
        } else {
            shown.push(coherence[i]);
        }
        i = i + 1;
    }
    DisplacementFrame {
        date: scene.date.clone(),
        scene_id: scene.id.clone(),
        displacement_mm: cumulative,
        coherence: shown,
        grid_w: grid.width,
        grid_h: grid.height,
    }
}

/// Integrates the displacements of consecutive pairs into a time series.
pub fn integrate<K: Numerics>(
    k: &K,
    min_coherence: K::Value,
    grid: &Grid,
    scenes: &Vec<Scene>,
    pair_displacements: &Vec<Vec<K::Value>>,
    pair_coherences: &Vec<Vec<K::Value>>,
) -> (frames: Vec<DisplacementFrame<K::Value>>)
    requires
        grid.valid(),
        scenes.len() > 0,
        covers(pair_displacements@, (scenes.len() - 1) as nat, grid.cells()),
        covers(pair_coherences@, (scenes.len() - 1) as nat, grid.cells()),
    ensures
        is_series(
            k,
            min_coherence,
            *grid,
            crate::scenes::scene_texts(scenes@),
            pair_displacements@,
            pair_coherences@,
            frames@,
        ),
{
    let n: usize = grid.width * grid.height;
    let mut frames: Vec<DisplacementFrame<K::Value>> = Vec::new();
    let first = &scenes[0];
    frames.push(
        DisplacementFrame {
            date: first.date.clone(),
            scene_id: first.id.clone(),
            displacement_mm: repeated(k, 0, n),
            coherence: repeated(k, 1, n),
            grid_w: grid.width,
            grid_h: grid.height,
        },
    );
    let mut f: usize = 1;
    while f < scenes.len()
        invariant
            1 <= f <= scenes.len(),
            covers(pair_displacements@, (scenes.len() - 1) as nat, grid.cells()),
            covers(pair_coherences@, (scenes.len() - 1) as nat, grid.cells()),
            frames.len() == f,
            is_reference_epoch(k, frames@[0]),
            forall|g: int|
                0 <= g < f ==> (#[trigger] frames@[g]).fills(*grid) && frames@[g].scene()
                    == scenes@[g]@,
            forall|g: int|
                1 <= g < f ==> continues(
                    k,
                    min_coherence,
                    pair_displacements@[g - 1]@,
                    pair_coherences@[g - 1]@,
                    frames@[g - 1],
                    #[trigger] frames@[g],
                ),
        decreases scenes.len() - f,
    {
        assert(pair_displacements@[f - 1].len() >= grid.cells());
        assert(pair_coherences@[f - 1].len() >= grid.cells());
        assert(frames@[f - 1].fills(*grid));
        let frame = next_frame(
            k,
            min_coherence,
            grid,
            &scenes[f],
            &pair_displacements[f - 1],
            &pair_coherences[f - 1],
            &frames[f - 1],
        );
        frames.push(frame);
        f = f + 1;
    }
    frames
}

// ── Summary ──

/// One cell's share in the largest displacement: it counts where the last pair is coherent.
pub open spec fn raises<K: Numerics>(
    k: &K,
    min_coherence: K::Value,
    displacement: K::Value,
    coherence: K::Value,
    before: K::Value,
    after: K::Value,
) -> bool {
    ||| {
        &&& answers_at_least(k, coherence, min_coherence, true)
        &&& exists|size: K::Value| #[trigger]
            is_magnitude(k, displacement, size) && is_larger(k, before, size, after)
    }
    ||| answers_at_least(k, coherence, min_coherence, false) && after == before
}

/// `tops` can be the largest displacements among the first cells, of none up to all of them.
pub open spec fn are_running_tops<K: Numerics>(
    k: &K,
    min_coherence: K::Value,
    displacement: Seq<K::Value>,
    coherence: Seq<K::Value>,
    tops: Seq<K::Value>,
) -> bool {
    &&& tops.len() == displacement.len() + 1
    &&& is_zero(k, tops[0])
    &&& forall|i: int|
        0 <= i < displacement.len() ==> raises(
            k,
            min_coherence,
            #[trigger] displacement[i],
            coherence[i],
            tops[i],
            tops[i + 1],
        )
}

/// `top` can be the size of the largest displacement among the cells that are coherent in the
/// last pair, or zero where none is.
pub open spec fn is_max_subsidence<K: Numerics>(
    k: &K,
    min_coherence: K::Value,
    displacement: Seq<K::Value>,
    coherence: Seq<K::Value>,
    top: K::Value,
) -> bool {
    exists|tops: Seq<K::Value>|
        #[trigger] are_running_tops(k, min_coherence, displacement, coherence, tops) && top
            == tops.last()
}

/// `rate` can be the yearly rate of a displacement over some days, a year having 365.25 of them;
/// zero where there is no time between.
pub open spec fn is_yearly_rate<K: Numerics>(
    k: &K,
    displacement: K::Value,
    days: i64,
    rate: K::Value,
) -> bool {
    if days > 0 {
        exists|year: K::Value, scaled: K::Value, span: K::Value|
            {
                &&& #[trigger] is_decimal(k, 36525, 2, year)
                &&& #[trigger] is_product(k, displacement, year, scaled)
                &&& #[trigger] is_decimal(k, days, 0, span)
                &&& is_quotient(k, scaled, span, rate)
            }
    } else {
        is_zero(k, rate)
    }
}

/// The size of the largest displacement among the cells that are coherent in the last pair.
pub fn max_subsidence<K: Numerics>(
    k: &K,
    min_coherence: K::Value,
    displacement: &Vec<K::Value>,
    coherence: &Vec<K::Value>,
) -> (top: K::Value)
    requires
        coherence.len() >= displacement.len(),
    ensures
        is_max_subsidence(k, min_coherence, displacement@, coherence@, top),
{
    let mut top = k.decimal(0, 0);
    let ghost mut tops: Seq<K::Value> = seq![top];
    let mut i: usize = 0;
    while i < displacement.len()
        invariant
            i <= displacement.len() <= coherence.len(),
            tops.len() == i + 1,
            tops[i as int] == top,
            is_zero(k, tops[0]),
            forall|j: int|
                0 <= j < i ==> raises(
                    k,
                    min_coherence,
                    #[trigger] displacement@[j],
                    coherence@[j],
                    tops[j],
                    tops[j + 1],
                ),
        decreases displacement.len() - i,
    {
        let ghost before = top;
        if at_least(k, coherence[i], min_coherence) {
            let size = k.magnitude(displacement[i]);
            assert(is_magnitude(k, displacement@[i as int], size));
            top = k.larger(top, size);
        }
        proof {
            assert(raises(
                k,
                min_coherence,
                displacement@[i as int],
                coherence@[i as int],
                before,
                top,
            ));
            tops = tops.push(top);
        }
        i = i + 1;
    }
    assert(are_running_tops(k, min_coherence, displacement@, coherence@, tops));
    top
}

/// The yearly rate of a displacement over some days.
pub fn yearly_rate<K: Numerics>(k: &K, displacement: K::Value, days: i64) -> (rate: K::Value)
    ensures
        is_yearly_rate(k, displacement, days, rate),
{
    if days > 0 {
        let year = k.decimal(36525, 2);
        let scaled = k.times(displacement, year);
        let span = k.decimal(days, 0);
        assert(is_decimal(k, 36525, 2, year));
        assert(is_product(k, displacement, year, scaled));
        assert(is_decimal(k, days, 0, span));
        k.over(scaled, span)
    } else {
        k.decimal(0, 0)
    }
}

// ── Laws of the series ──

/// Whether the answers to `a > b` are decided and make up a strict order. Values that compare to
/// nothing do not get in the way.
pub open spec fn orders_values<K: Numerics>(k: &K) -> bool {
    &&& forall|a: K::Value, b: K::Value|
        #[trigger] answers_above(k, a, b, true) != answers_above(k, a, b, false)
    &&& forall|a: K::Value| !#[trigger] answers_above(k, a, a, true)
    &&& forall|a: K::Value, b: K::Value, c: K::Value|
        #[trigger] answers_above(k, a, b, true) && #[trigger] answers_above(k, b, c, true)
            ==> answers_above(k, a, c, true)
}

/// Whether some values can have a mean that is not above a limit.
pub open spec fn has_mean_within<K: Numerics>(
    k: &K,
    values: Seq<K::Value>,
    limit: K::Value,
) -> bool {
    exists|m: K::Value| #[trigger] is_mean(k, values, m) && !answers_above(k, m, limit, true)
}

/// The reference coherence is the mean coherence of the reference cell, or zero where no cell has a
/// mean above that; where the comparison of values is an order, no cell has a higher mean.
pub proof fn reference_cell_is_most_coherent<K: Numerics>(
    k: &K,
    coherences: Seq<Vec<K::Value>>,
    n: int,
    cell: int,
    coherence: K::Value,
)
    requires
        n >= 0,
        is_reference(k, coherences, n, cell, coherence),
        orders_values(k),
    ensures
        is_mean(k, column(coherences, coherences.len(), cell), coherence) || is_zero(k, coherence)
            && cell == 0,
        forall|i: int|
            0 <= i < n ==> has_mean_within(
                k,
                #[trigger] column(coherences, coherences.len(), i),
                coherence,
            ),
{
    let (means, bests) = choose|means: Seq<K::Value>, bests: Seq<(int, K::Value)>|
        {
            &&& #[trigger] are_mean_coherences(k, coherences, n, means)
            &&& #[trigger] are_running_bests(k, means, bests)
            &&& bests.last() == (cell, coherence)
        };
    lemma_best_of_first(k, means, bests, n);
    assert forall|i: int| 0 <= i < n implies has_mean_within(
        k,
        #[trigger] column(coherences, coherences.len(), i),
        coherence,
    ) by {
        assert(is_mean(k, column(coherences, coherences.len(), i), means[i]));
        assert(!answers_above(k, means[i], bests[n].1, true));
    }
    if 0 <= cell < n && coherence == means[cell] {
        assert(is_mean(k, column(coherences, coherences.len(), cell), means[cell]));
    }
}

/// The best of the first `n` cells is one of them, or none where none has a mean above zero.
proof fn lemma_best_of_first<K: Numerics>(
    k: &K,
    means: Seq<K::Value>,
    bests: Seq<(int, K::Value)>,
    n: int,
)
    requires
        are_running_bests(k, means, bests),
        0 <= n <= means.len(),
        orders_values(k),
    ensures
        0 <= bests[n].0 < n && bests[n].1 == means[bests[n].0] || bests[n].0 == 0 && is_zero(
            k,
            bests[n].1,
        ),
        forall|i: int| 0 <= i < n ==> !answers_above(k, #[trigger] means[i], bests[n].1, true),
    decreases n,
{
    if n > 0 {
        lemma_best_of_first(k, means, bests, n - 1);
        assert(takes_into_account(k, n - 1, means[n - 1], bests[n - 1], bests[n]));
        assert forall|i: int| 0 <= i < n implies !answers_above(
            k,
            #[trigger] means[i],
            bests[n].1,
            true,
        ) by {
            if i < n - 1 {
                assert(!answers_above(k, means[i], bests[n - 1].1, true));
            }
        }
    }
}

/// Whether the size of a displacement can be not above a limit.
pub open spec fn stays_within<K: Numerics>(
    k: &K,
    displacement: K::Value,
    limit: K::Value,
) -> bool {
    exists|size: K::Value| #[trigger]
        is_magnitude(k, displacement, size) && !answers_above(k, size, limit, true)
}

/// Whether a value can be equal to itself, which one that is no number is not.
pub open spec fn is_number<K: Numerics>(k: &K, a: K::Value) -> bool {
    compares(k, a, a, Comparison::Equal)
}

/// Whether the larger of a number and another value is a number, and neither value is above it;
/// and whether a number can stand between two values that are in order.
pub open spec fn picks_the_larger<K: Numerics>(k: &K) -> bool {
    &&& forall|a: K::Value| is_zero(k, a) ==> #[trigger] is_number(k, a)
    &&& forall|a: K::Value| !#[trigger] answers_above(k, a, a, true)
    &&& forall|a: K::Value, b: K::Value, c: K::Value|
        is_number(k, b) && #[trigger] answers_above(k, a, c, true) && !#[trigger] answers_above(
            k,
            a,
            b,
            true,
        ) ==> answers_above(k, b, c, true)
    &&& forall|a: K::Value, b: K::Value, r: K::Value|
        is_number(k, a) && #[trigger] is_larger(k, a, b, r) ==> is_number(k, r) && !answers_above(
            k,
            a,
            r,
            true,
        ) && !answers_above(k, b, r, true)
}

/// Where the larger of two values is the larger one, no cell that is coherent in the last pair has
/// moved farther than the summary says.
pub proof fn no_coherent_cell_moved_farther<K: Numerics>(
    k: &K,
    min_coherence: K::Value,
    displacement: Seq<K::Value>,
    coherence: Seq<K::Value>,
    top: K::Value,
)
    requires
        is_max_subsidence(k, min_coherence, displacement, coherence, top),
        picks_the_larger(k),
    ensures
        forall|i: int|
            0 <= i < displacement.len() && !answers_at_least(k, coherence[i], min_coherence, false)
                ==> stays_within(k, #[trigger] displacement[i], top),
{
    let tops = choose|tops: Seq<K::Value>|
        #[trigger] are_running_tops(k, min_coherence, displacement, coherence, tops) && top
            == tops.last();
    lemma_top_of_first(k, min_coherence, displacement, coherence, tops, displacement.len() as int);
}

/// No coherent one of the first `n` cells has moved farther than the largest displacement among
/// them.
proof fn lemma_top_of_first<K: Numerics>(
    k: &K,
    min_coherence: K::Value,
    displacement: Seq<K::Value>,
    coherence: Seq<K::Value>,
    tops: Seq<K::Value>,
    n: int,
)
    requires
        are_running_tops(k, min_coherence, displacement, coherence, tops),
        0 <= n <= displacement.len(),
        picks_the_larger(k),
    ensures
        is_number(k, tops[n]),
        forall|i: int|
            0 <= i < n && !answers_at_least(k, coherence[i], min_coherence, false)
                ==> stays_within(k, #[trigger] displacement[i], tops[n]),
    decreases n,
{
    if n > 0 {
        lemma_top_of_first(k, min_coherence, displacement, coherence, tops, n - 1);
        let last = n - 1;
        assert(raises(
            k,
            min_coherence,
            displacement[last],
            coherence[last],
            tops[last],
            tops[n],
        ));
        assert(!answers_above(k, tops[last], tops[n], true));
        assert forall|i: int|
            0 <= i < n && !answers_at_least(
                k,
                coherence[i],
                min_coherence,
                false,
            ) implies stays_within(k, #[trigger] displacement[i], tops[n]) by {
            if i < last {
                let size = choose|size: K::Value| #[trigger]
                    is_magnitude(k, displacement[i], size) && !answers_above(
                        k,
                        size,
                        tops[last],
                        true,
                    );
                assert(is_magnitude(k, displacement[i], size));
            } else {
                let size = choose|size: K::Value| #[trigger]
                    is_magnitude(k, displacement[last], size) && is_larger(
                        k,
                        tops[last],
                        size,
                        tops[n],
                    );
                assert(is_magnitude(k, displacement[i], size));
            }
        }
    }
}

/// Where a pair is not coherent at a cell, the cell keeps its displacement: the pair leaves no
/// trace in the series there.
pub proof fn incoherent_pairs_are_skipped<K: Numerics>(
    k: &K,
    min_coherence: K::Value,
    grid: Grid,
    scenes: Seq<SceneText>,
    displacements: Seq<Vec<K::Value>>,
    coherences: Seq<Vec<K::Value>>,
    frames: Seq<DisplacementFrame<K::Value>>,
    f: int,
    cell: int,
)
    requires
        is_series(k, min_coherence, grid, scenes, displacements, coherences, frames),
        1 <= f < frames.len(),
        0 <= cell < grid.cells(),
        !answers_at_least(k, coherences[f - 1]@[cell], min_coherence, true),
    ensures
        frames[f].displacement_mm@[cell] == frames[f - 1].displacement_mm@[cell],
{
    assert(frames[f].fills(grid));
    assert(continues(
        k,
        min_coherence,
        displacements[f - 1]@,
        coherences[f - 1]@,
        frames[f - 1],
        frames[f],
    ));
    assert(accumulates(
        k,
        min_coherence,
        displacements[f - 1]@[cell],
        coherences[f - 1]@[cell],
        frames[f - 1].displacement_mm@[cell],
        frames[f].displacement_mm@[cell],
    ));
}

/// Whether a cell has the value `zero` in every grid of the first `pairs` of a stack.
pub open spec fn rests<V>(stack: Seq<Vec<V>>, pairs: int, cell: int, zero: V) -> bool {
    forall|p: int| 0 <= p < pairs ==> (#[trigger] stack[p])@[cell] == zero
}

/// Whether nothing but `zero` can be zero or the sum of zero and zero.
pub open spec fn is_only_zero<K: Numerics>(k: &K, zero: K::Value) -> bool {
    &&& forall|r: K::Value| is_zero(k, r) ==> r == zero
    &&& forall|r: K::Value| is_sum(k, zero, zero, r) ==> r == zero
}

/// A cell that rests in every pair rests in every frame.
#[verifier::spinoff_prover]
proof fn lemma_resting_cell<K: Numerics>(
    k: &K,
    min_coherence: K::Value,
    grid: Grid,
    scenes: Seq<SceneText>,
    referred: Seq<Vec<K::Value>>,
    coherences: Seq<Vec<K::Value>>,
    frames: Seq<DisplacementFrame<K::Value>>,
    cell: int,
    zero: K::Value,
    f: int,
)
    requires
        is_series(k, min_coherence, grid, scenes, referred, coherences, frames),
        rests(referred, scenes.len() - 1, cell, zero),
        is_only_zero(k, zero),
        0 <= cell < grid.cells(),
        0 <= f < frames.len(),
    ensures
        frames[f].displacement_mm@[cell] == zero,
    decreases f,
{
    assert(frames[f].fills(grid));
    if f == 0 {
        assert(is_reference_epoch(k, frames[0]));
        assert(is_zero(k, frames[0].displacement_mm@[cell]));
    } else {
        lemma_resting_cell(
            k,
            min_coherence,
            grid,
            scenes,
            referred,
            coherences,
            frames,
            cell,
            zero,
            f - 1,
        );
        assert(referred[f - 1]@[cell] == zero);
        assert(continues(
            k,
            min_coherence,
            referred[f - 1]@,
            coherences[f - 1]@,
            frames[f - 1],
            frames[f],
        ));
        let after = frames[f].displacement_mm@[cell];
        assert(accumulates(
            k,
            min_coherence,
            zero,
            coherences[f - 1]@[cell],
            zero,
            frames[f].displacement_mm@[cell],
        ));
        assert(is_sum(k, zero, zero, after) || after == zero);
    }
}

/// Where zero is one value, zero and zero add up to it, and it is what is left when the
/// displacement of a cell in a pair is taken from itself, the cell never moves when displacements
/// are referred to it.
#[verifier::spinoff_prover]
pub proof fn reference_cell_never_moves<K: Numerics>(
    k: &K,
    min_coherence: K::Value,
    grid: Grid,
    scenes: Seq<SceneText>,
    displacements: Seq<Vec<K::Value>>,
    cell: int,
    referred: Seq<Vec<K::Value>>,
    coherences: Seq<Vec<K::Value>>,
    frames: Seq<DisplacementFrame<K::Value>>,
    zero: K::Value,
    f: int,
)
    requires
        is_series(k, min_coherence, grid, scenes, referred, coherences, frames),
        forall|p: int|
            0 <= p < scenes.len() - 1 ==> is_referred(
                k,
                displacements[p]@,
                cell,
                (#[trigger] referred[p])@,
            ) && displacements[p].len() == grid.cells(),
        0 <= cell < grid.cells(),
        0 <= f < frames.len(),
        is_only_zero(k, zero),
        forall|p: int, r: K::Value|
            0 <= p < scenes.len() - 1 && #[trigger] is_difference(
                k,
                displacements[p]@[cell],
                displacements[p]@[cell],
                r,
            ) ==> r == zero,
    ensures
        frames[f].displacement_mm@[cell] == zero,
{
    assert forall|p: int| 0 <= p < scenes.len() - 1 implies (#[trigger] referred[p])@[cell]
        == zero by {
        assert(is_referred(k, displacements[p]@, cell, referred[p]@));
        assert(is_difference(
            k,
            displacements[p]@[cell],
            displacements[p]@[cell],
            referred[p]@[cell],
        ));
    }
    assert(rests(referred, scenes.len() - 1, cell, zero));
    lemma_resting_cell(
        k,
        min_coherence,
        grid,
        scenes,
        referred,
        coherences,
        frames,
        cell,
        zero,
        f,
    );
}

} // verus!
