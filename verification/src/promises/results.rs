//! The result of the processing, in numbers: what every cell of every frame shows where it is
//! computed with real numbers.
use vstd::prelude::*;
use vstd::utf8::*;
use crate::atmosphere::{are_mean_rates, is_corrected, is_screened};
use crate::calendar::{baseline_days, has_day};
use crate::formula::evaluates;
use crate::grid::{every_number_has_one_cell, Cell, Grid};
use crate::insar::{
    are_centers, are_incidence_angles, are_interferograms, can_process, clamp_min_coherence,
    compute_grid_centers, compute_local_incidence_angles, default_min_coherence, interferogram,
    interferograms, interferograms_fill_the_grid, is_cleaned, is_coherence, is_displacement,
    is_filtered_phase, is_interferogram, is_made_from, is_processed, is_threshold, is_time_series,
    process_displacement, processed_grid, ProcessResult, ProcessingParams,
};
use crate::numerics::{is_clamped, is_decimal, is_sum, Comparison, Numerics};
use crate::promises::grids::lemma_counted;
use crate::promises::reals::{computes_in_reals, sum, tens, Reals};
use crate::promises::scenes::dated_features_are_kept;
use crate::promises::signal::{
    atmosphere_number, atmosphere_value, bowl_number, bowl_value, box_numbers, center_number,
    center_value, coherence_number, coherence_value, damping_number, goldstein_value,
    incidence_number, incidence_value, limited, looked_number, looked_value, multilook_value,
    vertical_number, vertical_value,
};
use crate::promises::stacks::{
    cell_mean, corrected_number, frame_number, possible_correction_removes_the_smooth_part,
    possible_frames_add_up, possible_maximum_is_reached, possible_rate_spreads_over_the_days,
    possible_reference_is_first_of_the_best, residual_numbers, stack_numbers, weighted, weights,
};
use crate::scenes::{
    dated, goes_before, is_chronological, is_chronological_order, scene_texts, Scene, SceneText,
    StacFeature,
};
use crate::series::{
    is_max_subsidence, is_reference, is_referred, is_series, is_yearly_rate, DisplacementFrame,
};
use crate::signal::{
    atmosphere_formula, cell_center, center_formula, coherence_formula, deformation_formula,
    estimate_coherence, goldstein_filter, goldstein_formula, incidence_formula,
    local_incidence_angle, multilook_coherence, multilook_coherence_formula, multilook_formula,
    multilook_phase, simulate_atmospheric_phase, simulate_deformation_phase, vertical_displacement,
    vertical_formula,
};
use crate::text::text_less;

verus! {

// ── Parameters ──

/// In real numbers, the least coherence is the one asked for, within 0 and 0.95, and 0.4 where none
/// is asked for.
pub proof fn least_coherence_is_within_its_ends<K: Numerics>(
    k: &K,
    m: Reals<K::Value>,
    x: K::Value,
    used: K::Value,
    default_used: K::Value,
    params: ProcessingParams<K::Value>,
)
    requires
        computes_in_reals(k, m),
        call_ensures(clamp_min_coherence::<K>, (k, x), used),
        call_ensures(default_min_coherence::<K>, (k,), default_used),
        call_ensures(ProcessingParams::<K::Value>::default::<K>, (k,), params),
    ensures
        0real <= (m.of)(x) <= 95real / 100real ==> (m.of)(used) == (m.of)(x),
        (m.of)(x) < 0real ==> (m.of)(used) == 0real,
        (m.of)(x) > 95real / 100real ==> (m.of)(used) == 95real / 100real,
        (m.of)(default_used) == 4real / 10real,
        (m.of)(params.min_coherence) == 4real / 10real,
        params.grid_size == 20,
{
    tens();
    lemma_threshold(k, m, x, used);
    assert((m.of)(default_used) == 4real / 10real);
}

/// In real numbers, a possible least coherence lies within the ends.
proof fn lemma_threshold<K: Numerics>(k: &K, m: Reals<K::Value>, x: K::Value, used: K::Value)
    requires
        computes_in_reals(k, m),
        is_threshold(k, x, used),
    ensures
        (m.of)(used) == limited((m.of)(x), 0real, 95real / 100real),
{
    tens();
    let (low, high) = choose|low: K::Value, high: K::Value|
        #[trigger] is_decimal(k, 0, 0, low) && #[trigger] is_decimal(k, 95, 2, high)
            && is_clamped(k, x, low, high, used);
    assert((m.of)(low) == 0real / 1real);
    assert((m.of)(high) == 95real / 100real);
}

/// With any arithmetic, a least coherence that has no order to the ends is used as it is.
pub proof fn least_coherence_without_an_order_is_kept<K: Numerics>(
    k: &K,
    x: K::Value,
    used: K::Value,
)
    requires
        forall|b: K::Value, o: Comparison|
            #[trigger] call_ensures(K::compare, (k, x, b), o) ==> o == Comparison::Unordered,
        call_ensures(clamp_min_coherence::<K>, (k, x), used),
    ensures
        used == x,
{
}

// ── Measurements ──

/// With any arithmetic, the measurements follow one formula each, on every box, grid and cell and
/// after any number of days.
pub proof fn measurements_follow_their_formulas<K: Numerics>(
    k: &K,
    bbox: &[K::Value; 4],
    grid: &Grid,
    cell: &Cell,
    center: (K::Value, K::Value),
    seed: usize,
    days: i64,
    x: K::Value,
    y: K::Value,
    n: usize,
    at: K::Value,
    angle: K::Value,
    bowl: K::Value,
    air: K::Value,
    looked: K::Value,
    filtered: K::Value,
    vertical: K::Value,
    coherence: K::Value,
    improved: K::Value,
)
    requires
        call_ensures(cell_center::<K>, (k, x, y, seed, n), at),
        call_ensures(local_incidence_angle::<K>, (k, bbox, grid, cell), angle),
        call_ensures(simulate_deformation_phase::<K>, (k, center, bbox, days), bowl),
        call_ensures(simulate_atmospheric_phase::<K>, (k, center, seed), air),
        call_ensures(multilook_phase::<K>, (k, x), looked),
        call_ensures(goldstein_filter::<K>, (k, x, grid, cell), filtered),
        call_ensures(vertical_displacement::<K>, (k, x, y), vertical),
        call_ensures(estimate_coherence::<K>, (k, center, bbox, days), coherence),
        call_ensures(multilook_coherence::<K>, (k, x), improved),
    ensures
        evaluates(k, center_formula(x, y, seed, n), at),
        evaluates(k, incidence_formula(bbox@, *grid, *cell), angle),
        evaluates(k, deformation_formula(center, bbox@, days), bowl),
        evaluates(k, atmosphere_formula(center, seed), air),
        evaluates(k, multilook_formula(x), looked),
        evaluates(k, goldstein_formula(x, *grid, *cell), filtered),
        evaluates(k, vertical_formula(x, y), vertical),
        evaluates(k, coherence_formula(center, bbox@, days), coherence),
        evaluates(k, multilook_coherence_formula(x), improved),
{
}

/// Where the signal can be told in real numbers: the box has a width and a height, no cell is seen
/// along the ground, and four has the root two.
pub open spec fn can_be_told<V>(m: Reals<V>, bbox: Seq<real>, grid: Grid) -> bool {
    &&& bbox[0] != bbox[2]
    &&& bbox[1] != bbox[3]
    &&& (m.root)(4real) == 2real
    &&& forall|i: int, cell: Cell|
        0 <= i < grid.width * grid.height && #[trigger] grid.has_cell(i, cell) ==> (m.cos)(
            incidence_number(m.pi, bbox, grid, cell),
        ) != 0real
}

/// What an interferogram measures in a cell: the bowl and the atmosphere, filtered, as a
/// displacement.
pub open spec fn measured_number<V>(
    m: Reals<V>,
    bbox: Seq<real>,
    grid: Grid,
    cell: Cell,
    days: int,
) -> real {
    let lon = center_number(bbox[0], bbox[2], cell.col as int, grid.width as int);
    let lat = center_number(bbox[1], bbox[3], cell.row as int, grid.height as int);
    vertical_number(
        m,
        (bowl_number(m, lon, lat, bbox, days) + atmosphere_number(
            m,
            lon,
            lat,
            cell.index as int,
        )) * damping_number(grid, cell),
        incidence_number(m.pi, bbox, grid, cell),
    )
}

/// How coherent a cell is in an interferogram.
pub open spec fn reliable_number<V>(
    m: Reals<V>,
    bbox: Seq<real>,
    grid: Grid,
    cell: Cell,
    days: int,
) -> real {
    let lon = center_number(bbox[0], bbox[2], cell.col as int, grid.width as int);
    let lat = center_number(bbox[1], bbox[3], cell.row as int, grid.height as int);
    looked_number(m, coherence_number(m, lon, lat, bbox, days))
}

/// In real numbers, what a cell can show in an interferogram.
proof fn lemma_measured<K: Numerics>(
    k: &K,
    m: Reals<K::Value>,
    bbox: [K::Value; 4],
    grid: Grid,
    cell: Cell,
    center: (K::Value, K::Value),
    angle: K::Value,
    days: i64,
    d: K::Value,
    c: K::Value,
)
    requires
        computes_in_reals(k, m),
        (m.of)(bbox@[0]) != (m.of)(bbox@[2]),
        (m.of)(bbox@[1]) != (m.of)(bbox@[3]),
        (m.root)(4real) == 2real,
        (m.cos)((m.of)(angle)) != 0real,
        grid.width > 0,
        grid.height > 0,
        is_displacement(k, bbox, grid, cell, center, angle, days, d),
        is_coherence(k, bbox, center, days, c),
    ensures
        (m.of)(d) == vertical_number(
            m,
            (bowl_number(
                m,
                (m.of)(center.0),
                (m.of)(center.1),
                box_numbers(m, bbox@),
                days as int,
            ) + atmosphere_number(m, (m.of)(center.0), (m.of)(center.1), cell.index as int))
                * damping_number(grid, cell),
            (m.of)(angle),
        ),
        (m.of)(c) == looked_number(
            m,
            coherence_number(
                m,
                (m.of)(center.0),
                (m.of)(center.1),
                box_numbers(m, bbox@),
                days as int,
            ),
        ),
{
    let phase = choose|phase: K::Value| #[trigger]
        is_filtered_phase(k, bbox, grid, cell, center, days, phase) && evaluates(
            k,
            vertical_formula(phase, angle),
            d,
        );
    let (deformation, atmosphere, raw, looked) = choose|
        deformation: K::Value,
        atmosphere: K::Value,
        raw: K::Value,
        looked: K::Value,
    |
        {
            &&& #[trigger] is_sum(k, deformation, atmosphere, raw)
            &&& evaluates(k, deformation_formula(center, bbox@, days), deformation)
            &&& evaluates(k, atmosphere_formula(center, cell.index), atmosphere)
            &&& #[trigger] evaluates(k, multilook_formula(raw), looked)
            &&& evaluates(k, goldstein_formula(looked, grid, cell), phase)
        };
    bowl_value(k, m, center, bbox@, days, deformation);
    atmosphere_value(k, m, center, cell.index, atmosphere);
    multilook_value(k, m, raw, looked);
    goldstein_value(k, m, looked, grid, cell, phase);
    vertical_value(k, m, phase, angle, d);
    let plain = choose|plain: K::Value| #[trigger]
        evaluates(k, coherence_formula(center, bbox@, days), plain) && evaluates(
            k,
            multilook_coherence_formula(plain),
            c,
        );
    coherence_value(k, m, center, bbox@, days, plain);
    looked_value(k, m, plain, c);
}

/// In real numbers, an interferogram shows in every cell of any grid, after any number of days, the
/// displacement that the filtered sum of the bowl and the atmosphere stands for, and the coherence
/// after multi-looking.
pub proof fn interferogram_shows_bowl_and_atmosphere<K: Numerics>(
    k: &K,
    m: Reals<K::Value>,
    bbox: &[K::Value; 4],
    grid: &Grid,
    centers: &Vec<(K::Value, K::Value)>,
    angles: &Vec<K::Value>,
    days: i64,
    values: (Vec<K::Value>, Vec<K::Value>),
    i: int,
    cell: Cell,
)
    requires
        computes_in_reals(k, m),
        (m.of)(bbox@[0]) != (m.of)(bbox@[2]),
        (m.of)(bbox@[1]) != (m.of)(bbox@[3]),
        (m.root)(4real) == 2real,
        (m.cos)((m.of)(angles@[i])) != 0real,
        call_ensures(interferogram::<K>, (k, bbox, grid, centers, angles, days), values),
        0 <= i < grid.width * grid.height,
        grid.has_cell(i, cell),
    ensures
        values.0.len() == grid.width * grid.height,
        values.1.len() == grid.width * grid.height,
        (m.of)(values.0@[i]) == vertical_number(
            m,
            (bowl_number(
                m,
                (m.of)(centers@[i].0),
                (m.of)(centers@[i].1),
                box_numbers(m, bbox@),
                days as int,
            ) + atmosphere_number(m, (m.of)(centers@[i].0), (m.of)(centers@[i].1), i))
                * damping_number(*grid, cell),
            (m.of)(angles@[i]),
        ),
        (m.of)(values.1@[i]) == looked_number(
            m,
            coherence_number(
                m,
                (m.of)(centers@[i].0),
                (m.of)(centers@[i].1),
                box_numbers(m, bbox@),
                days as int,
            ),
        ),
{
    lemma_counted(*grid, i, cell);
    lemma_measured(
        k,
        m,
        *bbox,
        *grid,
        cell,
        centers@[i],
        angles@[i],
        days,
        values.0@[i],
        values.1@[i],
    );
}

/// With any arithmetic, an interferogram chains the measurements in every cell of any grid: the
/// bowl and the atmosphere make up a phase, which is multi-looked, filtered and converted; the
/// coherence is estimated and multi-looked.
pub proof fn interferogram_chains_the_measurements<K: Numerics>(
    k: &K,
    bbox: &[K::Value; 4],
    grid: &Grid,
    centers: &Vec<(K::Value, K::Value)>,
    angles: &Vec<K::Value>,
    days: i64,
    values: (Vec<K::Value>, Vec<K::Value>),
    i: int,
    cell: Cell,
)
    requires
        call_ensures(interferogram::<K>, (k, bbox, grid, centers, angles, days), values),
        0 <= i < grid.width * grid.height,
        grid.has_cell(i, cell),
    ensures
        exists|bowl: K::Value, air: K::Value, raw: K::Value, looked: K::Value, phase: K::Value|
            {
                &&& evaluates(k, deformation_formula(centers@[i], bbox@, days), bowl)
                &&& evaluates(k, atmosphere_formula(centers@[i], i as usize), air)
                &&& #[trigger] call_ensures(K::plus, (k, bowl, air), raw)
                &&& #[trigger] evaluates(k, multilook_formula(raw), looked)
                &&& evaluates(k, goldstein_formula(looked, *grid, cell), phase)
                &&& #[trigger] evaluates(k, vertical_formula(phase, angles@[i]), values.0@[i])
            },
        exists|coherence: K::Value| #[trigger]
            evaluates(k, coherence_formula(centers@[i], bbox@, days), coherence) && evaluates(
                k,
                multilook_coherence_formula(coherence),
                values.1@[i],
            ),
{
    assert(is_displacement(
        k,
        *bbox,
        *grid,
        cell,
        centers@[i],
        angles@[i],
        days,
        values.0@[i],
    ));
    let phase = choose|phase: K::Value| #[trigger]
        is_filtered_phase(k, *bbox, *grid, cell, centers@[i], days, phase) && evaluates(
            k,
            vertical_formula(phase, angles@[i]),
            values.0@[i],
        );
    let (bowl, air, raw, looked) = choose|
        bowl: K::Value,
        air: K::Value,
        raw: K::Value,
        looked: K::Value,
    |
        {
            &&& #[trigger] is_sum(k, bowl, air, raw)
            &&& evaluates(k, deformation_formula(centers@[i], bbox@, days), bowl)
            &&& evaluates(k, atmosphere_formula(centers@[i], cell.index), air)
            &&& #[trigger] evaluates(k, multilook_formula(raw), looked)
            &&& evaluates(k, goldstein_formula(looked, *grid, cell), phase)
        };
    assert(call_ensures(K::plus, (k, bowl, air), raw));
    assert(evaluates(k, multilook_formula(raw), looked));
    assert(evaluates(k, vertical_formula(phase, angles@[i]), values.0@[i]));
}

/// In real numbers, every cell of any grid has its own center, and the angle of its place.
pub proof fn cells_have_their_center_and_angle<K: Numerics>(
    k: &K,
    m: Reals<K::Value>,
    bbox: &[K::Value; 4],
    grid: &Grid,
    centers: Vec<(K::Value, K::Value)>,
    angles: Vec<K::Value>,
    row: int,
    col: int,
    cell: Cell,
)
    requires
        computes_in_reals(k, m),
        grid.width * grid.height <= usize::MAX,
        call_ensures(compute_grid_centers::<K>, (k, bbox, grid), centers),
        call_ensures(compute_local_incidence_angles::<K>, (k, bbox, grid), angles),
        0 <= row < grid.height,
        0 <= col < grid.width,
        cell.row == row,
        cell.col == col,
    ensures
        centers.len() == grid.width * grid.height,
        angles.len() == grid.width * grid.height,
        0 <= row * grid.width + col < grid.width * grid.height,
        ((m.of)(centers@[row * grid.width + col].0) - (m.of)(bbox@[0])) * (2 * grid.width) as real
            == ((m.of)(bbox@[2]) - (m.of)(bbox@[0])) * (2 * col + 1) as real,
        ((m.of)(centers@[row * grid.width + col].1) - (m.of)(bbox@[1])) * (2 * grid.height) as real
            == ((m.of)(bbox@[3]) - (m.of)(bbox@[1])) * (2 * row + 1) as real,
        (m.of)(angles@[row * grid.width + col]) == incidence_number(
            m.pi,
            box_numbers(m, bbox@),
            *grid,
            cell,
        ),
{
    let (w, h) = (grid.width as int, grid.height as int);
    let i = row * w + col;
    assert(0 <= i < w * h) by (nonlinear_arith)
        requires
            0 <= row < h,
            0 <= col < w,
            i == row * w + col,
    ;
    let own = every_number_has_one_cell(*grid, i);
    crate::grid::cells_are_numbered_by_row(*grid, own, row, col);
    center_value(k, m, bbox@[0], bbox@[2], own.col, grid.width, centers@[i].0);
    center_value(k, m, bbox@[1], bbox@[3], own.row, grid.height, centers@[i].1);
    incidence_value(k, m, bbox@, *grid, own, angles@[i]);
    lemma_center((m.of)(bbox@[0]), (m.of)(bbox@[2]), col, w);
    lemma_center((m.of)(bbox@[1]), (m.of)(bbox@[3]), row, h);
}

/// Where a center lies between the edges.
proof fn lemma_center(low: real, high: real, i: int, n: int)
    requires
        n > 0,
    ensures
        (center_number(low, high, i, n) - low) * (2 * n) as real == (high - low) * (2 * i
            + 1) as real,
{
    let (x, y, z) = (i as real, n as real, center_number(low, high, i, n));
    assert((2 * n) as real == 2real * y && (2 * i + 1) as real == 2real * x + 1real);
    assert((z - low) * (2real * y) == (high - low) * (2real * x + 1real)) by (nonlinear_arith)
        requires
            z == low + (x + 1real / 2real) * ((high - low) / y),
            y > 0real,
    ;
}

/// In real numbers, every pair of neighbouring acquisitions, however many there are, has an
/// interferogram of the days between the two, on any grid.
pub proof fn every_pair_has_its_interferogram<K: Numerics>(
    k: &K,
    m: Reals<K::Value>,
    bbox: &[K::Value; 4],
    grid: &Grid,
    centers: &Vec<(K::Value, K::Value)>,
    scenes: &Vec<Scene>,
    stacks: (Vec<Vec<K::Value>>, Vec<Vec<K::Value>>),
    p: int,
    i: int,
    cell: Cell,
)
    requires
        computes_in_reals(k, m),
        can_be_told(m, box_numbers(m, bbox@), *grid),
        call_ensures(interferograms::<K>, (k, bbox, grid, centers, scenes), stacks),
        0 <= p < scenes.len() - 1,
        0 <= i < grid.width * grid.height,
        grid.has_cell(i, cell),
    ensures
        stacks.0.len() == scenes.len() - 1,
        stacks.1.len() == scenes.len() - 1,
        stacks.0@[p].len() == grid.width * grid.height,
        stacks.1@[p].len() == grid.width * grid.height,
        ({
            let b = box_numbers(m, bbox@);
            let (lon, lat) = ((m.of)(centers@[i].0), (m.of)(centers@[i].1));
            let days = baseline_days(scenes@[p].date@, scenes@[p + 1].date@) as i64 as int;
            &&& (m.of)(stacks.0@[p]@[i]) == vertical_number(
                m,
                (bowl_number(m, lon, lat, b, days) + atmosphere_number(m, lon, lat, i))
                    * damping_number(*grid, cell),
                incidence_number(m.pi, b, *grid, cell),
            )
            &&& (m.of)(stacks.1@[p]@[i]) == looked_number(
                m,
                coherence_number(m, lon, lat, b, days),
            )
        }),
{
    let texts = scene_texts(scenes@);
    assert(texts[p].date == scenes@[p].date@ && texts[p + 1].date == scenes@[p + 1].date@);
    lemma_counted(*grid, i, cell);
    let angles = choose|angles: Seq<K::Value>|
        {
            &&& #[trigger] are_incidence_angles(k, *bbox, *grid, angles)
            &&& forall|p: int|
                0 <= p < texts.len() - 1 ==> is_interferogram(
                    k,
                    *bbox,
                    *grid,
                    centers@,
                    angles,
                    baseline_days(texts[p].date, texts[p + 1].date) as i64,
                    (#[trigger] stacks.0@[p])@,
                    stacks.1@[p]@,
                )
        };
    let days = baseline_days(texts[p].date, texts[p + 1].date) as i64;
    assert(is_interferogram(
        k,
        *bbox,
        *grid,
        centers@,
        angles,
        days,
        stacks.0@[p]@,
        stacks.1@[p]@,
    ));
    incidence_value(k, m, bbox@, *grid, cell, angles[i]);
    lemma_measured(
        k,
        m,
        *bbox,
        *grid,
        cell,
        centers@[i],
        angles[i],
        days,
        stacks.0@[p]@[i],
        stacks.1@[p]@[i],
    );
}

// ── Results ──

/// Features can be processed where fewer than two have a date, or where a day can be read from
/// every date: it is shorter than ten bytes, or its tenth byte ends a character.
pub proof fn features_can_be_processed_by_their_dates(features: &[StacFeature], readable: bool)
    requires
        call_ensures(can_process, (features,), readable),
    ensures
        ({
            let kept = features@.filter(|f: StacFeature| f.properties.datetime is Some);
            readable <==> kept.len() < 2 || forall|i: int|
                0 <= i < kept.len() ==> encode_utf8(
                    (#[trigger] kept[i]).properties.datetime->0@,
                ).len() < 10 || is_char_boundary(
                    encode_utf8(kept[i].properties.datetime->0@),
                    10,
                )
        }),
{
    dated_features_are_kept(features@);
    let kept = features@.filter(|f: StacFeature| f.properties.datetime is Some);
    let texts = dated(features@);
    if readable && kept.len() >= 2 {
        assert forall|i: int| 0 <= i < kept.len() implies encode_utf8(
            (#[trigger] kept[i]).properties.datetime->0@,
        ).len() < 10 || is_char_boundary(encode_utf8(kept[i].properties.datetime->0@), 10) by {
            assert(has_day(texts[i].date));
        }
    }
    if !readable {
        let i = choose|i: int|
            0 <= i < texts.len() && !has_day((#[trigger] texts[i]).date);
        assert(texts[i].date == kept[i].properties.datetime->0@);
    }
}


/// A square grid.
pub open spec fn square(side: int) -> Grid {
    Grid { width: side as usize, height: side as usize }
}

/// The cell with a number on a square grid.
pub open spec fn place(side: int, i: int) -> Cell {
    let (col, row) = (i % side, i / side);
    Cell {
        index: i as usize,
        col: col as usize,
        row: row as usize,
        edge_x: (if 2 * col < side {
            col
        } else {
            side - 1 - col
        }) as usize,
        edge_y: (if 2 * row < side {
            row
        } else {
            side - 1 - row
        }) as usize,
    }
}

/// Every number has its place.
proof fn lemma_place(side: int, i: int)
    requires
        0 < side <= 200,
        0 <= i < side * side,
    ensures
        square(side).valid(),
        square(side).width == side,
        square(side).height == side,
        square(side).has_cell(i, place(side, i)),
        forall|cell: Cell| #[trigger] square(side).has_cell(i, cell) ==> cell == place(side, i),
{
    assert(side * side <= 40000) by (nonlinear_arith)
        requires
            0 < side <= 200,
    ;
    let cell = every_number_has_one_cell(square(side), i);
    lemma_counted(square(side), i, cell);
    assert(cell == place(side, i));
}

/// The days between a frame and the next one.
pub open spec fn days_after<V>(frames: Seq<DisplacementFrame<V>>, p: int) -> int {
    baseline_days(frames[p].date@, frames[p + 1].date@) as i64 as int
}

/// What the pairs of frames measure, by pair and cell.
pub open spec fn measured_by<V>(
    m: Reals<V>,
    bbox: Seq<real>,
    side: int,
    frames: Seq<DisplacementFrame<V>>,
) -> spec_fn(int, int) -> real {
    |p: int, j: int|
        measured_number(m, bbox, square(side), place(side, j), days_after(frames, p))
}

/// How coherent the cells are in the pairs of frames, by pair and cell.
pub open spec fn reliable_in<V>(
    m: Reals<V>,
    bbox: Seq<real>,
    side: int,
    frames: Seq<DisplacementFrame<V>>,
) -> spec_fn(int, int) -> real {
    |p: int, j: int|
        reliable_number(m, bbox, square(side), place(side, j), days_after(frames, p))
}

/// What the pairs of frames show when the atmosphere is removed, which takes five frames.
pub open spec fn cleaned_by<V>(
    m: Reals<V>,
    bbox: Seq<real>,
    side: int,
    min: real,
    frames: Seq<DisplacementFrame<V>>,
) -> spec_fn(int, int) -> real {
    |p: int, j: int|
        if frames.len() >= 5 {
            corrected_number(
                min,
                (frames.len() - 1) as nat,
                (side * side) as nat,
                side,
                measured_by(m, bbox, side, frames),
                reliable_in(m, bbox, side, frames),
                p,
                j,
            )
        } else {
            measured_by(m, bbox, side, frames)(p, j)
        }
}

/// The correction goes by what the pairs show.
proof fn lemma_same_correction(
    min: real,
    pairs: nat,
    cells: nat,
    side: int,
    d1: spec_fn(int, int) -> real,
    c1: spec_fn(int, int) -> real,
    d2: spec_fn(int, int) -> real,
    c2: spec_fn(int, int) -> real,
    p: int,
    i: int,
)
    requires
        forall|q: int, j: int| 0 <= q < pairs && 0 <= j < cells ==> #[trigger] d1(q, j) == d2(q, j),
        forall|q: int, j: int| 0 <= q < pairs && 0 <= j < cells ==> #[trigger] c1(q, j) == c2(q, j),
        0 <= p < pairs,
        0 <= i < cells,
    ensures
        corrected_number(min, pairs, cells, side, d1, c1, p, i) == corrected_number(
            min,
            pairs,
            cells,
            side,
            d2,
            c2,
            p,
            i,
        ),
{
    let r1 = residual_numbers(min, pairs, cells, d1, c1, p);
    let r2 = residual_numbers(min, pairs, cells, d2, c2, p);
    assert forall|j: int| 0 <= j < cells implies #[trigger] r1[j] == r2[j] by {
        let x1 = |q: int| d1(q, j);
        let x2 = |q: int| d2(q, j);
        let y1 = |q: int| c1(q, j);
        let y2 = |q: int| c2(q, j);
        assert(weights(min, pairs, y1) =~= weights(min, pairs, y2));
        assert(weighted(min, pairs, x1, y1) =~= weighted(min, pairs, x2, y2));
    }
    assert(r1 =~= r2);
}

/// The frames go by what the pairs show.
proof fn lemma_same_frame(
    min: real,
    d1: spec_fn(int, int) -> real,
    c1: spec_fn(int, int) -> real,
    d2: spec_fn(int, int) -> real,
    c2: spec_fn(int, int) -> real,
    f: int,
    i: int,
)
    requires
        0 <= f,
        forall|q: int| 0 <= q < f ==> #[trigger] d1(q, i) == d2(q, i),
        forall|q: int| 0 <= q < f ==> #[trigger] c1(q, i) == c2(q, i),
    ensures
        frame_number(min, d1, c1, f, i) == frame_number(min, d2, c2, f, i),
{
    assert(Seq::new(
        f as nat,
        |p: int|
            if c1(p, i) >= min {
                d1(p, i)
            } else {
                0real
            },
    ) =~= Seq::new(
        f as nat,
        |p: int|
            if c2(p, i) >= min {
                d2(p, i)
            } else {
                0real
            },
    ));
}

/// The interferograms of a result, in numbers.
proof fn lemma_pairs<K: Numerics>(
    k: &K,
    m: Reals<K::Value>,
    bbox: [K::Value; 4],
    side: int,
    centers: Seq<(K::Value, K::Value)>,
    scenes: Seq<SceneText>,
    displacements: Seq<Vec<K::Value>>,
    coherences: Seq<Vec<K::Value>>,
    p: int,
    i: int,
)
    requires
        computes_in_reals(k, m),
        can_be_told(m, box_numbers(m, bbox@), square(side)),
        0 < side <= 200,
        are_centers(k, bbox, square(side), centers),
        are_interferograms(k, bbox, square(side), centers, scenes, displacements, coherences),
        0 <= p < scenes.len() - 1,
        0 <= i < side * side,
    ensures
        ({
            let b = box_numbers(m, bbox@);
            let days = baseline_days(scenes[p].date, scenes[p + 1].date) as i64 as int;
            &&& (m.of)(displacements[p]@[i]) == measured_number(
                m,
                b,
                square(side),
                place(side, i),
                days,
            )
            &&& (m.of)(coherences[p]@[i]) == reliable_number(
                m,
                b,
                square(side),
                place(side, i),
                days,
            )
        }),
{
    let grid = square(side);
    let cell = place(side, i);
    let days = baseline_days(scenes[p].date, scenes[p + 1].date) as i64;
    lemma_place(side, i);
    lemma_counted(grid, i, cell);
    let angles = choose|angles: Seq<K::Value>|
        {
            &&& #[trigger] are_incidence_angles(k, bbox, grid, angles)
            &&& forall|p: int|
                0 <= p < scenes.len() - 1 ==> is_interferogram(
                    k,
                    bbox,
                    grid,
                    centers,
                    angles,
                    baseline_days(scenes[p].date, scenes[p + 1].date) as i64,
                    (#[trigger] displacements[p])@,
                    coherences[p]@,
                )
        };
    assert(is_interferogram(
        k,
        bbox,
        grid,
        centers,
        angles,
        days,
        displacements[p]@,
        coherences[p]@,
    ));
    center_value(k, m, bbox@[0], bbox@[2], cell.col, grid.width, centers[i].0);
    center_value(k, m, bbox@[1], bbox@[3], cell.row, grid.height, centers[i].1);
    incidence_value(k, m, bbox@, grid, cell, angles[i]);
    assert(grid.has_cell(i, cell));
    lemma_measured(
        k,
        m,
        bbox,
        grid,
        cell,
        centers[i],
        angles[i],
        days,
        displacements[p]@[i],
        coherences[p]@[i],
    );
}

/// What a result is made from, in numbers.
proof fn lemma_made<K: Numerics>(
    k: &K,
    m: Reals<K::Value>,
    bbox: [K::Value; 4],
    side: int,
    scenes: Seq<SceneText>,
    centers: Seq<(K::Value, K::Value)>,
    displacements: Seq<Vec<K::Value>>,
    coherences: Seq<Vec<K::Value>>,
    reference: int,
    referred: Seq<Vec<K::Value>>,
    r: ProcessResult<K::Value>,
)
    requires
        computes_in_reals(k, m),
        can_be_told(m, box_numbers(m, bbox@), square(side)),
        0 < side <= 200,
        scenes.len() >= 2,
        is_made_from(
            k,
            bbox,
            square(side),
            scenes,
            centers,
            displacements,
            coherences,
            reference,
            referred,
            r,
        ),
    ensures
        ({
            let b = box_numbers(m, bbox@);
            let min = (m.of)(r.processing.min_coherence);
            let d = measured_by(m, b, side, r.frames@);
            let c = reliable_in(m, b, side, r.frames@);
            let e = cleaned_by(m, b, side, min, r.frames@);
            &&& r.frames.len() == scenes.len()
            &&& coherences.len() == r.frames.len() - 1
            &&& 0 <= reference < side * side
            &&& forall|p: int, j: int|
                0 <= p < scenes.len() - 1 && 0 <= j < side * side ==> #[trigger] stack_numbers(
                    m,
                    coherences,
                )(p, j) == c(p, j)
            &&& forall|p: int, j: int|
                0 <= p < scenes.len() - 1 && 0 <= j < side * side ==> #[trigger] stack_numbers(
                    m,
                    referred,
                )(p, j) == e(p, j) - e(p, reference)
        }),
{
    let b = box_numbers(m, bbox@);
    let grid = square(side);
    let min_coherence = r.processing.min_coherence;
    let min = (m.of)(min_coherence);
    let frames = r.frames@;
    let d = measured_by(m, b, side, frames);
    let c = reliable_in(m, b, side, frames);
    let e = cleaned_by(m, b, side, min, frames);
    let n = side * side;
    let pairs = (scenes.len() - 1) as nat;
    assert forall|f: int| 0 <= f < frames.len() implies (#[trigger] frames[f]).date@
        == scenes[f].date by {
        assert(frames[f].fills(grid) && frames[f].scene() == scenes[f]);
    }
    assert(grid.cells() == n);
    let own = stack_numbers(m, displacements);
    let coh = stack_numbers(m, coherences);
    assert forall|p: int, j: int| 0 <= p < pairs && 0 <= j < n implies #[trigger] own(p, j) == d(
        p,
        j,
    ) && coh(p, j) == c(p, j) by {
        lemma_pairs(k, m, bbox, side, centers, scenes, displacements, coherences, p, j);
        assert(frames[p].date@ == scenes[p].date && frames[p + 1].date@ == scenes[p + 1].date);
    }
    assert forall|p: int, j: int| 0 <= p < pairs && 0 <= j < n implies #[trigger] coh(p, j) == c(
        p,
        j,
    ) by {
        assert(own(p, j) == d(p, j));
    }
    interferograms_fill_the_grid(k, bbox, grid, centers, scenes, displacements, coherences);
    let cleaned = choose|cleaned: Seq<Vec<K::Value>>|
        {
            &&& #[trigger] is_cleaned(
                k,
                min_coherence,
                scenes.len(),
                displacements,
                coherences,
                cleaned,
            )
            &&& referred.len() == cleaned.len()
            &&& forall|p: int|
                0 <= p < referred.len() ==> is_referred(
                    k,
                    cleaned[p]@,
                    reference,
                    (#[trigger] referred[p])@,
                )
        };
    assert(displacements[0].len() == n);
    assert(n < (side + 1) * (side + 1)) by (nonlinear_arith)
        requires
            n == side * side,
            side > 0,
    ;
    let clean = stack_numbers(m, cleaned);
    assert forall|p: int, j: int| 0 <= p < pairs && 0 <= j < n implies #[trigger] clean(p, j) == e(
        p,
        j,
    ) && cleaned[p].len() == n by {
        assert(own(p, j) == d(p, j));
        assert(displacements[p].len() == n);
        if scenes.len() >= 5 {
            possible_correction_removes_the_smooth_part(
                k,
                m,
                min_coherence,
                displacements,
                coherences,
                cleaned,
                side,
                p,
                j,
            );
            lemma_same_correction(min, pairs, n as nat, side, own, coh, d, c, p, j);
            lemma_kept_length(k, min_coherence, displacements, coherences, cleaned, p);
        }
    }
    let after = stack_numbers(m, referred);
    assert forall|p: int, j: int| 0 <= p < pairs && 0 <= j < n implies #[trigger] after(p, j) == e(
        p,
        j,
    ) - e(p, reference) by {
        assert(clean(p, j) == e(p, j));
        assert(clean(p, reference) == e(p, reference));
        assert(is_referred(k, cleaned[p]@, reference, referred[p]@));
    }
}

/// The correction keeps the number of cells.
proof fn lemma_kept_length<K: Numerics>(
    k: &K,
    min: K::Value,
    displacements: Seq<Vec<K::Value>>,
    coherences: Seq<Vec<K::Value>>,
    corrected: Seq<Vec<K::Value>>,
    p: int,
)
    requires
        is_corrected(k, min, displacements, coherences, corrected),
        0 <= p < displacements.len(),
    ensures
        corrected[p].len() == displacements[p].len(),
{
    let rates = choose|rates: Seq<K::Value>|
        {
            &&& #[trigger] are_mean_rates(
                k,
                min,
                displacements,
                coherences,
                displacements[0].len() as int,
                rates,
            )
            &&& forall|p: int|
                0 <= p < displacements.len() ==> is_screened(
                    k,
                    displacements[p]@,
                    rates,
                    (#[trigger] corrected[p])@,
                )
        };
    assert(is_screened(k, displacements[p]@, rates, corrected[p]@));
}

/// Two features with a date are needed, and enough, whatever else is asked for; a refusal says
/// which of the two reasons it has.
pub proof fn two_dated_scenes_are_needed_and_enough<K: Numerics>(
    k: &K,
    bbox: &[K::Value; 4],
    datetime: &str,
    features: &[StacFeature],
    params: &ProcessingParams<K::Value>,
    result: Result<ProcessResult<K::Value>, String>,
)
    requires
        call_ensures(process_displacement::<K>, (k, bbox, datetime, features, params), result),
    ensures
        ({
            let kept = features@.filter(|f: StacFeature| f.properties.datetime is Some);
            &&& result is Ok <==> kept.len() >= 2
            &&& features@.len() == 0 ==> result is Err && result->Err_0@ == "no scenes provided"@
            &&& features@.len() > 0 && kept.len() < 2 ==> result is Err && result->Err_0@
                == "need at least 2 scenes for interferometry"@
        }),
{
    dated_features_are_kept(features@);
    let kept = features@.filter(|f: StacFeature| f.properties.datetime is Some);
    if features@.len() == 0 {
        assert(kept.len() == 0) by {
            reveal(Seq::filter);
        }
    }
}

/// A result repeats the box, has the grid side that was asked for (from 5 to 200) in both
/// directions and in every frame, has one frame for every dated scene, and tells the numbers of
/// scenes, pairs and looks, and whether the atmosphere was removed, which takes five scenes.
pub proof fn results_have_a_frame_for_every_scene<K: Numerics>(
    k: &K,
    bbox: &[K::Value; 4],
    datetime: &str,
    features: &[StacFeature],
    params: &ProcessingParams<K::Value>,
    r: ProcessResult<K::Value>,
    side: int,
    f: int,
)
    requires
        call_ensures(process_displacement::<K>, (k, bbox, datetime, features, params), Ok(r)),
        params.grid_size < 5 ==> side == 5,
        5 <= params.grid_size <= 200 ==> side == params.grid_size,
        params.grid_size > 200 ==> side == 200,
        0 <= f < r.frames.len(),
    ensures
        ({
            let kept = features@.filter(|f: StacFeature| f.properties.datetime is Some);
            &&& r.frames.len() == kept.len()
            &&& r.processing.n_scenes == kept.len()
            &&& r.processing.n_pairs == kept.len() - 1
            &&& r.processing.atmospheric_correction == (kept.len() >= 5)
        }),
        r.bbox == *bbox,
        r.grid_w == side,
        r.grid_h == side,
        r.processing.grid_size == side,
        r.processing.looks_range == 4,
        r.processing.looks_azimuth == 1,
        call_ensures(K::count, (k, 4usize), r.processing.effective_looks),
        call_ensures(K::decimal, (k, 5i64, 1u32), r.processing.goldstein_alpha),
        r.frames@[f].grid_w == side,
        r.frames@[f].grid_h == side,
        r.frames@[f].displacement_mm.len() == side * side,
        r.frames@[f].coherence.len() == side * side,
{
    dated_features_are_kept(features@);
    let (scenes, made) = lemma_unpacked(k, *bbox, features@, *params, r);
    assert(r.frames@[f].fills(square(side)));
}

/// What a result is made from.
pub proof fn lemma_unpacked<K: Numerics>(
    k: &K,
    bbox: [K::Value; 4],
    features: Seq<StacFeature>,
    params: ProcessingParams<K::Value>,
    r: ProcessResult<K::Value>,
) -> (parts: (Seq<SceneText>, Parts<K::Value>))
    requires
        is_processed(k, bbox, features, params, r),
        dated(features).len() >= 2,
    ensures
        parts.0.len() == dated(features).len(),
        is_chronological(dated(features), parts.0),
        is_made_from(
            k,
            bbox,
            square(asked_side(params.grid_size)),
            parts.0,
            parts.1.centers,
            parts.1.displacements,
            parts.1.coherences,
            parts.1.reference,
            parts.1.referred,
            r,
        ),
        is_yearly_rate(
            k,
            r.max_subsidence_mm,
            baseline_days(parts.0[0].date, parts.0.last().date) as i64,
            r.mean_subsidence_rate_mm_yr,
        ),
{
    let grid = processed_grid(params.grid_size);
    let scenes = choose|scenes: Seq<SceneText>|
        {
            &&& #[trigger] is_chronological(dated(features), scenes)
            &&& is_time_series(k, bbox, grid, scenes, r)
            &&& is_yearly_rate(
                k,
                r.max_subsidence_mm,
                baseline_days(scenes[0].date, scenes.last().date) as i64,
                r.mean_subsidence_rate_mm_yr,
            )
        };
    let (centers, displacements, coherences, reference, referred) = choose|
        centers: Seq<(K::Value, K::Value)>,
        displacements: Seq<Vec<K::Value>>,
        coherences: Seq<Vec<K::Value>>,
        reference: int,
        referred: Seq<Vec<K::Value>>,
    | #[trigger]
        is_made_from(
            k,
            bbox,
            grid,
            scenes,
            centers,
            displacements,
            coherences,
            reference,
            referred,
            r,
        );
    assert(grid == square(asked_side(params.grid_size)));
    (scenes, Parts { centers, displacements, coherences, reference, referred })
}

/// The grid side for the one asked for.
pub open spec fn asked_side(n: usize) -> int {
    if n < 5 {
        5
    } else if n > 200 {
        200
    } else {
        n as int
    }
}

/// What a result is made from.
pub struct Parts<V> {
    pub centers: Seq<(V, V)>,
    pub displacements: Seq<Vec<V>>,
    pub coherences: Seq<Vec<V>>,
    pub reference: int,
    pub referred: Seq<Vec<V>>,
}

/// The frames are those of the dated features, each once, with its name and date, in the order of
/// the dates, and of the list where dates are the same.
pub proof fn frames_are_in_the_order_of_the_dates<K: Numerics>(
    k: &K,
    bbox: &[K::Value; 4],
    datetime: &str,
    features: &[StacFeature],
    params: &ProcessingParams<K::Value>,
    r: ProcessResult<K::Value>,
) -> (from: Seq<int>)
    requires
        call_ensures(process_displacement::<K>, (k, bbox, datetime, features, params), Ok(r)),
    ensures
        ({
            let kept = features@.filter(|f: StacFeature| f.properties.datetime is Some);
            &&& from.len() == r.frames.len()
            &&& from.len() == kept.len()
            &&& forall|i: int| 0 <= i < kept.len() ==> #[trigger] from.contains(i)
            &&& forall|f: int|
                0 <= f < from.len() ==> 0 <= #[trigger] from[f] < kept.len()
                    && r.frames@[f].scene_id@ == kept[from[f]].id@ && r.frames@[f].date@
                    == kept[from[f]].properties.datetime->0@
            &&& forall|f: int, g: int|
                #![trigger from[f], from[g]]
                0 <= f < g < from.len() ==> text_less(r.frames@[f].date@, r.frames@[g].date@)
                    || r.frames@[f].date@ == r.frames@[g].date@ && from[f] < from[g]
        }),
{
    dated_features_are_kept(features@);
    let kept = features@.filter(|f: StacFeature| f.properties.datetime is Some);
    let (scenes, made) = lemma_unpacked(k, *bbox, features@, *params, r);
    let texts = dated(features@);
    let order = choose|order: Seq<int>|
        #[trigger] is_chronological_order(texts, order) && scenes == Seq::new(
            order.len(),
            |k: int| texts[order[k]],
        );
    let frames = r.frames@;
    assert forall|f: int| 0 <= f < frames.len() implies (#[trigger] frames[f]).scene()
        == texts[order[f]] by {
        assert(frames[f].scene() == scenes[f]);
    }
    assert forall|f: int| 0 <= f < order.len() implies 0 <= #[trigger] order[f] < kept.len()
        && frames[f].scene_id@ == kept[order[f]].id@ && frames[f].date@
        == kept[order[f]].properties.datetime->0@ by {
        assert(frames[f].scene() == texts[order[f]]);
        assert(texts[order[f]].id == kept[order[f]].id@);
    }
    assert forall|f: int, g: int|
        #![trigger order[f], order[g]]
        0 <= f < g < order.len() implies text_less(frames[f].date@, frames[g].date@)
        || frames[f].date@ == frames[g].date@ && order[f] < order[g] by {
        assert(goes_before(texts, order[f], order[g]));
        assert(frames[f].scene() == texts[order[f]]);
        assert(frames[g].scene() == texts[order[g]]);
    }
    order
}

/// In real numbers, every cell of every frame shows the sum over the pairs before it, leaving out
/// those in which it is not coherent, of what the pair measures there, less what it measures at the
/// reference; with five frames or more what is measured is first freed from the atmosphere. The
/// reference is the first of the cells with the highest mean coherence.
pub proof fn frames_show_the_ground_relative_to_the_reference<K: Numerics>(
    k: &K,
    m: Reals<K::Value>,
    bbox: &[K::Value; 4],
    datetime: &str,
    features: &[StacFeature],
    params: &ProcessingParams<K::Value>,
    r: ProcessResult<K::Value>,
    side: int,
    min: real,
    f: int,
    i: int,
) -> (reference: int)
    requires
        computes_in_reals(k, m),
        call_ensures(process_displacement::<K>, (k, bbox, datetime, features, params), Ok(r)),
        params.grid_size < 5 ==> side == 5,
        5 <= params.grid_size <= 200 ==> side == params.grid_size,
        params.grid_size > 200 ==> side == 200,
        (m.of)(params.min_coherence) < 0real ==> min == 0real,
        0real <= (m.of)(params.min_coherence) <= 95real / 100real ==> min == (m.of)(
            params.min_coherence,
        ),
        (m.of)(params.min_coherence) > 95real / 100real ==> min == 95real / 100real,
        can_be_told(m, box_numbers(m, bbox@), square(side)),
        0 <= f < r.frames.len(),
        0 <= i < side * side,
    ensures
        (m.of)(r.processing.min_coherence) == min,
        ({
            let b = box_numbers(m, bbox@);
            let frames = r.frames@;
            let pairs = (frames.len() - 1) as nat;
            let days = |p: int| baseline_days(frames[p].date@, frames[p + 1].date@) as i64 as int;
            let measured = |p: int, j: int|
                measured_number(m, b, square(side), place(side, j), days(p));
            let reliable = |p: int, j: int|
                reliable_number(m, b, square(side), place(side, j), days(p));
            let cleaned = |p: int, j: int|
                if frames.len() < 5 {
                    measured(p, j)
                } else {
                    corrected_number(
                        min,
                        pairs,
                        (side * side) as nat,
                        side,
                        measured,
                        reliable,
                        p,
                        j,
                    )
                };
            &&& 0 <= reference < side * side
            &&& (m.of)(frames[f].displacement_mm@[i]) == sum(
                Seq::new(
                    f as nat,
                    |p: int|
                        if reliable(p, i) >= min {
                            cleaned(p, i) - cleaned(p, reference)
                        } else {
                            0real
                        },
                ),
            )
            &&& f == 0 ==> (m.of)(frames[f].coherence@[i]) == 1real
            &&& f > 0 && reliable(f - 1, i) >= min ==> (m.of)(frames[f].coherence@[i]) == reliable(
                f - 1,
                i,
            )
            &&& f > 0 && reliable(f - 1, i) < min ==> (m.of)(frames[f].coherence@[i]) == 0real
            &&& cell_mean(pairs, reliable, i) <= (m.of)(r.processing.reference_coherence)
            &&& i < reference ==> cell_mean(pairs, reliable, i) < (m.of)(
                r.processing.reference_coherence,
            )
            &&& (m.of)(r.processing.reference_coherence) > 0real ==> cell_mean(
                pairs,
                reliable,
                reference,
            ) == (m.of)(r.processing.reference_coherence)
            &&& (m.of)(r.processing.reference_coherence) <= 0real ==> reference == 0
            &&& (m.of)(r.processing.reference_point@[0]) == center_number(
                b[0],
                b[2],
                reference % side,
                side,
            )
            &&& (m.of)(r.processing.reference_point@[1]) == center_number(
                b[1],
                b[3],
                reference / side,
                side,
            )
        }),
{
    let b = box_numbers(m, bbox@);
    let frames = r.frames@;
    let pairs = (frames.len() - 1) as nat;
    lemma_threshold(k, m, params.min_coherence, r.processing.min_coherence);
    let (scenes, made) = lemma_unpacked(k, *bbox, features@, *params, r);
    lemma_shown(k, m, *bbox, side, scenes, made, r, f, i);
    lemma_referred(k, m, *bbox, side, scenes, made, r, i);
    let days = |p: int| baseline_days(frames[p].date@, frames[p + 1].date@) as i64 as int;
    let measured = |p: int, j: int| measured_number(m, b, square(side), place(side, j), days(p));
    let reliable = |p: int, j: int| reliable_number(m, b, square(side), place(side, j), days(p));
    let cleaned = |p: int, j: int|
        if frames.len() < 5 {
            measured(p, j)
        } else {
            corrected_number(min, pairs, (side * side) as nat, side, measured, reliable, p, j)
        };
    assert(measured =~= measured_by(m, b, side, frames));
    assert(reliable =~= reliable_in(m, b, side, frames));
    assert(cleaned =~= cleaned_by(m, b, side, min, frames));
    let reference = made.reference;
    assert(Seq::new(
        f as nat,
        |p: int|
            if reliable(p, i) >= min {
                (|p: int, j: int| cleaned(p, j) - cleaned(p, reference))(p, i)
            } else {
                0real
            },
    ) =~= Seq::new(
        f as nat,
        |p: int|
            if reliable(p, i) >= min {
                cleaned(p, i) - cleaned(p, reference)
            } else {
                0real
            },
    ));
    reference
}

/// What a frame shows in a cell.
proof fn lemma_shown<K: Numerics>(
    k: &K,
    m: Reals<K::Value>,
    bbox: [K::Value; 4],
    side: int,
    scenes: Seq<SceneText>,
    made: Parts<K::Value>,
    r: ProcessResult<K::Value>,
    f: int,
    i: int,
)
    requires
        computes_in_reals(k, m),
        can_be_told(m, box_numbers(m, bbox@), square(side)),
        0 < side <= 200,
        scenes.len() >= 2,
        is_made_from(
            k,
            bbox,
            square(side),
            scenes,
            made.centers,
            made.displacements,
            made.coherences,
            made.reference,
            made.referred,
            r,
        ),
        0 <= f < r.frames.len(),
        0 <= i < side * side,
    ensures
        ({
            let b = box_numbers(m, bbox@);
            let min = (m.of)(r.processing.min_coherence);
            let c = reliable_in(m, b, side, r.frames@);
            let e = cleaned_by(m, b, side, min, r.frames@);
            let shown = (m.of)(r.frames@[f].coherence@[i]);
            &&& (m.of)(r.frames@[f].displacement_mm@[i]) == frame_number(
                min,
                |p: int, j: int| e(p, j) - e(p, made.reference),
                c,
                f,
                i,
            )
            &&& f == 0 ==> shown == 1real
            &&& f > 0 && c(f - 1, i) >= min ==> shown == c(f - 1, i)
            &&& f > 0 && c(f - 1, i) < min ==> shown == 0real
        }),
{
    let b = box_numbers(m, bbox@);
    let min = (m.of)(r.processing.min_coherence);
    let c = reliable_in(m, b, side, r.frames@);
    let e = cleaned_by(m, b, side, min, r.frames@);
    let coh = stack_numbers(m, made.coherences);
    let after = stack_numbers(m, made.referred);
    lemma_made(
        k,
        m,
        bbox,
        side,
        scenes,
        made.centers,
        made.displacements,
        made.coherences,
        made.reference,
        made.referred,
        r,
    );
    possible_frames_add_up(
        k,
        m,
        r.processing.min_coherence,
        square(side),
        scenes,
        made.referred,
        made.coherences,
        r.frames@,
        f,
        i,
    );
    let relative = |p: int, j: int| e(p, j) - e(p, made.reference);
    assert forall|p: int| 0 <= p < f implies #[trigger] after(p, i) == relative(p, i) by {}
    assert forall|p: int| 0 <= p < f implies #[trigger] coh(p, i) == c(p, i) by {}
    lemma_same_frame(min, after, coh, relative, c, f, i);
    if f > 0 {
        assert(coh(f - 1, i) == c(f - 1, i));
    }
}

/// Which cell is the reference.
proof fn lemma_referred<K: Numerics>(
    k: &K,
    m: Reals<K::Value>,
    bbox: [K::Value; 4],
    side: int,
    scenes: Seq<SceneText>,
    made: Parts<K::Value>,
    r: ProcessResult<K::Value>,
    i: int,
)
    requires
        computes_in_reals(k, m),
        can_be_told(m, box_numbers(m, bbox@), square(side)),
        0 < side <= 200,
        scenes.len() >= 2,
        is_made_from(
            k,
            bbox,
            square(side),
            scenes,
            made.centers,
            made.displacements,
            made.coherences,
            made.reference,
            made.referred,
            r,
        ),
        0 <= i < side * side,
    ensures
        ({
            let b = box_numbers(m, bbox@);
            let pairs = (r.frames.len() - 1) as nat;
            let c = reliable_in(m, b, side, r.frames@);
            let best = (m.of)(r.processing.reference_coherence);
            let cell = made.reference;
            &&& 0 <= cell < side * side
            &&& cell_mean(pairs, c, i) <= best
            &&& i < cell ==> cell_mean(pairs, c, i) < best
            &&& best > 0real ==> cell_mean(pairs, c, cell) == best
            &&& best <= 0real ==> cell == 0
            &&& (m.of)(r.processing.reference_point@[0]) == center_number(
                b[0],
                b[2],
                cell % side,
                side,
            )
            &&& (m.of)(r.processing.reference_point@[1]) == center_number(
                b[1],
                b[3],
                cell / side,
                side,
            )
        }),
{
    let b = box_numbers(m, bbox@);
    let pairs = (r.frames.len() - 1) as nat;
    let c = reliable_in(m, b, side, r.frames@);
    let coh = stack_numbers(m, made.coherences);
    let reference = made.reference;
    lemma_made(
        k,
        m,
        bbox,
        side,
        scenes,
        made.centers,
        made.displacements,
        made.coherences,
        reference,
        made.referred,
        r,
    );
    possible_reference_is_first_of_the_best(
        k,
        m,
        made.coherences,
        side * side,
        reference,
        r.processing.reference_coherence,
    );
    lemma_same_mean(pairs, coh, c, i, side * side);
    lemma_same_mean(pairs, coh, c, reference, side * side);
    assert(cell_mean(pairs, coh, i) <= (m.of)(r.processing.reference_coherence));
    lemma_place(side, reference);
    let cell = place(side, reference);
    lemma_counted(square(side), reference, cell);
    center_value(k, m, bbox@[0], bbox@[2], cell.col, side as usize, made.centers[reference].0);
    center_value(k, m, bbox@[1], bbox@[3], cell.row, side as usize, made.centers[reference].1);
}

/// With any arithmetic, a result goes through all the stages, on every box and for every number of
/// scenes: the interferograms of neighbouring scenes, their reference, the correction of stacks of
/// five scenes and more, the displacements relative to the reference, the frames, and the summary
/// of the last of them.
pub proof fn results_go_through_all_stages<K: Numerics>(
    k: &K,
    bbox: &[K::Value; 4],
    datetime: &str,
    features: &[StacFeature],
    params: &ProcessingParams<K::Value>,
    r: ProcessResult<K::Value>,
    side: int,
) -> (made: (Seq<SceneText>, Parts<K::Value>, Seq<Vec<K::Value>>))
    requires
        call_ensures(process_displacement::<K>, (k, bbox, datetime, features, params), Ok(r)),
        params.grid_size < 5 ==> side == 5,
        5 <= params.grid_size <= 200 ==> side == params.grid_size,
        params.grid_size > 200 ==> side == 200,
    ensures
        ({
            let (scenes, parts, cleaned) = made;
            let min = r.processing.min_coherence;
            let grid = Grid { width: side as usize, height: side as usize };
            &&& is_threshold(k, params.min_coherence, min)
            &&& is_chronological(dated(features@), scenes)
            &&& are_centers(k, *bbox, grid, parts.centers)
            &&& are_interferograms(
                k,
                *bbox,
                grid,
                parts.centers,
                scenes,
                parts.displacements,
                parts.coherences,
            )
            &&& is_reference(
                k,
                parts.coherences,
                side * side,
                parts.reference,
                r.processing.reference_coherence,
            )
            &&& r.processing.reference_point@[0] == parts.centers[parts.reference].0
            &&& r.processing.reference_point@[1] == parts.centers[parts.reference].1
            &&& scenes.len() < 5 ==> cleaned == parts.displacements
            &&& scenes.len() >= 5 ==> is_corrected(
                k,
                min,
                parts.displacements,
                parts.coherences,
                cleaned,
            )
            &&& parts.referred.len() == cleaned.len()
            &&& forall|p: int, i: int|
                0 <= p < cleaned.len() && 0 <= i < cleaned[p].len() ==> call_ensures(
                    K::minus,
                    (k, cleaned[p]@[i], cleaned[p]@[parts.reference]),
                    #[trigger] parts.referred[p]@[i],
                )
            &&& is_series(k, min, grid, scenes, parts.referred, parts.coherences, r.frames@)
            &&& is_max_subsidence(
                k,
                min,
                r.frames@.last().displacement_mm@,
                parts.coherences.last()@,
                r.max_subsidence_mm,
            )
            &&& is_yearly_rate(
                k,
                r.max_subsidence_mm,
                baseline_days(scenes[0].date, scenes.last().date) as i64,
                r.mean_subsidence_rate_mm_yr,
            )
        }),
{
    let (scenes, parts) = lemma_unpacked(k, *bbox, features@, *params, r);
    let min = r.processing.min_coherence;
    let cleaned = choose|cleaned: Seq<Vec<K::Value>>|
        {
            &&& #[trigger] is_cleaned(
                k,
                min,
                scenes.len(),
                parts.displacements,
                parts.coherences,
                cleaned,
            )
            &&& parts.referred.len() == cleaned.len()
            &&& forall|p: int|
                0 <= p < parts.referred.len() ==> is_referred(
                    k,
                    cleaned[p]@,
                    parts.reference,
                    (#[trigger] parts.referred[p])@,
                )
        };
    assert forall|p: int, i: int| 0 <= p < cleaned.len() && 0 <= i < cleaned[p].len() implies
        call_ensures(
        K::minus,
        (k, cleaned[p]@[i], cleaned[p]@[parts.reference]),
        #[trigger] parts.referred[p]@[i],
    ) by {
        assert(is_referred(k, cleaned[p]@, parts.reference, parts.referred[p]@));
    }
    (scenes, parts, cleaned)
}

/// The mean goes by what the pairs show.
proof fn lemma_same_mean(
    pairs: nat,
    c1: spec_fn(int, int) -> real,
    c2: spec_fn(int, int) -> real,
    i: int,
    cells: int,
)
    requires
        0 <= i < cells,
        forall|p: int, j: int| 0 <= p < pairs && 0 <= j < cells ==> #[trigger] c1(p, j) == c2(p, j),
    ensures
        cell_mean(pairs, c1, i) == cell_mean(pairs, c2, i),
{
    assert(Seq::new(pairs, |p: int| c1(p, i)) =~= Seq::new(pairs, |p: int| c2(p, i)));
}

/// In real numbers, the greatest displacement of a result is that of the last frame, in the cells
/// that are coherent in the last pair, and the yearly rate spreads it over the days from the first
/// frame to the last.
pub proof fn summary_tells_of_the_last_frame<K: Numerics>(
    k: &K,
    m: Reals<K::Value>,
    bbox: &[K::Value; 4],
    datetime: &str,
    features: &[StacFeature],
    params: &ProcessingParams<K::Value>,
    r: ProcessResult<K::Value>,
    side: int,
    days: int,
    i: int,
)
    requires
        computes_in_reals(k, m),
        call_ensures(process_displacement::<K>, (k, bbox, datetime, features, params), Ok(r)),
        params.grid_size < 5 ==> side == 5,
        5 <= params.grid_size <= 200 ==> side == params.grid_size,
        params.grid_size > 200 ==> side == 200,
        can_be_told(m, box_numbers(m, bbox@), square(side)),
        days == baseline_days(r.frames@[0].date@, r.frames@.last().date@) as i64,
        0 <= i < side * side,
    ensures
        ({
            let last = r.frames@.last();
            let span = baseline_days(r.frames@[r.frames.len() - 2].date@, last.date@) as i64 as int;
            let coherent = |j: int|
                reliable_number(
                    m,
                    box_numbers(m, bbox@),
                    square(side),
                    place(side, j),
                    span,
                ) >= (m.of)(r.processing.min_coherence);
            let top = (m.of)(r.max_subsidence_mm);
            &&& top >= 0real
            &&& coherent(i) ==> -top <= (m.of)(last.displacement_mm@[i]) <= top
            &&& top == 0real || exists|j: int|
                0 <= j < side * side && coherent(j) && ((m.of)(#[trigger] last.displacement_mm@[j])
                    == top || (m.of)(last.displacement_mm@[j]) == -top)
            &&& days > 0 ==> (m.of)(r.mean_subsidence_rate_mm_yr) * (days as real) == top * (
            36525real / 100real)
            &&& days <= 0 ==> (m.of)(r.mean_subsidence_rate_mm_yr) == 0real
        }),
{
    let b = box_numbers(m, bbox@);
    let frames = r.frames@;
    let (scenes, made) = lemma_unpacked(k, *bbox, features@, *params, r);
    lemma_made(
        k,
        m,
        *bbox,
        side,
        scenes,
        made.centers,
        made.displacements,
        made.coherences,
        made.reference,
        made.referred,
        r,
    );
    let coh = stack_numbers(m, made.coherences);
    let c = reliable_in(m, b, side, frames);
    let pair = frames.len() - 2;
    let last = frames.last();
    assert(last == frames[frames.len() - 1]);
    assert(frames[0].scene() == scenes[0] && last.scene() == scenes.last()) by {
        assert(frames[0].fills(square(side)));
        assert(frames[frames.len() - 1].fills(square(side)));
    }
    assert(last.fills(square(side)));
    assert forall|j: int| 0 <= j < side * side implies (m.of)(
        #[trigger] made.coherences.last()@[j],
    ) == c(pair, j) by {
        assert(coh(pair, j) == c(pair, j));
    }
    possible_maximum_is_reached(
        k,
        m,
        r.processing.min_coherence,
        last.displacement_mm@,
        made.coherences.last()@,
        r.max_subsidence_mm,
    );
    possible_rate_spreads_over_the_days(
        k,
        m,
        r.max_subsidence_mm,
        days as i64,
        r.mean_subsidence_rate_mm_yr,
    );
    assert((m.of)(made.coherences.last()@[i]) == c(pair, i));
    let top = (m.of)(r.max_subsidence_mm);
    if top > 0real {
        let j = choose|j: int|
            0 <= j < last.displacement_mm@.len() && (m.of)(made.coherences.last()@[j]) >= (m.of)(
                r.processing.min_coherence,
            ) && ((m.of)(#[trigger] last.displacement_mm@[j]) == top || (m.of)(
                last.displacement_mm@[j],
            ) == -top);
        assert((m.of)(made.coherences.last()@[j]) == c(pair, j));
    }
}

} // verus!
