//! Ground displacement from a stack of acquisitions.
//!
//! 1. The acquisitions are put in chronological order, and every two neighbours form a pair.
//! 2. For every pair and grid cell the deformation and the atmosphere make up a phase, which is
//!    multi-looked, filtered and converted to a vertical displacement; a coherence goes with it.
//! 3. In stacks that are large enough the atmospheric phase screen is estimated and removed.
//! 4. Displacements are made relative to the most coherent cell and integrated into a time
//!    series, which leaves out what is not coherent.
use vstd::prelude::*;
use crate::atmosphere::{covers, is_corrected, remove_atmospheric_phase};
use crate::calendar::{baseline_days, can_read_day, estimate_temporal_baseline, has_day};
use crate::formula::evaluates;
use crate::grid::{
    clamp_grid_size, clamped_grid_size, default_grid_size, grid_cells, Cell, Grid,
    DEFAULT_GRID_SIZE,
};
use crate::numerics::{clamp, is_clamped, is_count, is_decimal, is_sum, Numerics};
use crate::scenes::{
    consecutive_pairs, dated, dated_scenes, dates_differ, dates_never_decrease, is_chronological,
    listing_order_does_not_matter, scene_texts, sort_by_date, sorting_keeps_the_scenes, Scene,
    SceneText, StacFeature,
};
use crate::series::{
    find_reference_point, integrate, is_max_subsidence, is_reference, is_reference_epoch,
    is_referred, is_series, is_yearly_rate, max_subsidence, refer_to_cell, yearly_rate,
    DisplacementFrame,
};
use crate::signal::{
    atmosphere_formula, cell_center, center_formula, coherence_formula, deformation_formula,
    estimate_coherence, goldstein_filter, goldstein_formula, incidence_formula,
    local_incidence_angle, multilook_coherence, multilook_coherence_formula, multilook_formula,
    multilook_phase, simulate_atmospheric_phase, simulate_deformation_phase, vertical_displacement,
    vertical_formula, EFFECTIVE_LOOKS, LOOKS_AZIMUTH, LOOKS_RANGE,
};
use crate::text::text_less;

verus! {

/// The number of acquisitions from which on the atmosphere can be estimated.
pub const SCENES_FOR_CORRECTION: usize = 5;

/// What a request may choose.
pub struct ProcessingParams<V> {
    pub grid_size: usize,
    pub min_coherence: V,
}

/// How a result came about.
pub struct ProcessingMetadata<V> {
    pub grid_size: usize,
    pub effective_looks: V,
    pub looks_range: usize,
    pub looks_azimuth: usize,
    pub min_coherence: V,
    pub goldstein_alpha: V,
    pub n_scenes: usize,
    pub n_pairs: usize,
    pub reference_point: [V; 2],
    pub reference_coherence: V,
    pub atmospheric_correction: bool,
}

/// A time series of ground displacement.
pub struct ProcessResult<V> {
    pub bbox: [V; 4],
    pub frames: Vec<DisplacementFrame<V>>,
    pub grid_w: usize,
    pub grid_h: usize,
    pub max_subsidence_mm: V,
    pub mean_subsidence_rate_mm_yr: V,
    pub processing: ProcessingMetadata<V>,
}

// ── Parameters ──

/// The coherence below which a measurement is noise, where a request does not say otherwise.
pub fn default_min_coherence<K: Numerics>(k: &K) -> (coherence: K::Value)
    ensures
        is_decimal(k, 4, 1, coherence),
{
    k.decimal(4, 1)
}

impl<V> ProcessingParams<V> {
    /// What is processed where a request chooses nothing.
    pub fn default<K: Numerics<Value = V>>(k: &K) -> (params: Self)
        ensures
            params.grid_size == 20,
            is_decimal(k, 4, 1, params.min_coherence),
    {
        ProcessingParams { grid_size: default_grid_size(), min_coherence: default_min_coherence(k) }
    }
}

/// `r` can be the coherence threshold that is used where `x` is asked for: `x` within 0 and 0.95.
pub open spec fn is_threshold<K: Numerics>(k: &K, x: K::Value, r: K::Value) -> bool {
    exists|low: K::Value, high: K::Value|
        #[trigger] is_decimal(k, 0, 0, low) && #[trigger] is_decimal(k, 95, 2, high) && is_clamped(
            k,
            x,
            low,
            high,
            r,
        )
}

/// Keeps a requested coherence threshold within the limits.
pub fn clamp_min_coherence<K: Numerics>(k: &K, x: K::Value) -> (r: K::Value)
    ensures
        is_threshold(k, x, r),
{
    let low = k.decimal(0, 0);
    let high = k.decimal(95, 2);
    assert(is_decimal(k, 0, 0, low));
    assert(is_decimal(k, 95, 2, high));
    clamp(k, x, low, high)
}

// ── Interferograms ──

/// Whether values can be the longitudes and latitudes of the cells of a grid over a box.
pub open spec fn are_centers<K: Numerics>(
    k: &K,
    bbox: [K::Value; 4],
    grid: Grid,
    centers: Seq<(K::Value, K::Value)>,
) -> bool {
    &&& centers.len() == grid.cells()
    &&& forall|i: int, cell: Cell|
        0 <= i < grid.cells() && #[trigger] grid.has_cell(i, cell) ==> {
            &&& evaluates(
                k,
                center_formula(bbox@[0], bbox@[2], cell.col, grid.width),
                centers[i].0,
            )
            &&& evaluates(
                k,
                center_formula(bbox@[1], bbox@[3], cell.row, grid.height),
                centers[i].1,
            )
        }
}

/// Whether values can be the angles of incidence at the cells of a grid over a box.
pub open spec fn are_incidence_angles<K: Numerics>(
    k: &K,
    bbox: [K::Value; 4],
    grid: Grid,
    angles: Seq<K::Value>,
) -> bool {
    &&& angles.len() == grid.cells()
    &&& forall|i: int, cell: Cell|
        0 <= i < grid.cells() && #[trigger] grid.has_cell(i, cell) ==> evaluates(
            k,
            incidence_formula(bbox@, grid, cell),
            angles[i],
        )
}

/// The centers of the cells of a grid.
pub fn compute_grid_centers<K: Numerics>(k: &K, bbox: &[K::Value; 4], grid: &Grid) -> (centers: Vec<
    (K::Value, K::Value),
>)
    requires
        grid.valid(),
    ensures
        are_centers(k, *bbox, *grid, centers@),
{
    let cells = grid_cells(grid);
    let mut centers: Vec<(K::Value, K::Value)> = Vec::new();
    let mut i: usize = 0;
    while i < cells.len()
        invariant
            i <= cells.len() == grid.cells(),
            forall|j: int| 0 <= j < cells.len() ==> grid.has_cell(j, #[trigger] cells@[j]),
            centers.len() == i,
            forall|j: int|
                0 <= j < i ==> evaluates(
                    k,
                    center_formula(bbox@[0], bbox@[2], cells@[j].col, grid.width),
                    (#[trigger] centers@[j]).0,
                ) && evaluates(
                    k,
                    center_formula(bbox@[1], bbox@[3], cells@[j].row, grid.height),
                    centers@[j].1,
                ),
        decreases cells.len() - i,
    {
        let cell = &cells[i];
        let lon = cell_center(k, bbox[0], bbox[2], cell.col, grid.width);
        let lat = cell_center(k, bbox[1], bbox[3], cell.row, grid.height);
        centers.push((lon, lat));
        i = i + 1;
    }
    proof {
        assert forall|j: int, cell: Cell|
            0 <= j < grid.cells() && #[trigger] grid.has_cell(j, cell) implies evaluates(
            k,
            center_formula(bbox@[0], bbox@[2], cell.col, grid.width),
            centers@[j].0,
        ) && evaluates(
            k,
            center_formula(bbox@[1], bbox@[3], cell.row, grid.height),
            centers@[j].1,
        ) by {
            assert(grid.has_cell(j, cells@[j]));
            assert(cell == cells@[j]);
        }
    }
    centers
}

/// The angles of incidence at the cells of a grid.
pub fn compute_local_incidence_angles<K: Numerics>(k: &K, bbox: &[K::Value; 4], grid: &Grid) -> (
    angles: Vec<K::Value>)
    requires
        grid.valid(),
    ensures
        are_incidence_angles(k, *bbox, *grid, angles@),
{
    let cells = grid_cells(grid);
    let mut angles: Vec<K::Value> = Vec::new();
    let mut i: usize = 0;
    while i < cells.len()
        invariant
            i <= cells.len() == grid.cells(),
            forall|j: int| 0 <= j < cells.len() ==> grid.has_cell(j, #[trigger] cells@[j]),
            angles.len() == i,
            forall|j: int|
                0 <= j < i ==> evaluates(
                    k,
                    incidence_formula(bbox@, *grid, cells@[j]),
                    #[trigger] angles@[j],
                ),
        decreases cells.len() - i,
    {
        angles.push(local_incidence_angle(k, bbox, grid, &cells[i]));
        i = i + 1;
    }
    proof {
        assert forall|j: int, cell: Cell|
            0 <= j < grid.cells() && #[trigger] grid.has_cell(j, cell) implies evaluates(
            k,
            incidence_formula(bbox@, *grid, cell),
            angles@[j],
        ) by {
            assert(grid.has_cell(j, cells@[j]));
            assert(cell == cells@[j]);
        }
    }
    angles
}

/// `phase` can be the filtered phase of a cell: deformation and atmosphere together, multi-looked
/// and filtered.
pub open spec fn is_filtered_phase<K: Numerics>(
    k: &K,
    bbox: [K::Value; 4],
    grid: Grid,
    cell: Cell,
    center: (K::Value, K::Value),
    days: i64,
    phase: K::Value,
) -> bool {
    exists|deformation: K::Value, atmosphere: K::Value, raw: K::Value, looked: K::Value|
        {
            &&& #[trigger] is_sum(k, deformation, atmosphere, raw)
            &&& evaluates(k, deformation_formula(center, bbox@, days), deformation)
            &&& evaluates(k, atmosphere_formula(center, cell.index), atmosphere)
            &&& #[trigger] evaluates(k, multilook_formula(raw), looked)
            &&& evaluates(k, goldstein_formula(looked, grid, cell), phase)
        }
}

/// `d` can be the vertical displacement of a cell between two acquisitions, in millimetres.
pub open spec fn is_displacement<K: Numerics>(
    k: &K,
    bbox: [K::Value; 4],
    grid: Grid,
    cell: Cell,
    center: (K::Value, K::Value),
    angle: K::Value,
    days: i64,
    d: K::Value,
) -> bool {
    exists|phase: K::Value| #[trigger]
        is_filtered_phase(k, bbox, grid, cell, center, days, phase) && evaluates(
            k,
            vertical_formula(phase, angle),
            d,
        )
}

/// `r` can be the coherence of a cell between two acquisitions.
pub open spec fn is_coherence<K: Numerics>(
    k: &K,
    bbox: [K::Value; 4],
    center: (K::Value, K::Value),
    days: i64,
    r: K::Value,
) -> bool {
    exists|raw: K::Value| #[trigger]
        evaluates(k, coherence_formula(center, bbox@, days), raw) && evaluates(
            k,
            multilook_coherence_formula(raw),
            r,
        )
}

/// Whether two grids of values can be the interferogram of acquisitions some days apart.
pub open spec fn is_interferogram<K: Numerics>(
    k: &K,
    bbox: [K::Value; 4],
    grid: Grid,
    centers: Seq<(K::Value, K::Value)>,
    angles: Seq<K::Value>,
    days: i64,
    displacement: Seq<K::Value>,
    coherence: Seq<K::Value>,
) -> bool {
    &&& displacement.len() == grid.cells()
    &&& coherence.len() == grid.cells()
    &&& forall|i: int, cell: Cell|
        0 <= i < grid.cells() && #[trigger] grid.has_cell(i, cell) ==> is_displacement(
            k,
            bbox,
            grid,
            cell,
            centers[i],
            angles[i],
            days,
            displacement[i],
        ) && is_coherence(k, bbox, centers[i], days, coherence[i])
}

/// Measures the vertical displacement of a cell between two acquisitions.
fn measure_displacement<K: Numerics>(
    k: &K,
    bbox: &[K::Value; 4],
    grid: &Grid,
    cell: &Cell,
    center: (K::Value, K::Value),
    angle: K::Value,
    days: i64,
) -> (d: K::Value)
    ensures
        is_displacement(k, *bbox, *grid, *cell, center, angle, days, d),
{
    let deformation = simulate_deformation_phase(k, center, bbox, days);
    let atmosphere = simulate_atmospheric_phase(k, center, cell.index);
    let raw = k.plus(deformation, atmosphere);
    let looked = multilook_phase(k, raw);
    let phase = goldstein_filter(k, looked, grid, cell);
    assert(is_sum(k, deformation, atmosphere, raw));
    assert(is_filtered_phase(k, *bbox, *grid, *cell, center, days, phase));
    vertical_displacement(k, phase, angle)
}

/// Measures the coherence of a cell between two acquisitions.
fn measure_coherence<K: Numerics>(
    k: &K,
    bbox: &[K::Value; 4],
    center: (K::Value, K::Value),
    days: i64,
) -> (r: K::Value)
    ensures
        is_coherence(k, *bbox, center, days, r),
{
    let raw = estimate_coherence(k, center, bbox, days);
    multilook_coherence(k, raw)
}

/// The interferogram of two acquisitions some days apart.
pub fn interferogram<K: Numerics>(
    k: &K,
    bbox: &[K::Value; 4],
    grid: &Grid,
    centers: &Vec<(K::Value, K::Value)>,
    angles: &Vec<K::Value>,
    days: i64,
) -> (values: (Vec<K::Value>, Vec<K::Value>))
    requires
        grid.valid(),
        centers.len() >= grid.cells(),
        angles.len() >= grid.cells(),
    ensures
        is_interferogram(
            k,
            *bbox,
            *grid,
            centers@,
            angles@,
            days,
            values.0@,
            values.1@,
        ),
{
    let cells = grid_cells(grid);
    let mut displacement: Vec<K::Value> = Vec::new();
    let mut coherence: Vec<K::Value> = Vec::new();
    let mut i: usize = 0;
    while i < cells.len()
        invariant
            i <= cells.len() == grid.cells(),
            centers.len() >= grid.cells(),
            angles.len() >= grid.cells(),
            forall|j: int| 0 <= j < cells.len() ==> grid.has_cell(j, #[trigger] cells@[j]),
            displacement.len() == i,
            coherence.len() == i,
            forall|j: int|
                #![trigger cells@[j]]
                0 <= j < i ==> is_displacement(
                    k,
                    *bbox,
                    *grid,
                    cells@[j],
                    centers@[j],
                    angles@[j],
                    days,
                    displacement@[j],
                ) && is_coherence(k, *bbox, centers@[j], days, coherence@[j]),
        decreases cells.len() - i,
    {
        displacement.push(
            measure_displacement(k, bbox, grid, &cells[i], centers[i], angles[i], days),
        );
        coherence.push(measure_coherence(k, bbox, centers[i], days));
        i = i + 1;
    }
    proof {
        assert forall|j: int, cell: Cell|
            0 <= j < grid.cells() && #[trigger] grid.has_cell(j, cell) implies is_displacement(
            k,
            *bbox,
            *grid,
            cell,
            centers@[j],
            angles@[j],
            days,
            displacement@[j],
        ) && is_coherence(k, *bbox, centers@[j], days, coherence@[j]) by {
            assert(grid.has_cell(j, cells@[j]));
            assert(cell == cells@[j]);
        }
    }
    (displacement, coherence)
}

/// Whether two stacks of grids can be the interferograms of consecutive acquisitions.
pub open spec fn are_interferograms<K: Numerics>(
    k: &K,
    bbox: [K::Value; 4],
    grid: Grid,
    centers: Seq<(K::Value, K::Value)>,
    scenes: Seq<SceneText>,
    displacements: Seq<Vec<K::Value>>,
    coherences: Seq<Vec<K::Value>>,
) -> bool {
    &&& displacements.len() == scenes.len() - 1
    &&& coherences.len() == scenes.len() - 1
    &&& exists|angles: Seq<K::Value>|
        {
            &&& #[trigger] are_incidence_angles(k, bbox, grid, angles)
            &&& forall|p: int|
                0 <= p < scenes.len() - 1 ==> is_interferogram(
                    k,
                    bbox,
                    grid,
                    centers,
                    angles,
                    baseline_days(scenes[p].date, scenes[p + 1].date) as i64,
                    (#[trigger] displacements[p])@,
                    coherences[p]@,
                )
        }
}

/// The interferograms of consecutive acquisitions.
pub fn interferograms<K: Numerics>(
    k: &K,
    bbox: &[K::Value; 4],
    grid: &Grid,
    centers: &Vec<(K::Value, K::Value)>,
    scenes: &Vec<Scene>,
) -> (stacks: (Vec<Vec<K::Value>>, Vec<Vec<K::Value>>))
    requires
        grid.valid(),
        centers.len() >= grid.cells(),
        scenes.len() > 0,
        scenes.len() > 1 ==> forall|i: int|
            0 <= i < scenes.len() ==> has_day((#[trigger] scenes@[i]).date@),
    ensures
        are_interferograms(
            k,
            *bbox,
            *grid,
            centers@,
            scene_texts(scenes@),
            stacks.0@,
            stacks.1@,
        ),
{
    let angles = compute_local_incidence_angles(k, bbox, grid);
    let pairs = consecutive_pairs(scenes);
    let mut displacements: Vec<Vec<K::Value>> = Vec::new();
    let mut coherences: Vec<Vec<K::Value>> = Vec::new();
    let mut p: usize = 0;
    while p < pairs.len()
        invariant
            grid.valid(),
            centers.len() >= grid.cells(),
            angles.len() >= grid.cells(),
            p <= pairs.len(),
            pairs.len() == scenes.len() - 1,
            scenes.len() > 1 ==> forall|i: int|
                0 <= i < scenes.len() ==> has_day((#[trigger] scenes@[i]).date@),
            forall|q: int|
                0 <= q < pairs.len() ==> *(#[trigger] pairs@[q]).first == scenes@[q]
                    && *pairs@[q].second == scenes@[q + 1],
            displacements.len() == p,
            coherences.len() == p,
            forall|q: int|
                0 <= q < p ==> is_interferogram(
                    k,
                    *bbox,
                    *grid,
                    centers@,
                    angles@,
                    baseline_days(scenes@[q].date@, scenes@[q + 1].date@) as i64,
                    (#[trigger] displacements@[q])@,
                    coherences@[q]@,
                ),
        decreases pairs.len() - p,
    {
        let pair = &pairs[p];
        assert(*pairs@[p as int].first == scenes@[p as int]);
        assert(has_day(scenes@[p as int].date@) && has_day(scenes@[p + 1].date@));
        let days: i64 = estimate_temporal_baseline(
            pair.first.date.as_str(),
            pair.second.date.as_str(),
        );
        let (displacement, coherence) = interferogram(k, bbox, grid, centers, &angles, days);
        displacements.push(displacement);
        coherences.push(coherence);
        p = p + 1;
    }
    assert(are_incidence_angles(k, *bbox, *grid, angles@));
    (displacements, coherences)
}

// ── Processing ──

/// The grid that is processed where `n` cells a side are asked for.
pub open spec fn processed_grid(n: usize) -> Grid {
    let side = clamped_grid_size(n as int) as usize;
    Grid { width: side, height: side }
}

/// Whether the dates of the acquisitions of a stack can be read.
pub open spec fn stack_readable(features: Seq<StacFeature>) -> bool {
    dated(features).len() >= 2 ==> forall|i: int|
        0 <= i < dated(features).len() ==> has_day((#[trigger] dated(features)[i]).date)
}

/// Whether the metadata tell how a result came about.
pub open spec fn describes<K: Numerics>(
    k: &K,
    grid: Grid,
    n_scenes: nat,
    center: (K::Value, K::Value),
    m: ProcessingMetadata<K::Value>,
) -> bool {
    &&& m.grid_size == grid.width
    &&& is_count(k, EFFECTIVE_LOOKS, m.effective_looks)
    &&& m.looks_range == LOOKS_RANGE
    &&& m.looks_azimuth == LOOKS_AZIMUTH
    &&& is_decimal(k, 5, 1, m.goldstein_alpha)
    &&& m.n_scenes == n_scenes
    &&& m.n_pairs == n_scenes - 1
    &&& m.atmospheric_correction == (n_scenes >= SCENES_FOR_CORRECTION)
    &&& m.reference_point@ == seq![center.0, center.1]
}

/// Whether `cleaned` can be a stack of displacements after the correction for the atmosphere, which
/// is made where there are enough acquisitions.
pub open spec fn is_cleaned<K: Numerics>(
    k: &K,
    min_coherence: K::Value,
    n_scenes: nat,
    displacements: Seq<Vec<K::Value>>,
    coherences: Seq<Vec<K::Value>>,
    cleaned: Seq<Vec<K::Value>>,
) -> bool {
    if n_scenes >= SCENES_FOR_CORRECTION {
        is_corrected(k, min_coherence, displacements, coherences, cleaned)
    } else {
        cleaned == displacements
    }
}

/// Whether `referred` can be stacks of displacements relative to a reference cell, with the
/// atmosphere removed where there are enough acquisitions.
pub open spec fn are_referred<K: Numerics>(
    k: &K,
    min_coherence: K::Value,
    n_scenes: nat,
    displacements: Seq<Vec<K::Value>>,
    coherences: Seq<Vec<K::Value>>,
    reference: int,
    referred: Seq<Vec<K::Value>>,
) -> bool {
    exists|cleaned: Seq<Vec<K::Value>>|
        {
            &&& #[trigger] is_cleaned(
                k,
                min_coherence,
                n_scenes,
                displacements,
                coherences,
                cleaned,
            )
            &&& referred.len() == cleaned.len()
            &&& forall|p: int|
                0 <= p < referred.len() ==> is_referred(
                    k,
                    cleaned[p]@,
                    reference,
                    (#[trigger] referred[p])@,
                )
        }
}

/// Whether a result can be made from the centers of the cells, the interferograms of a stack, the
/// number of the reference cell and the displacements that are referred to it.
pub open spec fn is_made_from<K: Numerics>(
    k: &K,
    bbox: [K::Value; 4],
    grid: Grid,
    scenes: Seq<SceneText>,
    centers: Seq<(K::Value, K::Value)>,
    displacements: Seq<Vec<K::Value>>,
    coherences: Seq<Vec<K::Value>>,
    reference: int,
    referred: Seq<Vec<K::Value>>,
    r: ProcessResult<K::Value>,
) -> bool {
    let min_coherence = r.processing.min_coherence;
    &&& are_centers(k, bbox, grid, centers)
    &&& are_interferograms(k, bbox, grid, centers, scenes, displacements, coherences)
    &&& 0 <= reference < grid.cells()
    &&& is_reference(
        k,
        coherences,
        grid.cells(),
        reference,
        r.processing.reference_coherence,
    )
    &&& are_referred(
        k,
        min_coherence,
        scenes.len(),
        displacements,
        coherences,
        reference,
        referred,
    )
    &&& is_series(k, min_coherence, grid, scenes, referred, coherences, r.frames@)
    &&& is_max_subsidence(
        k,
        min_coherence,
        r.frames@.last().displacement_mm@,
        coherences.last()@,
        r.max_subsidence_mm,
    )
    &&& describes(k, grid, scenes.len(), centers[reference], r.processing)
}

/// Whether a result can be the time series of a stack of acquisitions, in the order of `scenes`.
pub open spec fn is_time_series<K: Numerics>(
    k: &K,
    bbox: [K::Value; 4],
    grid: Grid,
    scenes: Seq<SceneText>,
    r: ProcessResult<K::Value>,
) -> bool {
    exists|
        centers: Seq<(K::Value, K::Value)>,
        displacements: Seq<Vec<K::Value>>,
        coherences: Seq<Vec<K::Value>>,
        reference: int,
        referred: Seq<Vec<K::Value>>,
    | #[trigger]
        is_made_from(
            k,
            bbox,
            grid,
            scenes,
            centers,
            displacements,
            coherences,
            reference,
            referred,
            r,
        )
}

/// Whether a result can be what a request for some features is answered with.
pub open spec fn is_processed<K: Numerics>(
    k: &K,
    bbox: [K::Value; 4],
    features: Seq<StacFeature>,
    params: ProcessingParams<K::Value>,
    r: ProcessResult<K::Value>,
) -> bool {
    let grid = processed_grid(params.grid_size);
    &&& r.bbox == bbox
    &&& r.grid_w == grid.width
    &&& r.grid_h == grid.height
    &&& is_threshold(k, params.min_coherence, r.processing.min_coherence)
    &&& exists|scenes: Seq<SceneText>|
        {
            &&& #[trigger] is_chronological(dated(features), scenes)
            &&& is_time_series(k, bbox, grid, scenes, r)
            &&& is_yearly_rate(
                k,
                r.max_subsidence_mm,
                baseline_days(scenes[0].date, scenes.last().date) as i64,
                r.mean_subsidence_rate_mm_yr,
            )
        }
}

/// Whether [`process_displacement`] can take a stack.
pub fn can_process(features: &[StacFeature]) -> (readable: bool)
    ensures
        readable == stack_readable(features@),
{
    let scenes = dated_scenes(features);
    let ghost texts = scene_texts(scenes@);
    if scenes.len() < 2 {
        return true;
    }
    let mut i: usize = 0;
    while i < scenes.len()
        invariant
            i <= scenes.len(),
            texts == scene_texts(scenes@),
            texts == dated(features@),
            texts.len() >= 2,
            forall|j: int| 0 <= j < i ==> has_day((#[trigger] texts[j]).date),
        decreases scenes.len() - i,
    {
        if !can_read_day(scenes[i].date.as_str()) {
            assert(!has_day(texts[i as int].date));
            return false;
        }
        assert(has_day(texts[i as int].date));
        i = i + 1;
    }
    true
}

/// Tells how a result came about.
fn describe<K: Numerics>(
    k: &K,
    grid: &Grid,
    n_scenes: usize,
    center: (K::Value, K::Value),
    min_coherence: K::Value,
    reference_coherence: K::Value,
) -> (m: ProcessingMetadata<K::Value>)
    requires
        n_scenes > 0,
    ensures
        describes(k, *grid, n_scenes as nat, center, m),
        m.min_coherence == min_coherence,
        m.reference_coherence == reference_coherence,
{
    ProcessingMetadata {
        grid_size: grid.width,
        effective_looks: k.count(EFFECTIVE_LOOKS),
        looks_range: LOOKS_RANGE,
        looks_azimuth: LOOKS_AZIMUTH,
        min_coherence,
        goldstein_alpha: k.decimal(5, 1),
        n_scenes,
        n_pairs: n_scenes - 1,
        reference_point: [center.0, center.1],
        reference_coherence,
        atmospheric_correction: n_scenes >= SCENES_FOR_CORRECTION,
    }
}

/// Computes the time series of acquisitions in chronological order.
fn process_scenes<K: Numerics>(
    k: &K,
    bbox: &[K::Value; 4],
    grid: &Grid,
    scenes: &Vec<Scene>,
    min_coherence: K::Value,
) -> (r: ProcessResult<K::Value>)
    requires
        grid.valid(),
        grid.cells() > 0,
        scenes.len() >= 2,
        forall|i: int| 0 <= i < scenes.len() ==> has_day((#[trigger] scenes@[i]).date@),
    ensures
        r.bbox == *bbox,
        r.grid_w == grid.width,
        r.grid_h == grid.height,
        r.processing.min_coherence == min_coherence,
        is_time_series(k, *bbox, *grid, scene_texts(scenes@), r),
        is_yearly_rate(
            k,
            r.max_subsidence_mm,
            baseline_days(scenes@[0].date@, scenes@.last().date@) as i64,
            r.mean_subsidence_rate_mm_yr,
        ),
{
    let ghost texts = scene_texts(scenes@);
    let centers = compute_grid_centers(k, bbox, grid);
    let (mut pair_displacements, pair_coherences) = interferograms(
        k,
        bbox,
        grid,
        &centers,
        scenes,
    );
    let ghost measured = pair_displacements@;
    let n_cells: usize = grid.width * grid.height;
    proof {
        interferograms_fill_the_grid(k, *bbox, *grid, centers@, texts, measured, pair_coherences@);
        assert(measured[0].len() == n_cells);
    }
    if scenes.len() >= SCENES_FOR_CORRECTION {
        remove_atmospheric_phase(k, &mut pair_displacements, &pair_coherences, min_coherence);
    }
    let ghost cleaned = pair_displacements@;
    proof {
        assert(is_cleaned(k, min_coherence, texts.len(), measured, pair_coherences@, cleaned));
        lemma_cleaning_keeps_sizes(
            k,
            min_coherence,
            texts.len(),
            measured,
            pair_coherences@,
            cleaned,
        );
    }
    let (reference, reference_coherence) = find_reference_point(k, &pair_coherences, n_cells);
    assert(covers(cleaned, cleaned.len(), reference + 1)) by {
        assert forall|p: int| 0 <= p < cleaned.len() implies (#[trigger] cleaned[p]).len()
            >= reference + 1 by {
            assert(measured[p].len() == n_cells);
        }
    }
    refer_to_cell(k, &mut pair_displacements, reference);
    assert(covers(pair_displacements@, (scenes.len() - 1) as nat, grid.cells())) by {
        assert forall|p: int| 0 <= p < scenes.len() - 1 implies (
        #[trigger] pair_displacements@[p]).len() >= n_cells by {
            assert(measured[p].len() == n_cells);
            assert(cleaned[p].len() == n_cells);
        }
    }
    assert(are_referred(
        k,
        min_coherence,
        texts.len(),
        measured,
        pair_coherences@,
        reference as int,
        pair_displacements@,
    ));
    let frames = integrate(k, min_coherence, grid, scenes, &pair_displacements, &pair_coherences);
    let last = frames.len() - 1;
    assert(frames@[last as int].fills(*grid));
    assert(pair_coherences@[last - 1].len() == n_cells) by {
        assert(measured[last - 1].len() == n_cells);
    }
    let max_subsidence_mm = max_subsidence(
        k,
        min_coherence,
        &frames[last].displacement_mm,
        &pair_coherences[last - 1],
    );
    let total_days: i64 = estimate_temporal_baseline(
        scenes[0].date.as_str(),
        scenes[last].date.as_str(),
    );
    let mean_subsidence_rate_mm_yr = yearly_rate(k, max_subsidence_mm, total_days);
    let processing = describe(
        k,
        grid,
        scenes.len(),
        centers[reference],
        min_coherence,
        reference_coherence,
    );
    let r = ProcessResult {
        bbox: *bbox,
        frames,
        grid_w: grid.width,
        grid_h: grid.height,
        max_subsidence_mm,
        mean_subsidence_rate_mm_yr,
        processing,
    };
    assert(is_made_from(
        k,
        *bbox,
        *grid,
        texts,
        centers@,
        measured,
        pair_coherences@,
        reference as int,
        pair_displacements@,
        r,
    ));
    r
}

/// Interferograms have a value for every cell.
pub proof fn interferograms_fill_the_grid<K: Numerics>(
    k: &K,
    bbox: [K::Value; 4],
    grid: Grid,
    centers: Seq<(K::Value, K::Value)>,
    scenes: Seq<SceneText>,
    displacements: Seq<Vec<K::Value>>,
    coherences: Seq<Vec<K::Value>>,
)
    requires
        are_interferograms(k, bbox, grid, centers, scenes, displacements, coherences),
    ensures
        forall|p: int|
            #![trigger displacements[p]]
            #![trigger coherences[p]]
            0 <= p < displacements.len() ==> displacements[p].len() == grid.cells()
                && coherences[p].len() == grid.cells(),
{
    let angles = choose|angles: Seq<K::Value>|
        {
            &&& #[trigger] are_incidence_angles(k, bbox, grid, angles)
            &&& forall|p: int|
                0 <= p < scenes.len() - 1 ==> is_interferogram(
                    k,
                    bbox,
                    grid,
                    centers,
                    angles,
                    baseline_days(scenes[p].date, scenes[p + 1].date) as i64,
                    (#[trigger] displacements[p])@,
                    coherences[p]@,
                )
        };
    assert forall|p: int|
        #![trigger displacements[p]]
        #![trigger coherences[p]]
        0 <= p < displacements.len() implies displacements[p].len() == grid.cells()
        && coherences[p].len() == grid.cells() by {
        assert(is_interferogram(
            k,
            bbox,
            grid,
            centers,
            angles,
            baseline_days(scenes[p].date, scenes[p + 1].date) as i64,
            displacements[p]@,
            coherences[p]@,
        ));
    }
}

/// The correction for the atmosphere keeps the number of grids and their sizes.
proof fn lemma_cleaning_keeps_sizes<K: Numerics>(
    k: &K,
    min_coherence: K::Value,
    n_scenes: nat,
    displacements: Seq<Vec<K::Value>>,
    coherences: Seq<Vec<K::Value>>,
    cleaned: Seq<Vec<K::Value>>,
)
    requires
        is_cleaned(k, min_coherence, n_scenes, displacements, coherences, cleaned),
    ensures
        cleaned.len() == displacements.len(),
        forall|p: int|
            0 <= p < cleaned.len() ==> (#[trigger] cleaned[p]).len() == displacements[p].len(),
{
}

/// Computes the ground displacement of an area from a stack of acquisitions.
pub fn process_displacement<K: Numerics>(
    k: &K,
    bbox: &[K::Value; 4],
    _datetime: &str,
    features: &[StacFeature],
    params: &ProcessingParams<K::Value>,
) -> (result: Result<ProcessResult<K::Value>, String>)
    requires
        stack_readable(features@),
    ensures
        match result {
            Ok(r) => dated(features@).len() >= 2 && is_processed(
                k,
                *bbox,
                features@,
                *params,
                r,
            ),
            Err(e) => {
                ||| features@.len() == 0 && e@ == "no scenes provided"@
                ||| features@.len() > 0 && dated(features@).len() < 2 && e@
                    == "need at least 2 scenes for interferometry"@
            },
        },
{
    if features.len() == 0 {
        return Err("no scenes provided".to_string());
    }
    let grid_size = clamp_grid_size(params.grid_size);
    let min_coherence = clamp_min_coherence(k, params.min_coherence);
    let scenes = sort_by_date(&dated_scenes(features));
    let ghost texts = scene_texts(scenes@);
    proof {
        sorting_keeps_the_scenes(dated(features@), texts);
    }
    if scenes.len() < 2 {
        return Err("need at least 2 scenes for interferometry".to_string());
    }
    let grid = Grid { width: grid_size, height: grid_size };
    proof {
        let side = grid_size as int;
        assert(25 <= side * side <= 40000) by (nonlinear_arith)
            requires
                5 <= side <= 200,
        ;
        assert forall|i: int| 0 <= i < scenes.len() implies has_day(
            (#[trigger] scenes@[i]).date@,
        ) by {
            assert(texts[i] == scenes@[i]@);
            assert(texts.contains(texts[i]));
            let j = choose|j: int|
                0 <= j < dated(features@).len() && dated(features@)[j] == texts[i];
            assert(has_day(dated(features@)[j].date));
        }
    }
    let result = process_scenes(k, bbox, &grid, &scenes, min_coherence);
    assert(is_chronological(dated(features@), texts));
    Ok(result)
}

/// A result has one frame for each dated feature and no other, in the order of their dates; every
/// frame fills the same grid, and the first one is the reference epoch.
pub proof fn frames_follow_the_dates<K: Numerics>(
    k: &K,
    bbox: [K::Value; 4],
    features: Seq<StacFeature>,
    params: ProcessingParams<K::Value>,
    r: ProcessResult<K::Value>,
)
    requires
        dated(features).len() >= 2,
        is_processed(k, bbox, features, params, r),
    ensures
        r.frames.len() == dated(features).len(),
        r.processing.n_scenes == r.frames.len(),
        r.processing.n_pairs == r.frames.len() - 1,
        forall|s: SceneText|
            dated(features).contains(s) <==> exists|f: int|
                0 <= f < r.frames.len() && (#[trigger] r.frames@[f]).scene() == s,
        forall|f: int, g: int|
            0 <= f <= g < r.frames.len() ==> !text_less(
                (#[trigger] r.frames@[g]).date@,
                (#[trigger] r.frames@[f]).date@,
            ),
        forall|f: int|
            0 <= f < r.frames.len() ==> (#[trigger] r.frames@[f]).fills(
                processed_grid(params.grid_size),
            ),
        is_reference_epoch(k, r.frames@[0]),
{
    let grid = processed_grid(params.grid_size);
    let scenes = choose|scenes: Seq<SceneText>|
        {
            &&& #[trigger] is_chronological(dated(features), scenes)
            &&& is_time_series(k, bbox, grid, scenes, r)
            &&& is_yearly_rate(
                k,
                r.max_subsidence_mm,
                baseline_days(scenes[0].date, scenes.last().date) as i64,
                r.mean_subsidence_rate_mm_yr,
            )
        };
    sorting_keeps_the_scenes(dated(features), scenes);
    dates_never_decrease(dated(features), scenes);
    assert forall|s: SceneText| dated(features).contains(s) <==> exists|f: int|
        0 <= f < r.frames.len() && (#[trigger] r.frames@[f]).scene() == s by {
        if dated(features).contains(s) {
            assert(scenes.contains(s));
            let f = choose|f: int| 0 <= f < scenes.len() && scenes[f] == s;
            assert(r.frames@[f].scene() == s);
        }
        if exists|f: int| 0 <= f < r.frames.len() && (#[trigger] r.frames@[f]).scene() == s {
            let f = choose|f: int|
                0 <= f < r.frames.len() && (#[trigger] r.frames@[f]).scene() == s;
            assert(scenes[f] == s);
        }
    }
    assert forall|f: int, g: int| 0 <= f <= g < r.frames.len() implies !text_less(
        (#[trigger] r.frames@[g]).date@,
        (#[trigger] r.frames@[f]).date@,
    ) by {
        assert(r.frames@[f].scene() == scenes[f] && r.frames@[g].scene() == scenes[g]);
    }
}

/// Where a request does not say otherwise, every frame is a grid of 20 by 20 cells.
pub proof fn default_frames_are_twenty_by_twenty<K: Numerics>(
    k: &K,
    bbox: [K::Value; 4],
    features: Seq<StacFeature>,
    params: ProcessingParams<K::Value>,
    r: ProcessResult<K::Value>,
)
    requires
        dated(features).len() >= 2,
        params.grid_size == DEFAULT_GRID_SIZE,
        is_processed(k, bbox, features, params, r),
    ensures
        r.grid_w == 20,
        r.grid_h == 20,
        forall|f: int|
            0 <= f < r.frames.len() ==> (#[trigger] r.frames@[f]).displacement_mm.len() == 400
                && r.frames@[f].coherence.len() == 400,
{
    frames_follow_the_dates(k, bbox, features, params, r);
    let grid = processed_grid(params.grid_size);
    assert(grid.cells() == 400) by (nonlinear_arith)
        requires
            grid.width == 20,
            grid.height == 20,
            grid.cells() == grid.width * grid.height,
    ;
    assert forall|f: int| 0 <= f < r.frames.len() implies (
    #[trigger] r.frames@[f]).displacement_mm.len() == 400 && r.frames@[f].coherence.len()
        == 400 by {
        assert(r.frames@[f].fills(grid));
    }
}

/// Where no two features have the same date, the order in which they are listed does not matter:
/// what answers a request for one listing answers it for every other.
pub proof fn result_does_not_depend_on_listing_order<K: Numerics>(
    k: &K,
    bbox: [K::Value; 4],
    features1: Seq<StacFeature>,
    features2: Seq<StacFeature>,
    params: ProcessingParams<K::Value>,
    r: ProcessResult<K::Value>,
)
    requires
        is_processed(k, bbox, features1, params, r),
        forall|s: SceneText| dated(features1).contains(s) <==> dated(features2).contains(s),
        dates_differ(dated(features1)),
        dates_differ(dated(features2)),
    ensures
        is_processed(k, bbox, features2, params, r),
{
    let grid = processed_grid(params.grid_size);
    let scenes = choose|scenes: Seq<SceneText>|
        {
            &&& #[trigger] is_chronological(dated(features1), scenes)
            &&& is_time_series(k, bbox, grid, scenes, r)
            &&& is_yearly_rate(
                k,
                r.max_subsidence_mm,
                baseline_days(scenes[0].date, scenes.last().date) as i64,
                r.mean_subsidence_rate_mm_yr,
            )
        };
    listing_order_does_not_matter(dated(features1), dated(features2), scenes);
}

/// Whether two choices of parameters come to the same: the same grid, and the same thresholds.
pub open spec fn same_choices<K: Numerics>(
    k: &K,
    params1: ProcessingParams<K::Value>,
    params2: ProcessingParams<K::Value>,
) -> bool {
    &&& clamped_grid_size(params1.grid_size as int) == clamped_grid_size(params2.grid_size as int)
    &&& forall|r: K::Value|
        is_threshold(k, params1.min_coherence, r) <==> is_threshold(k, params2.min_coherence, r)
}

/// What lies beyond the limits of the parameters does not matter: what answers a request with one
/// choice of parameters answers it with every other that comes to the same.
pub proof fn result_does_not_depend_on_excess<K: Numerics>(
    k: &K,
    bbox: [K::Value; 4],
    features: Seq<StacFeature>,
    params1: ProcessingParams<K::Value>,
    params2: ProcessingParams<K::Value>,
    r: ProcessResult<K::Value>,
)
    requires
        same_choices(k, params1, params2),
    ensures
        is_processed(k, bbox, features, params1, r) <==> is_processed(
            k,
            bbox,
            features,
            params2,
            r,
        ),
{
    assert(processed_grid(params1.grid_size) == processed_grid(params2.grid_size));
}

/// Equivalent requests admit the same answers: neither the order in which scenes of different dates
/// are listed, nor features without a date, nor what lies beyond the limits of the parameters makes
/// a difference to what can answer a request.
pub proof fn equivalent_requests_admit_the_same_answers<K: Numerics>(
    k: &K,
    bbox: [K::Value; 4],
    features1: Seq<StacFeature>,
    params1: ProcessingParams<K::Value>,
    features2: Seq<StacFeature>,
    params2: ProcessingParams<K::Value>,
    r: ProcessResult<K::Value>,
)
    requires
        forall|t: SceneText| dated(features1).contains(t) <==> dated(features2).contains(t),
        dates_differ(dated(features1)),
        dates_differ(dated(features2)),
        same_choices(k, params1, params2),
    ensures
        is_processed(k, bbox, features1, params1, r) <==> is_processed(
            k,
            bbox,
            features2,
            params2,
            r,
        ),
{
    if is_processed(k, bbox, features1, params1, r) {
        result_does_not_depend_on_listing_order(k, bbox, features1, features2, params1, r);
        result_does_not_depend_on_excess(k, bbox, features2, params1, params2, r);
    }
    if is_processed(k, bbox, features2, params2, r) {
        result_does_not_depend_on_listing_order(k, bbox, features2, features1, params2, r);
        result_does_not_depend_on_excess(k, bbox, features1, params1, params2, r);
    }
}

} // verus!
