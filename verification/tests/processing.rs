use geoint_playback::atmosphere::{mean_rate, remove_atmospheric_phase, spatial_smooth};
use geoint_playback::calendar::estimate_temporal_baseline;
use geoint_playback::formula::Term;
use geoint_playback::grid::{cell_at, Grid};
use geoint_playback::insar::{
    can_process, clamp_min_coherence, compute_grid_centers, compute_local_incidence_angles,
    default_min_coherence, process_displacement, ProcessResult, ProcessingParams,
};
use geoint_playback::numerics::{above, at_least, below, clamp, mean, Comparison, Numerics};
use geoint_playback::scenes::{FeatureProperties, StacFeature};
use geoint_playback::series::{find_reference_point, max_subsidence, refer_to_cell, yearly_rate};
use geoint_playback::signal::{
    cell_center, estimate_coherence, goldstein_filter, local_incidence_angle, multilook_coherence,
    multilook_phase, simulate_atmospheric_phase, simulate_deformation_phase, vertical_displacement,
};
use geoint_playback::worker::{
    handle_message, ProcessRequest, WorkerAction, WorkerEvent, WorkerState,
};

/// Double-precision arithmetic.
struct Doubles;

impl Numerics for Doubles {
    type Value = f64;

    fn decimal(&self, digits: i64, places: u32) -> f64 {
        let mut scale = 1.0;
        for _ in 0..places {
            scale *= 10.0;
        }
        digits as f64 / scale
    }

    fn count(&self, n: usize) -> f64 {
        n as f64
    }

    fn plus(&self, a: f64, b: f64) -> f64 {
        a + b
    }

    fn minus(&self, a: f64, b: f64) -> f64 {
        a - b
    }

    fn times(&self, a: f64, b: f64) -> f64 {
        a * b
    }

    fn over(&self, a: f64, b: f64) -> f64 {
        a / b
    }

    fn pi(&self) -> f64 {
        std::f64::consts::PI
    }

    fn negative(&self, a: f64) -> f64 {
        -a
    }

    fn root(&self, a: f64) -> f64 {
        a.sqrt()
    }

    fn exponential(&self, a: f64) -> f64 {
        a.exp()
    }

    fn sine(&self, a: f64) -> f64 {
        a.sin()
    }

    fn cosine(&self, a: f64) -> f64 {
        a.cos()
    }

    fn power(&self, a: f64, b: f64) -> f64 {
        a.powf(b)
    }

    fn magnitude(&self, a: f64) -> f64 {
        a.abs()
    }

    fn larger(&self, a: f64, b: f64) -> f64 {
        a.max(b)
    }

    fn compare(&self, a: f64, b: f64) -> Comparison {
        if a < b {
            Comparison::Less
        } else if a > b {
            Comparison::Greater
        } else if a == b {
            Comparison::Equal
        } else {
            Comparison::Unordered
        }
    }
}

const BBOX: [f64; 4] = [-118.35, 34.05, -118.30, 34.07];

const PI: f64 = std::f64::consts::PI;

fn feature(id: &str, datetime: Option<&str>) -> StacFeature {
    StacFeature {
        id: id.to_string(),
        properties: FeatureProperties {
            datetime: datetime.map(|d| d.to_string()),
            instrument_mode: Some("IW".to_string()),
        },
    }
}

fn stack(dates: &[&str]) -> Vec<StacFeature> {
    dates.iter().enumerate().map(|(i, d)| feature(&format!("scene{i}"), Some(d))).collect()
}

fn process(dates: &[&str], grid_size: usize, min_coherence: f64) -> ProcessResult<f64> {
    let params = ProcessingParams { grid_size, min_coherence };
    match process_displacement(&Doubles, &BBOX, "2024-01-01/2024-06-30", &stack(dates), &params) {
        Ok(result) => result,
        Err(text) => panic!("{text}"),
    }
}

// ── Values by hand ──

fn offsets(lon: f64, lat: f64) -> f64 {
    let dx = (lon - (BBOX[0] + BBOX[2]) / 2.0) / ((BBOX[2] - BBOX[0]) / 2.0);
    let dy = (lat - (BBOX[1] + BBOX[3]) / 2.0) / ((BBOX[3] - BBOX[1]) / 2.0);
    dx * dx + dy * dy
}

fn expected_center(i: usize, n: usize) -> (f64, f64) {
    let lon = BBOX[0] + ((i % n) as f64 + 0.5) * ((BBOX[2] - BBOX[0]) / n as f64);
    let lat = BBOX[1] + ((i / n) as f64 + 0.5) * ((BBOX[3] - BBOX[1]) / n as f64);
    (lon, lat)
}

fn expected_incidence(i: usize, n: usize) -> f64 {
    let degrees = 29.1 + ((i % n) as f64 + 0.5) / n as f64 * (46.0 - 29.1);
    let lat = BBOX[1] + ((i / n) as f64 + 0.5) / n as f64 * (BBOX[3] - BBOX[1]);
    (degrees + (lat.abs() - 45.0) * 0.01) * PI / 180.0
}

fn expected_deformation(lon: f64, lat: f64, days: f64) -> f64 {
    let weight = (-offsets(lon, lat) / (2.0 * (0.4 * 0.4))).exp();
    (4.0 * PI * (-0.005 * (days / 12.0)) / 0.05546) * weight
}

fn expected_atmosphere(lon: f64, lat: f64, seed: usize) -> f64 {
    let x = lon * 1000.0 + seed as f64 * 0.1;
    let y = lat * 1000.0 + seed as f64 * 0.07;
    let long = (x * 0.1).sin() * (y * 0.08).cos() * 0.15;
    let medium = (x.sin() * y.cos() * 3.7 + (x * 0.3).cos() * (y * 0.5).sin() * 2.1) * 0.08;
    let short = ((x * 2.7).sin() * (y * 3.1).cos()) * 0.03;
    long + medium + short
}

fn expected_goldstein(phase: f64, i: usize, n: usize) -> f64 {
    let (col, row) = (i % n, i / n);
    let x = col.min(n - 1 - col) as f64 / (n as f64 / 2.0);
    let y = row.min(n - 1 - row) as f64 / (n as f64 / 2.0);
    let depth = (x * y).clamp(0.1, 1.0);
    let alpha = 0.5 + (1.0 - depth) * 0.3;
    phase * (1.0 - alpha * (1.0 - depth) * 0.3)
}

fn expected_coherence(lon: f64, lat: f64, days: f64) -> f64 {
    let spatial = 0.95 * (-offsets(lon, lat) / 1.5).exp();
    let temporal = (-days / 365.0 * 0.3).exp();
    let snr = 10.0 * 4.0;
    (spatial * temporal * (snr / (1.0 + snr))).clamp(0.05, 0.99)
}

fn expected_interferogram(days: f64, n: usize) -> (Vec<f64>, Vec<f64>) {
    let mut displacement = Vec::new();
    let mut coherence = Vec::new();
    for i in 0..n * n {
        let (lon, lat) = expected_center(i, n);
        let raw = expected_deformation(lon, lat, days) + expected_atmosphere(lon, lat, i);
        let phase = expected_goldstein(raw / 2.0 * 2.0, i, n);
        let metres = (0.05546 / (4.0 * PI)) * phase / expected_incidence(i, n).cos();
        displacement.push(metres * 1000.0);
        coherence.push(expected_coherence(lon, lat, days).powf(0.5));
    }
    (displacement, coherence)
}

fn expected_smoothing(data: &[f64], n: usize) -> Vec<f64> {
    (0..n * n)
        .map(|i| {
            let (mut sum, mut count) = (0.0, 0.0);
            for j in 0..n * n {
                if (i / n).abs_diff(j / n) <= 2 && (i % n).abs_diff(j % n) <= 2 {
                    sum += data[j];
                    count += 1.0;
                }
            }
            sum / count
        })
        .collect()
}

struct Expected {
    frames: Vec<(Vec<f64>, Vec<f64>)>,
    reference: usize,
    reference_coherence: f64,
    max: f64,
    rate: f64,
}

fn expected_series(dates: &[&str], n: usize, min: f64) -> Expected {
    let cells = n * n;
    let mut displacements = Vec::new();
    let mut coherences = Vec::new();
    for pair in dates.windows(2) {
        let days = estimate_temporal_baseline(pair[0], pair[1]) as f64;
        let (d, c) = expected_interferogram(days, n);
        displacements.push(d);
        coherences.push(c);
    }
    if dates.len() >= 5 {
        let mut rates = vec![0.0; cells];
        for i in 0..cells {
            let mut weights = 0.0;
            for p in 0..displacements.len() {
                let c: f64 = coherences[p][i];
                if c >= min {
                    rates[i] += displacements[p][i] * (c * c);
                    weights += c * c;
                }
            }
            if weights > 0.0 {
                rates[i] /= weights;
            }
        }
        for d in &mut displacements {
            let residuals: Vec<f64> = (0..cells).map(|i| d[i] - rates[i]).collect();
            let screen = expected_smoothing(&residuals, n);
            for i in 0..cells {
                d[i] -= screen[i];
            }
        }
    }
    let (mut reference, mut reference_coherence) = (0, 0.0);
    for i in 0..cells {
        let mean = coherences.iter().map(|c| c[i]).sum::<f64>() / coherences.len() as f64;
        if mean > reference_coherence {
            reference = i;
            reference_coherence = mean;
        }
    }
    let mut total = vec![0.0; cells];
    let mut frames = vec![(vec![0.0; cells], vec![1.0; cells])];
    for p in 0..displacements.len() {
        let origin = displacements[p][reference];
        for i in 0..cells {
            if coherences[p][i] >= min {
                total[i] += displacements[p][i] - origin;
            }
        }
        let shown = coherences[p].iter().map(|&c| if c < min { 0.0 } else { c }).collect();
        frames.push((total.clone(), shown));
    }
    let last = coherences.last().unwrap();
    let max = (0..cells).filter(|&i| last[i] >= min).map(|i| total[i].abs()).fold(0.0, f64::max);
    let days = estimate_temporal_baseline(dates[0], dates[dates.len() - 1]) as f64;
    let rate = if days > 0.0 { max * 365.25 / days } else { 0.0 };
    Expected { frames, reference, reference_coherence, max, rate }
}

// ── Numbers ──

#[test]
fn decimals_are_the_written_numbers() {
    assert_eq!(Doubles.decimal(5546, 5), 0.05546);
    assert_eq!(Doubles.decimal(291, 1), 29.1);
    assert_eq!(Doubles.decimal(-5, 3), -0.005);
    assert_eq!(Doubles.decimal(36525, 2), 365.25);
    assert_eq!(Doubles.decimal(95, 2), 0.95);
    assert_eq!(Doubles.decimal(4, 1), 0.4);
}

#[test]
fn comparisons_answer_questions() {
    assert!(at_least(&Doubles, 0.4, 0.4));
    assert!(at_least(&Doubles, 0.5, 0.4));
    assert!(!at_least(&Doubles, 0.3, 0.4));
    assert!(below(&Doubles, 0.3, 0.4));
    assert!(!below(&Doubles, 0.4, 0.4));
    assert!(above(&Doubles, 0.5, 0.4));
    assert!(!above(&Doubles, 0.4, 0.4));
    for question in [at_least::<Doubles>, below::<Doubles>, above::<Doubles>] {
        assert!(!question(&Doubles, f64::NAN, 0.4));
        assert!(!question(&Doubles, 0.4, f64::NAN));
    }
}

#[test]
fn values_are_kept_within_ends() {
    assert_eq!(clamp(&Doubles, -1.0, 0.0, 1.0), 0.0);
    assert_eq!(clamp(&Doubles, 2.0, 0.0, 1.0), 1.0);
    assert_eq!(clamp(&Doubles, 0.25, 0.0, 1.0), 0.25);
    assert!(clamp(&Doubles, f64::NAN, 0.0, 1.0).is_nan());
}

#[test]
fn mean_is_sum_over_number() {
    assert_eq!(mean(&Doubles, &vec![1.0, 2.0, 6.0]), 3.0);
    assert!(mean(&Doubles, &Vec::new()).is_nan());
}

#[test]
fn terms_compute_their_formulas() {
    let k = Doubles;
    let two = Term::decimal(&k, 2, 0);
    let three = Term::count(&k, 3);
    assert_eq!(two.plus(&k, &three).value, 5.0);
    assert_eq!(two.minus(&k, &three).value, -1.0);
    assert_eq!(two.times(&k, &three).value, 6.0);
    assert_eq!(three.over(&k, &two).value, 1.5);
    assert_eq!(two.power(&k, &three).value, 8.0);
    assert_eq!(two.negative(&k).value, -2.0);
    assert_eq!(two.negative(&k).magnitude(&k).value, 2.0);
    assert_eq!(Term::known(&k, 9.0).root(&k).value, 3.0);
    assert_eq!(Term::known(&k, 0.0).exponential(&k).value, 1.0);
    assert_eq!(Term::known(&k, 0.0).sine(&k).value, 0.0);
    assert_eq!(Term::known(&k, 0.0).cosine(&k).value, 1.0);
    assert_eq!(Term::known(&k, 9.0).within(&k, &two, &three).value, 3.0);
    assert_eq!(Term::<f64>::pi(&k).value, PI);
}

// ── Signal ──

#[test]
fn formulas_give_exact_values() {
    let n = 7;
    let grid = Grid { width: n, height: n };
    for i in [0, 3, 10, 24, 48] {
        let cell = cell_at(&grid, i);
        let (lon, lat) = expected_center(i, n);
        assert_eq!(cell_center(&Doubles, BBOX[0], BBOX[2], cell.col, n), lon);
        assert_eq!(cell_center(&Doubles, BBOX[1], BBOX[3], cell.row, n), lat);
        assert_eq!(local_incidence_angle(&Doubles, &BBOX, &grid, &cell), expected_incidence(i, n));
        assert_eq!(
            simulate_deformation_phase(&Doubles, (lon, lat), &BBOX, 24),
            expected_deformation(lon, lat, 24.0)
        );
        assert_eq!(
            simulate_atmospheric_phase(&Doubles, (lon, lat), i),
            expected_atmosphere(lon, lat, i)
        );
        assert_eq!(goldstein_filter(&Doubles, 1.7, &grid, &cell), expected_goldstein(1.7, i, n));
        assert_eq!(
            estimate_coherence(&Doubles, (lon, lat), &BBOX, 24),
            expected_coherence(lon, lat, 24.0)
        );
    }
}

#[test]
fn multilooking_preserves_the_phase() {
    for phase in [0.0, 1.25, -2.9] {
        assert_eq!(multilook_phase(&Doubles, phase), phase);
    }
    assert_eq!(multilook_coherence(&Doubles, 0.25), 0.5);
}

#[test]
fn a_full_turn_is_half_a_wavelength() {
    assert!((vertical_displacement(&Doubles, 2.0 * PI, 0.0) - 27.73).abs() < 1e-9);
    assert!((vertical_displacement(&Doubles, 2.0 * PI, PI / 3.0) - 55.46).abs() < 1e-9);
}

#[test]
fn five_millimetres_sink_in_a_cycle_at_the_center() {
    let center = ((BBOX[0] + BBOX[2]) / 2.0, (BBOX[1] + BBOX[3]) / 2.0);
    let phase = simulate_deformation_phase(&Doubles, center, &BBOX, 12);
    assert!((vertical_displacement(&Doubles, phase, 0.0) + 5.0).abs() < 1e-9);
}

#[test]
fn centers_and_angles_cover_the_grid() {
    let grid = Grid { width: 6, height: 6 };
    let centers = compute_grid_centers(&Doubles, &BBOX, &grid);
    let angles = compute_local_incidence_angles(&Doubles, &BBOX, &grid);
    assert_eq!(centers.len(), 36);
    assert_eq!(angles.len(), 36);
    for i in 0..36 {
        assert_eq!(centers[i], expected_center(i, 6));
        assert_eq!(angles[i], expected_incidence(i, 6));
    }
}

#[test]
fn empty_grids_have_no_centers() {
    for grid in [Grid { width: 0, height: 5 }, Grid { width: 5, height: 0 }] {
        assert!(compute_grid_centers(&Doubles, &BBOX, &grid).is_empty());
        assert!(compute_local_incidence_angles(&Doubles, &BBOX, &grid).is_empty());
    }
}

#[test]
fn centers_lie_inside_and_are_mirrored() {
    let n = 9;
    for i in 0..n {
        let c = cell_center(&Doubles, BBOX[0], BBOX[2], i, n);
        let opposite = cell_center(&Doubles, BBOX[0], BBOX[2], n - 1 - i, n);
        assert!(BBOX[0] < c && c < BBOX[2]);
        assert!((c + opposite - (BBOX[0] + BBOX[2])).abs() < 1e-9);
    }
}

#[test]
fn angles_rise_from_west_to_east() {
    let grid = Grid { width: 12, height: 5 };
    let angles = compute_local_incidence_angles(&Doubles, &BBOX, &grid);
    for row in angles.chunks(12) {
        assert!(row.windows(2).all(|pair| pair[0] < pair[1]));
    }
}

#[test]
fn atmosphere_has_a_low_amplitude() {
    for seed in 0..400 {
        let phase = simulate_atmospheric_phase(&Doubles, expected_center(seed, 20), seed);
        assert!(phase.abs() <= 0.644);
    }
}

#[test]
fn mirrored_cells_are_filtered_alike() {
    let (w, h) = (7, 4);
    let grid = Grid { width: w, height: h };
    let filter = |col: usize, row: usize| {
        goldstein_filter(&Doubles, 1.0, &grid, &cell_at(&grid, row * w + col))
    };
    for row in 0..h {
        for col in 0..w {
            assert_eq!(filter(col, row), filter(w - 1 - col, row));
            assert_eq!(filter(col, row), filter(col, h - 1 - row));
        }
    }
}

#[test]
fn deeper_cells_are_damped_less() {
    let n = 11;
    let grid = Grid { width: n, height: n };
    let damping = |i: usize| goldstein_filter(&Doubles, 1.0, &grid, &cell_at(&grid, i));
    for i in 0..n * n {
        let a = cell_at(&grid, i);
        assert!(damping(i) <= 1.0);
        if a.edge_x == 0 || a.edge_y == 0 {
            assert!((damping(i) - 0.7921).abs() < 1e-12);
            assert_eq!(damping(i), damping(0));
        }
        for j in 0..n * n {
            let b = cell_at(&grid, j);
            if a.edge_x <= b.edge_x && a.edge_y <= b.edge_y {
                assert!(damping(i) <= damping(j));
            }
        }
    }
}

#[test]
fn coherence_never_rises() {
    let (x0, y0) = ((BBOX[0] + BBOX[2]) / 2.0, (BBOX[1] + BBOX[3]) / 2.0);
    let at = |step: i32| (x0 + 0.004 * f64::from(step), y0 + 0.002 * f64::from(step));
    let mut before = f64::INFINITY;
    for step in 0..6 {
        let near = estimate_coherence(&Doubles, at(step), &BBOX, 12);
        let late = estimate_coherence(&Doubles, at(step), &BBOX, 1200);
        assert!(late <= near && near <= before);
        assert!(0.05 <= late && near <= 0.99);
        before = near;
    }
}

#[test]
fn bowl_is_deepest_in_the_middle() {
    let middle = ((BBOX[0] + BBOX[2]) / 2.0, (BBOX[1] + BBOX[3]) / 2.0);
    let deepest = simulate_deformation_phase(&Doubles, middle, &BBOX, 36);
    for i in 0..49 {
        let place = expected_center(i, 7);
        let phase = simulate_deformation_phase(&Doubles, place, &BBOX, 36);
        assert!(deepest <= phase && phase <= 0.0);
        let weight = (-offsets(place.0, place.1) / 0.32).exp();
        assert!((phase - deepest * weight).abs() < 1e-12);
        let once = simulate_deformation_phase(&Doubles, place, &BBOX, 12);
        assert!((phase - 3.0 * once).abs() < 1e-12);
        assert_eq!(simulate_deformation_phase(&Doubles, place, &BBOX, 0), 0.0);
    }
}

// ── Stacks ──

#[test]
fn smoothing_is_a_mean_over_the_window() {
    let data: Vec<f64> = (0..49).map(|i| (i * i % 17) as f64).collect();
    assert_eq!(spatial_smooth(&Doubles, &data, 7), expected_smoothing(&data, 7));
}

#[test]
fn cells_outside_the_square_are_zero() {
    let five = vec![4.0, 4.0, 4.0, 4.0, 4.0];
    assert_eq!(spatial_smooth(&Doubles, &five, 2), vec![4.0, 4.0, 4.0, 4.0, 0.0]);
    assert_eq!(spatial_smooth(&Doubles, &vec![3.0, 5.0], 0), vec![0.0, 0.0]);
    assert_eq!(spatial_smooth(&Doubles, &vec![3.0, 5.0], 2), vec![4.0, 4.0]);
}

#[test]
fn mean_rate_weights_coherent_pairs() {
    assert_eq!(mean_rate(&Doubles, 0.4, &vec![1.0, 4.0], &vec![0.5, 1.0]), 4.25 / 1.25);
    assert_eq!(mean_rate(&Doubles, 0.6, &vec![1.0, 4.0], &vec![0.5, 1.0]), 4.0);
    assert_eq!(mean_rate(&Doubles, 2.0, &vec![1.0, 4.0], &vec![0.5, 1.0]), 0.0);
    assert_eq!(mean_rate(&Doubles, 0.0, &vec![1.0], &vec![0.0]), 0.0);
}

#[test]
fn common_atmosphere_is_removed() {
    let mut displacements = vec![vec![1.0; 25], vec![3.0; 25]];
    let coherences = vec![vec![1.0; 25], vec![1.0; 25]];
    remove_atmospheric_phase(&Doubles, &mut displacements, &coherences, 0.4);
    assert_eq!(displacements, vec![vec![2.0; 25], vec![2.0; 25]]);
    let mut nothing: Vec<Vec<f64>> = Vec::new();
    remove_atmospheric_phase(&Doubles, &mut nothing, &Vec::new(), 0.4);
    assert!(nothing.is_empty());
}

#[test]
fn noise_stays_in_its_pair() {
    let coherences = vec![vec![0.9; 25], vec![0.8; 25], vec![0.7; 25]];
    let mut noisy = coherences.clone();
    noisy[1][7] = 0.1;
    let stack = |value: f64| {
        let mut displacements: Vec<Vec<f64>> =
            (0..3).map(|p| (0..25).map(|i| f64::from(p * 31 + i * i % 7)).collect()).collect();
        displacements[1][7] = value;
        remove_atmospheric_phase(&Doubles, &mut displacements, &noisy, 0.4);
        displacements
    };
    let (first, second) = (stack(0.0), stack(1000.0));
    assert_eq!(first[0], second[0]);
    assert_eq!(first[2], second[2]);
    assert!(first[1] != second[1]);
}

#[test]
fn reference_is_the_first_most_coherent_cell() {
    let coherences = vec![vec![0.2, 0.9, 0.9, 0.1], vec![0.2, 0.5, 0.5, 0.9]];
    assert_eq!(find_reference_point(&Doubles, &coherences, 4), (1, 0.7));
    assert_eq!(find_reference_point(&Doubles, &vec![vec![0.0, 0.0]], 2), (0, 0.0));
    assert_eq!(find_reference_point(&Doubles, &vec![vec![f64::NAN, 0.1]], 2), (1, 0.1));
}

#[test]
fn displacements_are_referred_to_a_cell() {
    let mut displacements = vec![vec![1.0, 2.0, 4.0], vec![0.5, 0.25, 0.0]];
    refer_to_cell(&Doubles, &mut displacements, 1);
    assert_eq!(displacements, vec![vec![-1.0, 0.0, 2.0], vec![0.25, 0.0, -0.25]]);
}

#[test]
fn maximum_counts_coherent_cells() {
    let displacement = vec![1.0, -5.0, 9.0];
    assert_eq!(max_subsidence(&Doubles, 0.4, &displacement, &vec![0.5, 0.4, 0.3]), 5.0);
    assert_eq!(max_subsidence(&Doubles, 0.4, &displacement, &vec![0.1, 0.1, 0.1]), 0.0);
}

#[test]
fn rates_are_yearly() {
    assert_eq!(yearly_rate(&Doubles, 10.0, 365), 10.0 * 365.25 / 365.0);
    assert_eq!(yearly_rate(&Doubles, 10.0, 0), 0.0);
}

// ── Requests ──

#[test]
fn defaults_are_filled_in() {
    let params = ProcessingParams::default(&Doubles);
    assert_eq!(params.grid_size, 20);
    assert_eq!(params.min_coherence, 0.4);
    assert_eq!(default_min_coherence(&Doubles), 0.4);
}

#[test]
fn threshold_is_limited() {
    assert_eq!(clamp_min_coherence(&Doubles, -0.5), 0.0);
    assert_eq!(clamp_min_coherence(&Doubles, 0.5), 0.5);
    assert_eq!(clamp_min_coherence(&Doubles, 2.0), 0.95);
}

#[test]
fn a_stack_needs_two_dated_scenes() {
    let params = ProcessingParams::default(&Doubles);
    let run = |features: &[StacFeature]| {
        process_displacement(&Doubles, &BBOX, "", features, &params).err()
    };
    assert_eq!(run(&[]), Some("no scenes provided".to_string()));
    let few = Some("need at least 2 scenes for interferometry".to_string());
    assert_eq!(run(&[feature("a", None)]), few);
    assert_eq!(run(&[feature("a", Some("2024-01-01"))]), few);
    assert_eq!(run(&[feature("a", Some("2024-01-01")), feature("b", None)]), few);
    assert_eq!(run(&[feature("a", Some("2024-01-01")), feature("b", Some("2024-01-13"))]), None);
}

#[test]
fn dates_must_be_readable() {
    let odd = "2024-01-1é";
    assert!(can_process(&stack(&["2024-01-01", "2024-01-13"])));
    assert!(!can_process(&stack(&["2024-01-01", odd])));
    assert!(can_process(&stack(&[odd])));
    assert!(can_process(&[]));
}

fn assert_as_expected(dates: &[&str], n: usize, min: f64) {
    let result = process(dates, n, min);
    let expected = expected_series(dates, n, min);
    assert_eq!(result.frames.len(), dates.len());
    for (f, frame) in result.frames.iter().enumerate() {
        assert_eq!(frame.date, dates[f]);
        assert_eq!(frame.scene_id, format!("scene{f}"));
        assert_eq!((frame.grid_w, frame.grid_h), (n, n));
        assert_eq!(frame.displacement_mm, expected.frames[f].0);
        assert_eq!(frame.coherence, expected.frames[f].1);
    }
    assert_eq!(result.bbox, BBOX);
    assert_eq!((result.grid_w, result.grid_h), (n, n));
    assert_eq!(result.max_subsidence_mm, expected.max);
    assert_eq!(result.mean_subsidence_rate_mm_yr, expected.rate);
    let about = &result.processing;
    assert_eq!(about.grid_size, n);
    assert_eq!(about.effective_looks, 4.0);
    assert_eq!((about.looks_range, about.looks_azimuth), (4, 1));
    assert_eq!(about.min_coherence, min);
    assert_eq!(about.goldstein_alpha, 0.5);
    assert_eq!((about.n_scenes, about.n_pairs), (dates.len(), dates.len() - 1));
    let (lon, lat) = expected_center(expected.reference, n);
    assert_eq!(about.reference_point, [lon, lat]);
    assert_eq!(about.reference_coherence, expected.reference_coherence);
    assert_eq!(about.atmospheric_correction, dates.len() >= 5);
}

#[test]
fn two_scenes_give_two_frames() {
    assert_as_expected(&["2024-01-15T00:00:00Z", "2024-02-08T00:00:00Z"], 20, 0.4);
}

#[test]
fn four_scenes_are_not_corrected() {
    assert_as_expected(&["2024-01-01", "2024-01-13", "2024-01-25", "2024-02-06"], 9, 0.7);
}

#[test]
fn five_scenes_are_corrected() {
    assert_as_expected(
        &["2024-01-01", "2024-01-13", "2024-01-25", "2024-02-06", "2024-02-18"],
        8,
        0.6,
    );
}

#[test]
fn long_baselines_are_rejected() {
    assert_as_expected(&["2015-01-01", "2019-12-31", "2020-01-12"], 6, 0.75);
}

#[test]
fn scenes_of_one_day_have_no_rate() {
    let result = process(&["2024-01-01T01:00:00Z", "2024-01-01T02:00:00Z"], 5, 0.4);
    assert_eq!(result.mean_subsidence_rate_mm_yr, 0.0);
}

#[test]
fn grid_and_threshold_are_limited() {
    let result = process(&["2024-01-01", "2024-01-13"], 1, 7.0);
    assert_eq!((result.grid_w, result.processing.min_coherence), (5, 0.95));
}

#[test]
fn frames_follow_the_dates() {
    let features = vec![
        feature("late", Some("2024-03-01")),
        feature("none", None),
        feature("early", Some("2024-01-01")),
        feature("middle", Some("2024-02-01")),
    ];
    let params = ProcessingParams::default(&Doubles);
    let result = process_displacement(&Doubles, &BBOX, "", &features, &params).ok().unwrap();
    let ids: Vec<&str> = result.frames.iter().map(|f| f.scene_id.as_str()).collect();
    assert_eq!(ids, vec!["early", "middle", "late"]);
    for frame in &result.frames {
        assert_eq!(frame.displacement_mm.len(), 400);
        assert_eq!(frame.coherence.len(), 400);
    }
    assert!(result.frames[0].displacement_mm.iter().all(|&d| d == 0.0));
    assert!(result.frames[0].coherence.iter().all(|&c| c == 1.0));
}

#[test]
fn listing_order_does_not_change_the_result() {
    let dates = ["2024-01-01", "2024-01-13", "2024-01-25"];
    let params = ProcessingParams { grid_size: 6, min_coherence: 0.5 };
    let run = |order: [usize; 3]| {
        let features: Vec<StacFeature> =
            order.iter().map(|&i| feature(dates[i], Some(dates[i]))).collect();
        let result = process_displacement(&Doubles, &BBOX, "", &features, &params).ok().unwrap();
        result.frames.iter().map(|f| f.displacement_mm.clone()).collect::<Vec<_>>()
    };
    assert_eq!(run([0, 1, 2]), run([2, 0, 1]));
    assert_eq!(run([0, 1, 2]), run([1, 2, 0]));
}

#[test]
fn requests_have_one_answer() {
    let dates = ["2024-01-01", "2024-01-13", "2024-01-25", "2024-02-06", "2024-02-18"];
    let (first, second) = (process(&dates, 6, 0.5), process(&dates, 6, 0.5));
    assert_eq!(first.max_subsidence_mm, second.max_subsidence_mm);
    assert_eq!(first.mean_subsidence_rate_mm_yr, second.mean_subsidence_rate_mm_yr);
    assert_eq!(first.processing.reference_point, second.processing.reference_point);
    for (a, b) in first.frames.iter().zip(&second.frames) {
        assert_eq!(a.displacement_mm, b.displacement_mm);
        assert_eq!(a.coherence, b.coherence);
    }
}

#[test]
fn subsidence_accumulates() {
    let result = process(&["2024-01-01", "2024-01-13", "2024-01-25", "2024-02-06"], 20, 0.4);
    let largest = |f: usize| {
        result.frames[f].displacement_mm.iter().fold(0.0_f64, |top, d| top.max(d.abs()))
    };
    for f in 1..result.frames.len() {
        assert!(largest(f) > largest(f - 1));
    }
    assert_eq!(largest(3), result.max_subsidence_mm);
}

#[test]
fn excess_and_undated_features_do_not_matter() {
    let run = |grid_size: usize, min_coherence: f64, features: &[StacFeature]| {
        let params = ProcessingParams { grid_size, min_coherence };
        let result = process_displacement(&Doubles, &BBOX, "any", features, &params).ok().unwrap();
        (result.processing.grid_size, result.processing.min_coherence, result.max_subsidence_mm)
    };
    let mut features = stack(&["2024-01-01", "2024-01-13"]);
    let plain = run(5, 0.0, &features);
    assert_eq!(run(0, -3.0, &features), plain);
    assert_eq!(run(3, -0.1, &features), plain);
    features.insert(1, feature("undated", None));
    assert_eq!(run(5, 0.0, &features), plain);
}

#[test]
fn reference_cell_never_moves() {
    let dates = ["2024-01-01", "2024-01-13", "2024-01-25"];
    let cell = expected_series(&dates, 7, 0.4).reference;
    for frame in process(&dates, 7, 0.4).frames {
        assert_eq!(frame.displacement_mm[cell], 0.0);
    }
}

#[test]
fn reference_cell_is_most_coherent() {
    let dates = ["2024-01-01", "2024-01-13"];
    let result = process(&dates, 7, 0.0);
    let top = result.processing.reference_coherence;
    assert!(result.frames[1].coherence.iter().all(|&c| c <= top));
}

#[test]
fn incoherent_pairs_are_skipped() {
    let dates = ["2024-01-01", "2024-01-13", "2024-01-25"];
    let result = process(&dates, 9, 0.8);
    let mut skipped = 0;
    for f in 1..result.frames.len() {
        for i in 0..81 {
            if result.frames[f].coherence[i] == 0.0 {
                assert_eq!(
                    result.frames[f].displacement_mm[i],
                    result.frames[f - 1].displacement_mm[i]
                );
                skipped += 1;
            }
        }
    }
    assert!(skipped > 0);
}

#[test]
fn no_coherent_cell_moved_farther_than_the_summary() {
    let result = process(&["2024-01-01", "2024-01-13", "2024-01-25"], 9, 0.5);
    let last = result.frames.last().unwrap();
    for i in 0..81 {
        if last.coherence[i] > 0.0 {
            assert!(last.displacement_mm[i].abs() <= result.max_subsidence_mm);
        }
    }
}

#[test]
fn an_empty_box_has_no_coherence() {
    let bbox = [1.0, 2.0, 1.0, 3.0];
    let params = ProcessingParams { grid_size: 5, min_coherence: 0.4 };
    let features = stack(&["2024-01-01", "2024-01-13"]);
    let result = process_displacement(&Doubles, &bbox, "", &features, &params).ok().unwrap();
    assert!(result.frames[1].coherence.iter().all(|c| c.is_nan()));
    assert!(result.frames[1].displacement_mm.iter().all(|&d| d == 0.0));
    assert_eq!(result.max_subsidence_mm, 0.0);
    assert_eq!(result.processing.reference_coherence, 0.0);
}

// ── Messages ──

fn message_request(features: Vec<StacFeature>) -> ProcessRequest<f64> {
    ProcessRequest { bbox: BBOX, datetime: "2024-01-01/2024-06-30".to_string(), features }
}

fn message_failure(state: WorkerState, event: WorkerEvent<f64>) -> String {
    match handle_message(&Doubles, state, event) {
        (WorkerState::Finished, WorkerAction::Finish(Err(text))) => text,
        _ => panic!("no failure"),
    }
}

#[test]
fn a_message_is_answered_where_it_asks() {
    let arrived = WorkerEvent::Arrived { reply_to: Some("inbox.7".to_string()) };
    let (state, action) = handle_message(&Doubles, WorkerState::Arriving, arrived);
    assert!(matches!(action, WorkerAction::Parse));
    let request = message_request(stack(&["2024-01-15", "2024-02-08"]));
    let (state, action) = handle_message(&Doubles, state, WorkerEvent::Parsed(Ok(request)));
    match action {
        WorkerAction::Encode(result) => {
            assert_eq!((result.grid_w, result.grid_h), (20, 20));
            assert_eq!(result.processing.min_coherence, 0.4);
            assert_eq!(result.frames.len(), 2);
        }
        _ => panic!("no result"),
    }
    let (state, action) = handle_message(&Doubles, state, WorkerEvent::Encoded(Ok(vec![1, 2])));
    assert!(matches!(state, WorkerState::Publishing));
    match action {
        WorkerAction::Publish(message) => {
            assert_eq!(message.subject, "inbox.7");
            assert_eq!(message.body, vec![1, 2]);
            assert_eq!(message.reply_to, None);
        }
        _ => panic!("no message"),
    }
    let (state, action) = handle_message(&Doubles, state, WorkerEvent::Published(Ok(())));
    assert!(matches!(state, WorkerState::Finished));
    assert!(matches!(action, WorkerAction::Finish(Ok(()))));
}

#[test]
fn message_errors_are_reported() {
    let parsing = || WorkerState::Parsing { subject: "s".to_string() };
    assert_eq!(
        message_failure(WorkerState::Arriving, WorkerEvent::Arrived { reply_to: None }),
        "missing reply_to"
    );
    assert_eq!(
        message_failure(parsing(), WorkerEvent::Parsed(Err("x".to_string()))),
        "invalid request: x"
    );
    assert_eq!(
        message_failure(parsing(), WorkerEvent::Parsed(Ok(message_request(Vec::new())))),
        "processing failed: no scenes provided"
    );
    assert_eq!(
        message_failure(parsing(), WorkerEvent::Parsed(Ok(message_request(stack(&["2024-01-15"]))))),
        "processing failed: need at least 2 scenes for interferometry"
    );
    let encoding = WorkerState::Encoding { subject: "s".to_string() };
    assert_eq!(
        message_failure(encoding, WorkerEvent::Encoded(Err("x".to_string()))),
        "serialize result: x"
    );
    assert_eq!(
        message_failure(WorkerState::Publishing, WorkerEvent::Published(Err("x".to_string()))),
        "x"
    );
}
