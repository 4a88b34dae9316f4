//! What is accepted: the inputs that every function can be called with.
use vstd::prelude::*;
use vstd::utf8::*;
use crate::atmosphere::{cell_values, mean_rate, remove_atmospheric_phase, spatial_smooth};
use crate::calendar::{estimate_temporal_baseline, has_day, parse_date_to_days};
use crate::datetime::normalize_datetime;
use crate::grid::{cell_at, grid_cells, smoothing_window, Grid};
use crate::http_api::{
    process_insar, stac_query, stac_search, ForwardEvent, ForwardState, SearchEvent, SearchState,
    StacSearchRequest,
};
use crate::insar::{
    compute_grid_centers, compute_local_incidence_angles, interferogram, interferograms,
    process_displacement, stack_readable, ProcessingParams,
};
use crate::numerics::Numerics;
use crate::promises::dates::{parts_follow_each_other, text_without_separator_is_one_part};
use crate::promises::scenes::dated_features_are_kept;
use crate::scenes::{dated, Scene, StacFeature};
use crate::series::{find_reference_point, integrate, max_subsidence, refer_to_cell};
use crate::text::{cut_between_characters, has_suffix, i64_text, split_text, split_then_join};
use crate::worker::{handle_message, ProcessRequest, WorkerEvent, WorkerState};

verus! {

/// Every list of features can be processed, on any box and with any parameters, where a day can be
/// read from every date: it is shorter than ten bytes, or its tenth byte ends a character.
pub proof fn readable_features_are_accepted<K: Numerics>(
    k: &K,
    bbox: &[K::Value; 4],
    datetime: &str,
    features: &[StacFeature],
    params: &ProcessingParams<K::Value>,
)
    requires
        forall|i: int|
            0 <= i < features@.len() && (#[trigger] features@[i]).properties.datetime is Some
                ==> tells_a_day(features@[i].properties.datetime->0@),
    ensures
        call_requires(process_displacement::<K>, (k, bbox, datetime, features, params)),
{
    lemma_days_told(features@);
}

/// Whether a day can be read from a text: it is shorter than ten bytes, or its tenth byte ends a
/// character.
pub open spec fn tells_a_day(s: Seq<char>) -> bool {
    encode_utf8(s).len() < 10 || is_char_boundary(encode_utf8(s), 10)
}

/// A day can be told from every ASCII text, whatever its length.
pub proof fn plain_texts_tell_a_day(s: Seq<char>)
    requires
        is_ascii_chars(s),
    ensures
        tells_a_day(s),
{
    is_ascii_chars_encode_utf8(s);
    if s.len() >= 10 {
        let (a, b) = (s.take(10), s.skip(10));
        is_ascii_chars_encode_utf8(a);
        assert(a + b =~= s);
        cut_between_characters(a, b);
    }
}

/// The days between any two timestamps that tell a day can be estimated.
pub proof fn timestamps_are_accepted(timestamp1: &str, timestamp2: &str)
    requires
        tells_a_day(timestamp1@),
        tells_a_day(timestamp2@),
    ensures
        call_requires(estimate_temporal_baseline, (timestamp1, timestamp2)),
{
}

/// The days of a date can be counted where its year, month and day, as far as they are numbers, are
/// within a quadrillion, and of every text with fewer fields.
pub proof fn dates_are_accepted(
    date: &str,
    y: Seq<char>,
    m: Seq<char>,
    d: Seq<char>,
    rest: Seq<char>,
)
    requires
        !y.contains('-'),
        !m.contains('-'),
        !d.contains('-'),
        i64_text(y) matches Some(v) ==> -1_000_000_000_000_000 <= v <= 1_000_000_000_000_000,
        i64_text(m) matches Some(v) ==> -1_000_000_000_000_000 <= v <= 1_000_000_000_000_000,
        i64_text(d) matches Some(v) ==> -1_000_000_000_000_000 <= v <= 1_000_000_000_000_000,
        date@ == y || date@ == y.push('-') + m || date@ == y.push('-') + (m.push('-') + d) || date@
            == y.push('-') + (m.push('-') + (d.push('-') + rest)),
    ensures
        call_requires(parse_date_to_days, (date,)),
{
    text_without_separator_is_one_part(y, '-');
    text_without_separator_is_one_part(m, '-');
    text_without_separator_is_one_part(d, '-');
    parts_follow_each_other(y, m, '-');
    parts_follow_each_other(m, d, '-');
    parts_follow_each_other(y, m.push('-') + d, '-');
    parts_follow_each_other(d, rest, '-');
    parts_follow_each_other(m, d.push('-') + rest, '-');
    parts_follow_each_other(y, m.push('-') + (d.push('-') + rest), '-');
    split_then_join(rest, '-');
    let parts = split_text(date@, '-');
    if parts.len() >= 3 {
        assert(parts[0] == y && parts[1] == m && parts[2] == d);
    }
}

/// Whether a date or date range can be brought into the form of the catalogue: it has no end at the
/// start of a day, or the tenth byte of that end ends a character.
pub open spec fn tells_a_range(dt: Seq<char>) -> bool {
    forall|start: Seq<char>, day: Seq<char>|
        #![trigger start.push('/') + (day + "T00:00:00Z"@)]
        dt == start.push('/') + (day + "T00:00:00Z"@) ==> is_char_boundary(
            encode_utf8(day + "T00:00:00Z"@),
            10,
        )
}

/// Every date or date range that can be brought into the form of the catalogue is accepted, in a
/// request of any limit, collections and box.
pub proof fn ranges_are_accepted<V>(
    dt: &str,
    request: StacSearchRequest<V>,
    start: Seq<char>,
    end: Seq<char>,
    more: Seq<char>,
)
    requires
        tells_a_range(dt@),
        request.datetime@ == dt@,
        !start.contains('/'),
        !end.contains('/'),
        dt@ == start || dt@ == start.push('/') + end || dt@ == start.push('/') + (end.push('/')
            + more),
    ensures
        call_requires(normalize_datetime, (dt,)),
        call_requires(stac_query::<V>, (request,)),
        call_requires(
            stac_search::<V>,
            (SearchState::Parsing, SearchEvent::Parsed(Ok(request))),
        ),
{
    let mark = "T00:00:00Z"@;
    reveal_strlit("T00:00:00Z");
    assert(mark.len() == 10 && mark[0] == 'T');
    text_without_separator_is_one_part(start, '/');
    text_without_separator_is_one_part(end, '/');
    parts_follow_each_other(start, end, '/');
    parts_follow_each_other(end, more, '/');
    parts_follow_each_other(start, end.push('/') + more, '/');
    split_then_join(more, '/');
    if dt@ == start.push('/') + end {
        if !end.contains('T') && encode_utf8(end).len() == 10 {
            cut_between_characters(end, mark);
        } else if has_suffix(end, mark) {
            let day = end.take(end.len() - 10);
            assert(end =~= day + "T00:00:00Z"@);
            assert(dt@ == start.push('/') + (day + "T00:00:00Z"@));
        }
    }
}

/// Every event is accepted in the state that waits for it, whatever it brings.
pub proof fn events_are_accepted_where_they_are_waited_for<V>(
    cause: String,
    body: Vec<u8>,
    encoded: Result<Vec<u8>, String>,
    done: Result<(), String>,
)
    ensures
        call_requires(
            stac_search::<V>,
            (SearchState::Parsing, SearchEvent::Parsed(Err(cause))),
        ),
        call_requires(stac_search::<V>, (SearchState::Encoding, SearchEvent::Encoded(encoded))),
        call_requires(stac_search::<V>, (SearchState::Building, SearchEvent::Built(done))),
        call_requires(stac_search::<V>, (SearchState::Sending, SearchEvent::Sent(done))),
        call_requires(stac_search::<V>, (SearchState::Receiving, SearchEvent::Received(encoded))),
        call_requires(process_insar, (ForwardState::Reading, ForwardEvent::Read(encoded))),
        call_requires(process_insar, (ForwardState::Working, ForwardEvent::Answered(encoded))),
{
}

/// The worker accepts every event in the state that waits for it, and every request whose dates
/// tell a day.
pub proof fn the_worker_accepts_what_it_waits_for<K: Numerics>(
    k: &K,
    subject: String,
    reply_to: Option<String>,
    cause: String,
    encoded: Result<Vec<u8>, String>,
    done: Result<(), String>,
    request: ProcessRequest<K::Value>,
)
    requires
        forall|i: int|
            0 <= i < request.features@.len() && (
            #[trigger] request.features@[i]).properties.datetime is Some ==> tells_a_day(
                request.features@[i].properties.datetime->0@,
            ),
    ensures
        call_requires(
            handle_message::<K>,
            (k, WorkerState::Arriving, WorkerEvent::Arrived { reply_to }),
        ),
        call_requires(
            handle_message::<K>,
            (k, WorkerState::Parsing { subject }, WorkerEvent::Parsed(Ok(request))),
        ),
        call_requires(
            handle_message::<K>,
            (k, WorkerState::Parsing { subject }, WorkerEvent::Parsed(Err(cause))),
        ),
        call_requires(
            handle_message::<K>,
            (k, WorkerState::Encoding { subject }, WorkerEvent::Encoded(encoded)),
        ),
        call_requires(
            handle_message::<K>,
            (k, WorkerState::Publishing, WorkerEvent::Published(done)),
        ),
{
    lemma_days_told(request.features@);
}

/// The dates of features tell their days.
proof fn lemma_days_told(features: Seq<StacFeature>)
    requires
        forall|i: int|
            0 <= i < features.len() && (#[trigger] features[i]).properties.datetime is Some
                ==> tells_a_day(features[i].properties.datetime->0@),
    ensures
        stack_readable(features),
{
    dated_features_are_kept(features);
    let with_date = |f: StacFeature| f.properties.datetime is Some;
    let kept = features.filter(with_date);
    let texts = dated(features);
    assert forall|i: int| 0 <= i < texts.len() implies has_day((#[trigger] texts[i]).date) by {
        features.filter_lemma(with_date);
        assert(kept.contains(kept[i]));
        features.lemma_filter_contains_rev(with_date, kept[i]);
        let j = choose|j: int| 0 <= j < features.len() && features[j] == kept[i];
        assert(with_date(kept[i]));
        assert(features[j].properties.datetime is Some);
    }
}

/// Grids of any size are accepted whose cells can be counted.
pub proof fn grids_are_accepted<K: Numerics>(
    k: &K,
    bbox: &[K::Value; 4],
    grid: &Grid,
    index: usize,
    centers: &Vec<(K::Value, K::Value)>,
    angles: &Vec<K::Value>,
    days: i64,
    scenes: &Vec<Scene>,
)
    requires
        grid.width * grid.height <= usize::MAX,
        index < grid.width * grid.height,
        centers.len() == grid.width * grid.height,
        angles.len() == grid.width * grid.height,
        scenes.len() > 0,
        forall|i: int| 0 <= i < scenes.len() ==> tells_a_day((#[trigger] scenes@[i]).date@),
    ensures
        call_requires(cell_at, (grid, index)),
        call_requires(grid_cells, (grid,)),
        call_requires(compute_grid_centers::<K>, (k, bbox, grid)),
        call_requires(compute_local_incidence_angles::<K>, (k, bbox, grid)),
        call_requires(interferogram::<K>, (k, bbox, grid, centers, angles, days)),
        call_requires(interferograms::<K>, (k, bbox, grid, centers, scenes)),
{
    assert forall|i: int| 0 <= i < scenes.len() implies has_day(
        (#[trigger] scenes@[i]).date@,
    ) by {
        assert(tells_a_day(scenes@[i].date@));
    }
}

/// Stacks of any number of pairs and cells are accepted, with or without cells to spare.
pub proof fn stacks_are_accepted<K: Numerics>(
    k: &K,
    min: K::Value,
    grid: &Grid,
    scenes: &Vec<Scene>,
    displacements: &Vec<Vec<K::Value>>,
    coherences: &Vec<Vec<K::Value>>,
    n: usize,
    cell: usize,
    displacement: &Vec<K::Value>,
    coherence: &Vec<K::Value>,
    side: usize,
    row: usize,
    col: usize,
    size: usize,
)
    requires
        n == grid.width * grid.height,
        cell < n,
        scenes.len() > 0,
        displacements.len() == scenes.len() - 1,
        coherences.len() == scenes.len() - 1,
        forall|p: int| 0 <= p < displacements.len() ==> (#[trigger] displacements@[p]).len() >= n,
        forall|p: int| 0 <= p < coherences.len() ==> (#[trigger] coherences@[p]).len() >= n,
        displacement.len() <= coherence.len(),
        side * side <= usize::MAX,
        row < side,
        col < side,
    ensures
        call_requires(
            integrate::<K>,
            (k, min, grid, scenes, displacements, coherences),
        ),
        call_requires(find_reference_point::<K>, (k, coherences, n)),
        call_requires(max_subsidence::<K>, (k, min, displacement, coherence)),
        call_requires(mean_rate::<K>, (k, min, displacement, coherence)),
        call_requires(
            cell_values::<K::Value>,
            (coherences, coherences@.len() as usize, cell),
        ),
        call_requires(spatial_smooth::<K>, (k, displacement, side)),
        call_requires(smoothing_window, (row, col, side, size)),
{
}

/// Stacks of any number of pairs and cells can be corrected and referred to any of their cells.
pub proof fn stacks_can_be_changed<K: Numerics>(
    k: &K,
    min: K::Value,
    displacements: &mut Vec<Vec<K::Value>>,
    coherences: &Vec<Vec<K::Value>>,
    cell: usize,
)
    requires
        coherences.len() == old(displacements).len(),
        forall|p: int|
            0 <= p < old(displacements).len() ==> {
                &&& (#[trigger] old(displacements)@[p]).len() >= old(displacements)@[0].len()
                &&& cell < old(displacements)@[p].len()
            },
        forall|p: int|
            0 <= p < coherences.len() ==> (#[trigger] coherences@[p]).len() >= old(
                displacements,
            )@[0].len(),
    ensures
        call_requires(
            remove_atmospheric_phase::<K>,
            (k, displacements, coherences, min),
        ),
        call_requires(refer_to_cell::<K>, (k, displacements, cell)),
{
}

} // verus!
