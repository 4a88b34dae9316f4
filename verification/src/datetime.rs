//! Date ranges of catalogue searches.
use vstd::prelude::*;
use vstd::string::StringExecFns;
use vstd::utf8::*;
use crate::text::{
    byte_len, append_text, contains, cut_between_characters, cuttable, ends_with, first_bytes,
    has_suffix, join_text, join_then_split, len_in_bytes, split, split_text, split_then_join,
    take_bytes,
};

verus! {

/// First second of a day, behind a date.
pub const START_OF_DAY: &'static str = "T00:00:00Z";

/// Last second of a day, behind a date.
pub const END_OF_DAY: &'static str = "T23:59:59Z";

/// A date without a time becomes the first second of its day; everything else stays.
pub open spec fn instant_text(s: Seq<char>) -> Seq<char> {
    if !s.contains('T') && byte_len(s) == 10 {
        s + START_OF_DAY@
    } else {
        s
    }
}

/// An end at the first second of a day is moved to the last second of that day.
pub open spec fn inclusive_end(s: Seq<char>) -> Seq<char> {
    if has_suffix(s, START_OF_DAY@) {
        first_bytes(s, 10) + END_OF_DAY@
    } else {
        s
    }
}

/// The form of a date or date range that the catalogue takes.
pub open spec fn normalized_datetime(dt: Seq<char>) -> Seq<char> {
    let parts = split_text(dt, '/');
    if parts.len() == 2 {
        instant_text(parts[0]).push('/') + inclusive_end(instant_text(parts[1]))
    } else {
        instant_text(dt)
    }
}

/// Whether the date of a range's end, where it has to be cut out, ends between two characters.
pub open spec fn datetime_supported(dt: Seq<char>) -> bool {
    let parts = split_text(dt, '/');
    parts.len() == 2 && has_suffix(instant_text(parts[1]), START_OF_DAY@) ==> cuttable(
        instant_text(parts[1]),
        10,
    )
}

/// A date without a time becomes the first second of its day; everything else stays.
fn to_instant(s: &str) -> (instant: String)
    ensures
        instant@ == instant_text(s@),
{
    if contains(s, 'T') {
        s.to_string()
    } else if len_in_bytes(s) == 10 {
        append_text(s, START_OF_DAY)
    } else {
        s.to_string()
    }
}

/// Whether [`normalize_datetime`] can take a date range.
pub fn can_normalize_datetime(dt: &str) -> (supported: bool)
    ensures
        supported == datetime_supported(dt@),
{
    let parts = split(dt, '/');
    let ghost texts = parts@.map_values(|p: &str| p@);
    if parts.len() == 2 {
        assert(texts[1] == parts@[1]@);
        let end = to_instant(parts[1]);
        !ends_with(end.as_str(), START_OF_DAY) || end.as_str().is_char_boundary(10)
    } else {
        true
    }
}

/// Normalizes a date range to the RFC 3339 form that the catalogue requires.
///
/// `2020-01-01/2020-12-31` becomes `2020-01-01T00:00:00Z/2020-12-31T23:59:59Z`.
pub fn normalize_datetime(dt: &str) -> (normalized: String)
    requires
        datetime_supported(dt@),
    ensures
        normalized@ == normalized_datetime(dt@),
{
    let parts = split(dt, '/');
    let ghost texts = parts@.map_values(|p: &str| p@);
    if parts.len() == 2 {
        assert(texts[0] == parts@[0]@);
        assert(texts[1] == parts@[1]@);
        let start = to_instant(parts[0]);
        let mut end = to_instant(parts[1]);
        if ends_with(end.as_str(), START_OF_DAY) {
            end = append_text(take_bytes(end.as_str(), 10), END_OF_DAY);
        }
        let mut normalized = append_text(start.as_str(), "/");
        normalized.append(end.as_str());
        proof {
            reveal_strlit("/");
            assert(instant_text(texts[0]) + "/"@ == instant_text(texts[0]).push('/'));
        }
        normalized
    } else {
        to_instant(dt)
    }
}

/// An instant made of a day has a `T`, whichever second of the day it is.
proof fn lemma_marks()
    ensures
        START_OF_DAY@ == seq!['T', '0', '0', ':', '0', '0', ':', '0', '0', 'Z'],
        END_OF_DAY@ == seq!['T', '2', '3', ':', '5', '9', ':', '5', '9', 'Z'],
{
    reveal_strlit("T00:00:00Z");
    reveal_strlit("T23:59:59Z");
    assert(START_OF_DAY@ =~= seq!['T', '0', '0', ':', '0', '0', ':', '0', '0', 'Z']);
    assert(END_OF_DAY@ =~= seq!['T', '2', '3', ':', '5', '9', ':', '5', '9', 'Z']);
}

/// Making an instant of an instant changes nothing, and adds no `/`.
proof fn lemma_instant_stays(s: Seq<char>)
    ensures
        instant_text(instant_text(s)) == instant_text(s),
        !s.contains('/') ==> !instant_text(s).contains('/'),
{
    lemma_marks();
    let instant = instant_text(s);
    if instant != s {
        assert(instant[s.len() as int] == 'T');
        if !s.contains('/') && instant.contains('/') {
            let i = choose|i: int| 0 <= i < instant.len() && instant[i] == '/';
            if i < s.len() {
                assert(s[i] == '/');
            } else {
                assert(START_OF_DAY@[i - s.len()] == '/');
            }
        }
    }
}

/// The first bytes of a text hold no character that the text does not hold.
proof fn lemma_first_bytes_within(s: Seq<char>, n: int, c: char)
    requires
        cuttable(s, n),
        !s.contains(c),
    ensures
        !first_bytes(s, n).contains(c),
{
    let bytes = encode_utf8(s);
    encode_utf8_valid_utf8(s);
    encode_utf8_decode_utf8(s);
    decode_utf8_split(bytes, n);
    let head = first_bytes(s, n);
    if head.contains(c) {
        let i = choose|i: int| 0 <= i < head.len() && head[i] == c;
        assert(s[i] == c);
    }
}

/// An inclusive end is an instant, stays one, and adds no `/`.
proof fn lemma_inclusive_end_stays(s: Seq<char>)
    requires
        instant_text(s) == s,
        has_suffix(s, START_OF_DAY@) ==> cuttable(s, 10),
        !s.contains('/'),
    ensures
        instant_text(inclusive_end(s)) == inclusive_end(s),
        !has_suffix(inclusive_end(s), START_OF_DAY@),
        !inclusive_end(s).contains('/'),
{
    lemma_marks();
    if has_suffix(s, START_OF_DAY@) {
        let day = first_bytes(s, 10);
        let end = inclusive_end(s);
        lemma_first_bytes_within(s, 10, '/');
        assert(end[day.len() as int] == 'T');
        assert(end.skip(end.len() - 10)[1] == '2');
        assert(START_OF_DAY@[1] == '0');
        if end.contains('/') {
            let i = choose|i: int| 0 <= i < end.len() && end[i] == '/';
            if i < day.len() {
                assert(day[i] == '/');
            } else {
                assert(END_OF_DAY@[i - day.len()] == '/');
            }
        }
    }
}

/// A range written with two parts is split into them.
proof fn lemma_range_parts(start: Seq<char>, end: Seq<char>)
    requires
        !start.contains('/'),
        !end.contains('/'),
    ensures
        split_text(start.push('/') + end, '/') == seq![start, end],
{
    let parts = seq![start, end];
    join_then_split(parts, '/');
    reveal_with_fuel(join_text, 2);
    assert(parts.drop_last() == seq![start]);
    assert(join_text(parts, '/') == start.push('/') + end);
}

/// What normalizing makes of a text with two parts, and when it can.
#[verifier::spinoff_prover]
proof fn lemma_normalized_range(dt: Seq<char>, start: Seq<char>, end: Seq<char>)
    requires
        split_text(dt, '/') == seq![start, end],
    ensures
        normalized_datetime(dt) == instant_text(start).push('/') + inclusive_end(
            instant_text(end),
        ),
        datetime_supported(dt) == (has_suffix(instant_text(end), START_OF_DAY@) ==> cuttable(
            instant_text(end),
            10,
        )),
{
    let parts = split_text(dt, '/');
    assert(parts.len() == 2 && parts[0] == start && parts[1] == end);
}

/// What normalizing makes of a text that does not have two parts: an instant, which does not have
/// two parts either.
#[verifier::spinoff_prover]
proof fn lemma_normalized_other(dt: Seq<char>)
    requires
        split_text(dt, '/').len() != 2,
    ensures
        normalized_datetime(dt) == instant_text(dt),
        datetime_supported(dt),
        split_text(instant_text(dt), '/').len() != 2,
{
    if instant_text(dt) != dt {
        lemma_marks();
        assert(!START_OF_DAY@.contains('/'));
        lemma_parts_counted(dt, START_OF_DAY@);
    }
}

/// The parts of a normalized range are what normalizing makes of them.
#[verifier::spinoff_prover]
proof fn lemma_range_stays(start: Seq<char>, end: Seq<char>)
    requires
        !start.contains('/'),
        !end.contains('/'),
        has_suffix(instant_text(end), START_OF_DAY@) ==> cuttable(instant_text(end), 10),
    ensures
        ({
            let first = instant_text(start);
            let last = inclusive_end(instant_text(end));
            &&& !first.contains('/')
            &&& !last.contains('/')
            &&& instant_text(first) == first
            &&& instant_text(last) == last
            &&& inclusive_end(last) == last
            &&& !has_suffix(last, START_OF_DAY@)
        }),
{
    lemma_instant_stays(start);
    lemma_instant_stays(end);
    lemma_inclusive_end_stays(instant_text(end));
}

/// Normalizing a range twice is normalizing it once.
#[verifier::spinoff_prover]
proof fn lemma_range_is_idempotent(dt: Seq<char>, start: Seq<char>, end: Seq<char>)
    requires
        split_text(dt, '/') == seq![start, end],
        !start.contains('/'),
        !end.contains('/'),
        datetime_supported(dt),
    ensures
        datetime_supported(normalized_datetime(dt)),
        normalized_datetime(normalized_datetime(dt)) == normalized_datetime(dt),
{
    let first = instant_text(start);
    let last = inclusive_end(instant_text(end));
    lemma_normalized_range(dt, start, end);
    lemma_range_stays(start, end);
    lemma_range_parts(first, last);
    lemma_normalized_range(first.push('/') + last, first, last);
}

/// Normalizing twice is normalizing once.
#[verifier::spinoff_prover]
pub proof fn normalizing_is_idempotent(dt: Seq<char>)
    requires
        datetime_supported(dt),
    ensures
        datetime_supported(normalized_datetime(dt)),
        normalized_datetime(normalized_datetime(dt)) == normalized_datetime(dt),
{
    let parts = split_text(dt, '/');
    if parts.len() == 2 {
        split_then_join(dt, '/');
        assert(parts =~= seq![parts[0], parts[1]]);
        lemma_range_is_idempotent(dt, parts[0], parts[1]);
    } else {
        lemma_normalized_other(dt);
        lemma_instant_stays(dt);
        lemma_normalized_other(instant_text(dt));
    }
}

/// Text without a `/` behind a date range leaves the number of its parts alone.
proof fn lemma_parts_counted(a: Seq<char>, b: Seq<char>)
    requires
        !b.contains('/'),
    ensures
        split_text(a + b, '/').len() == split_text(a, '/').len(),
    decreases b.len(),
{
    split_then_join(a, '/');
    if b.len() == 0 {
        assert(a + b == a);
    } else {
        let shorter = b.drop_last();
        assert(b.contains(b.last()));
        assert forall|i: int| 0 <= i < shorter.len() implies shorter[i] != '/' by {
            assert(b[i] != '/');
        }
        assert((a + b).drop_last() == a + shorter);
        lemma_parts_counted(a, shorter);
        split_then_join(a + shorter, '/');
    }
}

/// A range of two dates without times runs from the first second of the one day to the last
/// second of the other.
pub proof fn day_range_is_inclusive(start: Seq<char>, end: Seq<char>)
    requires
        byte_len(start) == 10,
        byte_len(end) == 10,
        !start.contains('T'),
        !end.contains('T'),
        !start.contains('/'),
        !end.contains('/'),
    ensures
        datetime_supported(start.push('/') + end),
        normalized_datetime(start.push('/') + end) == (start + START_OF_DAY@).push('/') + (end
            + END_OF_DAY@),
{
    lemma_range_parts(start, end);
    cut_between_characters(end, START_OF_DAY@);
    let instant = end + START_OF_DAY@;
    assert(instant.skip(instant.len() - START_OF_DAY@.len()) == START_OF_DAY@);
}

/// A single date without a time becomes the first second of its day.
pub proof fn single_day_starts_at_midnight(day: Seq<char>)
    requires
        byte_len(day) == 10,
        !day.contains('T'),
        !day.contains('/'),
    ensures
        normalized_datetime(day) == day + START_OF_DAY@,
{
    let parts = seq![day];
    join_then_split(parts, '/');
    assert(join_text(parts, '/') == day);
}

/// Every date range in ASCII can be normalized.
pub proof fn ascii_is_supported(dt: Seq<char>)
    requires
        is_ascii_chars(dt),
    ensures
        datetime_supported(dt),
{
    let parts = split_text(dt, '/');
    if parts.len() == 2 {
        lemma_marks();
        split_then_join(dt, '/');
        reveal_with_fuel(join_text, 2);
        assert(parts.drop_last()[0] == parts[0]);
        assert(dt == parts[0].push('/') + parts[1]);
        let end = instant_text(parts[1]);
        assert forall|i: int| 0 <= i < end.len() implies '\0' <= #[trigger] end[i] <= '\u{7f}' by {
            if i < parts[1].len() {
                assert(end[i] == dt[parts[0].len() + 1 + i]);
            }
        }
        if has_suffix(end, START_OF_DAY@) {
            is_ascii_chars_encode_utf8(end);
            assert(is_ascii_chars(end.take(10)));
            is_ascii_chars_encode_utf8(end.take(10));
            cut_between_characters(end.take(10), end.skip(10));
            assert(end.take(10) + end.skip(10) == end);
        }
    }
}

} // verus!
