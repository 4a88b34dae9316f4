//! Acquisition dates and the time between them.
use vstd::arithmetic::power::*;
use vstd::prelude::*;
use vstd::utf8::*;
use crate::text::{
    byte_len, bytes_less, cuttable, digits_value, first_bytes, i64_text, is_digit, is_digits,
    join_text, join_then_split, len_in_bytes, parse_i64, split, split_text, split_then_join,
    take_bytes, text_less,
};

verus! {

/// The number in a field of a date, or a substitute where the field is no number.
pub open spec fn date_field(s: Seq<char>, substitute: int) -> int {
    match i64_text(s) {
        Some(v) => v,
        None => substitute,
    }
}

/// Days on a simplified calendar with years of 365 and months of 30 days; a text with fewer than
/// three fields is day zero.
pub open spec fn date_days(date: Seq<char>) -> int {
    let parts = split_text(date, '-');
    if parts.len() < 3 {
        0
    } else {
        date_field(parts[0], 2020) * 365 + date_field(parts[1], 1) * 30 + date_field(parts[2], 1)
    }
}

/// Whether a number is one of 64 bits.
pub open spec fn fits_i64(v: int) -> bool {
    i64::MIN <= v <= i64::MAX
}

/// Whether the days of a date can be counted within 64 bits.
pub open spec fn date_fits(date: Seq<char>) -> bool {
    let parts = split_text(date, '-');
    parts.len() >= 3 ==> {
        let y = date_field(parts[0], 2020);
        let m = date_field(parts[1], 1);
        &&& fits_i64(y * 365)
        &&& fits_i64(m * 30)
        &&& fits_i64(y * 365 + m * 30)
        &&& fits_i64(date_days(date))
    }
}

/// The date in front of a timestamp: its first ten bytes, or all of a shorter text.
pub open spec fn day_text(timestamp: Seq<char>) -> Seq<char> {
    if byte_len(timestamp) >= 10 {
        first_bytes(timestamp, 10)
    } else {
        timestamp
    }
}

/// Whether the date in front of a timestamp ends between two characters.
pub open spec fn has_day(timestamp: Seq<char>) -> bool {
    byte_len(timestamp) >= 10 ==> cuttable(timestamp, 10)
}

/// Days between the dates of two timestamps, whichever comes first.
pub open spec fn baseline_days(timestamp1: Seq<char>, timestamp2: Seq<char>) -> int {
    let days = date_days(day_text(timestamp2)) - date_days(day_text(timestamp1));
    if days < 0 {
        -days
    } else {
        days
    }
}

/// Whether a text is a date `YYYY-MM-DD` with a month up to 12 and a day up to 31.
pub open spec fn is_calendar_day(s: Seq<char>) -> bool {
    &&& s.len() == 10
    &&& s[4] == '-'
    &&& s[7] == '-'
    &&& is_digits(s.subrange(0, 4))
    &&& is_digits(s.subrange(5, 7))
    &&& is_digits(s.subrange(8, 10))
    &&& 1 <= digits_value(s.subrange(5, 7)) <= 12
    &&& 1 <= digits_value(s.subrange(8, 10)) <= 31
}

/// The number in a field of a date, or a substitute where the field is no number.
fn read_field(s: &str, substitute: i64) -> (value: i64)
    ensures
        value == date_field(s@, substitute as int),
{
    match parse_i64(s) {
        Some(value) => value,
        None => substitute,
    }
}

/// Counts the days of a date written `YYYY-MM-DD`, on a calendar that is good enough for the
/// time between two acquisitions.
pub fn parse_date_to_days(date: &str) -> (days: i64)
    requires
        date_fits(date@),
    ensures
        days == date_days(date@),
{
    let parts = split(date, '-');
    let ghost texts = parts@.map_values(|p: &str| p@);
    if parts.len() < 3 {
        return 0;
    }
    assert(texts[0] == parts@[0]@);
    assert(texts[1] == parts@[1]@);
    assert(texts[2] == parts@[2]@);
    let y: i64 = read_field(parts[0], 2020);
    let m: i64 = read_field(parts[1], 1);
    let d: i64 = read_field(parts[2], 1);
    y * 365 + m * 30 + d
}

/// Whether [`estimate_temporal_baseline`] can take a timestamp.
pub fn can_read_day(timestamp: &str) -> (readable: bool)
    ensures
        readable == has_day(timestamp@),
{
    len_in_bytes(timestamp) < 10 || timestamp.is_char_boundary(10)
}

/// The date in front of a timestamp.
fn day_of(timestamp: &str) -> (day: &str)
    requires
        has_day(timestamp@),
    ensures
        day@ == day_text(timestamp@),
{
    if len_in_bytes(timestamp) >= 10 {
        take_bytes(timestamp, 10)
    } else {
        timestamp
    }
}

/// Days between two ISO 8601 timestamps.
pub fn estimate_temporal_baseline(date1: &str, date2: &str) -> (days: i64)
    requires
        has_day(date1@),
        has_day(date2@),
    ensures
        days == baseline_days(date1@, date2@),
{
    let d1 = day_of(date1);
    let d2 = day_of(date2);
    proof {
        lemma_day_text_short(date1@);
        lemma_day_text_short(date2@);
        lemma_short_date_fits(d1@);
        lemma_short_date_fits(d2@);
    }
    let days1 = parse_date_to_days(d1);
    let days2 = parse_date_to_days(d2);
    let days = days2 - days1;
    if days < 0 {
        -days
    } else {
        days
    }
}

/// A text has at most as many characters as bytes.
proof fn lemma_at_most_bytes(s: Seq<char>)
    ensures
        s.len() <= byte_len(s),
    decreases s.len(),
{
    if s.len() > 0 {
        lemma_at_most_bytes(s.drop_first());
    }
}

/// The date in front of a timestamp has at most ten characters.
proof fn lemma_day_text_short(timestamp: Seq<char>)
    requires
        has_day(timestamp),
    ensures
        day_text(timestamp).len() <= 10,
{
    let day = day_text(timestamp);
    lemma_at_most_bytes(day);
    if byte_len(timestamp) >= 10 {
        let bytes = encode_utf8(timestamp);
        encode_utf8_valid_utf8(timestamp);
        valid_utf8_split(bytes, 10);
        decode_utf8_encode_utf8(bytes.subrange(0, 10));
    }
}

/// No part of a text is longer than the text.
proof fn lemma_parts_short(s: Seq<char>, sep: char)
    ensures
        forall|i: int|
            0 <= i < split_text(s, sep).len() ==> (#[trigger] split_text(s, sep)[i]).len()
                <= s.len(),
    decreases s.len(),
{
    if s.len() > 0 {
        lemma_parts_short(s.drop_last(), sep);
        split_then_join(s.drop_last(), sep);
        let shorter = split_text(s.drop_last(), sep);
        let parts = split_text(s, sep);
        assert forall|i: int| 0 <= i < parts.len() implies (#[trigger] parts[i]).len()
            <= s.len() by {
            if i < shorter.len() {
                assert(shorter[i].len() <= s.len() - 1);
            }
        }
    }
}

/// A number of `n` digits is below the `n`th power of ten.
proof fn lemma_digits_below_power(s: Seq<char>)
    requires
        forall|j: int| 0 <= j < s.len() ==> is_digit(#[trigger] s[j]),
    ensures
        digits_value(s) < pow(10, s.len()),
    decreases s.len(),
{
    if s.len() == 0 {
        lemma_pow0(10);
    } else {
        let shorter = s.drop_last();
        assert forall|j: int| 0 <= j < shorter.len() implies is_digit(#[trigger] shorter[j]) by {
            assert(shorter[j] == s[j]);
        }
        lemma_digits_below_power(shorter);
        assert(is_digit(s[s.len() - 1]));
        reveal(pow);
    }
}

/// A field of at most ten characters is a number of at most ten digits.
proof fn lemma_field_small(s: Seq<char>, substitute: int)
    requires
        s.len() <= 10,
        0 <= substitute < 10_000_000_000,
    ensures
        -10_000_000_000 < date_field(s, substitute) < 10_000_000_000,
{
    assert(pow(10, 10) == 10_000_000_000) by {
        reveal(pow);
        reveal_with_fuel(pow, 12);
    }
    if is_digits(s) {
        lemma_digits_below_power(s);
        lemma_pow_increases(10, s.len(), 10);
    }
    if s.len() > 0 && is_digits(s.skip(1)) {
        lemma_digits_below_power(s.skip(1));
        lemma_pow_increases(10, s.skip(1).len(), 10);
    }
}

/// The days of a date of at most ten characters can be counted, and are far from the limits.
proof fn lemma_short_date_fits(date: Seq<char>)
    requires
        date.len() <= 10,
    ensures
        date_fits(date),
        -0x2000_0000_0000_0000 < date_days(date) < 0x2000_0000_0000_0000,
{
    let parts = split_text(date, '-');
    lemma_parts_short(date, '-');
    if parts.len() >= 3 {
        assert(parts[0].len() <= 10 && parts[1].len() <= 10 && parts[2].len() <= 10);
        lemma_field_small(parts[0], 2020);
        lemma_field_small(parts[1], 1);
        lemma_field_small(parts[2], 1);
    }
}

/// The time between two acquisitions is the same in both directions, is never negative, and is
/// zero between timestamps of one day.
pub proof fn baseline_is_symmetric(timestamp1: Seq<char>, timestamp2: Seq<char>)
    ensures
        baseline_days(timestamp1, timestamp2) == baseline_days(timestamp2, timestamp1),
        baseline_days(timestamp1, timestamp2) >= 0,
        day_text(timestamp1) == day_text(timestamp2) ==> baseline_days(timestamp1, timestamp2) == 0,
{
}

/// A stop on the way never makes the time between two acquisitions shorter.
pub proof fn baseline_triangle(timestamp1: Seq<char>, timestamp2: Seq<char>, timestamp3: Seq<char>)
    ensures
        baseline_days(timestamp1, timestamp3) <= baseline_days(timestamp1, timestamp2)
            + baseline_days(timestamp2, timestamp3),
{
}

/// The three fields of a date are read as its numbers.
proof fn lemma_calendar_day(s: Seq<char>)
    requires
        is_calendar_day(s),
    ensures
        is_ascii_chars(s),
        date_days(s) == digits_value(s.subrange(0, 4)) * 365 + digits_value(s.subrange(5, 7)) * 30
            + digits_value(s.subrange(8, 10)),
        digits_value(s.subrange(0, 4)) == 1000 * (s[0] as int - '0' as int) + 100 * (s[1] as int
            - '0' as int) + 10 * (s[2] as int - '0' as int) + (s[3] as int - '0' as int),
        digits_value(s.subrange(5, 7)) == 10 * (s[5] as int - '0' as int) + (s[6] as int
            - '0' as int),
        digits_value(s.subrange(8, 10)) == 10 * (s[8] as int - '0' as int) + (s[9] as int
            - '0' as int),
{
    let y = s.subrange(0, 4);
    let m = s.subrange(5, 7);
    let d = s.subrange(8, 10);
    let parts = seq![y, m, d];
    assert(forall|i: int| 0 <= i < 4 ==> is_digit(#[trigger] y[i]));
    assert(forall|i: int| 0 <= i < 2 ==> is_digit(#[trigger] m[i]));
    assert(forall|i: int| 0 <= i < 2 ==> is_digit(#[trigger] d[i]));
    assert forall|i: int| 0 <= i < s.len() implies '\0' <= #[trigger] s[i] <= '\u{7f}' by {
        if i < 4 {
            assert(is_digit(y[i]));
        } else if 5 <= i < 7 {
            assert(is_digit(m[i - 5]));
        } else if 8 <= i {
            assert(is_digit(d[i - 8]));
        }
    }
    assert forall|i: int| 0 <= i < parts.len() implies !(#[trigger] parts[i]).contains('-') by {
        if parts[i].contains('-') {
            let j = choose|j: int| 0 <= j < parts[i].len() && parts[i][j] == '-';
            assert(is_digit(parts[i][j]));
        }
    }
    join_then_split(parts, '-');
    assert(join_text(parts, '-') == s) by {
        reveal_with_fuel(join_text, 3);
        assert(parts.drop_last() == seq![y, m]);
        assert(seq![y, m].drop_last() == seq![y]);
        assert(y.push('-') + m == s.subrange(0, 7));
        assert(s.subrange(0, 7).push('-') + d == s);
    }
    lemma_unsigned(y);
    lemma_unsigned(m);
    lemma_unsigned(d);
    reveal_with_fuel(digits_value, 5);
    assert(y.drop_last().drop_last().drop_last().drop_last().len() == 0);
}

/// Up to ten digits are read as their number.
proof fn lemma_unsigned(s: Seq<char>)
    requires
        is_digits(s),
        s.len() <= 10,
    ensures
        i64_text(s) == Some(digits_value(s) as int),
{
    assert(is_digit(s[0]));
    lemma_field_small(s, 0);
    lemma_digits_below_power(s);
    lemma_pow_increases(10, s.len(), 10);
    assert(pow(10, 10) == 10_000_000_000) by {
        reveal(pow);
        reveal_with_fuel(pow, 12);
    }
}

/// Where one byte sequence does not come behind another, they agree up to some place, and there
/// the first one ends or has the smaller byte.
proof fn lemma_first_difference(a: Seq<u8>, b: Seq<u8>) -> (k: int)
    requires
        !bytes_less(b, a),
    ensures
        0 <= k <= a.len(),
        k <= b.len(),
        a.take(k) == b.take(k),
        k < a.len() ==> k < b.len() && a[k] < b[k],
    decreases a.len(),
{
    if a.len() == 0 || b.len() == 0 || a[0] != b[0] {
        assert(a.take(0) == b.take(0));
        0
    } else {
        let k = lemma_first_difference(a.drop_first(), b.drop_first());
        assert(a.take(k + 1) == seq![a[0]] + a.drop_first().take(k));
        assert(b.take(k + 1) == seq![b[0]] + b.drop_first().take(k));
        k + 1
    }
}

/// Where the dates of two timestamps are calendar days, the order of the texts is the order of
/// the days: a timestamp that does not come behind another has no later day.
pub proof fn text_order_is_day_order(timestamp1: Seq<char>, timestamp2: Seq<char>)
    requires
        has_day(timestamp1),
        has_day(timestamp2),
        is_calendar_day(day_text(timestamp1)),
        is_calendar_day(day_text(timestamp2)),
        !text_less(timestamp2, timestamp1),
    ensures
        date_days(day_text(timestamp1)) <= date_days(day_text(timestamp2)),
{
    let a = encode_utf8(timestamp1);
    let b = encode_utf8(timestamp2);
    let day1 = day_text(timestamp1);
    let day2 = day_text(timestamp2);
    lemma_day_bytes(timestamp1);
    lemma_day_bytes(timestamp2);
    lemma_calendar_day(day1);
    lemma_calendar_day(day2);
    is_ascii_chars_encode_utf8(day1);
    is_ascii_chars_encode_utf8(day2);
    let k = lemma_first_difference(a, b);
    assert forall|i: int| 0 <= i < 10 && i < k implies #[trigger] day1[i] == day2[i] by {
        assert(a.take(k)[i] == b.take(k)[i]);
        assert(a[i] == encode_utf8(day1)[i]);
        assert(b[i] == encode_utf8(day2)[i]);
    }
    if k < 10 {
        assert(a[k] == encode_utf8(day1)[k]);
        assert(b[k] == encode_utf8(day2)[k]);
        assert((day1[k] as int) < (day2[k] as int));
    }
    assert(forall|i: int| 0 <= i < 4 ==> is_digit(#[trigger] day1.subrange(0, 4)[i]));
    assert(forall|i: int| 0 <= i < 4 ==> is_digit(#[trigger] day2.subrange(0, 4)[i]));
    assert(day1.subrange(0, 4)[0] == day1[0] && day1.subrange(0, 4)[1] == day1[1]
        && day1.subrange(0, 4)[2] == day1[2] && day1.subrange(0, 4)[3] == day1[3]);
    assert(day2.subrange(0, 4)[0] == day2[0] && day2.subrange(0, 4)[1] == day2[1]
        && day2.subrange(0, 4)[2] == day2[2] && day2.subrange(0, 4)[3] == day2[3]);
    assert(is_digit(day1.subrange(5, 7)[1]) && is_digit(day2.subrange(5, 7)[1]));
    assert(is_digit(day1.subrange(8, 10)[1]) && is_digit(day2.subrange(8, 10)[1]));
}

/// The first ten bytes of a timestamp are the bytes of its date.
proof fn lemma_day_bytes(timestamp: Seq<char>)
    requires
        has_day(timestamp),
        is_calendar_day(day_text(timestamp)),
    ensures
        encode_utf8(timestamp).len() >= 10,
        encode_utf8(timestamp).subrange(0, 10) == encode_utf8(day_text(timestamp)),
{
    let bytes = encode_utf8(timestamp);
    encode_utf8_valid_utf8(timestamp);
    if bytes.len() >= 10 {
        valid_utf8_split(bytes, 10);
        decode_utf8_encode_utf8(bytes.subrange(0, 10));
    } else {
        lemma_at_most_bytes(timestamp);
    }
}

} // verus!
