//! Texts, numbers and dates.
use vstd::arithmetic::power::*;
use vstd::prelude::*;
use vstd::utf8::*;
use crate::calendar::{date_days, day_text, estimate_temporal_baseline, has_day, parse_date_to_days};
use crate::datetime::{inclusive_end, instant_text, normalize_datetime};
use crate::text::{
    bytes_less, comes_before, cut_between_characters, digits_value, encoding_of_concat, has_suffix,
    i64_text, is_digits, join_text, join_then_split, parse_i64, split, split_text, split_then_join,
};

verus! {

// ── Texts ──

/// A text without the separator is one part.
pub proof fn text_without_separator_is_one_part(s: Seq<char>, sep: char)
    requires
        !s.contains(sep),
    ensures
        split_text(s, sep) == seq![s],
{
    join_then_split(seq![s], sep);
    reveal_with_fuel(join_text, 2);
    assert(join_text(seq![s], sep) == s);
}

/// The parts of two texts with a separator between them are the parts of the one and then those of
/// the other.
pub proof fn parts_follow_each_other(a: Seq<char>, b: Seq<char>, sep: char)
    ensures
        split_text(a.push(sep) + b, sep) == split_text(a, sep) + split_text(b, sep),
    decreases b.len(),
{
    let whole = a.push(sep) + b;
    if b.len() == 0 {
        assert(b =~= Seq::<char>::empty());
        assert(whole =~= a.push(sep));
        assert(whole.drop_last() =~= a);
        assert(split_text(b, sep) == seq![b]);
        assert(split_text(whole, sep) == split_text(a, sep).push(Seq::<char>::empty()));
        assert(split_text(whole, sep) =~= split_text(a, sep) + split_text(b, sep));
    } else {
        let front = b.drop_last();
        parts_follow_each_other(a, front, sep);
        split_then_join(front, sep);
        assert(whole.drop_last() == a.push(sep) + front);
        let left = split_text(a, sep);
        let right = split_text(front, sep);
        if b.last() == sep {
            assert(split_text(whole, sep) =~= left + split_text(b, sep));
        } else {
            assert((left + right).drop_last() =~= left + right.drop_last());
            assert((left + right).last() == right.last());
            assert(split_text(whole, sep) =~= left + split_text(b, sep));
        }
    }
}

/// Splitting a text gives its parts.
pub proof fn split_gives_the_parts<'a>(s: &'a str, sep: char, parts: Vec<&'a str>)
    requires
        call_ensures(split, (s, sep), parts),
    ensures
        parts.len() == split_text(s@, sep).len(),
        forall|i: int| 0 <= i < parts.len() ==> (#[trigger] parts@[i])@ == split_text(s@, sep)[i],
{
    let texts = parts@.map_values(|p: &'a str| p@);
    assert forall|i: int| 0 <= i < parts.len() implies (#[trigger] parts@[i])@ == split_text(
        s@,
        sep,
    )[i] by {
        assert(texts[i] == parts@[i]@);
    }
}

/// Texts are in the order of the first byte in which they differ; a text comes before its own
/// continuation.
pub proof fn first_difference_decides(
    a: &str,
    b: &str,
    before: bool,
    common: Seq<u8>,
    x: Seq<u8>,
    y: Seq<u8>,
)
    requires
        call_ensures(comes_before, (a, b), before),
        encode_utf8(a@) == common + x,
        encode_utf8(b@) == common + y,
    ensures
        x.len() == 0 ==> before == (y.len() > 0),
        y.len() == 0 ==> !before,
        x.len() > 0 && y.len() > 0 && x[0] != y[0] ==> before == (x[0] < y[0]),
{
    lemma_common_bytes(common, x, y);
}

/// What two byte sequences have in common in front does not matter to their order.
proof fn lemma_common_bytes(common: Seq<u8>, x: Seq<u8>, y: Seq<u8>)
    ensures
        bytes_less(common + x, common + y) == bytes_less(x, y),
    decreases common.len(),
{
    if common.len() == 0 {
        assert(common + x == x && common + y == y);
    } else {
        lemma_common_bytes(common.drop_first(), x, y);
        assert((common + x).drop_first() == common.drop_first() + x);
        assert((common + y).drop_first() == common.drop_first() + y);
    }
}

/// A single digit writes its number, and digits behind others count from the right in powers of
/// ten.
pub proof fn digits_count_in_powers_of_ten(a: Seq<char>, b: Seq<char>, c: char)
    requires
        forall|i: int| 0 <= i < a.len() ==> '0' <= #[trigger] a[i] <= '9',
        forall|i: int| 0 <= i < b.len() ==> '0' <= #[trigger] b[i] <= '9',
        '0' <= c <= '9',
    ensures
        digits_value(seq![c]) == c as int - '0' as int,
        digits_value(a + b) == digits_value(a) * pow(10, b.len()) + digits_value(b),
    decreases b.len(),
{
    reveal_with_fuel(digits_value, 2);
    assert(seq![c].drop_last() == Seq::<char>::empty());
    if b.len() == 0 {
        assert(a + b == a);
        lemma_pow0(10);
    } else {
        let front = b.drop_last();
        assert forall|i: int| 0 <= i < front.len() implies '0' <= #[trigger] front[i] <= '9' by {
            assert(front[i] == b[i]);
        }
        digits_count_in_powers_of_ten(a, front, c);
        assert((a + b).drop_last() == a + front);
        assert((a + b).last() == b.last());
        assert('0' <= b[b.len() - 1] <= '9');
        assert(pow(10, b.len()) == 10 * pow(10, front.len())) by {
            reveal(pow);
        }
        let (x, p) = (digits_value(a) as int, pow(10, front.len()));
        assert(10 * (x * p) == x * (10 * p)) by (nonlinear_arith);
    }
}

/// A run of digits, with a sign or without, is read as its number wherever that has 64 bits; text
/// with anything else in it is no number, nor is an empty one or a bare sign.
pub proof fn numbers_are_read(s: &str, digits: Seq<char>, value: Option<i64>)
    requires
        call_ensures(parse_i64, (s,), value),
    ensures
        digits.len() > 0 && (forall|i: int|
            0 <= i < digits.len() ==> '0' <= #[trigger] digits[i] <= '9') ==> {
            &&& s@ == digits || s@ == seq!['+'] + digits ==> (if digits_value(digits)
                <= 0x7fff_ffff_ffff_ffff {
                value is Some && value->0 == digits_value(digits)
            } else {
                value is None
            })
            &&& s@ == seq!['-'] + digits ==> (if digits_value(digits) <= 0x8000_0000_0000_0000 {
                value is Some && value->0 == -digits_value(digits)
            } else {
                value is None
            })
        },
        s@.len() == 0 ==> value is None,
        s@.len() == 1 && !('0' <= s@[0] <= '9') ==> value is None,
        (exists|i: int| 1 <= i < s@.len() && !('0' <= #[trigger] s@[i] <= '9')) ==> value is None,
        s@.len() > 0 && !('0' <= s@[0] <= '9') && s@[0] != '+' && s@[0] != '-' ==> value is None,
{
    if digits.len() > 0 && (forall|i: int|
        0 <= i < digits.len() ==> '0' <= #[trigger] digits[i] <= '9') {
        assert(is_digits(digits));
        assert('0' <= digits[0] <= '9');
        if s@ == seq!['+'] + digits || s@ == seq!['-'] + digits {
            assert(s@.skip(1) =~= digits);
        }
    }
    if exists|i: int| 1 <= i < s@.len() && !('0' <= #[trigger] s@[i] <= '9') {
        let i = choose|i: int| 1 <= i < s@.len() && !('0' <= #[trigger] s@[i] <= '9');
        assert(s@.skip(1)[i - 1] == s@[i]);
    }
}

// ── Date ranges ──

/// A range is normalized part by part. A start without a time, ten bytes long, becomes the first
/// second of its day, and every other start stays. An end without a time, ten bytes long, becomes
/// the last second of its day; so does an end at the first second of a day; every other end stays.
pub proof fn ranges_are_normalized_part_by_part(
    dt: &str,
    out: String,
    start: Seq<char>,
    end: Seq<char>,
)
    requires
        call_ensures(normalize_datetime, (dt,), out),
        dt@ == start.push('/') + end,
        !start.contains('/'),
        !end.contains('/'),
    ensures
        exists|first: Seq<char>, last: Seq<char>|
            {
                &&& out@ == #[trigger] (first.push('/') + last)
                &&& start.contains('T') || encode_utf8(start).len() != 10 ==> first == start
                &&& !start.contains('T') && encode_utf8(start).len() == 10 ==> first == start
                    + "T00:00:00Z"@
                &&& !end.contains('T') && encode_utf8(end).len() == 10 ==> last == end
                    + "T23:59:59Z"@
                &&& (forall|day: Seq<char>|
                    end == #[trigger] (day + "T00:00:00Z"@) && encode_utf8(day).len() == 10
                        ==> last == day + "T23:59:59Z"@)
                &&& (exists|day: Seq<char>| end == #[trigger] (day + "T00:00:00Z"@))
                    && is_char_boundary(encode_utf8(end), 10) ==> last == decode_utf8(
                    encode_utf8(end).subrange(0, 10),
                ) + "T23:59:59Z"@
                &&& (end.contains('T') || encode_utf8(end).len() != 10) && !(exists|
                    day: Seq<char>,
                |
                    end == #[trigger] (day + "T00:00:00Z"@)) ==> last == end
            },
{
    let mark = "T00:00:00Z"@;
    reveal_strlit("T00:00:00Z");
    assert(mark.len() == 10 && mark[0] == 'T');
    let first = instant_text(start);
    let last = inclusive_end(instant_text(end));
    parts_follow_each_other(start, end, '/');
    text_without_separator_is_one_part(start, '/');
    text_without_separator_is_one_part(end, '/');
    let parts = split_text(dt@, '/');
    assert(parts =~= seq![start, end]);
    assert(out@ == first.push('/') + last);
    if !end.contains('T') && encode_utf8(end).len() == 10 {
        let instant = end + mark;
        assert(instant.skip(instant.len() - 10) =~= mark);
        cut_between_characters(end, mark);
        assert(last == end + "T23:59:59Z"@);
    }
    assert forall|day: Seq<char>|
        end == #[trigger] (day + "T00:00:00Z"@) && encode_utf8(day).len() == 10 implies last == day
        + "T23:59:59Z"@ by {
        assert(end[day.len() as int] == 'T');
        assert(end.contains('T'));
        assert(end.skip(end.len() - 10) =~= mark);
        cut_between_characters(day, mark);
    }
    if exists|day: Seq<char>| end == #[trigger] (day + "T00:00:00Z"@) {
        let day = choose|day: Seq<char>| end == #[trigger] (day + "T00:00:00Z"@);
        assert(end[day.len() as int] == 'T');
        assert(end.contains('T'));
        assert(end.skip(end.len() - 10) =~= mark);
    }
    if (end.contains('T') || encode_utf8(end).len() != 10) && !(exists|day: Seq<char>|
        end == #[trigger] (day + "T00:00:00Z"@)) {
        if has_suffix(end, mark) {
            let day = end.take(end.len() - 10);
            assert(day + mark =~= end);
            assert(end == day + "T00:00:00Z"@);
        }
    }
}

/// A text that is no range of two parts becomes the first second of its day where it has no time
/// and is ten bytes long, and stays otherwise.
pub proof fn other_dates_are_instants(
    dt: &str,
    out: String,
    a: Seq<char>,
    b: Seq<char>,
    c: Seq<char>,
)
    requires
        call_ensures(normalize_datetime, (dt,), out),
        !dt@.contains('/') || dt@ == a.push('/') + (b.push('/') + c),
    ensures
        !dt@.contains('T') && encode_utf8(dt@).len() == 10 ==> out@ == dt@ + "T00:00:00Z"@,
        dt@.contains('T') || encode_utf8(dt@).len() != 10 ==> out@ == dt@,
{
    if dt@ == a.push('/') + (b.push('/') + c) {
        parts_follow_each_other(a, b.push('/') + c, '/');
        parts_follow_each_other(b, c, '/');
        split_then_join(a, '/');
        split_then_join(b, '/');
        split_then_join(c, '/');
    } else {
        text_without_separator_is_one_part(dt@, '/');
    }
}

// ── Dates ──

/// A date counts 365 days for each year, 30 for each month and one for each day; a field that is no
/// number counts as the year 2020, the first month or the first day. What follows the third field
/// does not count, and fewer than three fields are day zero.
pub proof fn dates_count_years_months_and_days(
    date: &str,
    days: i64,
    y: Seq<char>,
    m: Seq<char>,
    d: Seq<char>,
    rest: Seq<char>,
)
    requires
        call_ensures(parse_date_to_days, (date,), days),
        !y.contains('-'),
        !m.contains('-'),
        !d.contains('-'),
    ensures
        date@ == y.push('-') + (m.push('-') + d) || date@ == y.push('-') + (m.push('-') + (d.push(
            '-',
        ) + rest)) ==> days == 365 * (match i64_text(y) {
            Some(v) => v,
            None => 2020,
        }) + 30 * (match i64_text(m) {
            Some(v) => v,
            None => 1,
        }) + (match i64_text(d) {
            Some(v) => v,
            None => 1,
        }),
        date@ == y || date@ == y.push('-') + m ==> days == 0,
{
    text_without_separator_is_one_part(y, '-');
    text_without_separator_is_one_part(m, '-');
    text_without_separator_is_one_part(d, '-');
    parts_follow_each_other(y, m, '-');
    parts_follow_each_other(m, d, '-');
    parts_follow_each_other(y, m.push('-') + d, '-');
    parts_follow_each_other(d, rest, '-');
    parts_follow_each_other(m, d.push('-') + rest, '-');
    parts_follow_each_other(y, m.push('-') + (d.push('-') + rest), '-');
    split_then_join(rest, '-');
    let parts = split_text(date@, '-');
    if date@ == y.push('-') + (m.push('-') + d) {
        assert(parts.len() == 3 && parts[0] == y && parts[1] == m && parts[2] == d);
    } else if date@ == y.push('-') + (m.push('-') + (d.push('-') + rest)) {
        assert(parts.len() >= 4 && parts[0] == y && parts[1] == m && parts[2] == d);
    }
}

/// The day in front of a timestamp is its first ten bytes, whatever follows them and however much
/// it is; a shorter text is its own day.
pub proof fn rest_of_a_timestamp_does_not_count(day: Seq<char>, rest: Seq<char>)
    ensures
        encode_utf8(day).len() == 10 ==> day_text(day + rest) == day && has_day(day + rest),
        encode_utf8(day).len() < 10 ==> day_text(day) == day && has_day(day),
{
    cut_between_characters(day, rest);
    encoding_of_concat(day, rest);
}

/// The days between two timestamps are the distance of the days in front of them, whatever follows
/// these.
pub proof fn baseline_is_the_distance_of_the_days(
    timestamp1: &str,
    timestamp2: &str,
    days: i64,
    day1: Seq<char>,
    rest1: Seq<char>,
    day2: Seq<char>,
    rest2: Seq<char>,
)
    requires
        call_ensures(estimate_temporal_baseline, (timestamp1, timestamp2), days),
        timestamp1@ == day1 + rest1,
        timestamp2@ == day2 + rest2,
        encode_utf8(day1).len() == 10 || encode_utf8(day1).len() < 10 && rest1.len() == 0,
        encode_utf8(day2).len() == 10 || encode_utf8(day2).len() < 10 && rest2.len() == 0,
    ensures
        date_days(day1) <= date_days(day2) ==> days == date_days(day2) - date_days(day1),
        date_days(day2) <= date_days(day1) ==> days == date_days(day1) - date_days(day2),
{
    rest_of_a_timestamp_does_not_count(day1, rest1);
    rest_of_a_timestamp_does_not_count(day2, rest2);
    assert(rest1.len() == 0 ==> day1 + rest1 =~= day1);
    assert(rest2.len() == 0 ==> day2 + rest2 =~= day2);
}

/// The count of days of a text is the one that [`parse_date_to_days`] gives.
pub proof fn days_are_those_of_the_date(date: &str, days: i64)
    requires
        call_ensures(parse_date_to_days, (date,), days),
    ensures
        days == date_days(date@),
{
}

/// The days between timestamps that start with calendar days, in numbers: whatever follows the
/// days, they are 365 for each year between them, 30 for each month and one for each day.
pub proof fn baseline_counts_years_months_and_days(
    timestamp1: &str,
    timestamp2: &str,
    days: i64,
    y1: Seq<char>,
    m1: Seq<char>,
    d1: Seq<char>,
    rest1: Seq<char>,
    y2: Seq<char>,
    m2: Seq<char>,
    d2: Seq<char>,
    rest2: Seq<char>,
)
    requires
        call_ensures(estimate_temporal_baseline, (timestamp1, timestamp2), days),
        timestamp1@ == (y1.push('-') + (m1.push('-') + d1)) + rest1,
        timestamp2@ == (y2.push('-') + (m2.push('-') + d2)) + rest2,
        y1.len() == 4 && m1.len() == 2 && d1.len() == 2,
        y2.len() == 4 && m2.len() == 2 && d2.len() == 2,
        is_digits(y1) && is_digits(m1) && is_digits(d1),
        is_digits(y2) && is_digits(m2) && is_digits(d2),
    ensures
        ({
            let between = 365 * (digits_value(y2) - digits_value(y1)) + 30 * (digits_value(m2)
                - digits_value(m1)) + (digits_value(d2) - digits_value(d1));
            days == between || days == -between
        }),
        days >= 0,
{
    let day1 = y1.push('-') + (m1.push('-') + d1);
    let day2 = y2.push('-') + (m2.push('-') + d2);
    lemma_written_day(y1, m1, d1);
    lemma_written_day(y2, m2, d2);
    baseline_is_the_distance_of_the_days(timestamp1, timestamp2, days, day1, rest1, day2, rest2);
}

/// A written day is ten bytes long, and counts its fields.
proof fn lemma_written_day(y: Seq<char>, m: Seq<char>, d: Seq<char>)
    requires
        y.len() == 4 && m.len() == 2 && d.len() == 2,
        is_digits(y) && is_digits(m) && is_digits(d),
    ensures
        encode_utf8(y.push('-') + (m.push('-') + d)).len() == 10,
        date_days(y.push('-') + (m.push('-') + d)) == 365 * digits_value(y) + 30 * digits_value(m)
            + digits_value(d),
{
    let day = y.push('-') + (m.push('-') + d);
    assert forall|i: int| 0 <= i < day.len() implies '\0' <= #[trigger] day[i] <= '\u{7f}' by {
        if i < 4 {
            assert(day[i] == y[i]);
        } else if 5 <= i < 7 {
            assert(day[i] == m[i - 5]);
        } else if 8 <= i {
            assert(day[i] == d[i - 8]);
        }
    }
    is_ascii_chars_encode_utf8(day);
    lemma_no_dash(y);
    lemma_no_dash(m);
    lemma_no_dash(d);
    text_without_separator_is_one_part(y, '-');
    text_without_separator_is_one_part(m, '-');
    text_without_separator_is_one_part(d, '-');
    parts_follow_each_other(m, d, '-');
    parts_follow_each_other(y, m.push('-') + d, '-');
    let parts = split_text(day, '-');
    assert(parts.len() == 3 && parts[0] == y && parts[1] == m && parts[2] == d);
    lemma_short_number(y);
    lemma_short_number(m);
    lemma_short_number(d);
}

/// Digits hold no dash.
proof fn lemma_no_dash(s: Seq<char>)
    requires
        is_digits(s),
    ensures
        !s.contains('-'),
{
    if s.contains('-') {
        let i = choose|i: int| 0 <= i < s.len() && s[i] == '-';
        assert('0' <= s[i]);
    }
}

/// Up to four digits are read as their number.
proof fn lemma_short_number(s: Seq<char>)
    requires
        is_digits(s),
        s.len() <= 4,
    ensures
        i64_text(s) == Some(digits_value(s) as int),
{
    assert('0' <= s[0] <= '9');
    reveal_with_fuel(digits_value, 5);
    if s.len() >= 2 {
        assert(s.drop_last().last() == s[s.len() - 2]);
    }
    if s.len() >= 3 {
        assert(s.drop_last().drop_last().last() == s[s.len() - 3]);
    }
    if s.len() >= 4 {
        assert(s.drop_last().drop_last().drop_last().last() == s[s.len() - 4]);
    }
}

} // verus!
