//! Texts: what is asked of them and done with them.
use vstd::prelude::*;
use vstd::utf8::*;
use crate::calendar::can_read_day;
use crate::datetime::can_normalize_datetime;
use crate::promises::dates::{parts_follow_each_other, text_without_separator_is_one_part};
use crate::sites::{known_sites, ValidationSite};
use crate::text::{
    append_text, characters, contains, cut_between_characters, ends_with, has_suffix, len_in_bytes,
    same_text, split_then_join, starts_with, take_bytes,
};

verus! {

/// A text starts with another where something can be put behind that to make it up, and ends with
/// another where something can be put in front.
pub proof fn heads_and_tails_make_up_a_text(
    s: &str,
    other: &str,
    part: Seq<char>,
    starts: bool,
    ends: bool,
)
    requires
        call_ensures(starts_with, (s, other), starts),
        call_ensures(ends_with, (s, other), ends),
    ensures
        s@ == other@ + part ==> starts,
        s@ == part + other@ ==> ends,
        starts ==> exists|rest: Seq<char>| s@ == #[trigger] (other@ + rest),
        ends ==> exists|rest: Seq<char>| s@ == #[trigger] (rest + other@),
{
    let n = other@.len() as int;
    if s@ == other@ + part {
        assert(s@.take(n) =~= other@);
    }
    if s@ == part + other@ {
        assert(s@.skip(s@.len() - n) =~= other@);
    }
    if starts {
        assert(s@ =~= other@ + s@.skip(n));
    }
    if ends {
        assert(s@ =~= s@.take(s@.len() - n) + other@);
    }
}

/// Texts are made of characters: they hold those that they are written with, are the same where
/// they are written with the same, and are put one behind the other.
pub proof fn texts_are_made_of_characters(
    s: &str,
    other: &str,
    c: char,
    chars: Vec<char>,
    found: bool,
    same: bool,
    both: String,
    i: int,
)
    requires
        call_ensures(characters, (s,), chars),
        call_ensures(contains, (s, c), found),
        call_ensures(same_text, (s, other), same),
        call_ensures(append_text, (s, other), both),
    ensures
        chars.len() == s@.len(),
        0 <= i < s@.len() ==> chars@[i] == s@[i],
        0 <= i < s@.len() && s@[i] == c ==> found,
        found ==> exists|j: int| 0 <= j < s@.len() && s@[j] == c,
        same <==> s@ == other@,
        both@.len() == s@.len() + other@.len(),
        0 <= i < s@.len() ==> both@[i] == s@[i],
        0 <= i < other@.len() ==> both@[s@.len() + i] == other@[i],
{
}

/// The length of a text is that of its encoding, and taking as many bytes as a head of it has gives
/// that head.
pub proof fn bytes_are_those_of_the_encoding<'a>(
    s: &'a str,
    n: usize,
    len: usize,
    head: &'a str,
    a: Seq<char>,
    b: Seq<char>,
)
    requires
        call_ensures(len_in_bytes, (s,), len),
        call_ensures(take_bytes, (s, n), head),
    ensures
        len == encode_utf8(s@).len(),
        s@ == a + b && encode_utf8(a).len() == n ==> head@ == a,
{
    cut_between_characters(a, b);
}

/// A day can be read from every text that is shorter than one, and from every other whose tenth
/// byte ends a character; so from every timestamp behind a day of ten bytes.
pub proof fn days_can_be_read(timestamp: &str, readable: bool, day: Seq<char>, rest: Seq<char>)
    requires
        call_ensures(can_read_day, (timestamp,), readable),
    ensures
        encode_utf8(timestamp@).len() < 10 ==> readable,
        encode_utf8(timestamp@).len() >= 10 ==> readable == is_char_boundary(
            encode_utf8(timestamp@),
            10,
        ),
        timestamp@ == day + rest && encode_utf8(day).len() == 10 ==> readable,
{
    cut_between_characters(day, rest);
}

/// Every date and date range can be normalized, but for one whose end is at the start of a day with
/// a date that no tenth byte ends.
pub proof fn dates_can_be_normalized(
    dt: &str,
    supported: bool,
    start: Seq<char>,
    end: Seq<char>,
    more: Seq<char>,
)
    requires
        call_ensures(can_normalize_datetime, (dt,), supported),
    ensures
        !dt@.contains('/') ==> supported,
        dt@ == start.push('/') + (end.push('/') + more) ==> supported,
        dt@ == start.push('/') + end && !start.contains('/') && !end.contains('/') ==> {
            &&& !(exists|day: Seq<char>| end == #[trigger] (day + "T00:00:00Z"@)) ==> supported
            &&& (exists|day: Seq<char>| end == #[trigger] (day + "T00:00:00Z"@)) ==> supported
                == is_char_boundary(encode_utf8(end), 10)
        },
{
    let mark = "T00:00:00Z"@;
    reveal_strlit("T00:00:00Z");
    assert(mark.len() == 10 && mark[0] == 'T');
    if !dt@.contains('/') {
        text_without_separator_is_one_part(dt@, '/');
    }
    if dt@ == start.push('/') + (end.push('/') + more) {
        parts_follow_each_other(start, end.push('/') + more, '/');
        parts_follow_each_other(end, more, '/');
        split_then_join(start, '/');
        split_then_join(end, '/');
        split_then_join(more, '/');
    }
    if dt@ == start.push('/') + end && !start.contains('/') && !end.contains('/') {
        parts_follow_each_other(start, end, '/');
        text_without_separator_is_one_part(start, '/');
        text_without_separator_is_one_part(end, '/');
        if !end.contains('T') && encode_utf8(end).len() == 10 {
            cut_between_characters(end, mark);
        }
        if exists|day: Seq<char>| end == #[trigger] (day + "T00:00:00Z"@) {
            let day = choose|day: Seq<char>| end == #[trigger] (day + "T00:00:00Z"@);
            assert(end[day.len() as int] == 'T');
            assert(end.contains('T'));
            assert(end.skip(end.len() - 10) =~= mark);
        } else if has_suffix(end, mark) {
            assert(end =~= end.take(end.len() - 10) + "T00:00:00Z"@);
        }
    }
}

/// The known sites: Los Angeles, London and Dangjin, with their boxes, dates and subsidence.
pub proof fn three_sites_are_known(sites: Vec<ValidationSite>)
    requires
        call_ensures(known_sites, (), sites),
    ensures
        sites.len() == 3,
        sites@[0].name@ == "LA Metro Purple Line Extension"@,
        sites@[0].date_range@ == "2019-01-01/2022-12-31"@,
        sites@[0].bbox_centidegrees@ == seq![-11838i32, 3405i32, -11826i32, 3407i32],
        sites@[0].expected_subsidence_mm == 15,
        sites@[1].name@ == "London Crossrail - East London"@,
        sites@[1].date_range@ == "2015-01-01/2019-12-31"@,
        sites@[1].bbox_centidegrees@ == seq![-2i32, 5148i32, 12i32, 5153i32],
        sites@[1].expected_subsidence_mm == 20,
        sites@[2].name@ == "Dangjin Tunneling, South Korea"@,
        sites@[2].date_range@ == "2018-01-01/2021-12-31"@,
        sites@[2].bbox_centidegrees@ == seq![12655i32, 3695i32, 12672i32, 3702i32],
        sites@[2].expected_subsidence_mm == 200,
        sites@[0].description@
            == "Twin tunnel boring through downtown Los Angeles. InSAR studies detected up to 15mm subsidence along Wilshire Blvd corridor."@,
        sites@[1].description@
            == "Lee Tunnel and Crossrail construction in East London. Sentinel-1 PS-InSAR detected subsidence patterns including a drift-filled hollow discovered during tunnelling."@,
        sites@[2].description@
            == "TBM tunneling in reclaimed land near Dangjin. PS-InSAR measured maximum subsidence rate exceeding 40mm/yr with cumulative subsidence of ~200mm."@,
{
}

} // verus!
