//! Text as the service reads it: UTF-8 lengths and prefixes, splitting, decimal numbers and the
//! order of strings.
use vstd::prelude::*;
use vstd::string::StrSliceExecFns;
use vstd::utf8::*;

verus! {

/// Length of a text in UTF-8 bytes.
pub open spec fn byte_len(s: Seq<char>) -> nat {
    encode_utf8(s).len()
}

/// Whether a text can be cut behind its first `n` bytes without breaking a character.
pub open spec fn cuttable(s: Seq<char>, n: int) -> bool {
    is_char_boundary(encode_utf8(s), n)
}

/// The characters encoded by the first `n` bytes of a text.
pub open spec fn first_bytes(s: Seq<char>, n: int) -> Seq<char> {
    decode_utf8(encode_utf8(s).subrange(0, n))
}

/// The parts of a text between the occurrences of a separator, in order; a text without the
/// separator is one part.
pub open spec fn split_text(s: Seq<char>, sep: char) -> Seq<Seq<char>>
    decreases s.len(),
{
    if s.len() == 0 {
        seq![s]
    } else {
        let parts = split_text(s.drop_last(), sep);
        if s.last() == sep {
            parts.push(Seq::<char>::empty())
        } else {
            parts.drop_last().push(parts.last().push(s.last()))
        }
    }
}

/// Texts put together with a separator between neighbours.
pub open spec fn join_text(parts: Seq<Seq<char>>, sep: char) -> Seq<char>
    decreases parts.len(),
{
    if parts.len() == 0 {
        Seq::empty()
    } else if parts.len() == 1 {
        parts[0]
    } else {
        join_text(parts.drop_last(), sep).push(sep) + parts.last()
    }
}

/// Whether `tail` ends `s`.
pub open spec fn has_suffix(s: Seq<char>, tail: Seq<char>) -> bool {
    s.len() >= tail.len() && s.skip(s.len() - tail.len()) == tail
}

/// Whether `head` starts `s`.
pub open spec fn has_prefix(s: Seq<char>, head: Seq<char>) -> bool {
    s.len() >= head.len() && s.take(head.len() as int) == head
}

/// Whether a character is an ASCII decimal digit.
pub open spec fn is_digit(c: char) -> bool {
    '0' <= c && c <= '9'
}

/// Whether a text is a non-empty run of decimal digits.
pub open spec fn is_digits(s: Seq<char>) -> bool {
    &&& s.len() > 0
    &&& forall|i: int| 0 <= i < s.len() ==> is_digit(#[trigger] s[i])
}

/// The number that a run of decimal digits writes.
pub open spec fn digits_value(s: Seq<char>) -> nat
    decreases s.len(),
{
    if s.len() == 0 {
        0
    } else {
        (10 * digits_value(s.drop_last()) + (s.last() as int - '0' as int)) as nat
    }
}

/// The integer that a text writes: decimal digits, with `+` or `-` in front or without.
pub open spec fn integer_text(s: Seq<char>) -> Option<int> {
    if s.len() > 0 && s[0] == '-' && is_digits(s.skip(1)) {
        Some(-digits_value(s.skip(1)))
    } else if s.len() > 0 && s[0] == '+' && is_digits(s.skip(1)) {
        Some(digits_value(s.skip(1)) as int)
    } else if is_digits(s) {
        Some(digits_value(s) as int)
    } else {
        None
    }
}

/// The integer that a text writes, where it is one of 64 bits.
pub open spec fn i64_text(s: Seq<char>) -> Option<int> {
    match integer_text(s) {
        Some(v) if i64::MIN <= v <= i64::MAX => Some(v),
        _ => None,
    }
}

/// Lexicographic order of byte sequences.
pub open spec fn bytes_less(a: Seq<u8>, b: Seq<u8>) -> bool
    decreases a.len(),
{
    if b.len() == 0 {
        false
    } else if a.len() == 0 {
        true
    } else if a[0] != b[0] {
        a[0] < b[0]
    } else {
        bytes_less(a.drop_first(), b.drop_first())
    }
}

/// Order of texts, by their UTF-8 bytes.
pub open spec fn text_less(a: Seq<char>, b: Seq<char>) -> bool {
    bytes_less(encode_utf8(a), encode_utf8(b))
}

/// The characters of a text, one by one.
pub fn characters(s: &str) -> (chars: Vec<char>)
    ensures
        chars@ == s@,
{
    let mut chars: Vec<char> = Vec::new();
    for c in it: s.chars()
        invariant
            it.seq() == s@,
            chars@ == s@.take(it.index() as int),
    {
        chars.push(c);
    }
    chars
}

/// Splits a text at every occurrence of a separator.
pub fn split<'a>(s: &'a str, sep: char) -> (parts: Vec<&'a str>)
    ensures
        parts@.map_values(|p: &'a str| p@) == split_text(s@, sep),
{
    let chars = characters(s);
    let mut parts: Vec<&'a str> = Vec::new();
    let mut start: usize = 0;
    let mut i: usize = 0;
    while i < chars.len()
        invariant
            chars@ == s@,
            start <= i <= chars.len(),
            split_text(s@.take(i as int), sep) == parts@.map_values(|p: &'a str| p@).push(
                s@.subrange(start as int, i as int),
            ),
        decreases chars.len() - i,
    {
        proof {
            assert(s@.take(i + 1).drop_last() == s@.take(i as int));
            assert(s@.subrange(start as int, i + 1) == s@.subrange(start as int, i as int).push(
                s@[i as int],
            ));
        }
        if chars[i] == sep {
            let ghost before = parts@;
            parts.push(s.substring_char(start, i));
            start = i + 1;
            proof {
                assert(parts@.map_values(|p: &'a str| p@) == before.map_values(
                    |p: &'a str| p@,
                ).push(parts@.last()@));
                assert(s@.subrange(start as int, i + 1) == Seq::<char>::empty());
            }
        } else {
            proof {
                let old_parts = split_text(s@.take(i as int), sep);
                assert(old_parts.drop_last() == parts@.map_values(|p: &'a str| p@));
            }
        }
        i = i + 1;
    }
    let ghost before = parts@;
    parts.push(s.substring_char(start, chars.len()));
    proof {
        assert(s@.take(chars.len() as int) == s@);
        assert(parts@.map_values(|p: &'a str| p@) == before.map_values(|p: &'a str| p@).push(
            parts@.last()@,
        ));
    }
    parts
}

/// Whether a text holds a character.
pub fn contains(s: &str, wanted: char) -> (found: bool)
    ensures
        found == s@.contains(wanted),
{
    let chars = characters(s);
    let mut i: usize = 0;
    while i < chars.len()
        invariant
            chars@ == s@,
            i <= chars.len(),
            forall|j: int| 0 <= j < i ==> s@[j] != wanted,
        decreases chars.len() - i,
    {
        if chars[i] == wanted {
            assert(s@[i as int] == wanted);
            return true;
        }
        i = i + 1;
    }
    false
}

/// Whether the characters from position `at` on start with `head`.
fn matches_at(chars: &Vec<char>, at: usize, head: &Vec<char>) -> (same: bool)
    requires
        at + head.len() <= chars.len(),
    ensures
        same == (chars@.subrange(at as int, at + head.len()) == head@),
{
    let mut i: usize = 0;
    while i < head.len()
        invariant
            at + head.len() <= chars.len(),
            i <= head.len(),
            forall|j: int| 0 <= j < i ==> chars@[at + j] == head@[j],
        decreases head.len() - i,
    {
        if chars[at + i] != head[i] {
            proof {
                assert(chars@.subrange(at as int, at + head.len())[i as int] != head@[i as int]);
            }
            return false;
        }
        i = i + 1;
    }
    assert(chars@.subrange(at as int, at + head.len()) =~= head@);
    true
}

/// Whether a text starts with another.
pub fn starts_with(s: &str, head: &str) -> (starts: bool)
    ensures
        starts == has_prefix(s@, head@),
{
    let chars = characters(s);
    let wanted = characters(head);
    chars.len() >= wanted.len() && matches_at(&chars, 0, &wanted)
}

/// Whether a text ends with another.
pub fn ends_with(s: &str, tail: &str) -> (ends: bool)
    ensures
        ends == has_suffix(s@, tail@),
{
    let chars = characters(s);
    let wanted = characters(tail);
    if chars.len() < wanted.len() {
        return false;
    }
    matches_at(&chars, chars.len() - wanted.len(), &wanted)
}

/// Whether two texts are the same.
pub fn same_text(a: &str, b: &str) -> (same: bool)
    ensures
        same == (a@ == b@),
{
    let left = characters(a);
    let right = characters(b);
    if left.len() != right.len() {
        return false;
    }
    let same = matches_at(&left, 0, &right);
    assert(left@.subrange(0, left.len() as int) =~= left@);
    same
}

/// Two texts, one behind the other.
pub fn append_text(a: &str, b: &str) -> (both: String)
    ensures
        both@ == a@ + b@,
{
    let mut both = a.to_string();
    both.append(b);
    both
}

/// The length of a text in bytes.
pub fn len_in_bytes(s: &str) -> (len: usize)
    ensures
        len == byte_len(s@),
{
    s.as_bytes().len()
}

/// The characters encoded by the first `n` bytes of a text.
pub fn take_bytes(s: &str, n: usize) -> (head: &str)
    requires
        cuttable(s@, n as int),
    ensures
        head@ == first_bytes(s@, n as int),
{
    let (head, _rest) = s.split_at(n);
    proof {
        encode_utf8_decode_utf8(head@);
    }
    head
}

/// Whether one text comes before another in the order of their bytes.
pub fn comes_before(a: &str, b: &str) -> (before: bool)
    ensures
        before == text_less(a@, b@),
{
    let left = a.as_bytes();
    let right = b.as_bytes();
    let mut i: usize = 0;
    assert(left@.skip(0) == left@);
    assert(right@.skip(0) == right@);
    while i < left.len() && i < right.len() && left[i] == right[i]
        invariant
            i <= left.len(),
            i <= right.len(),
            bytes_less(left@, right@) == bytes_less(left@.skip(i as int), right@.skip(i as int)),
        decreases left.len() - i,
    {
        proof {
            assert(left@.skip(i as int).drop_first() == left@.skip(i + 1));
            assert(right@.skip(i as int).drop_first() == right@.skip(i + 1));
        }
        i = i + 1;
    }
    if i < right.len() {
        i == left.len() || left[i] < right[i]
    } else {
        false
    }
}

/// Two texts are encoded one behind the other.
pub proof fn encoding_of_concat(a: Seq<char>, b: Seq<char>)
    ensures
        encode_utf8(a + b) == encode_utf8(a) + encode_utf8(b),
    decreases a.len(),
{
    if a.len() == 0 {
        assert(a + b == b);
    } else {
        encoding_of_concat(a.drop_first(), b);
        assert((a + b).drop_first() == a.drop_first() + b);
        assert(encode_utf8(a + b) == encode_utf8(a) + encode_utf8(b));
    }
}

/// A text can be cut between any two characters, and the cut gives back the characters in front.
pub proof fn cut_between_characters(a: Seq<char>, b: Seq<char>)
    ensures
        cuttable(a + b, byte_len(a) as int),
        first_bytes(a + b, byte_len(a) as int) == a,
    decreases a.len(),
{
    let whole = encode_utf8(a + b);
    encode_utf8_valid_utf8(a + b);
    encoding_of_concat(a, b);
    assert(whole.subrange(0, byte_len(a) as int) == encode_utf8(a));
    encode_utf8_decode_utf8(a);
    if a.len() > 0 {
        let rest = a.drop_first();
        encode_utf8_first_scalar(a + b);
        assert((a + b).drop_first() == rest + b);
        assert(pop_first_scalar(whole) == encode_utf8(rest + b));
        cut_between_characters(rest, b);
    }
}

/// Splitting loses nothing: every text has at least one part, no part holds the separator, and
/// the parts joined with the separator are the text again.
pub proof fn split_then_join(s: Seq<char>, sep: char)
    ensures
        split_text(s, sep).len() > 0,
        forall|i: int|
            0 <= i < split_text(s, sep).len() ==> !(#[trigger] split_text(s, sep)[i]).contains(sep),
        join_text(split_text(s, sep), sep) == s,
    decreases s.len(),
{
    let parts = split_text(s, sep);
    if s.len() > 0 {
        let shorter = split_text(s.drop_last(), sep);
        split_then_join(s.drop_last(), sep);
        assert(s == s.drop_last().push(s.last()));
        if s.last() == sep {
            assert(parts.drop_last() == shorter);
            assert(join_text(parts, sep) == s);
        } else {
            let n = shorter.len() - 1;
            assert(parts.drop_last() == shorter.drop_last());
            assert(join_text(parts, sep) == s);
            assert forall|i: int| 0 <= i < parts.len() implies !(#[trigger] parts[i]).contains(
                sep,
            ) by {
                assert(!shorter[i].contains(sep));
                if i == n {
                    assert(parts[i] == shorter[i].push(s.last()));
                    if parts[i].contains(sep) {
                        let j = choose|j: int| 0 <= j < parts[i].len() && parts[i][j] == sep;
                        assert(shorter[i][j] == sep);
                    }
                }
            }
        }
    }
}

/// A text without the separator, put behind another, only lengthens the last part.
proof fn lemma_split_extended(a: Seq<char>, b: Seq<char>, sep: char)
    requires
        !b.contains(sep),
    ensures
        split_text(a + b, sep) == split_text(a, sep).drop_last().push(
            split_text(a, sep).last() + b,
        ),
    decreases b.len(),
{
    split_then_join(a, sep);
    let parts = split_text(a, sep);
    if b.len() == 0 {
        assert(a + b == a);
        assert(parts.last() + b == parts.last());
        assert(parts.drop_last().push(parts.last()) == parts);
    } else {
        let shorter = b.drop_last();
        assert forall|i: int| 0 <= i < shorter.len() implies shorter[i] != sep by {
            assert(b[i] != sep);
        }
        lemma_split_extended(a, shorter, sep);
        assert((a + b).drop_last() == a + shorter);
        assert((a + b).last() == b.last());
        assert(b.last() != sep) by {
            assert(b.contains(b.last()));
        }
        assert((parts.last() + shorter).push(b.last()) == parts.last() + b);
        assert(parts.drop_last().push(parts.last() + shorter).drop_last() == parts.drop_last());
    }
}

/// Joining loses nothing: texts that hold no separator come back when what they join to is split.
pub proof fn join_then_split(parts: Seq<Seq<char>>, sep: char)
    requires
        parts.len() > 0,
        forall|i: int| 0 <= i < parts.len() ==> !(#[trigger] parts[i]).contains(sep),
    ensures
        split_text(join_text(parts, sep), sep) == parts,
    decreases parts.len(),
{
    let last = parts.last();
    assert(!parts[parts.len() - 1].contains(sep));
    if parts.len() == 1 {
        let none = Seq::<char>::empty();
        lemma_split_extended(none, last, sep);
        assert(none + last == last);
        assert(split_text(last, sep) == parts);
    } else {
        let front = parts.drop_last();
        assert forall|i: int| 0 <= i < front.len() implies !(#[trigger] front[i]).contains(sep) by {
            assert(front[i] == parts[i]);
        }
        join_then_split(front, sep);
        let head = join_text(front, sep).push(sep);
        assert(head.drop_last() == join_text(front, sep));
        assert(split_text(head, sep) == front.push(Seq::<char>::empty()));
        lemma_split_extended(head, last, sep);
        assert(split_text(head, sep).drop_last() == front);
        assert(Seq::<char>::empty() + last == last);
        assert(front.push(last) == parts);
    }
}

/// No byte sequence comes before itself, and two different ones are in order one way only.
proof fn lemma_bytes_order(a: Seq<u8>, b: Seq<u8>)
    ensures
        !(bytes_less(a, b) && bytes_less(b, a)),
        a != b ==> bytes_less(a, b) || bytes_less(b, a),
        a == b ==> !bytes_less(a, b),
    decreases a.len(),
{
    if a.len() > 0 && b.len() > 0 {
        lemma_bytes_order(a.drop_first(), b.drop_first());
        if a != b && a[0] == b[0] && a.drop_first() == b.drop_first() {
            assert(a == seq![a[0]] + a.drop_first());
            assert(b == seq![b[0]] + b.drop_first());
        }
    } else if a.len() == b.len() {
        assert(a == b);
    }
}

/// What comes before a byte sequence comes before everything behind it.
proof fn lemma_bytes_order_transitive(a: Seq<u8>, b: Seq<u8>, c: Seq<u8>)
    requires
        bytes_less(a, b),
        bytes_less(b, c),
    ensures
        bytes_less(a, c),
    decreases a.len(),
{
    if a.len() > 0 && a[0] == b[0] && b[0] == c[0] {
        lemma_bytes_order_transitive(a.drop_first(), b.drop_first(), c.drop_first());
    }
}

/// Two different texts are in order one way, and only one.
pub proof fn text_order_is_total(a: Seq<char>, b: Seq<char>)
    ensures
        !(text_less(a, b) && text_less(b, a)),
        a != b ==> text_less(a, b) || text_less(b, a),
        a == b ==> !text_less(a, b),
{
    lemma_bytes_order(encode_utf8(a), encode_utf8(b));
    encode_utf8_decode_utf8(a);
    encode_utf8_decode_utf8(b);
}

/// What comes before a text comes before everything behind it.
pub proof fn text_order_is_transitive(a: Seq<char>, b: Seq<char>, c: Seq<char>)
    requires
        text_less(a, b),
        text_less(b, c),
    ensures
        text_less(a, c),
{
    lemma_bytes_order_transitive(encode_utf8(a), encode_utf8(b), encode_utf8(c));
}

/// Digits behind a run of digits never make the number smaller.
proof fn lemma_digits_grow(s: Seq<char>, i: int)
    requires
        0 <= i <= s.len(),
        forall|j: int| 0 <= j < s.len() ==> is_digit(#[trigger] s[j]),
    ensures
        digits_value(s.take(i)) <= digits_value(s),
    decreases s.len(),
{
    if i == s.len() {
        assert(s.take(i) == s);
    } else {
        let shorter = s.drop_last();
        assert forall|j: int| 0 <= j < shorter.len() implies is_digit(#[trigger] shorter[j]) by {
            assert(shorter[j] == s[j]);
        }
        assert(s.take(i) == shorter.take(i));
        lemma_digits_grow(shorter, i);
        assert(is_digit(s[s.len() - 1]));
    }
}

/// Reads the decimal digits from position `start` on, up to a largest number.
fn read_digits(chars: &Vec<char>, start: usize, limit: u64) -> (value: Option<u64>)
    requires
        start <= chars.len(),
        limit <= 0x8000_0000_0000_0000,
    ensures
        value == (if is_digits(chars@.skip(start as int)) && digits_value(chars@.skip(start as int))
            <= limit {
            Some(digits_value(chars@.skip(start as int)) as u64)
        } else {
            None
        }),
{
    let ghost run = chars@.skip(start as int);
    if start == chars.len() {
        return None;
    }
    let mut value: u64 = 0;
    let mut i: usize = start;
    while i < chars.len()
        invariant
            start <= i <= chars.len(),
            run == chars@.skip(start as int),
            limit <= 0x8000_0000_0000_0000,
            value <= limit,
            value == digits_value(run.take(i - start)),
            forall|j: int| 0 <= j < i - start ==> is_digit(#[trigger] run[j]),
        decreases chars.len() - i,
    {
        let c = chars[i];
        assert(run[i - start] == c);
        if c < '0' || '9' < c {
            assert(!is_digit(run[i - start]));
            return None;
        }
        let digit: u64 = (c as u32 - '0' as u32) as u64;
        assert(run.take(i + 1 - start).drop_last() == run.take(i - start));
        if value > limit / 10 || value * 10 + digit > limit {
            proof {
                if is_digits(run) {
                    lemma_digits_grow(run, i + 1 - start);
                }
            }
            return None;
        }
        value = value * 10 + digit;
        i = i + 1;
    }
    assert(run.take(chars.len() - start) == run);
    Some(value)
}

/// Reads a decimal integer of 64 bits; `None` where the text writes no such number.
pub fn parse_i64(s: &str) -> (value: Option<i64>)
    ensures
        value is Some <==> i64_text(s@) is Some,
        value matches Some(v) ==> i64_text(s@) == Some(v as int),
{
    let chars = characters(s);
    assert(s@.skip(0) == s@);
    if chars.len() > 0 && chars[0] == '-' {
        assert(!is_digit(s@[0]));
        match read_digits(&chars, 1, 0x8000_0000_0000_0000) {
            Some(magnitude) => if magnitude == 0x8000_0000_0000_0000 {
                Some(i64::MIN)
            } else {
                Some(-(magnitude as i64))
            },
            None => None,
        }
    } else if chars.len() > 0 && chars[0] == '+' {
        assert(!is_digit(s@[0]));
        match read_digits(&chars, 1, 0x7fff_ffff_ffff_ffff) {
            Some(magnitude) => Some(magnitude as i64),
            None => None,
        }
    } else {
        match read_digits(&chars, 0, 0x7fff_ffff_ffff_ffff) {
            Some(magnitude) => Some(magnitude as i64),
            None => None,
        }
    }
}

} // verus!
