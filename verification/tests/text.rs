use geoint_playback::text::{
    characters, comes_before, append_text, contains, ends_with, len_in_bytes, parse_i64, same_text, split,
    starts_with, take_bytes,
};

#[test]
fn splits_at_every_separator() {
    assert_eq!(split("2020-01-15", '-'), vec!["2020", "01", "15"]);
    assert_eq!(split("", '-'), vec![""]);
    assert_eq!(split("--", '-'), vec!["", "", ""]);
    assert_eq!(split("a/b/", '/'), vec!["a", "b", ""]);
    assert_eq!(split("плюс/минус", '/'), vec!["плюс", "минус"]);
}

#[test]
fn joined_parts_are_the_text_again() {
    for text in ["", "a", "/", "a//b", "/a/b/"] {
        assert_eq!(split(text, '/').join("/"), text);
    }
}

#[test]
fn reads_decimal_integers() {
    assert_eq!(parse_i64("0"), Some(0));
    assert_eq!(parse_i64("0042"), Some(42));
    assert_eq!(parse_i64("+7"), Some(7));
    assert_eq!(parse_i64("-7"), Some(-7));
    assert_eq!(parse_i64("9223372036854775807"), Some(i64::MAX));
    assert_eq!(parse_i64("-9223372036854775808"), Some(i64::MIN));
    assert_eq!(parse_i64("9223372036854775808"), None);
    assert_eq!(parse_i64("-9223372036854775809"), None);
    assert_eq!(parse_i64("99999999999999999999999999999999999999999"), None);
    assert_eq!(parse_i64("00000000000000000000000000000000000000001"), Some(1));
    for text in ["", "+", "-", "+-1", " 1", "1 ", "1a", "1.5", "١"] {
        assert_eq!(parse_i64(text), None, "{text:?}");
    }
}

#[test]
fn reads_integers_like_the_standard_library() {
    for text in ["12", "-12", "+12", "x", "", "-0", "007", "2147483648", "1_000"] {
        assert_eq!(parse_i64(text), text.parse::<i64>().ok(), "{text:?}");
    }
}

#[test]
fn orders_texts_by_bytes() {
    assert!(comes_before("2020-01-01", "2020-01-02"));
    assert!(comes_before("2020-01-01", "2020-01-01T00:00:00Z"));
    assert!(!comes_before("b", "a"));
    assert!(!comes_before("a", "a"));
    assert!(comes_before("", "a"));
    let texts = ["", "a", "ab", "b", "é", "z", "日", "2020"];
    for a in texts {
        for b in texts {
            assert_eq!(comes_before(a, b), a < b);
        }
    }
}

#[test]
fn looks_into_texts() {
    assert!(contains("2020-01-01T00", 'T'));
    assert!(!contains("2020-01-01", 'T'));
    assert!(starts_with("/api/sites/1", "/api/sites"));
    assert!(!starts_with("/api", "/api/sites"));
    assert!(ends_with("xT00:00:00Z", "T00:00:00Z"));
    assert!(!ends_with("Z", "T00:00:00Z"));
    assert!(same_text("GET", "GET"));
    assert!(!same_text("GET", "GE"));
    assert!(!same_text("GET", "PUT"));
    assert_eq!(append_text("ab", "cd"), "abcd");
    assert_eq!(characters("aé"), vec!['a', 'é']);
    assert_eq!(len_in_bytes("aé"), 3);
    assert_eq!(take_bytes("aéb", 3), "aé");
}
