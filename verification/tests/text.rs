use fleetreach::cut::{
    after_last, before, find_all, find_last, lines, split, split_once, starts_with, strip_prefix,
    trim, words,
};
use fleetreach::json::Json;
use fleetreach::number::{parse_signed, parse_unsigned, show_signed};
use fleetreach::score::Score;
use fleetreach::text::{chars, contains, find, is_blank, join, show, to_lower, to_upper};
use fleetreach::textmap::TextMap;

#[test]
fn texts_are_cut_like_the_standard_library_does() {
    for t in ["", "a\n", "a\r\nb", "\n\n", " x \t", "a,b,,c", "=a=b=", "\u{3000}wide\u{a0}"] {
        let want: Vec<String> = t.lines().map(|x| x.to_string()).collect();
        assert_eq!(lines(t), want, "lines of {t:?}");
        let want: Vec<String> = t.split_whitespace().map(|x| x.to_string()).collect();
        assert_eq!(words(t), want, "words of {t:?}");
        let want: Vec<String> = t.split(',').map(|x| x.to_string()).collect();
        assert_eq!(split(t, ','), want, "parts of {t:?}");
        assert_eq!(trim(t), t.trim(), "trim of {t:?}");
        let want = t.split_once('=').map(|(a, b)| (a.to_string(), b.to_string()));
        assert_eq!(split_once(t, "="), want, "halves of {t:?}");
        assert_eq!(starts_with(t, "a"), t.starts_with('a'));
        assert_eq!(
            strip_prefix(t, "a"),
            t.strip_prefix('a').map(|x| x.to_string())
        );
        assert_eq!(contains(t, "b"), t.contains('b'));
        assert_eq!(to_upper(t), t.to_ascii_uppercase());
        assert_eq!(to_lower(t), t.to_ascii_lowercase());
        assert_eq!(is_blank(t), t.trim().is_empty());
    }
    assert_eq!(before("a // b", "//"), "a ");
    assert_eq!(after_last("a::b::c", "::"), "c");
}

#[test]
fn marks_are_found_where_they_stand() {
    let t = chars("aXbXXc");
    let x = chars("X");
    assert_eq!(find(&t, &x, 0), Some(1));
    assert_eq!(find(&t, &x, 2), Some(3));
    assert_eq!(find(&t, &x, 5), None);
    assert_eq!(find_all(&t, &x), vec![1, 3, 4]);
    assert_eq!(find_last(&t, &x), Some(4));
    assert_eq!(join("ab", "cd"), "abcd");
}

#[test]
fn numbers_are_read_like_the_standard_library_does() {
    for t in ["0", "7", "+7", "-7", "007", "", "+", "-", "1_0", "18446744073709551615", "18446744073709551616", "-9223372036854775808", "9223372036854775808"] {
        assert_eq!(parse_unsigned(t), t.parse::<u64>().ok(), "{t:?}");
        assert_eq!(parse_signed(t), t.parse::<i64>().ok(), "{t:?}");
    }
    assert_eq!(show_signed(-12), "-12");
    assert_eq!(show_signed(i64::MIN), i64::MIN.to_string());
    assert_eq!(show(0), "0");
    assert_eq!(show(1090), "1090");
}

#[test]
fn documents_are_read() {
    let doc = Json::parse(r#"{"a":[1.5,true,null,"x"],"b":{"c":"d"}}"#).unwrap();
    let list = doc.get("a").unwrap().as_list().unwrap();
    assert_eq!(
        list[0].as_number(),
        Some(Score {
            bits: 1.5f64.to_bits()
        })
    );
    assert_eq!(list[1].as_bool(), Some(true));
    assert_eq!(list[2], Json::Null);
    assert_eq!(list[3].as_text(), Some("x"));
    assert_eq!(doc.get("b").unwrap().get("c").unwrap().as_text(), Some("d"));
    assert!(doc.get("c").is_none());
    assert!(Json::parse("{").is_none());
}

#[test]
fn maps_keep_the_last_value_of_a_name() {
    let m: TextMap<String> = TextMap::new();
    assert!(m.is_empty());
    let m = m
        .insert("b".to_string(), "1".to_string())
        .insert("a".to_string(), "2".to_string())
        .insert("b".to_string(), "3".to_string());
    assert_eq!(m.names(), &vec!["a".to_string(), "b".to_string()]);
    assert_eq!(m.get("b").unwrap(), "3");
    assert!(m.has("a") && !m.has("c"));
    let (rest, taken) = m.take("a");
    assert_eq!(taken, Some("2".to_string()));
    assert!(!rest.has("a"));
}
