use kminimize::names::{
    difference, intersection, order_texts, union, NameMap, NameSet, Order,
};
use kminimize::number::{parse_i64, parse_int, parse_u32, parse_u64, to_decimal};
use kminimize::reach::{reach, relate};
use kminimize::split::{
    contains_part, find_char, find_space, split, split_at_most, split_lines, split_once,
    split_words, strings_of, text_before,
};
use kminimize::text::{
    chars_of, ends_with, is_white_space, is_word, same_chars, same_text, starts_with, string_of,
    strip_prefix, strip_prefixes, strip_suffix, strip_suffixes, trim, trim_char, trim_end,
    trim_start,
};

fn chars(s: &str) -> Vec<char> {
    s.chars().collect()
}

fn text(s: &[char]) -> String {
    s.iter().collect()
}

fn parts(v: &[&[char]]) -> Vec<String> {
    v.iter().map(|s| s.iter().collect()).collect()
}

#[test]
fn white_space_is_that_of_the_standard_library() {
    for n in 0..=0x10ffffu32 {
        if let Some(c) = char::from_u32(n) {
            assert_eq!(is_white_space(c), c.is_whitespace(), "{n:x}");
        }
    }
}

#[test]
fn characters_and_strings() {
    for s in ["", "a", "grün", "日本\n"] {
        assert_eq!(chars_of(s), chars(s));
        assert_eq!(string_of(&chars(s)), s);
    }
    assert!(same_chars(&chars("ab"), &chars("ab")));
    assert!(!same_chars(&chars("ab"), &chars("ac")));
    assert!(!same_chars(&chars("ab"), &chars("abc")));
    assert!(same_text("é", "é") && !same_text("é", "e"));
    assert!(is_word(&chars("if"), "if") && !is_word(&chars("iff"), "if"));
}

#[test]
fn trimming_and_stripping() {
    for s in ["", "  a b \t", "\u{a0}x\u{2003}", "x", " \n "] {
        let c = chars(s);
        assert_eq!(text(trim(&c)), s.trim());
        assert_eq!(text(trim_start(&c)), s.trim_start());
        assert_eq!(text(trim_end(&c)), s.trim_end());
    }
    assert_eq!(text(trim_char(&chars("\"\"a\"b\""), '"')), "a\"b");
    assert_eq!(strip_prefix(&chars("CONFIG_X"), "CONFIG_").map(text), Some("X".to_owned()));
    assert_eq!(strip_prefix(&chars("CONF"), "CONFIG_").map(text), None);
    assert_eq!(text(strip_prefixes(&chars("abab-ab"), "ab")), "-ab");
    assert_eq!(strip_suffix(&chars("x.o"), ".o").map(text), Some("x".to_owned()));
    assert_eq!(strip_suffix(&chars("o"), ".o").map(text), None);
    assert_eq!(text(strip_suffixes(&chars("v1^{}^{}"), "^{}")), "v1");
    assert!(starts_with(&chars("abc"), "ab") && !starts_with(&chars("a"), "ab"));
    assert!(ends_with(&chars("abc"), "bc") && !ends_with(&chars("c"), "bc"));
}

#[test]
fn splitting_agrees_with_the_standard_library() {
    for s in ["", "a", "a,b", ",a,,b,", "é,ü"] {
        let c = chars(s);
        assert_eq!(parts(&split(&c, ',')), s.split(',').collect::<Vec<_>>());
        for n in 1..5 {
            assert_eq!(parts(&split_at_most(&c, ',', n)), s.splitn(n, ',').collect::<Vec<_>>());
        }
        assert_eq!(
            split_once(&c, ',').map(|(a, b)| (text(a), text(b))),
            s.split_once(',').map(|(a, b)| (a.to_owned(), b.to_owned()))
        );
    }
    for s in ["", "a", "a\n", "a\nb", "\n\n", "a\r\nb\r", "\r\n", "a\n\nb\n"] {
        assert_eq!(parts(&split_lines(&chars(s))), s.lines().collect::<Vec<_>>(), "{s:?}");
    }
    for s in ["", " ", "a", " a  b\tc ", "\u{3000}x\u{85}y"] {
        assert_eq!(parts(&split_words(&chars(s))), s.split_whitespace().collect::<Vec<_>>());
    }
    assert_eq!(strings_of(&split(&chars("x y"), ' ')), vec!["x", "y"]);
    assert_eq!(find_char(&chars("a=b=c"), '=', 2), 3);
    assert_eq!(find_char(&chars("abc"), '=', 1), 3);
    assert_eq!(find_space(&chars("ab c"), 0), 2);
}

#[test]
fn parts_of_texts() {
    assert!(contains_part(&chars("0x0 (OE)"), &chars("(OE)")));
    assert!(!contains_part(&chars("0x0 (O)"), &chars("(OE)")));
    assert!(contains_part(&chars("aab"), &chars("ab")));
    assert_eq!(text(text_before(&chars("a is ready b is ready"), &chars(" is ready"))), "a");
    assert_eq!(text(text_before(&chars("nothing"), &chars(" is ready"))), "nothing");
}

#[test]
fn numbers_agree_with_the_standard_library() {
    for s in [
        "0", "1", "+1", "-1", "", "+", "-", "42", "4294967295", "4294967296",
        "18446744073709551615", "18446744073709551616", "007", "1a", " 1", "٣",
    ] {
        assert_eq!(parse_u64(&chars(s)), s.parse::<u64>().ok(), "{s}");
        assert_eq!(parse_u32(&chars(s)), s.parse::<u32>().ok(), "{s}");
        assert_eq!(parse_i64(&chars(s), 10), s.parse::<i64>().ok(), "{s}");
        assert_eq!(parse_i64(&chars(s), 16), i64::from_str_radix(s, 16).ok(), "{s}");
    }
    for s in ["9223372036854775807", "9223372036854775808", "-9223372036854775808", "-9223372036854775809"] {
        assert_eq!(parse_i64(&chars(s), 10), s.parse::<i64>().ok(), "{s}");
    }
    assert_eq!(parse_int("0x1F"), Some(31));
    assert_eq!(parse_int("0X-f"), Some(-15));
    assert_eq!(parse_int("-0x1"), None);
    assert_eq!(parse_int("12"), Some(12));
    assert_eq!(parse_int("0x"), None);
    for n in [0u128, 9, 10, 99, 100, 12345, u128::MAX] {
        assert_eq!(to_decimal(n), n.to_string());
    }
}

#[test]
fn the_order_of_texts_is_that_of_the_standard_library() {
    let all = ["", "a", "ab", "b", "A", "é", "z", "日", "\u{10000}", "\u{ffff}", "a-b", "a/b"];
    for a in all {
        for b in all {
            let want = if a < b {
                Order::Less
            } else if a == b {
                Order::Equal
            } else {
                Order::Greater
            };
            assert_eq!(order_texts(a, b), want, "{a} {b}");
        }
    }
}

fn set(list: &[&str]) -> NameSet {
    let mut s = NameSet::new();
    for n in list {
        s.insert((*n).to_owned());
    }
    s
}

#[test]
fn sets() {
    let mut s = NameSet::new();
    assert!(s.is_empty());
    assert!(s.insert("b".to_owned()));
    assert!(s.insert("a".to_owned()));
    assert!(!s.insert("b".to_owned()));
    assert_eq!(s.len(), 2);
    assert_eq!(s.to_vec(), vec!["a", "b"]);
    assert_eq!(s.get(1), "b");
    assert!(s.contains("a") && !s.contains("c"));
    assert!(s.remove("a") && !s.remove("a"));
    let copy = s.clone();
    s.insert_all(&set(&["x", "b"]));
    assert_eq!(s.to_vec(), vec!["b", "x"]);
    assert_eq!(copy.to_vec(), vec!["b"]);
    assert_eq!(difference(&set(&["a", "b"]), &set(&["b", "c"])).to_vec(), vec!["a"]);
    assert_eq!(intersection(&set(&["a", "b"]), &set(&["b", "c"])).to_vec(), vec!["b"]);
    assert_eq!(union(&set(&["a", "b"]), &set(&["b", "c"])).to_vec(), vec!["a", "b", "c"]);
}

#[test]
fn maps() {
    let mut m: NameMap<u8> = NameMap::new();
    assert!(m.is_empty());
    m.insert("b".to_owned(), 1);
    m.insert("a".to_owned(), 2);
    m.insert("b".to_owned(), 3);
    assert_eq!(m.len(), 2);
    assert_eq!((m.key_at(0).as_str(), *m.value_at(0)), ("a", 2));
    assert_eq!((m.key_at(1).as_str(), *m.value_at(1)), ("b", 3));
    assert_eq!(m.get("b"), Some(&3));
    assert_eq!(m.get("c"), None);
    assert!(m.contains_key("a"));
    assert_eq!(m.remove("a"), Some(2));
    assert_eq!(m.remove("a"), None);
    assert_eq!(m.len(), 1);
}

#[test]
fn reaching() {
    let mut map = NameMap::new();
    relate(&mut map, "a", "b");
    relate(&mut map, "b", "c");
    relate(&mut map, "c", "a");
    relate(&mut map, "x", "y");
    assert_eq!(reach(&map, &set(&["b"])).to_vec(), vec!["a", "b", "c"]);
    assert_eq!(reach(&map, &set(&["y", "z"])).to_vec(), vec!["y", "z"]);
    assert!(reach(&map, &NameSet::new()).is_empty());
}
