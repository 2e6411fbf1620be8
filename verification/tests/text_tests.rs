use sst::text::{chars_of, is_whitespace, parse_usize, split_whitespace};

fn std_words(s: &str) -> Vec<String> {
    s.split_whitespace().map(|w| w.to_string()).collect()
}

#[test]
fn split_whitespace_vertex_line() {
    assert_eq!(split_whitespace("v 1.5  2.5\t3"), vec!["v", "1.5", "2.5", "3"]);
}

#[test]
fn split_whitespace_blank_lines() {
    assert!(split_whitespace("").is_empty());
    assert!(split_whitespace("   \t \n").is_empty());
}

#[test]
fn split_whitespace_matches_std() {
    let cases = [
        "",
        " ",
        "a",
        "  lead and trail  ",
        "x 1 0",
        "n\u{a0}12",
        "ideographic\u{3000}space",
        "zero\u{200b}width",
        "next\u{85}line",
        "para\u{2029}graph\u{2028}line",
        "en\u{2002}em\u{2003}thin\u{2009}hair\u{200a}",
        "ogham\u{1680}mark",
        "narrow\u{202f}nbsp\u{205f}math",
        "tabs\t\tand\r\nnewlines\u{b}\u{c}",
        "übung ñ 北京",
    ];
    for c in cases.iter() {
        assert_eq!(split_whitespace(c), std_words(c), "on {:?}", c);
    }
}

#[test]
fn is_whitespace_matches_std_everywhere() {
    for n in 0u32..0x11_0000 {
        if let Some(c) = char::from_u32(n) {
            assert_eq!(is_whitespace(c), c.is_whitespace(), "on U+{:04X}", n);
        }
    }
}

#[test]
fn chars_of_keeps_all_characters() {
    assert_eq!(chars_of("a é\t北"), vec!['a', ' ', 'é', '\t', '北']);
    assert!(chars_of("").is_empty());
}

#[test]
fn parse_usize_plain_numbers() {
    assert_eq!(parse_usize("0"), Some(0));
    assert_eq!(parse_usize("42"), Some(42));
    assert_eq!(parse_usize("007"), Some(7));
    assert_eq!(parse_usize("+7"), Some(7));
}

#[test]
fn parse_usize_rejects() {
    assert_eq!(parse_usize(""), None);
    assert_eq!(parse_usize("+"), None);
    assert_eq!(parse_usize("-"), None);
    assert_eq!(parse_usize("-1"), None);
    assert_eq!(parse_usize("++1"), None);
    assert_eq!(parse_usize("1a"), None);
    assert_eq!(parse_usize(" 1"), None);
    assert_eq!(parse_usize("1.0"), None);
    assert_eq!(parse_usize("\u{663}"), None);
}

#[test]
fn parse_usize_limits() {
    let max = usize::MAX.to_string();
    assert_eq!(parse_usize(&max), Some(usize::MAX));
    let over = format!("{}0", max);
    assert_eq!(parse_usize(&over), None);
    let plus_one = (usize::MAX as u128 + 1).to_string();
    assert_eq!(parse_usize(&plus_one), None);
}

#[test]
fn parse_usize_matches_std() {
    let cases = [
        "", "0", "+0", "-0", "12", "+12", "-12", "1_000", "99999999999999999999999", "0x10", "1e3",
        "+-1", "9 ", "\u{ff11}",
    ];
    for c in cases.iter() {
        assert_eq!(parse_usize(c), c.parse::<usize>().ok(), "on {:?}", c);
    }
}

#[test]
fn words_hold_exactly_the_non_whitespace_characters() {
    let s = " v\t1.5\u{a0} 2.5  3 ";
    let ws = split_whitespace(s);
    for w in ws.iter() {
        assert!(!w.is_empty());
        assert!(!w.chars().any(|c| c.is_whitespace()));
    }
    let joined: String = ws.concat();
    let kept: String = s.chars().filter(|c| !c.is_whitespace()).collect();
    assert_eq!(joined, kept);
}
