use node_http::text::{
    ascii_lowercase, chars_of, fmt_i64, fmt_pad2, fmt_u64, parse_i64_chars, parse_u16_chars,
    split_lines, split_words, string_of, trim_chars,
};

fn cs(s: &str) -> Vec<char> {
    s.chars().collect()
}

fn texts(v: Vec<Vec<char>>) -> Vec<String> {
    v.into_iter().map(|w| w.into_iter().collect()).collect()
}

#[test]
fn chars_and_strings_round_trip() {
    assert_eq!(chars_of("aé€"), vec!['a', 'é', '€']);
    assert_eq!(string_of(&['a', 'é', '€']), "aé€");
}

#[test]
fn lowercase_touches_ascii_only() {
    assert_eq!(ascii_lowercase("Content-TYPE Ä"), "content-type Ä");
}

#[test]
fn trim_matches_str_trim() {
    for s in ["  a b  ", "\t\r\n", "", "x", "\u{2028}y\u{205f}"] {
        let t: String = trim_chars(&cs(s)).into_iter().collect();
        assert_eq!(t, s.trim());
    }
}

#[test]
fn split_lines_matches_str_split() {
    for s in ["a\r\nb", "\r\n", "", "a\r\r\nb\n", "\r\n\r\n"] {
        let expected: Vec<String> = s.split("\r\n").map(|x| x.to_string()).collect();
        assert_eq!(texts(split_lines(&cs(s))), expected);
    }
}

#[test]
fn split_words_matches_split_whitespace() {
    for s in ["HTTP/1.1 404  Not Found ", "", "   ", "a", " a\tb\u{3000}c"] {
        let expected: Vec<String> = s.split_whitespace().map(|x| x.to_string()).collect();
        assert_eq!(texts(split_words(&cs(s))), expected);
    }
}

#[test]
fn parse_u16_matches_from_str() {
    for s in ["80", "+81", "65535", "65536", "", "+", "-1", "8a", "007", "99999999999999999999"] {
        assert_eq!(parse_u16_chars(&cs(s)), s.parse::<u16>().ok(), "{}", s);
    }
}

#[test]
fn parse_i64_matches_from_str() {
    for s in [
        "200",
        "-5",
        "+7",
        "-",
        "+",
        "",
        "9223372036854775807",
        "9223372036854775808",
        "-9223372036854775808",
        "-9223372036854775809",
        "1x",
    ] {
        assert_eq!(parse_i64_chars(&cs(s)), s.parse::<i64>().ok(), "{}", s);
    }
}

#[test]
fn decimal_writing() {
    let text = |v: Vec<char>| v.into_iter().collect::<String>();
    assert_eq!(text(fmt_u64(0)), "0");
    assert_eq!(text(fmt_u64(u64::MAX)), u64::MAX.to_string());
    assert_eq!(text(fmt_i64(i64::MIN)), i64::MIN.to_string());
    assert_eq!(text(fmt_i64(-42)), "-42");
    assert_eq!(text(fmt_pad2(7)), "07");
    assert_eq!(text(fmt_pad2(59)), "59");
}
