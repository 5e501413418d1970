use node_http::head::{
    header_end, header_lines, header_value, headers_object, incoming_raw_headers, parse_head,
    HeadReader, HeaderValue,
};

fn pair(name: &str, value: &str) -> (String, String) {
    (name.to_string(), value.to_string())
}

#[test]
fn header_end_finds_body_offset() {
    assert_eq!(header_end(b"GET / HTTP/1.1\r\n\r\nbody"), Some(18));
    assert_eq!(header_end(b"GET / HTTP/1.1\r\n"), None);
    assert_eq!(header_end(b""), None);
    assert_eq!(header_end(b"\r\n\r\n"), Some(4));
}

#[test]
fn header_end_takes_the_first_blank_line() {
    assert_eq!(header_end(b"a\r\n\r\nb\r\n\r\n"), Some(5));
    assert_eq!(header_end(b"\r\n\r\n\r\n"), Some(4));
}

#[test]
fn parse_head_splits_start_and_headers() {
    let (start, headers) = parse_head("GET /x HTTP/1.1\r\nHost:  example.com \r\nX-Empty:\r\n\r\n");
    assert_eq!(start, "GET /x HTTP/1.1");
    assert_eq!(headers, vec![pair("host", "example.com"), pair("x-empty", "")]);
}

#[test]
fn parse_head_skips_lines_without_colon() {
    let (start, headers) = parse_head("HTTP/1.1 200 OK\r\nbogus line\r\nA: b:c\r\n");
    assert_eq!(start, "HTTP/1.1 200 OK");
    assert_eq!(headers, vec![pair("a", "b:c")]);
}

#[test]
fn parse_head_trims_unicode_whitespace_and_lowers_ascii_only() {
    let (_, headers) = parse_head("x\r\n\u{3000}ÄB\u{a0}:\tv\u{2009}");
    assert_eq!(headers, vec![pair("Äb", "v")]);
}

#[test]
fn parse_head_of_empty_text() {
    let (start, headers) = parse_head("");
    assert_eq!(start, "");
    assert!(headers.is_empty());
}

#[test]
fn head_round_trip_on_values() {
    let headers = vec![pair("host", "a"), pair("content-type", "text/plain")];
    let mut text: String = "POST /p HTTP/1.1\r\n".to_string();
    text.push_str(&header_lines(&headers).iter().collect::<String>());
    text.push_str("\r\n");
    let (start, parsed) = parse_head(&text);
    assert_eq!(start, "POST /p HTTP/1.1");
    assert_eq!(parsed, headers);
}

#[test]
fn header_value_ignores_ascii_case() {
    let headers = vec![pair("content-type", "a"), pair("Content-Type", "b")];
    assert_eq!(header_value(&headers, "CONTENT-TYPE"), Some("a".to_string()));
    assert_eq!(header_value(&headers, "accept"), None);
}

#[test]
fn header_lines_writes_each_header() {
    let headers = vec![pair("a", "1"), pair("b", "2")];
    let text: String = header_lines(&headers).iter().collect();
    assert_eq!(text, "a: 1\r\nb: 2\r\n");
    assert!(header_lines(&[]).is_empty());
}

#[test]
fn raw_headers_alternate_names_and_values() {
    let headers = vec![pair("a", "1"), pair("b", "2")];
    assert_eq!(incoming_raw_headers(&headers), vec!["a", "1", "b", "2"]);
}

#[test]
fn headers_object_groups_repeated_names() {
    let headers = vec![pair("a", "1"), pair("b", "2"), pair("a", "3"), pair("c", "4")];
    let object = headers_object(&headers);
    assert_eq!(object.len(), 3);
    assert_eq!(object[0].0, "a");
    assert_eq!(object[0].1, HeaderValue::Many(vec!["1".to_string(), "3".to_string()]));
    assert_eq!(object[1], ("b".to_string(), HeaderValue::Single("2".to_string())));
    assert_eq!(object[2], ("c".to_string(), HeaderValue::Single("4".to_string())));
}

#[test]
fn head_reader_waits_for_whole_head() {
    let mut reader = HeadReader::new();
    reader.push(b"GET / HTTP/1.1\r\nHost: a");
    assert!(reader.take_head().is_none());
    reader.push(b"\r\n\r");
    assert!(reader.take_head().is_none());
    reader.push(b"\nxyz");
    let (start, headers, rest) = reader.take_head().unwrap();
    assert_eq!(start, "GET / HTTP/1.1");
    assert_eq!(headers, vec![pair("host", "a")]);
    assert_eq!(rest, b"xyz".to_vec());
    assert!(reader.take_head().is_none());
}

#[test]
fn head_reader_replaces_invalid_utf8() {
    let mut reader = HeadReader::new();
    reader.push(b"GET /\xff HTTP/1.1\r\n\r\n");
    let (start, headers, rest) = reader.take_head().unwrap();
    assert_eq!(start, "GET /\u{fffd} HTTP/1.1");
    assert!(headers.is_empty());
    assert!(rest.is_empty());
}
