use node_http::client_request::{client_ingest, ClientEvent};
use node_http::date::http_date;
use node_http::head::HeaderValue;
use node_http::outgoing::{
    outgoing_connected, outgoing_for_request, outgoing_for_response, outgoing_set_header,
    outgoing_write, HeaderInput,
};
use node_http::request::{parse_request_options, RequestOptions};
use node_http::server::{connection_new, server_ingest};
use node_http::server_response::write_head;

fn s(text: &str) -> String {
    text.to_string()
}

#[test]
fn request_written_by_a_client_is_read_by_the_server() {
    let mut options = RequestOptions::empty();
    options.method = Some(s("POST"));
    options.headers = Some(vec![(s("X-Token"), s("abc"))]);
    let plan = parse_request_options(&options, Some(s("http://example.org:8080/upload?x=1")));
    let mut client = outgoing_for_request(&plan);
    assert_eq!(outgoing_write(&mut client, "héllo".as_bytes(), 0), None);
    let (fd, bytes) = outgoing_connected(&mut client, Some(5), 0).unwrap();
    assert_eq!(fd, 5);
    let mut conn = connection_new();
    let (first, second) = bytes.split_at(10);
    assert!(server_ingest(&mut conn, first, Some(6)).is_none());
    let got = server_ingest(&mut conn, second, Some(6)).unwrap();
    assert_eq!(got.request.method, "POST");
    assert_eq!(got.request.url, "/upload?x=1");
    assert_eq!(got.request.http_version, "1.1");
    assert_eq!(
        got.request.raw_headers,
        vec!["x-token", "abc", "host", "example.org:8080", "connection", "close"]
    );
    assert_eq!(
        got.request.headers,
        vec![
            (s("x-token"), HeaderValue::Single(s("abc"))),
            (s("host"), HeaderValue::Single(s("example.org:8080"))),
            (s("connection"), HeaderValue::Single(s("close"))),
        ]
    );
    assert_eq!(got.rest, "héllo".as_bytes().to_vec());
}

#[test]
fn response_written_by_a_server_is_read_by_the_client() {
    let mut response = outgoing_for_response(&s("GET"), &s("/"), Some(4));
    outgoing_set_header(&mut response, s("Content-Type"), HeaderInput::Text(s("text/plain")));
    let (_, bytes) = write_head(404, Some(s("Not   Found")), None, &mut response, 86400).unwrap();
    let plan = parse_request_options(&RequestOptions::empty(), None);
    let mut client = outgoing_for_request(&plan);
    let mut stream = bytes.clone();
    stream.extend_from_slice(b"body");
    match client_ingest(&mut client, &stream) {
        ClientEvent::Response(m, rest) => {
            assert_eq!(m.status_code, Some(404));
            assert_eq!(m.status_message, "Not Found");
            assert_eq!(m.http_version, "1.1");
            assert_eq!(
                m.raw_headers,
                vec![s("content-type"), s("text/plain"), s("date"), http_date(86400)]
            );
            assert_eq!(rest, b"body".to_vec());
        },
        _ => panic!("expected a response"),
    }
}

#[test]
fn a_head_sent_byte_by_byte_is_taken_once_whole() {
    let head = b"GET / HTTP/1.1\r\nhost: a\r\n\r\n";
    let mut conn = connection_new();
    for (i, byte) in head.iter().enumerate() {
        let got = server_ingest(&mut conn, &[*byte], None);
        if i + 1 < head.len() {
            assert!(got.is_none());
        } else {
            let got = got.unwrap();
            assert_eq!(got.request.url, "/");
            assert!(got.rest.is_empty());
        }
    }
}
