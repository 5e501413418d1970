use node_http::outgoing::write_step;
use node_http::date::http_date;
use node_http::outgoing::{
    outgoing_connected, outgoing_flush_head, outgoing_for_request, outgoing_for_response,
    outgoing_for_unsupported_request, outgoing_write, HeaderInput, OutgoingKind,
};
use node_http::outgoing_message::{
    Node_HTTP_OutgoingMessage_appendHeaderImpl, Node_HTTP_OutgoingMessage_appendHeadersImpl,
    Node_HTTP_OutgoingMessage_flushHeadersImpl, Node_HTTP_OutgoingMessage_getHeaderImpl,
    Node_HTTP_OutgoingMessage_getHeaderNamesImpl, Node_HTTP_OutgoingMessage_getHeadersImpl,
    Node_HTTP_OutgoingMessage_hasHeaderImpl, Node_HTTP_OutgoingMessage_headersSentImpl,
    Node_HTTP_OutgoingMessage_removeHeaderImpl, Node_HTTP_OutgoingMessage_setHeaderArrImpl,
    Node_HTTP_OutgoingMessage_setHeaderImpl,
};
use node_http::head::HeaderValue;
use node_http::request::{parse_request_options, RequestOptions};
use node_http::server_response::{
    Node_HTTP_ServerResponse_setSendDateImpl, Node_HTTP_ServerResponse_setStatusCodeImpl,
    Node_HTTP_ServerResponse_statusCodeImpl, Node_HTTP_ServerResponse_writeHeadMsgHeadersImpl,
    Node_HTTP_ServerResponse_writeHeadImpl,
};

fn s(text: &str) -> String {
    text.to_string()
}

fn response() -> node_http::outgoing::OutgoingState {
    outgoing_for_response(&s("GET"), &s("/"), Some(7))
}

#[test]
fn set_then_get_ignores_case() {
    let mut m = response();
    Node_HTTP_OutgoingMessage_setHeaderImpl(s("Content-Type"), HeaderInput::Text(s("text/html")), &mut m);
    assert_eq!(Node_HTTP_OutgoingMessage_getHeaderImpl(s("content-TYPE"), &m), Some(s("text/html")));
    assert!(Node_HTTP_OutgoingMessage_hasHeaderImpl(s("CONTENT-type"), &m));
    Node_HTTP_OutgoingMessage_setHeaderImpl(s("content-type"), HeaderInput::Text(s("a")), &mut m);
    assert_eq!(m.headers, vec![(s("content-type"), s("a"))]);
}

#[test]
fn set_array_joins_values() {
    let mut m = response();
    Node_HTTP_OutgoingMessage_setHeaderArrImpl(
        s("Set-Cookie"),
        HeaderInput::List(vec![s("a=1"), s("b=2")]),
        &mut m,
    );
    assert_eq!(Node_HTTP_OutgoingMessage_getHeaderImpl(s("set-cookie"), &m), Some(s("a=1, b=2")));
}

#[test]
fn append_adds_after_existing_values() {
    let mut m = response();
    Node_HTTP_OutgoingMessage_appendHeaderImpl(s("Vary"), s("a"), &mut m);
    assert_eq!(Node_HTTP_OutgoingMessage_getHeaderImpl(s("vary"), &m), Some(s("a")));
    Node_HTTP_OutgoingMessage_appendHeaderImpl(s("VARY"), s("b"), &mut m);
    Node_HTTP_OutgoingMessage_appendHeadersImpl(s("vary"), vec![s("c"), s("d")], &mut m);
    assert_eq!(Node_HTTP_OutgoingMessage_getHeaderImpl(s("vary"), &m), Some(s("a, b, c, d")));
}

#[test]
fn remove_drops_every_header_of_the_name() {
    let mut m = response();
    m.headers = vec![(s("a"), s("1")), (s("b"), s("2")), (s("a"), s("3"))];
    Node_HTTP_OutgoingMessage_removeHeaderImpl(s("A"), &mut m);
    assert_eq!(m.headers, vec![(s("b"), s("2"))]);
    assert_eq!(Node_HTTP_OutgoingMessage_getHeaderImpl(s("a"), &m), None);
    assert_eq!(Node_HTTP_OutgoingMessage_getHeaderNamesImpl(&m), vec![s("b")]);
    assert_eq!(
        Node_HTTP_OutgoingMessage_getHeadersImpl(&m),
        vec![(s("b"), HeaderValue::Single(s("2")))]
    );
}

#[test]
fn response_head_is_written_once() {
    let mut m = response();
    Node_HTTP_ServerResponse_setSendDateImpl(false, &mut m);
    Node_HTTP_OutgoingMessage_setHeaderImpl(s("X"), HeaderInput::Text(s("1")), &mut m);
    let (fd, bytes) = Node_HTTP_OutgoingMessage_flushHeadersImpl(&mut m, 0).unwrap();
    assert_eq!(fd, 7);
    assert_eq!(bytes, b"HTTP/1.1 200 OK\r\nx: 1\r\n\r\n".to_vec());
    assert!(Node_HTTP_OutgoingMessage_headersSentImpl(&m));
    assert_eq!(Node_HTTP_OutgoingMessage_flushHeadersImpl(&mut m, 0), None);
}

#[test]
fn response_head_carries_a_date_unless_given() {
    let mut m = response();
    let (_, bytes) = outgoing_flush_head(&mut m, 784111777).unwrap();
    let expected = format!("HTTP/1.1 200 OK\r\ndate: {}\r\n\r\n", http_date(784111777));
    assert_eq!(String::from_utf8(bytes).unwrap(), expected);

    let mut m = response();
    Node_HTTP_OutgoingMessage_setHeaderImpl(s("Date"), HeaderInput::Text(s("today")), &mut m);
    let (_, bytes) = outgoing_flush_head(&mut m, 0).unwrap();
    assert_eq!(bytes, b"HTTP/1.1 200 OK\r\ndate: today\r\n\r\n".to_vec());
}

#[test]
fn write_head_sets_status_and_headers() {
    let mut m = response();
    Node_HTTP_ServerResponse_setSendDateImpl(false, &mut m);
    let out = Node_HTTP_ServerResponse_writeHeadMsgHeadersImpl(
        404,
        s("Gone Away"),
        vec![(s("X-Y"), s("z")), (s("x-y"), s("w"))],
        &mut m,
        0,
    );
    let (_, bytes) = out.unwrap();
    assert_eq!(bytes, b"HTTP/1.1 404 Gone Away\r\nx-y: z\r\nx-y: w\r\n\r\n".to_vec());
    assert_eq!(Node_HTTP_ServerResponse_statusCodeImpl(&m), 404);
    assert_eq!(Node_HTTP_ServerResponse_writeHeadImpl(500, &mut m, 0), None);
    assert_eq!(Node_HTTP_ServerResponse_statusCodeImpl(&m), 500);
}

#[test]
fn negative_status_codes_are_written_as_given() {
    let mut m = response();
    Node_HTTP_ServerResponse_setSendDateImpl(false, &mut m);
    Node_HTTP_ServerResponse_setStatusCodeImpl(-3, &mut m);
    let (_, bytes) = outgoing_flush_head(&mut m, 0).unwrap();
    assert_eq!(bytes, b"HTTP/1.1 -3 OK\r\n\r\n".to_vec());
}

#[test]
fn request_body_waits_for_the_connection() {
    let plan = parse_request_options(&RequestOptions::empty(), Some(s("http://h/p")));
    let mut r = outgoing_for_request(&plan);
    assert!(r.kind == OutgoingKind::Request);
    assert_eq!(outgoing_write(&mut r, b"ab", 0), None);
    assert_eq!(outgoing_write(&mut r, b"\xffc", 0), None);
    assert_eq!(outgoing_flush_head(&mut r, 0), None);
    let (fd, bytes) = outgoing_connected(&mut r, Some(3), 0).unwrap();
    assert_eq!(fd, 3);
    assert_eq!(bytes, b"GET /p HTTP/1.1\r\nhost: h\r\nconnection: close\r\n\r\nab\xffc".to_vec());
    assert!(r.request_sent);
    assert_eq!(outgoing_write(&mut r, b"de", 0), Some((3, b"de".to_vec())));
}

#[test]
fn connection_without_descriptor_sends_nothing() {
    let plan = parse_request_options(&RequestOptions::empty(), None);
    let mut r = outgoing_for_request(&plan);
    assert_eq!(outgoing_connected(&mut r, None, 0), None);
    assert!(r.request_sent);
    assert!(!r.headers_sent);
}

#[test]
fn write_on_connected_message_sends_head_first() {
    let mut m = response();
    Node_HTTP_ServerResponse_setSendDateImpl(false, &mut m);
    let (fd, bytes) = outgoing_write(&mut m, b"hi", 0).unwrap();
    assert_eq!(fd, 7);
    assert_eq!(bytes, b"HTTP/1.1 200 OK\r\n\r\nhi".to_vec());
}

#[test]
fn unsupported_request_state() {
    let r = outgoing_for_unsupported_request();
    assert_eq!(r.protocol, "https:");
    assert_eq!(r.method, "GET");
    assert_eq!(r.path, "/");
    assert!(r.fd.is_none());
}

#[test]
fn buffered_body_is_sent_unchanged_in_write_order() {
    let plan = parse_request_options(&RequestOptions::empty(), Some(s("http://h/p")));
    let mut r = outgoing_for_request(&plan);
    assert_eq!(outgoing_write(&mut r, &[0xff], 0), None);
    assert_eq!(outgoing_write(&mut r, &[0x00, 0x41], 0), None);
    let (_, bytes) = outgoing_connected(&mut r, Some(3), 0).unwrap();
    let head = b"GET /p HTTP/1.1\r\nhost: h\r\nconnection: close\r\n\r\n";
    assert_eq!(&bytes[..head.len()], &head[..]);
    assert_eq!(&bytes[head.len()..], &[0xff, 0x00, 0x41][..]);
    assert_eq!(outgoing_write(&mut r, &[0xfe], 0), Some((3, vec![0xfe])));
    assert_eq!(outgoing_write(&mut r, b"z", 0), Some((3, b"z".to_vec())));
}

#[test]
fn write_step_advances_or_stops() {
    assert_eq!(write_step(0, 10, 4), Some(4));
    assert_eq!(write_step(4, 10, 6), Some(10));
    assert_eq!(write_step(4, 10, 0), None);
    assert_eq!(write_step(4, 10, -1), None);
}
