use node_http::client_request::{client_ingest, ClientEvent, Node_HTTP_ClientRequest_host, Node_HTTP_ClientRequest_path, Node_HTTP_ClientRequest_protocol};
use node_http::incoming::{
    Node_HTTP_IncomingMessage_headersDistinct, Node_HTTP_IncomingMessage_rawHeaders,
    Node_HTTP_IncomingMessage_statusCode, Node_HTTP_IncomingMessage_statusMessage,
    Node_HTTP_IncomingMessage_trailersDistinctImpl,
};
use node_http::outgoing::outgoing_for_request;
use node_http::request::{parse_request_options, RequestOptions};

#[test]
fn client_reads_a_response() {
    let plan = parse_request_options(&RequestOptions::empty(), Some("http://h:81/q".to_string()));
    let mut r = outgoing_for_request(&plan);
    assert_eq!(Node_HTTP_ClientRequest_host(&r), "h");
    assert_eq!(Node_HTTP_ClientRequest_path(&r), "/q");
    assert_eq!(Node_HTTP_ClientRequest_protocol(&r), "http:");
    assert!(matches!(client_ingest(&mut r, b"HTTP/1.1 404 Not"), ClientEvent::Waiting));
    match client_ingest(&mut r, b"  Found\r\nSet-Cookie: a\r\nset-cookie: b\r\n\r\nxy") {
        ClientEvent::Response(m, rest) => {
            assert_eq!(Node_HTTP_IncomingMessage_statusCode(&m), 404);
            assert_eq!(Node_HTTP_IncomingMessage_statusMessage(&m), "Not Found");
            assert_eq!(m.http_version, "1.1");
            assert_eq!(m.method, "");
            assert_eq!(rest, b"xy".to_vec());
            assert_eq!(
                Node_HTTP_IncomingMessage_headersDistinct(&m),
                vec![("set-cookie".to_string(), vec!["a".to_string(), "b".to_string()])]
            );
            assert_eq!(
                Node_HTTP_IncomingMessage_rawHeaders(&m),
                vec!["set-cookie", "a", "set-cookie", "b"]
            );
            assert!(Node_HTTP_IncomingMessage_trailersDistinctImpl(&m).is_none());
        },
        _ => panic!("expected a response"),
    }
    match client_ingest(&mut r, b"more") {
        ClientEvent::Body(b) => assert_eq!(b, b"more".to_vec()),
        _ => panic!("expected body bytes"),
    }
}

#[test]
fn client_status_defaults() {
    let plan = parse_request_options(&RequestOptions::empty(), None);
    let mut r = outgoing_for_request(&plan);
    match client_ingest(&mut r, b"ICY abc\r\n\r\n") {
        ClientEvent::Response(m, rest) => {
            assert_eq!(m.status_code, Some(0));
            assert_eq!(m.status_message, "");
            assert_eq!(m.http_version, "1.1");
            assert!(rest.is_empty());
        },
        _ => panic!("expected a response"),
    }
}
