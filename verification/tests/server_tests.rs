use node_http::head::HeaderValue;
use node_http::http::Node_HTTP_maxHeaderSize;
use node_http::server::{
    connection_new, http_server_state_new, server_add_connection, server_ingest,
    Node_HTTP_Server_bytesParsed, Node_HTTP_Server_closeAllConnectionsImpl,
    Node_HTTP_Server_closeIdleConnectionsImpl, Node_HTTP_Server_headersTimeoutImpl,
    Node_HTTP_Server_keepAliveTimeoutImpl, Node_HTTP_Server_maxHeadersCountImpl,
    Node_HTTP_Server_maxRequestsPerSocketImpl, Node_HTTP_Server_rawPacket,
    Node_HTTP_Server_requestTimeoutImpl, Node_HTTP_Server_setHeadersTimeoutImpl,
    Node_HTTP_Server_setKeepAliveTimeoutImpl, Node_HTTP_Server_timeoutImpl,
};

#[test]
fn server_reads_a_request_in_pieces() {
    let mut conn = connection_new();
    assert!(server_ingest(&mut conn, b"POST /up", Some(9)).is_none());
    let got = server_ingest(&mut conn, b"load HTTP/1.0\r\nA: 1\r\na: 2\r\n\r\nbody", Some(9)).unwrap();
    assert_eq!(got.request.method, "POST");
    assert_eq!(got.request.url, "/upload");
    assert_eq!(got.request.http_version, "1.0");
    assert_eq!(got.request.status_code, None);
    assert_eq!(got.request.raw_headers, vec!["a", "1", "a", "2"]);
    assert_eq!(
        got.request.headers,
        vec![("a".to_string(), HeaderValue::Many(vec!["1".to_string(), "2".to_string()]))]
    );
    assert_eq!(got.rest, b"body".to_vec());
    assert!(!got.upgrade);
    let response = got.response.unwrap();
    assert_eq!(response.status_code, 200);
    assert_eq!(response.status_message, "OK");
    assert_eq!(response.fd, Some(9));
    assert_eq!(response.path, "/upload");
    assert!(response.send_date);
}

#[test]
fn server_defaults_for_a_short_request_line() {
    let mut conn = connection_new();
    let got = server_ingest(&mut conn, b"\r\n\r\n", None).unwrap();
    assert_eq!(got.request.method, "GET");
    assert_eq!(got.request.url, "/");
    assert_eq!(got.request.http_version, "1.1");
    let got = server_ingest(&mut conn, b"X / FTP/2\r\n\r\n", None).unwrap();
    assert_eq!(got.request.http_version, "1.1");
}

#[test]
fn upgrade_requests_get_no_response() {
    let mut conn = connection_new();
    let got = server_ingest(
        &mut conn,
        b"GET /ws HTTP/1.1\r\nConnection: keep-alive, Upgrade\r\nUpgrade: websocket\r\n\r\n",
        Some(1),
    )
    .unwrap();
    assert!(got.upgrade);
    assert!(got.response.is_none());
}

#[test]
fn closing_hands_back_every_connection() {
    let mut server = http_server_state_new();
    server_add_connection(&mut server, 4);
    server_add_connection(&mut server, 8);
    assert_eq!(Node_HTTP_Server_closeAllConnectionsImpl(&mut server), vec![4, 8]);
    assert!(server.close_connections);
    assert_eq!(Node_HTTP_Server_closeIdleConnectionsImpl(&mut server), vec![4, 8]);
}

#[test]
fn server_settings_keep_their_defaults() {
    let mut server = http_server_state_new();
    Node_HTTP_Server_setHeadersTimeoutImpl(1, &mut server);
    Node_HTTP_Server_setKeepAliveTimeoutImpl(1, &mut server);
    assert_eq!(Node_HTTP_Server_headersTimeoutImpl(&server), 60000);
    assert_eq!(Node_HTTP_Server_keepAliveTimeoutImpl(&server), 5000);
    assert_eq!(Node_HTTP_Server_maxHeadersCountImpl(&server), 2000);
    assert_eq!(Node_HTTP_Server_requestTimeoutImpl(&server), 300000);
    assert_eq!(Node_HTTP_Server_maxRequestsPerSocketImpl(&server), 0);
    assert_eq!(Node_HTTP_Server_timeoutImpl(&server), 0);
    assert_eq!(Node_HTTP_Server_bytesParsed(), 0);
    assert!(Node_HTTP_Server_rawPacket().is_empty());
    assert_eq!(Node_HTTP_maxHeaderSize(), 16384);
    assert!(server.connections.is_empty());
}
