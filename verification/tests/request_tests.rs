use node_http::http::{Node_HTTP_getOptsImpl, Node_HTTP_requestStrImpl, Node_HTTP_requestStrOptsImpl};
use node_http::https::Node_HTTPS_requestStrImpl;
use node_http::request::{parse_request_options, parser_from_url, RequestOptions};

fn pair(name: &str, value: &str) -> (String, String) {
    (name.to_string(), value.to_string())
}

#[test]
fn urls_split_into_host_port_path() {
    assert_eq!(
        parser_from_url("http://example.com:8080/a/b?q=1"),
        Some(("example.com".to_string(), 8080, "/a/b?q=1".to_string()))
    );
    assert_eq!(parser_from_url("https://host"), Some(("host".to_string(), 80, "/".to_string())));
    assert_eq!(parser_from_url("http://h:bad/x"), Some(("h".to_string(), 80, "/x".to_string())));
    assert_eq!(parser_from_url("http://h:+81"), Some(("h".to_string(), 81, "/".to_string())));
    assert_eq!(parser_from_url("http://[::1]:90/"), Some(("[::1]".to_string(), 90, "/".to_string())));
    assert_eq!(parser_from_url("ftp://x/"), None);
    assert_eq!(parser_from_url("HTTP://x/"), None);
}

#[test]
fn plan_defaults() {
    let plan = parse_request_options(&RequestOptions::empty(), None);
    assert_eq!(plan.host, "localhost");
    assert_eq!(plan.port, 80);
    assert_eq!(plan.path, "/");
    assert_eq!(plan.method, "GET");
    assert_eq!(plan.headers, vec![pair("host", "localhost"), pair("connection", "close")]);
}

#[test]
fn plan_from_url() {
    let plan = Node_HTTP_requestStrImpl(Some("http://example.com:8000/api".to_string()));
    assert_eq!(plan.host, "example.com");
    assert_eq!(plan.port, 8000);
    assert_eq!(plan.path, "/api");
    assert_eq!(plan.headers, vec![pair("host", "example.com:8000"), pair("connection", "close")]);
    let secure = Node_HTTPS_requestStrImpl(Some("https://example.com/".to_string()));
    assert_eq!(secure.port, 80);
    let unknown = Node_HTTP_requestStrImpl(Some("mailto:x".to_string()));
    assert_eq!(unknown.host, "localhost");
}

#[test]
fn options_win_over_url_for_host_and_port() {
    let mut options = RequestOptions::empty();
    options.hostname = Some("opt".to_string());
    options.port = Some(9000);
    options.path = Some("/ignored".to_string());
    options.method = Some("POST".to_string());
    options.headers = Some(vec![pair("Connection", "keep-alive"), pair("X-A", "1")]);
    let plan = Node_HTTP_requestStrOptsImpl(Some("http://u:1/p".to_string()), &options);
    assert_eq!(plan.host, "opt");
    assert_eq!(plan.port, 9000);
    assert_eq!(plan.path, "/p");
    assert_eq!(plan.method, "POST");
    assert_eq!(
        plan.headers,
        vec![pair("connection", "keep-alive"), pair("x-a", "1"), pair("host", "opt:9000")]
    );
}

#[test]
fn host_option_and_given_host_header() {
    let mut options = RequestOptions::empty();
    options.host = Some("h".to_string());
    options.headers = Some(vec![pair("HOST", "other")]);
    let plan = Node_HTTP_getOptsImpl(&options);
    assert_eq!(plan.host, "h");
    assert_eq!(plan.headers, vec![pair("host", "other"), pair("connection", "close")]);
}

#[test]
fn port_is_cut_to_sixteen_bits() {
    let mut options = RequestOptions::empty();
    options.port = Some(65616);
    let plan = parse_request_options(&options, None);
    assert_eq!(plan.port, 80);
    options.port = Some(-1);
    let plan = parse_request_options(&options, None);
    assert_eq!(plan.port, 65535);
}
