//! Client requests: where a request goes and what it sends first, planned
//! from the caller's options and an optional `http://` or `https://` URL.
use vstd::prelude::*;

use crate::head::{pairs_view, HeaderText};
use crate::text::{
    ascii_lowercase, chars_of, decimal, find, find_char, fmt_u64, lower, parse_u16,
    parse_u16_chars, rfind, rfind_char, slice_of, starts_with, string_of,
};

verus! {

/// The request options that Node's `http.request` reads, as plain values.
/// A field is `None` where the caller gave no such option.
pub struct RequestOptions {
    pub hostname: Option<String>,
    pub host: Option<String>,
    pub port: Option<i64>,
    pub method: Option<String>,
    pub path: Option<String>,
    pub headers: Option<Vec<(String, String)>>,
}

/// The text that an optional string holds.
pub open spec fn opt_text(o: Option<String>) -> Option<Seq<char>> {
    match o {
        Some(s) => Some(s@),
        None => None,
    }
}

/// Request options as plain text.
pub struct OptionsView {
    pub hostname: Option<Seq<char>>,
    pub host: Option<Seq<char>>,
    pub port: Option<i64>,
    pub method: Option<Seq<char>>,
    pub path: Option<Seq<char>>,
    pub headers: Option<Seq<HeaderText>>,
}

impl View for RequestOptions {
    type V = OptionsView;

    open spec fn view(&self) -> OptionsView {
        OptionsView {
            hostname: opt_text(self.hostname),
            host: opt_text(self.host),
            port: self.port,
            method: opt_text(self.method),
            path: opt_text(self.path),
            headers: match self.headers {
                Some(h) => Some(pairs_view(h@)),
                None => None,
            },
        }
    }
}

impl RequestOptions {
    /// No options at all.
    pub fn empty() -> (r: RequestOptions)
        ensures
            r@ == (OptionsView {
                hostname: None,
                host: None,
                port: None,
                method: None,
                path: None,
                headers: None,
            }),
    {
        RequestOptions { hostname: None, host: None, port: None, method: None, path: None, headers: None }
    }
}

/// Where a request goes and what it sends first.
pub struct RequestPlan {
    pub host: String,
    pub port: u16,
    pub path: String,
    pub method: String,
    pub headers: Vec<(String, String)>,
}

/// A request plan as plain text.
pub struct PlanView {
    pub host: Seq<char>,
    pub port: u16,
    pub path: Seq<char>,
    pub method: Seq<char>,
    pub headers: Seq<HeaderText>,
}

impl View for RequestPlan {
    type V = PlanView;

    open spec fn view(&self) -> PlanView {
        PlanView {
            host: self.host@,
            port: self.port,
            path: self.path@,
            method: self.method@,
            headers: pairs_view(self.headers@),
        }
    }
}

pub open spec fn http_scheme() -> Seq<char> {
    seq!['h', 't', 't', 'p', ':', '/', '/']
}

pub open spec fn https_scheme() -> Seq<char> {
    seq!['h', 't', 't', 'p', 's', ':', '/', '/']
}

/// What follows the scheme of an `http://` or `https://` URL.
pub open spec fn after_scheme(url: Seq<char>) -> Option<Seq<char>> {
    if url.len() >= 7 && url.take(7) == http_scheme() {
        Some(url.skip(7))
    } else if url.len() >= 8 && url.take(8) == https_scheme() {
        Some(url.skip(8))
    } else {
        None
    }
}

/// The host, port and path of an `http://` or `https://` URL: the path starts
/// at the first `/` after the scheme (`/` when there is none); the port
/// follows the last `:` of what comes before, and is 80 when absent or not a
/// valid port number.
pub open spec fn url_target(url: Seq<char>) -> Option<(Seq<char>, u16, Seq<char>)> {
    match after_scheme(url) {
        Some(rest) => {
            let authority = match find_char(rest, '/') {
                Some(i) => rest.take(i),
                None => rest,
            };
            let path = match find_char(rest, '/') {
                Some(i) => rest.skip(i),
                None => seq!['/'],
            };
            match rfind_char(authority, ':') {
                Some(k) => Some(
                    (
                        authority.take(k),
                        match parse_u16(authority.skip(k + 1)) {
                            Some(p) => p,
                            None => 80u16,
                        },
                        path,
                    ),
                ),
                None => Some((authority, 80u16, path)),
            }
        },
        None => None,
    }
}

/// Splits an `http://` or `https://` URL into host, port and path.
pub fn parser_from_url(url: &str) -> (r: Option<(String, u16, String)>)
    ensures
        r matches Some(t) ==> url_target(url@) == Some((t.0@, t.1, t.2@)),
        r is None ==> url_target(url@) is None,
{
    let cs = chars_of(url);
    let http = vec!['h', 't', 't', 'p', ':', '/', '/'];
    let https = vec!['h', 't', 't', 'p', 's', ':', '/', '/'];
    assert(http@ =~= http_scheme());
    assert(https@ =~= https_scheme());
    let n = cs.len();
    let rest = if starts_with(cs.as_slice(), http.as_slice()) {
        slice_of(cs.as_slice(), 7, n)
    } else if starts_with(cs.as_slice(), https.as_slice()) {
        slice_of(cs.as_slice(), 8, n)
    } else {
        return None;
    };
    assert(after_scheme(url@) == Some(rest@));
    let rn = rest.len();
    let (authority, path) = match find(rest.as_slice(), '/') {
        Some(i) => (slice_of(rest.as_slice(), 0, i), slice_of(rest.as_slice(), i, rn)),
        None => (slice_of(rest.as_slice(), 0, rn), vec!['/']),
    };
    proof {
        match find_char(rest@, '/') {
            Some(i) => {
                assert(authority@ =~= rest@.take(i));
                assert(path@ =~= rest@.skip(i));
            },
            None => {
                assert(authority@ =~= rest@);
                assert(path@ =~= seq!['/']);
            },
        }
    }
    let an = authority.len();
    match rfind(authority.as_slice(), ':') {
        Some(k) => {
            let host = slice_of(authority.as_slice(), 0, k);
            let port_text = slice_of(authority.as_slice(), k + 1, an);
            assert(host@ =~= authority@.take(k as int));
            assert(port_text@ =~= authority@.skip(k + 1));
            let port = match parse_u16_chars(port_text.as_slice()) {
                Some(p) => p,
                None => 80,
            };
            Some((string_of(host.as_slice()), port, string_of(path.as_slice())))
        },
        None => Some((string_of(authority.as_slice()), 80, string_of(path.as_slice()))),
    }
}

/// Whether some header is named exactly `name`.
pub open spec fn has_header(hs: Seq<HeaderText>, name: Seq<char>) -> bool {
    exists|i: int| 0 <= i < hs.len() && #[trigger] hs[i].0 == name
}

/// The names lowered to ASCII lower case, values kept.
pub open spec fn lower_names(hs: Seq<HeaderText>) -> Seq<HeaderText> {
    hs.map_values(|h: HeaderText| (lower(h.0), h.1))
}

pub open spec fn host_name() -> Seq<char> {
    seq!['h', 'o', 's', 't']
}

pub open spec fn connection_name() -> Seq<char> {
    seq!['c', 'o', 'n', 'n', 'e', 'c', 't', 'i', 'o', 'n']
}

pub open spec fn close_text() -> Seq<char> {
    seq!['c', 'l', 'o', 's', 'e']
}

/// The `Host` header's value: the host, and the port after a `:` unless it
/// is 80.
pub open spec fn host_header(host: Seq<char>, port: u16) -> Seq<char> {
    if port == 80 {
        host
    } else {
        host + seq![':'] + decimal(port as nat)
    }
}

/// The request headers: those of the options, names in lower case, then a
/// `host` header and a `connection: close` header where none was given.
pub open spec fn plan_headers(given: Seq<HeaderText>, host: Seq<char>, port: u16) -> Seq<
    HeaderText,
> {
    let with_host = if has_header(given, host_name()) {
        given
    } else {
        given.push((host_name(), host_header(host, port)))
    };
    if has_header(with_host, connection_name()) {
        with_host
    } else {
        with_host.push((connection_name(), close_text()))
    }
}

/// The request plan of options and an optional URL. Options give host
/// (`hostname`, else `host`, else `localhost`), port (else 80, cut to 16
/// bits), method (else `GET`) and path (else `/`); a URL of the `http` or
/// `https` scheme gives the path, and the host and port where the options
/// do not.
pub open spec fn plan_of(o: OptionsView, url: Option<Seq<char>>) -> PlanView {
    let host0 = match o.hostname {
        Some(h) => h,
        None => match o.host {
            Some(h) => h,
            None => seq!['l', 'o', 'c', 'a', 'l', 'h', 'o', 's', 't'],
        },
    };
    let port0: u16 = match o.port {
        Some(p) => p as u16,
        None => 80u16,
    };
    let method = match o.method {
        Some(m) => m,
        None => seq!['G', 'E', 'T'],
    };
    let path0 = match o.path {
        Some(p) => p,
        None => seq!['/'],
    };
    let target = match url {
        Some(u) => url_target(u),
        None => None,
    };
    let host = match target {
        Some(t) => if o.hostname is None && o.host is None {
            t.0
        } else {
            host0
        },
        None => host0,
    };
    let port = match target {
        Some(t) => if o.port is None {
            t.1
        } else {
            port0
        },
        None => port0,
    };
    let path = match target {
        Some(t) => t.2,
        None => path0,
    };
    let given = match o.headers {
        Some(h) => lower_names(h),
        None => Seq::empty(),
    };
    PlanView { host, port, path, method, headers: plan_headers(given, host, port) }
}

fn text_of(cs: Vec<char>) -> (r: String)
    ensures
        r@ == cs@,
{
    string_of(cs.as_slice())
}

fn has_header_named(hs: &Vec<(String, String)>, name: &String) -> (r: bool)
    ensures
        r == has_header(pairs_view(hs@), name@),
{
    let mut i: usize = 0;
    while i < hs.len()
        invariant
            i <= hs@.len(),
            forall|j: int| 0 <= j < i ==> (#[trigger] pairs_view(hs@)[j]).0 != name@,
        decreases hs@.len() - i,
    {
        if hs[i].0 == *name {
            assert(pairs_view(hs@)[i as int].0 == name@);
            return true;
        }
        i = i + 1;
    }
    false
}

/// The host, port and path that a request goes to, in the plan's terms.
pub open spec fn plan_target(o: OptionsView, url: Option<Seq<char>>) -> (Seq<char>, u16, Seq<char>) {
    let p = plan_of(o, url);
    (p.host, p.port, p.path)
}

/// The given headers, names in lower case.
pub open spec fn given_headers(o: OptionsView) -> Seq<HeaderText> {
    match o.headers {
        Some(h) => lower_names(h),
        None => Seq::empty(),
    }
}

fn target_of(options: &RequestOptions, url: Option<String>) -> (r: (String, u16, String))
    ensures
        (r.0@, r.1, r.2@) == plan_target(options@, opt_text(url)),
{
    let mut host = match &options.hostname {
        Some(h) => h.clone(),
        None => match &options.host {
            Some(h) => h.clone(),
            None => text_of(vec!['l', 'o', 'c', 'a', 'l', 'h', 'o', 's', 't']),
        },
    };
    let mut port: u16 = match options.port {
        Some(p) => #[verifier::truncate] (p as u16),
        None => 80,
    };
    let mut path = match &options.path {
        Some(p) => p.clone(),
        None => text_of(vec!['/']),
    };
    match url {
        Some(u) => {
            match parser_from_url(u.as_str()) {
                Some((url_host, url_port, url_path)) => {
                    if options.hostname.is_none() && options.host.is_none() {
                        host = url_host;
                    }
                    if options.port.is_none() {
                        port = url_port;
                    }
                    path = url_path;
                },
                None => {},
            }
        },
        None => {},
    }
    (host, port, path)
}

fn headers_of(options: &RequestOptions, host: &String, port: u16) -> (r: Vec<(String, String)>)
    ensures
        pairs_view(r@) == plan_headers(given_headers(options@), host@, port),
{
    let mut headers: Vec<(String, String)> = Vec::new();
    let ghost given = given_headers(options@);
    match &options.headers {
        Some(hs) => {
            let mut i: usize = 0;
            while i < hs.len()
                invariant
                    i <= hs@.len(),
                    options@.headers == Some(pairs_view(hs@)),
                    given == lower_names(pairs_view(hs@)),
                    pairs_view(headers@) == given.take(i as int),
                decreases hs@.len() - i,
            {
                let name = ascii_lowercase(hs[i].0.as_str());
                let value = hs[i].1.clone();
                let ghost old_headers = pairs_view(headers@);
                headers.push((name, value));
                proof {
                    assert(given[i as int] == (lower(hs@[i as int].0@), hs@[i as int].1@));
                    assert(pairs_view(headers@) =~= old_headers.push(given[i as int]));
                    assert(given.take(i + 1) =~= given.take(i as int).push(given[i as int]));
                }
                i = i + 1;
            }
            assert(given.take(i as int) =~= given);
        },
        None => {
            assert(pairs_view(headers@) =~= given);
        },
    }
    let ghost with_host = if has_header(given, host_name()) {
        given
    } else {
        given.push((host_name(), host_header(host@, port)))
    };
    let host_key = text_of(vec!['h', 'o', 's', 't']);
    assert(host_key@ =~= host_name());
    if !has_header_named(&headers, &host_key) {
        let value = if port == 80 {
            host.clone()
        } else {
            let mut v = chars_of(host.as_str());
            v.push(':');
            v.extend_from_slice(fmt_u64(port as u64).as_slice());
            text_of(v)
        };
        assert(value@ =~= host_header(host@, port));
        let ghost old_headers = pairs_view(headers@);
        headers.push((host_key, value));
        assert(pairs_view(headers@) =~= old_headers.push((host_name(), host_header(host@, port))));
    }
    assert(pairs_view(headers@) == with_host);
    let connection_key = text_of(vec!['c', 'o', 'n', 'n', 'e', 'c', 't', 'i', 'o', 'n']);
    assert(connection_key@ =~= connection_name());
    if !has_header_named(&headers, &connection_key) {
        let close = text_of(vec!['c', 'l', 'o', 's', 'e']);
        assert(close@ =~= close_text());
        let ghost old_headers = pairs_view(headers@);
        headers.push((connection_key, close));
        assert(pairs_view(headers@) =~= old_headers.push((connection_name(), close_text())));
    }
    headers
}

/// Plans a request from its options and an optional URL.
pub fn parse_request_options(options: &RequestOptions, url: Option<String>) -> (r: RequestPlan)
    ensures
        r@ == plan_of(options@, opt_text(url)),
{
    let ghost url_view = opt_text(url);
    let (host, port, path) = target_of(options, url);
    let method = match &options.method {
        Some(m) => m.clone(),
        None => text_of(vec!['G', 'E', 'T']),
    };
    let headers = headers_of(options, &host, port);
    let r = RequestPlan { host, port, path, method, headers };
    proof {
        let p = plan_of(options@, url_view);
        assert(method@ =~= p.method);
        assert(r@.headers == p.headers);
    }
    r
}

/// Every planned request names its host and says whether the connection is
/// kept: the headers always hold a `host` and a `connection` header.
pub proof fn lemma_plan_has_host_and_connection(o: OptionsView, url: Option<Seq<char>>)
    ensures
        has_header(plan_of(o, url).headers, host_name()),
        has_header(plan_of(o, url).headers, connection_name()),
{
    let p = plan_of(o, url);
    let given = match o.headers {
        Some(h) => lower_names(h),
        None => Seq::empty(),
    };
    let with_host = if has_header(given, host_name()) {
        given
    } else {
        given.push((host_name(), host_header(p.host, p.port)))
    };
    if has_header(given, host_name()) {
        let i = choose|i: int| 0 <= i < given.len() && #[trigger] given[i].0 == host_name();
        assert(with_host[i].0 == host_name());
    } else {
        assert(with_host[given.len() as int].0 == host_name());
    }
    if !has_header(with_host, connection_name()) {
        let w = with_host.push((connection_name(), close_text()));
        assert(w[with_host.len() as int].0 == connection_name());
        let i = choose|i: int| 0 <= i < with_host.len() && #[trigger] with_host[i].0 == host_name();
        assert(w[i].0 == host_name());
    }
}

/// Without a URL of the `http` or `https` scheme, a request goes where its
/// options say: the path option (else `/`), the `hostname` option (else the
/// `host` option, else `localhost`), the method option (else `GET`).
pub proof fn lemma_plan_from_options(o: OptionsView, url: Option<Seq<char>>)
    requires
        url is None || url_target(url->0) is None,
    ensures
        plan_of(o, url).path == (match o.path {
            Some(p) => p,
            None => seq!['/'],
        }),
        plan_of(o, url).host == (match o.hostname {
            Some(h) => h,
            None => match o.host {
                Some(h) => h,
                None => seq!['l', 'o', 'c', 'a', 'l', 'h', 'o', 's', 't'],
            },
        }),
        plan_of(o, url).method == (match o.method {
            Some(m) => m,
            None => seq!['G', 'E', 'T'],
        }),
{
}

/// With a URL of the `http` or `https` scheme, the path is the URL's; the
/// host and the port are the URL's unless the options give them.
pub proof fn lemma_plan_from_url(o: OptionsView, url: Seq<char>)
    requires
        url_target(url) is Some,
    ensures
        match url_target(url) {
            Some(t) => {
                &&& plan_of(o, Some(url)).path == t.2
                &&& (o.hostname is None && o.host is None ==> plan_of(o, Some(url)).host == t.0)
                &&& (o.port is None ==> plan_of(o, Some(url)).port == t.1)
            },
            None => true,
        },
{
}

/// The headers of a request are the given ones, in order, then a `host`
/// header when none was given (the host, with `:` and the port unless it is
/// 80), then `connection: close` when no connection header was given.
pub proof fn lemma_plan_headers_added(given: Seq<HeaderText>, host: Seq<char>, port: u16)
    ensures
        plan_headers(given, host, port).take(given.len() as int) == given,
        !has_header(given, seq!['h', 'o', 's', 't']) ==> plan_headers(given, host, port)[given.len() as int]
            == (seq!['h', 'o', 's', 't'], if port == 80 {
            host
        } else {
            host + seq![':'] + decimal(port as nat)
        }),
        !has_header(given, seq!['h', 'o', 's', 't']) && !has_header(
            given,
            seq!['c', 'o', 'n', 'n', 'e', 'c', 't', 'i', 'o', 'n'],
        ) ==> plan_headers(given, host, port).len() == given.len() + 2 && plan_headers(
            given,
            host,
            port,
        )[given.len() as int + 1] == (
            seq!['c', 'o', 'n', 'n', 'e', 'c', 't', 'i', 'o', 'n'],
            seq!['c', 'l', 'o', 's', 'e'],
        ),
        has_header(given, seq!['h', 'o', 's', 't']) && has_header(
            given,
            seq!['c', 'o', 'n', 'n', 'e', 'c', 't', 'i', 'o', 'n'],
        ) ==> plan_headers(given, host, port) == given,
{
    assert(host_name() =~= seq!['h', 'o', 's', 't']);
    assert(connection_name() =~= seq!['c', 'o', 'n', 'n', 'e', 'c', 't', 'i', 'o', 'n']);
    assert(close_text() =~= seq!['c', 'l', 'o', 's', 'e']);
    let with_host = if has_header(given, host_name()) {
        given
    } else {
        given.push((host_name(), host_header(host, port)))
    };
    assert(with_host.take(given.len() as int) =~= given);
    assert(plan_headers(given, host, port).take(given.len() as int) =~= given);
    if !has_header(given, host_name()) && !has_header(given, connection_name()) {
        if has_header(with_host, connection_name()) {
            let i = choose|i: int| 0 <= i < with_host.len() && #[trigger] with_host[i].0 == connection_name();
            if i < given.len() {
                assert(given[i].0 == connection_name());
            }
        }
    }
}

} // verus!
