//! Servers: the requests that a connection's bytes make, whether they ask
//! for a protocol upgrade, and the bookkeeping of Node's `http.Server`.
use vstd::prelude::*;

use crate::head::{head_taken, header_lookup, header_value, HeadReader};
use crate::incoming::{request_of, request_state, IncomingState};
use crate::outgoing::{fresh, http_protocol, outgoing_for_response, OutgoingKind, OutgoingState};
use crate::request::connection_name;
use crate::text::{ascii_lowercase, chars_of, lower, string_of};

verus! {

/// The state of one connection of a server.
pub struct ConnectionState {
    pub reader: HeadReader,
    pub max_requests: i64,
    pub requests: i64,
}

/// A new connection: nothing read, no request yet.
pub fn connection_new() -> (r: ConnectionState)
    ensures
        r.reader@ == Seq::<u8>::empty(),
        r.max_requests == 0,
        r.requests == 0,
{
    ConnectionState { reader: HeadReader::new(), max_requests: 0, requests: 0 }
}

pub open spec fn upgrade_text() -> Seq<char> {
    seq!['u', 'p', 'g', 'r', 'a', 'd', 'e']
}

/// Whether `needle` occurs in `s`.
pub open spec fn contains(s: Seq<char>, needle: Seq<char>) -> bool {
    exists|i: int| 0 <= i && i + needle.len() <= s.len() && #[trigger] s.subrange(i, i + needle.len()) == needle
}

/// Whether a request asks for a protocol upgrade: its first `connection`
/// header, in lower case, contains `upgrade`.
pub open spec fn is_upgrade(headers: Seq<(Seq<char>, Seq<char>)>) -> bool {
    match header_lookup(headers, connection_name()) {
        Some(v) => contains(lower(v), upgrade_text()),
        None => false,
    }
}

fn contains_text(s: &[char], needle: &[char]) -> (r: bool)
    ensures
        r == contains(s@, needle@),
{
    let n = s.len();
    let m = needle.len();
    if m > n {
        return false;
    }
    let mut i: usize = 0;
    while i <= n - m
        invariant
            n == s@.len(),
            m == needle@.len(),
            m <= n,
            i <= n - m + 1,
            forall|k: int| 0 <= k < i ==> #[trigger] s@.subrange(k, k + m) != needle@,
        decreases n - m + 1 - i,
    {
        let mut j: usize = 0;
        let mut same = true;
        while j < m
            invariant
                n == s@.len(),
                m == needle@.len(),
                i + m <= n,
                j <= m,
                same == forall|k: int| 0 <= k < j ==> s@[i + k] == needle@[k],
            decreases m - j,
        {
            if s[i + j] != needle[j] {
                same = false;
            }
            j = j + 1;
        }
        if same {
            assert(s@.subrange(i as int, i + m) =~= needle@);
            return true;
        }
        assert(s@.subrange(i as int, i + m) != needle@) by {
            let k = choose|k: int| 0 <= k < m && s@[i + k] != needle@[k];
            assert(s@.subrange(i as int, i + m)[k] != needle@[k]);
        }
        i = i + 1;
    }
    assert forall|k: int| 0 <= k && k + m <= n implies #[trigger] s@.subrange(k, k + m) != needle@ by {
        assert(k < i);
    }
    false
}

/// What the start of a request that a server reads amounts to.
pub struct ServerRequest {
    /// The request.
    pub request: IncomingState,
    /// The body bytes that came after its head.
    pub rest: Vec<u8>,
    /// Whether it asks for a protocol upgrade; then there is no response.
    pub upgrade: bool,
    /// The response to send, when it does not ask for an upgrade.
    pub response: Option<OutgoingState>,
}

/// Reads bytes from a connection: nothing until a request head is whole;
/// then the request, and unless it asks for an upgrade, a `200 OK` response
/// on the connection's descriptor `fd`.
pub fn server_ingest(conn: &mut ConnectionState, bytes: &[u8], fd: Option<i32>) -> (r: Option<
    ServerRequest,
>)
    ensures
        final(conn).max_requests == old(conn).max_requests,
        final(conn).requests == old(conn).requests,
        match head_taken(old(conn).reader@ + bytes@) {
            None => r is None && final(conn).reader@ == old(conn).reader@ + bytes@,
            Some(t) => {
                let req = request_of(t.0, t.1);
                &&& final(conn).reader@ == Seq::<u8>::empty()
                &&& r is Some
                &&& r->0.request@ == req
                &&& r->0.rest@ == t.2
                &&& r->0.upgrade == is_upgrade(t.1)
                &&& (r->0.upgrade ==> r->0.response is None)
                &&& (!r->0.upgrade ==> (r->0.response matches Some(o) && o@ == fresh(
                    OutgoingKind::Response,
                    Seq::empty(),
                    200,
                    seq!['O', 'K'],
                    req.method,
                    req.url,
                    http_protocol(),
                    Seq::empty(),
                    fd,
                    true,
                )))
            },
        },
{
    conn.reader.push(bytes);
    let (start, headers, rest) = match conn.reader.take_head() {
        Some(t) => t,
        None => return None,
    };
    let request = request_state(&start, headers.as_slice());
    let key = string_of(vec!['c', 'o', 'n', 'n', 'e', 'c', 't', 'i', 'o', 'n'].as_slice());
    assert(key@ =~= connection_name());
    let upgrade = match header_value(headers.as_slice(), key.as_str()) {
        Some(v) => {
            let lowered = chars_of(ascii_lowercase(v.as_str()).as_str());
            let needle = vec!['u', 'p', 'g', 'r', 'a', 'd', 'e'];
            assert(needle@ =~= upgrade_text());
            contains_text(lowered.as_slice(), needle.as_slice())
        },
        None => false,
    };
    if upgrade {
        return Some(ServerRequest { request, rest, upgrade, response: None });
    }
    let response = outgoing_for_response(&request.method, &request.url, fd);
    Some(ServerRequest { request, rest, upgrade, response: Some(response) })
}

/// The state of a server: the ids of its connections, and whether it is
/// closing them.
pub struct HttpServerState {
    pub connections: Vec<u64>,
    pub close_connections: bool,
}

/// A server with no connection yet.
pub fn http_server_state_new() -> (r: HttpServerState)
    ensures
        r.connections@ == Seq::<u64>::empty(),
        !r.close_connections,
{
    HttpServerState { connections: Vec::new(), close_connections: false }
}

/// Records a new connection of the server.
pub fn server_add_connection(server: &mut HttpServerState, id: u64)
    ensures
        final(server).connections@ == old(server).connections@.push(id),
        final(server).close_connections == old(server).close_connections,
{
    server.connections.push(id);
}

/// Marks the server as closing its connections, and hands back the
/// connections to destroy: all of them.
pub fn close_all_connections(server: &mut HttpServerState) -> (r: Vec<u64>)
    ensures
        r@ == old(server).connections@,
        final(server).connections@ == old(server).connections@,
        final(server).close_connections,
{
    server.close_connections = true;
    let mut r: Vec<u64> = Vec::new();
    let mut i: usize = 0;
    while i < server.connections.len()
        invariant
            i <= server.connections@.len(),
            r@ == server.connections@.take(i as int),
        decreases server.connections@.len() - i,
    {
        r.push(server.connections[i]);
        i = i + 1;
        assert(r@ =~= server.connections@.take(i as int));
    }
    assert(server.connections@.take(i as int) =~= server.connections@);
    r
}

/// How many bytes of a request the parser had read when it failed; the
/// native backend reports none.
pub fn Node_HTTP_Server_bytesParsed() -> (r: i64)
    ensures
        r == 0,
{
    0
}

/// The raw packet of a request that failed to parse; the native backend keeps
/// none.
pub fn Node_HTTP_Server_rawPacket() -> (r: Vec<u8>)
    ensures
        r@ == Seq::<u8>::empty(),
{
    Vec::new()
}

/// Closes all connections: the server marks itself closing, and the
/// connections to destroy are handed back.
pub fn Node_HTTP_Server_closeAllConnectionsImpl(server: &mut HttpServerState) -> (r: Vec<u64>)
    ensures
        r@ == old(server).connections@,
        final(server).connections@ == old(server).connections@,
        final(server).close_connections,
{
    close_all_connections(server)
}

/// Idle connections are not told apart: the same as closing all of them.
pub fn Node_HTTP_Server_closeIdleConnectionsImpl(server: &mut HttpServerState) -> (r: Vec<u64>)
    ensures
        r@ == old(server).connections@,
        final(server).connections@ == old(server).connections@,
        final(server).close_connections,
{
    Node_HTTP_Server_closeAllConnectionsImpl(server)
}

/// Whether a server is left exactly as it was.
pub open spec fn unchanged(a: &HttpServerState, b: &HttpServerState) -> bool {
    a.connections@ == b.connections@ && a.close_connections == b.close_connections
}

/// The headers timeout, in milliseconds: always Node's default.
pub fn Node_HTTP_Server_headersTimeoutImpl(server: &HttpServerState) -> (r: i64)
    ensures
        r == 60000,
{
    60000
}

/// Setting the headers timeout is not supported: nothing changes.
pub fn Node_HTTP_Server_setHeadersTimeoutImpl(milliseconds: i64, server: &mut HttpServerState)
    ensures
        unchanged(final(server), old(server)),
{
}

/// The largest number of headers read: always Node's default.
pub fn Node_HTTP_Server_maxHeadersCountImpl(server: &HttpServerState) -> (r: i64)
    ensures
        r == 2000,
{
    2000
}

/// Setting the header count limit is not supported: nothing changes.
pub fn Node_HTTP_Server_setMaxHeadersCountImpl(count: i64, server: &mut HttpServerState)
    ensures
        unchanged(final(server), old(server)),
{
}

/// The request timeout, in milliseconds: always Node's default.
pub fn Node_HTTP_Server_requestTimeoutImpl(server: &HttpServerState) -> (r: i64)
    ensures
        r == 300000,
{
    300000
}

/// Setting the request timeout is not supported: nothing changes.
pub fn Node_HTTP_Server_setRequestTimeoutImpl(milliseconds: i64, server: &mut HttpServerState)
    ensures
        unchanged(final(server), old(server)),
{
}

/// The largest number of requests per socket: 0, no limit.
pub fn Node_HTTP_Server_maxRequestsPerSocketImpl(server: &HttpServerState) -> (r: i64)
    ensures
        r == 0,
{
    0
}

/// Setting the requests-per-socket limit is not supported: nothing changes.
pub fn Node_HTTP_Server_setMaxRequestsPerSocketImpl(count: i64, server: &mut HttpServerState)
    ensures
        unchanged(final(server), old(server)),
{
}

/// The socket timeout, in milliseconds: 0, none.
pub fn Node_HTTP_Server_timeoutImpl(server: &HttpServerState) -> (r: i64)
    ensures
        r == 0,
{
    0
}

/// Setting the socket timeout is not supported: nothing changes.
pub fn Node_HTTP_Server_setTimeoutImpl(milliseconds: i64, server: &mut HttpServerState)
    ensures
        unchanged(final(server), old(server)),
{
}

/// The keep-alive timeout, in milliseconds: always Node's default.
pub fn Node_HTTP_Server_keepAliveTimeoutImpl(server: &HttpServerState) -> (r: i64)
    ensures
        r == 5000,
{
    5000
}

/// Setting the keep-alive timeout is not supported: nothing changes.
pub fn Node_HTTP_Server_setKeepAliveTimeoutImpl(milliseconds: i64, server: &mut HttpServerState)
    ensures
        unchanged(final(server), old(server)),
{
}

/// A request asks for a protocol upgrade exactly when its first
/// `connection` header, in ASCII lower case, holds the text `upgrade`: a
/// `keep-alive` or `close` request is no upgrade, and gets a response.
pub proof fn lemma_upgrade_exactly(headers: Seq<(Seq<char>, Seq<char>)>)
    ensures
        is_upgrade(headers) <==> (header_lookup(
            headers,
            seq!['c', 'o', 'n', 'n', 'e', 'c', 't', 'i', 'o', 'n'],
        ) matches Some(v) && exists|i: int|
            0 <= i && i + 7 <= v.len() && #[trigger] lower(v).subrange(i, i + 7) == seq![
                'u',
                'p',
                'g',
                'r',
                'a',
                'd',
                'e',
            ]),
{
    assert(connection_name() =~= seq!['c', 'o', 'n', 'n', 'e', 'c', 't', 'i', 'o', 'n']);
    assert(upgrade_text().len() == 7);
    match header_lookup(headers, connection_name()) {
        Some(v) => {
            if contains(lower(v), upgrade_text()) {
                let i = choose|i: int|
                    0 <= i && i + upgrade_text().len() <= lower(v).len() && #[trigger] lower(
                        v,
                    ).subrange(i, i + upgrade_text().len()) == upgrade_text();
                assert(lower(v).len() == v.len());
                assert(lower(v).subrange(i, i + 7) == seq!['u', 'p', 'g', 'r', 'a', 'd', 'e']);
            } else {
                assert forall|i: int| 0 <= i && i + 7 <= v.len() implies #[trigger] lower(
                    v,
                ).subrange(i, i + 7) != seq!['u', 'p', 'g', 'r', 'a', 'd', 'e'] by {
                    assert(lower(v).len() == v.len());
                    if lower(v).subrange(i, i + 7) == seq!['u', 'p', 'g', 'r', 'a', 'd', 'e'] {
                        assert(lower(v).subrange(i, i + upgrade_text().len()) == upgrade_text());
                    }
                }
            }
        },
        None => {},
    }
}

} // verus!
