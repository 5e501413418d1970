//! Outgoing messages (server responses and client requests): the header list
//! that the caller edits, and the head that is written once the connection is
//! ready, followed by the body bytes buffered until then.
use vstd::prelude::*;
use vstd::utf8::encode_utf8;

use crate::date::{http_date, http_date_text};
use crate::head::{
    header_block, header_lines, headers_object, object_view, pairs_view, singles_exactly_once,
    group_headers, strings_view, HeadReader, HeaderText, HeaderValue,
};
use crate::request::RequestPlan;
use crate::text::{
    ascii_lowercase, chars_of, decimal_int, fmt_i64, join, join_texts, lower, string_of,
    texts_view,
};

verus! {

/// Which side of an exchange a message is.
#[derive(PartialEq, Eq, Structural, Clone, Copy)]
pub enum OutgoingKind {
    Response,
    Request,
}

/// The state of an outgoing message.
pub struct OutgoingState {
    pub kind: OutgoingKind,
    pub headers: Vec<(String, String)>,
    pub headers_sent: bool,
    pub status_code: i64,
    pub status_message: String,
    pub method: String,
    pub path: String,
    pub protocol: String,
    pub host: String,
    pub fd: Option<i32>,
    pub pending: Vec<u8>,
    pub reader: HeadReader,
    pub response_started: bool,
    pub send_date: bool,
    pub request_sent: bool,
}

/// An outgoing message as plain values.
pub struct OutgoingView {
    pub kind: OutgoingKind,
    pub headers: Seq<HeaderText>,
    pub headers_sent: bool,
    pub status_code: i64,
    pub status_message: Seq<char>,
    pub method: Seq<char>,
    pub path: Seq<char>,
    pub protocol: Seq<char>,
    pub host: Seq<char>,
    pub fd: Option<i32>,
    pub pending: Seq<u8>,
    pub reader: Seq<u8>,
    pub response_started: bool,
    pub send_date: bool,
    pub request_sent: bool,
}

impl View for OutgoingState {
    type V = OutgoingView;

    open spec fn view(&self) -> OutgoingView {
        OutgoingView {
            kind: self.kind,
            headers: pairs_view(self.headers@),
            headers_sent: self.headers_sent,
            status_code: self.status_code,
            status_message: self.status_message@,
            method: self.method@,
            path: self.path@,
            protocol: self.protocol@,
            host: self.host@,
            fd: self.fd,
            pending: self.pending@,
            reader: self.reader@,
            response_started: self.response_started,
            send_date: self.send_date,
            request_sent: self.request_sent,
        }
    }
}

/// The index of the first header named exactly `name`.
pub open spec fn find_name(hs: Seq<HeaderText>, name: Seq<char>) -> Option<int> {
    if exists|i: int| 0 <= i < hs.len() && #[trigger] hs[i].0 == name {
        Some(
            choose|i: int|
                0 <= i < hs.len() && #[trigger] hs[i].0 == name && forall|j: int|
                    0 <= j < i ==> #[trigger] hs[j].0 != name,
        )
    } else {
        None
    }
}

proof fn lemma_find_name(hs: Seq<HeaderText>, name: Seq<char>, i: int)
    requires
        0 <= i < hs.len(),
        hs[i].0 == name,
        forall|j: int| 0 <= j < i ==> #[trigger] hs[j].0 != name,
    ensures
        find_name(hs, name) == Some(i),
{
    let k = choose|k: int|
        0 <= k < hs.len() && #[trigger] hs[k].0 == name && forall|j: int|
            0 <= j < k ==> #[trigger] hs[j].0 != name;
    assert(0 <= k < hs.len() && hs[k].0 == name && forall|j: int|
        0 <= j < k ==> #[trigger] hs[j].0 != name);
}

/// Whether some header is named exactly `name`.
pub open spec fn has_name(hs: Seq<HeaderText>, name: Seq<char>) -> bool {
    find_name(hs, name) is Some
}

/// The value of the first header named exactly `name`.
pub open spec fn value_of(hs: Seq<HeaderText>, name: Seq<char>) -> Option<Seq<char>> {
    match find_name(hs, name) {
        Some(i) => Some(hs[i].1),
        None => None,
    }
}

/// The headers with the value of the header named `name` replaced, or with
/// the header added at the end when there is none.
pub open spec fn set_value(hs: Seq<HeaderText>, name: Seq<char>, value: Seq<char>) -> Seq<
    HeaderText,
> {
    match find_name(hs, name) {
        Some(i) => hs.update(i, (name, value)),
        None => hs.push((name, value)),
    }
}

/// The headers without any named `name`.
pub open spec fn without_name(hs: Seq<HeaderText>, name: Seq<char>) -> Seq<HeaderText>
    decreases hs.len(),
{
    if hs.len() == 0 {
        Seq::empty()
    } else {
        let before = without_name(hs.drop_last(), name);
        if hs.last().0 == name {
            before
        } else {
            before.push(hs.last())
        }
    }
}

/// A state with new headers and everything else as before.
pub open spec fn with_headers(s: OutgoingView, hs: Seq<HeaderText>) -> OutgoingView {
    OutgoingView { headers: hs, ..s }
}

/// A header value as the caller gives it: one string, or several that are
/// joined by `, `.
pub enum HeaderInput {
    Text(String),
    List(Vec<String>),
}

pub open spec fn comma() -> Seq<char> {
    seq![',', ' ']
}

/// The text that a header value is stored as.
pub open spec fn input_text(v: HeaderInput) -> Seq<char> {
    match v {
        HeaderInput::Text(s) => s@,
        HeaderInput::List(vs) => join(strings_view(vs@), comma()),
    }
}

/// The strings joined with `sep` between each two.
pub fn join_strings(vs: &Vec<String>, sep: &[char]) -> (r: String)
    ensures
        r@ == join(strings_view(vs@), sep@),
{
    let mut parts: Vec<Vec<char>> = Vec::new();
    let mut i: usize = 0;
    while i < vs.len()
        invariant
            i <= vs@.len(),
            texts_view(parts@) == strings_view(vs@).take(i as int),
        decreases vs@.len() - i,
    {
        let ghost before = texts_view(parts@);
        parts.push(chars_of(vs[i].as_str()));
        proof {
            assert(texts_view(parts@) =~= before.push(vs@[i as int]@));
            assert(strings_view(vs@).take(i + 1) =~= strings_view(vs@).take(i as int).push(
                vs@[i as int]@,
            ));
        }
        i = i + 1;
    }
    assert(strings_view(vs@).take(i as int) =~= strings_view(vs@));
    let joined = join_texts(parts.as_slice(), sep);
    string_of(joined.as_slice())
}

fn input_string(value: HeaderInput) -> (r: String)
    ensures
        r@ == input_text(value),
{
    match value {
        HeaderInput::Text(s) => s,
        HeaderInput::List(vs) => {
            let sep = vec![',', ' '];
            assert(sep@ =~= comma());
            join_strings(&vs, sep.as_slice())
        },
    }
}

fn position_of(hs: &Vec<(String, String)>, name: &String) -> (r: Option<usize>)
    ensures
        r matches Some(i) ==> i < hs@.len() && find_name(pairs_view(hs@), name@) == Some(i as int),
        r is None ==> find_name(pairs_view(hs@), name@) is None,
{
    let ghost v = pairs_view(hs@);
    let mut i: usize = 0;
    while i < hs.len()
        invariant
            i <= hs@.len(),
            v == pairs_view(hs@),
            forall|j: int| 0 <= j < i ==> #[trigger] v[j].0 != name@,
        decreases hs@.len() - i,
    {
        if hs[i].0 == *name {
            proof {
                lemma_find_name(v, name@, i as int);
            }
            return Some(i);
        }
        i = i + 1;
    }
    None
}

/// Sets a header, its name lowered to ASCII lower case: replaces the value
/// of the header of that name, or adds the header at the end.
pub fn outgoing_set_header(state: &mut OutgoingState, name: String, value: HeaderInput)
    ensures
        final(state)@ == with_headers(
            old(state)@,
            set_value(old(state)@.headers, lower(name@), input_text(value)),
        ),
{
    let value = input_string(value);
    let lower_name = ascii_lowercase(name.as_str());
    match position_of(&state.headers, &lower_name) {
        Some(i) => {
            let ghost before = pairs_view(state.headers@);
            state.headers.set(i, (lower_name, value));
            assert(pairs_view(state.headers@) =~= before.update(i as int, (lower(name@), value@)));
        },
        None => {
            let ghost before = pairs_view(state.headers@);
            state.headers.push((lower_name, value));
            assert(pairs_view(state.headers@) =~= before.push((lower(name@), value@)));
        },
    }
}

/// Removes every header whose name is `name` in ASCII lower case.
pub fn outgoing_remove_header(state: &mut OutgoingState, name: String)
    ensures
        final(state)@ == with_headers(old(state)@, without_name(old(state)@.headers, lower(name@))),
{
    let lower_name = ascii_lowercase(name.as_str());
    let ghost hs = old(state)@.headers;
    let mut kept: Vec<(String, String)> = Vec::new();
    let mut i: usize = 0;
    while i < state.headers.len()
        invariant
            i <= state.headers@.len(),
            hs == pairs_view(state.headers@),
            lower_name@ == lower(name@),
            pairs_view(kept@) == without_name(hs.take(i as int), lower_name@),
        decreases state.headers@.len() - i,
    {
        proof {
            assert(hs.take(i + 1).drop_last() =~= hs.take(i as int));
            assert(hs.take(i + 1).last() == hs[i as int]);
        }
        if state.headers[i].0 != lower_name {
            let entry = (state.headers[i].0.clone(), state.headers[i].1.clone());
            let ghost before = pairs_view(kept@);
            kept.push(entry);
            assert(pairs_view(kept@) =~= before.push(hs[i as int]));
        }
        i = i + 1;
    }
    assert(hs.take(i as int) =~= hs);
    state.headers = kept;
}

/// The value of the header named `name` in ASCII lower case.
pub fn outgoing_header(state: &OutgoingState, name: String) -> (r: Option<String>)
    ensures
        r matches Some(v) ==> value_of(state@.headers, lower(name@)) == Some(v@),
        r is None ==> value_of(state@.headers, lower(name@)) is None,
{
    let lower_name = ascii_lowercase(name.as_str());
    match position_of(&state.headers, &lower_name) {
        Some(i) => Some(state.headers[i].1.clone()),
        None => None,
    }
}

/// The headers as a header object.
pub fn outgoing_headers(state: &OutgoingState) -> (r: Vec<(String, HeaderValue)>)
    ensures
        object_view(r@) == group_headers(state@.headers),
        singles_exactly_once(r@),
{
    headers_object(state.headers.as_slice())
}

/// The names of the headers, in order.
pub open spec fn names_of(hs: Seq<HeaderText>) -> Seq<Seq<char>> {
    hs.map_values(|h: HeaderText| h.0)
}

pub fn outgoing_header_names(state: &OutgoingState) -> (r: Vec<String>)
    ensures
        strings_view(r@) == names_of(state@.headers),
{
    let ghost hs = state@.headers;
    let mut r: Vec<String> = Vec::new();
    let mut i: usize = 0;
    while i < state.headers.len()
        invariant
            i <= state.headers@.len(),
            hs == pairs_view(state.headers@),
            strings_view(r@) == names_of(hs).take(i as int),
        decreases state.headers@.len() - i,
    {
        let ghost before = strings_view(r@);
        r.push(state.headers[i].0.clone());
        proof {
            assert(strings_view(r@) =~= before.push(hs[i as int].0));
            assert(names_of(hs).take(i + 1) =~= names_of(hs).take(i as int).push(hs[i as int].0));
        }
        i = i + 1;
    }
    assert(names_of(hs).take(i as int) =~= names_of(hs));
    r
}

pub fn outgoing_fd(state: &OutgoingState) -> (r: Option<i32>)
    ensures
        r == state@.fd,
{
    state.fd
}

pub fn outgoing_set_fd(state: &mut OutgoingState, fd: i32)
    ensures
        final(state)@ == (OutgoingView { fd: Some(fd), ..old(state)@ }),
{
    state.fd = Some(fd);
}

pub open spec fn date_name() -> Seq<char> {
    seq!['d', 'a', 't', 'e']
}

/// The headers that a head is written with: a `date` header is added when the
/// message sends a date and has none.
pub open spec fn sent_headers(s: OutgoingView, now: int) -> Seq<HeaderText> {
    if s.send_date && !has_name(s.headers, date_name()) {
        s.headers.push((date_name(), http_date_text(now)))
    } else {
        s.headers
    }
}

pub open spec fn http11() -> Seq<char> {
    seq!['H', 'T', 'T', 'P', '/', '1', '.', '1']
}

pub open spec fn crlf() -> Seq<char> {
    seq!['\r', '\n']
}

/// The status line of a response, or the request line of a request.
pub open spec fn start_line(s: OutgoingView) -> Seq<char> {
    match s.kind {
        OutgoingKind::Response => http11() + seq![' '] + decimal_int(s.status_code as int) + seq![' ']
            + s.status_message,
        OutgoingKind::Request => s.method + seq![' '] + s.path + seq![' '] + http11(),
    }
}

/// The head of a message: start line, headers and an empty line.
pub open spec fn head_text(s: OutgoingView, now: int) -> Seq<char> {
    start_line(s) + crlf() + header_block(sent_headers(s, now)) + crlf()
}

/// What flushing a message writes: its head, encoded in UTF-8, then the body
/// bytes buffered so far, as they were written.
pub open spec fn flushed_bytes(s: OutgoingView, now: int) -> Seq<u8> {
    encode_utf8(head_text(s, now)) + s.pending
}

/// The state once its head has been sent.
pub open spec fn after_flush(s: OutgoingView) -> OutgoingView {
    OutgoingView { headers_sent: true, pending: Seq::empty(), ..s }
}

/// Whether a flush writes: the head is not sent yet and a descriptor is set.
pub open spec fn flushes(s: OutgoingView) -> bool {
    !s.headers_sent && s.fd is Some
}

fn start_chars(state: &OutgoingState) -> (r: Vec<char>)
    ensures
        r@ == start_line(state@),
{
    let mut r: Vec<char> = Vec::new();
    let version = vec!['H', 'T', 'T', 'P', '/', '1', '.', '1'];
    assert(version@ =~= http11());
    match state.kind {
        OutgoingKind::Response => {
            r.extend_from_slice(version.as_slice());
            r.push(' ');
            r.extend_from_slice(fmt_i64(state.status_code).as_slice());
            r.push(' ');
            r.extend_from_slice(chars_of(state.status_message.as_str()).as_slice());
        },
        OutgoingKind::Request => {
            r.extend_from_slice(chars_of(state.method.as_str()).as_slice());
            r.push(' ');
            r.extend_from_slice(chars_of(state.path.as_str()).as_slice());
            r.push(' ');
            r.extend_from_slice(version.as_slice());
        },
    }
    assert(r@ =~= start_line(state@));
    r
}

fn date_headers(state: &OutgoingState, now: i64) -> (r: Vec<(String, String)>)
    ensures
        pairs_view(r@) == sent_headers(state@, now as int),
{
    let mut headers = copy_headers(&state.headers);
    if state.send_date {
        let key = string_of(vec!['d', 'a', 't', 'e'].as_slice());
        assert(key@ =~= date_name());
        if position_of(&headers, &key).is_none() {
            let ghost before = pairs_view(headers@);
            headers.push((key, http_date(now)));
            assert(pairs_view(headers@) =~= before.push((date_name(), http_date_text(now as int))));
        }
    }
    headers
}

/// A copy of a header list.
pub fn copy_headers(hs: &Vec<(String, String)>) -> (r: Vec<(String, String)>)
    ensures
        pairs_view(r@) == pairs_view(hs@),
{
    let mut r: Vec<(String, String)> = Vec::new();
    let mut i: usize = 0;
    while i < hs.len()
        invariant
            i <= hs@.len(),
            pairs_view(r@) == pairs_view(hs@).take(i as int),
        decreases hs@.len() - i,
    {
        let ghost before = pairs_view(r@);
        r.push((hs[i].0.clone(), hs[i].1.clone()));
        proof {
            assert(pairs_view(r@) =~= before.push(pairs_view(hs@)[i as int]));
            assert(pairs_view(hs@).take(i + 1) =~= pairs_view(hs@).take(i as int).push(
                pairs_view(hs@)[i as int],
            ));
        }
        i = i + 1;
    }
    assert(pairs_view(hs@).take(i as int) =~= pairs_view(hs@));
    r
}

/// The bytes of a string's UTF-8 encoding.
fn utf8_bytes(s: &String) -> (r: Vec<u8>)
    ensures
        r@ == encode_utf8(s@),
{
    let b = s.as_str().as_bytes();
    crate::head::slice_bytes(b, 0, b.len())
}

/// Sends the status/request line and headers, then the body buffered before
/// the descriptor was ready: hands back the descriptor and the bytes to write
/// to it, or nothing when the head is already sent or no descriptor is set.
pub fn outgoing_flush_head(state: &mut OutgoingState, now: i64) -> (r: Option<(i32, Vec<u8>)>)
    ensures
        !flushes(old(state)@) ==> r is None && final(state)@ == old(state)@,
        flushes(old(state)@) ==> (r matches Some(w) && w.0 == old(state)@.fd->0 && w.1@
            == flushed_bytes(old(state)@, now as int)),
        flushes(old(state)@) ==> final(state)@ == after_flush(old(state)@),
{
    if state.headers_sent {
        return None;
    }
    let fd = match state.fd {
        Some(fd) => fd,
        None => return None,
    };
    let headers = date_headers(state, now);
    let mut text = start_chars(state);
    text.push('\r');
    text.push('\n');
    text.extend_from_slice(header_lines(headers.as_slice()).as_slice());
    text.push('\r');
    text.push('\n');
    assert(text@ =~= head_text(old(state)@, now as int));
    let head = string_of(text.as_slice());
    let mut out = utf8_bytes(&head);
    out.extend_from_slice(state.pending.as_slice());
    assert(out@ =~= flushed_bytes(old(state)@, now as int));
    state.headers_sent = true;
    state.pending = Vec::new();
    assert(state@ =~= after_flush(old(state)@));
    Some((fd, out))
}

/// One step of writing `total` bytes to a descriptor, of which `written`
/// are written: after a `write` that reports `count`, the next offset, or
/// nothing when the write failed or wrote nothing and writing stops. A write
/// never reports more than it was asked for; a count past the end ends the
/// loop all the same.
pub fn write_step(written: usize, total: usize, count: isize) -> (r: Option<usize>)
    requires
        written <= total,
    ensures
        count <= 0 ==> r is None,
        count > 0 ==> r == Some(
            if count >= total - written {
                total
            } else {
                (written + count) as usize
            },
        ),
{
    if count <= 0 {
        None
    } else if count as usize >= total - written {
        Some(total)
    } else {
        Some(written + count as usize)
    }
}

/// The state of a message that a write leaves: body bytes are buffered
/// until a descriptor is set; once one is, the head goes out first.
pub open spec fn after_write(s: OutgoingView, bytes: Seq<u8>) -> OutgoingView {
    if s.fd is None {
        OutgoingView { pending: s.pending + bytes, ..s }
    } else if flushes(s) {
        after_flush(s)
    } else {
        s
    }
}

/// What a write sends to the descriptor: the head when it is not sent yet,
/// then the bytes.
pub open spec fn written(s: OutgoingView, bytes: Seq<u8>, now: int) -> Seq<u8> {
    if flushes(s) {
        flushed_bytes(s, now) + bytes
    } else {
        bytes
    }
}

/// Handles body bytes written to the message: buffers them while no
/// descriptor is set, else hands back the descriptor and what to write to
/// it, the head first if it has not been sent.
pub fn outgoing_write(state: &mut OutgoingState, bytes: &[u8], now: i64) -> (r: Option<(i32, Vec<u8>)>)
    ensures
        final(state)@ == after_write(old(state)@, bytes@),
        old(state)@.fd is None ==> r is None,
        old(state)@.fd is Some ==> (r matches Some(w) && w.0 == old(state)@.fd->0 && w.1@
            == written(old(state)@, bytes@, now as int)),
{
    let fd = match state.fd {
        Some(fd) => fd,
        None => {
            state.pending.extend_from_slice(bytes);
            assert(state.pending@ =~= old(state)@.pending + bytes@);
            assert(state@ =~= after_write(old(state)@, bytes@));
            return None;
        },
    };
    let mut out: Vec<u8> = match outgoing_flush_head(state, now) {
        Some((_, head)) => head,
        None => Vec::new(),
    };
    out.extend_from_slice(bytes);
    assert(out@ =~= written(old(state)@, bytes@, now as int));
    Some((fd, out))
}

/// The state once its connection is up: the descriptor, when there is one,
/// is set, and the request counts as sent.
pub open spec fn connected(s: OutgoingView, fd: Option<i32>) -> OutgoingView {
    OutgoingView {
        fd: match fd {
            Some(d) => Some(d),
            None => s.fd,
        },
        request_sent: true,
        ..s
    }
}

/// Handles the connection of a client request's socket: records the
/// descriptor, marks the request sent, and flushes the head.
pub fn outgoing_connected(state: &mut OutgoingState, fd: Option<i32>, now: i64) -> (r: Option<
    (i32, Vec<u8>),
>)
    ensures
        !flushes(connected(old(state)@, fd)) ==> r is None && final(state)@ == connected(
            old(state)@,
            fd,
        ),
        flushes(connected(old(state)@, fd)) ==> (r matches Some(w) && w.0 == connected(
            old(state)@,
            fd,
        ).fd->0 && w.1@ == flushed_bytes(connected(old(state)@, fd), now as int)),
        flushes(connected(old(state)@, fd)) ==> final(state)@ == after_flush(
            connected(old(state)@, fd),
        ),
{
    match fd {
        Some(d) => {
            state.fd = Some(d);
        },
        None => {},
    }
    state.request_sent = true;
    assert(state@ =~= connected(old(state)@, fd));
    outgoing_flush_head(state, now)
}

pub open spec fn http_protocol() -> Seq<char> {
    seq!['h', 't', 't', 'p', ':']
}

pub open spec fn https_protocol() -> Seq<char> {
    seq!['h', 't', 't', 'p', 's', ':']
}

/// A message that has sent nothing yet.
pub open spec fn fresh(
    kind: OutgoingKind,
    headers: Seq<HeaderText>,
    status_code: i64,
    status_message: Seq<char>,
    method: Seq<char>,
    path: Seq<char>,
    protocol: Seq<char>,
    host: Seq<char>,
    fd: Option<i32>,
    send_date: bool,
) -> OutgoingView {
    OutgoingView {
        kind,
        headers,
        headers_sent: false,
        status_code,
        status_message,
        method,
        path,
        protocol,
        host,
        fd,
        pending: Seq::empty(),
        reader: Seq::empty(),
        response_started: false,
        send_date,
        request_sent: false,
    }
}

/// The outgoing state of a client request made from a plan: nothing sent,
/// no date header, no descriptor until the socket connects.
pub fn outgoing_for_request(plan: &RequestPlan) -> (r: OutgoingState)
    ensures
        r@ == fresh(
            OutgoingKind::Request,
            plan@.headers,
            0,
            Seq::empty(),
            plan@.method,
            plan@.path,
            http_protocol(),
            plan@.host,
            None,
            false,
        ),
{
    let protocol = string_of(vec!['h', 't', 't', 'p', ':'].as_slice());
    assert(protocol@ =~= http_protocol());
    let r = OutgoingState {
        kind: OutgoingKind::Request,
        headers: copy_headers(&plan.headers),
        headers_sent: false,
        status_code: 0,
        status_message: String::new(),
        method: plan.method.clone(),
        path: plan.path.clone(),
        protocol,
        host: plan.host.clone(),
        fd: None,
        pending: Vec::new(),
        reader: HeadReader::new(),
        response_started: false,
        send_date: false,
        request_sent: false,
    };
    assert(r@ =~= fresh(
        OutgoingKind::Request,
        plan@.headers,
        0,
        Seq::empty(),
        plan@.method,
        plan@.path,
        http_protocol(),
        plan@.host,
        None,
        false,
    ));
    r
}

/// The response that a server answers a request with: `200 OK`, no headers
/// yet, a date header when sent, on the connection's descriptor.
pub fn outgoing_for_response(method: &String, url: &String, fd: Option<i32>) -> (r: OutgoingState)
    ensures
        r@ == fresh(
            OutgoingKind::Response,
            Seq::empty(),
            200,
            seq!['O', 'K'],
            method@,
            url@,
            http_protocol(),
            Seq::empty(),
            fd,
            true,
        ),
{
    let protocol = string_of(vec!['h', 't', 't', 'p', ':'].as_slice());
    assert(protocol@ =~= http_protocol());
    let ok = string_of(vec!['O', 'K'].as_slice());
    assert(ok@ =~= seq!['O', 'K']);
    let r = OutgoingState {
        kind: OutgoingKind::Response,
        headers: Vec::new(),
        headers_sent: false,
        status_code: 200,
        status_message: ok,
        method: method.clone(),
        path: url.clone(),
        protocol,
        host: String::new(),
        fd,
        pending: Vec::new(),
        reader: HeadReader::new(),
        response_started: false,
        send_date: true,
        request_sent: false,
    };
    assert(pairs_view(r.headers@) =~= Seq::<HeaderText>::empty());
    assert(r@ =~= fresh(
        OutgoingKind::Response,
        Seq::empty(),
        200,
        seq!['O', 'K'],
        method@,
        url@,
        http_protocol(),
        Seq::empty(),
        fd,
        true,
    ));
    r
}

/// The state of a client request that only reports that TLS is unavailable:
/// `GET /` over `https:`, never connected.
pub fn outgoing_for_unsupported_request() -> (r: OutgoingState)
    ensures
        r@ == fresh(
            OutgoingKind::Request,
            Seq::empty(),
            0,
            Seq::empty(),
            seq!['G', 'E', 'T'],
            seq!['/'],
            https_protocol(),
            Seq::empty(),
            None,
            false,
        ),
{
    let protocol = string_of(vec!['h', 't', 't', 'p', 's', ':'].as_slice());
    assert(protocol@ =~= https_protocol());
    let get = string_of(vec!['G', 'E', 'T'].as_slice());
    assert(get@ =~= seq!['G', 'E', 'T']);
    let root = string_of(vec!['/'].as_slice());
    assert(root@ =~= seq!['/']);
    let r = OutgoingState {
        kind: OutgoingKind::Request,
        headers: Vec::new(),
        headers_sent: false,
        status_code: 0,
        status_message: String::new(),
        method: get,
        path: root,
        protocol,
        host: String::new(),
        fd: None,
        pending: Vec::new(),
        reader: HeadReader::new(),
        response_started: false,
        send_date: false,
        request_sent: false,
    };
    assert(pairs_view(r.headers@) =~= Seq::<HeaderText>::empty());
    assert(r@ =~= fresh(
        OutgoingKind::Request,
        Seq::empty(),
        0,
        Seq::empty(),
        seq!['G', 'E', 'T'],
        seq!['/'],
        https_protocol(),
        Seq::empty(),
        None,
        false,
    ));
    r
}

/// When a header of some name occurs, a first one does.
proof fn lemma_least_name(hs: Seq<HeaderText>, name: Seq<char>, i: int)
    requires
        0 <= i < hs.len(),
        hs[i].0 == name,
    ensures
        exists|k: int|
            0 <= k < hs.len() && #[trigger] hs[k].0 == name && forall|j: int|
                0 <= j < k ==> #[trigger] hs[j].0 != name,
    decreases i,
{
    if exists|j: int| 0 <= j < i && #[trigger] hs[j].0 == name {
        let j = choose|j: int| 0 <= j < i && #[trigger] hs[j].0 == name;
        lemma_least_name(hs, name, j);
    } else {
        assert(0 <= i < hs.len() && hs[i].0 == name && forall|j: int|
            0 <= j < i ==> #[trigger] hs[j].0 != name);
    }
}

/// What `find_name` gives: the first header of that name, or none when no
/// header has it.
proof fn lemma_find_name_spec(hs: Seq<HeaderText>, name: Seq<char>)
    ensures
        find_name(hs, name) matches Some(i) ==> 0 <= i < hs.len() && hs[i].0 == name && forall|
            j: int,
        | 0 <= j < i ==> #[trigger] hs[j].0 != name,
        find_name(hs, name) is None ==> forall|j: int| 0 <= j < hs.len() ==> #[trigger] hs[j].0
            != name,
{
    if exists|i: int| 0 <= i < hs.len() && #[trigger] hs[i].0 == name {
        let i = choose|i: int| 0 <= i < hs.len() && #[trigger] hs[i].0 == name;
        lemma_least_name(hs, name, i);
    }
}

/// Looking a name up after one more header: the earlier headers come first.
proof fn lemma_value_of_push(hs: Seq<HeaderText>, h: HeaderText, name: Seq<char>)
    ensures
        value_of(hs.push(h), name) == (if value_of(hs, name) is Some {
            value_of(hs, name)
        } else if h.0 == name {
            Some(h.1)
        } else {
            None
        }),
{
    let p = hs.push(h);
    lemma_find_name_spec(hs, name);
    match find_name(hs, name) {
        Some(i) => {
            lemma_find_name(p, name, i);
        },
        None => {
            if h.0 == name {
                lemma_find_name(p, name, hs.len() as int);
            } else {
                lemma_find_name_spec(p, name);
                if find_name(p, name) is Some {
                    let k = find_name(p, name)->0;
                    assert(p[k] == hs[k]);
                }
            }
        },
    }
}

/// A header that is set is read back.
pub proof fn lemma_get_after_set(hs: Seq<HeaderText>, name: Seq<char>, value: Seq<char>)
    ensures
        value_of(set_value(hs, name, value), name) == Some(value),
{
    lemma_find_name_spec(hs, name);
    match find_name(hs, name) {
        Some(i) => {
            let u = hs.update(i, (name, value));
            lemma_find_name(u, name, i);
        },
        None => {
            lemma_value_of_push(hs, (name, value), name);
        },
    }
}

/// Setting a header leaves the headers of other names as they were.
pub proof fn lemma_set_keeps_others(
    hs: Seq<HeaderText>,
    name: Seq<char>,
    value: Seq<char>,
    other: Seq<char>,
)
    requires
        other != name,
    ensures
        value_of(set_value(hs, name, value), other) == value_of(hs, other),
{
    lemma_find_name_spec(hs, name);
    lemma_find_name_spec(hs, other);
    match find_name(hs, name) {
        Some(i) => {
            let u = hs.update(i, (name, value));
            lemma_find_name_spec(u, other);
            match find_name(hs, other) {
                Some(k) => {
                    assert(k != i);
                    lemma_find_name(u, other, k);
                },
                None => {
                    if find_name(u, other) is Some {
                        let k = find_name(u, other)->0;
                        assert(k != i);
                        assert(u[k] == hs[k]);
                    }
                },
            }
        },
        None => {
            lemma_value_of_push(hs, (name, value), other);
        },
    }
}

/// No header of a removed name is left.
pub proof fn lemma_get_after_remove(hs: Seq<HeaderText>, name: Seq<char>)
    ensures
        value_of(without_name(hs, name), name) is None,
    decreases hs.len(),
{
    if hs.len() > 0 {
        lemma_get_after_remove(hs.drop_last(), name);
        if hs.last().0 != name {
            lemma_value_of_push(without_name(hs.drop_last(), name), hs.last(), name);
        }
    }
}

/// Removing a header leaves the headers of other names as they were.
pub proof fn lemma_remove_keeps_others(hs: Seq<HeaderText>, name: Seq<char>, other: Seq<char>)
    requires
        other != name,
    ensures
        value_of(without_name(hs, name), other) == value_of(hs, other),
    decreases hs.len(),
{
    if hs.len() > 0 {
        let front = hs.drop_last();
        lemma_remove_keeps_others(front, name, other);
        assert(front.push(hs.last()) =~= hs);
        lemma_value_of_push(front, hs.last(), other);
        if hs.last().0 != name {
            lemma_value_of_push(without_name(front, name), hs.last(), other);
        }
    }
}

/// A head is sent at most once: once flushed, a message flushes no more.
pub proof fn lemma_flush_once(s: OutgoingView)
    requires
        flushes(s),
    ensures
        !flushes(after_flush(s)),
{
}

/// The bytes of a sequence of writes, in write order.
pub open spec fn joined(chunks: Seq<Seq<u8>>) -> Seq<u8>
    decreases chunks.len(),
{
    if chunks.len() == 0 {
        Seq::empty()
    } else {
        joined(chunks.drop_last()) + chunks.last()
    }
}

/// The state that a sequence of writes leaves.
pub open spec fn write_all(s: OutgoingView, chunks: Seq<Seq<u8>>) -> OutgoingView
    decreases chunks.len(),
{
    if chunks.len() == 0 {
        s
    } else {
        after_write(write_all(s, chunks.drop_last()), chunks.last())
    }
}

/// What one write sends to the descriptor: nothing while none is set.
pub open spec fn write_output(s: OutgoingView, bytes: Seq<u8>, now: int) -> Seq<u8> {
    if s.fd is None {
        Seq::empty()
    } else {
        written(s, bytes, now)
    }
}

/// What a sequence of writes sends to the descriptor, in order.
pub open spec fn output_all(s: OutgoingView, chunks: Seq<Seq<u8>>, now: int) -> Seq<u8>
    decreases chunks.len(),
{
    if chunks.len() == 0 {
        Seq::empty()
    } else {
        output_all(s, chunks.drop_last(), now) + write_output(
            write_all(s, chunks.drop_last()),
            chunks.last(),
            now,
        )
    }
}

/// While no descriptor is set, writes send nothing and buffer their bytes,
/// in the order written, after those buffered before.
pub proof fn lemma_writes_while_unconnected(s: OutgoingView, chunks: Seq<Seq<u8>>, now: int)
    requires
        s.fd is None,
    ensures
        write_all(s, chunks) == (OutgoingView { pending: s.pending + joined(chunks), ..s }),
        output_all(s, chunks, now) == Seq::<u8>::empty(),
    decreases chunks.len(),
{
    if chunks.len() == 0 {
        assert(s.pending + joined(chunks) =~= s.pending);
    } else {
        lemma_writes_while_unconnected(s, chunks.drop_last(), now);
        assert(s.pending + joined(chunks.drop_last()) + chunks.last() =~= s.pending + joined(
            chunks,
        ));
        assert(output_all(s, chunks, now) =~= Seq::<u8>::empty());
    }
}

/// Once a descriptor is set, a sequence of writes sends the head first when
/// it has not been sent, with the body buffered before, and then the bytes of
/// every write in the order written.
pub proof fn lemma_writes_once_connected(s: OutgoingView, chunks: Seq<Seq<u8>>, now: int)
    requires
        s.fd is Some,
    ensures
        chunks.len() > 0 ==> output_all(s, chunks, now) == (if flushes(s) {
            flushed_bytes(s, now)
        } else {
            Seq::empty()
        }) + joined(chunks),
        chunks.len() > 0 ==> write_all(s, chunks) == (if flushes(s) {
            after_flush(s)
        } else {
            s
        }),
    decreases chunks.len(),
{
    if chunks.len() > 0 {
        let front = chunks.drop_last();
        if front.len() == 0 {
            assert(joined(front) =~= Seq::<u8>::empty());
            assert(output_all(s, front, now) =~= Seq::<u8>::empty());
            if flushes(s) {
                assert(output_all(s, chunks, now) =~= flushed_bytes(s, now) + joined(chunks));
            } else {
                assert(output_all(s, chunks, now) =~= Seq::<u8>::empty() + joined(chunks));
            }
        } else {
            lemma_writes_once_connected(s, front, now);
            let head = if flushes(s) {
                flushed_bytes(s, now)
            } else {
                Seq::empty()
            };
            assert(output_all(s, chunks, now) =~= head + joined(front) + chunks.last());
            assert(head + joined(front) + chunks.last() =~= head + joined(chunks));
        }
    }
}

/// The body of a message reaches its descriptor whole and in order: writes
/// made before the descriptor is set send nothing; connecting sends the head
/// and the body buffered so far; later writes send their bytes alone. On the
/// descriptor the head comes first, then every body byte in write order.
pub proof fn lemma_body_in_write_order(
    s: OutgoingView,
    before: Seq<Seq<u8>>,
    after: Seq<Seq<u8>>,
    fd: i32,
    now: int,
)
    requires
        s.fd is None,
        !s.headers_sent,
    ensures
        output_all(s, before, now) == Seq::<u8>::empty(),
        flushes(connected(write_all(s, before), Some(fd))),
        flushed_bytes(connected(write_all(s, before), Some(fd)), now) + output_all(
            after_flush(connected(write_all(s, before), Some(fd))),
            after,
            now,
        ) == encode_utf8(head_text(s, now)) + s.pending + joined(before) + joined(after),
{
    lemma_writes_while_unconnected(s, before, now);
    let k = connected(write_all(s, before), Some(fd));
    assert(head_text(k, now) == head_text(s, now));
    let f = after_flush(k);
    lemma_writes_once_connected(f, after, now);
    if after.len() == 0 {
        assert(joined(after) =~= Seq::<u8>::empty());
    }
    assert(output_all(f, after, now) == joined(after));
    assert(flushed_bytes(k, now) + output_all(f, after, now) =~= encode_utf8(head_text(s, now))
        + s.pending + joined(before) + joined(after));
}

} // verus!
