//! Incoming messages (requests that a server receives, responses that a
//! client receives): what their head says, and the accessors of Node's
//! `http.IncomingMessage`.
use vstd::prelude::*;

use crate::head::{
    flat_headers, group_headers, header_values, headers_object, incoming_raw_headers,
    object_view, pairs_view, singles_exactly_once, strings_view, GroupText, HeaderText,
    HeaderValue,
};
use crate::text::{
    chars_of, join, join_texts, parse_i64, parse_i64_chars, slice_of, split_words, starts_with,
    string_of, texts_view, words,
};

verus! {

/// The state of an incoming message.
pub struct IncomingState {
    pub headers: Vec<(String, HeaderValue)>,
    pub raw_headers: Vec<String>,
    pub method: String,
    pub url: String,
    pub status_code: Option<i64>,
    pub status_message: String,
    pub http_version: String,
    pub complete: bool,
}

/// An incoming message as plain values.
pub struct IncomingView {
    pub headers: Seq<GroupText>,
    pub raw_headers: Seq<Seq<char>>,
    pub method: Seq<char>,
    pub url: Seq<char>,
    pub status_code: Option<i64>,
    pub status_message: Seq<char>,
    pub http_version: Seq<char>,
    pub complete: bool,
}

impl View for IncomingState {
    type V = IncomingView;

    open spec fn view(&self) -> IncomingView {
        IncomingView {
            headers: object_view(self.headers@),
            raw_headers: strings_view(self.raw_headers@),
            method: self.method@,
            url: self.url@,
            status_code: self.status_code,
            status_message: self.status_message@,
            http_version: self.http_version@,
            complete: self.complete,
        }
    }
}

/// The word at position `i`, or `default` when there are fewer words.
pub open spec fn word_or(ws: Seq<Seq<char>>, i: int, default: Seq<char>) -> Seq<char> {
    if 0 <= i < ws.len() {
        ws[i]
    } else {
        default
    }
}

/// The words from position `i` on.
pub open spec fn words_from(ws: Seq<Seq<char>>, i: int) -> Seq<Seq<char>> {
    if i < ws.len() {
        ws.skip(i)
    } else {
        Seq::empty()
    }
}

pub open spec fn http_slash() -> Seq<char> {
    seq!['H', 'T', 'T', 'P', '/']
}

pub open spec fn default_version() -> Seq<char> {
    seq!['H', 'T', 'T', 'P', '/', '1', '.', '1']
}

/// The version number of a protocol word: what follows `HTTP/`, else `1.1`.
pub open spec fn version_number(word: Seq<char>) -> Seq<char> {
    if word.len() >= 5 && word.take(5) == http_slash() {
        word.skip(5)
    } else {
        seq!['1', '.', '1']
    }
}

/// The incoming message that a head makes, with everything that the start
/// line does not give left empty.
pub open spec fn message_of(headers: Seq<HeaderText>) -> IncomingView {
    IncomingView {
        headers: group_headers(headers),
        raw_headers: flat_headers(headers),
        method: Seq::empty(),
        url: Seq::empty(),
        status_code: None,
        status_message: Seq::empty(),
        http_version: Seq::empty(),
        complete: false,
    }
}

/// The response that a status line and headers describe: the version of its
/// first word, the status code of its second (0 when missing or not a
/// number), and the rest joined by single spaces as the status message.
pub open spec fn response_of(start: Seq<char>, headers: Seq<HeaderText>) -> IncomingView {
    let ws = words(start);
    IncomingView {
        status_code: Some(
            if ws.len() > 1 {
                match parse_i64(ws[1]) {
                    Some(c) => c,
                    None => 0i64,
                }
            } else {
                0i64
            },
        ),
        status_message: join(words_from(ws, 2), seq![' ']),
        http_version: version_number(word_or(ws, 0, default_version())),
        ..message_of(headers)
    }
}

/// The request that a request line and headers describe: method (else
/// `GET`), target (else `/`) and version (else 1.1).
pub open spec fn request_of(start: Seq<char>, headers: Seq<HeaderText>) -> IncomingView {
    let ws = words(start);
    IncomingView {
        method: word_or(ws, 0, seq!['G', 'E', 'T']),
        url: word_or(ws, 1, seq!['/']),
        http_version: version_number(word_or(ws, 2, default_version())),
        ..message_of(headers)
    }
}

fn word_at(ws: &Vec<Vec<char>>, i: usize, default: Vec<char>) -> (r: Vec<char>)
    ensures
        r@ == word_or(texts_view(ws@), i as int, default@),
{
    if i < ws.len() {
        let w = ws[i].clone();
        assert(w@ =~= ws@[i as int]@);
        w
    } else {
        default
    }
}

fn version_text(word: &Vec<char>) -> (r: String)
    ensures
        r@ == version_number(word@),
{
    let prefix = vec!['H', 'T', 'T', 'P', '/'];
    assert(prefix@ =~= http_slash());
    if starts_with(word.as_slice(), prefix.as_slice()) {
        let rest = slice_of(word.as_slice(), 5, word.len());
        assert(rest@ =~= word@.skip(5));
        string_of(rest.as_slice())
    } else {
        string_of(vec!['1', '.', '1'].as_slice())
    }
}

fn empty_text() -> (r: String)
    ensures
        r@ == Seq::<char>::empty(),
{
    String::new()
}

/// The state of a message whose head held these headers.
fn message_state(headers: &[(String, String)]) -> (r: IncomingState)
    ensures
        r@ == message_of(pairs_view(headers@)),
        singles_exactly_once(r.headers@),
{
    IncomingState {
        headers: headers_object(headers),
        raw_headers: incoming_raw_headers(headers),
        method: empty_text(),
        url: empty_text(),
        status_code: None,
        status_message: empty_text(),
        http_version: empty_text(),
        complete: false,
    }
}

/// The response that a client reads from a status line and headers.
pub fn response_state(start: &String, headers: &[(String, String)]) -> (r: IncomingState)
    ensures
        r@ == response_of(start@, pairs_view(headers@)),
        singles_exactly_once(r.headers@),
{
    let ws = split_words(chars_of(start.as_str()).as_slice());
    let ghost w = texts_view(ws@);
    let dv = vec!['H', 'T', 'T', 'P', '/', '1', '.', '1'];
    assert(dv@ =~= default_version());
    let version = word_at(&ws, 0, dv);
    let code: i64 = if ws.len() > 1 {
        match parse_i64_chars(ws[1].as_slice()) {
            Some(c) => c,
            None => 0,
        }
    } else {
        0
    };
    let rest: Vec<Vec<char>> = if ws.len() > 2 {
        let mut rest: Vec<Vec<char>> = Vec::new();
        let mut i: usize = 2;
        while i < ws.len()
            invariant
                2 <= i <= ws@.len(),
                w == texts_view(ws@),
                texts_view(rest@) == w.subrange(2, i as int),
            decreases ws@.len() - i,
        {
            let word = ws[i].clone();
            assert(word@ =~= ws@[i as int]@);
            let ghost before = texts_view(rest@);
            rest.push(word);
            assert(texts_view(rest@) =~= before.push(w[i as int]));
            i = i + 1;
            assert(texts_view(rest@) =~= w.subrange(2, i as int));
        }
        assert(w.subrange(2, i as int) =~= w.skip(2));
        rest
    } else {
        let none: Vec<Vec<char>> = Vec::new();
        assert(texts_view(none@) =~= Seq::<Seq<char>>::empty());
        none
    };
    let space = vec![' '];
    assert(space@ =~= seq![' ']);
    let message = join_texts(rest.as_slice(), space.as_slice());
    let mut r = message_state(headers);
    r.status_code = Some(code);
    r.status_message = string_of(message.as_slice());
    r.http_version = version_text(&version);
    assert(r@ == response_of(start@, pairs_view(headers@)));
    r
}

/// The request that a server reads from a request line and headers.
pub fn request_state(start: &String, headers: &[(String, String)]) -> (r: IncomingState)
    ensures
        r@ == request_of(start@, pairs_view(headers@)),
        singles_exactly_once(r.headers@),
{
    let ws = split_words(chars_of(start.as_str()).as_slice());
    let get = vec!['G', 'E', 'T'];
    let root = vec!['/'];
    let dv = vec!['H', 'T', 'T', 'P', '/', '1', '.', '1'];
    assert(dv@ =~= default_version());
    assert(get@ =~= seq!['G', 'E', 'T']);
    assert(root@ =~= seq!['/']);
    let method = word_at(&ws, 0, get);
    let url = word_at(&ws, 1, root);
    let version = word_at(&ws, 2, dv);
    let mut r = message_state(headers);
    r.method = string_of(method.as_slice());
    r.url = string_of(url.as_slice());
    r.http_version = version_text(&version);
    assert(r@ == request_of(start@, pairs_view(headers@)));
    r
}

/// A copy of a list of strings.
pub fn copy_strings(v: &Vec<String>) -> (r: Vec<String>)
    ensures
        strings_view(r@) == strings_view(v@),
{
    let mut r: Vec<String> = Vec::new();
    let mut i: usize = 0;
    while i < v.len()
        invariant
            i <= v@.len(),
            strings_view(r@) == strings_view(v@).take(i as int),
        decreases v@.len() - i,
    {
        let ghost before = strings_view(r@);
        r.push(v[i].clone());
        proof {
            assert(strings_view(r@) =~= before.push(v@[i as int]@));
            assert(strings_view(v@).take(i + 1) =~= strings_view(v@).take(i as int).push(
                v@[i as int]@,
            ));
        }
        i = i + 1;
    }
    assert(strings_view(v@).take(i as int) =~= strings_view(v@));
    r
}

fn copy_value(v: &HeaderValue) -> (r: HeaderValue)
    ensures
        header_values(r) == header_values(*v),
        r is Single <==> v is Single,
{
    match v {
        HeaderValue::Single(s) => HeaderValue::Single(s.clone()),
        HeaderValue::Many(vs) => HeaderValue::Many(copy_strings(vs)),
    }
}

/// Whether the message has completed. The native backend never marks a
/// message complete before it is read to its end.
pub fn Node_HTTP_IncomingMessage_completeImpl(message: &IncomingState) -> (r: bool)
    ensures
        r == message@.complete,
{
    message.complete
}

/// The header object of the message.
pub fn Node_HTTP_IncomingMessage_headersImpl(message: &IncomingState) -> (r: Vec<
    (String, HeaderValue),
>)
    ensures
        object_view(r@) == message@.headers,
        forall|i: int| 0 <= i < r@.len() ==> ((#[trigger] r@[i]).1 is Single <==> message.headers@[i].1 is Single),
{
    let mut r: Vec<(String, HeaderValue)> = Vec::new();
    let mut i: usize = 0;
    while i < message.headers.len()
        invariant
            i <= message.headers@.len(),
            object_view(r@) == object_view(message.headers@).take(i as int),
            forall|k: int| 0 <= k < r@.len() ==> ((#[trigger] r@[k]).1 is Single <==> message.headers@[k].1 is Single),
        decreases message.headers@.len() - i,
    {
        let ghost before = object_view(r@);
        let entry = (message.headers[i].0.clone(), copy_value(&message.headers[i].1));
        r.push(entry);
        proof {
            assert(object_view(r@) =~= before.push(object_view(message.headers@)[i as int]));
            assert(object_view(message.headers@).take(i + 1) =~= object_view(message.headers@).take(
                i as int,
            ).push(object_view(message.headers@)[i as int]));
        }
        i = i + 1;
    }
    assert(object_view(message.headers@).take(i as int) =~= object_view(message.headers@));
    r
}

/// The values given for each name.
pub open spec fn distinct_view(d: Seq<(String, Vec<String>)>) -> Seq<GroupText> {
    d.map_values(|e: (String, Vec<String>)| (e.0@, strings_view(e.1@)))
}

/// Every header of the message with the list of its values, one value or
/// many.
pub fn Node_HTTP_IncomingMessage_headersDistinct(message: &IncomingState) -> (r: Vec<
    (String, Vec<String>),
>)
    ensures
        distinct_view(r@) == message@.headers,
{
    let mut r: Vec<(String, Vec<String>)> = Vec::new();
    let mut i: usize = 0;
    while i < message.headers.len()
        invariant
            i <= message.headers@.len(),
            distinct_view(r@) == object_view(message.headers@).take(i as int),
        decreases message.headers@.len() - i,
    {
        let values = match &message.headers[i].1 {
            HeaderValue::Single(s) => {
                let mut one: Vec<String> = Vec::new();
                one.push(s.clone());
                assert(strings_view(one@) =~= seq![s@]);
                one
            },
            HeaderValue::Many(vs) => copy_strings(vs),
        };
        let ghost before = distinct_view(r@);
        r.push((message.headers[i].0.clone(), values));
        proof {
            assert(distinct_view(r@) =~= before.push(object_view(message.headers@)[i as int]));
            assert(object_view(message.headers@).take(i + 1) =~= object_view(message.headers@).take(
                i as int,
            ).push(object_view(message.headers@)[i as int]));
        }
        i = i + 1;
    }
    assert(object_view(message.headers@).take(i as int) =~= object_view(message.headers@));
    r
}

pub fn Node_HTTP_IncomingMessage_httpVersion(message: &IncomingState) -> (r: String)
    ensures
        r@ == message@.http_version,
{
    message.http_version.clone()
}

pub fn Node_HTTP_IncomingMessage_method(message: &IncomingState) -> (r: String)
    ensures
        r@ == message@.method,
{
    message.method.clone()
}

/// Header names and values in turn, as received.
pub fn Node_HTTP_IncomingMessage_rawHeaders(message: &IncomingState) -> (r: Vec<String>)
    ensures
        strings_view(r@) == message@.raw_headers,
{
    copy_strings(&message.raw_headers)
}

/// Trailers are not read by the native backend: there are never any.
pub fn Node_HTTP_IncomingMessage_rawTrailersImpl(message: &IncomingState) -> (r: Option<
    Vec<String>,
>)
    ensures
        r is None,
{
    None
}

/// The status code of a response; 0 for a request.
pub fn Node_HTTP_IncomingMessage_statusCode(message: &IncomingState) -> (r: i64)
    ensures
        r == match message@.status_code {
            Some(c) => c,
            None => 0,
        },
{
    match message.status_code {
        Some(c) => c,
        None => 0,
    }
}

pub fn Node_HTTP_IncomingMessage_statusMessage(message: &IncomingState) -> (r: String)
    ensures
        r@ == message@.status_message,
{
    message.status_message.clone()
}

/// Trailers are not read by the native backend: there are never any.
pub fn Node_HTTP_IncomingMessage_trailersImpl(message: &IncomingState) -> (r: Option<
    Vec<(String, HeaderValue)>,
>)
    ensures
        r is None,
{
    None
}

/// The same as `trailersImpl`: there are never any trailers.
pub fn Node_HTTP_IncomingMessage_trailersDistinctImpl(message: &IncomingState) -> (r: Option<
    Vec<(String, HeaderValue)>,
>)
    ensures
        r is None,
{
    Node_HTTP_IncomingMessage_trailersImpl(message)
}

pub fn Node_HTTP_IncomingMessage_url(message: &IncomingState) -> (r: String)
    ensures
        r@ == message@.url,
{
    message.url.clone()
}

/// The version of a response is read from its status line: when the first
/// word is `HTTP/` followed by `v`, the version is `v` (`HTTP/1.0` gives
/// `1.0`), whatever the rest of the line and the headers are.
pub proof fn lemma_response_version(v: Seq<char>, rest: Seq<char>, headers: Seq<HeaderText>)
    requires
        forall|i: int| 0 <= i < v.len() ==> !crate::text::is_ws(#[trigger] v[i]),
        rest.len() == 0 || crate::text::is_ws(rest[0]),
    ensures
        response_of(seq!['H', 'T', 'T', 'P', '/'] + v + rest, headers).http_version == v,
{
    let w = seq!['H', 'T', 'T', 'P', '/'] + v;
    assert(crate::wire::one_word(w)) by {
        assert forall|i: int| 0 <= i < w.len() implies !crate::text::is_ws(#[trigger] w[i]) by {
            if i >= 5 {
                assert(w[i] == v[i - 5]);
            }
        }
    }
    crate::wire::lemma_words_front(w, rest);
    assert(words(w + rest)[0] == w);
    assert(w.take(5) =~= http_slash());
    assert(w.skip(5) =~= v);
}

/// A request line of three words is read as method, target and version: for
/// `m u HTTP/v`, the method is `m`, the URL `u` and the version `v`.
pub proof fn lemma_request_line_read(
    m: Seq<char>,
    u: Seq<char>,
    v: Seq<char>,
    headers: Seq<HeaderText>,
)
    requires
        crate::wire::one_word(m),
        crate::wire::one_word(u),
        forall|i: int| 0 <= i < v.len() ==> !crate::text::is_ws(#[trigger] v[i]),
    ensures
        ({
            let r = request_of(
                m + seq![' '] + u + seq![' '] + seq!['H', 'T', 'T', 'P', '/'] + v,
                headers,
            );
            r.method == m && r.url == u && r.http_version == v
        }),
{
    let w = seq!['H', 'T', 'T', 'P', '/'] + v;
    assert(crate::wire::one_word(w)) by {
        assert forall|i: int| 0 <= i < w.len() implies !crate::text::is_ws(#[trigger] w[i]) by {
            if i >= 5 {
                assert(w[i] == v[i - 5]);
            }
        }
    }
    let e = Seq::<char>::empty();
    crate::wire::lemma_words_front(w, e);
    assert(w + e =~= w);
    assert(words(e) =~= Seq::<Seq<char>>::empty());
    let t2 = seq![' '] + w;
    crate::wire::lemma_words_space(w);
    let t1 = u + t2;
    crate::wire::lemma_words_front(u, t2);
    let t0 = seq![' '] + t1;
    crate::wire::lemma_words_space(t1);
    crate::wire::lemma_words_front(m, t0);
    let start = m + seq![' '] + u + seq![' '] + w;
    assert(start =~= m + t0);
    assert(m + seq![' '] + u + seq![' '] + seq!['H', 'T', 'T', 'P', '/'] + v =~= start);
    assert(words(start) =~= seq![m, u, w]);
    assert(w.take(5) =~= http_slash());
    assert(w.skip(5) =~= v);
}

/// A status line is read as version, status code and message: for
/// `HTTP/v c msg`, with `c` written in decimal, the version is `v`, the
/// status code `c`, and the message the words of `msg` joined by single
/// spaces.
pub proof fn lemma_status_line_read(
    v: Seq<char>,
    c: i64,
    msg: Seq<char>,
    headers: Seq<HeaderText>,
)
    requires
        forall|i: int| 0 <= i < v.len() ==> !crate::text::is_ws(#[trigger] v[i]),
    ensures
        ({
            let r = response_of(
                seq!['H', 'T', 'T', 'P', '/'] + v + seq![' '] + crate::text::decimal_int(c as int)
                    + seq![' '] + msg,
                headers,
            );
            &&& r.http_version == v
            &&& r.status_code == Some(c)
            &&& r.status_message == join(words(msg), seq![' '])
        }),
{
    let w = seq!['H', 'T', 'T', 'P', '/'] + v;
    assert(crate::wire::one_word(w)) by {
        assert forall|i: int| 0 <= i < w.len() implies !crate::text::is_ws(#[trigger] w[i]) by {
            if i >= 5 {
                assert(w[i] == v[i - 5]);
            }
        }
    }
    let code = crate::text::decimal_int(c as int);
    crate::wire::lemma_decimal_int_parse(c);
    let t2 = seq![' '] + msg;
    crate::wire::lemma_words_space(msg);
    let t1 = code + t2;
    crate::wire::lemma_words_front(code, t2);
    let t0 = seq![' '] + t1;
    crate::wire::lemma_words_space(t1);
    crate::wire::lemma_words_front(w, t0);
    let start = w + seq![' '] + code + seq![' '] + msg;
    assert(start =~= w + t0);
    let ws = words(start);
    assert(ws =~= seq![w, code] + words(msg));
    assert(ws[0] == w);
    assert(ws[1] == code);
    if ws.len() > 2 {
        assert(ws.skip(2) =~= words(msg));
    } else {
        assert(words(msg) =~= Seq::<Seq<char>>::empty());
    }
    assert(w.take(5) =~= http_slash());
    assert(w.skip(5) =~= v);
}

/// The raw headers of a message are its header names and values in turn:
/// twice as many entries, the name of the `i`-th header at `2 i`, its value
/// at `2 i + 1`.
pub proof fn lemma_raw_headers_alternate(headers: Seq<HeaderText>)
    ensures
        message_of(headers).raw_headers.len() == 2 * headers.len(),
        forall|i: int|
            0 <= i < headers.len() ==> message_of(headers).raw_headers[2 * i] == (
            #[trigger] headers[i]).0 && message_of(headers).raw_headers[2 * i + 1] == headers[i].1,
    decreases headers.len(),
{
    if headers.len() > 0 {
        let front = headers.drop_last();
        lemma_raw_headers_alternate(front);
        let f = flat_headers(front);
        assert forall|i: int| 0 <= i < headers.len() implies message_of(headers).raw_headers[2
            * i] == (#[trigger] headers[i]).0 && message_of(headers).raw_headers[2 * i + 1]
            == headers[i].1 by {
            if i < front.len() {
                assert(headers[i] == front[i]);
                assert(f[2 * i] == front[i].0);
            }
        }
    }
}

} // verus!
