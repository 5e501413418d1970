//! Node's `http.ServerResponse`: the status of a response and the writing of
//! its head.
use vstd::prelude::*;

use crate::head::pairs_view;
use crate::outgoing::{
    after_flush, flushed_bytes, flushes, outgoing_flush_head, OutgoingState, OutgoingView,
};
use crate::request::{lower_names, opt_text};
use crate::text::ascii_lowercase;

verus! {

/// Whether the response sends a `date` header.
pub fn Node_HTTP_ServerResponse_sendDateImpl(response: &OutgoingState) -> (r: bool)
    ensures
        r == response@.send_date,
{
    response.send_date
}

pub fn Node_HTTP_ServerResponse_setSendDateImpl(flag: bool, response: &mut OutgoingState)
    ensures
        final(response)@ == (OutgoingView { send_date: flag, ..old(response)@ }),
{
    response.send_date = flag;
}

pub fn Node_HTTP_ServerResponse_statusCodeImpl(response: &OutgoingState) -> (r: i64)
    ensures
        r == response@.status_code,
{
    response.status_code
}

pub fn Node_HTTP_ServerResponse_setStatusCodeImpl(status: i64, response: &mut OutgoingState)
    ensures
        final(response)@ == (OutgoingView { status_code: status, ..old(response)@ }),
{
    response.status_code = status;
}

pub fn Node_HTTP_ServerResponse_statusMessageImpl(response: &OutgoingState) -> (r: String)
    ensures
        r@ == response@.status_message,
{
    response.status_message.clone()
}

pub fn Node_HTTP_ServerResponse_setStatusMessageImpl(message: String, response: &mut OutgoingState)
    ensures
        final(response)@ == (OutgoingView { status_message: message@, ..old(response)@ }),
{
    response.status_message = message;
}

/// Content lengths are not checked by the native backend.
pub fn Node_HTTP_ServerResponse_strictContentLengthImpl(response: &OutgoingState) -> (r: bool)
    ensures
        r == false,
{
    false
}

/// Content lengths are not checked: setting the flag changes nothing.
pub fn Node_HTTP_ServerResponse_setStrictContentLengthImpl(
    flag: bool,
    response: &mut OutgoingState,
)
    ensures
        final(response)@ == old(response)@,
{
}

/// Early hints are not sent by the native backend: nothing changes.
pub fn Node_HTTP_ServerResponse_writeEarlyHintsImpl(
    hints: &Vec<(String, String)>,
    response: &mut OutgoingState,
)
    ensures
        final(response)@ == old(response)@,
{
}

/// The response once `writeHead` has set its status and added headers, before
/// the head is flushed.
pub open spec fn with_head(
    s: OutgoingView,
    status: i64,
    message: Option<Seq<char>>,
    headers: Option<Seq<(Seq<char>, Seq<char>)>>,
) -> OutgoingView {
    OutgoingView {
        status_code: status,
        status_message: match message {
            Some(m) => m,
            None => s.status_message,
        },
        headers: match headers {
            Some(h) => s.headers + lower_names(h),
            None => s.headers,
        },
        ..s
    }
}

/// The headers that an optional list holds, as text.
pub open spec fn opt_pairs(o: Option<Vec<(String, String)>>) -> Option<Seq<(Seq<char>, Seq<char>)>> {
    match o {
        Some(h) => Some(pairs_view(h@)),
        None => None,
    }
}

/// Sets the status, and the status message and headers where given (each
/// header added after the existing ones, its name in lower case), then
/// flushes the head.
pub fn write_head(
    status: i64,
    message: Option<String>,
    headers: Option<Vec<(String, String)>>,
    response: &mut OutgoingState,
    now: i64,
) -> (r: Option<(i32, Vec<u8>)>)
    ensures
        ({
            let s = with_head(old(response)@, status, opt_text(message), opt_pairs(headers));
            &&& !flushes(s) ==> r is None && final(response)@ == s
            &&& flushes(s) ==> (r matches Some(w) && w.0 == s.fd->0 && w.1@
                == flushed_bytes(s, now as int))
            &&& flushes(s) ==> final(response)@ == after_flush(s)
        }),
{
    let ghost message_view = opt_text(message);
    let ghost headers_view = opt_pairs(headers);
    response.status_code = status;
    match message {
        Some(m) => {
            response.status_message = m;
        },
        None => {},
    }
    match headers {
        Some(hs) => {
            let ghost base = pairs_view(response.headers@);
            let ghost given = pairs_view(hs@);
            let mut i: usize = 0;
            while i < hs.len()
                invariant
                    i <= hs@.len(),
                    given == pairs_view(hs@),
                    pairs_view(response.headers@) == base + lower_names(given).take(i as int),
                    response@ == (OutgoingView {
                        headers: pairs_view(response.headers@),
                        ..with_head(old(response)@, status, message_view, None)
                    }),
                decreases hs@.len() - i,
            {
                let name = ascii_lowercase(hs[i].0.as_str());
                let ghost before = pairs_view(response.headers@);
                response.headers.push((name, hs[i].1.clone()));
                proof {
                    assert(pairs_view(response.headers@) =~= before.push(lower_names(given)[i as int]));
                    assert(lower_names(given).take(i + 1) =~= lower_names(given).take(i as int).push(
                        lower_names(given)[i as int],
                    ));
                }
                i = i + 1;
            }
            assert(lower_names(given).take(i as int) =~= lower_names(given));
        },
        None => {},
    }
    assert(response@ =~= with_head(old(response)@, status, message_view, headers_view));
    outgoing_flush_head(response, now)
}

/// `writeHead(status)`.
pub fn Node_HTTP_ServerResponse_writeHeadImpl(status: i64, response: &mut OutgoingState, now: i64) -> (r:
    Option<(i32, Vec<u8>)>)
    ensures
        ({
            let s = with_head(old(response)@, status, None, None);
            &&& !flushes(s) ==> r is None && final(response)@ == s
            &&& flushes(s) ==> (r matches Some(w) && w.0 == s.fd->0 && w.1@
                == flushed_bytes(s, now as int))
            &&& flushes(s) ==> final(response)@ == after_flush(s)
        }),
{
    write_head(status, None, None, response, now)
}

/// `writeHead(status, message)`.
pub fn Node_HTTP_ServerResponse_writeHeadMsgImpl(
    status: i64,
    message: String,
    response: &mut OutgoingState,
    now: i64,
) -> (r: Option<(i32, Vec<u8>)>)
    ensures
        ({
            let s = with_head(old(response)@, status, Some(message@), None);
            &&& !flushes(s) ==> r is None && final(response)@ == s
            &&& flushes(s) ==> (r matches Some(w) && w.0 == s.fd->0 && w.1@
                == flushed_bytes(s, now as int))
            &&& flushes(s) ==> final(response)@ == after_flush(s)
        }),
{
    write_head(status, Some(message), None, response, now)
}

/// `writeHead(status, headers)`.
pub fn Node_HTTP_ServerResponse_writeHeadHeadersImpl(
    status: i64,
    headers: Vec<(String, String)>,
    response: &mut OutgoingState,
    now: i64,
) -> (r: Option<(i32, Vec<u8>)>)
    ensures
        ({
            let s = with_head(old(response)@, status, None, Some(pairs_view(headers@)));
            &&& !flushes(s) ==> r is None && final(response)@ == s
            &&& flushes(s) ==> (r matches Some(w) && w.0 == s.fd->0 && w.1@
                == flushed_bytes(s, now as int))
            &&& flushes(s) ==> final(response)@ == after_flush(s)
        }),
{
    write_head(status, None, Some(headers), response, now)
}

/// `writeHead(status, message, headers)`.
pub fn Node_HTTP_ServerResponse_writeHeadMsgHeadersImpl(
    status: i64,
    message: String,
    headers: Vec<(String, String)>,
    response: &mut OutgoingState,
    now: i64,
) -> (r: Option<(i32, Vec<u8>)>)
    ensures
        ({
            let s = with_head(old(response)@, status, Some(message@), Some(pairs_view(headers@)));
            &&& !flushes(s) ==> r is None && final(response)@ == s
            &&& flushes(s) ==> (r matches Some(w) && w.0 == s.fd->0 && w.1@
                == flushed_bytes(s, now as int))
            &&& flushes(s) ==> final(response)@ == after_flush(s)
        }),
{
    write_head(status, Some(message), Some(headers), response, now)
}

/// `102 Processing` is not sent by the native backend: nothing changes.
pub fn Node_HTTP_ServerResponse_writeProcessingImpl(response: &mut OutgoingState)
    ensures
        final(response)@ == old(response)@,
{
}

/// `writeHead` keeps every header already set, in order, and adds the given
/// headers after them, each name in ASCII lower case and each value as given;
/// it sets the status, and the status message when one is given.
pub proof fn lemma_write_head_keeps_headers(
    s: OutgoingView,
    status: i64,
    message: Option<Seq<char>>,
    given: Seq<(Seq<char>, Seq<char>)>,
)
    ensures
        ({
            let t = with_head(s, status, message, Some(given));
            &&& t.headers.len() == s.headers.len() + given.len()
            &&& forall|i: int| 0 <= i < s.headers.len() ==> #[trigger] t.headers[i] == s.headers[i]
            &&& forall|j: int|
                0 <= j < given.len() ==> t.headers[s.headers.len() + j] == (
                    crate::text::lower((#[trigger] given[j]).0),
                    given[j].1,
                )
            &&& t.status_code == status
            &&& t.status_message == match message {
                Some(m) => m,
                None => s.status_message,
            }
        }),
        with_head(s, status, message, None).headers == s.headers,
{
    let t = with_head(s, status, message, Some(given));
    assert forall|j: int| 0 <= j < given.len() implies t.headers[s.headers.len() + j] == (
        crate::text::lower((#[trigger] given[j]).0),
        given[j].1,
    ) by {
        assert(t.headers[s.headers.len() + j] == lower_names(given)[j]);
    }
}

} // verus!
