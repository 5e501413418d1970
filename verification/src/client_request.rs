//! Node's `http.ClientRequest`: what a request says of itself, and how it
//! reads the response that comes back on its socket.
use vstd::prelude::*;

use crate::head::head_taken;
use crate::incoming::{response_of, response_state, IncomingState};
use crate::outgoing::{OutgoingState, OutgoingView};

verus! {

pub fn Node_HTTP_ClientRequest_path(request: &OutgoingState) -> (r: String)
    ensures
        r@ == request@.path,
{
    request.path.clone()
}

pub fn Node_HTTP_ClientRequest_method(request: &OutgoingState) -> (r: String)
    ensures
        r@ == request@.method,
{
    request.method.clone()
}

pub fn Node_HTTP_ClientRequest_host(request: &OutgoingState) -> (r: String)
    ensures
        r@ == request@.host,
{
    request.host.clone()
}

pub fn Node_HTTP_ClientRequest_protocol(request: &OutgoingState) -> (r: String)
    ensures
        r@ == request@.protocol,
{
    request.protocol.clone()
}

/// Sockets are never reused by the native backend.
pub fn Node_HTTP_ClientRequest_reusedSocket(request: &OutgoingState) -> (r: bool)
    ensures
        r == false,
{
    false
}

/// Socket options are not applied by the native backend: nothing changes.
pub fn Node_HTTP_ClientRequest_setNoDelayImpl(no_delay: bool, request: &mut OutgoingState)
    ensures
        final(request)@ == old(request)@,
{
}

/// Socket options are not applied by the native backend: nothing changes.
pub fn Node_HTTP_ClientRequest_setSocketKeepAliveImpl(
    enable: bool,
    initial_delay: i64,
    request: &mut OutgoingState,
)
    ensures
        final(request)@ == old(request)@,
{
}

/// Timeouts are not kept by the native backend: nothing changes.
pub fn Node_HTTP_ClientRequest_setTimeoutImpl(milliseconds: i64, request: &mut OutgoingState)
    ensures
        final(request)@ == old(request)@,
{
}

/// What a chunk of bytes from a request's socket amounts to.
pub enum ClientEvent {
    /// Body bytes of the response that has already arrived.
    Body(Vec<u8>),
    /// The response head is not complete yet; the bytes are kept.
    Waiting,
    /// The response head has arrived: the response, and the body bytes that
    /// came after its head.
    Response(IncomingState, Vec<u8>),
}

/// Reads bytes from the request's socket: once the response has begun they
/// are its body; before, they are buffered until its head is whole.
pub fn client_ingest(request: &mut OutgoingState, bytes: &[u8]) -> (r: ClientEvent)
    ensures
        old(request)@.response_started ==> (r matches ClientEvent::Body(b) && b@ == bytes@)
            && final(request)@ == old(request)@,
        !old(request)@.response_started ==> match head_taken(old(request)@.reader + bytes@) {
            None => r is Waiting && final(request)@ == (OutgoingView {
                reader: old(request)@.reader + bytes@,
                ..old(request)@
            }),
            Some(t) => (r matches ClientEvent::Response(m, rest) && m@ == response_of(t.0, t.1)
                && rest@ == t.2) && final(request)@ == (OutgoingView {
                reader: Seq::empty(),
                response_started: true,
                ..old(request)@
            }),
        },
{
    if request.response_started {
        let mut body: Vec<u8> = Vec::new();
        body.extend_from_slice(bytes);
        assert(body@ =~= bytes@);
        return ClientEvent::Body(body);
    }
    request.reader.push(bytes);
    match request.reader.take_head() {
        None => ClientEvent::Waiting,
        Some((start, headers, rest)) => {
            request.response_started = true;
            let response = response_state(&start, headers.as_slice());
            ClientEvent::Response(response, rest)
        },
    }
}

} // verus!
