//! Node's `http.OutgoingMessage`: editing the headers of an outgoing message
//! and flushing its head.
use vstd::prelude::*;

use crate::head::{group_headers, object_view, singles_exactly_once, strings_view, HeaderValue};
use crate::outgoing::{
    after_flush, comma, flushed_bytes, flushes, input_text, join_strings, names_of,
    outgoing_flush_head, outgoing_header, outgoing_header_names, outgoing_headers,
    outgoing_remove_header, outgoing_set_header, set_value, value_of, with_headers, without_name,
    lemma_get_after_set,
    HeaderInput, OutgoingState,
};
use crate::text::{chars_of, eq_ignore_case, join, lower, string_of};

verus! {

/// The value that appending `value` to the header `name` gives: the old
/// value, `, ` and the new one, or the new one alone.
pub open spec fn appended(old: Option<Seq<char>>, value: Seq<char>) -> Seq<char> {
    match old {
        Some(e) => e + comma() + value,
        None => value,
    }
}

/// The headers once `value` is appended to the header `name`.
pub open spec fn append_value(hs: Seq<(Seq<char>, Seq<char>)>, name: Seq<char>, value: Seq<char>) -> Seq<
    (Seq<char>, Seq<char>),
> {
    set_value(hs, lower(name), appended(value_of(hs, lower(name)), value))
}

/// Trailers are not sent by the native backend: adding them changes nothing.
pub fn Node_HTTP_OutgoingMessage_addTrailersImpl(
    trailers: &Vec<(String, String)>,
    message: &mut OutgoingState,
)
    ensures
        final(message)@ == old(message)@,
{
}

fn append_to(name: String, value: String, message: &mut OutgoingState)
    ensures
        final(message)@ == with_headers(
            old(message)@,
            append_value(old(message)@.headers, name@, value@),
        ),
{
    let existing = outgoing_header(message, name.clone());
    let combined = match existing {
        Some(e) => {
            let mut cs = chars_of(e.as_str());
            cs.push(',');
            cs.push(' ');
            cs.extend_from_slice(chars_of(value.as_str()).as_slice());
            assert(cs@ =~= e@ + comma() + value@);
            string_of(cs.as_slice())
        },
        None => value,
    };
    outgoing_set_header(message, name, HeaderInput::Text(combined));
}

/// Adds a value to a header: after the values it has, separated by `, `.
pub fn Node_HTTP_OutgoingMessage_appendHeaderImpl(
    name: String,
    value: String,
    message: &mut OutgoingState,
)
    ensures
        final(message)@ == with_headers(
            old(message)@,
            append_value(old(message)@.headers, name@, value@),
        ),
{
    append_to(name, value, message)
}

/// Adds several values to a header, joined by `, `.
pub fn Node_HTTP_OutgoingMessage_appendHeadersImpl(
    name: String,
    values: Vec<String>,
    message: &mut OutgoingState,
)
    ensures
        final(message)@ == with_headers(
            old(message)@,
            append_value(old(message)@.headers, name@, join(strings_view(values@), comma())),
        ),
{
    let sep = vec![',', ' '];
    assert(sep@ =~= comma());
    let joined = join_strings(&values, sep.as_slice());
    append_to(name, joined, message)
}

/// Flushes the head of the message: hands back what to write to which
/// descriptor, or nothing when the head is sent or no descriptor is set.
pub fn Node_HTTP_OutgoingMessage_flushHeadersImpl(message: &mut OutgoingState, now: i64) -> (r:
    Option<(i32, Vec<u8>)>)
    ensures
        !flushes(old(message)@) ==> r is None && final(message)@ == old(message)@,
        flushes(old(message)@) ==> (r matches Some(w) && w.0 == old(message)@.fd->0 && w.1@
            == flushed_bytes(old(message)@, now as int)),
        flushes(old(message)@) ==> final(message)@ == after_flush(old(message)@),
{
    outgoing_flush_head(message, now)
}

/// The value of a header, its name compared in ASCII lower case.
pub fn Node_HTTP_OutgoingMessage_getHeaderImpl(name: String, message: &OutgoingState) -> (r:
    Option<String>)
    ensures
        r matches Some(v) ==> value_of(message@.headers, lower(name@)) == Some(v@),
        r is None ==> value_of(message@.headers, lower(name@)) is None,
{
    outgoing_header(message, name)
}

/// The names of the headers, in the order in which they were set.
pub fn Node_HTTP_OutgoingMessage_getHeaderNamesImpl(message: &OutgoingState) -> (r: Vec<String>)
    ensures
        strings_view(r@) == names_of(message@.headers),
{
    outgoing_header_names(message)
}

/// The headers as a header object.
pub fn Node_HTTP_OutgoingMessage_getHeadersImpl(message: &OutgoingState) -> (r: Vec<
    (String, HeaderValue),
>)
    ensures
        object_view(r@) == group_headers(message@.headers),
        singles_exactly_once(r@),
{
    outgoing_headers(message)
}

/// Whether the message has a header of that name, in ASCII lower case.
pub fn Node_HTTP_OutgoingMessage_hasHeaderImpl(name: String, message: &OutgoingState) -> (r: bool)
    ensures
        r == value_of(message@.headers, lower(name@)) is Some,
{
    outgoing_header(message, name).is_some()
}

/// Whether the head has been sent.
pub fn Node_HTTP_OutgoingMessage_headersSentImpl(message: &OutgoingState) -> (r: bool)
    ensures
        r == message@.headers_sent,
{
    message.headers_sent
}

/// Removes the headers of that name, in ASCII lower case.
pub fn Node_HTTP_OutgoingMessage_removeHeaderImpl(name: String, message: &mut OutgoingState)
    ensures
        final(message)@ == with_headers(
            old(message)@,
            without_name(old(message)@.headers, lower(name@)),
        ),
{
    outgoing_remove_header(message, name)
}

/// Sets a header, replacing the value of a header of that name.
pub fn Node_HTTP_OutgoingMessage_setHeaderImpl(
    name: String,
    value: HeaderInput,
    message: &mut OutgoingState,
)
    ensures
        final(message)@ == with_headers(
            old(message)@,
            set_value(old(message)@.headers, lower(name@), input_text(value)),
        ),
{
    outgoing_set_header(message, name, value)
}

/// Sets a header to several values, joined by `, `; the same as
/// `setHeaderImpl`.
pub fn Node_HTTP_OutgoingMessage_setHeaderArrImpl(
    name: String,
    value: HeaderInput,
    message: &mut OutgoingState,
)
    ensures
        final(message)@ == with_headers(
            old(message)@,
            set_value(old(message)@.headers, lower(name@), input_text(value)),
        ),
{
    Node_HTTP_OutgoingMessage_setHeaderImpl(name, value, message)
}

/// Timeouts are not kept by the native backend: setting one changes nothing.
pub fn Node_HTTP_OutgoingMessage_setTimeoutImpl(milliseconds: i64, message: &mut OutgoingState)
    ensures
        final(message)@ == old(message)@,
{
}

/// Header names are compared regardless of ASCII case: a header set under
/// one spelling of a name is read back under any other.
pub proof fn lemma_case_insensitive_names(
    hs: Seq<(Seq<char>, Seq<char>)>,
    set_as: Seq<char>,
    read_as: Seq<char>,
    value: Seq<char>,
)
    requires
        eq_ignore_case(set_as, read_as),
    ensures
        value_of(set_value(hs, lower(set_as), value), lower(read_as)) == Some(value),
{
    lemma_get_after_set(hs, lower(set_as), value);
}

/// Appending to a header reads back as its old value, `, ` and the new one.
pub proof fn lemma_get_after_append(hs: Seq<(Seq<char>, Seq<char>)>, name: Seq<char>, value: Seq<char>)
    ensures
        value_of(append_value(hs, name, value), lower(name)) == Some(
            appended(value_of(hs, lower(name)), value),
        ),
{
    lemma_get_after_set(hs, lower(name), appended(value_of(hs, lower(name)), value));
}

} // verus!
