//! Node's `http` module: the header size limit, and the plans of the
//! requests that `request` and `get` make from a URL and options.
use vstd::prelude::*;

use crate::request::{opt_text, parse_request_options, plan_of, OptionsView, RequestOptions, RequestPlan};

verus! {

/// Options that give nothing.
pub open spec fn no_options() -> OptionsView {
    OptionsView { hostname: None, host: None, port: None, method: None, path: None, headers: None }
}

/// The largest head that a server reads, in bytes.
pub fn Node_HTTP_maxHeaderSize() -> (r: i64)
    ensures
        r == 16384,
{
    16384
}

/// `http.request(url)`: `url` is the text of the URL when it is a string.
pub fn Node_HTTP_requestStrImpl(url: Option<String>) -> (r: RequestPlan)
    ensures
        r@ == plan_of(no_options(), opt_text(url)),
{
    parse_request_options(&RequestOptions::empty(), url)
}

/// `http.request(url)` with a URL value; the same as `requestStrImpl`.
pub fn Node_HTTP_requestUrlImpl(url: Option<String>) -> (r: RequestPlan)
    ensures
        r@ == plan_of(no_options(), opt_text(url)),
{
    Node_HTTP_requestStrImpl(url)
}

/// `http.request(url, options)`.
pub fn Node_HTTP_requestStrOptsImpl(url: Option<String>, options: &RequestOptions) -> (r: RequestPlan)
    ensures
        r@ == plan_of(options@, opt_text(url)),
{
    parse_request_options(options, url)
}

/// `http.request(url, options)` with a URL value.
pub fn Node_HTTP_requestUrlOptsImpl(url: Option<String>, options: &RequestOptions) -> (r: RequestPlan)
    ensures
        r@ == plan_of(options@, opt_text(url)),
{
    Node_HTTP_requestStrOptsImpl(url, options)
}

/// `http.request(options)`.
pub fn Node_HTTP_requestOptsImpl(options: &RequestOptions) -> (r: RequestPlan)
    ensures
        r@ == plan_of(options@, None),
{
    parse_request_options(options, None)
}

/// `http.get(url)`: planned as `request(url)`.
pub fn Node_HTTP_getStrImpl(url: Option<String>) -> (r: RequestPlan)
    ensures
        r@ == plan_of(no_options(), opt_text(url)),
{
    parse_request_options(&RequestOptions::empty(), url)
}

/// `http.get(url)` with a URL value.
pub fn Node_HTTP_getUrlImpl(url: Option<String>) -> (r: RequestPlan)
    ensures
        r@ == plan_of(no_options(), opt_text(url)),
{
    Node_HTTP_getStrImpl(url)
}

/// `http.get(url, options)`: planned as `request(url, options)`.
pub fn Node_HTTP_getStrOptsImpl(url: Option<String>, options: &RequestOptions) -> (r: RequestPlan)
    ensures
        r@ == plan_of(options@, opt_text(url)),
{
    Node_HTTP_requestStrOptsImpl(url, options)
}

/// `http.get(url, options)` with a URL value.
pub fn Node_HTTP_getUrlOptsImpl(url: Option<String>, options: &RequestOptions) -> (r: RequestPlan)
    ensures
        r@ == plan_of(options@, opt_text(url)),
{
    Node_HTTP_requestStrOptsImpl(url, options)
}

/// `http.get(options)`: planned as `request(options)`.
pub fn Node_HTTP_getOptsImpl(options: &RequestOptions) -> (r: RequestPlan)
    ensures
        r@ == plan_of(options@, None),
{
    Node_HTTP_requestOptsImpl(options)
}

} // verus!
