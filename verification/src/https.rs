//! Node's `https` module: secure requests are planned as plain ones, and a
//! secure server takes its TLS identity from a PKCS #8 key and a certificate.
use vstd::prelude::*;

use crate::http::{
    no_options, Node_HTTP_getOptsImpl, Node_HTTP_getStrImpl, Node_HTTP_getStrOptsImpl,
    Node_HTTP_getUrlImpl, Node_HTTP_getUrlOptsImpl, Node_HTTP_requestOptsImpl,
    Node_HTTP_requestStrImpl, Node_HTTP_requestStrOptsImpl, Node_HTTP_requestUrlImpl,
    Node_HTTP_requestUrlOptsImpl,
};
use crate::request::{opt_text, plan_of, RequestOptions, RequestPlan};

verus! {

pub fn Node_HTTPS_requestStrImpl(url: Option<String>) -> (r: RequestPlan)
    ensures
        r@ == plan_of(no_options(), opt_text(url)),
{
    Node_HTTP_requestStrImpl(url)
}

pub fn Node_HTTPS_requestUrlImpl(url: Option<String>) -> (r: RequestPlan)
    ensures
        r@ == plan_of(no_options(), opt_text(url)),
{
    Node_HTTP_requestUrlImpl(url)
}

pub fn Node_HTTPS_requestStrOptsImpl(url: Option<String>, options: &RequestOptions) -> (r: RequestPlan)
    ensures
        r@ == plan_of(options@, opt_text(url)),
{
    Node_HTTP_requestStrOptsImpl(url, options)
}

pub fn Node_HTTPS_requestUrlOptsImpl(url: Option<String>, options: &RequestOptions) -> (r: RequestPlan)
    ensures
        r@ == plan_of(options@, opt_text(url)),
{
    Node_HTTP_requestUrlOptsImpl(url, options)
}

pub fn Node_HTTPS_requestOptsImpl(options: &RequestOptions) -> (r: RequestPlan)
    ensures
        r@ == plan_of(options@, None),
{
    Node_HTTP_requestOptsImpl(options)
}

pub fn Node_HTTPS_getStrImpl(url: Option<String>) -> (r: RequestPlan)
    ensures
        r@ == plan_of(no_options(), opt_text(url)),
{
    Node_HTTP_getStrImpl(url)
}

pub fn Node_HTTPS_getUrlImpl(url: Option<String>) -> (r: RequestPlan)
    ensures
        r@ == plan_of(no_options(), opt_text(url)),
{
    Node_HTTP_getUrlImpl(url)
}

pub fn Node_HTTPS_getStrOptsImpl(url: Option<String>, options: &RequestOptions) -> (r: RequestPlan)
    ensures
        r@ == plan_of(options@, opt_text(url)),
{
    Node_HTTP_getStrOptsImpl(url, options)
}

pub fn Node_HTTPS_getUrlOptsImpl(url: Option<String>, options: &RequestOptions) -> (r: RequestPlan)
    ensures
        r@ == plan_of(options@, opt_text(url)),
{
    Node_HTTP_getUrlOptsImpl(url, options)
}

pub fn Node_HTTPS_getOptsImpl(options: &RequestOptions) -> (r: RequestPlan)
    ensures
        r@ == plan_of(options@, None),
{
    Node_HTTP_getOptsImpl(options)
}

} // verus!
