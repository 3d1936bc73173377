//! Which endpoints a channel can be made to.

use vstd::prelude::*;
use crate::client::error::{ClientError, ClientErrorView};
use crate::text;

verus! {

/// What the transport has against a URI as an endpoint, in words; `None` where it takes it.
pub uninterp spec fn endpoint_fault(uri: Seq<char>) -> Option<Seq<char>>;

/// `tonic::transport::Channel::from_shared`: reads a URI as an endpoint. No connection is made, so
/// that the answer depends on the URI alone: this claims that it is the named one, the text of the
/// error where there is one. Which URIs are taken is left unsaid.
#[verifier::external_body]
fn fault_of(uri: &str) -> (r: Option<String>)
    ensures
        text::opt_text(r) == endpoint_fault(uri@),
{
    match tonic::transport::Channel::from_shared(uri.to_string()) {
        Ok(_) => None,
        Err(e) => Some(e.to_string()),
    }
}

/// An endpoint, given what the transport has against it.
pub open spec fn accepted(uri: Seq<char>, fault: Option<Seq<char>>) -> Result<
    Seq<char>,
    ClientErrorView,
> {
    match fault {
        None => Ok(uri),
        Some(m) => Err(ClientErrorView::Key("invalid endpoint: "@ + m)),
    }
}

/// An endpoint that a channel can be made to, or the error.
pub open spec fn opened(uri: Seq<char>) -> Result<Seq<char>, ClientErrorView> {
    accepted(uri, endpoint_fault(uri))
}

/// A text or an error as values.
pub open spec fn text_result(r: Result<String, ClientError>) -> Result<Seq<char>, ClientErrorView> {
    match r {
        Ok(s) => Ok(s@),
        Err(e) => Err(e@),
    }
}

/// An endpoint, given what the transport has against it.
pub fn accept(uri: String, fault: Option<String>) -> (r: Result<String, ClientError>)
    ensures
        text_result(r) == accepted(uri@, text::opt_text(fault)),
{
    match fault {
        None => Ok(uri),
        Some(m) => {
            let mut full: String = text::owned("invalid endpoint: ");
            full.push_str(m.as_str());
            Err(ClientError::Key(full))
        },
    }
}

/// An endpoint that a channel can be made to. It is connected on the first request.
pub fn lazy_channel(uri: String) -> (r: Result<String, ClientError>)
    ensures
        text_result(r) == opened(uri@),
{
    let fault = fault_of(uri.as_str());
    accept(uri, fault)
}

} // verus!
