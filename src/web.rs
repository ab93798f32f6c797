//! The rules of the HTTP surface: who may ask for a custom code, and which
//! reply each outcome gets.
use vstd::prelude::*;
use crate::db::{
    add_short_link, create_outcome, get_short_link, find_short, option_view, LinkStore, LinkView,
    Model, StoreError,
};

verus! {

/// Why a create request was turned down.
#[derive(Clone, Copy, Debug, PartialEq, Eq, Structural)]
pub enum SubmitError {
    /// A custom code was asked for without the one valid api key.
    Rejected,
    /// The table refused the write.
    Store(StoreError),
}

/// The reply that the HTTP surface sends.
#[derive(Clone, Debug, PartialEq, Eq)]
pub enum Reply {
    /// The record was created, or was there already.
    Created,
    /// Redirect to this target.
    Found(String),
    /// No record has this code.
    NotFound,
    /// The request was turned down: a custom code without a valid key.
    BadRequest,
    /// The table refused the write; the cause is not shown to the client.
    InternalError,
}

/// Whether `keys`, the values of the api key header, are exactly one value,
/// equal to the configured secret.
pub open spec fn key_accepted(keys: Seq<Seq<char>>, secret: Option<Seq<char>>) -> bool {
    keys.len() == 1 && secret == Some(keys[0])
}

/// Whether `key` is the configured secret; with no secret no key is valid.
pub fn api_key_valid(secret: &Option<String>, key: &String) -> (r: bool)
    ensures
        r == (secret.is_some() && secret->Some_0@ == key@),
{
    match secret {
        Some(s) => *s == *key,
        None => false,
    }
}

/// Whether the request may ask for a custom code.
pub fn custom_allowed(keys: &Vec<String>, secret: &Option<String>) -> (r: bool)
    ensures
        r == key_accepted(keys@.map_values(|k: String| k@), option_view(*secret)),
{
    keys.len() == 1 && api_key_valid(secret, &keys[0])
}

/// The create's result inside a request's result; `None` for a request
/// that was turned down.
pub open spec fn submit_view(r: Result<Model, SubmitError>) -> Option<Result<LinkView, StoreError>> {
    match r {
        Ok(m) => Some(Ok(m@)),
        Err(SubmitError::Store(e)) => Some(Err(e)),
        Err(SubmitError::Rejected) => None,
    }
}

/// A create request: turned down, before the table is touched, when it asks
/// for a custom code without a valid key; else a create as `add_short_link`.
pub fn submit_link(
    store: &mut LinkStore,
    link: String,
    custom: Option<String>,
    keys: &Vec<String>,
    secret: &Option<String>,
) -> (r: Result<Model, SubmitError>)
    requires
        old(store).wf(),
    ensures
        final(store).wf(),
        (r == Err::<Model, SubmitError>(SubmitError::Rejected)) <==> (custom is Some
            && !key_accepted(keys@.map_values(|k: String| k@), option_view(*secret))),
        r == Err::<Model, SubmitError>(SubmitError::Rejected) ==> *final(store) == *old(store),
        r != Err::<Model, SubmitError>(SubmitError::Rejected) ==> exists|token: Seq<char>|
            token.len() == 36 && submit_view(r) == Some(
                create_outcome(old(store)@, link@, option_view(custom), token).0,
            ) && final(store)@ == create_outcome(old(store)@, link@, option_view(custom), token).1,
{
    if custom.is_some() && !custom_allowed(keys, secret) {
        return Err(SubmitError::Rejected);
    }
    match add_short_link(store, link, custom) {
        Ok(m) => Ok(m),
        Err(e) => Err(SubmitError::Store(e)),
    }
}

/// The reply to a create request: a request turned down is the client's
/// fault, a refused write is an internal failure.
pub fn submit_reply(r: &Result<Model, SubmitError>) -> (reply: Reply)
    ensures
        r is Ok ==> reply == Reply::Created,
        *r == Err::<Model, SubmitError>(SubmitError::Rejected) ==> reply == Reply::BadRequest,
        r matches Err(SubmitError::Store(_)) ==> reply == Reply::InternalError,
{
    match r {
        Ok(_) => Reply::Created,
        Err(SubmitError::Rejected) => Reply::BadRequest,
        Err(SubmitError::Store(_)) => Reply::InternalError,
    }
}

/// The reply to a lookup of `short`: a redirect to its target, or not found.
pub fn resolve_reply(store: &LinkStore, short: String) -> (reply: Reply)
    requires
        store.wf(),
    ensures
        match find_short(store@.rows, short@) {
            Some(v) => reply matches Reply::Found(l) && l@ == v.link,
            None => reply == Reply::NotFound,
        },
{
    match get_short_link(store, short) {
        Some(m) => Reply::Found(m.link),
        None => Reply::NotFound,
    }
}

} // verus!
