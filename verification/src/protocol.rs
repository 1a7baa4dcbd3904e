//! What a client asks of a server and what the server answers, and how
//! each side reads the other.

use crate::engines::handle::KvsEngine;
use crate::engines::kvs::StoreWriter;
use crate::error::{key_not_found_text, KvsError, Result};
use crate::history::lookup;
use vstd::prelude::*;
use vstd::string::*;

verus! {

/// What a client asks for: one request for each connection.
#[derive(Debug)]
pub enum Request {
    /// Give `key` the value `value`; on the wire this is `Set`.
    SetValue { key: String, value: String },
    /// Say which value `key` has.
    Get { key: String },
    /// Take the value of `key` away.
    Remove { key: String },
}

/// A request as mathematics.
pub enum RequestView {
    SetValue { key: Seq<char>, value: Seq<char> },
    Get { key: Seq<char> },
    Remove { key: Seq<char> },
}

impl View for Request {
    type V = RequestView;

    open spec fn view(&self) -> RequestView {
        match self {
            Request::SetValue { key, value } => RequestView::SetValue { key: key@, value: value@ },
            Request::Get { key } => RequestView::Get { key: key@ },
            Request::Remove { key } => RequestView::Remove { key: key@ },
        }
    }
}

impl RequestView {
    /// What a store that holds `held` holds after the request.
    pub open spec fn effect(self, held: Map<Seq<char>, Seq<char>>) -> Map<Seq<char>, Seq<char>> {
        match self {
            RequestView::SetValue { key, value } => held.insert(key, value),
            RequestView::Get { .. } => held,
            RequestView::Remove { key } => held.remove(key),
        }
    }

    /// What a store that holds `held` answers to the request.
    pub open spec fn answer(self, held: Map<Seq<char>, Seq<char>>) -> ResponseView {
        match self {
            RequestView::SetValue { .. } => ResponseView::Done(None),
            RequestView::Get { key } => ResponseView::Done(lookup(held, key)),
            RequestView::Remove { key } => if held.contains_key(key) {
                ResponseView::Done(None)
            } else {
                ResponseView::Failed(key_not_found_text())
            },
        }
    }
}

/// What a server answers; on the wire the two are `Ok` and `Err`.
#[derive(Debug)]
pub enum Response {
    /// The request was carried out; for a `Get` this is the value found.
    Done(Option<String>),
    /// The request failed, for the reason given.
    Failed(String),
}

/// The answer to a request as mathematics: the value found, or the text
/// of the failure.
pub enum ResponseView {
    Done(Option<Seq<char>>),
    Failed(Seq<char>),
}

impl View for Response {
    type V = ResponseView;

    open spec fn view(&self) -> ResponseView {
        match self {
            Response::Done(Some(value)) => ResponseView::Done(Some(value@)),
            Response::Done(None) => ResponseView::Done(None),
            Response::Failed(text) => ResponseView::Failed(text@),
        }
    }
}

/// The answer to a `Set` or a `Remove` with the outcome `outcome`: done
/// and no value, or failed with the text of the error.
pub open spec fn change_answer(outcome: Result<()>) -> ResponseView {
    match outcome {
        Ok(_) => ResponseView::Done(None),
        Err(e) => ResponseView::Failed(e.spec_message()),
    }
}

/// The answer to a `Get` with the outcome `outcome`: done with the value
/// found, if any, or failed with the text of the error.
pub open spec fn get_answer(outcome: Result<Option<String>>) -> ResponseView {
    match outcome {
        Ok(Some(value)) => ResponseView::Done(Some(value@)),
        Ok(None) => ResponseView::Done(None),
        Err(e) => ResponseView::Failed(e.spec_message()),
    }
}

/// The answer to a `Set` or a `Remove` that the engine carried out with
/// the outcome `outcome`.
pub fn respond_change(outcome: Result<()>) -> (response: Response)
    ensures
        response@ == change_answer(outcome),
{
    match outcome {
        Ok(_) => Response::Done(None),
        Err(e) => Response::Failed(e.message()),
    }
}

/// The answer to a `Get` for which the engine gave `outcome`.
pub fn respond_get(outcome: Result<Option<String>>) -> (response: Response)
    ensures
        response@ == get_answer(outcome),
{
    match outcome {
        Ok(found) => Response::Done(found),
        Err(e) => Response::Failed(e.message()),
    }
}

/// Carries out a request on a store and answers it.
pub fn execute(store: &mut StoreWriter, request: Request) -> (response: Response)
    requires
        old(store).wf(),
    ensures
        final(store).wf(),
        final(store)@ == request@.effect(old(store)@),
        response@ == request@.answer(old(store)@),
{
    match request {
        Request::SetValue { key, value } => respond_change(store.set(key, value)),
        Request::Get { key } => respond_get(store.get(key)),
        Request::Remove { key } => respond_change(store.remove(key)),
    }
}

/// Carries out a request on an engine and answers it.
///
/// The engine's operation for the request is called once, with the
/// request's key and value; the answer is what `respond_change` or
/// `respond_get` makes of its outcome.
pub fn serve<E: KvsEngine>(engine: &E, request: Request) -> (response: Response)
    ensures
        match request {
            Request::SetValue { key, value } => exists|outcome: Result<()>|
                #[trigger] E::set.ensures((engine, key, value), outcome) && response@
                    == change_answer(outcome),
            Request::Get { key } => exists|outcome: Result<Option<String>>|
                #[trigger] E::get.ensures((engine, key), outcome) && response@ == get_answer(
                    outcome,
                ),
            Request::Remove { key } => exists|outcome: Result<()>|
                #[trigger] E::remove.ensures((engine, key), outcome) && response@
                    == change_answer(outcome),
        },
{
    match request {
        Request::SetValue { key, value } => {
            let outcome = engine.set(key, value);
            respond_change(outcome)
        },
        Request::Get { key } => {
            let outcome = engine.get(key);
            respond_get(outcome)
        },
        Request::Remove { key } => {
            let outcome = engine.remove(key);
            respond_change(outcome)
        },
    }
}

/// What a client makes of the answer to a `Set`.
pub fn read_set(response: Response) -> (r: Result<()>)
    ensures
        match response@ {
            ResponseView::Done(_) => r is Ok,
            ResponseView::Failed(text) => r matches Err(KvsError::StringError(t)) && t@ == text,
        },
{
    match response {
        Response::Done(_) => Ok(()),
        Response::Failed(text) => Err(KvsError::StringError(text)),
    }
}

/// What a client makes of the answer to a `Get`.
pub fn read_get(response: Response) -> (r: Result<Option<String>>)
    ensures
        match response@ {
            ResponseView::Done(Some(value)) => r matches Ok(Some(v)) && v@ == value,
            ResponseView::Done(None) => r matches Ok(None),
            ResponseView::Failed(text) => r matches Err(KvsError::StringError(t)) && t@ == text,
        },
{
    match response {
        Response::Done(found) => Ok(found),
        Response::Failed(text) => Err(KvsError::StringError(text)),
    }
}

/// What a client makes of the answer to a `Remove`: the text `Key not
/// found` stands for `KeyNotFoundError`.
pub fn read_remove(response: Response) -> (r: Result<()>)
    ensures
        match response@ {
            ResponseView::Done(_) => r is Ok,
            ResponseView::Failed(text) => if text == key_not_found_text() {
                r matches Err(KvsError::KeyNotFoundError)
            } else {
                r matches Err(KvsError::StringError(t)) && t@ == text
            },
        },
{
    match response {
        Response::Done(_) => Ok(()),
        Response::Failed(text) => {
            if text == String::from_str("Key not found") {
                Err(KvsError::KeyNotFoundError)
            } else {
                Err(KvsError::StringError(text))
            }
        },
    }
}

} // verus!
