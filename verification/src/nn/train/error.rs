//! What can go wrong between the parts of a training run.

use std::ops::ControlFlow;

use vstd::prelude::*;
use vstd::string::*;

verus! {

/// A failed request: the status of the response, if there was one, and what is known of it.
#[derive(Debug)]
pub struct HttpError {
    pub status: Option<u16>,
    pub message: String,
}

#[derive(Debug)]
pub enum TrainError {
    Http(HttpError),
    Other(String),
}

pub type TrainResult<T> = Result<T, TrainError>;

impl TrainError {
    /// Whether the same request may succeed later: it got no response, or the server failed.
    pub open spec fn retryable(self) -> bool {
        match self {
            TrainError::Http(e) => match e.status {
                Some(status) => 500 <= status < 600,
                None => true,
            },
            TrainError::Other(_) => false,
        }
    }

    /// What a user reads.
    pub open spec fn text_spec(self) -> Seq<char> {
        match self {
            TrainError::Http(e) => "http: "@ + e.message@,
            TrainError::Other(e) => e@,
        }
    }

    /// Whether the same request may succeed later.
    pub fn is_retryable(&self) -> (retryable: bool)
        ensures
            retryable == self.retryable(),
    {
        match self {
            TrainError::Http(e) => match e.status {
                Some(status) => 500 <= status && status < 600,
                None => true,
            },
            TrainError::Other(_) => false,
        }
    }

    /// Go on where the same request may succeed later, else give the error back.
    pub fn continue_if_retryable(this: TrainError) -> (flow: ControlFlow<TrainError, ()>)
        ensures
            flow == if this.retryable() {
                ControlFlow::<TrainError, ()>::Continue(())
            } else {
                ControlFlow::<TrainError, ()>::Break(this)
            },
    {
        match this.is_retryable() {
            true => ControlFlow::Continue(()),
            false => ControlFlow::Break(this),
        }
    }

    /// What a user reads.
    pub fn text(&self) -> (text: String)
        ensures
            text@ == self.text_spec(),
    {
        let mut out = String::new();
        match self {
            TrainError::Http(e) => {
                out.append("http: ");
                out.append(e.message.as_str());
            },
            TrainError::Other(e) => out.append(e.as_str()),
        }
        out
    }
}

/// An error with the given text.
pub fn other_error(message: &str) -> (e: TrainError)
    ensures
        e matches TrainError::Other(text) && text@ == message@,
{
    TrainError::Other(message.to_owned())
}

} // verus!
