//! The handlers of the API methods. Each answers its method with a status code.

pub mod account;
pub mod authorization;

use vstd::prelude::*;

verus! {

/// The failure of an API handler, with a message that describes it. None of
/// the handlers implemented so far fails.
#[derive(Debug, PartialEq, Eq)]
pub struct ApiError {
    pub message: String,
}

} // verus!
