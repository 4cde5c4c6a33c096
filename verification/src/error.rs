use vstd::prelude::*;

verus! {

/// The one error value of the library: a message that says what went wrong.
#[derive(Debug, Clone)]
pub struct SecretSantaError {
    pub msg: String,
}

impl SecretSantaError {
    /// An error with the given message.
    pub fn new(msg: String) -> (r: SecretSantaError)
        ensures
            r.msg == msg,
    {
        SecretSantaError { msg }
    }
}

} // verus!
