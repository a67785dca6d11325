//! Things shared by the different tools of this crate.

use vstd::prelude::*;

verus! {

/// The error type of the tools: a plain message.
#[derive(Debug)]
pub struct DumbError {
    message: String,
}

impl DumbError {
    /// The message carried by the error, as a sequence of characters.
    pub closed spec fn spec_message(&self) -> Seq<char> {
        self.message@
    }

    /// The message of the error.
    pub fn to_string(&self) -> (res: String)
        ensures
            res@ == self.spec_message(),
    {
        self.message.clone()
    }
}

impl From<String> for DumbError {
    fn from(s: String) -> (res: DumbError) {
        DumbError { message: s }
    }
}

impl vstd::std_specs::convert::FromSpecImpl<String> for DumbError {
    open spec fn obeys_from_spec() -> bool {
        true
    }

    closed spec fn from_spec(s: String) -> DumbError {
        DumbError { message: s }
    }
}

} // verus!

verus! {

impl DumbError {
    /// An error with the message.
    pub fn from_message(message: String) -> (res: DumbError)
        ensures
            res.spec_message() == message@,
    {
        DumbError { message }
    }
}

} // verus!
