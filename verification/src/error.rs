//! What a pattern or a command line is refused with.

use vstd::prelude::*;

verus! {

/// A refusal, with the message that says why. Its model is the message.
#[derive(Debug)]
pub struct ParseError(String);

impl View for ParseError {
    type V = Seq<char>;

    closed spec fn view(&self) -> Seq<char> {
        self.0@
    }
}

impl ParseError {
    /// A refusal with the given message.
    pub(crate) fn new(message: String) -> (r: ParseError)
        ensures
            r@ == message@,
    {
        ParseError(message)
    }

    /// The message.
    pub fn to_string(&self) -> (r: String)
        ensures
            r@ == self@,
    {
        self.0.clone()
    }
}

} // verus!
