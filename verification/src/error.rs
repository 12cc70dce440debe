//! The recoverable error of the store: a single kind carrying a
//! human-readable message. Invariant violations are excluded by contracts
//! instead of being raised at run time.

use vstd::prelude::*;

verus! {

/// A recoverable failure, carrying a human-readable message.
#[derive(Debug)]
pub struct EntityError {
    message: String,
}

impl EntityError {
    /// The message carried by the error.
    pub closed spec fn spec_message(self) -> Seq<char> {
        self.message@
    }

    /// An error carrying the given message.
    pub fn new(message: String) -> (r: EntityError)
        ensures
            r.spec_message() == message@,
    {
        EntityError { message }
    }

    /// The message carried by the error.
    pub fn message(&self) -> (r: &str)
        ensures
            r@ == self.spec_message(),
    {
        self.message.as_str()
    }

    /// The error for an entity created without the required property
    /// `name`.
    pub fn missing_initial_value(name: &str) -> (r: EntityError)
        ensures
            r.spec_message() == "Missing initial value "@ + name@,
    {
        EntityError { message: concat_strs("Missing initial value ", name) }
    }
}

/// Relies on format!: formatting two strings with `{}{}` yields their
/// characters in order, the first string's first.
#[verifier::external_body]
fn concat_strs(prefix: &str, rest: &str) -> (r: String)
    ensures
        r@ == prefix@ + rest@,
{
    format!("{}{}", prefix, rest)
}

} // verus!
