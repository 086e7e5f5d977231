//! The Jepsen-shaped operation-history interchange: entries, timestamps with
//! clock provenance, and the EDN/JSON codecs.

use vstd::prelude::*;

use crate::text::{push_str, string_of};

pub mod op;
pub mod edn;
pub mod edn_spec;
pub mod json;
pub mod json_roundtrip;
pub mod lex;
pub mod log;
pub mod log_laws;
pub mod roundtrip;
pub mod time;
pub mod writer;

verus! {

/// An error parsing a Jepsen history from EDN or JSON.
#[derive(Clone, Debug, PartialEq, Eq)]
pub struct ParseError {
    msg: String,
}

impl ParseError {
    /// An error with the given description.
    pub fn new(msg: String) -> (e: ParseError)
        ensures
            e.message_view() == msg@,
    {
        ParseError { msg }
    }

    /// The description, as characters.
    pub closed spec fn message_view(&self) -> Seq<char> {
        self.msg@
    }

    /// The display text: `history parse error: ` and the description.
    pub fn to_string(&self) -> (s: String)
        ensures
            s@ == "history parse error: "@ + self.message_view(),
    {
        let mut out: Vec<char> = Vec::new();
        push_str(&mut out, "history parse error: ");
        push_str(&mut out, self.msg.as_str());
        string_of(&out)
    }

    /// The human-readable description.
    pub fn message(&self) -> (s: &str)
        ensures
            s@ == self.message_view(),
    {
        self.msg.as_str()
    }
}

} // verus!
