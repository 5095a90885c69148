//! The errors the library's own operations produce. I/O failures and X
//! protocol errors belong to the code that performs requests, not here.

use vstd::prelude::*;

verus! {

/// What a library operation can report.
#[derive(Debug, Clone, PartialEq, Eq)]
pub enum XcrabError {
    /// An operation named a window that is not a managed client.
    ClientDoesntExist,
    /// A parse failure, carrying the message shown to the control client.
    Custom(String),
}

impl XcrabError {
    /// The message a control client reads, as the original error text.
    pub open spec fn spec_message(&self) -> Seq<char> {
        match self {
            XcrabError::ClientDoesntExist => "client didn't exist"@,
            XcrabError::Custom(s) => s@,
        }
    }

    pub fn message(&self) -> (r: String)
        ensures
            r@ == self.spec_message(),
    {
        match self {
            XcrabError::ClientDoesntExist => String::from_str("client didn't exist"),
            XcrabError::Custom(s) => s.clone(),
        }
    }
}

impl From<String> for XcrabError {
    fn from(v: String) -> (r: Self) {
        XcrabError::Custom(v)
    }
}

impl vstd::std_specs::convert::FromSpecImpl<String> for XcrabError {
    open spec fn obeys_from_spec() -> bool {
        true
    }

    open spec fn from_spec(v: String) -> Self {
        XcrabError::Custom(v)
    }
}

} // verus!
