use vstd::prelude::*;

verus! {

/// The failures of this library, tagged by kind. Those that come from the
/// transport carry the platform's description of the failure.
#[derive(Debug, PartialEq, Eq)]
pub enum NetError {
    /// The text is not an address (or an address and a port).
    AddrParse,
    /// A listener could not be bound.
    Bind(String),
    /// A connection could not be established.
    Connect(String),
    /// A read, write, accept or shutdown failed.
    Io(String),
    /// The bytes read are not well-formed UTF-8 text.
    Text,
    /// A number does not fit the type it has to be held in.
    Range,
}

} // verus!
