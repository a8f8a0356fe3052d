//! The kinds of failure the store and the identifiers can report.
use vstd::prelude::*;

verus! {

/// What went wrong, as a closed set of kinds.
#[derive(Clone, Copy, Debug, PartialEq, Eq, Structural)]
pub enum Error {
    /// The operation cannot be provided by this kind of layer.
    Unsupported,
    /// No layer kind is registered under the requested name.
    Unknown,
    /// The stack holds no layer to write to.
    NoLayer,
    /// The text is not a well-formed identifier.
    BadUid,
    /// No larger identifier is left within the current millisecond.
    Exhausted,
    /// A fault reported by a persistent layer.
    Backend,
}

impl Error {
    /// The name of each kind, as it is shown to a reader.
    pub open spec fn label(self) -> Seq<char> {
        match self {
            Error::Unsupported => "Unsupported"@,
            Error::Unknown => "Unknown"@,
            Error::NoLayer => "NoLayer"@,
            Error::BadUid => "BadUid"@,
            Error::Exhausted => "Exhausted"@,
            Error::Backend => "Backend"@,
        }
    }

    /// Renders the kind as text.
    pub fn to_string(&self) -> (text: String)
        ensures
            text@ == self.label(),
    {
        match self {
            Error::Unsupported => String::from_str("Unsupported"),
            Error::Unknown => String::from_str("Unknown"),
            Error::NoLayer => String::from_str("NoLayer"),
            Error::BadUid => String::from_str("BadUid"),
            Error::Exhausted => String::from_str("Exhausted"),
            Error::Backend => String::from_str("Backend"),
        }
    }
}

} // verus!
