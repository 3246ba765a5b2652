//! Port types, for connection validation. The type names are shared verbatim
//! with the front end so that palette wiring and back-end validation agree.
use vstd::prelude::*;

verus! {

/// The type of a port. `Any` matches anything.
#[derive(Debug, Clone, Copy, PartialEq, Eq, Structural)]
pub enum PortType {
    Any,
    Text,
    Number,
    Bool,
    Json,
    StringList,
    Candidates,
    Bytes,
    Artifact,
    Image,
    Fingerprint,
}

impl PortType {
    /// Whether an input of type `self` accepts a source of type `src`: `Any`
    /// on either side, equal types, or a `Text` input fed a `Number`, `Bool`
    /// or `StringList` (coerced to its string form at the node boundary).
    pub open spec fn accepts_spec(self, src: PortType) -> bool {
        ||| self == PortType::Any
        ||| src == PortType::Any
        ||| self == src
        ||| (self == PortType::Text && (src == PortType::Number || src == PortType::Bool || src
            == PortType::StringList))
    }

    /// Can a source of type `src` connect into an input of type `self`?
    pub fn accepts(self, src: PortType) -> (b: bool)
        ensures
            b == self.accepts_spec(src),
    {
        if self == PortType::Any || src == PortType::Any || self == src {
            return true;
        }
        match (self, src) {
            (PortType::Text, PortType::Number) => true,
            (PortType::Text, PortType::Bool) => true,
            (PortType::Text, PortType::StringList) => true,
            _ => false,
        }
    }
}

} // verus!
