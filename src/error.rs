use vstd::prelude::*;

verus! {

/// What can go wrong with a session's input.
#[derive(PartialEq, Eq, Structural, Clone, Copy, Debug)]
pub enum HortaError {
    /// The handshake that should deal a game could not be read.
    DealUnavailable,
    /// An inbound play message was not one well-formed card.
    MalformedFrame,
}

} // verus!
