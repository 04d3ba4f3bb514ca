use vstd::prelude::*;

verus! {

/// What can go wrong while reading a list of relations.
#[derive(Debug, Clone, Copy, PartialEq, Eq, Structural)]
pub enum Error {
    /// An endpoint holds no `:` to split entity from role.
    MalformedEndpoint,
}

} // verus!
