use vstd::prelude::*;

verus! {

/// Errors reported synchronously by the text engine.
///
/// Every rejected call leaves the value it was made on unchanged.
#[derive(Clone, Copy, Debug, PartialEq, Eq, Structural)]
pub enum YTextError {
    /// An index or length lies outside the bounds of the current visible
    /// text.
    Range,
    /// An attempt to integrate a value that is already integrated into a
    /// document.
    State,
    /// The operation needs an integrated value but the value is still
    /// preliminary.
    Unsupported,
    /// A remote operation references an origin byte that is not present
    /// locally; the transport violated its causal-delivery obligation.
    /// Unreachable under a correct transport, and not recoverable here.
    Merge,
}

} // verus!
