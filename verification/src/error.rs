//! What can go wrong when a text is read.

use vstd::prelude::*;

verus! {

/// Why a text could not be read.
#[derive(Debug, PartialEq, Eq, Clone, Copy)]
pub enum ParseError {
    /// The text is not markup.
    Markup,
    /// The text is not a stylesheet.
    Stylesheet,
}

} // verus!
