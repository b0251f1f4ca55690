use vstd::prelude::*;

verus! {

/// Line and column at which a token of the source text begins.
///
/// Both numbers are kept exactly as the parser reported them.
#[derive(Debug, Clone, Copy, PartialEq, Eq, Structural)]
pub struct Position {
    pub line: usize,
    pub col: usize,
}

} // verus!
