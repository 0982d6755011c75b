use vstd::prelude::*;

verus! {

/// The span of a token in the source text: the line and column at which it
/// starts and the line and column of its last character.
#[derive(Clone, Copy, Debug, PartialEq, Eq, Structural)]
pub struct CodePoint {
    pub line_number_from: usize,
    pub line_number_to: usize,
    pub column_number_from: usize,
    pub column_number_to: usize,
}

} // verus!
