/// The span of a token in the source text.
pub mod file_info;
/// What the parser gives for a list of tokens, as a mathematical function.
pub mod grammar;
/// The evaluator: values, closures, frames and the walk over the tree.
pub mod interp;
/// What holds of the lexer, the parser and the evaluator for every input.
pub mod laws;
/// The lines that stand for printed values.
pub mod leg_sdl;
/// Binary operators on run-time values.
pub mod operators;
/// The syntax tree and the parser that builds it.
pub mod parser;
/// What evaluating a syntax tree gives, as a mathematical function.
pub mod semantics;
/// Whitespace between tokens changes no token.
pub mod spacing;
/// Helpers for texts and characters.
pub mod text;
/// Tokens and the lexer that reads them from a source text.
pub mod tokenizer;
