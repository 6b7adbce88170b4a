//! A binding-power ("Pratt") expression parser over single-character tokens.
//!
//! Text is split into tokens, the tokens are parsed into a syntax tree whose
//! shape reflects operator precedence and associativity, and the tree can be
//! rendered as a fully parenthesised prefix form.
//!
//! The executable part:
//! - `token`: tokens, the tokenisation of a text and the token stream;
//! - `power`: the binding powers of the operators;
//! - `tree`: the syntax tree and its canonical text;
//! - `parser`: the definition of the parse, and the parser.
//!
//! What is proved of every parse:
//! - `bounds`: a parse stays within its tokens;
//! - `shape`: every tree is well formed and made of the input, and without
//!   parentheses it respects the binding powers;
//! - `grouping`: what that means for each operator;
//! - `chains`: the trees of runs of one operator;
//! - `account`: a tree holds every consumed token, and is no deeper than the
//!   input is long;
//! - `locality`: a parse depends on the consumed tokens alone, so parentheses
//!   leave no trace;
//! - `roundtrip`: a tree that respects the binding powers parses back to
//!   itself, and is the only such tree of its tokens;
//! - `text`: the canonical text determines the tree.

pub mod account;
pub mod bounds;
pub mod chains;
pub mod grouping;
pub mod locality;
pub mod parser;
pub mod power;
pub mod roundtrip;
pub mod shape;
pub mod text;
pub mod token;
pub mod tree;
