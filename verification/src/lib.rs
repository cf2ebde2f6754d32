//! Recursive-ascent parsers for the expression grammar
//!
//! ```text
//! S = E
//! E = E + T | T
//! T = T * F | F
//! F = a | ( E )
//! ```
//!
//! The LR automaton for this grammar is compiled directly into control flow
//! ("recursive ascent") rather than interpreted from a table.  The crate
//! explores a family of semantics-preserving rewrites of the same automaton:
//! goto-by-table, goto-by-stack-inspection, chain-state elimination, minimal
//! stack pushing, state merging, and inlining of single-use control labels.
//!
//! Every variant is verified against one mathematical model, [`model::run`]:
//! it returns the same accept/reject classification and fires the same
//! bottom-up sequence of semantic actions on every input.

pub mod cursor;
pub mod inlined;
pub mod merged;
pub mod model;
pub mod paper;
pub mod parser;
pub mod stack;

pub use cursor::Cursor;
pub use model::Error;
pub use model::Rule;
pub use model::Sort;
pub use model::State;
pub use model::outprod;
pub use model::parse_spec;
pub use stack::Parser;
pub use stack::StackLabel;
