//! Pretty-printing of S-expressions.
//!
//! A tree of atoms and non-empty lists is flattened, without recursion, into
//! a stream of layout tokens, and the stream is turned into the calls that a
//! box-model printer has to perform in order to lay the tree out.

pub mod sexp;
pub mod error;
pub mod token;
pub mod tokenize;
pub mod nesting;
pub mod separation;
pub mod subtree;
pub mod printer;
pub mod boxes;
pub mod layout;

pub use boxes::check_boxes;
pub use error::RenderError;
pub use printer::pp_hum_indent;
pub use printer::PrinterCall;
pub use sexp::Sexp;
pub use sexp::SpecSexp;
pub use token::FormatToken;
pub use tokenize::pp_tokenize;
