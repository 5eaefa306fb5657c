//! A small Scheme: a reader from source text to atoms, and an evaluator for atoms with
//! lexical scopes, closures and functions supplied by the host program.

pub mod atom;
pub mod builtins;
pub mod chars;
pub mod eval;
pub mod eval_laws;
pub mod laws;
pub mod location;
pub mod parse;
pub mod read_laws;
pub mod scope;
pub mod semantics;
pub mod session;
pub mod show;
pub mod text;

pub use atom::{Atom, Datum};
pub use builtins::{Checked, check_arity, check_builtin};
pub use eval::{EvalError, Evaluator};
pub use location::Location;
pub use parse::{AtomParseError, ParserState};
pub use semantics::MAX_DEPTH;
pub use session::{Reply, respond};
