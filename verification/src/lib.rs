//! A front end and execution engine for an eight-instruction tape language.
//!
//! Source text flows through four stages: [`tokenize`] turns characters into
//! positioned tokens, [`parse`] builds a nested expression tree and checks
//! that brackets match, [`optimize`] folds runs of unit steps into counted
//! nodes, and a [`Machine`] executes the tree against a [`Buffer`] of cells.
//! [`stats`] counts the instructions of a tree without executing it.
//!
//! The machine takes one step at a time and leaves input and output to its
//! driver; [`run`] drives it over a given input for a bounded number of
//! steps. The modules [`matching`], [`printing`], [`semantics`] and
//! [`equivalence`] hold what is proved of the pipeline: that the parser's
//! verdict is that of bracket counting, that parsing inverts printing, and
//! that the machine, before and after optimizing, does what the recursive
//! meaning of the tree says.

pub mod error;
pub mod token;
pub mod ast;
pub mod parser;
pub mod matching;
pub mod printing;
pub mod optimizer;
pub mod stats;
pub mod tape;
pub mod machine;
pub mod interpreter;
pub mod semantics;
pub mod equivalence;

pub use crate::ast::{Expression, Node};
pub use crate::error::{BFEvalError, InvalidProgramError, Position};
pub use crate::interpreter::{run, Outcome};
pub use crate::machine::{Action, Config, Level, Machine, Transition, TAPE_LENGTH};
pub use crate::optimizer::optimize;
pub use crate::parser::parse;
pub use crate::stats::{stats, Stats, Tally};
pub use crate::tape::{Buffer, Cell};
pub use crate::token::{tokenize, Token};
