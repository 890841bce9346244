//! Operator-precedence relation tables for context-free grammars.
//!
//! From a list of productions the crate derives, for every non-terminal, its
//! FIRSTVT and LASTVT sets, and from those the precedence relation between
//! every ordered pair of terminals. A grammar in which one pair would need two
//! different relations is reported as ambiguous.

pub mod dfs;
pub mod generate;
pub mod grammar;
pub mod parse;
pub mod precedence;
pub mod relation;
pub mod symbol;
pub mod table;
pub mod vt;

pub use dfs::{compose_elements, Dfs};
pub use generate::{generate_table, opg_generate, Opg, OpgError};
pub use grammar::{
    augment, get_non_terminals, get_terminal_set, get_terminals, GrammarError, Production,
};
pub use parse::gen_productions;
pub use precedence::{build_table, find_eq, find_greater, find_less};
pub use relation::Relation;
pub use symbol::{contains_symbol, end_marker, insert_symbol};
pub use table::{AmbiguousGrammar, OpTable, Precedence};
pub use vt::{gen_firstvt, gen_lastvt};
