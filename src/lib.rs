//! Strongly-typed generation and scoring of symbolic-regression expression trees.
//!
//! A grammar of typed binary operations, a set of declared variables and a
//! target type determine, depth by depth, which types a tree may need
//! (the possibility table).  Trees are grown in one forward pass against that
//! table and evaluated bottom-up over an index arena.

pub mod types;
pub mod error;
pub mod value;
pub mod ops;
pub mod nonterminal;
pub mod possibilities_tables;
pub mod random;
pub mod node;
pub mod arena;
pub mod tree_builder;
pub mod semantics;
pub mod evaluation;
pub mod variable;
