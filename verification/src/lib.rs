//! Front end of a compiler for the Blue Arch expression/statement
//! language: a grammar engine that turns source text into a rule-tagged
//! parse tree, builders that turn that tree into a normalized abstract
//! syntax tree with correct operator precedence and associativity, a
//! pretty-printer, and a bytecode compiler that lowers the tree into
//! stack-machine instructions.
pub mod ast;
pub mod compiler;
pub mod errors;
pub mod grammar;
pub mod parse_tree;
pub mod parser;

pub use ast::AstNode;
pub use ast::BinaryOp;
