//! The modelling language of Stratum: its lexer, its grammar and parser,
//! the tree of a text and the types of its compiler.

pub mod ast;
pub mod compile;
pub mod deps;
pub mod lexer;
pub mod parser;
pub mod syntax;

pub use ast::{BinOp, Expr, Model, Stmt, UnOp};
pub use parser::{parse, ParseError};
pub use deps::dependencies;
