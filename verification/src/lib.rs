//! A verified expression parser for `abs_expr!`: Pratt parsing of token
//! trees into an expression tree with last-character operator precedence,
//! and the constants that the macro expands to.

use vstd::prelude::*;

pub mod ast;
pub mod codegen;
pub mod expand;
pub mod grammar;
pub mod laws;
pub mod operands;
pub mod parser;
pub mod roundtrip;
pub mod size;
pub mod token;

pub use ast::{Expr, ParsedExpr};
pub use codegen::{CodeGen, Definition, Generated};
pub use expand::abs_expr;
pub use parser::ParseError;
pub use token::{Delimiter, Spacing, Token};
