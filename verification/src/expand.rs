use vstd::prelude::*;

use crate::ast::{lower, lowered_size, ParsedExpr};
use crate::codegen::{emission, CodeGen, Generated};
use crate::parser::{spec_parse_all, ParseError};
use crate::token::{tokens_view, Token};

verus! {

/// Expands the macro input: parses all of it as one expression and emits
/// one constant per node, children first, so that the last constant holds
/// the value of the whole expression with its parentheses dropped. Fails,
/// with the parser's error, exactly where the input is not one expression.
pub fn abs_expr(tokens: &Vec<Token>) -> (res: Result<Generated, ParseError>)
    requires
        spec_parse_all(tokens_view(tokens@)) matches Ok(e) ==> lowered_size(e) <= u32::MAX,
    ensures
        match spec_parse_all(tokens_view(tokens@)) {
            Ok(e) => res matches Ok(g) && {
                &&& g.wf()
                &&& g.value() == lower(e)
                &&& g.definitions() == emission(e, 0)
                &&& g.defs.len() == lowered_size(e)
                &&& g.root + 1 == g.defs.len()
            },
            Err(x) => res == Err::<Generated, ParseError>(x),
        },
{
    match ParsedExpr::parse_all(tokens) {
        Ok(expr) => {
            let mut cg = CodeGen::new();
            let root = cg.emit(&expr);
            assert(cg.definitions() =~= emission(expr@, 0));
            Ok(cg.finalize(root))
        },
        Err(e) => Err(e),
    }
}

} // verus!
