use vstd::prelude::*;
use vstd::string::StrSliceExecFns;

use crate::ast::{lemma_parsed_seq_view, parsed_seq_view, ParsedExpr, Term};
use crate::token::{lemma_tokens_view, tokens_view, Delimiter, Spacing, Tok, Token};

verus! {

// Operator precedence levels (higher = tighter binding)
pub const JUXTAPOSITION_BP: u32 = 185;
pub const MULTIPLICATIVE_BP: u32 = 170;
pub const ADDITIVE_BP: u32 = 160;
pub const CONS_BP: u32 = 150;
pub const CONCAT_BP: u32 = 140;
pub const COMPARISON_BP: u32 = 130;
pub const COMMA_BP: u32 = 100;
pub const SEMICOLON_BP: u32 = 80;

/// Why the input is not an expression.
#[derive(Clone, Copy, Debug, PartialEq, Eq)]
pub enum ParseError {
    /// An identifier, a literal or a parenthesized group was needed where
    /// none starts (at the end of the input, at a punctuation that begins no
    /// prefix expression, or at a bracket or brace group), or a
    /// parenthesized group does not hold exactly one expression.
    ExpectedPrimary,
    /// A complete expression ended before the input did; the index of the
    /// first token left over.
    TrailingToken(usize),
}

/// Left and right binding power of an infix operator whose last character
/// is `c`. The right power is one above the left, so that an operand does
/// not take an operator of its own level.
pub open spec fn char_bp(c: char) -> (u32, u32) {
    if c == '*' || c == '/' || c == '%' {
        (MULTIPLICATIVE_BP, (MULTIPLICATIVE_BP + 1) as u32)
    } else if c == '+' || c == '-' {
        (ADDITIVE_BP, (ADDITIVE_BP + 1) as u32)
    } else if c == ':' {
        (CONS_BP, (CONS_BP + 1) as u32)
    } else if c == '@' || c == '^' {
        (CONCAT_BP, (CONCAT_BP + 1) as u32)
    } else if c == ',' {
        (COMMA_BP, (COMMA_BP + 1) as u32)
    } else if c == ';' {
        (SEMICOLON_BP, (SEMICOLON_BP + 1) as u32)
    } else {
        (COMPARISON_BP, (COMPARISON_BP + 1) as u32)
    }
}

/// Binding powers of an operator: those of its last character; none for
/// the empty operator.
pub open spec fn spec_infix_bp(op: Seq<char>) -> Option<(u32, u32)> {
    if op.len() == 0 {
        None
    } else {
        Some(char_bp(op.last()))
    }
}

/// The levels of `;`, of `@` and `^`, and of `:` take one operator each:
/// a second one of the same level does not chain.
pub open spec fn non_associative(level: u32) -> bool {
    level == SEMICOLON_BP || level == CONCAT_BP || level == CONS_BP
}

/// The expression ends in an unparenthesized infix operator of `level`: the
/// operator itself, or one at the end of its right operand.
pub open spec fn ends_in_level(t: Term, level: u32) -> bool
    decreases t,
{
    match t {
        Term::Infix { left, op, right } => (spec_infix_bp(op) matches Some((l, _)) && l == level)
            || ends_in_level(*right, level),
        _ => false,
    }
}

/// The token at `pos` starts a primary expression: an identifier, a
/// literal or a parenthesized group.
pub open spec fn is_primary_at(toks: Seq<Tok>, pos: int) -> bool {
    0 <= pos < toks.len() && match toks[pos] {
        Tok::Ident(_) => true,
        Tok::Literal(_) => true,
        Tok::Group(d, _) => d == Delimiter::Parenthesis,
        Tok::Punct(_, _) => false,
    }
}

pub open spec fn is_punct_at(toks: Seq<Tok>, pos: int) -> bool {
    0 <= pos < toks.len() && toks[pos] is Punct
}

pub open spec fn is_joint_at(toks: Seq<Tok>, pos: int) -> bool {
    0 <= pos < toks.len() && toks[pos] matches Tok::Punct(_, Spacing::Joint)
}

pub open spec fn punct_char(t: Tok) -> char {
    match t {
        Tok::Punct(c, _) => c,
        _ => ' ',
    }
}

/// Where the operator that starts with the punctuation at `pos` ends: the
/// run of punctuation goes on past every `Joint` one that another
/// punctuation follows.
pub open spec fn op_end(toks: Seq<Tok>, pos: int) -> int
    decreases toks.len() - pos,
{
    if 0 <= pos && is_joint_at(toks, pos) && is_punct_at(toks, pos + 1) {
        op_end(toks, pos + 1)
    } else {
        pos + 1
    }
}

/// The characters of the punctuation tokens in `from..to`.
pub open spec fn op_chars(toks: Seq<Tok>, from: int, to: int) -> Seq<char> {
    Seq::new((to - from) as nat, |i: int| punct_char(toks[from + i]))
}

/// The longest operator at `pos` and the position after it; none where
/// no punctuation starts there.
pub open spec fn spec_read_op(toks: Seq<Tok>, pos: int) -> Option<(Seq<char>, int)> {
    if is_punct_at(toks, pos) {
        Some((op_chars(toks, pos, op_end(toks, pos)), op_end(toks, pos)))
    } else {
        None
    }
}

pub proof fn lemma_op_end(toks: Seq<Tok>, pos: int)
    requires
        is_punct_at(toks, pos),
    ensures
        pos < op_end(toks, pos) <= toks.len(),
        forall|k: int| pos <= k < op_end(toks, pos) ==> #[trigger] is_punct_at(toks, k),
        forall|k: int| pos <= k < op_end(toks, pos) - 1 ==> #[trigger] is_joint_at(toks, k),
    decreases toks.len() - pos,
{
    if is_joint_at(toks, pos) && is_punct_at(toks, pos + 1) {
        lemma_op_end(toks, pos + 1);
    }
}

/// `lhs` followed by the primary `rhs`: an existing juxtaposition grows,
/// unless `rhs` is a postfix expression.
pub open spec fn juxtaposed(lhs: Term, rhs: Term) -> Term {
    match lhs {
        Term::Juxtaposition(v) => if rhs is Postfix {
            Term::Juxtaposition(seq![lhs, rhs])
        } else {
            Term::Juxtaposition(v.push(rhs))
        },
        _ => Term::Juxtaposition(seq![lhs, rhs]),
    }
}

/// The expression at `pos` whose infix operators bind at least as tightly
/// as `min_bp`, with the position after it. Each recursive step is taken
/// only where the position has moved forward within the input, which
/// `size::law_parse_consumes` shows it always has.
pub open spec fn spec_parse_expr(toks: Seq<Tok>, pos: int, min_bp: int) -> Result<(Term, int), ParseError>
    decreases toks, toks.len() - pos, 1nat,
{
    let start = match spec_read_op(toks, pos) {
        Some((op, p1)) => {
            proof {
                lemma_op_end(toks, pos);
            }
            match spec_parse_expr(toks, p1, JUXTAPOSITION_BP as int) {
                Ok((rhs, p2)) => Ok((Term::Prefix { op, expr: Box::new(rhs) }, p2)),
                Err(_) => spec_parse_primary(toks, pos),
            }
        },
        None => spec_parse_primary(toks, pos),
    };
    match start {
        Ok((lhs, p)) => if pos < p <= toks.len() {
            spec_parse_loop(toks, lhs, p, min_bp)
        } else {
            Err(ParseError::ExpectedPrimary)
        },
        Err(e) => Err(e),
    }
}

/// A primary expression at `pos`: an atom, or a parenthesized group whose
/// whole content is one expression.
pub open spec fn spec_parse_primary(toks: Seq<Tok>, pos: int) -> Result<(Term, int), ParseError>
    decreases toks, toks.len() - pos, 0nat,
{
    if 0 <= pos < toks.len() {
        match toks[pos] {
            Tok::Ident(s) => Ok((Term::Atom(s), pos + 1)),
            Tok::Literal(s) => Ok((Term::Atom(s), pos + 1)),
            Tok::Group(d, inner) => if d == Delimiter::Parenthesis {
                match spec_parse_expr(inner, 0, 0) {
                    Ok((e, q)) => if q == inner.len() {
                        Ok((Term::Grouped(Box::new(e)), pos + 1))
                    } else {
                        Err(ParseError::ExpectedPrimary)
                    },
                    Err(_) => Err(ParseError::ExpectedPrimary),
                }
            } else {
                Err(ParseError::ExpectedPrimary)
            },
            Tok::Punct(_, _) => Err(ParseError::ExpectedPrimary),
        }
    } else {
        Err(ParseError::ExpectedPrimary)
    }
}

/// What follows a parsed `lhs` at `pos`: juxtaposed primaries, infix
/// operators binding at least as tightly as `min_bp`, and postfix operators.
/// It stops before an operator of a non-associative level where `lhs` ends
/// in an operator of that level, and before an infix operator whose right
/// operand does not parse.
pub open spec fn spec_parse_loop(toks: Seq<Tok>, lhs: Term, pos: int, min_bp: int) -> Result<(Term, int), ParseError>
    decreases toks, toks.len() - pos, 2nat,
{
    if is_primary_at(toks, pos) {
        if (JUXTAPOSITION_BP as int) < min_bp {
            Ok((lhs, pos))
        } else {
            match spec_parse_expr(toks, pos, JUXTAPOSITION_BP + 1) {
                Ok((rhs, p)) => if pos < p <= toks.len() {
                    spec_parse_loop(toks, juxtaposed(lhs, rhs), p, min_bp)
                } else {
                    Err(ParseError::ExpectedPrimary)
                },
                Err(e) => Err(e),
            }
        }
    } else {
        match spec_read_op(toks, pos) {
            None => Ok((lhs, pos)),
            Some((op, p1)) => {
                proof {
                    lemma_op_end(toks, pos);
                }
                match spec_infix_bp(op) {
                    Some((lbp, rbp)) => if non_associative(lbp) && ends_in_level(lhs, lbp) {
                        Ok((lhs, pos))
                    } else if (lbp as int) < min_bp && is_primary_at(toks, p1) {
                        Ok((lhs, pos))
                    } else if is_primary_at(toks, p1) {
                        match spec_parse_expr(toks, p1, rbp as int) {
                            Ok((rhs, p2)) => if p1 < p2 <= toks.len() {
                                spec_parse_loop(
                                    toks,
                                    Term::Infix { left: Box::new(lhs), op, right: Box::new(rhs) },
                                    p2,
                                    min_bp,
                                )
                            } else {
                                Err(ParseError::ExpectedPrimary)
                            },
                            Err(_) => Ok((lhs, pos)),
                        }
                    } else {
                        spec_parse_loop(toks, Term::Postfix { expr: Box::new(lhs), op }, p1, min_bp)
                    },
                    None => spec_parse_loop(toks, Term::Postfix { expr: Box::new(lhs), op }, p1, min_bp),
                }
            },
        }
    }
}

/// The whole input as one expression.
pub open spec fn spec_parse_all(toks: Seq<Tok>) -> Result<Term, ParseError> {
    match spec_parse_expr(toks, 0, 0) {
        Ok((e, p)) => if p == toks.len() {
            Ok(e)
        } else {
            Err(ParseError::TrailingToken(p as usize))
        },
        Err(e) => Err(e),
    }
}


/// Ends the string with one more character (`String::push`).
#[verifier::external_body]
fn push_char(s: &mut String, c: char)
    ensures
        final(s)@ == old(s)@.push(c),
{
    s.push(c)
}

/// The model of a parse result.
pub open spec fn result_view(r: Result<(ParsedExpr, usize), ParseError>) -> Result<(Term, int), ParseError> {
    match r {
        Ok((e, p)) => Ok((e@, p as int)),
        Err(x) => Err(x),
    }
}

/// Get left and right binding power for an infix operator.
///
/// Precedence is determined by the **last** character of the operator, so
/// `->` binds like a comparison. Any character outside the known classes
/// gets comparison-level precedence.
pub fn infix_bp(op: &str) -> (res: Option<(u32, u32)>)
    ensures
        res == spec_infix_bp(op@),
{
    let n = op.unicode_len();
    if n == 0 {
        return None;
    }
    let c = op.get_char(n - 1);
    match c {
        '*' | '/' | '%' => Some((MULTIPLICATIVE_BP, MULTIPLICATIVE_BP + 1)),
        '+' | '-' => Some((ADDITIVE_BP, ADDITIVE_BP + 1)),
        ':' => Some((CONS_BP, CONS_BP + 1)),
        '@' | '^' => Some((CONCAT_BP, CONCAT_BP + 1)),
        '=' | '<' | '>' | '|' | '&' | '$' | '#' | '!' | '?' | '~' => Some(
            (COMPARISON_BP, COMPARISON_BP + 1),
        ),
        ',' => Some((COMMA_BP, COMMA_BP + 1)),
        ';' => Some((SEMICOLON_BP, SEMICOLON_BP + 1)),
        _ => Some((COMPARISON_BP, COMPARISON_BP + 1)),
    }
}

/// Whether the token at `pos` starts a primary expression (identifier,
/// literal, or parenthesized group).
pub fn peek_is_primary(tokens: &Vec<Token>, pos: usize) -> (res: bool)
    ensures
        res == is_primary_at(tokens_view(tokens@), pos as int),
{
    proof {
        lemma_tokens_view(tokens@);
    }
    if pos >= tokens.len() {
        return false;
    }
    match &tokens[pos] {
        Token::Ident(_) => true,
        Token::Literal(_) => true,
        Token::Group(Delimiter::Parenthesis, _) => true,
        _ => false,
    }
}

pub proof fn lemma_op_end_at(toks: Seq<Tok>, pos: int, end: int)
    requires
        0 <= pos < end <= toks.len(),
        forall|k: int| pos <= k < end ==> #[trigger] is_punct_at(toks, k),
        forall|k: int| pos <= k < end - 1 ==> #[trigger] is_joint_at(toks, k),
        !(is_joint_at(toks, end - 1) && is_punct_at(toks, end)),
    ensures
        op_end(toks, pos) == end,
    decreases end - pos,
{
    if pos + 1 < end {
        assert(is_joint_at(toks, pos) && is_punct_at(toks, pos + 1));
        lemma_op_end_at(toks, pos + 1, end);
    }
}

/// Read joint punctuation incrementally: the longest operator at `pos`
/// and the position after it, or `None` where no punctuation starts.
pub fn read_op(tokens: &Vec<Token>, pos: usize) -> (res: Option<(String, usize)>)
    ensures
        res matches Some((op, p)) ==> spec_read_op(tokens_view(tokens@), pos as int) == Some(
            (op@, p as int),
        ),
        res is None ==> spec_read_op(tokens_view(tokens@), pos as int) is None,
{
    let ghost toks = tokens_view(tokens@);
    proof {
        lemma_tokens_view(tokens@);
    }
    if pos >= tokens.len() {
        return None;
    }
    let mut op = String::new();
    let mut end = pos;
    loop
        invariant_except_break
            toks == tokens_view(tokens@),
            toks.len() == tokens@.len(),
            pos < tokens.len(),
            pos <= end <= tokens.len(),
            op@ =~= op_chars(toks, pos as int, end as int),
            forall|k: int| pos <= k < end ==> #[trigger] is_punct_at(toks, k),
            forall|k: int| pos <= k < end ==> #[trigger] is_joint_at(toks, k),
        ensures
            pos <= end <= tokens.len(),
            op@ =~= op_chars(toks, pos as int, end as int),
            end > pos ==> end == op_end(toks, pos as int),
            end > pos ==> is_punct_at(toks, pos as int),
            end == pos ==> !is_punct_at(toks, pos as int),
        decreases tokens.len() - end,
    {
        if end >= tokens.len() {
            proof {
                if end > pos {
                    lemma_op_end_at(toks, pos as int, end as int);
                }
            }
            break;
        }
        proof {
            lemma_tokens_view(tokens@);
        }
        let t = &tokens[end];
        match t {
            Token::Punct(c, sp) => {
                assert(t@ == Tok::Punct(*c, *sp));
                push_char(&mut op, *c);
                end = end + 1;
                match sp {
                    Spacing::Joint => {},
                    Spacing::Alone => {
                        proof {
                            lemma_op_end_at(toks, pos as int, end as int);
                        }
                        break;
                    },
                }
            },
            _ => {
                proof {
                    if end > pos {
                        lemma_op_end_at(toks, pos as int, end as int);
                    }
                }
                break;
            },
        }
    }
    if end == pos {
        None
    } else {
        assert(is_punct_at(toks, pos as int));
        Some((op, end))
    }
}


/// Whether the expression ends in an unparenthesized infix operator of
/// `level` (see [`ends_in_level`]).
fn ends_in(e: &ParsedExpr, level: u32) -> (res: bool)
    ensures
        res == ends_in_level(e@, level),
    decreases e,
{
    match e {
        ParsedExpr::Infix { left, op, right } => {
            match infix_bp(op.as_str()) {
                Some((l, _)) => {
                    if l == level {
                        return true;
                    }
                },
                None => {},
            }
            ends_in(right, level)
        },
        _ => false,
    }
}

/// `lhs` followed by the primary `rhs` (see [`juxtaposed`]).
fn juxtapose(lhs: ParsedExpr, rhs: ParsedExpr) -> (res: ParsedExpr)
    ensures
        res@ == juxtaposed(lhs@, rhs@),
{
    let rhs_is_postfix = match rhs {
        ParsedExpr::Postfix { .. } => true,
        _ => false,
    };
    assert(rhs_is_postfix == (rhs@ is Postfix));
    let ghost lhs_view = lhs@;
    match lhs {
        ParsedExpr::Juxtaposition(mut v) if !rhs_is_postfix => {
            let ghost old_v = v@;
            assert(lhs_view == Term::Juxtaposition(parsed_seq_view(old_v)));
            v.push(rhs);
            proof {
                assert(v@.drop_last() =~= old_v);
                assert(parsed_seq_view(v@) == parsed_seq_view(old_v).push(rhs@));
            }
            ParsedExpr::Juxtaposition(v)
        },
        other => {
            let ghost other_view = other@;
            let mut v: Vec<ParsedExpr> = Vec::new();
            v.push(other);
            v.push(rhs);
            proof {
                reveal_with_fuel(parsed_seq_view, 3);
                assert(v@.drop_last().drop_last() =~= Seq::<ParsedExpr>::empty());
                assert(parsed_seq_view(v@) =~= seq![other_view, rhs@]);
            }
            ParsedExpr::Juxtaposition(v)
        },
    }
}

/// Parse a primary expression: identifier, literal, or parenthesized
/// expression, whose parentheses must hold one whole expression.
pub fn parse_primary(tokens: &Vec<Token>, pos: usize) -> (res: Result<(ParsedExpr, usize), ParseError>)
    ensures
        result_view(res) == spec_parse_primary(tokens_view(tokens@), pos as int),
        res matches Ok((_, p)) ==> p == pos + 1,
    decreases tokens_view(tokens@), tokens.len() - pos, 0nat,
{
    proof {
        lemma_tokens_view(tokens@);
    }
    if pos >= tokens.len() {
        return Err(ParseError::ExpectedPrimary);
    }
    let t = &tokens[pos];
    match t {
        Token::Ident(s) => Ok((ParsedExpr::Atom(s.clone()), pos + 1)),
        Token::Literal(s) => Ok((ParsedExpr::Atom(s.clone()), pos + 1)),
        Token::Group(Delimiter::Parenthesis, inner) => {
            assert(tokens_view(tokens@)[pos as int] == Tok::Group(
                Delimiter::Parenthesis,
                tokens_view(inner@),
            ));
            assert(decreases_to!(tokens_view(tokens@) => tokens_view(inner@)));
            proof {
                lemma_tokens_view(inner@);
            }
            match parse_expr(inner, 0, 0) {
                Ok((e, q)) => if q == inner.len() {
                    Ok((ParsedExpr::Grouped(Box::new(e)), pos + 1))
                } else {
                    Err(ParseError::ExpectedPrimary)
                },
                Err(_) => Err(ParseError::ExpectedPrimary),
            }
        },
        _ => Err(ParseError::ExpectedPrimary),
    }
}

/// Parse the expression at `pos` whose infix operators bind at least as
/// tightly as `min_bp`; returns it with the position after it.
pub fn parse_expr(tokens: &Vec<Token>, pos: usize, min_bp: u32) -> (res: Result<
    (ParsedExpr, usize),
    ParseError,
>)
    ensures
        result_view(res) == spec_parse_expr(tokens_view(tokens@), pos as int, min_bp as int),
        res matches Ok((_, p)) ==> pos < p <= tokens.len(),
    decreases tokens_view(tokens@), tokens.len() - pos, 1nat,
{
    let ghost toks = tokens_view(tokens@);
    proof {
        lemma_tokens_view(tokens@);
    }
    let prefix = match read_op(tokens, pos) {
        Some((op, p1)) => {
            proof {
                lemma_op_end(toks, pos as int);
            }
            match parse_expr(tokens, p1, JUXTAPOSITION_BP) {
                Ok((rhs, p2)) => Some((ParsedExpr::Prefix { op, expr: Box::new(rhs) }, p2)),
                Err(_) => None,
            }
        },
        None => None,
    };
    let (mut lhs, mut p) = match prefix {
        Some(x) => x,
        None => match parse_primary(tokens, pos) {
            Ok(x) => x,
            Err(x) => return Err(x),
        },
    };
    let ghost target = spec_parse_expr(toks, pos as int, min_bp as int);
    assert(target == spec_parse_loop(toks, lhs@, p as int, min_bp as int));
    loop
        invariant_except_break
            toks == tokens_view(tokens@),
            pos < p <= tokens.len(),
            target == spec_parse_loop(toks, lhs@, p as int, min_bp as int),
            target == spec_parse_expr(toks, pos as int, min_bp as int),
        ensures
            pos < p <= tokens.len(),
            target == Ok::<(Term, int), ParseError>((lhs@, p as int)),
        decreases tokens.len() - p,
    {
        proof {
            lemma_tokens_view(tokens@);
        }
        if peek_is_primary(tokens, p) {
            if JUXTAPOSITION_BP < min_bp {
                break;
            }
            let (rhs, p2) = match parse_expr(tokens, p, JUXTAPOSITION_BP + 1) {
                Ok(x) => x,
                Err(x) => return Err(x),
            };
            lhs = juxtapose(lhs, rhs);
            p = p2;
            continue;
        }
        match read_op(tokens, p) {
            None => {
                break;
            },
            Some((op, p1)) => {
                proof {
                    lemma_op_end(toks, p as int);
                }
                match infix_bp(op.as_str()) {
                    Some((lbp, rbp)) => {
                        let non_assoc = lbp == SEMICOLON_BP || lbp == CONCAT_BP || lbp == CONS_BP;
                        if non_assoc && ends_in(&lhs, lbp) {
                            break;
                        }
                        if lbp < min_bp && peek_is_primary(tokens, p1) {
                            break;
                        }
                        if peek_is_primary(tokens, p1) {
                            match parse_expr(tokens, p1, rbp) {
                                Ok((rhs, p2)) => {
                                    lhs = ParsedExpr::Infix {
                                        left: Box::new(lhs),
                                        op,
                                        right: Box::new(rhs),
                                    };
                                    p = p2;
                                },
                                Err(_) => {
                                    break;
                                },
                            }
                        } else {
                            lhs = ParsedExpr::Postfix { expr: Box::new(lhs), op };
                            p = p1;
                        }
                    },
                    None => {
                        lhs = ParsedExpr::Postfix { expr: Box::new(lhs), op };
                        p = p1;
                    },
                }
            },
        }
    }
    Ok((lhs, p))
}

impl ParsedExpr {
    /// An expression at `pos`, at the loosest binding power.
    pub fn parser(tokens: &Vec<Token>, pos: usize) -> (res: Result<(ParsedExpr, usize), ParseError>)
        ensures
            result_view(res) == spec_parse_expr(tokens_view(tokens@), pos as int, 0),
            res matches Ok((_, p)) ==> pos < p <= tokens.len(),
    {
        parse_expr(tokens, pos, 0)
    }

    /// The whole input as one expression: it fails where tokens are left
    /// over after the expression.
    pub fn parse_all(tokens: &Vec<Token>) -> (res: Result<ParsedExpr, ParseError>)
        ensures
            res matches Ok(e) ==> spec_parse_all(tokens_view(tokens@)) == Ok::<Term, ParseError>(e@),
            res matches Err(x) ==> spec_parse_all(tokens_view(tokens@)) == Err::<Term, ParseError>(x),
    {
        proof {
            lemma_tokens_view(tokens@);
        }
        let (e, p) = match Self::parser(tokens, 0) {
            Ok(x) => x,
            Err(x) => return Err(x),
        };
        if p == tokens.len() {
            Ok(e)
        } else {
            Err(ParseError::TrailingToken(p))
        }
    }
}

} // verus!


