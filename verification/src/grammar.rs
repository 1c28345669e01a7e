use vstd::prelude::*;

use crate::ast::Term;
use crate::parser::{
    char_bp, ends_in_level, is_primary_at, juxtaposed, lemma_op_end, non_associative, op_chars, op_end,
    spec_infix_bp, spec_parse_all, spec_parse_expr, spec_parse_loop, spec_parse_primary,
    spec_read_op, ParseError, JUXTAPOSITION_BP,
};
use crate::token::{Delimiter, Tok};

verus! {

/// The precedence level of an operator used infix: that of its last
/// character.
pub open spec fn infix_level(op: Seq<char>) -> int {
    match spec_infix_bp(op) {
        Some((l, _)) => l as int,
        None => 0,
    }
}

/// How tightly an expression holds together, on the scale of the infix
/// levels: a primary (an atom or a parenthesized expression) most, then a
/// postfix expression, then a prefix expression and a juxtaposition, then
/// an infix expression at the level of its operator.
pub open spec fn level(t: Term) -> int {
    match t {
        Term::Atom(_) => 190,
        Term::Grouped(_) => 190,
        Term::Postfix { .. } => 189,
        Term::Prefix { .. } => JUXTAPOSITION_BP as int,
        Term::Juxtaposition(_) => JUXTAPOSITION_BP as int,
        Term::Infix { op, .. } => infix_level(op),
    }
}

/// A postfix expression: a primary, or a postfix expression followed by an
/// operator.
pub open spec fn is_postfix_expr(t: Term) -> bool {
    t is Atom || t is Grouped || t is Postfix
}

/// The expression is derived by the grammar of the language:
/// - an operator has at least one character;
/// - the operand of a postfix operator is a postfix expression;
/// - the operand of a prefix operator is anything but an infix expression
///   (it extends over a juxtaposition);
/// - a juxtaposition has two operands or more, each after the first one a
///   postfix expression; the first one is a postfix expression, or a
///   juxtaposition itself where a postfix expression follows it;
/// - the left operand of an infix operator is at its level or tighter,
///   strictly tighter on a non-associative level, and the right operand is
///   strictly tighter.
pub open spec fn grammatical(t: Term) -> bool
    decreases t,
{
    match t {
        Term::Atom(_) => true,
        Term::Grouped(inner) => grammatical(*inner),
        Term::Prefix { op, expr } => op.len() >= 1 && !(*expr is Infix) && grammatical(*expr),
        Term::Postfix { expr, op } => op.len() >= 1 && is_postfix_expr(*expr) && grammatical(*expr),
        Term::Infix { left, op, right } => {
            &&& op.len() >= 1
            &&& grammatical(*left)
            &&& grammatical(*right)
            &&& level(*left) >= infix_level(op)
            &&& (non_associative(infix_level(op) as u32) ==> level(*left) > infix_level(op))
            &&& level(*right) > infix_level(op)
        },
        Term::Juxtaposition(v) => v.len() >= 2 && juxt_operands(v),
    }
}

/// The operands of a juxtaposition, as [`grammatical`] describes them.
pub open spec fn juxt_operands(s: Seq<Term>) -> bool
    decreases s,
{
    if s.len() == 0 {
        true
    } else if s.len() == 1 {
        grammatical(s[0]) && (is_postfix_expr(s[0]) || s[0] is Juxtaposition)
    } else {
        juxt_operands(s.drop_last()) && grammatical(s.last()) && is_postfix_expr(s.last())
    }
}

/// The lower of `m`, `l` and the level of a postfix expression.
pub open spec fn bound(m: int, l: int) -> int {
    let a = if m < l {
        m
    } else {
        l
    };
    if a < 189 {
        a
    } else {
        189
    }
}

/// Where a parse of `e` with minimum binding power `m` may stop at `p`: not
/// before a primary unless juxtaposition is too loose for `m`, and before
/// an operator only where a primary follows it and the operator does not
/// go on as infix (too loose, blocked as non-associative, or with a right
/// operand that does not parse).
pub open spec fn stops(toks: Seq<Tok>, e: Term, m: int, p: int) -> bool {
    &&& (is_primary_at(toks, p) ==> (JUXTAPOSITION_BP as int) < m)
    &&& match spec_read_op(toks, p) {
        Some((op, p1)) => is_primary_at(toks, p1) && match spec_infix_bp(op) {
            Some((l, r)) => (l as int) < m || (non_associative(l) && ends_in_level(e, l))
                || spec_parse_expr(toks, p1, r as int) is Err,
            None => true,
        },
        None => true,
    }
}

/// What the parse loop knows of the expression built so far at `pos`.
pub open spec fn settled(toks: Seq<Tok>, lhs: Term, pos: int) -> bool {
    match lhs {
        Term::Postfix { .. } => !is_primary_at(toks, pos),
        Term::Prefix { expr, .. } => stops(toks, *expr, JUXTAPOSITION_BP as int, pos),
        Term::Juxtaposition(v) => v.len() >= 1 && stops(toks, v.last(), JUXTAPOSITION_BP + 1, pos),
        Term::Infix { op, right, .. } => stops(toks, *right, infix_level(op) + 1, pos),
        _ => true,
    }
}

proof fn lemma_levels(op: Seq<char>)
    ensures
        op.len() >= 1 ==> spec_infix_bp(op) == Some(
            ((infix_level(op) as u32), ((infix_level(op) + 1) as u32)),
        ),
        80 <= infix_level(op) <= 170 || op.len() == 0,
{
}

proof fn lemma_shape_primary(toks: Seq<Tok>, pos: int)
    requires
        0 <= pos <= toks.len(),
    ensures
        spec_parse_primary(toks, pos) matches Ok((e, p)) ==> grammatical(e) && (e is Atom
            || e is Grouped) && p == pos + 1,
    decreases toks, toks.len() - pos, 0nat,
{
    if pos < toks.len() {
        if let Tok::Group(d, inner) = toks[pos] {
            if d == Delimiter::Parenthesis {
                assert(decreases_to!(toks => toks[pos]));
                lemma_shape_expr(inner, 0, 0);
            }
        }
    }
}

proof fn lemma_shape_expr(toks: Seq<Tok>, pos: int, m: int)
    requires
        0 <= pos <= toks.len(),
    ensures
        spec_parse_expr(toks, pos, m) matches Ok((e, p)) ==> {
            &&& grammatical(e)
            &&& stops(toks, e, m, p)
            &&& level(e) >= bound(m, JUXTAPOSITION_BP as int)
            &&& is_primary_at(toks, pos) ==> level(e) >= bound(m, 190)
        },
    decreases toks, toks.len() - pos, 1nat,
{
    let start = match spec_read_op(toks, pos) {
        Some((op, p1)) => {
            lemma_op_end(toks, pos);
            lemma_shape_expr(toks, p1, JUXTAPOSITION_BP as int);
            match spec_parse_expr(toks, p1, JUXTAPOSITION_BP as int) {
                Ok((rhs, p2)) => {
                    lemma_levels(op);
                    let t = Term::Prefix { op, expr: Box::new(rhs) };
                    assert(grammatical(t));
                    assert(settled(toks, t, p2));
                    Ok((t, p2))
                },
                Err(_) => {
                    lemma_shape_primary(toks, pos);
                    spec_parse_primary(toks, pos)
                },
            }
        },
        None => {
            lemma_shape_primary(toks, pos);
            spec_parse_primary(toks, pos)
        },
    };
    assert(start == match spec_read_op(toks, pos) {
        Some((op, p1)) => match spec_parse_expr(toks, p1, JUXTAPOSITION_BP as int) {
            Ok((rhs, p2)) => Ok((Term::Prefix { op, expr: Box::new(rhs) }, p2)),
            Err(_) => spec_parse_primary(toks, pos),
        },
        None => spec_parse_primary(toks, pos),
    });
    if let Ok((lhs, p)) = start {
        if pos < p <= toks.len() {
            lemma_shape_loop(toks, lhs, p, m);
        }
    }
}

proof fn lemma_shape_loop(toks: Seq<Tok>, lhs: Term, pos: int, m: int)
    requires
        0 <= pos <= toks.len(),
        grammatical(lhs),
        settled(toks, lhs, pos),
    ensures
        spec_parse_loop(toks, lhs, pos, m) matches Ok((e, p)) ==> {
            &&& grammatical(e)
            &&& stops(toks, e, m, p)
            &&& level(e) >= bound(m, level(lhs))
        },
    decreases toks, toks.len() - pos, 2nat,
{
    if is_primary_at(toks, pos) {
        if !((JUXTAPOSITION_BP as int) < m) {
            lemma_shape_expr(toks, pos, JUXTAPOSITION_BP + 1);
            if let Ok((rhs, p)) = spec_parse_expr(toks, pos, JUXTAPOSITION_BP + 1) {
                if pos < p <= toks.len() {
                    let next = juxtaposed(lhs, rhs);
                    lemma_shape_juxtaposed(lhs, rhs);
                    assert(settled(toks, next, p));
                    lemma_shape_loop(toks, next, p, m);
                }
            }
        }
    } else {
        if let Some((op, p1)) = spec_read_op(toks, pos) {
            lemma_op_end(toks, pos);
            lemma_levels(op);
            let (lbp, rbp) = char_bp(op.last());
            assert(spec_infix_bp(op) == Some((lbp, rbp)));
            if non_associative(lbp) && ends_in_level(lhs, lbp) {
                assert(lhs is Infix);
            } else if (lbp as int) < m && is_primary_at(toks, p1) {
            } else if is_primary_at(toks, p1) {
                lemma_shape_expr(toks, p1, rbp as int);
                if let Ok((rhs, p2)) = spec_parse_expr(toks, p1, rbp as int) {
                    if p1 < p2 <= toks.len() {
                        let next = Term::Infix { left: Box::new(lhs), op, right: Box::new(rhs) };
                        if let Term::Infix { left: l2, op: op2, right: r2 } = lhs {
                            lemma_levels(op2);
                            assert(ends_in_level(*r2, lbp) ==> ends_in_level(lhs, lbp));
                        }
                        assert(grammatical(next));
                        assert(settled(toks, next, p2));
                        lemma_shape_loop(toks, next, p2, m);
                    }
                }
            } else {
                let next = Term::Postfix { expr: Box::new(lhs), op };
                assert(grammatical(next));
                lemma_shape_loop(toks, next, p1, m);
            }
        }
    }
}

proof fn lemma_shape_juxtaposed(lhs: Term, rhs: Term)
    requires
        grammatical(lhs),
        grammatical(rhs),
        is_postfix_expr(rhs),
        is_postfix_expr(lhs) || lhs is Juxtaposition,
    ensures
        grammatical(juxtaposed(lhs, rhs)),
        juxtaposed(lhs, rhs) matches Term::Juxtaposition(v) && v.len() >= 1 && v.last() == rhs,
{
    match lhs {
        Term::Juxtaposition(v) => {
            if rhs is Postfix {
                assert(seq![lhs, rhs].drop_last() =~= seq![lhs]);
                assert(juxt_operands(seq![lhs]));
                assert(juxt_operands(seq![lhs, rhs]));
            } else {
                assert(v.push(rhs).drop_last() =~= v);
                assert(v.push(rhs).last() == rhs);
                assert(juxt_operands(v));
                assert(juxt_operands(v.push(rhs)));
            }
        },
        _ => {
            assert(seq![lhs, rhs].drop_last() =~= seq![lhs]);
            assert(juxt_operands(seq![lhs]));
            assert(juxt_operands(seq![lhs, rhs]));
        },
    }
}

/// One unit of the written input: an identifier or literal by its text, an
/// operator (a run of joined punctuation), the opening or closing of a
/// parenthesized group, or a group in other brackets.
pub enum Lexeme {
    Word(Seq<char>),
    Op(Seq<char>),
    Open,
    Close,
    Other,
}

/// The lexemes of the input from `pos` on, in order, those inside
/// parenthesized groups included.
pub open spec fn lexemes(toks: Seq<Tok>, pos: int) -> Seq<Lexeme>
    decreases toks, toks.len() - pos,
{
    if 0 <= pos < toks.len() {
        match toks[pos] {
            Tok::Ident(s) => seq![Lexeme::Word(s)] + lexemes(toks, pos + 1),
            Tok::Literal(s) => seq![Lexeme::Word(s)] + lexemes(toks, pos + 1),
            Tok::Group(d, inner) => if d == Delimiter::Parenthesis {
                seq![Lexeme::Open] + lexemes(inner, 0) + seq![Lexeme::Close] + lexemes(toks, pos + 1)
            } else {
                seq![Lexeme::Other] + lexemes(toks, pos + 1)
            },
            Tok::Punct(_, _) => {
                proof {
                    lemma_op_end(toks, pos);
                }
                seq![Lexeme::Op(op_chars(toks, pos, op_end(toks, pos)))] + lexemes(
                    toks,
                    op_end(toks, pos),
                )
            },
        }
    } else {
        Seq::empty()
    }
}

/// The lexemes that the expression is written with, in order: each
/// operand and operator where it stands, and a parenthesized expression
/// between its parentheses.
pub open spec fn term_lexemes(t: Term) -> Seq<Lexeme>
    decreases t,
{
    match t {
        Term::Atom(s) => seq![Lexeme::Word(s)],
        Term::Grouped(inner) => seq![Lexeme::Open] + term_lexemes(*inner) + seq![Lexeme::Close],
        Term::Prefix { op, expr } => seq![Lexeme::Op(op)] + term_lexemes(*expr),
        Term::Postfix { expr, op } => term_lexemes(*expr) + seq![Lexeme::Op(op)],
        Term::Infix { left, op, right } => term_lexemes(*left) + seq![Lexeme::Op(op)] + term_lexemes(
            *right,
        ),
        Term::Juxtaposition(v) => seq_lexemes(v),
    }
}

/// The lexemes of the operands, one after the other.
pub open spec fn seq_lexemes(s: Seq<Term>) -> Seq<Lexeme>
    decreases s,
{
    if s.len() == 0 {
        Seq::empty()
    } else {
        seq_lexemes(s.drop_last()) + term_lexemes(s.last())
    }
}

proof fn lemma_lexemes_juxtaposed(lhs: Term, rhs: Term)
    ensures
        term_lexemes(juxtaposed(lhs, rhs)) == term_lexemes(lhs) + term_lexemes(rhs),
{
    let pair = seq![lhs, rhs];
    assert(pair.drop_last() =~= seq![lhs]);
    assert(seq![lhs].drop_last() =~= Seq::<Term>::empty());
    assert(seq_lexemes(Seq::<Term>::empty()) =~= Seq::<Lexeme>::empty());
    assert(seq![lhs].last() == lhs);
    assert(seq_lexemes(seq![lhs]) =~= term_lexemes(lhs));
    assert(seq_lexemes(pair) =~= term_lexemes(lhs) + term_lexemes(rhs));
    match lhs {
        Term::Juxtaposition(v) => {
            if rhs is Postfix {
                assert(juxtaposed(lhs, rhs) == Term::Juxtaposition(pair));
            } else {
                assert(v.push(rhs).drop_last() =~= v);
                assert(v.push(rhs).last() == rhs);
                assert(seq_lexemes(v.push(rhs)) == seq_lexemes(v) + term_lexemes(rhs));
                assert(juxtaposed(lhs, rhs) == Term::Juxtaposition(v.push(rhs)));
            }
        },
        _ => {
            assert(juxtaposed(lhs, rhs) == Term::Juxtaposition(pair));
        },
    }
}

proof fn lemma_lexemes_op(toks: Seq<Tok>, pos: int)
    requires
        spec_read_op(toks, pos) is Some,
    ensures
        lexemes(toks, pos) == seq![Lexeme::Op(spec_read_op(toks, pos)->Some_0.0)] + lexemes(
            toks,
            spec_read_op(toks, pos)->Some_0.1,
        ),
{
}

proof fn lemma_lexemes_primary(toks: Seq<Tok>, pos: int)
    requires
        0 <= pos <= toks.len(),
    ensures
        spec_parse_primary(toks, pos) matches Ok((e, p)) ==> term_lexemes(e) + lexemes(toks, p)
            == lexemes(toks, pos),
    decreases toks, toks.len() - pos, 0nat,
{
    if pos < toks.len() {
        match toks[pos] {
            Tok::Group(d, inner) => {
                if d == Delimiter::Parenthesis {
                    assert(decreases_to!(toks => toks[pos]));
                    lemma_lexemes_expr(inner, 0, 0);
                    if let Ok((e, q)) = spec_parse_expr(inner, 0, 0) {
                        if q == inner.len() {
                            assert(lexemes(inner, q) =~= Seq::<Lexeme>::empty());
                            assert(lexemes(inner, 0) =~= term_lexemes(e));
                            assert(term_lexemes(Term::Grouped(Box::new(e))) + lexemes(toks, pos + 1)
                                =~= lexemes(toks, pos));
                        }
                    }
                }
            },
            Tok::Ident(s) => {
                assert(term_lexemes(Term::Atom(s)) + lexemes(toks, pos + 1) =~= lexemes(toks, pos));
            },
            Tok::Literal(s) => {
                assert(term_lexemes(Term::Atom(s)) + lexemes(toks, pos + 1) =~= lexemes(toks, pos));
            },
            _ => {},
        }
    }
}

proof fn lemma_lexemes_expr(toks: Seq<Tok>, pos: int, m: int)
    requires
        0 <= pos <= toks.len(),
    ensures
        spec_parse_expr(toks, pos, m) matches Ok((e, p)) ==> term_lexemes(e) + lexemes(toks, p)
            == lexemes(toks, pos),
    decreases toks, toks.len() - pos, 1nat,
{
    let start = match spec_read_op(toks, pos) {
        Some((op, p1)) => {
            lemma_op_end(toks, pos);
            lemma_lexemes_expr(toks, p1, JUXTAPOSITION_BP as int);
            match spec_parse_expr(toks, p1, JUXTAPOSITION_BP as int) {
                Ok((rhs, p2)) => {
                    let t = Term::Prefix { op, expr: Box::new(rhs) };
                    lemma_lexemes_op(toks, pos);
                    assert(term_lexemes(t) + lexemes(toks, p2) =~= seq![Lexeme::Op(op)] + (
                    term_lexemes(rhs) + lexemes(toks, p2)));
                    Ok((t, p2))
                },
                Err(_) => {
                    lemma_lexemes_primary(toks, pos);
                    spec_parse_primary(toks, pos)
                },
            }
        },
        None => {
            lemma_lexemes_primary(toks, pos);
            spec_parse_primary(toks, pos)
        },
    };
    assert(start == match spec_read_op(toks, pos) {
        Some((op, p1)) => match spec_parse_expr(toks, p1, JUXTAPOSITION_BP as int) {
            Ok((rhs, p2)) => Ok((Term::Prefix { op, expr: Box::new(rhs) }, p2)),
            Err(_) => spec_parse_primary(toks, pos),
        },
        None => spec_parse_primary(toks, pos),
    });
    if let Ok((lhs, p)) = start {
        if pos < p <= toks.len() {
            lemma_lexemes_loop(toks, lhs, p, m);
            if let Ok((e, q)) = spec_parse_loop(toks, lhs, p, m) {
                assert(term_lexemes(e) + lexemes(toks, q) =~= term_lexemes(lhs) + lexemes(toks, p));
            }
        }
    }
}

proof fn lemma_lexemes_loop(toks: Seq<Tok>, lhs: Term, pos: int, m: int)
    requires
        0 <= pos <= toks.len(),
    ensures
        spec_parse_loop(toks, lhs, pos, m) matches Ok((e, p)) ==> term_lexemes(e) + lexemes(toks, p)
            == term_lexemes(lhs) + lexemes(toks, pos),
    decreases toks, toks.len() - pos, 2nat,
{
    if is_primary_at(toks, pos) {
        if !((JUXTAPOSITION_BP as int) < m) {
            lemma_lexemes_expr(toks, pos, JUXTAPOSITION_BP + 1);
            if let Ok((rhs, p)) = spec_parse_expr(toks, pos, JUXTAPOSITION_BP + 1) {
                if pos < p <= toks.len() {
                    let next = juxtaposed(lhs, rhs);
                    lemma_lexemes_juxtaposed(lhs, rhs);
                    lemma_lexemes_loop(toks, next, p, m);
                    assert(term_lexemes(next) + lexemes(toks, p) =~= term_lexemes(lhs) + (
                    term_lexemes(rhs) + lexemes(toks, p)));
                }
            }
        }
    } else {
        if let Some((op, p1)) = spec_read_op(toks, pos) {
            lemma_op_end(toks, pos);
            lemma_lexemes_op(toks, pos);
            let post = Term::Postfix { expr: Box::new(lhs), op };
            assert(term_lexemes(post) + lexemes(toks, p1) =~= term_lexemes(lhs) + lexemes(toks, pos));
            match spec_infix_bp(op) {
                Some((lbp, rbp)) => {
                    if non_associative(lbp) && ends_in_level(lhs, lbp) {
                    } else if (lbp as int) < m && is_primary_at(toks, p1) {
                    } else if is_primary_at(toks, p1) {
                        lemma_lexemes_expr(toks, p1, rbp as int);
                        if let Ok((rhs, p2)) = spec_parse_expr(toks, p1, rbp as int) {
                            if p1 < p2 <= toks.len() {
                                let next = Term::Infix {
                                    left: Box::new(lhs),
                                    op,
                                    right: Box::new(rhs),
                                };
                                lemma_lexemes_loop(toks, next, p2, m);
                                assert(term_lexemes(next) + lexemes(toks, p2) =~= term_lexemes(lhs)
                                    + (seq![Lexeme::Op(op)] + (term_lexemes(rhs) + lexemes(
                                    toks,
                                    p2,
                                ))));
                            }
                        }
                    } else {
                        lemma_lexemes_loop(toks, post, p1, m);
                    }
                },
                None => {
                    lemma_lexemes_loop(toks, post, p1, m);
                },
            }
        }
    }
}

/// Whatever the parser accepts follows the grammar, and its expression is
/// written with the lexemes of the input, each one where it stands: no
/// token is dropped, added or moved, and every parenthesized group is one
/// whole expression. In particular every juxtaposition has two operands or
/// more, each after the first an atom, a parenthesized or a postfix
/// expression, and every operator has at least one character.
pub proof fn law_parse_follows_grammar(toks: Seq<Tok>, pos: int, min_bp: int)
    requires
        0 <= pos,
    ensures
        spec_parse_expr(toks, pos, min_bp) matches Ok((e, p)) ==> grammatical(e) && term_lexemes(e)
            + lexemes(toks, p) == lexemes(toks, pos),
        spec_parse_all(toks) matches Ok(e) ==> grammatical(e) && term_lexemes(e) == lexemes(
            toks,
            0,
        ),
{
    if pos <= toks.len() {
        lemma_shape_expr(toks, pos, min_bp);
        lemma_lexemes_expr(toks, pos, min_bp);
    } else {
        assert(spec_read_op(toks, pos) is None);
        assert(spec_parse_primary(toks, pos) is Err);
    }
    lemma_shape_expr(toks, 0, 0);
    lemma_lexemes_expr(toks, 0, 0);
    if let Ok((e, p)) = spec_parse_expr(toks, 0, 0) {
        if p == toks.len() {
            assert(lexemes(toks, p) =~= Seq::<Lexeme>::empty());
            assert(term_lexemes(e) + lexemes(toks, p) =~= term_lexemes(e));
        }
    }
}

} // verus!
