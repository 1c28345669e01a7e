use vstd::prelude::*;

use crate::ast::{lowered_size, lowered_size_seq, Term};
use crate::parser::{
    is_primary_at, juxtaposed, lemma_op_end, spec_infix_bp, spec_parse_all, spec_parse_expr,
    spec_parse_loop, spec_parse_primary, spec_read_op, ParseError, JUXTAPOSITION_BP,
};
use crate::token::{Delimiter, Tok};

verus! {

/// The number of tokens in a token tree, its own included.
pub open spec fn tok_size(t: Tok) -> nat
    decreases t, 0nat,
{
    match t {
        Tok::Group(_, inner) => 1 + span(inner, 0, inner.len() as int),
        _ => 1,
    }
}

/// The number of tokens in `toks[a..b]`, counting inside groups.
pub open spec fn span(toks: Seq<Tok>, a: int, b: int) -> nat
    decreases toks, b - a,
{
    if b <= a || b > toks.len() || a < 0 {
        0
    } else {
        span(toks, a, b - 1) + tok_size(toks[b - 1])
    }
}

/// The number of tokens in a sequence, counting inside groups.
pub open spec fn tokens_size(toks: Seq<Tok>) -> nat {
    span(toks, 0, toks.len() as int)
}

pub proof fn lemma_span_split(toks: Seq<Tok>, a: int, b: int, c: int)
    requires
        0 <= a <= b <= c <= toks.len(),
    ensures
        span(toks, a, c) == span(toks, a, b) + span(toks, b, c),
    decreases c - b,
{
    if c > b {
        lemma_span_split(toks, a, b, c - 1);
    }
}

pub proof fn lemma_span_positive(toks: Seq<Tok>, a: int, b: int)
    requires
        0 <= a < b <= toks.len(),
    ensures
        span(toks, a, b) >= 1,
{
    lemma_span_split(toks, a, b - 1, b);
    lemma_tok_size_positive(toks[b - 1]);
}

pub proof fn lemma_tok_size_positive(t: Tok)
    ensures
        tok_size(t) >= 1,
{
    match t {
        Tok::Group(_, inner) => {},
        _ => {},
    }
}

proof fn lemma_pair_size(l: Term, r: Term)
    ensures
        lowered_size(Term::Juxtaposition(seq![l, r])) == 1 + lowered_size(l) + lowered_size(r),
{
    let s = seq![l, r];
    assert(s.drop_last() =~= seq![l]);
    assert(seq![l].drop_last() =~= Seq::<Term>::empty());
    assert(lowered_size_seq(Seq::<Term>::empty()) == 0);
    assert(seq![l].last() == l);
    assert(lowered_size_seq(seq![l]) == lowered_size(l));
    assert(lowered_size_seq(s) == lowered_size(l) + lowered_size(r));
}

proof fn lemma_juxtaposed_size(l: Term, r: Term)
    ensures
        lowered_size(juxtaposed(l, r)) <= lowered_size(l) + lowered_size(r) + 1,
{
    lemma_pair_size(l, r);
    if let Term::Juxtaposition(v) = l {
        if !(r is Postfix) {
            assert(v.push(r).drop_last() =~= v);
            assert(lowered_size_seq(v.push(r)) == lowered_size_seq(v) + lowered_size(r));
        }
    }
}

proof fn lemma_size_primary(toks: Seq<Tok>, pos: int)
    requires
        0 <= pos <= toks.len(),
    ensures
        spec_parse_primary(toks, pos) matches Ok((e, p)) ==> p == pos + 1 && p <= toks.len()
            && lowered_size(e) + 1 <= 2 * span(toks, pos, p),
    decreases toks, toks.len() - pos, 0nat,
{
    if pos < toks.len() {
        lemma_span_split(toks, pos, pos, pos + 1);
        assert(span(toks, pos, pos) == 0);
        assert(span(toks, pos, pos + 1) == tok_size(toks[pos]));
        lemma_tok_size_positive(toks[pos]);
        if let Tok::Group(d, inner) = toks[pos] {
            if d == Delimiter::Parenthesis {
                assert(decreases_to!(toks => toks[pos]));
                lemma_size_expr(inner, 0, 0);
                if let Ok((e, q)) = spec_parse_expr(inner, 0, 0) {
                    lemma_span_split(inner, 0, q, inner.len() as int);
                    assert(tok_size(toks[pos]) == 1 + span(inner, 0, inner.len() as int));
                    assert(lowered_size(Term::Grouped(Box::new(e))) == lowered_size(e));
                }
            }
        }
    }
}

proof fn lemma_size_expr(toks: Seq<Tok>, pos: int, bp: int)
    requires
        0 <= pos <= toks.len(),
    ensures
        spec_parse_expr(toks, pos, bp) matches Ok((e, p)) ==> pos < p <= toks.len() && lowered_size(
            e,
        ) + 1 <= 2 * span(toks, pos, p),
    decreases toks, toks.len() - pos, 1nat,
{
    let start = match spec_read_op(toks, pos) {
        Some((op, p1)) => {
            lemma_op_end(toks, pos);
            lemma_size_expr(toks, p1, JUXTAPOSITION_BP as int);
            match spec_parse_expr(toks, p1, JUXTAPOSITION_BP as int) {
                Ok((rhs, p2)) => {
                    lemma_span_split(toks, pos, p1, p2);
                    lemma_span_positive(toks, pos, p1);
                    Ok((Term::Prefix { op, expr: Box::new(rhs) }, p2))
                },
                Err(_) => {
                    lemma_size_primary(toks, pos);
                    spec_parse_primary(toks, pos)
                },
            }
        },
        None => {
            lemma_size_primary(toks, pos);
            spec_parse_primary(toks, pos)
        },
    };
    if let Ok((lhs, p)) = start {
        if pos < p <= toks.len() {
            lemma_size_loop(toks, lhs, p, bp);
            if let Ok((e, q)) = spec_parse_loop(toks, lhs, p, bp) {
                lemma_span_split(toks, pos, p, q);
            }
        }
    }
}

proof fn lemma_size_loop(toks: Seq<Tok>, lhs: Term, pos: int, bp: int)
    requires
        0 <= pos <= toks.len(),
    ensures
        spec_parse_loop(toks, lhs, pos, bp) matches Ok((e, p)) ==> pos <= p <= toks.len()
            && lowered_size(e) + 1 <= lowered_size(lhs) + 1 + 2 * span(toks, pos, p),
    decreases toks, toks.len() - pos, 2nat,
{
    if is_primary_at(toks, pos) {
        if !((JUXTAPOSITION_BP as int) < bp) {
            lemma_size_expr(toks, pos, JUXTAPOSITION_BP + 1);
            if let Ok((rhs, p)) = spec_parse_expr(toks, pos, JUXTAPOSITION_BP + 1) {
                let next = juxtaposed(lhs, rhs);
                lemma_juxtaposed_size(lhs, rhs);
                lemma_size_loop(toks, next, p, bp);
                if let Ok((e, q)) = spec_parse_loop(toks, next, p, bp) {
                    lemma_span_split(toks, pos, p, q);
                }
            }
        }
    } else {
        if let Some((op, p1)) = spec_read_op(toks, pos) {
            lemma_op_end(toks, pos);
            lemma_span_positive(toks, pos, p1);
            let post = Term::Postfix { expr: Box::new(lhs), op };
            match spec_infix_bp(op) {
                Some((lbp, rbp)) => {
                    if (lbp as int) < bp && is_primary_at(toks, p1) {
                    } else if is_primary_at(toks, p1) {
                        lemma_size_expr(toks, p1, rbp as int);
                        if let Ok((rhs, p2)) = spec_parse_expr(toks, p1, rbp as int) {
                            let next = Term::Infix { left: Box::new(lhs), op, right: Box::new(rhs) };
                            lemma_size_loop(toks, next, p2, bp);
                            if let Ok((e, q)) = spec_parse_loop(toks, next, p2, bp) {
                                lemma_span_split(toks, pos, p1, p2);
                                lemma_span_split(toks, pos, p2, q);
                            }
                        }
                    } else {
                        lemma_size_loop(toks, post, p1, bp);
                        if let Ok((e, q)) = spec_parse_loop(toks, post, p1, bp) {
                            lemma_span_split(toks, pos, p1, q);
                        }
                    }
                },
                None => {
                    lemma_size_loop(toks, post, p1, bp);
                    if let Ok((e, q)) = spec_parse_loop(toks, post, p1, bp) {
                        lemma_span_split(toks, pos, p1, q);
                    }
                },
            }
        }
    }
}

/// Positions only move forward: an expression parsed at `pos` ends after
/// `pos` and within the input.
pub proof fn law_parse_consumes(toks: Seq<Tok>, pos: int, bp: int)
    requires
        0 <= pos <= toks.len(),
    ensures
        spec_parse_expr(toks, pos, bp) matches Ok((e, p)) ==> pos < p <= toks.len(),
{
    lemma_size_expr(toks, pos, bp);
}

/// The expansion has fewer constants than twice the number of input
/// tokens (those inside groups included).
pub proof fn law_expansion_size(toks: Seq<Tok>)
    requires
        spec_parse_all(toks) is Ok,
    ensures
        lowered_size(spec_parse_all(toks)->Ok_0) < 2 * tokens_size(toks),
{
    lemma_size_expr(toks, 0, 0);
}

} // verus!
