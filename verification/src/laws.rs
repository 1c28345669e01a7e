use vstd::prelude::*;

use crate::ast::{
    group_free, group_free_seq, lemma_lower_seq, lower, lower_seq, lowered_size, lowered_size_seq,
    Term,
};
use crate::codegen::{emission, emission_seq, Def};
use crate::parser::{
    char_bp, ends_in_level, is_primary_at, juxtaposed, non_associative, spec_infix_bp,
    spec_parse_all, spec_parse_expr, spec_parse_loop, spec_parse_primary, spec_read_op,
    ParseError, JUXTAPOSITION_BP,
};
use crate::operands::{
    law_binary_operators_words, law_infix_between_words, law_postfix_before_juxtaposition_words,
    law_postfix_then_infix_words, law_prefix_binds_tighter_words,
    law_prefix_takes_juxtaposition_words,
};
use crate::roundtrip::{lemma_read_op_tokens, op_tokens};
use crate::token::{Delimiter, Tok};

verus! {

/// Parentheses are transparent: an input that parses, put in parentheses,
/// parses to the same expression in a `Grouped` node, so both lower to the
/// same value.
pub proof fn law_parentheses_transparent(toks: Seq<Tok>)
    requires
        spec_parse_all(toks) is Ok,
    ensures
        spec_parse_all(seq![Tok::Group(Delimiter::Parenthesis, toks)]) == Ok::<Term, ParseError>(
            Term::Grouped(Box::new(spec_parse_all(toks)->Ok_0)),
        ),
        lower(spec_parse_all(seq![Tok::Group(Delimiter::Parenthesis, toks)])->Ok_0) == lower(
            spec_parse_all(toks)->Ok_0,
        ),
{
    let outer = seq![Tok::Group(Delimiter::Parenthesis, toks)];
    let e = spec_parse_all(toks)->Ok_0;
    let g = Term::Grouped(Box::new(e));
    assert(spec_read_op(outer, 0) is None);
    assert(spec_parse_primary(outer, 0) == Ok::<(Term, int), ParseError>((g, 1)));
    assert(spec_read_op(outer, 1) is None);
    assert(spec_parse_loop(outer, g, 1, 0) == Ok::<(Term, int), ParseError>((g, 1)));
    assert(spec_parse_expr(outer, 0, 0) == Ok::<(Term, int), ParseError>((g, 1)));
}

/// A parenthesized group is a primary exactly when its whole content is
/// one expression; otherwise no primary starts there.
pub proof fn law_group_holds_one_expression(toks: Seq<Tok>, pos: int)
    requires
        0 <= pos < toks.len(),
        toks[pos] is Group,
        toks[pos]->Group_0 == Delimiter::Parenthesis,
    ensures
        spec_parse_primary(toks, pos) == match spec_parse_all(toks[pos]->Group_1) {
            Ok(e) => Ok::<(Term, int), ParseError>((Term::Grouped(Box::new(e)), pos + 1)),
            Err(_) => Err::<(Term, int), ParseError>(ParseError::ExpectedPrimary),
        },
{
}

/// `a op b`: an operator between two atoms is infix, whatever its
/// characters, even one that could end a postfix expression.
pub proof fn law_infix_between_atoms(a: Seq<char>, op: Seq<char>, b: Seq<char>)
    requires
        op.len() >= 1,
    ensures
        spec_parse_all(seq![Tok::Ident(a)] + op_tokens(op).push(Tok::Ident(b))) == Ok::<
            Term,
            ParseError,
        >(Term::Infix { left: Box::new(Term::Atom(a)), op, right: Box::new(Term::Atom(b)) }),
{
    law_infix_between_words(Tok::Ident(a), op, Tok::Ident(b));
}


/// The expression written `a o1 b o2 c`, with `o1` and `o2` operators.
pub open spec fn two_operators(a: Seq<char>, o1: Seq<char>, b: Seq<char>, o2: Seq<char>, c: Seq<char>) -> Seq<Tok> {
    seq![Tok::Ident(a)] + op_tokens(o1) + seq![Tok::Ident(b)] + op_tokens(o2) + seq![Tok::Ident(c)]
}

pub open spec fn infix(l: Term, op: Seq<char>, r: Term) -> Term {
    Term::Infix { left: Box::new(l), op, right: Box::new(r) }
}

/// Precedence and associativity: in `a o1 b o2 c` the second operator takes
/// `b` as its left operand exactly when it binds tighter than the first;
/// otherwise it takes `a o1 b`. Two operators of one level thus associate to
/// the left, except on the non-associative levels of `;`, of `@` and `^`,
/// and of `:`, where the second one is left over and the input is refused.
pub proof fn law_binary_operators(
    a: Seq<char>,
    o1: Seq<char>,
    b: Seq<char>,
    o2: Seq<char>,
    c: Seq<char>,
)
    requires
        o1.len() >= 1,
        o2.len() >= 1,
    ensures
        spec_parse_all(two_operators(a, o1, b, o2, c)) == if non_associative(char_bp(o2.last()).0)
            && char_bp(o1.last()).0 == char_bp(o2.last()).0 {
            Err::<Term, ParseError>(ParseError::TrailingToken((o1.len() + 2) as usize))
        } else if char_bp(o2.last()).0 <= char_bp(o1.last()).0 {
            Ok::<Term, ParseError>(infix(infix(Term::Atom(a), o1, Term::Atom(b)), o2, Term::Atom(c)))
        } else {
            Ok::<Term, ParseError>(infix(Term::Atom(a), o1, infix(Term::Atom(b), o2, Term::Atom(c))))
        },
{
    law_binary_operators_words(Tok::Ident(a), o1, Tok::Ident(b), o2, Tok::Ident(c));
}

pub open spec fn prefix(op: Seq<char>, e: Term) -> Term {
    Term::Prefix { op, expr: Box::new(e) }
}

pub open spec fn postfix(e: Term, op: Seq<char>) -> Term {
    Term::Postfix { expr: Box::new(e), op }
}

/// A prefix operator binds tighter than every infix operator:
/// `p x o y` is `(p x) o y`.
pub proof fn law_prefix_binds_tighter(p: Seq<char>, x: Seq<char>, o: Seq<char>, y: Seq<char>)
    requires
        p.len() >= 1,
        o.len() >= 1,
    ensures
        spec_parse_all(op_tokens(p) + seq![Tok::Ident(x)] + op_tokens(o) + seq![Tok::Ident(y)])
            == Ok::<Term, ParseError>(infix(prefix(p, Term::Atom(x)), o, Term::Atom(y))),
{
    law_prefix_binds_tighter_words(p, Tok::Ident(x), o, Tok::Ident(y));
}

/// The operand of a prefix operator extends over juxtaposition:
/// `p f x` is `p (f x)`.
pub proof fn law_prefix_takes_juxtaposition(p: Seq<char>, f: Seq<char>, x: Seq<char>)
    requires
        p.len() >= 1,
    ensures
        spec_parse_all(op_tokens(p) + seq![Tok::Ident(f), Tok::Ident(x)]) == Ok::<Term, ParseError>(
            prefix(p, Term::Juxtaposition(seq![Term::Atom(f), Term::Atom(x)])),
        ),
{
    law_prefix_takes_juxtaposition_words(p, Tok::Ident(f), Tok::Ident(x));
}

/// A postfix operator binds before juxtaposition: `f x o` is `f (x o)`.
pub proof fn law_postfix_before_juxtaposition(f: Seq<char>, x: Seq<char>, o: Seq<char>)
    requires
        o.len() >= 1,
    ensures
        spec_parse_all(seq![Tok::Ident(f), Tok::Ident(x)] + op_tokens(o)) == Ok::<Term, ParseError>(
            Term::Juxtaposition(seq![Term::Atom(f), postfix(Term::Atom(x), o)]),
        ),
{
    law_postfix_before_juxtaposition_words(Tok::Ident(f), Tok::Ident(x), o);
}

/// A postfix operator binds before an infix one that follows it:
/// `x p o y` is `(x p) o y`, where `p` and `o` are separate operators.
pub proof fn law_postfix_then_infix(x: Seq<char>, p: Seq<char>, o: Seq<char>, y: Seq<char>)
    requires
        p.len() >= 1,
        o.len() >= 1,
    ensures
        spec_parse_all(seq![Tok::Ident(x)] + op_tokens(p) + op_tokens(o) + seq![Tok::Ident(y)])
            == Ok::<Term, ParseError>(infix(postfix(Term::Atom(x), p), o, Term::Atom(y))),
{
    law_postfix_then_infix_words(Tok::Ident(x), p, o, Tok::Ident(y));
}

/// Parentheses leave no node behind: a lowered expression holds no
/// `Grouped` node.
pub proof fn law_lowered_has_no_groups(t: Term)
    ensures
        group_free(lower(t)),
    decreases t, 1nat,
{
    match t {
        Term::Juxtaposition(v) => {
            lemma_lower_seq_group_free(v);
        },
        Term::Grouped(inner) => {
            law_lowered_has_no_groups(*inner);
        },
        Term::Prefix { op, expr } => {
            law_lowered_has_no_groups(*expr);
        },
        Term::Postfix { expr, op } => {
            law_lowered_has_no_groups(*expr);
        },
        Term::Infix { left, op, right } => {
            law_lowered_has_no_groups(*left);
            law_lowered_has_no_groups(*right);
        },
        _ => {},
    }
}

proof fn lemma_lower_seq_group_free(s: Seq<Term>)
    ensures
        group_free_seq(lower_seq(s)),
    decreases s, 0nat,
{
    if s.len() > 0 {
        lemma_lower_seq_group_free(s.drop_last());
        law_lowered_has_no_groups(s.last());
        assert(lower_seq(s).drop_last() =~= lower_seq(s.drop_last()));
    }
}

/// A parenthesized expression emits exactly the constants of its content,
/// with the same number of nodes and the same value: parentheses add no
/// constant of their own.
pub proof fn law_emission_ignores_groups(t: Term, base: nat)
    ensures
        emission(Term::Grouped(Box::new(t)), base) == emission(t, base),
        lowered_size(Term::Grouped(Box::new(t))) == lowered_size(t),
        lower(Term::Grouped(Box::new(t))) == lower(t),
{
}

/// The expansion has one constant per node that is not a parenthesized
/// expression.
pub proof fn law_emission_counts_nodes(t: Term, base: nat)
    ensures
        emission(t, base).len() == lowered_size(t),
    decreases t, 1nat,
{
    match t {
        Term::Juxtaposition(v) => {
            lemma_emission_seq_counts(v, base);
        },
        Term::Grouped(inner) => {
            law_emission_counts_nodes(*inner, base);
        },
        Term::Prefix { op, expr } => {
            law_emission_counts_nodes(*expr, base);
        },
        Term::Postfix { expr, op } => {
            law_emission_counts_nodes(*expr, base);
        },
        Term::Infix { left, op, right } => {
            law_emission_counts_nodes(*left, base);
            law_emission_counts_nodes(*right, base + emission(*left, base).len());
        },
        _ => {},
    }
}

proof fn lemma_emission_seq_counts(s: Seq<Term>, base: nat)
    ensures
        emission_seq(s, base).0.len() == lowered_size_seq(s),
        emission_seq(s, base).1.len() == s.len(),
    decreases s, 0nat,
{
    if s.len() > 0 {
        lemma_emission_seq_counts(s.drop_last(), base);
        law_emission_counts_nodes(s.last(), base + emission_seq(s.drop_last(), base).0.len());
    }
}

/// Expanding an input that parses and expanding it in parentheses give the
/// same constants: the parenthesized input parses to a `Grouped` node,
/// which emits what its content emits and has the same value.
pub proof fn law_expansion_transparent(toks: Seq<Tok>)
    requires
        spec_parse_all(toks) is Ok,
    ensures
        spec_parse_all(seq![Tok::Group(Delimiter::Parenthesis, toks)]) is Ok,
        emission(spec_parse_all(seq![Tok::Group(Delimiter::Parenthesis, toks)])->Ok_0, 0)
            == emission(spec_parse_all(toks)->Ok_0, 0),
        lowered_size(spec_parse_all(seq![Tok::Group(Delimiter::Parenthesis, toks)])->Ok_0)
            == lowered_size(spec_parse_all(toks)->Ok_0),
        lower(spec_parse_all(seq![Tok::Group(Delimiter::Parenthesis, toks)])->Ok_0) == lower(
            spec_parse_all(toks)->Ok_0,
        ),
{
    law_parentheses_transparent(toks);
    law_emission_ignores_groups(spec_parse_all(toks)->Ok_0, 0);
}

/// Lowering only removes parentheses: an expression without `Grouped`
/// nodes is its own lowering.
pub proof fn law_lower_keeps_group_free(t: Term)
    requires
        group_free(t),
    ensures
        lower(t) == t,
    decreases t, 1nat,
{
    match t {
        Term::Juxtaposition(v) => {
            lemma_lower_seq_keeps(v);
        },
        Term::Prefix { op, expr } => {
            law_lower_keeps_group_free(*expr);
        },
        Term::Postfix { expr, op } => {
            law_lower_keeps_group_free(*expr);
        },
        Term::Infix { left, op, right } => {
            law_lower_keeps_group_free(*left);
            law_lower_keeps_group_free(*right);
        },
        _ => {},
    }
}

proof fn lemma_lower_seq_keeps(s: Seq<Term>)
    requires
        group_free_seq(s),
    ensures
        lower_seq(s) == s,
    decreases s, 0nat,
{
    if s.len() > 0 {
        lemma_lower_seq_keeps(s.drop_last());
        law_lower_keeps_group_free(s.last());
        assert(s.drop_last().push(s.last()) =~= s);
    }
}

/// The texts of the atoms of an expression, left to right.
pub open spec fn atom_texts(t: Term) -> Seq<Seq<char>>
    decreases t,
{
    match t {
        Term::Atom(s) => seq![s],
        Term::Grouped(inner) => atom_texts(*inner),
        Term::Prefix { op, expr } => atom_texts(*expr),
        Term::Postfix { expr, op } => atom_texts(*expr),
        Term::Infix { left, op, right } => atom_texts(*left) + atom_texts(*right),
        Term::Juxtaposition(v) => atom_texts_seq(v),
    }
}

pub open spec fn atom_texts_seq(s: Seq<Term>) -> Seq<Seq<char>>
    decreases s,
{
    if s.len() == 0 {
        Seq::empty()
    } else {
        atom_texts_seq(s.drop_last()) + atom_texts(s.last())
    }
}

/// The texts of the atom constants, in the order they are defined.
pub open spec fn def_atom_texts(defs: Seq<Def>) -> Seq<Seq<char>>
    decreases defs.len(),
{
    if defs.len() == 0 {
        Seq::empty()
    } else {
        def_atom_texts(defs.drop_last()) + match defs.last() {
            Def::Atom(s) => seq![s],
            _ => Seq::empty(),
        }
    }
}

proof fn lemma_def_atom_texts_add(a: Seq<Def>, b: Seq<Def>)
    ensures
        def_atom_texts(a + b) == def_atom_texts(a) + def_atom_texts(b),
    decreases b.len(),
{
    if b.len() == 0 {
        assert(a + b =~= a);
        assert(def_atom_texts(b) =~= Seq::<Seq<char>>::empty());
        assert(def_atom_texts(a) + def_atom_texts(b) =~= def_atom_texts(a));
    } else {
        lemma_def_atom_texts_add(a, b.drop_last());
        assert((a + b).drop_last() =~= a + b.drop_last());
        assert((a + b).last() == b.last());
        let tail = match b.last() {
            Def::Atom(s) => seq![s],
            _ => Seq::<Seq<char>>::empty(),
        };
        assert(def_atom_texts(a + b) =~= def_atom_texts(a) + def_atom_texts(b.drop_last()) + tail);
        assert(def_atom_texts(b) =~= def_atom_texts(b.drop_last()) + tail);
    }
}

proof fn lemma_def_atom_texts_push_op(a: Seq<Def>, d: Def)
    requires
        !(d is Atom),
    ensures
        def_atom_texts(a.push(d)) == def_atom_texts(a),
{
    assert(a.push(d).drop_last() =~= a);
    assert(def_atom_texts(a.push(d)) =~= def_atom_texts(a));
}

/// The expansion defines the atoms in the order they are written: each
/// operand's constants come before those of the operands to its right.
pub proof fn law_emission_keeps_atom_order(t: Term, base: nat)
    ensures
        def_atom_texts(emission(t, base)) == atom_texts(t),
    decreases t, 1nat,
{
    match t {
        Term::Atom(s) => {
            let one = seq![Def::Atom(s)];
            assert(one.drop_last() =~= Seq::<Def>::empty());
            assert(def_atom_texts(Seq::<Def>::empty()) =~= Seq::<Seq<char>>::empty());
            assert(one.last() == Def::Atom(s));
            assert(def_atom_texts(one) =~= seq![s]);
        },
        Term::Grouped(inner) => {
            law_emission_keeps_atom_order(*inner, base);
        },
        Term::Prefix { op, expr } => {
            law_emission_keeps_atom_order(*expr, base);
            let d = emission(*expr, base);
            lemma_def_atom_texts_push_op(d, Def::Prefix { op, expr: (base + d.len() - 1) as u32 });
        },
        Term::Postfix { expr, op } => {
            law_emission_keeps_atom_order(*expr, base);
            let d = emission(*expr, base);
            lemma_def_atom_texts_push_op(d, Def::Postfix { expr: (base + d.len() - 1) as u32, op });
        },
        Term::Infix { left, op, right } => {
            let dl = emission(*left, base);
            let dr = emission(*right, base + dl.len());
            law_emission_keeps_atom_order(*left, base);
            law_emission_keeps_atom_order(*right, base + dl.len());
            lemma_def_atom_texts_add(dl, dr);
            lemma_def_atom_texts_push_op(
                dl + dr,
                Def::Infix {
                    left: (base + dl.len() - 1) as u32,
                    op,
                    right: (base + dl.len() + dr.len() - 1) as u32,
                },
            );
        },
        Term::Juxtaposition(v) => {
            lemma_emission_seq_atom_order(v, base);
            let (d, ids) = emission_seq(v, base);
            lemma_def_atom_texts_push_op(d, Def::Juxtaposition(ids));
        },
    }
}

proof fn lemma_emission_seq_atom_order(s: Seq<Term>, base: nat)
    ensures
        def_atom_texts(emission_seq(s, base).0) == atom_texts_seq(s),
    decreases s, 0nat,
{
    if s.len() == 0 {
        assert(def_atom_texts(Seq::<Def>::empty()) =~= Seq::<Seq<char>>::empty());
    } else {
        let (d, ids) = emission_seq(s.drop_last(), base);
        lemma_emission_seq_atom_order(s.drop_last(), base);
        law_emission_keeps_atom_order(s.last(), base + d.len());
        lemma_def_atom_texts_add(d, emission(s.last(), base + d.len()));
    }
}

} // verus!
