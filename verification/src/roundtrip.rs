use vstd::prelude::*;

use crate::ast::Term;
use crate::parser::{
    ParseError,
    is_joint_at, is_primary_at, is_punct_at, juxtaposed, lemma_op_end_at, op_chars, op_end,
    punct_char, spec_parse_all, spec_parse_expr, spec_parse_loop, spec_parse_primary,
    spec_read_op, spec_infix_bp, JUXTAPOSITION_BP,
};
use crate::token::{Delimiter, Spacing, Tok};

verus! {

/// The tokens of an operator: one punctuation per character, each joined
/// to the next one.
pub open spec fn op_tokens(op: Seq<char>) -> Seq<Tok> {
    Seq::new(op.len(), |i: int| op_token(op, i))
}

/// The `i`-th token of an operator: its last character stands alone.
pub open spec fn op_token(op: Seq<char>, i: int) -> Tok {
    Tok::Punct(op[i], if i + 1 < op.len() { Spacing::Joint } else { Spacing::Alone })
}

/// Writes an expression back as tokens, parenthesizing every operand that
/// is not an atom.
pub open spec fn unparse(t: Term) -> Seq<Tok>
    decreases t, 1nat,
{
    match t {
        Term::Atom(s) => seq![Tok::Ident(s)],
        Term::Grouped(inner) => seq![Tok::Group(Delimiter::Parenthesis, unparse(*inner))],
        Term::Prefix { op, expr } => op_tokens(op).push(wrap(*expr)),
        Term::Postfix { expr, op } => seq![
            Tok::Group(Delimiter::Parenthesis, seq![wrap(*expr)]),
        ] + op_tokens(op),
        Term::Infix { left, op, right } => seq![wrap(*left)] + op_tokens(op).push(wrap(*right)),
        Term::Juxtaposition(v) => wrap_seq(v),
    }
}

/// An operand as one token: an atom as it is, anything else in parentheses.
pub open spec fn wrap(t: Term) -> Tok
    decreases t, 2nat,
{
    match t {
        Term::Atom(s) => Tok::Ident(s),
        _ => Tok::Group(Delimiter::Parenthesis, unparse(t)),
    }
}

pub open spec fn wrap_seq(s: Seq<Term>) -> Seq<Tok>
    decreases s, 0nat,
{
    if s.len() == 0 {
        Seq::empty()
    } else {
        wrap_seq(s.drop_last()).push(wrap(s.last()))
    }
}

/// Drops the parentheses that the writer added, and a juxtaposition of a
/// single operand.
pub open spec fn normalize(t: Term) -> Term
    decreases t, 1nat,
{
    match t {
        Term::Atom(s) => Term::Atom(s),
        Term::Grouped(inner) => normalize(*inner),
        Term::Juxtaposition(v) => {
            let n = normalize_seq(v);
            if n.len() == 1 {
                n[0]
            } else {
                Term::Juxtaposition(n)
            }
        },
        Term::Prefix { op, expr } => Term::Prefix { op, expr: Box::new(normalize(*expr)) },
        Term::Postfix { expr, op } => Term::Postfix { expr: Box::new(normalize(*expr)), op },
        Term::Infix { left, op, right } => Term::Infix {
            left: Box::new(normalize(*left)),
            op,
            right: Box::new(normalize(*right)),
        },
    }
}

pub open spec fn normalize_seq(s: Seq<Term>) -> Seq<Term>
    decreases s, 0nat,
{
    if s.len() == 0 {
        Seq::empty()
    } else {
        normalize_seq(s.drop_last()).push(normalize(s.last()))
    }
}

/// Every operator has at least one character and every juxtaposition at
/// least one operand.
pub open spec fn well_formed(t: Term) -> bool
    decreases t, 1nat,
{
    match t {
        Term::Atom(_) => true,
        Term::Grouped(inner) => well_formed(*inner),
        Term::Juxtaposition(v) => v.len() >= 1 && well_formed_seq(v),
        Term::Prefix { op, expr } => op.len() >= 1 && well_formed(*expr),
        Term::Postfix { expr, op } => op.len() >= 1 && well_formed(*expr),
        Term::Infix { left, op, right } => op.len() >= 1 && well_formed(*left) && well_formed(*right),
    }
}

pub open spec fn well_formed_seq(s: Seq<Term>) -> bool
    decreases s, 0nat,
{
    if s.len() == 0 {
        true
    } else {
        well_formed_seq(s.drop_last()) && well_formed(s.last())
    }
}

pub proof fn lemma_seqs(s: Seq<Term>)
    ensures
        wrap_seq(s).len() == s.len(),
        normalize_seq(s).len() == s.len(),
        forall|i: int| 0 <= i < s.len() ==> #[trigger] wrap_seq(s)[i] == wrap(s[i]),
        forall|i: int| 0 <= i < s.len() ==> #[trigger] normalize_seq(s)[i] == normalize(s[i]),
        well_formed_seq(s) <==> forall|i: int| 0 <= i < s.len() ==> #[trigger] well_formed(s[i]),
    decreases s.len(),
{
    if s.len() > 0 {
        lemma_seqs(s.drop_last());
        if well_formed_seq(s.drop_last()) && well_formed(s.last()) {
            assert forall|i: int| 0 <= i < s.len() implies #[trigger] well_formed(s[i]) by {
                if i < s.len() - 1 {
                    assert(s.drop_last()[i] == s[i]);
                }
            }
        }
        if forall|i: int| 0 <= i < s.len() ==> #[trigger] well_formed(s[i]) {
            assert forall|i: int| 0 <= i < s.drop_last().len() implies #[trigger] well_formed(
                s.drop_last()[i],
            ) by {
                assert(s.drop_last()[i] == s[i]);
            }
            assert(well_formed(s[s.len() - 1]));
        }
    }
}

/// The operator tokens at `pos` read back as the operator.
pub proof fn lemma_read_op_tokens(toks: Seq<Tok>, pos: int, op: Seq<char>)
    requires
        op.len() >= 1,
        0 <= pos,
        pos + op.len() <= toks.len(),
        forall|k: int| 0 <= k < op.len() ==> toks[pos + k] == #[trigger] op_tokens(op)[k],
    ensures
        spec_read_op(toks, pos) == Some((op, pos + op.len())),
{
    let end = pos + op.len();
    assert forall|k: int| pos <= k < end implies #[trigger] is_punct_at(toks, k) by {
        assert(toks[pos + (k - pos)] == op_tokens(op)[k - pos]);
    }
    assert forall|k: int| pos <= k < end - 1 implies #[trigger] is_joint_at(toks, k) by {
        assert(toks[pos + (k - pos)] == op_tokens(op)[k - pos]);
    }
    assert(toks[pos + (op.len() - 1)] == op_tokens(op)[op.len() - 1]);
    assert(!is_joint_at(toks, end - 1));
    lemma_op_end_at(toks, pos, end);
    assert forall|k: int| 0 <= k < op.len() implies op_chars(toks, pos, end)[k] == op[k] by {
        assert(toks[pos + k] == op_tokens(op)[k]);
    }
    assert(op_chars(toks, pos, end) =~= op);
    assert(is_punct_at(toks, pos));
}


/// A primary followed by nothing, or (above juxtaposition strength) by
/// another primary, parses as just that primary.
pub proof fn lemma_parse_single(toks: Seq<Tok>, pos: int, bp: int, x: Term)
    requires
        0 <= pos < toks.len(),
        !is_punct_at(toks, pos),
        spec_parse_primary(toks, pos) == Ok::<(Term, int), ParseError>((x, pos + 1)),
        pos + 1 == toks.len() || (is_primary_at(toks, pos + 1) && bp > JUXTAPOSITION_BP),
    ensures
        spec_parse_expr(toks, pos, bp) == Ok::<(Term, int), ParseError>((x, pos + 1)),
{
    assert(spec_read_op(toks, pos) is None);
    assert(spec_read_op(toks, pos + 1) is None || is_primary_at(toks, pos + 1));
    assert(spec_parse_loop(toks, x, pos + 1, bp) == Ok::<(Term, int), ParseError>((x, pos + 1)));
}

/// An operand written as one token parses back to itself, up to the
/// parentheses that the writer added.
pub proof fn lemma_parse_wrapped(toks: Seq<Tok>, pos: int, c: Term)
    requires
        0 <= pos < toks.len(),
        toks[pos] == wrap(c),
        well_formed(c),
    ensures
        is_primary_at(toks, pos),
        !is_punct_at(toks, pos),
        spec_parse_primary(toks, pos) matches Ok((x, p)) && p == pos + 1 && normalize(x)
            == normalize(c) && (x is Atom || x is Grouped),
    decreases c, 2nat,
{
    match c {
        Term::Atom(s) => {},
        _ => {
            lemma_unparse_parse(c);
        },
    }
}

proof fn lemma_juxt_loop(toks: Seq<Tok>, xs: Seq<Term>, k: int)
    requires
        xs.len() == toks.len(),
        2 <= k <= toks.len(),
        forall|i: int|
            0 <= i < toks.len() ==> #[trigger] is_primary_at(toks, i) && !is_punct_at(toks, i)
                && spec_parse_primary(toks, i) == Ok::<(Term, int), ParseError>((xs[i], i + 1))
                && !(xs[i] is Postfix),
    ensures
        spec_parse_loop(toks, Term::Juxtaposition(xs.take(k)), k, 0) == Ok::<
            (Term, int),
            ParseError,
        >((Term::Juxtaposition(xs), toks.len() as int)),
    decreases toks.len() - k,
{
    if k < toks.len() {
        assert(is_primary_at(toks, k));
        if k + 1 < toks.len() {
            assert(is_primary_at(toks, k + 1));
        }
        lemma_parse_single(toks, k, JUXTAPOSITION_BP + 1, xs[k]);
        assert(xs.take(k).push(xs[k]) =~= xs.take(k + 1));
        lemma_juxt_loop(toks, xs, k + 1);
    } else {
        assert(xs.take(k) =~= xs);
        assert(!is_primary_at(toks, k));
    }
}

/// Written back as tokens and parsed again, a well-formed expression comes
/// back as itself, up to parentheses.
pub proof fn lemma_unparse_parse(t: Term)
    requires
        well_formed(t),
    ensures
        spec_parse_expr(unparse(t), 0, 0) matches Ok((e, p)) && p == unparse(t).len() && normalize(
            e,
        ) == normalize(t),
    decreases t, 1nat,
{
    match t {
        Term::Prefix { .. } => lemma_unparse_prefix(t),
        Term::Postfix { .. } => lemma_unparse_postfix(t),
        Term::Infix { .. } => lemma_unparse_infix(t),
        Term::Juxtaposition(_) => lemma_unparse_juxtaposition(t),
        _ => lemma_unparse_leaf(t),
    }
}

proof fn lemma_unparse_leaf(t: Term)
    requires
        well_formed(t),
        t is Atom || t is Grouped,
    ensures
        spec_parse_expr(unparse(t), 0, 0) matches Ok((e, p)) && p == unparse(t).len() && normalize(
            e,
        ) == normalize(t),
    decreases t, 0nat,
{
    let toks = unparse(t);
    match t {
        Term::Atom(s) => {
            assert(toks == seq![Tok::Ident(s)]);
            assert(spec_read_op(toks, 0) is None);
            assert(spec_parse_primary(toks, 0) == Ok::<(Term, int), ParseError>((Term::Atom(s), 1)));
            assert(spec_read_op(toks, 1) is None);
            assert(spec_parse_loop(toks, Term::Atom(s), 1, 0) == Ok::<(Term, int), ParseError>(
                (Term::Atom(s), 1),
            ));
            assert(spec_parse_expr(toks, 0, 0) == Ok::<(Term, int), ParseError>((Term::Atom(s), 1)));
            assert(normalize(Term::Atom(s)) == t);
            assert(normalize(t) == t);
            assert(toks.len() == 1);
        },
        Term::Grouped(inner) => {
            lemma_unparse_parse(*inner);
            let e = spec_parse_expr(unparse(*inner), 0, 0)->Ok_0.0;
            let g = Term::Grouped(Box::new(e));
            assert(spec_read_op(toks, 0) is None);
            assert(spec_parse_primary(toks, 0) == Ok::<(Term, int), ParseError>((g, 1)));
            assert(spec_read_op(toks, 1) is None);
            assert(spec_parse_loop(toks, g, 1, 0) == Ok::<(Term, int), ParseError>((g, 1)));
            assert(spec_parse_expr(toks, 0, 0) == Ok::<(Term, int), ParseError>((g, 1)));
            assert(normalize(g) == normalize(t));
        },
        _ => {},
    }
}

proof fn lemma_unparse_prefix(t: Term)
    requires
        well_formed(t),
        t is Prefix,
    ensures
        spec_parse_expr(unparse(t), 0, 0) matches Ok((e, p)) && p == unparse(t).len() && normalize(
            e,
        ) == normalize(t),
    decreases t, 0nat,
{
    let toks = unparse(t);
    let op = t->Prefix_op;
    let expr = t->Prefix_expr;
    let n = op.len() as int;
    assert forall|k: int| 0 <= k < op.len() implies toks[0 + k] == #[trigger] op_tokens(
        op,
    )[k] by {}
    lemma_read_op_tokens(toks, 0, op);
    lemma_parse_wrapped(toks, n, *expr);
    let x = spec_parse_primary(toks, n)->Ok_0.0;
    lemma_parse_single(toks, n, JUXTAPOSITION_BP as int, x);
    let r = Term::Prefix { op, expr: Box::new(x) };
    assert(spec_read_op(toks, n + 1) is None);
    assert(spec_parse_loop(toks, r, n + 1, 0) == Ok::<(Term, int), ParseError>((r, n + 1)));
    assert(spec_parse_expr(toks, 0, 0) == Ok::<(Term, int), ParseError>((r, n + 1)));
    assert(normalize(r) == normalize(t));
}


proof fn lemma_unparse_postfix(t: Term)
    requires
        well_formed(t),
        t is Postfix,
    ensures
        spec_parse_expr(unparse(t), 0, 0) matches Ok((e, p)) && p == unparse(t).len() && normalize(
            e,
        ) == normalize(t),
    decreases t, 0nat,
{
    let toks = unparse(t);
    let op = t->Postfix_op;
    let expr = t->Postfix_expr;
    let n = op.len() as int;
    let inner = seq![wrap(*expr)];
    lemma_parse_wrapped(inner, 0, *expr);
    let x = spec_parse_primary(inner, 0)->Ok_0.0;
    lemma_parse_single(inner, 0, 0, x);
    assert(spec_read_op(toks, 0) is None);
    assert forall|k: int| 0 <= k < op.len() implies toks[1 + k] == #[trigger] op_tokens(
        op,
    )[k] by {}
    lemma_read_op_tokens(toks, 1, op);
    assert(spec_infix_bp(op) is Some);
    assert(!is_primary_at(toks, n + 1));
    assert(spec_read_op(toks, n + 1) is None);
    let g = Term::Grouped(Box::new(x));
    let r = Term::Postfix { expr: Box::new(g), op };
    assert(spec_parse_expr(inner, 0, 0) == Ok::<(Term, int), ParseError>((x, 1)));
    assert(spec_parse_primary(toks, 0) == Ok::<(Term, int), ParseError>((g, 1)));
    assert(spec_parse_loop(toks, r, n + 1, 0) == Ok::<(Term, int), ParseError>((r, n + 1)));
    assert(spec_parse_loop(toks, g, 1, 0) == Ok::<(Term, int), ParseError>((r, n + 1)));
    assert(t == Term::Postfix { expr, op });
    assert(normalize(x) == normalize(*expr));
    assert(normalize(g) == normalize(x));
    assert(spec_parse_expr(toks, 0, 0) == Ok::<(Term, int), ParseError>((r, n + 1)));
    assert(normalize(r) == normalize(t));
}


proof fn lemma_unparse_infix(t: Term)
    requires
        well_formed(t),
        t is Infix,
    ensures
        spec_parse_expr(unparse(t), 0, 0) matches Ok((e, p)) && p == unparse(t).len() && normalize(
            e,
        ) == normalize(t),
    decreases t, 0nat,
{
    let toks = unparse(t);
    let left = t->Infix_left;
    let op = t->Infix_op;
    let right = t->Infix_right;
    let n = op.len() as int;
    lemma_parse_wrapped(toks, 0, *left);
    assert forall|k: int| 0 <= k < op.len() implies toks[1 + k] == #[trigger] op_tokens(
        op,
    )[k] by {}
    lemma_read_op_tokens(toks, 1, op);
    assert(spec_infix_bp(op) is Some);
    lemma_parse_wrapped(toks, n + 1, *right);
    let (lbp, rbp) = spec_infix_bp(op)->Some_0;
    let xr = spec_parse_primary(toks, n + 1)->Ok_0.0;
    lemma_parse_single(toks, n + 1, rbp as int, xr);
    let xl = spec_parse_primary(toks, 0)->Ok_0.0;
    let r = Term::Infix { left: Box::new(xl), op, right: Box::new(xr) };
    assert(spec_read_op(toks, 0) is None);
    assert(spec_parse_primary(toks, 0) == Ok::<(Term, int), ParseError>((xl, 1)));
    assert(spec_read_op(toks, n + 2) is None);
    assert(spec_parse_loop(toks, r, n + 2, 0) == Ok::<(Term, int), ParseError>((r, n + 2)));
    assert(spec_parse_loop(toks, xl, 1, 0) == Ok::<(Term, int), ParseError>((r, n + 2)));
    assert(spec_parse_expr(toks, 0, 0) == Ok::<(Term, int), ParseError>((r, n + 2)));
    assert(normalize(r) == normalize(t));
}


proof fn lemma_unparse_juxtaposition(t: Term)
    requires
        well_formed(t),
        t is Juxtaposition,
    ensures
        spec_parse_expr(unparse(t), 0, 0) matches Ok((e, p)) && p == unparse(t).len() && normalize(
            e,
        ) == normalize(t),
    decreases t, 0nat,
{
    let toks = unparse(t);
    let cs = t->Juxtaposition_0;
    lemma_seqs(cs);
    let n = cs.len() as int;
    assert forall|i: int| 0 <= i < n implies #[trigger] is_primary_at(toks, i) && (
    !is_punct_at(toks, i)) && (spec_parse_primary(toks, i) matches Ok((x, p)) && p == i
        + 1 && normalize(x) == normalize(cs[i]) && (x is Atom || x is Grouped)) by {
        assert(decreases_to!(t => t->Juxtaposition_0));
        assert(decreases_to!(cs => cs[i]));
        lemma_parse_wrapped(toks, i, cs[i]);
    }
    let xs = Seq::new(n as nat, |i: int| spec_parse_primary(toks, i)->Ok_0.0);
    assert forall|i: int| 0 <= i < n implies #[trigger] is_primary_at(toks, i)
        && !is_punct_at(toks, i) && spec_parse_primary(toks, i) == Ok::<
        (Term, int),
        ParseError,
    >((xs[i], i + 1)) && !(xs[i] is Postfix) by {
        assert(is_primary_at(toks, i));
        let r = spec_parse_primary(toks, i);
        assert(r is Ok);
        assert(xs[i] == r->Ok_0.0);
        assert(r->Ok_0.1 == i + 1);
    }
    assert(spec_read_op(toks, 0) is None);
    lemma_seqs(xs);
    assert(is_primary_at(toks, 0));
    assert(spec_parse_primary(toks, 0) == Ok::<(Term, int), ParseError>((xs[0], 1)));
    if n == 1 {
        assert(spec_read_op(toks, 1) is None);
        assert(spec_parse_loop(toks, xs[0], 1, 0) == Ok::<(Term, int), ParseError>((xs[0], 1)));
        assert(spec_parse_expr(toks, 0, 0) == Ok::<(Term, int), ParseError>((xs[0], 1)));
        assert(t == Term::Juxtaposition(cs));
        assert(normalize_seq(cs)[0] == normalize(cs[0]));
        assert(normalize(xs[0]) == normalize(cs[0]));
        assert(normalize(xs[0]) == normalize(t));
    } else {
        assert(is_primary_at(toks, 1));
        if n > 2 {
            assert(is_primary_at(toks, 2));
        }
        lemma_parse_single(toks, 1, JUXTAPOSITION_BP + 1, xs[1]);
        assert(xs.take(2) =~= seq![xs[0], xs[1]]);
        lemma_juxt_loop(toks, xs, 2);
        assert forall|i: int| 0 <= i < n implies normalize_seq(xs)[i] == normalize_seq(
            cs,
        )[i] by {
            assert(is_primary_at(toks, i));
        }
        assert(normalize_seq(xs) =~= normalize_seq(cs));
        let r = Term::Juxtaposition(xs);
        assert(spec_parse_expr(toks, 1, JUXTAPOSITION_BP + 1) == Ok::<(Term, int), ParseError>((xs[1], 2)));
        assert(juxtaposed(xs[0], xs[1]) == Term::Juxtaposition(xs.take(2)));
        assert(spec_parse_loop(toks, xs[0], 1, 0) == Ok::<(Term, int), ParseError>((r, n)));
        assert(spec_parse_expr(toks, 0, 0) == Ok::<(Term, int), ParseError>((r, n)));
        assert(normalize(r) == normalize(t));
    }
}

/// Round trip: a well-formed expression, written as tokens with every
/// non-atomic operand in parentheses, parses back to the same expression
/// once the added parentheses are dropped.
pub proof fn law_round_trip(t: Term)
    requires
        well_formed(t),
    ensures
        spec_parse_all(unparse(t)) matches Ok(e) && normalize(e) == normalize(t),
{
    lemma_unparse_parse(t);
}

} // verus!

