use vstd::prelude::*;

use crate::ast::Term;
use crate::parser::{
    char_bp, ends_in_level, is_primary_at, is_punct_at, juxtaposed, non_associative,
    spec_infix_bp, spec_parse_all, spec_parse_expr, spec_parse_loop, spec_parse_primary,
    spec_read_op, ParseError, JUXTAPOSITION_BP,
};
use crate::laws::{infix, postfix, prefix};
use crate::roundtrip::{lemma_parse_single, lemma_read_op_tokens, op_tokens};
use crate::token::{Delimiter, Tok};

verus! {

/// A token that is a whole operand by itself: an identifier or a literal,
/// whatever its text.
pub open spec fn is_word(t: Tok) -> bool {
    t is Ident || t is Literal
}

/// The atom that a word stands for: its text.
pub open spec fn word_atom(t: Tok) -> Term {
    match t {
        Tok::Ident(s) => Term::Atom(s),
        Tok::Literal(s) => Term::Atom(s),
        _ => Term::Atom(Seq::empty()),
    }
}

/// The atoms of a sequence of words.
pub open spec fn word_atoms(ws: Seq<Tok>) -> Seq<Term> {
    Seq::new(ws.len(), |i: int| word_atom(ws[i]))
}

/// The precedence table: an infix operator binds by its last character,
/// left power first, the right power one above it.
/// `*` `/` `%` bind at 170, `+` `-` at 160, `:` at 150, `@` `^` at 140,
/// `,` at 100, `;` at 80, and every other character at 130 (comparison).
/// An empty operator has no binding power.
pub proof fn law_precedence_table(op: Seq<char>)
    ensures
        op.len() == 0 ==> spec_infix_bp(op) is None,
        op.len() >= 1 && (op.last() == '*' || op.last() == '/' || op.last() == '%')
            ==> spec_infix_bp(op) == Some((170u32, 171u32)),
        op.len() >= 1 && (op.last() == '+' || op.last() == '-') ==> spec_infix_bp(op) == Some(
            (160u32, 161u32),
        ),
        op.len() >= 1 && op.last() == ':' ==> spec_infix_bp(op) == Some((150u32, 151u32)),
        op.len() >= 1 && (op.last() == '@' || op.last() == '^') ==> spec_infix_bp(op) == Some(
            (140u32, 141u32),
        ),
        op.len() >= 1 && op.last() == ',' ==> spec_infix_bp(op) == Some((100u32, 101u32)),
        op.len() >= 1 && op.last() == ';' ==> spec_infix_bp(op) == Some((80u32, 81u32)),
        op.len() >= 1 && !(op.last() == '*' || op.last() == '/' || op.last() == '%' || op.last()
            == '+' || op.last() == '-' || op.last() == ':' || op.last() == '@' || op.last() == '^'
            || op.last() == ',' || op.last() == ';') ==> spec_infix_bp(op) == Some(
            (130u32, 131u32),
        ),
        non_associative(80) && non_associative(140) && non_associative(150),
        !non_associative(100) && !non_associative(130) && !non_associative(160)
            && !non_associative(170),
{
}

/// A word at `pos` is a primary: it parses as its atom and nothing else.
pub proof fn lemma_word_primary(toks: Seq<Tok>, pos: int)
    requires
        0 <= pos < toks.len(),
        is_word(toks[pos]),
    ensures
        is_primary_at(toks, pos),
        !is_punct_at(toks, pos),
        spec_read_op(toks, pos) is None,
        spec_parse_primary(toks, pos) == Ok::<(Term, int), ParseError>(
            (word_atom(toks[pos]), pos + 1),
        ),
{
}

/// A word alone, identifier or literal, parses to its atom.
pub proof fn law_single_word(x: Tok)
    requires
        is_word(x),
    ensures
        spec_parse_all(seq![x]) == Ok::<Term, ParseError>(word_atom(x)),
{
    let toks = seq![x];
    lemma_word_primary(toks, 0);
    assert(spec_read_op(toks, 1) is None);
    assert(spec_parse_loop(toks, word_atom(x), 1, 0) == Ok::<(Term, int), ParseError>(
        (word_atom(x), 1),
    ));
}

/// `x op y`: an operator between two words, identifiers or literals, is
/// infix, whatever its characters.
pub proof fn law_infix_between_words(x: Tok, op: Seq<char>, y: Tok)
    requires
        is_word(x),
        is_word(y),
        op.len() >= 1,
    ensures
        spec_parse_all(seq![x] + op_tokens(op).push(y)) == Ok::<Term, ParseError>(
            infix(word_atom(x), op, word_atom(y)),
        ),
{
    let toks = seq![x] + op_tokens(op).push(y);
    let n = op.len() as int;
    let tx = word_atom(x);
    let ty = word_atom(y);
    let r = infix(tx, op, ty);
    assert forall|k: int| 0 <= k < op.len() implies toks[1 + k] == #[trigger] op_tokens(op)[k] by {}
    lemma_read_op_tokens(toks, 1, op);
    let (lbp, rbp) = char_bp(op.last());
    assert(spec_infix_bp(op) == Some((lbp, rbp)));
    assert(toks.len() == n + 2);
    assert(toks[0] == x);
    assert(toks[n + 1] == y);
    lemma_word_primary(toks, 0);
    lemma_word_primary(toks, n + 1);
    assert(spec_read_op(toks, n + 2) is None);
    assert(spec_parse_loop(toks, ty, n + 2, rbp as int) == Ok::<(Term, int), ParseError>(
        (ty, n + 2),
    ));
    assert(spec_parse_expr(toks, n + 1, rbp as int) == Ok::<(Term, int), ParseError>(
        (ty, n + 2),
    ));
    assert(!ends_in_level(tx, lbp));
    assert(spec_parse_loop(toks, r, n + 2, 0) == Ok::<(Term, int), ParseError>((r, n + 2)));
    assert(spec_parse_loop(toks, tx, 1, 0) == Ok::<(Term, int), ParseError>((r, n + 2)));
    assert(spec_parse_expr(toks, 0, 0) == Ok::<(Term, int), ParseError>((r, n + 2)));
}

/// `p x`: an operator before a word, identifier or literal, is prefix.
pub proof fn law_prefix_word(p: Seq<char>, x: Tok)
    requires
        is_word(x),
        p.len() >= 1,
    ensures
        spec_parse_all(op_tokens(p).push(x)) == Ok::<Term, ParseError>(prefix(p, word_atom(x))),
{
    let toks = op_tokens(p).push(x);
    let n = p.len() as int;
    let tx = word_atom(x);
    assert forall|k: int| 0 <= k < p.len() implies toks[0 + k] == #[trigger] op_tokens(p)[k] by {}
    lemma_read_op_tokens(toks, 0, p);
    assert(toks.len() == n + 1);
    assert(toks[n] == x);
    lemma_word_primary(toks, n);
    assert(spec_read_op(toks, n + 1) is None);
    assert(spec_parse_loop(toks, tx, n + 1, JUXTAPOSITION_BP as int) == Ok::<
        (Term, int),
        ParseError,
    >((tx, n + 1)));
    assert(spec_parse_expr(toks, n, JUXTAPOSITION_BP as int) == Ok::<(Term, int), ParseError>(
        (tx, n + 1),
    ));
    let whole = prefix(p, tx);
    assert(spec_parse_loop(toks, whole, n + 1, 0) == Ok::<(Term, int), ParseError>((whole, n + 1)));
    assert(spec_parse_expr(toks, 0, 0) == Ok::<(Term, int), ParseError>((whole, n + 1)));
}

/// The expression written `a o1 b o2 c`, with `o1` and `o2` operators.
/// The input written `a o1 b o2 c`, with words `a`, `b`, `c` and
/// operators `o1`, `o2`.
pub open spec fn two_words_operators(a: Tok, o1: Seq<char>, b: Tok, o2: Seq<char>, c: Tok) -> Seq<Tok> {
    seq![a] + op_tokens(o1) + seq![b] + op_tokens(o2) + seq![c]
}

/// Precedence and associativity: in `a o1 b o2 c` the second operator takes
/// `b` as its left operand exactly when it binds tighter than the first;
/// otherwise it takes `a o1 b`. Two operators of one level thus associate to
/// the left, except on the non-associative levels of `;`, of `@` and `^`,
/// and of `:`, where the second one is left over and the input is refused.
pub proof fn law_binary_operators_words(
    a: Tok,
    o1: Seq<char>,
    b: Tok,
    o2: Seq<char>,
    c: Tok,
)
    requires
        is_word(a),
        is_word(b),
        is_word(c),
        o1.len() >= 1,
        o2.len() >= 1,
    ensures
        spec_parse_all(two_words_operators(a, o1, b, o2, c)) == if non_associative(char_bp(o2.last()).0)
            && char_bp(o1.last()).0 == char_bp(o2.last()).0 {
            Err::<Term, ParseError>(ParseError::TrailingToken((o1.len() + 2) as usize))
        } else if char_bp(o2.last()).0 <= char_bp(o1.last()).0 {
            Ok::<Term, ParseError>(infix(infix(word_atom(a), o1, word_atom(b)), o2, word_atom(c)))
        } else {
            Ok::<Term, ParseError>(infix(word_atom(a), o1, infix(word_atom(b), o2, word_atom(c))))
        },
{
    let toks = two_words_operators(a, o1, b, o2, c);
    let n1 = o1.len() as int;
    let n2 = o2.len() as int;
    let pb = 1 + n1;
    let po2 = 2 + n1;
    let pc = 2 + n1 + n2;
    let len = 3 + n1 + n2;
    let ta = word_atom(a);
    let tb = word_atom(b);
    let tc = word_atom(c);
    assert(toks.len() == len);
    assert(toks[0] == a);
    lemma_word_primary(toks, 0);
    assert(toks[pb] == b);
    lemma_word_primary(toks, pb);
    assert(toks[pc] == c);
    lemma_word_primary(toks, pc);
    assert forall|k: int| 0 <= k < o1.len() implies toks[1 + k] == #[trigger] op_tokens(o1)[k] by {}
    assert forall|k: int| 0 <= k < o2.len() implies toks[po2 + k] == #[trigger] op_tokens(o2)[k] by {}
    lemma_read_op_tokens(toks, 1, o1);
    lemma_read_op_tokens(toks, po2, o2);
    let (lbp1, rbp1) = char_bp(o1.last());
    let (lbp2, rbp2) = char_bp(o2.last());
    assert(spec_infix_bp(o1) == Some((lbp1, rbp1)));
    assert(spec_infix_bp(o2) == Some((lbp2, rbp2)));
    assert(is_primary_at(toks, pb));
    assert(is_primary_at(toks, pc));
    assert(!is_primary_at(toks, 1));
    assert(!is_primary_at(toks, po2));
    assert(spec_read_op(toks, 0) is None);
    assert(spec_read_op(toks, pb) is None);
    assert(spec_read_op(toks, pc) is None);
    assert(spec_read_op(toks, len) is None);
    assert(spec_parse_primary(toks, 0) == Ok::<(Term, int), ParseError>((ta, 1)));
    assert(spec_parse_primary(toks, pb) == Ok::<(Term, int), ParseError>((tb, po2)));
    assert(spec_parse_primary(toks, pc) == Ok::<(Term, int), ParseError>((tc, len)));
    assert(spec_parse_loop(toks, tc, len, rbp2 as int) == Ok::<(Term, int), ParseError>((tc, len)));
    assert(spec_parse_expr(toks, pc, rbp2 as int) == Ok::<(Term, int), ParseError>((tc, len)));
    assert(!ends_in_level(tb, lbp2));
    if (lbp2 as int) < (rbp1 as int) {
        let left = infix(ta, o1, tb);
        let whole = infix(left, o2, tc);
        assert(spec_parse_loop(toks, tb, po2, rbp1 as int) == Ok::<(Term, int), ParseError>((tb, po2)));
        assert(spec_parse_expr(toks, pb, rbp1 as int) == Ok::<(Term, int), ParseError>((tb, po2)));
        assert(ends_in_level(left, lbp2) == (lbp1 == lbp2));
        if non_associative(lbp2) && lbp1 == lbp2 {
            assert(spec_parse_loop(toks, left, po2, 0) == Ok::<(Term, int), ParseError>((left, po2)));
            assert(spec_parse_loop(toks, ta, 1, 0) == Ok::<(Term, int), ParseError>((left, po2)));
            assert(spec_parse_expr(toks, 0, 0) == Ok::<(Term, int), ParseError>((left, po2)));
        } else {
            assert(spec_parse_loop(toks, whole, len, 0) == Ok::<(Term, int), ParseError>((whole, len)));
            assert(spec_parse_loop(toks, left, po2, 0) == Ok::<(Term, int), ParseError>((whole, len)));
            assert(spec_parse_loop(toks, ta, 1, 0) == Ok::<(Term, int), ParseError>((whole, len)));
            assert(spec_parse_expr(toks, 0, 0) == Ok::<(Term, int), ParseError>((whole, len)));
        }
    } else {
        let right = infix(tb, o2, tc);
        let whole = infix(ta, o1, right);
        assert(!ends_in_level(ta, lbp1));
        assert(spec_parse_loop(toks, right, len, rbp1 as int) == Ok::<(Term, int), ParseError>((right, len)));
        assert(spec_parse_loop(toks, tb, po2, rbp1 as int) == Ok::<(Term, int), ParseError>((right, len)));
        assert(spec_parse_expr(toks, pb, rbp1 as int) == Ok::<(Term, int), ParseError>((right, len)));
        assert(spec_parse_loop(toks, whole, len, 0) == Ok::<(Term, int), ParseError>((whole, len)));
        assert(spec_parse_loop(toks, ta, 1, 0) == Ok::<(Term, int), ParseError>((whole, len)));
        assert(spec_parse_expr(toks, 0, 0) == Ok::<(Term, int), ParseError>((whole, len)));
    }
}

/// A prefix operator binds tighter than every infix operator:
/// `p x o y` is `(p x) o y`.
pub proof fn law_prefix_binds_tighter_words(p: Seq<char>, x: Tok, o: Seq<char>, y: Tok)
    requires
        is_word(x),
        is_word(y),
        p.len() >= 1,
        o.len() >= 1,
    ensures
        spec_parse_all(op_tokens(p) + seq![x] + op_tokens(o) + seq![y])
            == Ok::<Term, ParseError>(infix(prefix(p, word_atom(x)), o, word_atom(y))),
{
    let toks = op_tokens(p) + seq![x] + op_tokens(o) + seq![y];
    let n1 = p.len() as int;
    let n2 = o.len() as int;
    let px = n1;
    let po = n1 + 1;
    let py = n1 + 1 + n2;
    let len = n1 + 2 + n2;
    let tx = word_atom(x);
    let ty = word_atom(y);
    assert(toks.len() == len);
    assert(toks[px] == x);
    lemma_word_primary(toks, px);
    assert(toks[py] == y);
    lemma_word_primary(toks, py);
    assert forall|k: int| 0 <= k < p.len() implies toks[0 + k] == #[trigger] op_tokens(p)[k] by {}
    assert forall|k: int| 0 <= k < o.len() implies toks[po + k] == #[trigger] op_tokens(o)[k] by {}
    lemma_read_op_tokens(toks, 0, p);
    lemma_read_op_tokens(toks, po, o);
    let (lbp, rbp) = char_bp(o.last());
    assert(spec_infix_bp(o) == Some((lbp, rbp)));
    assert((lbp as int) < JUXTAPOSITION_BP);
    assert(is_primary_at(toks, py));
    assert(!is_primary_at(toks, po));
    assert(spec_read_op(toks, px) is None);
    assert(spec_read_op(toks, py) is None);
    assert(spec_read_op(toks, len) is None);
    assert(spec_parse_primary(toks, px) == Ok::<(Term, int), ParseError>((tx, po)));
    assert(spec_parse_primary(toks, py) == Ok::<(Term, int), ParseError>((ty, len)));
    assert(spec_parse_loop(toks, ty, len, rbp as int) == Ok::<(Term, int), ParseError>((ty, len)));
    assert(spec_parse_expr(toks, py, rbp as int) == Ok::<(Term, int), ParseError>((ty, len)));
    assert(spec_parse_loop(toks, tx, po, JUXTAPOSITION_BP as int) == Ok::<(Term, int), ParseError>((tx, po)));
    assert(spec_parse_expr(toks, px, JUXTAPOSITION_BP as int) == Ok::<(Term, int), ParseError>((tx, po)));
    let whole = infix(prefix(p, tx), o, ty);
    assert(spec_parse_loop(toks, whole, len, 0) == Ok::<(Term, int), ParseError>((whole, len)));
    assert(spec_parse_loop(toks, prefix(p, tx), po, 0) == Ok::<(Term, int), ParseError>((whole, len)));
    assert(spec_parse_expr(toks, 0, 0) == Ok::<(Term, int), ParseError>((whole, len)));
}

/// The operand of a prefix operator extends over juxtaposition:
/// `p f x` is `p (f x)`.
pub proof fn law_prefix_takes_juxtaposition_words(p: Seq<char>, f: Tok, x: Tok)
    requires
        is_word(f),
        is_word(x),
        p.len() >= 1,
    ensures
        spec_parse_all(op_tokens(p) + seq![f, x]) == Ok::<Term, ParseError>(
            prefix(p, Term::Juxtaposition(seq![word_atom(f), word_atom(x)])),
        ),
{
    let toks = op_tokens(p) + seq![f, x];
    let n = p.len() as int;
    let tf = word_atom(f);
    let tx = word_atom(x);
    let fx = Term::Juxtaposition(seq![tf, tx]);
    assert(toks.len() == n + 2);
    assert(toks[n] == f);
    lemma_word_primary(toks, n);
    assert(toks[n + 1] == x);
    lemma_word_primary(toks, n + 1);
    assert forall|k: int| 0 <= k < p.len() implies toks[0 + k] == #[trigger] op_tokens(p)[k] by {}
    lemma_read_op_tokens(toks, 0, p);
    assert(is_primary_at(toks, n + 1));
    assert(spec_read_op(toks, n) is None);
    assert(spec_read_op(toks, n + 1) is None);
    assert(spec_read_op(toks, n + 2) is None);
    assert(spec_parse_primary(toks, n) == Ok::<(Term, int), ParseError>((tf, n + 1)));
    assert(spec_parse_primary(toks, n + 1) == Ok::<(Term, int), ParseError>((tx, n + 2)));
    assert(spec_parse_loop(toks, tx, n + 2, JUXTAPOSITION_BP + 1) == Ok::<(Term, int), ParseError>((tx, n + 2)));
    assert(spec_parse_expr(toks, n + 1, JUXTAPOSITION_BP + 1) == Ok::<(Term, int), ParseError>((tx, n + 2)));
    assert(juxtaposed(tf, tx) == fx);
    assert(spec_parse_loop(toks, fx, n + 2, JUXTAPOSITION_BP as int) == Ok::<(Term, int), ParseError>((fx, n + 2)));
    assert(spec_parse_loop(toks, tf, n + 1, JUXTAPOSITION_BP as int) == Ok::<(Term, int), ParseError>((fx, n + 2)));
    assert(spec_parse_expr(toks, n, JUXTAPOSITION_BP as int) == Ok::<(Term, int), ParseError>((fx, n + 2)));
    assert(spec_parse_loop(toks, prefix(p, fx), n + 2, 0) == Ok::<(Term, int), ParseError>((prefix(p, fx), n + 2)));
    assert(spec_parse_expr(toks, 0, 0) == Ok::<(Term, int), ParseError>((prefix(p, fx), n + 2)));
}

/// A postfix operator binds before juxtaposition: `f x o` is `f (x o)`.
pub proof fn law_postfix_before_juxtaposition_words(f: Tok, x: Tok, o: Seq<char>)
    requires
        is_word(f),
        is_word(x),
        o.len() >= 1,
    ensures
        spec_parse_all(seq![f, x] + op_tokens(o)) == Ok::<Term, ParseError>(
            Term::Juxtaposition(seq![word_atom(f), postfix(word_atom(x), o)]),
        ),
{
    let toks = seq![f, x] + op_tokens(o);
    let n = o.len() as int;
    let len = n + 2;
    let tf = word_atom(f);
    let tx = word_atom(x);
    let xo = postfix(tx, o);
    let whole = Term::Juxtaposition(seq![tf, xo]);
    assert(toks.len() == len);
    assert(toks[0] == f);
    lemma_word_primary(toks, 0);
    assert(toks[1] == x);
    lemma_word_primary(toks, 1);
    assert forall|k: int| 0 <= k < o.len() implies toks[2 + k] == #[trigger] op_tokens(o)[k] by {}
    lemma_read_op_tokens(toks, 2, o);
    let (lbp, rbp) = char_bp(o.last());
    assert(spec_infix_bp(o) == Some((lbp, rbp)));
    assert(is_primary_at(toks, 1));
    assert(!is_primary_at(toks, 2));
    assert(!is_primary_at(toks, len));
    assert(spec_read_op(toks, 0) is None);
    assert(spec_read_op(toks, 1) is None);
    assert(spec_read_op(toks, len) is None);
    assert(spec_parse_primary(toks, 0) == Ok::<(Term, int), ParseError>((tf, 1)));
    assert(spec_parse_primary(toks, 1) == Ok::<(Term, int), ParseError>((tx, 2)));
    assert(spec_parse_loop(toks, xo, len, JUXTAPOSITION_BP + 1) == Ok::<(Term, int), ParseError>((xo, len)));
    assert(spec_parse_loop(toks, tx, 2, JUXTAPOSITION_BP + 1) == Ok::<(Term, int), ParseError>((xo, len)));
    assert(spec_parse_expr(toks, 1, JUXTAPOSITION_BP + 1) == Ok::<(Term, int), ParseError>((xo, len)));
    assert(juxtaposed(tf, xo) == whole);
    assert(spec_parse_loop(toks, whole, len, 0) == Ok::<(Term, int), ParseError>((whole, len)));
    assert(spec_parse_loop(toks, tf, 1, 0) == Ok::<(Term, int), ParseError>((whole, len)));
    assert(spec_parse_expr(toks, 0, 0) == Ok::<(Term, int), ParseError>((whole, len)));
}

/// A postfix operator binds before an infix one that follows it:
/// `x p o y` is `(x p) o y`, where `p` and `o` are separate operators.
pub proof fn law_postfix_then_infix_words(x: Tok, p: Seq<char>, o: Seq<char>, y: Tok)
    requires
        is_word(x),
        is_word(y),
        p.len() >= 1,
        o.len() >= 1,
    ensures
        spec_parse_all(seq![x] + op_tokens(p) + op_tokens(o) + seq![y])
            == Ok::<Term, ParseError>(infix(postfix(word_atom(x), p), o, word_atom(y))),
{
    let toks = seq![x] + op_tokens(p) + op_tokens(o) + seq![y];
    let n1 = p.len() as int;
    let n2 = o.len() as int;
    let po = 1 + n1;
    let py = 1 + n1 + n2;
    let len = 2 + n1 + n2;
    let tx = word_atom(x);
    let ty = word_atom(y);
    assert(toks.len() == len);
    assert(toks[0] == x);
    lemma_word_primary(toks, 0);
    assert(toks[py] == y);
    lemma_word_primary(toks, py);
    assert forall|k: int| 0 <= k < p.len() implies toks[1 + k] == #[trigger] op_tokens(p)[k] by {}
    assert forall|k: int| 0 <= k < o.len() implies toks[po + k] == #[trigger] op_tokens(o)[k] by {}
    lemma_read_op_tokens(toks, 1, p);
    lemma_read_op_tokens(toks, po, o);
    let (lbp1, rbp1) = char_bp(p.last());
    let (lbp2, rbp2) = char_bp(o.last());
    assert(spec_infix_bp(p) == Some((lbp1, rbp1)));
    assert(spec_infix_bp(o) == Some((lbp2, rbp2)));
    assert(!is_primary_at(toks, 1));
    assert(!is_primary_at(toks, po));
    assert(is_primary_at(toks, py));
    assert(spec_read_op(toks, 0) is None);
    assert(spec_read_op(toks, py) is None);
    assert(spec_read_op(toks, len) is None);
    assert(spec_parse_primary(toks, 0) == Ok::<(Term, int), ParseError>((tx, 1)));
    assert(spec_parse_primary(toks, py) == Ok::<(Term, int), ParseError>((ty, len)));
    assert(spec_parse_loop(toks, ty, len, rbp2 as int) == Ok::<(Term, int), ParseError>((ty, len)));
    assert(spec_parse_expr(toks, py, rbp2 as int) == Ok::<(Term, int), ParseError>((ty, len)));
    let xp = postfix(tx, p);
    let whole = infix(xp, o, ty);
    assert(spec_parse_loop(toks, whole, len, 0) == Ok::<(Term, int), ParseError>((whole, len)));
    assert(spec_parse_loop(toks, xp, po, 0) == Ok::<(Term, int), ParseError>((whole, len)));
    assert(spec_parse_loop(toks, tx, 1, 0) == Ok::<(Term, int), ParseError>((whole, len)));
    assert(spec_parse_expr(toks, 0, 0) == Ok::<(Term, int), ParseError>((whole, len)));
}


/// The loop over a run of words at `0..n`, followed by the end of the input
/// or another primary, gathers them into one flat juxtaposition.
proof fn lemma_words_loop(toks: Seq<Tok>, n: int, k: int)
    requires
        2 <= k <= n <= toks.len(),
        forall|i: int| 0 <= i < n ==> #[trigger] is_word(toks[i]),
        n == toks.len() || is_primary_at(toks, n),
    ensures
        spec_parse_loop(toks, Term::Juxtaposition(word_atoms(toks.take(n)).take(k)), k, 0)
            == spec_parse_loop(toks, Term::Juxtaposition(word_atoms(toks.take(n))), n, 0),
    decreases n - k,
{
    let xs = word_atoms(toks.take(n));
    if k < n {
        assert(is_word(toks[k]));
        lemma_word_primary(toks, k);
        if k + 1 < n {
            assert(is_word(toks[k + 1]));
            lemma_word_primary(toks, k + 1);
        }
        lemma_parse_single(toks, k, JUXTAPOSITION_BP + 1, word_atom(toks[k]));
        assert(xs[k] == word_atom(toks[k]));
        assert(xs.take(k).push(xs[k]) =~= xs.take(k + 1));
        assert(juxtaposed(Term::Juxtaposition(xs.take(k)), xs[k]) == Term::Juxtaposition(
            xs.take(k + 1),
        ));
        lemma_words_loop(toks, n, k + 1);
    } else {
        assert(xs.take(k) =~= xs);
    }
}

/// The parse of a run of at least two words at the start of the input
/// begins with the juxtaposition of the first two.
proof fn lemma_words_start(toks: Seq<Tok>, n: int)
    requires
        2 <= n <= toks.len(),
        forall|i: int| 0 <= i < n ==> #[trigger] is_word(toks[i]),
        n == toks.len() || is_primary_at(toks, n),
    ensures
        spec_parse_expr(toks, 0, 0) == spec_parse_loop(
            toks,
            Term::Juxtaposition(word_atoms(toks.take(n)).take(2)),
            2,
            0,
        ),
{
    let xs = word_atoms(toks.take(n));
    assert(is_word(toks[0]));
    assert(is_word(toks[1]));
    lemma_word_primary(toks, 0);
    lemma_word_primary(toks, 1);
    if 2 < n {
        assert(is_word(toks[2]));
        lemma_word_primary(toks, 2);
    }
    lemma_parse_single(toks, 1, JUXTAPOSITION_BP + 1, word_atom(toks[1]));
    assert(xs.take(2) =~= seq![word_atom(toks[0]), word_atom(toks[1])]);
    assert(spec_parse_loop(toks, word_atom(toks[0]), 1, 0) == spec_parse_loop(
        toks,
        Term::Juxtaposition(xs.take(2)),
        2,
        0,
    ));
}

/// A run of two words or more, identifiers or literals, is one flat
/// juxtaposition of their atoms, in order.
pub proof fn law_juxtaposition_of_words(ws: Seq<Tok>)
    requires
        ws.len() >= 2,
        forall|i: int| 0 <= i < ws.len() ==> #[trigger] is_word(ws[i]),
    ensures
        spec_parse_all(ws) == Ok::<Term, ParseError>(Term::Juxtaposition(word_atoms(ws))),
{
    let n = ws.len() as int;
    assert(ws.take(n) =~= ws);
    lemma_words_start(ws, n);
    lemma_words_loop(ws, n, 2);
    assert(spec_read_op(ws, n) is None);
}

/// A postfix operator after a run of words binds to the last word only, and
/// the juxtaposition of the words before it stays whole, one operand of a
/// new juxtaposition: `w1 .. wn x o` is `(w1 .. wn) (x o)` for every run of
/// `n >= 2` words.
pub proof fn law_postfix_after_juxtaposition(ws: Seq<Tok>, x: Tok, o: Seq<char>)
    requires
        ws.len() >= 2,
        forall|i: int| 0 <= i < ws.len() ==> #[trigger] is_word(ws[i]),
        is_word(x),
        o.len() >= 1,
    ensures
        spec_parse_all(ws.push(x) + op_tokens(o)) == Ok::<Term, ParseError>(
            Term::Juxtaposition(
                seq![Term::Juxtaposition(word_atoms(ws)), postfix(word_atom(x), o)],
            ),
        ),
{
    let toks = ws.push(x) + op_tokens(o);
    let n = ws.len() as int;
    let len = n + 1 + o.len();
    assert(toks.len() == len);
    assert forall|i: int| 0 <= i < n implies #[trigger] is_word(toks[i]) by {
        assert(toks[i] == ws[i]);
    }
    assert(toks[n] == x);
    assert(toks.take(n) =~= ws);
    lemma_word_primary(toks, n);
    lemma_words_start(toks, n);
    lemma_words_loop(toks, n, 2);
    assert forall|k: int| 0 <= k < o.len() implies toks[n + 1 + k] == #[trigger] op_tokens(o)[k] by {}
    lemma_read_op_tokens(toks, n + 1, o);
    let (lbp, rbp) = char_bp(o.last());
    assert(spec_infix_bp(o) == Some((lbp, rbp)));
    assert(!is_primary_at(toks, n + 1));
    assert(!is_primary_at(toks, len));
    assert(spec_read_op(toks, len) is None);
    let tx = word_atom(x);
    let xo = postfix(tx, o);
    assert(!ends_in_level(tx, lbp));
    assert(spec_parse_loop(toks, xo, len, JUXTAPOSITION_BP + 1) == Ok::<(Term, int), ParseError>(
        (xo, len),
    ));
    assert(spec_parse_loop(toks, tx, n + 1, JUXTAPOSITION_BP + 1) == Ok::<(Term, int), ParseError>(
        (xo, len),
    ));
    assert(spec_parse_expr(toks, n, JUXTAPOSITION_BP + 1) == Ok::<(Term, int), ParseError>(
        (xo, len),
    ));
    let run = Term::Juxtaposition(word_atoms(ws));
    let whole = Term::Juxtaposition(seq![run, xo]);
    assert(juxtaposed(run, xo) == whole);
    assert(spec_parse_loop(toks, whole, len, 0) == Ok::<(Term, int), ParseError>((whole, len)));
    assert(spec_parse_loop(toks, run, n, 0) == Ok::<(Term, int), ParseError>((whole, len)));
}

/// Where no expression starts, the parse fails with `ExpectedPrimary`: on an
/// empty input, and on an operator with nothing after it.
pub proof fn law_nothing_to_parse(p: Seq<char>)
    requires
        p.len() >= 1,
    ensures
        spec_parse_all(Seq::<Tok>::empty()) == Err::<Term, ParseError>(ParseError::ExpectedPrimary),
        spec_parse_all(op_tokens(p)) == Err::<Term, ParseError>(ParseError::ExpectedPrimary),
{
    let none = Seq::<Tok>::empty();
    assert(spec_read_op(none, 0) is None);
    assert(spec_parse_primary(none, 0) is Err);
    assert(spec_parse_expr(none, 0, 0) is Err);
    let toks = op_tokens(p);
    let n = p.len() as int;
    assert forall|k: int| 0 <= k < p.len() implies toks[0 + k] == #[trigger] op_tokens(p)[k] by {}
    lemma_read_op_tokens(toks, 0, p);
    assert(spec_read_op(toks, n) is None);
    assert(spec_parse_primary(toks, n) is Err);
    assert(spec_parse_expr(toks, n, JUXTAPOSITION_BP as int) is Err);
    assert(spec_parse_primary(toks, 0) is Err);
}

/// A group in brackets or braces is never an operand: after a word it is
/// left over, at index 1.
pub proof fn law_bracket_group_left_over(x: Tok, d: Delimiter, inner: Seq<Tok>)
    requires
        is_word(x),
        d != Delimiter::Parenthesis,
    ensures
        spec_parse_all(seq![x, Tok::Group(d, inner)]) == Err::<Term, ParseError>(
            ParseError::TrailingToken(1),
        ),
{
    let toks = seq![x, Tok::Group(d, inner)];
    lemma_word_primary(toks, 0);
    assert(!is_primary_at(toks, 1));
    assert(spec_read_op(toks, 1) is None);
    assert(spec_parse_loop(toks, word_atom(x), 1, 0) == Ok::<(Term, int), ParseError>(
        (word_atom(x), 1),
    ));
}

/// Separate postfix operators stack from the inside out: `x p o` is
/// `(x p) o`.
pub proof fn law_postfix_chain_words(x: Tok, p: Seq<char>, o: Seq<char>)
    requires
        is_word(x),
        p.len() >= 1,
        o.len() >= 1,
    ensures
        spec_parse_all(seq![x] + op_tokens(p) + op_tokens(o)) == Ok::<Term, ParseError>(
            postfix(postfix(word_atom(x), p), o),
        ),
{
    let toks = seq![x] + op_tokens(p) + op_tokens(o);
    let n1 = p.len() as int;
    let n2 = o.len() as int;
    let po = 1 + n1;
    let len = 1 + n1 + n2;
    assert(toks.len() == len);
    assert(toks[0] == x);
    lemma_word_primary(toks, 0);
    assert forall|k: int| 0 <= k < p.len() implies toks[1 + k] == #[trigger] op_tokens(p)[k] by {}
    assert forall|k: int| 0 <= k < o.len() implies toks[po + k] == #[trigger] op_tokens(o)[k] by {}
    lemma_read_op_tokens(toks, 1, p);
    lemma_read_op_tokens(toks, po, o);
    let (lbp1, rbp1) = char_bp(p.last());
    let (lbp2, rbp2) = char_bp(o.last());
    assert(spec_infix_bp(p) == Some((lbp1, rbp1)));
    assert(spec_infix_bp(o) == Some((lbp2, rbp2)));
    assert(!is_primary_at(toks, 1));
    assert(!is_primary_at(toks, po));
    assert(!is_primary_at(toks, len));
    assert(spec_read_op(toks, len) is None);
    let tx = word_atom(x);
    let xp = postfix(tx, p);
    let xpo = postfix(xp, o);
    assert(!ends_in_level(tx, lbp1));
    assert(!ends_in_level(xp, lbp2));
    assert(spec_parse_loop(toks, xpo, len, 0) == Ok::<(Term, int), ParseError>((xpo, len)));
    assert(spec_parse_loop(toks, xp, po, 0) == Ok::<(Term, int), ParseError>((xpo, len)));
    assert(spec_parse_loop(toks, tx, 1, 0) == Ok::<(Term, int), ParseError>((xpo, len)));
}

} // verus!
