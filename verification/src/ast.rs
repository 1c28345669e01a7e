use vstd::prelude::*;

verus! {

/// Mathematical model of an expression tree, shared by [`ParsedExpr`]
/// (which may hold `Grouped` nodes) and [`Expr`] (which never does).
pub enum Term {
    Atom(Seq<char>),
    Juxtaposition(Seq<Term>),
    Grouped(Box<Term>),
    Prefix { op: Seq<char>, expr: Box<Term> },
    Postfix { expr: Box<Term>, op: Seq<char> },
    Infix { left: Box<Term>, op: Seq<char>, right: Box<Term> },
}

/// An expression as the parser produces it, with explicit parentheses.
#[derive(Debug, PartialEq)]
pub enum ParsedExpr {
    Atom(String),
    Juxtaposition(Vec<ParsedExpr>),
    Grouped(Box<ParsedExpr>),
    Prefix { op: String, expr: Box<ParsedExpr> },
    Postfix { expr: Box<ParsedExpr>, op: String },
    Infix { left: Box<ParsedExpr>, op: String, right: Box<ParsedExpr> },
}

/// The expression value that the generated constants evaluate to:
/// parentheses leave no node in it.
#[derive(Debug, PartialEq)]
pub enum Expr {
    Atom(String),
    Juxtaposition(Vec<Expr>),
    Prefix { op: String, expr: Box<Expr> },
    Postfix { expr: Box<Expr>, op: String },
    Infix { left: Box<Expr>, op: String, right: Box<Expr> },
}

impl View for ParsedExpr {
    type V = Term;

    open spec fn view(&self) -> Term {
        parsed_model(*self)
    }
}

pub open spec fn parsed_model(e: ParsedExpr) -> Term
    decreases e,
{
    match e {
        ParsedExpr::Atom(s) => Term::Atom(s@),
        ParsedExpr::Juxtaposition(v) => Term::Juxtaposition(parsed_seq_view(v@)),
        ParsedExpr::Grouped(inner) => Term::Grouped(Box::new(parsed_model(*inner))),
        ParsedExpr::Prefix { op, expr } => Term::Prefix { op: op@, expr: Box::new(parsed_model(*expr)) },
        ParsedExpr::Postfix { expr, op } => Term::Postfix { expr: Box::new(parsed_model(*expr)), op: op@ },
        ParsedExpr::Infix { left, op, right } => Term::Infix {
            left: Box::new(parsed_model(*left)),
            op: op@,
            right: Box::new(parsed_model(*right)),
        },
    }
}

/// The models of a sequence of parsed expressions.
pub open spec fn parsed_seq_view(s: Seq<ParsedExpr>) -> Seq<Term>
    decreases s,
{
    if s.len() == 0 {
        Seq::empty()
    } else {
        parsed_seq_view(s.drop_last()).push(parsed_model(s.last()))
    }
}

pub proof fn lemma_parsed_seq_view(s: Seq<ParsedExpr>)
    ensures
        parsed_seq_view(s).len() == s.len(),
        forall|i: int| 0 <= i < s.len() ==> #[trigger] parsed_seq_view(s)[i] == s[i]@,
    decreases s.len(),
{
    if s.len() > 0 {
        lemma_parsed_seq_view(s.drop_last());
    }
}

impl View for Expr {
    type V = Term;

    open spec fn view(&self) -> Term {
        expr_model(*self)
    }
}

pub open spec fn expr_model(e: Expr) -> Term
    decreases e,
{
    match e {
        Expr::Atom(s) => Term::Atom(s@),
        Expr::Juxtaposition(v) => Term::Juxtaposition(expr_seq_view(v@)),
        Expr::Prefix { op, expr } => Term::Prefix { op: op@, expr: Box::new(expr_model(*expr)) },
        Expr::Postfix { expr, op } => Term::Postfix { expr: Box::new(expr_model(*expr)), op: op@ },
        Expr::Infix { left, op, right } => Term::Infix {
            left: Box::new(expr_model(*left)),
            op: op@,
            right: Box::new(expr_model(*right)),
        },
    }
}

/// The models of a sequence of expressions.
pub open spec fn expr_seq_view(s: Seq<Expr>) -> Seq<Term>
    decreases s,
{
    if s.len() == 0 {
        Seq::empty()
    } else {
        expr_seq_view(s.drop_last()).push(expr_model(s.last()))
    }
}

pub proof fn lemma_expr_seq_view(s: Seq<Expr>)
    ensures
        expr_seq_view(s).len() == s.len(),
        forall|i: int| 0 <= i < s.len() ==> #[trigger] expr_seq_view(s)[i] == s[i]@,
    decreases s.len(),
{
    if s.len() > 0 {
        lemma_expr_seq_view(s.drop_last());
    }
}

/// The tree with every `Grouped` node replaced by its content: what
/// parentheses leave behind once parsing is done.
pub open spec fn lower(t: Term) -> Term
    decreases t,
{
    match t {
        Term::Atom(s) => Term::Atom(s),
        Term::Juxtaposition(v) => Term::Juxtaposition(lower_seq(v)),
        Term::Grouped(inner) => lower(*inner),
        Term::Prefix { op, expr } => Term::Prefix { op, expr: Box::new(lower(*expr)) },
        Term::Postfix { expr, op } => Term::Postfix { expr: Box::new(lower(*expr)), op },
        Term::Infix { left, op, right } => Term::Infix {
            left: Box::new(lower(*left)),
            op,
            right: Box::new(lower(*right)),
        },
    }
}

pub open spec fn lower_seq(s: Seq<Term>) -> Seq<Term>
    decreases s,
{
    if s.len() == 0 {
        Seq::empty()
    } else {
        lower_seq(s.drop_last()).push(lower(s.last()))
    }
}

/// No `Grouped` node occurs anywhere in the tree.
pub open spec fn group_free(t: Term) -> bool
    decreases t,
{
    match t {
        Term::Atom(_) => true,
        Term::Juxtaposition(v) => group_free_seq(v),
        Term::Grouped(_) => false,
        Term::Prefix { op, expr } => group_free(*expr),
        Term::Postfix { expr, op } => group_free(*expr),
        Term::Infix { left, op, right } => group_free(*left) && group_free(*right),
    }
}

pub open spec fn group_free_seq(s: Seq<Term>) -> bool
    decreases s,
{
    if s.len() == 0 {
        true
    } else {
        group_free_seq(s.drop_last()) && group_free(s.last())
    }
}


pub proof fn lemma_lower_seq(s: Seq<Term>)
    ensures
        lower_seq(s).len() == s.len(),
        forall|i: int| 0 <= i < s.len() ==> #[trigger] lower_seq(s)[i] == lower(s[i]),
    decreases s.len(),
{
    if s.len() > 0 {
        lemma_lower_seq(s.drop_last());
    }
}

/// The number of nodes left once parentheses are gone.
pub open spec fn lowered_size(t: Term) -> nat
    decreases t,
{
    match t {
        Term::Atom(_) => 1,
        Term::Juxtaposition(v) => 1 + lowered_size_seq(v),
        Term::Grouped(inner) => lowered_size(*inner),
        Term::Prefix { op, expr } => 1 + lowered_size(*expr),
        Term::Postfix { expr, op } => 1 + lowered_size(*expr),
        Term::Infix { left, op, right } => 1 + lowered_size(*left) + lowered_size(*right),
    }
}

pub open spec fn lowered_size_seq(s: Seq<Term>) -> nat
    decreases s,
{
    if s.len() == 0 {
        0
    } else {
        lowered_size_seq(s.drop_last()) + lowered_size(s.last())
    }
}

pub proof fn lemma_lowered_size_positive(t: Term)
    ensures
        lowered_size(t) >= 1,
    decreases t,
{
    if let Term::Grouped(inner) = t {
        lemma_lowered_size_positive(*inner);
    }
}

/// The size of a prefix of the sequence grows element by element and
/// never exceeds the size of the whole.
pub proof fn lemma_lowered_size_take(s: Seq<Term>, k: int)
    requires
        0 <= k < s.len(),
    ensures
        lowered_size_seq(s.take(k + 1)) == lowered_size_seq(s.take(k)) + lowered_size(s[k]),
        lowered_size_seq(s.take(k + 1)) <= lowered_size_seq(s),
    decreases s.len(),
{
    assert(s.take(k + 1).drop_last() =~= s.take(k));
    if k + 1 < s.len() {
        assert(s.drop_last().take(k + 1) =~= s.take(k + 1));
        assert(s.drop_last().take(k) =~= s.take(k));
        lemma_lowered_size_take(s.drop_last(), k);
    } else {
        assert(s.take(k + 1) =~= s);
    }
}


} // verus!
