use vstd::prelude::*;

use crate::ast::{
    expr_seq_view, lemma_expr_seq_view, lemma_lower_seq, lemma_lowered_size_positive,
    lemma_lowered_size_take, lemma_parsed_seq_view, lower, lower_seq, lowered_size,
    lowered_size_seq, parsed_seq_view, Expr, ParsedExpr, Term,
};

verus! {

/// The right-hand side of one generated constant. The constant at index
/// `i` is named `__N{i}`; children are referred to by their index.
#[derive(Debug, PartialEq, Eq)]
pub enum Definition {
    Atom(String),
    Juxtaposition(Vec<u32>),
    Prefix { op: String, expr: u32 },
    Postfix { expr: u32, op: String },
    Infix { left: u32, op: String, right: u32 },
}

/// Mathematical model of a [`Definition`].
pub enum Def {
    Atom(Seq<char>),
    Juxtaposition(Seq<u32>),
    Prefix { op: Seq<char>, expr: u32 },
    Postfix { expr: u32, op: Seq<char> },
    Infix { left: u32, op: Seq<char>, right: u32 },
}

impl View for Definition {
    type V = Def;

    open spec fn view(&self) -> Def {
        match self {
            Definition::Atom(s) => Def::Atom(s@),
            Definition::Juxtaposition(ids) => Def::Juxtaposition(ids@),
            Definition::Prefix { op, expr } => Def::Prefix { op: op@, expr: *expr },
            Definition::Postfix { expr, op } => Def::Postfix { expr: *expr, op: op@ },
            Definition::Infix { left, op, right } => Def::Infix { left: *left, op: op@, right: *right },
        }
    }
}

pub open spec fn defs_view(v: Seq<Definition>) -> Seq<Def> {
    Seq::new(v.len(), |i: int| v[i]@)
}

/// Every constant that the definition refers to comes before index `i`.
pub open spec fn refs_below(d: Def, i: int) -> bool {
    match d {
        Def::Atom(_) => true,
        Def::Juxtaposition(ids) => forall|k: int| 0 <= k < ids.len() ==> #[trigger] ids[k] < i,
        Def::Prefix { op, expr } => expr < i,
        Def::Postfix { expr, op } => expr < i,
        Def::Infix { left, op, right } => left < i && right < i,
    }
}

/// Each definition refers only to constants defined before it.
pub open spec fn defs_wf(defs: Seq<Def>) -> bool {
    forall|i: int| 0 <= i < defs.len() ==> refs_below(#[trigger] defs[i], i)
}

/// The value of the constant at index `i`.
pub open spec fn denote(defs: Seq<Def>, i: int) -> Term
    decreases i, 1nat, 0nat,
{
    if 0 <= i < defs.len() {
        match defs[i] {
            Def::Atom(s) => Term::Atom(s),
            Def::Juxtaposition(ids) => Term::Juxtaposition(denote_ids(defs, ids, i)),
            Def::Prefix { op, expr } => if expr < i {
                Term::Prefix { op, expr: Box::new(denote(defs, expr as int)) }
            } else {
                Term::Atom(Seq::empty())
            },
            Def::Postfix { expr, op } => if expr < i {
                Term::Postfix { expr: Box::new(denote(defs, expr as int)), op }
            } else {
                Term::Atom(Seq::empty())
            },
            Def::Infix { left, op, right } => if left < i && right < i {
                Term::Infix {
                    left: Box::new(denote(defs, left as int)),
                    op,
                    right: Box::new(denote(defs, right as int)),
                }
            } else {
                Term::Atom(Seq::empty())
            },
        }
    } else {
        Term::Atom(Seq::empty())
    }
}

/// The values of the constants `ids`, each of which comes before `i`.
pub open spec fn denote_ids(defs: Seq<Def>, ids: Seq<u32>, i: int) -> Seq<Term>
    decreases i, 0nat, ids.len(),
{
    if ids.len() == 0 {
        Seq::empty()
    } else {
        let v = if ids.last() < i {
            denote(defs, ids.last() as int)
        } else {
            Term::Atom(Seq::empty())
        };
        denote_ids(defs, ids.drop_last(), i).push(v)
    }
}

pub proof fn lemma_denote_ids(defs: Seq<Def>, ids: Seq<u32>, i: int)
    requires
        forall|k: int| 0 <= k < ids.len() ==> #[trigger] ids[k] < i,
    ensures
        denote_ids(defs, ids, i).len() == ids.len(),
        forall|k: int|
            0 <= k < ids.len() ==> #[trigger] denote_ids(defs, ids, i)[k] == denote(
                defs,
                ids[k] as int,
            ),
    decreases ids.len(),
{
    if ids.len() > 0 {
        lemma_denote_ids(defs, ids.drop_last(), i);
    }
}

/// Appending definitions leaves the value of the earlier ones as it was.
pub proof fn lemma_denote_prefix(defs1: Seq<Def>, defs2: Seq<Def>, i: int)
    requires
        defs1.len() <= defs2.len(),
        forall|j: int| 0 <= j < defs1.len() ==> #[trigger] defs2[j] == defs1[j],
        0 <= i < defs1.len(),
        defs_wf(defs1),
    ensures
        denote(defs2, i) == denote(defs1, i),
    decreases i,
{
    assert(refs_below(defs1[i], i));
    match defs1[i] {
        Def::Juxtaposition(ids) => {
            lemma_denote_ids(defs1, ids, i);
            lemma_denote_ids(defs2, ids, i);
            assert forall|k: int| 0 <= k < ids.len() implies denote_ids(defs1, ids, i)[k]
                == denote_ids(defs2, ids, i)[k] by {
                lemma_denote_prefix(defs1, defs2, ids[k] as int);
            }
            assert(denote_ids(defs1, ids, i) =~= denote_ids(defs2, ids, i));
        },
        Def::Prefix { op, expr } => {
            lemma_denote_prefix(defs1, defs2, expr as int);
        },
        Def::Postfix { expr, op } => {
            lemma_denote_prefix(defs1, defs2, expr as int);
        },
        Def::Infix { left, op, right } => {
            lemma_denote_prefix(defs1, defs2, left as int);
            lemma_denote_prefix(defs1, defs2, right as int);
        },
        _ => {},
    }
}


/// The constants that an expression emits when the first of them gets index
/// `base`: children before their parent, left to right, and nothing of its
/// own for a parenthesized expression.
pub open spec fn emission(t: Term, base: nat) -> Seq<Def>
    decreases t, 1nat,
{
    match t {
        Term::Atom(s) => seq![Def::Atom(s)],
        Term::Grouped(inner) => emission(*inner, base),
        Term::Prefix { op, expr } => {
            let d = emission(*expr, base);
            d.push(Def::Prefix { op, expr: (base + d.len() - 1) as u32 })
        },
        Term::Postfix { expr, op } => {
            let d = emission(*expr, base);
            d.push(Def::Postfix { expr: (base + d.len() - 1) as u32, op })
        },
        Term::Infix { left, op, right } => {
            let dl = emission(*left, base);
            let dr = emission(*right, base + dl.len());
            (dl + dr).push(
                Def::Infix {
                    left: (base + dl.len() - 1) as u32,
                    op,
                    right: (base + dl.len() + dr.len() - 1) as u32,
                },
            )
        },
        Term::Juxtaposition(v) => {
            let (d, ids) = emission_seq(v, base);
            d.push(Def::Juxtaposition(ids))
        },
    }
}

/// The constants that a sequence of operands emits, one after the other,
/// with the index of the constant that holds each operand.
pub open spec fn emission_seq(s: Seq<Term>, base: nat) -> (Seq<Def>, Seq<u32>)
    decreases s, 0nat,
{
    if s.len() == 0 {
        (Seq::empty(), Seq::empty())
    } else {
        let (d, ids) = emission_seq(s.drop_last(), base);
        let e = emission(s.last(), base + d.len());
        (d + e, ids.push((base + d.len() + e.len() - 1) as u32))
    }
}

/// Emits one constant per node of an expression, children first.
pub struct CodeGen {
    counter: u32,
    defs: Vec<Definition>,
}

impl CodeGen {
    /// The index that the next constant gets.
    pub closed spec fn next_index(self) -> nat {
        self.counter as nat
    }

    /// The constants emitted so far.
    pub closed spec fn definitions(self) -> Seq<Def> {
        defs_view(self.defs@)
    }

    pub open spec fn wf(self) -> bool {
        &&& self.definitions().len() == self.next_index()
        &&& defs_wf(self.definitions())
    }

    pub fn new() -> (cg: Self)
        ensures
            cg.wf(),
            cg.next_index() == 0,
            cg.definitions() == Seq::<Def>::empty(),
    {
        let cg = Self { counter: 0, defs: Vec::new() };
        assert(cg.definitions() =~= Seq::<Def>::empty());
        cg
    }

    /// The index for the next constant; the counter moves on.
    pub fn next_ident(&mut self) -> (id: u32)
        requires
            old(self).next_index() < u32::MAX,
        ensures
            id == old(self).next_index(),
            final(self).next_index() == old(self).next_index() + 1,
            final(self).definitions() == old(self).definitions(),
    {
        let id = self.counter;
        self.counter += 1;
        id
    }

    proof fn lemma_push(old_defs: Seq<Definition>, new_defs: Seq<Definition>, d: Definition)
        requires
            new_defs == old_defs.push(d),
            defs_wf(defs_view(old_defs)),
            refs_below(d@, old_defs.len() as int),
        ensures
            defs_wf(defs_view(new_defs)),
            defs_view(new_defs) == defs_view(old_defs).push(d@),
            forall|j: int|
                0 <= j < old_defs.len() ==> denote(defs_view(new_defs), j) == denote(
                    defs_view(old_defs),
                    j,
                ),
    {
        assert(defs_view(new_defs) =~= defs_view(old_defs).push(d@));
        assert forall|j: int| 0 <= j < old_defs.len() implies denote(defs_view(new_defs), j)
            == denote(defs_view(old_defs), j) by {
            lemma_denote_prefix(defs_view(old_defs), defs_view(new_defs), j);
        }
    }

    /// Emits the constants for `expr` after those emitted so far, children
    /// before their parent, and returns the index of the one that holds its
    /// value. Parentheses emit nothing of their own.
    pub fn emit(&mut self, expr: &ParsedExpr) -> (id: u32)
        requires
            old(self).wf(),
            old(self).next_index() + lowered_size(expr@) <= u32::MAX,
        ensures
            final(self).wf(),
            final(self).definitions() == old(self).definitions() + emission(
                expr@,
                old(self).next_index(),
            ),
            final(self).next_index() == old(self).next_index() + lowered_size(expr@),
            id as int == final(self).next_index() - 1,
            denote(final(self).definitions(), id as int) == lower(expr@),
        decreases expr,
    {
        let ghost defs0 = self.definitions();
        let ghost base = self.next_index();
        proof {
            lemma_lowered_size_positive(expr@);
        }
        match expr {
            ParsedExpr::Atom(s) => {
                let name = self.next_ident();
                let ghost before = self.defs@;
                let d = Definition::Atom(s.clone());
                self.defs.push(d);
                proof {
                    Self::lemma_push(before, self.defs@, d);
                    assert(self.definitions() =~= defs0 + emission(expr@, base));
                }
                name
            },
            ParsedExpr::Juxtaposition(children) => {
                let ghost cv = parsed_seq_view(children@);
                proof {
                    lemma_parsed_seq_view(children@);
                    lemma_lower_seq(cv);
                }
                let mut child_names: Vec<u32> = Vec::new();
                let mut k: usize = 0;
                assert(cv.take(0) =~= Seq::<Term>::empty());
                assert(defs0 + emission_seq(cv.take(0), base).0 =~= defs0);
                while k < children.len()
                    invariant
                        self.wf(),
                        *expr == ParsedExpr::Juxtaposition(*children),
                        cv == parsed_seq_view(children@),
                        cv.len() == children.len(),
                        forall|j: int| 0 <= j < children.len() ==> #[trigger] cv[j] == children@[j]@,
                        k <= children.len(),
                        base == defs0.len(),
                        self.next_index() == base + lowered_size_seq(cv.take(k as int)),
                        base + lowered_size_seq(cv) + 1 <= u32::MAX,
                        self.definitions() == defs0 + emission_seq(cv.take(k as int), base).0,
                        child_names@ == emission_seq(cv.take(k as int), base).1,
                        child_names@.len() == k,
                        forall|j: int|
                            0 <= j < k ==> #[trigger] child_names@[j] < self.next_index() && denote(
                                self.definitions(),
                                child_names@[j] as int,
                            ) == lower(cv[j]),
                    decreases children.len() - k,
                {
                    let ghost defs1 = self.definitions();
                    let ghost prev = emission_seq(cv.take(k as int), base);
                    proof {
                        lemma_lowered_size_take(cv, k as int);
                    }
                    assert(decreases_to!(*children => children[k as int]));
                    assert(decreases_to!(*expr => (*expr)->Juxtaposition_0));
                    assert(decreases_to!(*expr => children@[k as int]));
                    let id = self.emit(&children[k]);
                    proof {
                        let defs2 = self.definitions();
                        assert forall|j: int| 0 <= j < defs1.len() implies #[trigger] defs2[j]
                            == defs1[j] by {}
                        assert forall|j: int| 0 <= j < k implies denote(
                            defs2,
                            child_names@[j] as int,
                        ) == lower(cv[j]) by {
                            lemma_denote_prefix(defs1, defs2, child_names@[j] as int);
                        }
                        assert(cv.take(k + 1).drop_last() =~= cv.take(k as int));
                        assert(cv.take(k + 1).last() == cv[k as int]);
                        assert(defs2 =~= defs0 + emission_seq(cv.take(k + 1), base).0);
                    }
                    child_names.push(id);
                    k += 1;
                }
                assert(cv.take(k as int) =~= cv);
                let name = self.next_ident();
                let ghost before = self.defs@;
                let ghost ids = child_names@;
                let d = Definition::Juxtaposition(child_names);
                self.defs.push(d);
                proof {
                    Self::lemma_push(before, self.defs@, d);
                    let defs2 = self.definitions();
                    assert(defs2 =~= defs0 + emission(expr@, base));
                    lemma_denote_ids(defs2, ids, name as int);
                    assert(denote_ids(defs2, ids, name as int) =~= lower_seq(cv));
                }
                name
            },
            ParsedExpr::Grouped(inner) => self.emit(inner),
            ParsedExpr::Prefix { op, expr: e } => {
                let child = self.emit(e);
                let name = self.next_ident();
                let ghost before = self.defs@;
                let d = Definition::Prefix { op: op.clone(), expr: child };
                self.defs.push(d);
                proof {
                    Self::lemma_push(before, self.defs@, d);
                    assert(self.definitions() =~= defs0 + emission(expr@, base));
                }
                name
            },
            ParsedExpr::Postfix { expr: e, op } => {
                let child = self.emit(e);
                let name = self.next_ident();
                let ghost before = self.defs@;
                let d = Definition::Postfix { expr: child, op: op.clone() };
                self.defs.push(d);
                proof {
                    Self::lemma_push(before, self.defs@, d);
                    assert(self.definitions() =~= defs0 + emission(expr@, base));
                }
                name
            },
            ParsedExpr::Infix { left, op, right } => {
                let left_name = self.emit(left);
                let ghost defs1 = self.definitions();
                let right_name = self.emit(right);
                proof {
                    let defs2 = self.definitions();
                    assert forall|j: int| 0 <= j < defs1.len() implies #[trigger] defs2[j]
                        == defs1[j] by {}
                    lemma_denote_prefix(defs1, defs2, left_name as int);
                }
                let name = self.next_ident();
                let ghost before = self.defs@;
                let d = Definition::Infix { left: left_name, op: op.clone(), right: right_name };
                self.defs.push(d);
                proof {
                    Self::lemma_push(before, self.defs@, d);
                    assert(self.definitions() =~= defs0 + emission(expr@, base));
                }
                name
            },
        }
    }

    /// The emitted constants, with `root` as the value of the whole.
    pub fn finalize(self, root: u32) -> (g: Generated)
        ensures
            g.definitions() == self.definitions(),
            g.root == root,
    {
        Generated { defs: self.defs, root }
    }
}

impl ParsedExpr {
    /// The number of constants that the expression expands to, one per
    /// node with parenthesized expressions not counted; `None` where that is
    /// more than `u32::MAX`, the most that `u32` indices can name.
    pub fn constant_count(&self) -> (n: Option<u32>)
        ensures
            match n {
                Some(k) => k == lowered_size(self@),
                None => lowered_size(self@) > u32::MAX,
            },
        decreases self,
    {
        proof {
            lemma_lowered_size_positive(self@);
        }
        match self {
            ParsedExpr::Atom(_) => Some(1),
            ParsedExpr::Grouped(inner) => inner.constant_count(),
            ParsedExpr::Prefix { expr, .. } => match expr.constant_count() {
                Some(k) => k.checked_add(1),
                None => None,
            },
            ParsedExpr::Postfix { expr, .. } => match expr.constant_count() {
                Some(k) => k.checked_add(1),
                None => None,
            },
            ParsedExpr::Infix { left, right, .. } => {
                let a = match left.constant_count() {
                    Some(a) => a,
                    None => return None,
                };
                let b = match right.constant_count() {
                    Some(b) => b,
                    None => return None,
                };
                match a.checked_add(b) {
                    Some(c) => c.checked_add(1),
                    None => None,
                }
            },
            ParsedExpr::Juxtaposition(children) => {
                let ghost cv = parsed_seq_view(children@);
                proof {
                    lemma_parsed_seq_view(children@);
                }
                let mut total: u32 = 1;
                let mut k: usize = 0;
                assert(cv.take(0) =~= Seq::<Term>::empty());
                while k < children.len()
                    invariant
                        *self == ParsedExpr::Juxtaposition(*children),
                        cv == parsed_seq_view(children@),
                        cv.len() == children.len(),
                        forall|j: int| 0 <= j < children.len() ==> #[trigger] cv[j] == children@[j]@,
                        k <= children.len(),
                        total == 1 + lowered_size_seq(cv.take(k as int)),
                    decreases children.len() - k,
                {
                    proof {
                        lemma_lowered_size_take(cv, k as int);
                    }
                    assert(decreases_to!(*children => children[k as int]));
                    assert(decreases_to!(*self => (*self)->Juxtaposition_0));
                    assert(decreases_to!(*self => children@[k as int]));
                    let c = match children[k].constant_count() {
                        Some(c) => c,
                        None => return None,
                    };
                    total = match total.checked_add(c) {
                        Some(t) => t,
                        None => return None,
                    };
                    k += 1;
                }
                assert(cv.take(k as int) =~= cv);
                Some(total)
            },
        }
    }
}

/// What the macro expands to: the constants `__N0`, `__N1`, ... in order,
/// and the one whose value is the expression.
pub struct Generated {
    pub defs: Vec<Definition>,
    pub root: u32,
}

impl Generated {
    pub open spec fn definitions(self) -> Seq<Def> {
        defs_view(self.defs@)
    }

    pub open spec fn wf(self) -> bool {
        &&& defs_wf(self.definitions())
        &&& self.root < self.defs.len()
    }

    /// The value of the expanded code.
    pub open spec fn value(self) -> Term {
        denote(self.definitions(), self.root as int)
    }

    /// The value that the expanded code evaluates to.
    pub fn evaluate(&self) -> (e: Expr)
        requires
            self.wf(),
        ensures
            e@ == self.value(),
    {
        eval_def(&self.defs, self.root as usize)
    }
}

/// The value of the constant at index `i`.
fn eval_def(defs: &Vec<Definition>, i: usize) -> (e: Expr)
    requires
        defs_wf(defs_view(defs@)),
        i < defs.len(),
    ensures
        e@ == denote(defs_view(defs@), i as int),
    decreases i,
{
    let ghost dv = defs_view(defs@);
    assert(dv[i as int] == defs@[i as int]@);
    assert(refs_below(dv[i as int], i as int));
    match &defs[i] {
        Definition::Atom(s) => Expr::Atom(s.clone()),
        Definition::Juxtaposition(ids) => {
            let mut v: Vec<Expr> = Vec::new();
            let mut k: usize = 0;
            while k < ids.len()
                invariant
                    defs_wf(dv),
                    dv == defs_view(defs@),
                    i < defs.len(),
                    forall|j: int| 0 <= j < ids.len() ==> #[trigger] ids@[j] < i,
                    k <= ids.len(),
                    v@.len() == k,
                    forall|j: int|
                        0 <= j < k ==> #[trigger] v@[j]@ == denote(dv, ids@[j] as int),
                decreases ids.len() - k,
            {
                assert(ids@[k as int] < i);
                let e = eval_def(defs, ids[k] as usize);
                v.push(e);
                k += 1;
            }
            proof {
                lemma_expr_seq_view(v@);
                lemma_denote_ids(dv, ids@, i as int);
                assert(expr_seq_view(v@) =~= denote_ids(dv, ids@, i as int));
            }
            Expr::Juxtaposition(v)
        },
        Definition::Prefix { op, expr } => Expr::Prefix {
            op: op.clone(),
            expr: Box::new(eval_def(defs, *expr as usize)),
        },
        Definition::Postfix { expr, op } => Expr::Postfix {
            expr: Box::new(eval_def(defs, *expr as usize)),
            op: op.clone(),
        },
        Definition::Infix { left, op, right } => Expr::Infix {
            left: Box::new(eval_def(defs, *left as usize)),
            op: op.clone(),
            right: Box::new(eval_def(defs, *right as usize)),
        },
    }
}

} // verus!

