use abs_expr::{abs_expr, Delimiter, Expr, Spacing, Token};

fn convert(stream: proc_macro2::TokenStream) -> Vec<Token> {
    stream
        .into_iter()
        .map(|tree| match tree {
            proc_macro2::TokenTree::Ident(ident) => Token::Ident(ident.to_string()),
            proc_macro2::TokenTree::Literal(lit) => Token::Literal(lit.to_string()),
            proc_macro2::TokenTree::Punct(p) => Token::Punct(
                p.as_char(),
                match p.spacing() {
                    proc_macro2::Spacing::Joint => Spacing::Joint,
                    proc_macro2::Spacing::Alone => Spacing::Alone,
                },
            ),
            proc_macro2::TokenTree::Group(g) => Token::Group(
                match g.delimiter() {
                    proc_macro2::Delimiter::Parenthesis => Delimiter::Parenthesis,
                    proc_macro2::Delimiter::Brace => Delimiter::Brace,
                    proc_macro2::Delimiter::Bracket => Delimiter::Bracket,
                    proc_macro2::Delimiter::None => Delimiter::Invisible,
                },
                convert(g.stream()),
            ),
        })
        .collect()
}

/// The value of `abs_expr!(<source>)`.
fn expand(source: &str) -> Expr {
    let tokens = convert(source.parse().expect("source lexes"));
    abs_expr(&tokens).expect("source parses").evaluate()
}

fn copy(e: &Expr) -> Expr {
    match e {
        Expr::Atom(s) => Expr::Atom(s.clone()),
        Expr::Juxtaposition(v) => Expr::Juxtaposition(v.iter().map(copy).collect()),
        Expr::Prefix { op, expr } => Expr::Prefix { op: op.clone(), expr: Box::new(copy(expr)) },
        Expr::Postfix { expr, op } => Expr::Postfix { expr: Box::new(copy(expr)), op: op.clone() },
        Expr::Infix { left, op, right } => Expr::Infix {
            left: Box::new(copy(left)),
            op: op.clone(),
            right: Box::new(copy(right)),
        },
    }
}

fn atom(s: &str) -> Expr {
    Expr::Atom(s.to_string())
}

fn prefix(op: &str, expr: &Expr) -> Expr {
    Expr::Prefix { op: op.to_string(), expr: Box::new(copy(expr)) }
}

fn postfix(expr: &Expr, op: &str) -> Expr {
    Expr::Postfix { expr: Box::new(copy(expr)), op: op.to_string() }
}

fn infix(left: &Expr, op: &str, right: &Expr) -> Expr {
    Expr::Infix { left: Box::new(copy(left)), op: op.to_string(), right: Box::new(copy(right)) }
}

fn juxtaposition(items: &[Expr]) -> Expr {
    Expr::Juxtaposition(items.iter().map(copy).collect())
}

// ============================================================
// Grammar: Primary — ident, literal, parenthesized
// ============================================================

#[test]
fn parser_atom_ident() {
    let x = atom("x");
    assert_eq!(expand("x"), x);
}

#[test]
fn parser_atom_literal() {
    assert_eq!(expand("42"), atom("42"));
}

#[test]
fn deep_nested_atom() {
    let x = atom("x");
    assert_eq!(expand("(x)"), x);
}

// ============================================================
// Grammar: Prefix — op + expr(RHS at JUXTAPOSITION_BP)
// ============================================================

#[test]
fn parser_prefix() {
    let x = atom("x");
    assert_eq!(expand("-x"), prefix("-", &x));
}

// --x as a single multi-char prefix operator
#[test]
fn double_dash_prefix() {
    let x = atom("x");
    assert_eq!(expand("--x"), prefix("--", &x));
}

// !- as a single Joint prefix operator
#[test]
fn double_prefix() {
    let x = atom("x");
    assert_eq!(expand("!-x"), prefix("!-", &x));
}

// ~~ as a single Joint prefix operator
#[test]
fn double_tilde_prefix() {
    let x = atom("x");
    assert_eq!(expand("~~x"), prefix("~~", &x));
}

// ++ as a single Joint prefix operator
#[test]
fn arbitrary_prefix() {
    let x = atom("x");
    assert_eq!(expand("++x"), prefix("++", &x));
}

// Parens disambiguate nested prefix: -(-x)
#[test]
fn separate_prefix_ops_via_parens() {
    let x = atom("x");
    let neg_x = prefix("-", &x);
    assert_eq!(
        expand("-(-x)"),
        prefix("-", &neg_x)
    );
}

// ============================================================
// Grammar: Postfix — expr + op (consumed after infix attempt)
// ============================================================

#[test]
fn parser_postfix() {
    let x = atom("x");
    assert_eq!(expand("x!"), postfix(&x, "!"));
}

// x!! as a single multi-char Joint postfix operator
#[test]
fn double_bang_postfix() {
    let x = atom("x");
    assert_eq!(expand("x!!"), postfix(&x, "!!"));
}

// x! ! = (x!)! — space splits into two separate postfix ops
#[test]
fn chained_postfix_separate() {
    let x = atom("x");
    let x_fact = postfix(&x, "!");
    assert_eq!(
        expand("x! !"),
        postfix(&x_fact, "!")
    );
}

#[test]
fn arbitrary_postfix() {
    let x = atom("x");
    assert_eq!(expand("x++"), postfix(&x, "++"));
    assert_eq!(expand("x--"), postfix(&x, "--"));
}

// ============================================================
// Grammar: Infix — expr op expr (precedence climbing)
// ============================================================
// --- Single-character infix operators ---

#[test]
fn parser_infix_plus() {
    let a = atom("a");
    let b = atom("b");
    assert_eq!(
        expand("a + b"),
        infix(&a, "+", &b)
    );
}

#[test]
fn parser_infix_mul() {
    let a = atom("a");
    let b = atom("b");
    assert_eq!(
        expand("a * b"),
        infix(&a, "*", &b)
    );
}

// --- Multi-character infix operators (Joint puncts, last-char precedence) ---

// ::  ends with : → cons (150)
#[test]
fn parser_compound_operator() {
    let a = atom("a");
    let b = atom("b");
    assert_eq!(
        expand("a::b"),
        infix(&a, "::", &b)
    );
}

// ->  ends with > → comparison (130)
#[test]
fn parser_arrow_operator() {
    let a = atom("a");
    let b = atom("b");
    assert_eq!(
        expand("a -> b"),
        infix(&a, "->", &b)
    );
}

// =>  ends with > → comparison (130)
#[test]
fn fat_arrow() {
    let a = atom("a");
    let b = atom("b");
    assert_eq!(
        expand("a => b"),
        infix(&a, "=>", &b)
    );
}

// <>  ends with > → comparison (130)
#[test]
fn diamond_operator() {
    let a = atom("a");
    let b = atom("b");
    assert_eq!(
        expand("a <> b"),
        infix(&a, "<>", &b)
    );
}

// <<  ends with < → comparison (130)
// >>  ends with > → comparison (130)
#[test]
fn shift_operators() {
    let a = atom("a");
    let b = atom("b");
    assert_eq!(
        expand("a << b"),
        infix(&a, "<<", &b)
    );
    assert_eq!(
        expand("a >> b"),
        infix(&a, ">>", &b)
    );
}

// ..  catch-all → comparison (130)
#[test]
fn range_operator() {
    let a = atom("a");
    let b = atom("b");
    assert_eq!(
        expand("a..b"),
        infix(&a, "..", &b)
    );
}

// ::: ends with : → cons (150)
#[test]
fn triple_colon_operator() {
    let a = atom("a");
    let b = atom("b");
    assert_eq!(
        expand("a ::: b"),
        infix(&a, ":::", &b)
    );
}

// --- Left associativity ---

#[test]
fn parser_double_infix() {
    let a = atom("a");
    let b = atom("b");
    let c = atom("c");
    let a_plus_b = infix(&a, "+", &b);
    assert_eq!(
        expand("a + b + c"),
        infix(&a_plus_b, "+", &c)
    );
}

#[test]
fn parser_left_assoc_sub() {
    let a = atom("a");
    let b = atom("b");
    let c = atom("c");
    let a_sub_b = infix(&a, "-", &b);
    assert_eq!(
        expand("a - b - c"),
        infix(&a_sub_b, "-", &c)
    );
}

// --- Precedence (tight → loose) ---

// * (170) > + (160)
#[test]
fn parser_precedence_mul_over_add() {
    let a = atom("a");
    let b = atom("b");
    let c = atom("c");
    let b_mul_c = infix(&b, "*", &c);
    assert_eq!(
        expand("a + b * c"),
        infix(&a, "+", &b_mul_c)
    );
}

// **  ends with * → multiplicative (170) > + (160)
#[test]
fn double_star_precedence() {
    let a = atom("a");
    let b = atom("b");
    let c = atom("c");
    let b_dstar_c = infix(&b, "**", &c);
    assert_eq!(
        expand("a + b ** c"),
        infix(&a, "+", &b_dstar_c)
    );
}

// -> ends with > → comparison (130) < + (160)
#[test]
fn arrow_looser_than_plus() {
    let a = atom("a");
    let b = atom("b");
    let c = atom("c");
    let a_plus_b = infix(&a, "+", &b);
    assert_eq!(
        expand("a + b -> c"),
        infix(&a_plus_b, "->", &c)
    );
}

// Full precedence: a + b * c - d / e = (a + (b * c)) - (d / e)
#[test]
fn parser_mixed_precedence() {
    let a = atom("a");
    let b = atom("b");
    let c = atom("c");
    let d = atom("d");
    let e = atom("e");
    let b_mul_c = infix(&b, "*", &c);
    let d_div_e = infix(&d, "/", &e);
    let a_plus_b_mul_c = infix(&a, "+", &b_mul_c);
    assert_eq!(
        expand("a + b * c - d / e"),
        infix(&a_plus_b_mul_c, "-", &d_div_e)
    );
}

// Juxtaposition (185) > infix: a b + c d = (a b) + (c d)
#[test]
fn parser_juxtaposition_over_infix() {
    let a = atom("a");
    let b = atom("b");
    let c = atom("c");
    let d = atom("d");
    let ab = juxtaposition(&[a, b]);
    let cd = juxtaposition(&[c, d]);
    assert_eq!(
        expand("a b + c d"),
        infix(&ab, "+", &cd)
    );
}

// ============================================================
// Grammar: Juxtaposition — adjacent primary expressions
// ============================================================

#[test]
fn parser_juxtaposition() {
    let a = atom("a");
    let b = atom("b");
    assert_eq!(expand("a b"), juxtaposition(&[a, b]));
}

#[test]
fn chained_juxtaposition() {
    let f = atom("f");
    let a = atom("a");
    let b = atom("b");
    let c = atom("c");
    let d = atom("d");
    assert_eq!(expand("f a b c d"), juxtaposition(&[f, a, b, c, d]));
}

// ============================================================
// Parentheses: grouping, nesting, transparency
// ============================================================

// (a + b) * c  — parens override default precedence
#[test]
fn parser_parentheses() {
    let a = atom("a");
    let b = atom("b");
    let c = atom("c");
    let a_plus_b = infix(&a, "+", &b);
    assert_eq!(
        expand("(a + b) * c"),
        infix(&a_plus_b, "*", &c)
    );
}

#[test]
fn nested_parentheses() {
    let a = atom("a");
    let b = atom("b");
    let c = atom("c");
    let a_plus_b = infix(&a, "+", &b);
    assert_eq!(
        expand("((a + b) * c)"),
        infix(&a_plus_b, "*", &c)
    );
}

#[test]
fn parentheses_both_sides() {
    let a = atom("a");
    let b = atom("b");
    let c = atom("c");
    let d = atom("d");
    let a_plus_b = infix(&a, "+", &b);
    let c_plus_d = infix(&c, "+", &d);
    assert_eq!(
        expand("(a + b) * (c + d)"),
        infix(&a_plus_b, "*", &c_plus_d)
    );
}

#[test]
fn complex_nested_parentheses() {
    let a = atom("a");
    let b = atom("b");
    let c = atom("c");
    let d = atom("d");
    let e = atom("e");
    let a_plus_b = infix(&a, "+", &b);
    let c_sub_d = infix(&c, "-", &d);
    let left_group = infix(&a_plus_b, "*", &c_sub_d);
    assert_eq!(
        expand("((a + b) * (c - d)) / e"),
        infix(&left_group, "/", &e)
    );
}

// Parens + juxtaposition: a (b + c) ≠ a b + c
#[test]
fn parentheses_with_juxtaposition() {
    let a = atom("a");
    let b = atom("b");
    let c = atom("c");
    let b_plus_c = infix(&b, "+", &c);
    assert_eq!(expand("a(b + c)"), juxtaposition(&[a, b_plus_c]));
}

// (a b) c  — parens preserve inner juxtaposition grouping
#[test]
fn juxtaposition_of_grouped_expressions() {
    let a = atom("a");
    let b = atom("b");
    let c = atom("c");
    let ab = juxtaposition(&[a, b]);
    assert_eq!(expand("(a b) c"), juxtaposition(&[ab, c]));
}

// -(a + b) — parens override prefix binding
#[test]
fn parentheses_with_prefix() {
    let a = atom("a");
    let b = atom("b");
    let a_plus_b = infix(&a, "+", &b);
    assert_eq!(
        expand("-(a + b)"),
        prefix("-", &a_plus_b)
    );
}

// (x)! — parens then postfix
#[test]
fn parentheses_with_postfix() {
    let x = atom("x");
    assert_eq!(expand("(x)!"), postfix(&x, "!"));
}

// (f x)! — juxtaposition inside parens then postfix
#[test]
fn grouped_then_postfix() {
    let f = atom("f");
    let x = atom("x");
    let fx = juxtaposition(&[f, x]);
    assert_eq!(expand("(f x)!"), postfix(&fx, "!"));
}

// ============================================================
// Interactions: Prefix × Juxtaposition
// Prefix RHS parsed at JUXTAPOSITION_BP, so -f x = -(f x)
// ============================================================

#[test]
fn prefix_juxtaposes_in_rhs() {
    let f = atom("f");
    let x = atom("x");
    let fx = juxtaposition(&[f, x]);
    assert_eq!(expand("-f x"), prefix("-", &fx));
}

#[test]
fn prefix_with_postfix_in_rhs() {
    let f = atom("f");
    let x = atom("x");
    let x_fact = postfix(&x, "!");
    let fx_fact = juxtaposition(&[f, x_fact]);
    assert_eq!(
        expand("-f x!"),
        prefix("-", &fx_fact)
    );
}

// ============================================================
// Interactions: Postfix × Juxtaposition
// Postfix binds before juxtaposition: f x! = f (x!)
// When op is both postfix and infix and a primary follows → infix wins
// ============================================================

#[test]
fn postfix_before_juxtaposition() {
    let f = atom("f");
    let x = atom("x");
    let x_fact = postfix(&x, "!");
    assert_eq!(expand("f x!"), juxtaposition(&[f, x_fact]));
}

#[test]
fn postfix_after_juxtaposition_chain() {
    let f = atom("f");
    let g = atom("g");
    let x = atom("x");
    let fg = juxtaposition(&[f, g]);
    let x_fact = postfix(&x, "!");
    assert_eq!(expand("f g x!"), juxtaposition(&[fg, x_fact]));
}

// x! y → infix wins over postfix+juxtaposition
#[test]
fn postfix_then_juxtaposition() {
    let x = atom("x");
    let y = atom("y");
    assert_eq!(
        expand("x! y"),
        infix(&x, "!", &y)
    );
}

// f! g! → infix wins over postfix+juxtaposition
#[test]
fn both_postfix_in_juxtaposition() {
    let f = atom("f");
    let g = atom("g");
    let g_fact = postfix(&g, "!");
    assert_eq!(
        expand("f! g!"),
        infix(&f, "!", &g_fact)
    );
}

// x! y! → infix wins over postfix+juxtaposition
#[test]
fn both_sides_postfix_in_juxtaposition() {
    let x = atom("x");
    let y = atom("y");
    let y_fact = postfix(&y, "!");
    assert_eq!(
        expand("x! y!"),
        infix(&x, "!", &y_fact)
    );
}

// ============================================================
// Interactions: Prefix × Postfix
// Postfix binds first, then prefix: -x! = -(x!)
// ============================================================

#[test]
fn prefix_then_postfix() {
    let x = atom("x");
    let x_fact = postfix(&x, "!");
    assert_eq!(
        expand("-x!"),
        prefix("-", &x_fact)
    );
}

// ============================================================
// Interactions: Postfix × Infix
// Postfix binds before infix: x! + y = (x!) + y
// ============================================================

#[test]
fn postfix_then_infix() {
    let x = atom("x");
    let y = atom("y");
    let x_fact = postfix(&x, "!");
    assert_eq!(
        expand("x! + y"),
        infix(&x_fact, "+", &y)
    );
}

#[test]
fn postfix_then_infix_sub() {
    let x = atom("x");
    let y = atom("y");
    let x_fact = postfix(&x, "!");
    assert_eq!(
        expand("x! - y"),
        infix(&x_fact, "-", &y)
    );
}

// ============================================================
// Complex combinations
// ============================================================

// -x! + y = (-(x!)) + y
#[test]
fn prefix_postfix_infix_combined() {
    let x = atom("x");
    let y = atom("y");
    let x_fact = postfix(&x, "!");
    let neg_x_fact = prefix("-", &x_fact);
    assert_eq!(
        expand("-x! + y"),
        infix(&neg_x_fact, "+", &y)
    );
}

// f x! + g y! * z = ((f (x!)) + ((g (y!)) * z))
#[test]
fn complex_postfix_infix_juxtaposition() {
    let f = atom("f");
    let x = atom("x");
    let g = atom("g");
    let y = atom("y");
    let z = atom("z");
    let x_fact = postfix(&x, "!");
    let y_fact = postfix(&y, "!");
    let fx = juxtaposition(&[f, x_fact]);
    let gy = juxtaposition(&[g, y_fact]);
    let gy_mul_z = infix(&gy, "*", &z);
    assert_eq!(
        expand("f x! + g y! * z"),
        infix(&fx, "+", &gy_mul_z)
    );
}

// (f x)! + y — parens force juxtaposition before postfix
#[test]
fn verify_parens_changes_meaning() {
    let f = atom("f");
    let x = atom("x");
    let y = atom("y");
    let fx = juxtaposition(&[f, x]);
    let fx_fact = postfix(&fx, "!");
    assert_eq!(
        expand("(f x)! + y"),
        infix(&fx_fact, "+", &y)
    );
}
