use abs_expr::{abs_expr, Delimiter, Expr, Spacing, Token};

fn convert(stream: proc_macro2::TokenStream) -> Vec<Token> {
    stream
        .into_iter()
        .map(|tree| match tree {
            proc_macro2::TokenTree::Ident(ident) => Token::Ident(ident.to_string()),
            proc_macro2::TokenTree::Literal(lit) => Token::Literal(lit.to_string()),
            proc_macro2::TokenTree::Punct(p) => Token::Punct(
                p.as_char(),
                match p.spacing() {
                    proc_macro2::Spacing::Joint => Spacing::Joint,
                    proc_macro2::Spacing::Alone => Spacing::Alone,
                },
            ),
            proc_macro2::TokenTree::Group(g) => Token::Group(
                match g.delimiter() {
                    proc_macro2::Delimiter::Parenthesis => Delimiter::Parenthesis,
                    proc_macro2::Delimiter::Brace => Delimiter::Brace,
                    proc_macro2::Delimiter::Bracket => Delimiter::Bracket,
                    proc_macro2::Delimiter::None => Delimiter::Invisible,
                },
                convert(g.stream()),
            ),
        })
        .collect()
}

/// The value of `abs_expr!(<source>)`.
fn expand(source: &str) -> Expr {
    let tokens = convert(source.parse().expect("source lexes"));
    abs_expr(&tokens).expect("source parses").evaluate()
}

fn expand_debug(source: &str) -> String {
    format!("{:?}", expand(source))
}

#[test]
fn lib_atom_ident() {
    let s = expand_debug("x");
    assert_eq!(s, "Atom(\"x\")");
}

#[test]
fn lib_atom_literal() {
    let s = expand_debug("42");
    assert_eq!(s, "Atom(\"42\")");
}

#[test]
fn lib_prefix() {
    let s = expand_debug("-x");
    assert_eq!(s, "Prefix { op: \"-\", expr: Atom(\"x\") }");
}

#[test]
fn lib_postfix() {
    let s = expand_debug("x!");
    assert_eq!(s, "Postfix { expr: Atom(\"x\"), op: \"!\" }");
}

#[test]
fn lib_infix_plus() {
    let s = expand_debug("a + b");
    assert_eq!(s, "Infix { left: Atom(\"a\"), op: \"+\", right: Atom(\"b\") }");
}

#[test]
fn lib_infix_mul() {
    let s = expand_debug("a * b");
    assert_eq!(s, "Infix { left: Atom(\"a\"), op: \"*\", right: Atom(\"b\") }");
}

#[test]
fn lib_juxtaposition() {
    let s = expand_debug("a b");
    assert_eq!(s, "Juxtaposition([Atom(\"a\"), Atom(\"b\")])");
}

#[test]
fn lib_parentheses() {
    let s = expand_debug("(a + b) * c");
    assert_eq!(s, "Infix { left: Infix { left: Atom(\"a\"), op: \"+\", right: Atom(\"b\") }, op: \"*\", right: Atom(\"c\") }");
}

#[test]
fn lib_precedence_mul_over_add() {
    let s = expand_debug("a + b * c");
    assert_eq!(s, "Infix { left: Atom(\"a\"), op: \"+\", right: Infix { left: Atom(\"b\"), op: \"*\", right: Atom(\"c\") } }");
}

#[test]
fn lib_juxtaposition_over_infix() {
    let s = expand_debug("a b + c d");
    assert_eq!(s, "Infix { left: Juxtaposition([Atom(\"a\"), Atom(\"b\")]), op: \"+\", right: Juxtaposition([Atom(\"c\"), Atom(\"d\")]) }");
}

#[test]
fn lib_double_infix() {
    let s = expand_debug("a + b + c");
    assert_eq!(s, "Infix { left: Infix { left: Atom(\"a\"), op: \"+\", right: Atom(\"b\") }, op: \"+\", right: Atom(\"c\") }");
}

#[test]
fn lib_compound_operator() {
    let s = expand_debug("a::b");
    assert_eq!(s, "Infix { left: Atom(\"a\"), op: \"::\", right: Atom(\"b\") }");
}

#[test]
fn lib_arrow_operator() {
    let s = expand_debug("a -> b");
    assert_eq!(s, "Infix { left: Atom(\"a\"), op: \"->\", right: Atom(\"b\") }");
}

#[test]
fn left_assoc_exponentiation() {
    let s = expand_debug("a ** b ** c");
    assert_eq!(s, "Infix { left: Infix { left: Atom(\"a\"), op: \"**\", right: Atom(\"b\") }, op: \"**\", right: Atom(\"c\") }");
}

#[test]
fn lib_left_assoc_sub() {
    let s = expand_debug("a - b - c");
    assert_eq!(s, "Infix { left: Infix { left: Atom(\"a\"), op: \"-\", right: Atom(\"b\") }, op: \"-\", right: Atom(\"c\") }");
}

#[test]
fn lib_mixed_precedence() {
    let s = expand_debug("a + b * c - d / e");
    assert_eq!(s, "Infix { left: Infix { left: Atom(\"a\"), op: \"+\", right: Infix { left: Atom(\"b\"), op: \"*\", right: Atom(\"c\") } }, op: \"-\", right: Infix { left: Atom(\"d\"), op: \"/\", right: Atom(\"e\") } }");
}
