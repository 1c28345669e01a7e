use abs_expr::codegen::{CodeGen, Definition};
use abs_expr::parser::{infix_bp, parse_expr, read_op, ParseError};
use abs_expr::{abs_expr, Delimiter, Expr, ParsedExpr, Spacing, Token};

fn convert(stream: proc_macro2::TokenStream) -> Vec<Token> {
    stream
        .into_iter()
        .map(|tree| match tree {
            proc_macro2::TokenTree::Ident(ident) => Token::Ident(ident.to_string()),
            proc_macro2::TokenTree::Literal(lit) => Token::Literal(lit.to_string()),
            proc_macro2::TokenTree::Punct(p) => Token::Punct(
                p.as_char(),
                match p.spacing() {
                    proc_macro2::Spacing::Joint => Spacing::Joint,
                    proc_macro2::Spacing::Alone => Spacing::Alone,
                },
            ),
            proc_macro2::TokenTree::Group(g) => Token::Group(
                match g.delimiter() {
                    proc_macro2::Delimiter::Parenthesis => Delimiter::Parenthesis,
                    proc_macro2::Delimiter::Brace => Delimiter::Brace,
                    proc_macro2::Delimiter::Bracket => Delimiter::Bracket,
                    proc_macro2::Delimiter::None => Delimiter::Invisible,
                },
                convert(g.stream()),
            ),
        })
        .collect()
}

fn lex(source: &str) -> Vec<Token> {
    convert(source.parse().expect("source lexes"))
}

fn expand(source: &str) -> Result<Expr, ParseError> {
    abs_expr(&lex(source)).map(|g| g.evaluate())
}

fn atom(s: &str) -> Expr {
    Expr::Atom(s.to_string())
}

fn infix(left: Expr, op: &str, right: Expr) -> Expr {
    Expr::Infix { left: Box::new(left), op: op.to_string(), right: Box::new(right) }
}

#[test]
fn empty_input_expects_a_primary() {
    assert_eq!(expand(""), Err(ParseError::ExpectedPrimary));
}

#[test]
fn lone_operator_expects_a_primary() {
    assert_eq!(expand("+"), Err(ParseError::ExpectedPrimary));
}

#[test]
fn bracket_group_is_left_over() {
    assert_eq!(expand("a [b]"), Err(ParseError::TrailingToken(1)));
}

#[test]
fn failed_right_operand_leaves_the_operator_over() {
    assert_eq!(expand("a + ()"), Err(ParseError::TrailingToken(1)));
}

#[test]
fn failed_juxtaposed_operand_is_an_error() {
    assert_eq!(expand("a ()"), Err(ParseError::ExpectedPrimary));
}

#[test]
fn tokens_left_in_parentheses_are_refused() {
    assert_eq!(expand("(a [b])"), Err(ParseError::ExpectedPrimary));
    assert_eq!(expand("(a + ())"), Err(ParseError::ExpectedPrimary));
    assert_eq!(expand("f (a [b])"), Err(ParseError::ExpectedPrimary));
}

#[test]
fn empty_parentheses_expect_a_primary() {
    assert_eq!(expand("()"), Err(ParseError::ExpectedPrimary));
}

#[test]
fn literal_text_is_kept() {
    assert_eq!(expand("\"hi\" 1.5"), Ok(Expr::Juxtaposition(vec![atom("\"hi\""), atom("1.5")])));
}

#[test]
fn cons_is_non_associative() {
    assert_eq!(expand("a : b"), Ok(infix(atom("a"), ":", atom("b"))));
    assert_eq!(expand("a : b : c"), Err(ParseError::TrailingToken(3)));
    assert_eq!(expand("a :: b ::: c"), Err(ParseError::TrailingToken(4)));
}

#[test]
fn concat_is_non_associative() {
    assert_eq!(expand("a ^ b ^ c"), Err(ParseError::TrailingToken(3)));
    assert_eq!(expand("a @ b ^ c"), Err(ParseError::TrailingToken(3)));
    assert_eq!(expand("a ^ b : c"), Ok(infix(atom("a"), "^", infix(atom("b"), ":", atom("c")))));
}

#[test]
fn semicolon_is_non_associative() {
    assert_eq!(expand("a ; b ; c"), Err(ParseError::TrailingToken(3)));
    assert_eq!(expand("a ; b , c ; d"), Err(ParseError::TrailingToken(5)));
}

#[test]
fn same_level_operator_after_a_tighter_one_is_refused() {
    // `b ^ c` binds first, so the outer `^` already ends in level 140.
    assert_eq!(expand("a ; b ^ c ^ d"), Err(ParseError::TrailingToken(5)));
    // Parentheses make the chain explicit.
    assert_eq!(
        expand("(a ^ b) ^ c"),
        Ok(infix(infix(atom("a"), "^", atom("b")), "^", atom("c")))
    );
    assert_eq!(
        expand("a ^ (b ^ c)"),
        Ok(infix(atom("a"), "^", infix(atom("b"), "^", atom("c"))))
    );
}

#[test]
fn comparison_is_left_associative() {
    assert_eq!(expand("a < b == c"), Ok(infix(infix(atom("a"), "<", atom("b")), "==", atom("c"))));
}

#[test]
fn comma_is_looser_than_comparison() {
    assert_eq!(expand("a , b < c"), Ok(infix(atom("a"), ",", infix(atom("b"), "<", atom("c")))));
}

#[test]
fn semicolon_is_loosest() {
    assert_eq!(expand("a ; b , c"), Ok(infix(atom("a"), ";", infix(atom("b"), ",", atom("c")))));
}

#[test]
fn prefix_binds_tighter_than_infix() {
    let neg_a = Expr::Prefix { op: "-".to_string(), expr: Box::new(atom("a")) };
    assert_eq!(expand("-a * b"), Ok(infix(neg_a, "*", atom("b"))));
}

#[test]
fn round_trip_of_a_written_expression() {
    // Infix { Postfix(x, !), +, Juxtaposition [f, (- y)] } written with
    // every non-atomic operand in parentheses.
    let written = expand("((x)!) + (f (- y))").unwrap();
    let direct = expand("x! + f (-y)").unwrap();
    assert_eq!(written, direct);
}

#[test]
fn parentheses_are_transparent() {
    assert_eq!(expand("((a + b))"), expand("a + b"));
    assert_eq!(expand("((((x))))"), Ok(atom("x")));
}

#[test]
fn binary_operators_law_examples() {
    // `*` binds tighter than `+` on either side, `-` associates left.
    assert_eq!(expand("a * b + c"), Ok(infix(infix(atom("a"), "*", atom("b")), "+", atom("c"))));
    assert_eq!(expand("a + b * c"), Ok(infix(atom("a"), "+", infix(atom("b"), "*", atom("c")))));
    assert_eq!(expand("a - b - c"), Ok(infix(infix(atom("a"), "-", atom("b")), "-", atom("c"))));
}

#[test]
fn infix_binding_powers() {
    assert_eq!(infix_bp("->"), Some((130, 131)));
    assert_eq!(infix_bp("**"), Some((170, 171)));
    assert_eq!(infix_bp("+"), Some((160, 161)));
    assert_eq!(infix_bp("::"), Some((150, 151)));
    assert_eq!(infix_bp("^"), Some((140, 141)));
    assert_eq!(infix_bp(","), Some((100, 101)));
    assert_eq!(infix_bp(";"), Some((80, 81)));
    assert_eq!(infix_bp("."), Some((130, 131)));
    assert_eq!(infix_bp(""), None);
}

#[test]
fn read_op_takes_the_joint_run() {
    let tokens = lex("a ->- b");
    assert_eq!(read_op(&tokens, 1), Some(("->-".to_string(), 4)));
    assert_eq!(read_op(&tokens, 0), None);
    let spaced = lex("- >");
    assert_eq!(read_op(&spaced, 0), Some(("-".to_string(), 1)));
}

#[test]
fn parse_expr_stops_before_looser_operators() {
    let tokens = lex("a * b + c");
    let (e, end) = parse_expr(&tokens, 0, 165).unwrap();
    assert_eq!(end, 3);
    assert_eq!(
        e,
        ParsedExpr::Infix {
            left: Box::new(ParsedExpr::Atom("a".to_string())),
            op: "*".to_string(),
            right: Box::new(ParsedExpr::Atom("b".to_string())),
        }
    );
}

#[test]
fn parsed_expression_keeps_groups() {
    let e = ParsedExpr::parse_all(&lex("(a)")).unwrap();
    assert_eq!(e, ParsedExpr::Grouped(Box::new(ParsedExpr::Atom("a".to_string()))));
}

#[test]
fn emitted_constants_come_children_first() {
    let g = abs_expr(&lex("a + b * c")).unwrap();
    assert_eq!(g.root, 4);
    assert_eq!(
        g.defs,
        vec![
            Definition::Atom("a".to_string()),
            Definition::Atom("b".to_string()),
            Definition::Atom("c".to_string()),
            Definition::Infix { left: 1, op: "*".to_string(), right: 2 },
            Definition::Infix { left: 0, op: "+".to_string(), right: 3 },
        ]
    );
}

#[test]
fn groups_emit_no_constant() {
    let g = abs_expr(&lex("((f x))!")).unwrap();
    assert_eq!(
        g.defs,
        vec![
            Definition::Atom("f".to_string()),
            Definition::Atom("x".to_string()),
            Definition::Juxtaposition(vec![0, 1]),
            Definition::Postfix { expr: 2, op: "!".to_string() },
        ]
    );
    assert_eq!(g.root, 3);
}

#[test]
fn code_generator_counts_from_zero() {
    let mut cg = CodeGen::new();
    assert_eq!(cg.next_ident(), 0);
    assert_eq!(cg.next_ident(), 1);
    let mut fresh = CodeGen::new();
    let e = ParsedExpr::Atom("z".to_string());
    assert_eq!(fresh.emit(&e), 0);
    let g = fresh.finalize(0);
    assert_eq!(g.defs, vec![Definition::Atom("z".to_string())]);
}

#[test]
fn expansion_has_fewer_constants_than_twice_the_tokens() {
    let tokens = lex("f a b (c d)");
    let g = abs_expr(&tokens).unwrap();
    // 6 tokens (the group and the two inside it included), 7 constants.
    assert_eq!(g.defs.len(), 7);
    assert!(g.defs.len() < 2 * 6);
}

#[test]
fn constant_count_skips_parentheses() {
    let e = ParsedExpr::parse_all(&lex("((f x))!")).unwrap();
    assert_eq!(e.constant_count(), Some(4));
    let g = abs_expr(&lex("((f x))!")).unwrap();
    assert_eq!(g.defs.len(), 4);
    let atom = ParsedExpr::parse_all(&lex("(((z)))")).unwrap();
    assert_eq!(atom.constant_count(), Some(1));
}

#[test]
fn parenthesized_input_expands_to_the_same_constants() {
    let plain = abs_expr(&lex("a + b * c")).unwrap();
    let wrapped = abs_expr(&lex("(a + b * c)")).unwrap();
    assert_eq!(plain.defs, wrapped.defs);
    assert_eq!(plain.root, wrapped.root);
}

#[test]
fn juxtaposition_ending_in_a_postfix_nests() {
    let f = atom("f");
    let g = atom("g");
    let x = atom("x");
    let fg = Expr::Juxtaposition(vec![f, g]);
    let x_fact = Expr::Postfix { expr: Box::new(x), op: "!".to_string() };
    assert_eq!(expand("f g x!"), Ok(Expr::Juxtaposition(vec![fg, x_fact])));
}
