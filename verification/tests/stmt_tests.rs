use libfmt::engine::Engine;
use libfmt::stmt::{add_semi, break_after, BinOp, Expr, ExprKind, LocalInit, Stmt};
use libfmt::token::Token;

fn text_expr(kind: ExprKind, s: &str) -> Expr {
    Expr { kind, tokens: vec![Token::Text(String::from(s))], has_trailing_comment: false }
}

fn format_stmt(st: &Stmt) -> String {
    let mut e = Engine::new(60, 4);
    e.stmt(st);
    e.finish()
}

#[test]
fn assignment_statement_gets_terminator_and_newline() {
    let st = Stmt::Expr(text_expr(ExprKind::Assign, "x = 1"), false);
    assert_eq!(format_stmt(&st), "x = 1;\n");
}

#[test]
fn for_loop_statement_has_no_terminator() {
    let st = Stmt::Expr(text_expr(ExprKind::ForLoop, "for i in xs {}"), false);
    assert_eq!(format_stmt(&st), "for i in xs {}\n");
}

#[test]
fn if_else_with_block_arms_has_no_terminator() {
    let kind = ExprKind::If(Some(Box::new(ExprKind::Block)));
    let st = Stmt::Expr(text_expr(kind, "if c { a() } else { b() }"), false);
    assert_eq!(format_stmt(&st), "if c { a() } else { b() }\n");
}

#[test]
fn bare_binary_expression_gets_break_but_no_terminator() {
    let expr = text_expr(ExprKind::Binary(BinOp::Add), "1 + 2");
    assert!(!add_semi(&expr));
    assert!(break_after(&expr));
    let st = Stmt::Expr(expr, false);
    assert_eq!(format_stmt(&st), "1 + 2\n");
}

#[test]
fn let_else_lowers_diverge_into_a_block() {
    let st = Stmt::Local {
        attrs: vec![],
        pat: vec![Token::Text(String::from("Some(x)"))],
        init: Some(LocalInit {
            expr: text_expr(ExprKind::Path, "y"),
            diverge: Some(text_expr(ExprKind::Return, "return")),
        }),
        comment: vec![],
    };
    assert_eq!(format_stmt(&st), "let Some(x) = y else { return };\n");
}

#[test]
fn let_else_with_block_diverge_keeps_the_block() {
    let st = Stmt::Local {
        attrs: vec![],
        pat: vec![Token::Text(String::from("Some(x)"))],
        init: Some(LocalInit {
            expr: text_expr(ExprKind::Path, "y"),
            diverge: Some(text_expr(ExprKind::Block, "{ return }")),
        }),
        comment: vec![],
    };
    assert_eq!(format_stmt(&st), "let Some(x) = y else { return };\n");
}

#[test]
fn plain_binding_statement() {
    let st = Stmt::Local {
        attrs: vec![],
        pat: vec![Token::Text(String::from("x"))],
        init: Some(LocalInit { expr: text_expr(ExprKind::Lit, "1"), diverge: None }),
        comment: vec![],
    };
    assert_eq!(format_stmt(&st), "let x = 1;\n");
}

#[test]
fn binding_without_initializer() {
    let st = Stmt::Local {
        attrs: vec![],
        pat: vec![Token::Text(String::from("x"))],
        init: None,
        comment: vec![],
    };
    assert_eq!(format_stmt(&st), "let x;\n");
}

#[test]
fn semicolon_statement_keeps_explicit_terminator() {
    let st = Stmt::Expr(text_expr(ExprKind::Call, "f()"), true);
    assert_eq!(format_stmt(&st), "f();\n");
}

#[test]
fn semicolon_after_while_loop_is_removed() {
    let st = Stmt::Expr(text_expr(ExprKind::While, "while c {}"), true);
    assert_eq!(format_stmt(&st), "while c {}\n");
}

#[test]
fn empty_verbatim_statement_is_skipped() {
    let st = Stmt::Expr(text_expr(ExprKind::Verbatim(true), ""), true);
    assert_eq!(format_stmt(&st), "");
}

#[test]
fn macro_statement_is_always_terminated() {
    let st = Stmt::Macro { attrs: vec![], mac: vec![Token::Text(String::from("m!()"))] };
    assert_eq!(format_stmt(&st), "m!();\n");
}

#[test]
fn item_statement_plays_its_tokens() {
    let st = Stmt::Item(vec![Token::Text(String::from("struct S;"))]);
    assert_eq!(format_stmt(&st), "struct S;");
}

#[test]
fn reformatting_canonical_output_is_byte_identical() {
    // `x = 1` as a bare statement prints `x = 1;`; parsed back, the same
    // text is an expression statement with an explicit terminator marker,
    // and printing that reproduces the bytes exactly
    let first = format_stmt(&Stmt::Expr(text_expr(ExprKind::Assign, "x = 1"), false));
    let again = format_stmt(&Stmt::Expr(text_expr(ExprKind::Assign, "x = 1"), true));
    assert_eq!(first, "x = 1;\n");
    assert_eq!(first, again);
}

#[test]
fn compound_assignment_needs_terminator() {
    let st = Stmt::Expr(text_expr(ExprKind::Binary(BinOp::AddAssign), "x += 1"), false);
    assert_eq!(format_stmt(&st), "x += 1;\n");
}

#[test]
fn group_classification_recurses() {
    let grouped = text_expr(ExprKind::Group(Box::new(ExprKind::Return)), "return");
    assert!(add_semi(&grouped));
    let empty_verbatim = text_expr(ExprKind::Group(Box::new(ExprKind::Verbatim(true))), "");
    assert!(!break_after(&empty_verbatim));
}
