// Unit tests of the individual components: classifier policy, fragment
// builders, the placeholder/splice engine and the locator, each exercised
// through the library's public surface on concrete values.

use iflet_assist::assist::find_rewrite_site;
use iflet_assist::builder::{
    block_fragment, conditional, expr_statement, placeholder_pat, tuple_struct_pat,
};
use iflet_assist::classify::{classify, Classification, SumTypeLookup};
use iflet_assist::splice::{find_placeholder, replace, replace_at_path};
use iflet_assist::tree::{
    copy_elem, render, text_len, Element, NodeKind, SyntaxNode, Token, TokenKind,
};

fn chars(s: &str) -> Vec<char> {
    s.chars().collect()
}

fn tok(kind: TokenKind, s: &str) -> Element {
    Element::Tok(Token { kind, text: chars(s) })
}

fn node(kind: NodeKind, children: Vec<Element>) -> Element {
    Element::Node(SyntaxNode { kind, children })
}

fn rendered(e: &Element) -> String {
    render(e).into_iter().collect()
}

#[test]
fn classifier_names_success_variant_of_two_variant_type() {
    let c = classify(Some(SumTypeLookup {
        variant_count: 2,
        success_variant: Some(chars("Some")),
    }));
    match c {
        Classification::SuccessVariant(n) => assert_eq!(n, chars("Some")),
        Classification::Unrecognized => panic!("expected a success variant"),
    }
}

#[test]
fn classifier_rejects_unresolved_and_wrong_shapes() {
    assert!(matches!(classify(None), Classification::Unrecognized));
    assert!(matches!(
        classify(Some(SumTypeLookup { variant_count: 2, success_variant: None })),
        Classification::Unrecognized
    ));
    assert!(matches!(
        classify(Some(SumTypeLookup { variant_count: 1, success_variant: Some(chars("Only")) })),
        Classification::Unrecognized
    ));
    assert!(matches!(
        classify(Some(SumTypeLookup { variant_count: 3, success_variant: Some(chars("Ok")) })),
        Classification::Unrecognized
    ));
}

#[test]
fn placeholder_renders_as_underscore() {
    let p = placeholder_pat();
    assert_eq!(rendered(&Element::Node(p)), "_");
}

#[test]
fn tuple_pattern_joins_sub_patterns_with_commas() {
    let a = SyntaxNode { kind: NodeKind::BindPat, children: vec![tok(TokenKind::Ident, "a")] };
    let b = SyntaxNode { kind: NodeKind::BindPat, children: vec![tok(TokenKind::Ident, "b")] };
    let subs = vec![a, b];
    let p = tuple_struct_pat(&chars("Pair"), &subs);
    assert_eq!(rendered(&Element::Node(p)), "Pair(a, b)");
}

#[test]
fn empty_block_carries_the_ambient_indent() {
    let none: Vec<SyntaxNode> = Vec::new();
    assert_eq!(rendered(&Element::Node(block_fragment(&none, 0))), "{\n}");
    assert_eq!(rendered(&Element::Node(block_fragment(&none, 2))), "{\n        }");
}

#[test]
fn populated_block_puts_each_statement_one_level_deeper() {
    let stmt = SyntaxNode { kind: NodeKind::Expr, children: vec![tok(TokenKind::Text, "run()")] };
    let stmts = vec![stmt];
    assert_eq!(rendered(&Element::Node(block_fragment(&stmts, 0))), "{\n    run()\n}");
}

#[test]
fn conditional_and_statement_render_as_if_let() {
    let pat = placeholder_pat();
    let init = node(NodeKind::Expr, vec![tok(TokenKind::Text, "f()")]);
    let none: Vec<SyntaxNode> = Vec::new();
    let blk = block_fragment(&none, 1);
    let stmt = expr_statement(conditional(pat, init, blk));
    assert_eq!(rendered(&Element::Node(stmt)), "if let _ = f() {\n    }");
}

#[test]
fn first_placeholder_is_found_at_its_text_offset() {
    let pat = placeholder_pat();
    let init = node(NodeKind::Expr, vec![tok(TokenKind::Text, "f()")]);
    let none: Vec<SyntaxNode> = Vec::new();
    let blk = block_fragment(&none, 0);
    let frag = Element::Node(expr_statement(conditional(pat, init, blk)));
    let (path, rel) = find_placeholder(&frag).expect("fragment holds a placeholder");
    assert_eq!(rel, "if let ".len());
    let rep = node(NodeKind::BindPat, vec![tok(TokenKind::Ident, "value")]);
    let swapped = replace_at_path(&frag, &path, 0, &rep);
    assert_eq!(rendered(&swapped), "if let value = f() {\n}");
}

#[test]
fn token_without_placeholder_reports_none() {
    let e = tok(TokenKind::Text, "nothing here");
    assert!(find_placeholder(&e).is_none());
}

#[test]
fn splice_replaces_exactly_the_addressed_subtree() {
    let doc = node(
        NodeKind::SourceFile,
        vec![
            tok(TokenKind::Text, "before "),
            node(NodeKind::Expr, vec![tok(TokenKind::Text, "old")]),
            tok(TokenKind::Text, " after"),
        ],
    );
    let frag = node(NodeKind::Expr, vec![tok(TokenKind::Text, "new")]);
    let path = vec![1usize];
    let (newtree, edit) = replace(&doc, &path, &frag);
    assert_eq!(rendered(&newtree), "before new after");
    assert_eq!(edit.start, 7);
    assert_eq!(edit.removed, 3);
    assert_eq!(edit.replacement.iter().collect::<String>(), "new");
    assert!(edit.cursor.is_none());
    // The original tree is a value; it still renders unchanged.
    assert_eq!(rendered(&doc), "before old after");
}

#[test]
fn copy_and_length_agree_with_rendering() {
    let doc = node(
        NodeKind::SourceFile,
        vec![tok(TokenKind::Text, "abc"), node(NodeKind::Expr, vec![tok(TokenKind::Text, "def")])],
    );
    let copy = copy_elem(&doc);
    assert_eq!(rendered(&copy), "abcdef");
    assert_eq!(text_len(&doc), 6);
}

#[test]
fn site_finder_reports_the_statement_and_its_parts() {
    let stmt = node(
        NodeKind::LetStmt,
        vec![
            tok(TokenKind::LetKw, "let"),
            tok(TokenKind::Whitespace, " "),
            node(NodeKind::BindPat, vec![tok(TokenKind::Ident, "x")]),
            tok(TokenKind::Whitespace, " "),
            tok(TokenKind::Punct, "="),
            tok(TokenKind::Whitespace, " "),
            node(NodeKind::Expr, vec![tok(TokenKind::Text, "f()")]),
            tok(TokenKind::Punct, ";"),
        ],
    );
    let doc = node(NodeKind::SourceFile, vec![tok(TokenKind::Text, "fn m() { "), stmt,
        tok(TokenKind::Text, " }")]);
    let site = find_rewrite_site(&doc, 9).expect("site exists");
    assert_eq!(site.stmt_start, 9);
    assert_eq!(site.stmt_len, "let x = f();".len());
    assert_eq!(site.anchor_start, 9);
    assert_eq!(site.anchor_len, 3);
    assert_eq!(rendered(&site.pat), "x");
    assert_eq!(rendered(&site.init), "f()");
}
