// End-to-end tests of the rewrite, written in the style of the editor
// harness: the cursor position is marked with `<|>` in the before-text, the
// edit is applied to the text, and the marker is re-inserted at the returned
// cursor offset before comparing with the expected after-text.

use iflet_assist::assist::{replace_let_with_if_let, Assist};
use iflet_assist::classify::SumTypeLookup;
use iflet_assist::tree::{render, Element, NodeKind, SyntaxNode, Token, TokenKind};

fn chars(s: &str) -> Vec<char> {
    s.chars().collect()
}

fn tok(kind: TokenKind, s: &str) -> Element {
    Element::Tok(Token { kind, text: chars(s) })
}

fn node(kind: NodeKind, children: Vec<Element>) -> Element {
    Element::Node(SyntaxNode { kind, children })
}

/// A source file holding one `let <pat> = <init>;` statement between two
/// verbatim text runs.
fn let_doc(prefix: &str, pat: &str, init: &str, suffix: &str) -> Element {
    let stmt = node(
        NodeKind::LetStmt,
        vec![
            tok(TokenKind::LetKw, "let"),
            tok(TokenKind::Whitespace, " "),
            node(NodeKind::BindPat, vec![tok(TokenKind::Ident, pat)]),
            tok(TokenKind::Whitespace, " "),
            tok(TokenKind::Punct, "="),
            tok(TokenKind::Whitespace, " "),
            node(NodeKind::Expr, vec![tok(TokenKind::Text, init)]),
            tok(TokenKind::Punct, ";"),
        ],
    );
    node(
        NodeKind::SourceFile,
        vec![tok(TokenKind::Text, prefix), stmt, tok(TokenKind::Text, suffix)],
    )
}

fn apply_edit(text: &str, a: &Assist) -> (String, usize) {
    let cs: Vec<char> = text.chars().collect();
    let mut out: Vec<char> = Vec::new();
    out.extend_from_slice(&cs[..a.edit.start]);
    out.extend_from_slice(&a.edit.replacement);
    out.extend_from_slice(&cs[a.edit.start + a.edit.removed..]);
    (out.into_iter().collect(), a.edit.cursor.expect("cursor must be set"))
}

/// Runs the assist on a document built from the marked before-text and
/// compares the edited text, with the marker re-inserted at the returned
/// cursor, against the marked after-text.
fn check_rewrite(doc: &Element, before: &str, resolved: Option<SumTypeLookup>, after: &str) {
    let pos = before.find("<|>").expect("marker");
    let offset = before[..pos].chars().count();
    let plain: String = before.replace("<|>", "");
    let rendered: String = render(doc).into_iter().collect();
    assert_eq!(rendered, plain, "the document tree must render to the input text");
    let a = replace_let_with_if_let(doc, offset, resolved).expect("assist must apply");
    assert_eq!(a.id, "replace_let_with_if_let");
    assert_eq!(a.label, "Replace with if-let");
    let (edited, cursor) = apply_edit(&plain, &a);
    let mut with_marker: String = edited.chars().take(cursor).collect();
    with_marker.push_str("<|>");
    with_marker.push_str(&edited.chars().skip(cursor).collect::<String>());
    assert_eq!(with_marker, after);
}

#[test]
fn replace_let_unknown_enum() {
    let before = "
enum E<T> { X(T), Y(T) }

fn main() {
    <|>let x = E::X(92);
}
            ";
    let after = "
enum E<T> { X(T), Y(T) }

fn main() {
    if let <|>x = E::X(92) {
    }
}
            ";
    let doc = let_doc(
        "\nenum E<T> { X(T), Y(T) }\n\nfn main() {\n    ",
        "x",
        "E::X(92)",
        "\n}\n            ",
    );
    // The type resolves to a two-variant enum, but the registry cannot name
    // a canonical success variant, so classification is unrecognized.
    let resolved = Some(SumTypeLookup { variant_count: 2, success_variant: None });
    check_rewrite(&doc, before, resolved, after);
}

#[test]
fn replace_let_with_recognized_success_variant() {
    let before = "
fn main() {
    <|>let x = compute();
}
";
    let after = "
fn main() {
    if let Some(<|>x) = compute() {
    }
}
";
    let doc = let_doc("\nfn main() {\n    ", "x", "compute()", "\n}\n");
    let resolved =
        Some(SumTypeLookup { variant_count: 2, success_variant: Some("Some".chars().collect()) });
    check_rewrite(&doc, before, resolved, after);
}

#[test]
fn unresolved_type_still_applies_with_placeholder() {
    let before = "fn main() {\n    <|>let x = mystery();\n}\n";
    let after = "fn main() {\n    if let <|>x = mystery() {\n    }\n}\n";
    let doc = let_doc("fn main() {\n    ", "x", "mystery()", "\n}\n");
    check_rewrite(&doc, before, None, after);
}

#[test]
fn three_variant_type_is_unrecognized() {
    let before = "fn main() {\n    <|>let x = pick();\n}\n";
    let after = "fn main() {\n    if let <|>x = pick() {\n    }\n}\n";
    let doc = let_doc("fn main() {\n    ", "x", "pick()", "\n}\n");
    let resolved =
        Some(SumTypeLookup { variant_count: 3, success_variant: Some("Ok".chars().collect()) });
    check_rewrite(&doc, before, resolved, after);
}

#[test]
fn deeper_indentation_is_kept() {
    let before = "fn main() {\n    loop {\n        <|>let v = next();\n    }\n}\n";
    let after = "fn main() {\n    loop {\n        if let Ok(<|>v) = next() {\n        }\n    }\n}\n";
    let doc = let_doc("fn main() {\n    loop {\n        ", "v", "next()", "\n    }\n}\n");
    let resolved =
        Some(SumTypeLookup { variant_count: 2, success_variant: Some("Ok".chars().collect()) });
    check_rewrite(&doc, before, resolved, after);
}

#[test]
fn statement_after_code_on_the_same_line_gets_level_zero() {
    let before = "fn main() { <|>let x = f();}\n";
    let after = "fn main() { if let <|>x = f() {\n}}\n";
    let doc = let_doc("fn main() { ", "x", "f()", "}\n");
    check_rewrite(&doc, before, None, after);
}

#[test]
fn cursor_on_right_edge_of_let_keyword_still_anchors() {
    let plain = "fn main() {\n    let x = f();\n}\n";
    let doc = let_doc("fn main() {\n    ", "x", "f()", "\n}\n");
    let offset = plain.find("let").unwrap() + 3;
    let a = replace_let_with_if_let(&doc, offset, None).expect("assist must apply");
    assert_eq!(a.target_start, plain.find("let").unwrap());
    assert_eq!(a.target_len, 3);
}

#[test]
fn edit_describes_exactly_the_statement_range() {
    let plain = "fn main() {\n    let x = f();\n}\n";
    let doc = let_doc("fn main() {\n    ", "x", "f()", "\n}\n");
    let offset = plain.find("let").unwrap();
    let a = replace_let_with_if_let(&doc, offset, None).expect("assist must apply");
    assert_eq!(a.edit.start, offset);
    assert_eq!(a.edit.removed, "let x = f();".len());
    let replacement: String = a.edit.replacement.iter().collect();
    assert_eq!(replacement, "if let x = f() {\n    }");
    let cursor = a.edit.cursor.unwrap();
    assert!(a.edit.start <= cursor);
    assert!(cursor <= a.edit.start + a.edit.replacement.len());
    assert_eq!(cursor, offset + "if let ".len());
}

#[test]
fn no_let_token_under_cursor_is_not_applicable() {
    let doc = let_doc("fn main() {\n    ", "x", "f()", "\n}\n");
    // The cursor sits on the opening brace, far from the `let` keyword.
    assert!(replace_let_with_if_let(&doc, 10, None).is_none());
}

#[test]
fn let_token_without_enclosing_statement_is_not_applicable() {
    // A stray `let` keyword token that no let-binding statement encloses.
    let doc = node(
        NodeKind::SourceFile,
        vec![tok(TokenKind::Text, "// "), tok(TokenKind::LetKw, "let"), tok(TokenKind::Text, "\n")],
    );
    assert!(replace_let_with_if_let(&doc, 4, None).is_none());
}

#[test]
fn missing_initializer_is_not_applicable() {
    let stmt = node(
        NodeKind::LetStmt,
        vec![
            tok(TokenKind::LetKw, "let"),
            tok(TokenKind::Whitespace, " "),
            node(NodeKind::BindPat, vec![tok(TokenKind::Ident, "x")]),
            tok(TokenKind::Punct, ";"),
        ],
    );
    let doc = node(NodeKind::SourceFile, vec![tok(TokenKind::Text, "fn f() { "), stmt,
        tok(TokenKind::Text, " }")]);
    assert!(replace_let_with_if_let(&doc, 9, None).is_none());
}

#[test]
fn missing_pattern_is_not_applicable() {
    let stmt = node(
        NodeKind::LetStmt,
        vec![
            tok(TokenKind::LetKw, "let"),
            tok(TokenKind::Whitespace, " = "),
            node(NodeKind::Expr, vec![tok(TokenKind::Text, "f()")]),
            tok(TokenKind::Punct, ";"),
        ],
    );
    let doc = node(NodeKind::SourceFile, vec![tok(TokenKind::Text, "fn f() { "), stmt,
        tok(TokenKind::Text, " }")]);
    assert!(replace_let_with_if_let(&doc, 9, None).is_none());
}
