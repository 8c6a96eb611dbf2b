//! The fragment builder: primitive constructors for the tree fragments the
//! rewrite needs — placeholder patterns, tuple-constructor patterns, blocks,
//! `if let` conditionals and expression statements. Builders are pure: the
//! same logical inputs give structurally identical fragments, and indentation
//! is an explicit parameter supplied by the caller.

use vstd::prelude::*;

use crate::tree::{
    children_view, copy_chars, copy_node, elem_view, lemma_children_view_index,
    lemma_children_view_push, Element, ElementView, NodeKind, SyntaxNode, Token, TokenKind,
};

verus! {

/// View of a token element.
pub open spec fn tok_view(k: TokenKind, t: Seq<char>) -> ElementView {
    ElementView::Token { kind: k, text: t }
}

/// View of the placeholder pattern: a node holding the single `_` token.
pub open spec fn placeholder_view() -> ElementView {
    ElementView::Node {
        kind: NodeKind::PlaceholderPat,
        children: seq![tok_view(TokenKind::Underscore, seq!['_'])],
    }
}

/// `n` spaces.
pub open spec fn spaces(n: nat) -> Seq<char> {
    Seq::new(n, |i: int| ' ')
}

/// Views of a sequence of nodes.
pub open spec fn node_views(s: Seq<SyntaxNode>) -> Seq<ElementView>
    decreases s,
{
    if s.len() == 0 {
        Seq::empty()
    } else {
        node_views(s.drop_last()).push(s.last()@)
    }
}

pub proof fn lemma_node_views_index(s: Seq<SyntaxNode>, i: int)
    requires
        0 <= i < s.len(),
    ensures
        node_views(s).len() == s.len(),
        node_views(s)[i] == s[i]@,
    decreases s.len(),
{
    lemma_node_views_len(s);
    if i < s.len() - 1 {
        lemma_node_views_index(s.drop_last(), i);
    }
}

pub proof fn lemma_node_views_len(s: Seq<SyntaxNode>)
    ensures
        node_views(s).len() == s.len(),
    decreases s.len(),
{
    if s.len() > 0 {
        lemma_node_views_len(s.drop_last());
    }
}

/// Sub-patterns of a tuple pattern, interleaved with `", "` separators.
pub open spec fn pats_interleaved(pats: Seq<ElementView>) -> Seq<ElementView>
    decreases pats.len(),
{
    if pats.len() == 0 {
        Seq::empty()
    } else if pats.len() == 1 {
        seq![pats[0]]
    } else {
        pats_interleaved(pats.drop_last()) + seq![
            tok_view(TokenKind::Punct, seq![',']),
            tok_view(TokenKind::Whitespace, seq![' ']),
            pats.last(),
        ]
    }
}

/// Children of a tuple-constructor pattern `Name(a, b, ...)`.
pub open spec fn tuple_pat_children(name: Seq<char>, pats: Seq<ElementView>) -> Seq<ElementView> {
    seq![tok_view(TokenKind::Ident, name), tok_view(TokenKind::Punct, seq!['('])]
        + pats_interleaved(pats) + seq![tok_view(TokenKind::Punct, seq![')'])]
}

/// Children of a block `{ ... }` whose statements each stand on their own
/// line one level deeper, with the closing brace at the ambient level.
pub open spec fn block_children(stmts: Seq<ElementView>, level: nat) -> Seq<ElementView> {
    seq![tok_view(TokenKind::Punct, seq!['{'])] + block_lines(stmts, level) + seq![
        tok_view(TokenKind::Whitespace, seq!['\n'] + spaces(4 * level)),
        tok_view(TokenKind::Punct, seq!['}']),
    ]
}

pub open spec fn block_lines(stmts: Seq<ElementView>, level: nat) -> Seq<ElementView>
    decreases stmts.len(),
{
    if stmts.len() == 0 {
        Seq::empty()
    } else {
        block_lines(stmts.drop_last(), level) + seq![
            tok_view(TokenKind::Whitespace, seq!['\n'] + spaces(4 * (level + 1))),
            stmts.last(),
        ]
    }
}

/// View of the conditional `if let <pat> = <scrutinee> <block>`.
pub open spec fn conditional_view(
    patv: ElementView,
    scrutv: ElementView,
    blockv: ElementView,
) -> ElementView {
    ElementView::Node {
        kind: NodeKind::IfExpr,
        children: seq![
            tok_view(TokenKind::IfKw, seq!['i', 'f']),
            tok_view(TokenKind::Whitespace, seq![' ']),
            ElementView::Node {
                kind: NodeKind::Condition,
                children: seq![
                    tok_view(TokenKind::LetKw, seq!['l', 'e', 't']),
                    tok_view(TokenKind::Whitespace, seq![' ']),
                    patv,
                    tok_view(TokenKind::Whitespace, seq![' ']),
                    tok_view(TokenKind::Punct, seq!['=']),
                    tok_view(TokenKind::Whitespace, seq![' ']),
                    scrutv,
                ],
            },
            tok_view(TokenKind::Whitespace, seq![' ']),
            blockv,
        ],
    }
}

/// View of a statement wrapping one expression.
pub open spec fn expr_stmt_view(ev: ElementView) -> ElementView {
    ElementView::Node { kind: NodeKind::ExprStmt, children: seq![ev] }
}

// ---------------------------------------------------------------------------
// Executable constructors.
// ---------------------------------------------------------------------------

fn tok1(k: TokenKind, a: char) -> (e: Element)
    ensures
        e@ == tok_view(k, seq![a]),
{
    let mut v: Vec<char> = Vec::new();
    v.push(a);
    proof {
        assert(v@ =~= seq![a]);
    }
    Element::Tok(Token { kind: k, text: v })
}

fn tok2(k: TokenKind, a: char, b: char) -> (e: Element)
    ensures
        e@ == tok_view(k, seq![a, b]),
{
    let mut v: Vec<char> = Vec::new();
    v.push(a);
    v.push(b);
    proof {
        assert(v@ =~= seq![a, b]);
    }
    Element::Tok(Token { kind: k, text: v })
}

fn tok3(k: TokenKind, a: char, b: char, c: char) -> (e: Element)
    ensures
        e@ == tok_view(k, seq![a, b, c]),
{
    let mut v: Vec<char> = Vec::new();
    v.push(a);
    v.push(b);
    v.push(c);
    proof {
        assert(v@ =~= seq![a, b, c]);
    }
    Element::Tok(Token { kind: k, text: v })
}

/// A whitespace token holding a newline and `4 * level` spaces.
fn ws_indent(level: usize) -> (e: Element)
    requires
        4 * level < usize::MAX,
    ensures
        e@ == tok_view(TokenKind::Whitespace, seq!['\n'] + spaces(4 * level as nat)),
{
    let mut v: Vec<char> = Vec::new();
    v.push('\n');
    proof {
        assert(v@ =~= seq!['\n'] + spaces(0));
    }
    let total: usize = 4 * level;
    let mut j: usize = 0;
    while j < total
        invariant
            j <= total,
            v@ == seq!['\n'] + spaces(j as nat),
        decreases total - j,
    {
        v.push(' ');
        proof {
            assert(seq!['\n'] + spaces((j + 1) as nat) =~= (seq!['\n'] + spaces(j as nat)).push(
                ' ',
            ));
        }
        j = j + 1;
    }
    Element::Tok(Token { kind: TokenKind::Whitespace, text: v })
}

/// A pattern matching anything and binding nothing.
pub fn placeholder_pat() -> (p: SyntaxNode)
    ensures
        p@ == placeholder_view(),
{
    let mut cs: Vec<Element> = Vec::new();
    cs.push(tok1(TokenKind::Underscore, '_'));
    proof {
        lemma_children_view_index(cs@, 0);
        assert(children_view(cs@) =~= seq![tok_view(TokenKind::Underscore, seq!['_'])]);
    }
    SyntaxNode { kind: NodeKind::PlaceholderPat, children: cs }
}

/// A pattern matching the named constructor applied to the sub-patterns, in
/// order.
pub fn tuple_struct_pat(name: &Vec<char>, subs: &Vec<SyntaxNode>) -> (p: SyntaxNode)
    ensures
        p@ == (ElementView::Node {
            kind: NodeKind::TupleStructPat,
            children: tuple_pat_children(name@, node_views(subs@)),
        }),
{
    let ghost nv = node_views(subs@);
    proof {
        lemma_node_views_len(subs@);
    }
    let mut cs: Vec<Element> = Vec::new();
    cs.push(Element::Tok(Token { kind: TokenKind::Ident, text: copy_chars(name) }));
    cs.push(tok1(TokenKind::Punct, '('));
    let ghost head = seq![tok_view(TokenKind::Ident, name@), tok_view(TokenKind::Punct, seq!['('])];
    proof {
        lemma_children_view_index(cs@, 0);
        lemma_children_view_index(cs@, 1);
        assert(children_view(cs@) =~= head + pats_interleaved(nv.take(0)));
    }
    let mut i: usize = 0;
    while i < subs.len()
        invariant
            i <= subs.len(),
            nv == node_views(subs@),
            nv.len() == subs@.len(),
            children_view(cs@) == head + pats_interleaved(nv.take(i as int)),
        decreases subs.len() - i,
    {
        proof {
            lemma_node_views_index(subs@, i as int);
        }
        if i > 0 {
            let t1 = tok1(TokenKind::Punct, ',');
            let ghost te1 = t1;
            let ghost c0 = cs@;
            cs.push(t1);
            let t2 = tok1(TokenKind::Whitespace, ' ');
            let ghost te2 = t2;
            let ghost c1 = cs@;
            cs.push(t2);
            let sub = Element::Node(copy_node(&subs[i]));
            let ghost se = sub;
            let ghost c2 = cs@;
            cs.push(sub);
            proof {
                lemma_children_view_push(c0, te1);
                lemma_children_view_push(c1, te2);
                lemma_children_view_push(c2, se);
                assert(elem_view(se) == nv[i as int]);
                assert(nv.take(i + 1).drop_last() =~= nv.take(i as int));
                assert(nv.take(i + 1).len() >= 2);
                assert(pats_interleaved(nv.take(i + 1)) == pats_interleaved(nv.take(i as int))
                    + seq![
                    tok_view(TokenKind::Punct, seq![',']),
                    tok_view(TokenKind::Whitespace, seq![' ']),
                    nv[i as int],
                ]);
                assert(children_view(cs@) =~= head + pats_interleaved(nv.take(i + 1)));
            }
        } else {
            let sub = Element::Node(copy_node(&subs[i]));
            let ghost se = sub;
            let ghost c0 = cs@;
            cs.push(sub);
            proof {
                lemma_children_view_push(c0, se);
                assert(elem_view(se) == nv[i as int]);
                assert(nv.take(1) =~= seq![nv[0]]);
                assert(pats_interleaved(nv.take(1)) == seq![nv[0]]);
                assert(children_view(cs@) =~= head + pats_interleaved(nv.take(i + 1)));
            }
        }
        i = i + 1;
    }
    let tend = tok1(TokenKind::Punct, ')');
    let ghost teend = tend;
    let ghost cend = cs@;
    cs.push(tend);
    proof {
        lemma_children_view_push(cend, teend);
        assert(nv.take(nv.len() as int) =~= nv);
        assert(children_view(cs@) =~= tuple_pat_children(name@, nv));
    }
    SyntaxNode { kind: NodeKind::TupleStructPat, children: cs }
}

/// An empty or populated block fragment; each statement stands on its own
/// line one indent level deeper than the ambient `level`, and the closing
/// brace returns to the ambient level.
pub fn block_fragment(stmts: &Vec<SyntaxNode>, level: usize) -> (b: SyntaxNode)
    requires
        4 * level + 4 < usize::MAX,
    ensures
        b@ == (ElementView::Node {
            kind: NodeKind::BlockExpr,
            children: block_children(node_views(stmts@), level as nat),
        }),
{
    let ghost nv = node_views(stmts@);
    proof {
        lemma_node_views_len(stmts@);
    }
    let mut cs: Vec<Element> = Vec::new();
    cs.push(tok1(TokenKind::Punct, '{'));
    let ghost head = seq![tok_view(TokenKind::Punct, seq!['{'])];
    proof {
        lemma_children_view_index(cs@, 0);
        assert(children_view(cs@) =~= head + block_lines(nv.take(0), level as nat));
    }
    let mut i: usize = 0;
    while i < stmts.len()
        invariant
            i <= stmts.len(),
            4 * level + 4 < usize::MAX,
            nv == node_views(stmts@),
            nv.len() == stmts@.len(),
            children_view(cs@) == head + block_lines(nv.take(i as int), level as nat),
        decreases stmts.len() - i,
    {
        proof {
            lemma_node_views_index(stmts@, i as int);
        }
        let w = ws_indent(level + 1);
        let ghost we = w;
        let ghost c0 = cs@;
        cs.push(w);
        let sub = Element::Node(copy_node(&stmts[i]));
        let ghost se = sub;
        let ghost c1 = cs@;
        cs.push(sub);
        proof {
            lemma_children_view_push(c0, we);
            lemma_children_view_push(c1, se);
            assert(elem_view(se) == nv[i as int]);
            assert(nv.take(i + 1).drop_last() =~= nv.take(i as int));
            assert(block_lines(nv.take(i + 1), level as nat) == block_lines(
                nv.take(i as int),
                level as nat,
            ) + seq![
                tok_view(TokenKind::Whitespace, seq!['\n'] + spaces(4 * (level as nat + 1))),
                nv[i as int],
            ]);
            assert(children_view(cs@) =~= head + block_lines(nv.take(i + 1), level as nat));
        }
        i = i + 1;
    }
    let w2 = ws_indent(level);
    let ghost we2 = w2;
    let ghost b1 = cs@;
    cs.push(w2);
    let t3 = tok1(TokenKind::Punct, '}');
    let ghost te3 = t3;
    let ghost b2 = cs@;
    cs.push(t3);
    proof {
        lemma_children_view_push(b1, we2);
        lemma_children_view_push(b2, te3);
        assert(nv.take(nv.len() as int) =~= nv);
        assert(children_view(cs@) =~= block_children(nv, level as nat));
    }
    SyntaxNode { kind: NodeKind::BlockExpr, children: cs }
}

/// The conditional `if let <pat> = <scrutinee> <block>`.
pub fn conditional(pat: SyntaxNode, scrutinee: Element, then_block: SyntaxNode) -> (c: SyntaxNode)
    ensures
        c@ == conditional_view(pat@, scrutinee@, then_block@),
{
    let ghost patv = pat@;
    let ghost scrutv = scrutinee@;
    let ghost blockv = then_block@;
    let mut cond: Vec<Element> = Vec::new();
    cond.push(tok3(TokenKind::LetKw, 'l', 'e', 't'));
    cond.push(tok1(TokenKind::Whitespace, ' '));
    cond.push(Element::Node(pat));
    cond.push(tok1(TokenKind::Whitespace, ' '));
    cond.push(tok1(TokenKind::Punct, '='));
    cond.push(tok1(TokenKind::Whitespace, ' '));
    cond.push(scrutinee);
    proof {
        lemma_children_view_index(cond@, 0);
        lemma_children_view_index(cond@, 1);
        lemma_children_view_index(cond@, 2);
        lemma_children_view_index(cond@, 3);
        lemma_children_view_index(cond@, 4);
        lemma_children_view_index(cond@, 5);
        lemma_children_view_index(cond@, 6);
        assert(children_view(cond@) =~= seq![
            tok_view(TokenKind::LetKw, seq!['l', 'e', 't']),
            tok_view(TokenKind::Whitespace, seq![' ']),
            patv,
            tok_view(TokenKind::Whitespace, seq![' ']),
            tok_view(TokenKind::Punct, seq!['=']),
            tok_view(TokenKind::Whitespace, seq![' ']),
            scrutv,
        ]);
    }
    let cond_node = SyntaxNode { kind: NodeKind::Condition, children: cond };
    let ghost condv = cond_node@;
    let mut cs: Vec<Element> = Vec::new();
    cs.push(tok2(TokenKind::IfKw, 'i', 'f'));
    cs.push(tok1(TokenKind::Whitespace, ' '));
    cs.push(Element::Node(cond_node));
    cs.push(tok1(TokenKind::Whitespace, ' '));
    cs.push(Element::Node(then_block));
    proof {
        lemma_children_view_index(cs@, 0);
        lemma_children_view_index(cs@, 1);
        lemma_children_view_index(cs@, 2);
        lemma_children_view_index(cs@, 3);
        lemma_children_view_index(cs@, 4);
        assert(children_view(cs@) =~= seq![
            tok_view(TokenKind::IfKw, seq!['i', 'f']),
            tok_view(TokenKind::Whitespace, seq![' ']),
            condv,
            tok_view(TokenKind::Whitespace, seq![' ']),
            blockv,
        ]);
    }
    SyntaxNode { kind: NodeKind::IfExpr, children: cs }
}

/// Wraps an expression fragment as a statement.
pub fn expr_statement(e: SyntaxNode) -> (s: SyntaxNode)
    ensures
        s@ == expr_stmt_view(e@),
{
    let ghost ev = e@;
    let mut cs: Vec<Element> = Vec::new();
    cs.push(Element::Node(e));
    proof {
        lemma_children_view_index(cs@, 0);
        assert(children_view(cs@) =~= seq![ev]);
    }
    SyntaxNode { kind: NodeKind::ExprStmt, children: cs }
}

} // verus!
