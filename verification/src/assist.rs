//! The assist protocol: one invocation either reports "not applicable" or
//! yields exactly one descriptor (identifier, label, applicability range)
//! together with exactly one edit whose cursor offset is expressed against
//! the original tree's coordinate space.

use vstd::prelude::*;

use crate::builder::{
    block_children, block_fragment, conditional, conditional_view, expr_statement, expr_stmt_view,
    placeholder_pat, placeholder_view, spaces, tok_view, tuple_pat_children, tuple_struct_pat,
    lemma_node_views_index, node_views,
};
use crate::classify::{classify, classify_spec, cls_len, Classification, ClassificationView,
    SumTypeLookup};
use crate::locate::{
    anc_depth, ancestor_of_kind, cat_child, find_child, find_token, lemma_anc_depth,
    lemma_cat_child, node_kind_at, tok_found, tok_path, walk_prefix, ChildCat,
};
use crate::splice::{find_placeholder, replace, replace_at_path, Edit};
use crate::tree::{
    children_view, copy_elem, elem_at, first_ph, lemma_children_view_index, lemma_first_ph,
    lemma_first_ph_at, lemma_replace_preserves_others, lemma_replace_text, lemma_subtree_text,
    lemma_texts_split, lemma_view_wf, ph_count, ph_counts, rel_start, render, replace_at,
    text_len, text_of, texts, Element, ElementView, NodeKind, SyntaxNode, TokenKind,
};

verus! {

// ---------------------------------------------------------------------------
// Indentation of the line a statement stands on.
// ---------------------------------------------------------------------------

/// Start of the line that position `pos` stands on: the position just after
/// the last newline before it.
pub open spec fn line_start(text: Seq<char>, pos: int) -> int
    decreases pos,
{
    if pos <= 0 {
        0
    } else if text[pos - 1] == '\n' {
        pos
    } else {
        line_start(text, pos - 1)
    }
}

/// Ambient indent level of the text position: a quarter of the spaces
/// between the line's start and the position, and zero when anything other
/// than spaces stands there.
pub open spec fn indent_level_spec(text: Seq<char>, pos: int) -> nat {
    let ls = line_start(text, pos);
    if forall|k: int| ls <= k < pos ==> text[k] == ' ' {
        ((pos - ls) / 4) as nat
    } else {
        0
    }
}

/// Computes the ambient indent level of position `pos` in `text`.
pub fn indent_level(text: &Vec<char>, pos: usize) -> (l: usize)
    requires
        pos <= text@.len(),
    ensures
        l == indent_level_spec(text@, pos as int),
{
    let mut j: usize = pos;
    let mut all: bool = true;
    while j > 0 && text[j - 1] != '\n'
        invariant
            j <= pos,
            pos <= text@.len(),
            line_start(text@, pos as int) == line_start(text@, j as int),
            all <==> (forall|k: int| j <= k < pos ==> text@[k] == ' '),
        decreases j,
    {
        let c = text[j - 1];
        let ghost oldall = all;
        all = all && c == ' ';
        proof {
            if all {
                assert forall|k: int| j - 1 <= k < pos implies text@[k] == ' ' by {
                    if k > j - 1 {
                    }
                }
            }
            if !all {
                if !oldall {
                    let ghost w = choose|k: int| j <= k < pos && text@[k] != ' ';
                    assert(j - 1 <= w < pos && text@[w] != ' ');
                } else {
                    assert(text@[j - 1] != ' ');
                }
            }
        }
        j = j - 1;
    }
    proof {
        if j > 0 {
            assert(text@[j - 1] == '\n');
            assert(line_start(text@, j as int) == j);
        }
        assert(line_start(text@, pos as int) == j);
    }
    if all {
        (pos - j) / 4
    } else {
        0
    }
}

// ---------------------------------------------------------------------------
// The rewrite's shape: the fragment built before substitution, and the text
// of the statement after the original pattern has been substituted in.
// ---------------------------------------------------------------------------

/// The match-pattern slot the builder chooses: a bare placeholder when the
/// initializer's type is unrecognized, the success variant applied to one
/// placeholder when it is recognized.
pub open spec fn slot_view(cls: ClassificationView) -> ElementView {
    match cls {
        ClassificationView::Unrecognized => placeholder_view(),
        ClassificationView::SuccessVariant(n) => ElementView::Node {
            kind: NodeKind::TupleStructPat,
            children: tuple_pat_children(n, seq![placeholder_view()]),
        },
    }
}

/// The empty block the rewrite synthesizes, at the ambient indent level.
pub open spec fn block_view(level: nat) -> ElementView {
    ElementView::Node { kind: NodeKind::BlockExpr, children: block_children(Seq::empty(), level) }
}

/// The whole statement fragment before substitution:
/// `if let <slot> = <init> { }`.
pub open spec fn frag_view(cls: ClassificationView, iv: ElementView, level: nat) -> ElementView {
    expr_stmt_view(conditional_view(slot_view(cls), iv, block_view(level)))
}

/// Rendered text of the match pattern after substitution: the original
/// pattern's text, wrapped in the success constructor when one was named.
pub open spec fn full_pat_text(cls: ClassificationView, patt: Seq<char>) -> Seq<char> {
    match cls {
        ClassificationView::Unrecognized => patt,
        ClassificationView::SuccessVariant(n) => n + seq!['('] + patt + seq![')'],
    }
}

/// Rendered text of the replacement statement, as a function of the slot's
/// rendered pattern, the initializer's text and the ambient indent level.
pub open spec fn rewrite_text(patslot: Seq<char>, initt: Seq<char>, level: nat) -> Seq<char> {
    seq!['i', 'f', ' ', 'l', 'e', 't', ' '] + patslot + seq![' ', '=', ' '] + initt + seq![
        ' ',
        '{',
        '\n',
    ] + spaces(4 * level) + seq!['}']
}

/// Where the cursor lands, relative to the replacement's start: at the start
/// of the substituted original pattern.
pub open spec fn cursor_rel(cls: ClassificationView) -> nat {
    7 + (match cls {
        ClassificationView::Unrecognized => 0nat,
        ClassificationView::SuccessVariant(n) => n.len() + 1,
    })
}

/// Everything the rewrite needs of the freshly built fragment: its text, how
/// many placeholders it holds, where the first one sits, and what replacing
/// it renders to.
#[verifier::rlimit(80)]
pub proof fn lemma_fragment(cls: ClassificationView, iv: ElementView, level: nat, rep: ElementView)
    ensures
        ({
            let frag = frag_view(cls, iv, level);
            let p = first_ph(frag);
            &&& ph_count(frag) == 1 + ph_count(iv)
            &&& text_of(frag) == rewrite_text(full_pat_text(cls, seq!['_']), text_of(iv), level)
            &&& elem_at(frag, p) == Some(placeholder_view())
            &&& rel_start(frag, p) == cursor_rel(cls)
            &&& text_of(replace_at(frag, p, rep)) == rewrite_text(
                full_pat_text(cls, text_of(rep)),
                text_of(iv),
                level,
            )
        }),
{
    let slot = slot_view(cls);
    let blk = block_view(level);
    let frag = frag_view(cls, iv, level);

    // Block: children are `{`, a newline with the ambient indent, `}`.
    let bc = block_children(Seq::empty(), level);
    let b0 = tok_view(TokenKind::Punct, seq!['{']);
    let b1 = tok_view(TokenKind::Whitespace, seq!['\n'] + spaces(4 * level));
    let b2 = tok_view(TokenKind::Punct, seq!['}']);
    assert(bc =~= seq![b0, b1, b2]);
    lemma_texts3(b0, b1, b2);
    lemma_ph3(b0, b1, b2);
    assert(text_of(blk) == seq!['{'] + (seq!['\n'] + spaces(4 * level)) + seq!['}']);
    assert(ph_count(blk) == 0);

    // The pattern slot.
    let pht = seq!['_'];
    lemma_texts1(tok_view(TokenKind::Underscore, pht));
    lemma_ph1(tok_view(TokenKind::Underscore, pht));
    assert(text_of(placeholder_view()) == pht);
    assert(ph_count(placeholder_view()) == 1);
    assert(first_ph(placeholder_view()) =~= Seq::<usize>::empty());
    let slot_rel: nat = match cls {
        ClassificationView::Unrecognized => 0nat,
        ClassificationView::SuccessVariant(n) => n.len() + 1,
    };
    let slot_text: Seq<char> = full_pat_text(cls, pht);
    match cls {
        ClassificationView::Unrecognized => {
            assert(slot == placeholder_view());
            assert(elem_at(slot, first_ph(slot)) == Some(placeholder_view()));
        },
        ClassificationView::SuccessVariant(n) => {
            let s0 = tok_view(TokenKind::Ident, n);
            let s1 = tok_view(TokenKind::Punct, seq!['(']);
            let s2 = placeholder_view();
            let s3 = tok_view(TokenKind::Punct, seq![')']);
            let sc = tuple_pat_children(n, seq![placeholder_view()]);
            assert(sc =~= seq![s0, s1, s2, s3]);
            lemma_texts4(s0, s1, s2, s3);
            lemma_ph4(s0, s1, s2, s3);
            assert(text_of(slot) =~= n + seq!['('] + pht + seq![')']);
            assert(ph_count(slot) == 1);
            assert(seq![s0, s1, s2, s3].take(2) =~= seq![s0, s1]);
            lemma_ph2(s0, s1);
            lemma_texts2(s0, s1);
            lemma_first_ph_at(slot, 2);
            assert(first_ph(slot) =~= seq![2usize]);
            assert(rel_start(slot, first_ph(slot)) == n.len() + 1);
            assert(elem_at(slot, first_ph(slot)) == elem_at(s2, Seq::<usize>::empty()));
        },
    }
    assert(ph_count(slot) == 1);
    assert(text_of(slot) == slot_text);
    assert(rel_start(slot, first_ph(slot)) == slot_rel);
    assert(elem_at(slot, first_ph(slot)) == Some(placeholder_view()));

    // The condition: `let <slot> = <iv>`.
    let c0 = tok_view(TokenKind::LetKw, seq!['l', 'e', 't']);
    let c1 = tok_view(TokenKind::Whitespace, seq![' ']);
    let c3 = tok_view(TokenKind::Whitespace, seq![' ']);
    let c4 = tok_view(TokenKind::Punct, seq!['=']);
    let c5 = tok_view(TokenKind::Whitespace, seq![' ']);
    let cond = ElementView::Node {
        kind: NodeKind::Condition,
        children: seq![c0, c1, slot, c3, c4, c5, iv],
    };
    lemma_texts7(c0, c1, slot, c3, c4, c5, iv);
    lemma_ph7(c0, c1, slot, c3, c4, c5, iv);
    assert(ph_count(cond) == 1 + ph_count(iv));
    assert(seq![c0, c1, slot, c3, c4, c5, iv].take(2) =~= seq![c0, c1]);
    lemma_ph2(c0, c1);
    lemma_texts2(c0, c1);
    lemma_first_ph_at(cond, 2);
    assert(first_ph(cond) =~= seq![2usize] + first_ph(slot));
    assert(rel_start(cond, first_ph(cond)) == 4 + slot_rel);
    assert(elem_at(cond, first_ph(cond)) == Some(placeholder_view()));

    // The conditional: `if <cond> <block>`.
    let i0 = tok_view(TokenKind::IfKw, seq!['i', 'f']);
    let i1 = tok_view(TokenKind::Whitespace, seq![' ']);
    let i3 = tok_view(TokenKind::Whitespace, seq![' ']);
    let ifv = conditional_view(slot, iv, blk);
    assert(ifv == ElementView::Node {
        kind: NodeKind::IfExpr,
        children: seq![i0, i1, cond, i3, blk],
    });
    lemma_texts5(i0, i1, cond, i3, blk);
    lemma_ph5(i0, i1, cond, i3, blk);
    assert(ph_count(ifv) == 1 + ph_count(iv));
    assert(seq![i0, i1, cond, i3, blk].take(2) =~= seq![i0, i1]);
    lemma_ph2(i0, i1);
    lemma_texts2(i0, i1);
    lemma_first_ph_at(ifv, 2);
    assert(first_ph(ifv) =~= seq![2usize] + first_ph(cond));
    assert(rel_start(ifv, first_ph(ifv)) == 7 + slot_rel);
    assert(elem_at(ifv, first_ph(ifv)) == Some(placeholder_view()));

    // The whole statement.
    assert(frag == (ElementView::Node { kind: NodeKind::ExprStmt, children: seq![ifv] }));
    lemma_texts1(ifv);
    lemma_ph1(ifv);
    assert(seq![ifv].take(0) =~= Seq::<ElementView>::empty());
    lemma_first_ph_at(frag, 0);
    let p = first_ph(frag);
    assert(p =~= seq![0usize] + first_ph(ifv));
    assert(rel_start(frag, p) == cursor_rel(cls));
    assert(elem_at(frag, p) == Some(placeholder_view()));
    assert(ph_count(frag) == 1 + ph_count(iv));

    // Texts compose into the closed rewrite form.
    let lit7 = seq!['i', 'f', ' ', 'l', 'e', 't', ' '];
    assert(text_of(cond) =~= seq!['l', 'e', 't', ' '] + slot_text + seq![' ', '=', ' ']
        + text_of(iv));
    assert(text_of(frag) == text_of(ifv));
    assert(text_of(frag) =~= rewrite_text(slot_text, text_of(iv), level));

    // Substituting `rep` for the placeholder rewrites exactly the slice the
    // placeholder occupied.
    lemma_replace_text(frag, p, rep);
    let ft = text_of(frag);
    let r = rel_start(frag, p);
    assert(text_of(replace_at(frag, p, rep)) == ft.take(r as int) + text_of(rep) + ft.skip(
        (r + 1) as int,
    ));
    assert(ft.take(cursor_rel(cls) as int) =~= lit7 + (match cls {
        ClassificationView::Unrecognized => Seq::<char>::empty(),
        ClassificationView::SuccessVariant(n) => n + seq!['('],
    }));
    assert(ft.skip((cursor_rel(cls) + 1) as int) =~= (match cls {
        ClassificationView::Unrecognized => Seq::<char>::empty(),
        ClassificationView::SuccessVariant(n) => seq![')'],
    }) + (seq![' ', '=', ' '] + text_of(iv) + seq![' ', '{', '\n'] + spaces(4 * level)
        + seq!['}']));
    assert(text_of(replace_at(frag, p, rep)) =~= rewrite_text(
        full_pat_text(cls, text_of(rep)),
        text_of(iv),
        level,
    ));
}

// Texts and placeholder counts of short literal child sequences.

proof fn lemma_texts1(a: ElementView)
    ensures
        texts(seq![a]) == text_of(a),
{
    assert(texts(Seq::<ElementView>::empty()) =~= Seq::<char>::empty());
    assert(seq![a].drop_last() =~= Seq::<ElementView>::empty());
    assert(texts(seq![a]) =~= text_of(a));
}

proof fn lemma_ph1(a: ElementView)
    ensures
        ph_counts(seq![a]) == ph_count(a),
{
    assert(ph_counts(Seq::<ElementView>::empty()) == 0);
    assert(seq![a].drop_last() =~= Seq::<ElementView>::empty());
}

proof fn lemma_texts2(a: ElementView, b: ElementView)
    ensures
        texts(seq![a, b]) == text_of(a) + text_of(b),
{
    lemma_texts1(a);
    assert(seq![a, b].drop_last() =~= seq![a]);
    assert(texts(seq![a, b]) =~= text_of(a) + text_of(b));
}

proof fn lemma_ph2(a: ElementView, b: ElementView)
    ensures
        ph_counts(seq![a, b]) == ph_count(a) + ph_count(b),
{
    lemma_ph1(a);
    assert(seq![a, b].drop_last() =~= seq![a]);
}

proof fn lemma_texts3(a: ElementView, b: ElementView, c: ElementView)
    ensures
        texts(seq![a, b, c]) == text_of(a) + text_of(b) + text_of(c),
{
    lemma_texts2(a, b);
    assert(seq![a, b, c].drop_last() =~= seq![a, b]);
    assert(texts(seq![a, b, c]) =~= text_of(a) + text_of(b) + text_of(c));
}

proof fn lemma_ph3(a: ElementView, b: ElementView, c: ElementView)
    ensures
        ph_counts(seq![a, b, c]) == ph_count(a) + ph_count(b) + ph_count(c),
{
    lemma_ph2(a, b);
    assert(seq![a, b, c].drop_last() =~= seq![a, b]);
}

proof fn lemma_texts4(a: ElementView, b: ElementView, c: ElementView, d: ElementView)
    ensures
        texts(seq![a, b, c, d]) == text_of(a) + text_of(b) + text_of(c) + text_of(d),
{
    lemma_texts3(a, b, c);
    assert(seq![a, b, c, d].drop_last() =~= seq![a, b, c]);
    assert(texts(seq![a, b, c, d]) =~= text_of(a) + text_of(b) + text_of(c) + text_of(d));
}

proof fn lemma_ph4(a: ElementView, b: ElementView, c: ElementView, d: ElementView)
    ensures
        ph_counts(seq![a, b, c, d]) == ph_count(a) + ph_count(b) + ph_count(c) + ph_count(d),
{
    lemma_ph3(a, b, c);
    assert(seq![a, b, c, d].drop_last() =~= seq![a, b, c]);
}

proof fn lemma_texts5(a: ElementView, b: ElementView, c: ElementView, d: ElementView,
    e: ElementView)
    ensures
        texts(seq![a, b, c, d, e]) == text_of(a) + text_of(b) + text_of(c) + text_of(d) + text_of(
            e,
        ),
{
    lemma_texts4(a, b, c, d);
    assert(seq![a, b, c, d, e].drop_last() =~= seq![a, b, c, d]);
    assert(texts(seq![a, b, c, d, e]) =~= text_of(a) + text_of(b) + text_of(c) + text_of(d)
        + text_of(e));
}

proof fn lemma_ph5(a: ElementView, b: ElementView, c: ElementView, d: ElementView, e: ElementView)
    ensures
        ph_counts(seq![a, b, c, d, e]) == ph_count(a) + ph_count(b) + ph_count(c) + ph_count(d)
            + ph_count(e),
{
    lemma_ph4(a, b, c, d);
    assert(seq![a, b, c, d, e].drop_last() =~= seq![a, b, c, d]);
}

proof fn lemma_texts7(a: ElementView, b: ElementView, c: ElementView, d: ElementView,
    e: ElementView, f: ElementView, g: ElementView)
    ensures
        texts(seq![a, b, c, d, e, f, g]) == text_of(a) + text_of(b) + text_of(c) + text_of(d)
            + text_of(e) + text_of(f) + text_of(g),
{
    lemma_texts5(a, b, c, d, e);
    assert(seq![a, b, c, d, e, f].drop_last() =~= seq![a, b, c, d, e]);
    assert(texts(seq![a, b, c, d, e, f]) =~= text_of(a) + text_of(b) + text_of(c) + text_of(d)
        + text_of(e) + text_of(f));
    assert(seq![a, b, c, d, e, f, g].drop_last() =~= seq![a, b, c, d, e, f]);
    assert(texts(seq![a, b, c, d, e, f, g]) =~= text_of(a) + text_of(b) + text_of(c) + text_of(d)
        + text_of(e) + text_of(f) + text_of(g));
}

proof fn lemma_ph7(a: ElementView, b: ElementView, c: ElementView, d: ElementView, e: ElementView,
    f: ElementView, g: ElementView)
    ensures
        ph_counts(seq![a, b, c, d, e, f, g]) == ph_count(a) + ph_count(b) + ph_count(c) + ph_count(
            d,
        ) + ph_count(e) + ph_count(f) + ph_count(g),
{
    lemma_ph5(a, b, c, d, e);
    assert(seq![a, b, c, d, e, f].drop_last() =~= seq![a, b, c, d, e]);
    assert(ph_counts(seq![a, b, c, d, e, f]) == ph_count(a) + ph_count(b) + ph_count(c) + ph_count(
        d,
    ) + ph_count(e) + ph_count(f));
    assert(seq![a, b, c, d, e, f, g].drop_last() =~= seq![a, b, c, d, e, f]);
}

// ---------------------------------------------------------------------------
// The pipeline's spec side: where the anchor and its let binding stand, and
// when the transformation is applicable.
// ---------------------------------------------------------------------------

/// Path to the anchor: the leftmost `let` keyword token touching the offset.
pub open spec fn anchor_path(v: ElementView, off: int) -> Seq<usize> {
    tok_path(v, off, TokenKind::LetKw)
}

/// Depth of the innermost let-binding statement enclosing the anchor.
pub open spec fn stmt_depth(v: ElementView, off: int) -> Option<int> {
    anc_depth(v, anchor_path(v, off), NodeKind::LetStmt, anchor_path(v, off).len() - 1)
}

/// Path to the let-binding statement to rewrite.
pub open spec fn stmt_path(v: ElementView, off: int) -> Seq<usize> {
    anchor_path(v, off).take(stmt_depth(v, off)->Some_0)
}

/// Children of the let-binding statement.
pub open spec fn stmt_children(v: ElementView, off: int) -> Seq<ElementView> {
    match elem_at(v, stmt_path(v, off)) {
        Some(ElementView::Node { children, .. }) => children,
        _ => Seq::empty(),
    }
}

/// The statement's binding pattern: its first pattern child.
pub open spec fn pat_view(v: ElementView, off: int) -> ElementView {
    stmt_children(v, off)[cat_child(stmt_children(v, off), ChildCat::Pat)->Some_0]
}

/// The statement's initializer: its first expression child.
pub open spec fn init_view(v: ElementView, off: int) -> ElementView {
    stmt_children(v, off)[cat_child(stmt_children(v, off), ChildCat::Expr)->Some_0]
}

/// The transformation applies exactly when a `let` keyword touches the
/// offset, an enclosing let-binding statement exists, and that statement has
/// both a pattern and an initializer. Every failure mode is this one
/// "not applicable" outcome; nothing is an error.
pub open spec fn applicable(v: ElementView, off: int) -> bool {
    &&& tok_found(v, off, TokenKind::LetKw)
    &&& stmt_depth(v, off) is Some
    &&& cat_child(stmt_children(v, off), ChildCat::Pat) is Some
    &&& cat_child(stmt_children(v, off), ChildCat::Expr) is Some
}

/// Ambient indent level of the statement being rewritten.
pub open spec fn rewrite_level(v: ElementView, off: int) -> nat {
    indent_level_spec(text_of(v), rel_start(v, stmt_path(v, off)) as int)
}

/// An anchored rewrite site: the let-binding statement's path, range and
/// ambient pieces, and copies of its binding pattern and initializer.
pub struct RewriteSite {
    pub stmt_path: Vec<usize>,
    pub stmt_start: usize,
    pub stmt_len: usize,
    pub anchor_start: usize,
    pub anchor_len: usize,
    pub pat: Element,
    pub init: Element,
}

/// Locates the rewrite site under the cursor: the `let` keyword touching the
/// offset, its innermost enclosing let-binding statement, and that
/// statement's pattern and initializer. Nothing is found exactly when the
/// transformation is not applicable there.
pub fn find_rewrite_site(root: &Element, offset: usize) -> (r: Option<RewriteSite>)
    requires
        text_of(root@).len() <= usize::MAX,
    ensures
        (r is Some) <==> applicable(root@, offset as int),
        r matches Some(s) ==> ({
            let off = offset as int;
            &&& s.stmt_path@ == stmt_path(root@, off)
            &&& s.stmt_start == rel_start(root@, stmt_path(root@, off))
            &&& s.stmt_len == texts(stmt_children(root@, off)).len()
            &&& s.anchor_start == rel_start(root@, anchor_path(root@, off))
            &&& (elem_at(root@, anchor_path(root@, off)) matches Some(u) && (u matches
                ElementView::Token { text, .. } && s.anchor_len == text.len()))
            &&& s.pat@ == pat_view(root@, off)
            &&& s.init@ == init_view(root@, off)
            &&& elem_at(root@, stmt_path(root@, off)) == Some(ElementView::Node {
                kind: NodeKind::LetStmt,
                children: stmt_children(root@, off),
            })
        }),
{
    let ghost off = offset as int;
    let fo = match find_token(root, 0, offset, TokenKind::LetKw) {
        Some(f) => f,
        None => {
            return None;
        },
    };
    proof {
        assert(offset - 0 == off);
        assert(fo.path@ == anchor_path(root@, off));
    }
    let j = match ancestor_of_kind(root, &fo.path, NodeKind::LetStmt) {
        Some(j) => j,
        None => {
            return None;
        },
    };
    proof {
        lemma_anc_depth(root@, fo.path@, NodeKind::LetStmt, fo.path@.len() - 1);
        assert(stmt_depth(root@, off) == Some(j as int));
        assert(node_kind_at(root@, fo.path@.take(j as int)) == Some(NodeKind::LetStmt));
    }
    let mut spv: Vec<usize> = Vec::new();
    let mut k: usize = 0;
    proof {
        assert(spv@ =~= fo.path@.take(0));
    }
    while k < j
        invariant
            k <= j,
            j < fo.path@.len(),
            spv@ == fo.path@.take(k as int),
        decreases j - k,
    {
        spv.push(fo.path[k]);
        proof {
            assert(fo.path@.take(k + 1) =~= fo.path@.take(k as int).push(fo.path@[k as int]));
        }
        k = k + 1;
    }
    let (stmt_el, stmt_start) = walk_prefix(root, &fo.path, j);
    proof {
        lemma_subtree_text(root@, fo.path@.take(j as int));
    }
    let stmt_len = text_len(stmt_el);
    match stmt_el {
        Element::Node(sn) => {
            let ghost cv = children_view(sn.children@);
            proof {
                assert(stmt_el@ == (ElementView::Node { kind: sn.kind, children: cv }));
                assert(stmt_children(root@, off) == cv);
            }
            let pi = match find_child(sn, ChildCat::Pat) {
                Some(i) => i,
                None => {
                    return None;
                },
            };
            let ei = match find_child(sn, ChildCat::Expr) {
                Some(i) => i,
                None => {
                    return None;
                },
            };
            let pat = copy_elem(&sn.children[pi]);
            let init = copy_elem(&sn.children[ei]);
            proof {
                lemma_children_view_index(sn.children@, pi as int);
                lemma_children_view_index(sn.children@, ei as int);
            }
            Some(
                RewriteSite {
                    stmt_path: spv,
                    stmt_start,
                    stmt_len,
                    anchor_start: fo.start,
                    anchor_len: fo.length,
                    pat,
                    init,
                },
            )
        },
        Element::Tok(_) => {
            proof {
                assert(false);
            }
            None
        },
    }
}

// ---------------------------------------------------------------------------
// The assist itself.
// ---------------------------------------------------------------------------

/// A produced assist: a stable identifier, a human-readable label, the
/// applicability range (the anchor token's range in the original text), and
/// exactly one edit.
pub struct Assist {
    pub id: &'static str,
    pub label: &'static str,
    pub target_start: usize,
    pub target_len: usize,
    pub edit: Edit,
}

/// Replaces the `let` binding under the cursor with an `if let` conditional.
///
/// `resolved` is what the external type-resolution and registry
/// collaborators report about the initializer's static type; callers obtain
/// the initializer first through `find_rewrite_site`. Whatever they report
/// only shapes the synthesized pattern — it never decides applicability.
pub fn replace_let_with_if_let(
    root: &Element,
    offset: usize,
    resolved: Option<SumTypeLookup>,
) -> (r: Option<Assist>)
    requires
        2 * text_of(root@).len() + cls_len(classify_spec(resolved)) + 32 <= usize::MAX,
    ensures
        (r is Some) <==> applicable(root@, offset as int),
        r matches Some(a) ==> ({
            let off = offset as int;
            let cls = classify_spec(resolved);
            let patt = text_of(pat_view(root@, off));
            let initt = text_of(init_view(root@, off));
            let lvl = rewrite_level(root@, off);
            &&& a.edit.start == rel_start(root@, stmt_path(root@, off))
            &&& a.edit.removed == texts(stmt_children(root@, off)).len()
            &&& a.edit.replacement@ == rewrite_text(full_pat_text(cls, patt), initt, lvl)
            &&& a.edit.cursor matches Some(c) && c == rel_start(root@, stmt_path(root@, off))
                + cursor_rel(cls)
            &&& a.target_start == rel_start(root@, anchor_path(root@, off))
            &&& (elem_at(root@, anchor_path(root@, off)) matches Some(u) && (u matches
                ElementView::Token { text, .. } && a.target_len == text.len()))
            &&& a.id@ == "replace_let_with_if_let"@
            &&& a.label@ == "Replace with if-let"@
        }),
{
    let ghost off = offset as int;
    let site = match find_rewrite_site(root, offset) {
        Some(s) => s,
        None => {
            return None;
        },
    };
    let RewriteSite { stmt_path: spv, stmt_start, stmt_len, anchor_start, anchor_len, pat, init } =
        site;
    let ghost iv = init@;
    let ghost patv = pat@;
    let ghost clsv = classify_spec(resolved);
    let cls = classify(resolved);
    let doc = render(root);
    proof {
        lemma_subtree_text(root@, stmt_path(root@, off));
    }
    let lvl = indent_level(&doc, stmt_start);
    proof {
        lemma_indent_level_bound(doc@, stmt_start as int);
    }
    let slot: SyntaxNode = match &cls {
        Classification::Unrecognized => placeholder_pat(),
        Classification::SuccessVariant(name) => {
            let mut subs: Vec<SyntaxNode> = Vec::new();
            subs.push(placeholder_pat());
            proof {
                lemma_node_views_index(subs@, 0);
                assert(node_views(subs@) =~= seq![placeholder_view()]);
            }
            tuple_struct_pat(name, &subs)
        },
    };
    proof {
        assert(slot@ == slot_view(clsv));
    }
    let empty_stmts: Vec<SyntaxNode> = Vec::new();
    let blk = block_fragment(&empty_stmts, lvl);
    proof {
        assert(node_views(empty_stmts@) =~= Seq::<ElementView>::empty());
        assert(blk@ == block_view(lvl as nat));
    }
    let cond = conditional(slot, init, blk);
    let stmt = expr_statement(cond);
    let frag = Element::Node(stmt);
    proof {
        assert(frag@ == frag_view(clsv, iv, lvl as nat));
        lemma_fragment(clsv, iv, lvl as nat, patv);
        let sc = stmt_children(root@, off);
        let ei = cat_child(sc, ChildCat::Expr)->Some_0;
        lemma_cat_child(sc, ChildCat::Expr);
        lemma_texts_split(sc, ei);
    }
    let pr = match find_placeholder(&frag) {
        Some(pr) => pr,
        None => {
            proof {
                assert(false);
            }
            return None;
        },
    };
    let (php, prel) = pr;
    proof {
        lemma_view_wf(frag);
        lemma_first_ph(frag@);
        assert(php@.skip(0) =~= php@);
    }
    let newfrag = replace_at_path(&frag, &php, 0, &pat);
    let (_newtree, edit0) = replace(root, &spv, &newfrag);
    let cursor = stmt_start + prel;
    let mut edit = edit0;
    edit.cursor = Some(cursor);
    Some(
        Assist {
            id: "replace_let_with_if_let",
            label: "Replace with if-let",
            target_start: anchor_start,
            target_len: anchor_len,
            edit,
        },
    )
}

/// The computed indent level never exceeds a quarter of the position.
proof fn lemma_indent_level_bound(text: Seq<char>, pos: int)
    requires
        0 <= pos,
    ensures
        4 * indent_level_spec(text, pos) <= pos,
{
    lemma_line_start_bounds(text, pos);
}

proof fn lemma_line_start_bounds(text: Seq<char>, pos: int)
    requires
        0 <= pos,
    ensures
        0 <= line_start(text, pos) <= pos,
    decreases pos,
{
    if pos > 0 && text[pos - 1] != '\n' {
        lemma_line_start_bounds(text, pos - 1);
    }
}

// ---------------------------------------------------------------------------
// Laws of the rewrite.
// ---------------------------------------------------------------------------

/// Pattern-choice law: when the initializer's type is unrecognized the
/// synthesized match-pattern is the bare placeholder; when a success variant
/// is named, it is exactly that variant applied to one placeholder
/// sub-pattern. The synthesized block is always empty: a brace pair around
/// nothing but the indentation whitespace.
pub proof fn lemma_pattern_shape(cls: ClassificationView, level: nat)
    ensures
        cls is Unrecognized ==> slot_view(cls) == placeholder_view(),
        cls matches ClassificationView::SuccessVariant(n) ==> slot_view(cls)
            == (ElementView::Node {
            kind: NodeKind::TupleStructPat,
            children: tuple_pat_children(n, seq![placeholder_view()]),
        }),
        block_view(level) == (ElementView::Node {
            kind: NodeKind::BlockExpr,
            children: seq![
                tok_view(TokenKind::Punct, seq!['{']),
                tok_view(TokenKind::Whitespace, seq!['\n'] + spaces(4 * level)),
                tok_view(TokenKind::Punct, seq!['}']),
            ],
        }),
{
    assert(block_children(Seq::empty(), level) =~= seq![
        tok_view(TokenKind::Punct, seq!['{']),
        tok_view(TokenKind::Whitespace, seq!['\n'] + spaces(4 * level)),
        tok_view(TokenKind::Punct, seq!['}']),
    ]);
}

/// Substitution law: with a placeholder-free initializer the freshly built
/// fragment holds exactly one placeholder, substitution at its path reaches
/// that placeholder, and every node off that path is untouched.
pub proof fn lemma_substitution_untouched(
    cls: ClassificationView,
    iv: ElementView,
    level: nat,
    rep: ElementView,
    q: Seq<usize>,
)
    requires
        ph_count(iv) == 0,
        !first_ph(frag_view(cls, iv, level)).is_prefix_of(q),
        !q.is_prefix_of(first_ph(frag_view(cls, iv, level))),
    ensures
        ph_count(frag_view(cls, iv, level)) == 1,
        elem_at(frag_view(cls, iv, level), first_ph(frag_view(cls, iv, level))) == Some(
            placeholder_view(),
        ),
        elem_at(
            replace_at(frag_view(cls, iv, level), first_ph(frag_view(cls, iv, level)), rep),
            q,
        ) == elem_at(frag_view(cls, iv, level), q),
{
    lemma_fragment(cls, iv, level, rep);
    lemma_replace_preserves_others(
        frag_view(cls, iv, level),
        first_ph(frag_view(cls, iv, level)),
        rep,
        q,
    );
}

/// Cursor-offset soundness law: relative to the replacement's start, the
/// cursor offset lies within the replacement text and points exactly at the
/// substituted original pattern's new occurrence.
pub proof fn lemma_cursor_offset_sound(
    cls: ClassificationView,
    patt: Seq<char>,
    initt: Seq<char>,
    level: nat,
)
    ensures
        ({
            let rt = rewrite_text(full_pat_text(cls, patt), initt, level);
            &&& cursor_rel(cls) + patt.len() <= rt.len()
            &&& rt.subrange(cursor_rel(cls) as int, (cursor_rel(cls) + patt.len()) as int) == patt
        }),
{
    let rt = rewrite_text(full_pat_text(cls, patt), initt, level);
    assert(rt.subrange(cursor_rel(cls) as int, (cursor_rel(cls) + patt.len()) as int) =~= patt);
}

} // verus!
