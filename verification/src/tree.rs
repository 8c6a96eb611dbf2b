//! The syntax-tree value: immutable tokens and nodes, their mathematical
//! model, and the spec functions that the rest of the library's contracts
//! are stated over (rendered text, paths, subtree replacement, placeholder
//! occurrences).

use vstd::prelude::*;

verus! {

/// Lexical category of a token.
#[derive(Clone, Copy, PartialEq, Eq, Structural, Debug)]
pub enum TokenKind {
    LetKw,
    IfKw,
    Underscore,
    Whitespace,
    Punct,
    Ident,
    Text,
}

/// Syntactic category of a node.
#[derive(Clone, Copy, PartialEq, Eq, Structural, Debug)]
pub enum NodeKind {
    SourceFile,
    LetStmt,
    ExprStmt,
    IfExpr,
    Condition,
    BlockExpr,
    BindPat,
    PlaceholderPat,
    TupleStructPat,
    Expr,
}

/// Smallest lexical unit: a kind and the text it covers.
pub struct Token {
    pub kind: TokenKind,
    pub text: Vec<char>,
}

/// An interior node: a kind and an ordered list of children.
pub struct SyntaxNode {
    pub kind: NodeKind,
    pub children: Vec<Element>,
}

/// One element of a syntax tree: a leaf token or an interior node.
pub enum Element {
    Tok(Token),
    Node(SyntaxNode),
}

/// Mathematical model of a tree element.
pub enum ElementView {
    Token { kind: TokenKind, text: Seq<char> },
    Node { kind: NodeKind, children: Seq<ElementView> },
}

pub open spec fn elem_view(e: Element) -> ElementView
    decreases e,
{
    match e {
        Element::Tok(t) => ElementView::Token { kind: t.kind, text: t.text@ },
        Element::Node(n) => ElementView::Node { kind: n.kind, children: children_view(n.children@) },
    }
}

pub open spec fn children_view(s: Seq<Element>) -> Seq<ElementView>
    decreases s,
{
    if s.len() == 0 {
        Seq::empty()
    } else {
        children_view(s.drop_last()).push(elem_view(s.last()))
    }
}

impl View for Element {
    type V = ElementView;

    open spec fn view(&self) -> ElementView {
        elem_view(*self)
    }
}

impl View for SyntaxNode {
    type V = ElementView;

    open spec fn view(&self) -> ElementView {
        ElementView::Node { kind: self.kind, children: children_view(self.children@) }
    }
}

/// The text an element renders to: a token's own text, or the concatenation
/// of the texts of a node's children, in order.
pub open spec fn text_of(v: ElementView) -> Seq<char>
    decreases v,
{
    match v {
        ElementView::Token { text, .. } => text,
        ElementView::Node { children, .. } => texts(children),
    }
}

pub open spec fn texts(s: Seq<ElementView>) -> Seq<char>
    decreases s,
{
    if s.len() == 0 {
        Seq::empty()
    } else {
        texts(s.drop_last()) + text_of(s.last())
    }
}

/// Well-formed view: every node has at most `usize::MAX` children, so child
/// indices fit the machine. Every view of an executable tree is well formed.
pub open spec fn wf(v: ElementView) -> bool
    decreases v,
{
    match v {
        ElementView::Token { .. } => true,
        ElementView::Node { children, .. } => children.len() <= usize::MAX && wf_seq(children),
    }
}

pub open spec fn wf_seq(s: Seq<ElementView>) -> bool
    decreases s,
{
    s.len() == 0 || (wf_seq(s.drop_last()) && wf(s.last()))
}

pub proof fn lemma_wf_seq_index(s: Seq<ElementView>, i: int)
    requires
        wf_seq(s),
        0 <= i < s.len(),
    ensures
        wf(s[i]),
    decreases s.len(),
{
    if i < s.len() - 1 {
        lemma_wf_seq_index(s.drop_last(), i);
    }
}

/// The view of every executable tree element is well formed.
pub proof fn lemma_view_wf(e: Element)
    ensures
        wf(elem_view(e)),
    decreases e,
{
    match e {
        Element::Tok(_) => {},
        Element::Node(n) => {
            assert(n.children@.len() == n.children.len());
            lemma_children_view_wf(n.children@);
            lemma_children_view_len(n.children@);
        },
    }
}

pub proof fn lemma_children_view_wf(s: Seq<Element>)
    ensures
        wf_seq(children_view(s)),
    decreases s,
{
    if s.len() > 0 {
        lemma_children_view_wf(s.drop_last());
        lemma_view_wf(s.last());
        assert(children_view(s).drop_last() =~= children_view(s.drop_last()));
    }
}

/// A placeholder (hole) node: matches anything, binds nothing, and is the
/// insertion point that a later substitution fills.
pub open spec fn is_placeholder(v: ElementView) -> bool {
    v matches ElementView::Node { kind: NodeKind::PlaceholderPat, .. }
}

/// How many placeholder nodes the subtree holds.
pub open spec fn ph_count(v: ElementView) -> nat
    decreases v,
{
    match v {
        ElementView::Token { .. } => 0,
        ElementView::Node { kind, children } => (if kind == NodeKind::PlaceholderPat {
            1nat
        } else {
            0nat
        }) + ph_counts(children),
    }
}

pub open spec fn ph_counts(s: Seq<ElementView>) -> nat
    decreases s,
{
    if s.len() == 0 {
        0
    } else {
        ph_counts(s.drop_last()) + ph_count(s.last())
    }
}

/// The element reached from `v` by taking the given child indices in turn,
/// if every step is in range.
pub open spec fn elem_at(v: ElementView, p: Seq<usize>) -> Option<ElementView>
    decreases p.len(),
{
    if p.len() == 0 {
        Some(v)
    } else {
        match v {
            ElementView::Node { children, .. } => if p[0] < children.len() {
                elem_at(children[p[0] as int], p.drop_first())
            } else {
                None
            },
            _ => None,
        }
    }
}

/// Offset, within the text rendered by `v`, at which the subtree at path `p`
/// begins: the total length of everything rendered before it.
pub open spec fn rel_start(v: ElementView, p: Seq<usize>) -> nat
    decreases p.len(),
{
    if p.len() == 0 {
        0
    } else {
        match v {
            ElementView::Node { children, .. } => if p[0] < children.len() {
                texts(children.take(p[0] as int)).len() + rel_start(
                    children[p[0] as int],
                    p.drop_first(),
                )
            } else {
                0
            },
            _ => 0,
        }
    }
}

/// `v` with the subtree at path `p` structurally replaced by `rep`; every
/// element off that path is kept as it was.
pub open spec fn replace_at(v: ElementView, p: Seq<usize>, rep: ElementView) -> ElementView
    decreases p.len(),
{
    if p.len() == 0 {
        rep
    } else {
        match v {
            ElementView::Node { kind, children } => if p[0] < children.len() {
                ElementView::Node {
                    kind,
                    children: children.update(
                        p[0] as int,
                        replace_at(children[p[0] as int], p.drop_first(), rep),
                    ),
                }
            } else {
                v
            },
            _ => v,
        }
    }
}

/// Index of the first child whose subtree holds a placeholder.
pub open spec fn first_ph_idx(s: Seq<ElementView>) -> int
    decreases s.len(),
{
    if s.len() == 0 {
        0
    } else if ph_count(s[0]) > 0 {
        0
    } else {
        1 + first_ph_idx(s.drop_first())
    }
}

/// Path to the first placeholder node in preorder.
pub open spec fn first_ph(v: ElementView) -> Seq<usize>
    decreases v,
{
    if is_placeholder(v) {
        Seq::empty()
    } else {
        match v {
            ElementView::Node { children, .. } => {
                let i = first_ph_idx(children);
                if 0 <= i < children.len() {
                    seq![i as usize] + first_ph(children[i])
                } else {
                    Seq::empty()
                }
            },
            _ => Seq::empty(),
        }
    }
}

// ---------------------------------------------------------------------------
// Unfolding lemmas: the sequence-valued spec functions above recurse from the
// right, which matches how executable code grows a vector; these give the
// left-hand unfoldings that scans need.
// ---------------------------------------------------------------------------

pub proof fn lemma_texts_first(s: Seq<ElementView>)
    requires
        s.len() > 0,
    ensures
        texts(s) == text_of(s[0]) + texts(s.drop_first()),
    decreases s.len(),
{
    if s.len() == 1 {
        assert(s.drop_last() =~= Seq::<ElementView>::empty());
        assert(s.drop_first() =~= Seq::<ElementView>::empty());
        assert(texts(s) =~= text_of(s[0]) + texts(s.drop_first()));
    } else {
        lemma_texts_first(s.drop_last());
        assert(s.drop_last()[0] == s[0]);
        assert(s.drop_last().drop_first() =~= s.drop_first().drop_last());
        assert(s.drop_first().last() == s.last());
        assert(texts(s) =~= text_of(s[0]) + texts(s.drop_first()));
    }
}

pub proof fn lemma_ph_counts_first(s: Seq<ElementView>)
    requires
        s.len() > 0,
    ensures
        ph_counts(s) == ph_count(s[0]) + ph_counts(s.drop_first()),
    decreases s.len(),
{
    if s.len() == 1 {
        assert(s.drop_last() =~= Seq::<ElementView>::empty());
        assert(s.drop_first() =~= Seq::<ElementView>::empty());
    } else {
        lemma_ph_counts_first(s.drop_last());
        assert(s.drop_last()[0] == s[0]);
        assert(s.drop_last().drop_first() =~= s.drop_first().drop_last());
        assert(s.drop_first().last() == s.last());
    }
}

pub proof fn lemma_children_view_len(s: Seq<Element>)
    ensures
        children_view(s).len() == s.len(),
    decreases s.len(),
{
    if s.len() > 0 {
        lemma_children_view_len(s.drop_last());
    }
}

pub proof fn lemma_children_view_index(s: Seq<Element>, i: int)
    requires
        0 <= i < s.len(),
    ensures
        children_view(s).len() == s.len(),
        children_view(s)[i] == elem_view(s[i]),
    decreases s.len(),
{
    lemma_children_view_len(s);
    if i == s.len() - 1 {
    } else {
        lemma_children_view_index(s.drop_last(), i);
    }
}

/// Appending an element appends its view.
pub proof fn lemma_children_view_push(s: Seq<Element>, e: Element)
    ensures
        children_view(s.push(e)) == children_view(s).push(elem_view(e)),
{
    assert(s.push(e).drop_last() =~= s);
    assert(s.push(e).last() == e);
}

/// The text of a sequence splits around any one of its elements.
pub proof fn lemma_texts_split(s: Seq<ElementView>, i: int)
    requires
        0 <= i < s.len(),
    ensures
        texts(s) == texts(s.take(i)) + text_of(s[i]) + texts(s.skip(i + 1)),
    decreases s.len(),
{
    if i == s.len() - 1 {
        assert(s.drop_last() =~= s.take(i));
        assert(s.skip(i + 1) =~= Seq::<ElementView>::empty());
        assert(texts(s) =~= texts(s.take(i)) + text_of(s[i]) + texts(s.skip(i + 1)));
    } else {
        lemma_texts_split(s.drop_last(), i);
        assert(s.drop_last().take(i) =~= s.take(i));
        assert(s.drop_last()[i] == s[i]);
        let tail = s.drop_last().skip(i + 1);
        assert(s.skip(i + 1) =~= tail.push(s.last()));
        assert(tail.push(s.last()).drop_last() =~= tail);
        assert(texts(tail.push(s.last())) == texts(tail) + text_of(s.last()));
        assert(texts(s) =~= texts(s.take(i)) + text_of(s[i]) + texts(s.skip(i + 1)));
    }
}

/// A subtree's rendered text occupies exactly the slice of the whole text
/// that begins at its relative start.
pub proof fn lemma_subtree_text(v: ElementView, p: Seq<usize>)
    requires
        elem_at(v, p) is Some,
    ensures
        rel_start(v, p) + text_of(elem_at(v, p)->Some_0).len() <= text_of(v).len(),
        text_of(v) == text_of(v).take(rel_start(v, p) as int) + text_of(elem_at(v, p)->Some_0)
            + text_of(v).skip((rel_start(v, p) + text_of(elem_at(v, p)->Some_0).len()) as int),
    decreases p.len(),
{
    let u = elem_at(v, p)->Some_0;
    if p.len() == 0 {
        assert(text_of(v) =~= text_of(v).take(0) + text_of(u) + text_of(v).skip(
            text_of(u).len() as int,
        ));
    } else {
        match v {
            ElementView::Node { children, .. } => {
                let i = p[0] as int;
                let c = children[i];
                lemma_texts_split(children, i);
                lemma_subtree_text(c, p.drop_first());
                let pre = texts(children.take(i));
                let post = texts(children.skip(i + 1));
                let r = rel_start(c, p.drop_first());
                assert(text_of(v) == pre + text_of(c) + post);
                assert(text_of(c) == text_of(c).take(r as int) + text_of(u) + text_of(c).skip((r + text_of(u).len()) as int));
                assert(rel_start(v, p) == pre.len() + r);
                assert(text_of(v).take(rel_start(v, p) as int) =~= pre + text_of(c).take(r as int));
                assert(text_of(v).skip((rel_start(v, p) + text_of(u).len()) as int) =~= text_of(c).skip((r + text_of(u).len()) as int) + post);
                assert(text_of(v) =~= text_of(v).take(rel_start(v, p) as int) + text_of(u)
                    + text_of(v).skip((rel_start(v, p) + text_of(u).len()) as int));
            },
            _ => {},
        }
    }
}

/// Replacing the subtree at `p` rewrites exactly the slice of the rendered
/// text that the old subtree occupied, leaving the text around it unchanged.
pub proof fn lemma_replace_text(v: ElementView, p: Seq<usize>, rep: ElementView)
    requires
        elem_at(v, p) is Some,
    ensures
        text_of(replace_at(v, p, rep)) == text_of(v).take(rel_start(v, p) as int) + text_of(rep)
            + text_of(v).skip((rel_start(v, p) + text_of(elem_at(v, p)->Some_0).len()) as int),
    decreases p.len(),
{
    let u = elem_at(v, p)->Some_0;
    lemma_subtree_text(v, p);
    if p.len() == 0 {
        assert(text_of(v).take(0) =~= Seq::<char>::empty());
        assert(text_of(v).skip(text_of(u).len() as int) =~= Seq::<char>::empty().add(
            text_of(v).skip(text_of(u).len() as int),
        ));
        assert(text_of(replace_at(v, p, rep)) =~= text_of(v).take(0) + text_of(rep) + text_of(
            v,
        ).skip((rel_start(v, p) + text_of(u).len()) as int));
    } else {
        match v {
            ElementView::Node { kind, children } => {
                let i = p[0] as int;
                let c = children[i];
                let c2 = replace_at(c, p.drop_first(), rep);
                let cu = children.update(i, c2);
                lemma_texts_split(children, i);
                lemma_texts_split(cu, i);
                assert(cu.take(i) =~= children.take(i));
                assert(cu.skip(i + 1) =~= children.skip(i + 1));
                lemma_replace_text(c, p.drop_first(), rep);
                lemma_subtree_text(c, p.drop_first());
                let pre = texts(children.take(i));
                let post = texts(children.skip(i + 1));
                let r = rel_start(c, p.drop_first());
                assert(text_of(replace_at(v, p, rep)) == pre + text_of(c2) + post);
                assert(text_of(v).take(rel_start(v, p) as int) =~= pre + text_of(c).take(r as int));
                assert(text_of(v).skip((rel_start(v, p) + text_of(u).len()) as int) =~= text_of(c).skip((r + text_of(u).len()) as int) + post);
                assert(text_of(replace_at(v, p, rep)) =~= text_of(v).take(rel_start(v, p) as int)
                    + text_of(rep) + text_of(v).skip((rel_start(v, p) + text_of(u).len()) as int));
            },
            _ => {},
        }
    }
}

/// Substitution never touches any node off the substituted path: any path
/// that neither contains nor extends `p` reaches the same element afterward.
pub proof fn lemma_replace_preserves_others(
    v: ElementView,
    p: Seq<usize>,
    rep: ElementView,
    q: Seq<usize>,
)
    requires
        elem_at(v, p) is Some,
        !p.is_prefix_of(q),
        !q.is_prefix_of(p),
    ensures
        elem_at(replace_at(v, p, rep), q) == elem_at(v, q),
    decreases p.len(),
{
    if p.len() == 0 {
        assert(p.is_prefix_of(q));
    } else if q.len() == 0 {
        assert(q.is_prefix_of(p));
    } else {
        match v {
            ElementView::Node { kind, children } => {
                let i = p[0] as int;
                let cu = children.update(i, replace_at(children[i], p.drop_first(), rep));
                if q[0] != p[0] {
                    if q[0] < children.len() {
                        assert(cu[q[0] as int] == children[q[0] as int]);
                    }
                } else {
                    lemma_tail_prefix(p, q);
                    lemma_tail_prefix(q, p);
                    lemma_replace_preserves_others(
                        children[i],
                        p.drop_first(),
                        rep,
                        q.drop_first(),
                    );
                }
            },
            _ => {},
        }
    }
}

/// Two sequences with equal heads: if neither is a prefix of the other,
/// the same holds of their tails.
pub proof fn lemma_tail_prefix(p: Seq<usize>, q: Seq<usize>)
    requires
        p.len() > 0,
        q.len() > 0,
        p[0] == q[0],
        !p.is_prefix_of(q),
    ensures
        !p.drop_first().is_prefix_of(q.drop_first()),
{
    if p.drop_first().is_prefix_of(q.drop_first()) {
        assert forall|k: int| 0 <= k < p.len() implies p[k] == q.subrange(0, p.len() as int)[k] by {
            if k > 0 {
                assert(p.drop_first()[k - 1] == q.drop_first().subrange(
                    0,
                    p.drop_first().len() as int,
                )[k - 1]);
            }
        }
        assert(p =~= q.subrange(0, p.len() as int));
    }
}

/// The first-placeholder path is valid and leads to a placeholder.
pub proof fn lemma_first_ph(v: ElementView)
    requires
        wf(v),
        ph_count(v) > 0,
    ensures
        elem_at(v, first_ph(v)) matches Some(u) && is_placeholder(u),
    decreases v,
{
    if is_placeholder(v) {
    } else {
        match v {
            ElementView::Node { children, .. } => {
                lemma_first_ph_idx(children);
                let i = first_ph_idx(children);
                lemma_wf_seq_index(children, i);
                lemma_first_ph(children[i]);
                let p = seq![i as usize] + first_ph(children[i]);
                assert(p[0] == i as usize);
                assert(p.drop_first() =~= first_ph(children[i]));
            },
            _ => {},
        }
    }
}

pub proof fn lemma_first_ph_idx(s: Seq<ElementView>)
    requires
        ph_counts(s) > 0,
    ensures
        0 <= first_ph_idx(s) < s.len(),
        ph_count(s[first_ph_idx(s)]) > 0,
        forall|j: int| 0 <= j < first_ph_idx(s) ==> ph_count(s[j]) == 0,
    decreases s.len(),
{
    lemma_ph_counts_first(s);
    if ph_count(s[0]) > 0 {
    } else {
        lemma_first_ph_idx(s.drop_first());
        assert(forall|j: int|
            1 <= j < first_ph_idx(s) ==> s[j] == s.drop_first()[j - 1] && ph_count(s[j]) == 0);
    }
}

/// Placeholder counts split around any element, like the text does.
pub proof fn lemma_ph_counts_split(s: Seq<ElementView>, i: int)
    requires
        0 <= i < s.len(),
    ensures
        ph_counts(s) == ph_counts(s.take(i)) + ph_count(s[i]) + ph_counts(s.skip(i + 1)),
    decreases s.len(),
{
    if i == s.len() - 1 {
        assert(s.drop_last() =~= s.take(i));
        assert(s.skip(i + 1) =~= Seq::<ElementView>::empty());
    } else {
        lemma_ph_counts_split(s.drop_last(), i);
        assert(s.drop_last().take(i) =~= s.take(i));
        assert(s.drop_last()[i] == s[i]);
        let tail = s.drop_last().skip(i + 1);
        assert(s.skip(i + 1) =~= tail.push(s.last()));
        assert(tail.push(s.last()).drop_last() =~= tail);
        assert(ph_counts(tail.push(s.last())) == ph_counts(tail) + ph_count(s.last()));
    }
}

/// A sequence without placeholders has none in any element.
pub proof fn lemma_ph_counts_zero(s: Seq<ElementView>, j: int)
    requires
        ph_counts(s) == 0,
        0 <= j < s.len(),
    ensures
        ph_count(s[j]) == 0,
{
    lemma_ph_counts_split(s, j);
}

/// In a node whose children up to `i` are placeholder-free while child `i`
/// holds one, the first placeholder sits in child `i`, at the offset of that
/// child plus the placeholder's offset within it.
pub proof fn lemma_first_ph_at(v: ElementView, i: int)
    requires
        v matches ElementView::Node { kind, children } && kind != NodeKind::PlaceholderPat
            && 0 <= i < children.len() && children.len() <= usize::MAX && ph_counts(
            children.take(i),
        ) == 0 && ph_count(children[i]) > 0,
    ensures
        v matches ElementView::Node { children, .. } && first_ph_idx(children) == i && first_ph(v)
            == seq![i as usize] + first_ph(children[i]) && rel_start(v, first_ph(v)) == texts(
            children.take(i),
        ).len() + rel_start(children[i], first_ph(children[i])) && elem_at(v, first_ph(v))
            == elem_at(children[i], first_ph(children[i])) && ph_count(v) > 0,
{
    match v {
        ElementView::Node { kind, children } => {
            lemma_ph_counts_split(children, i);
            lemma_first_ph_idx(children);
            let x = first_ph_idx(children);
            if x < i {
                lemma_ph_counts_zero(children.take(i), x);
                assert(children.take(i)[x] == children[x]);
                assert(false);
            }
            if x > i {
                assert(ph_count(children[i]) == 0);
            }
            let p = seq![i as usize] + first_ph(children[i]);
            assert(p[0] == i as usize);
            assert(p.drop_first() =~= first_ph(children[i]));
        },
        _ => {},
    }
}

/// Number of elements in the subtree; the recursion measure of the
/// executable tree walks.
pub open spec fn size_of(v: ElementView) -> nat
    decreases v,
{
    match v {
        ElementView::Token { .. } => 1,
        ElementView::Node { children, .. } => 1 + sizes(children),
    }
}

pub open spec fn sizes(s: Seq<ElementView>) -> nat
    decreases s,
{
    if s.len() == 0 {
        0
    } else {
        sizes(s.drop_last()) + size_of(s.last())
    }
}

pub proof fn lemma_sizes_index(s: Seq<ElementView>, i: int)
    requires
        0 <= i < s.len(),
    ensures
        size_of(s[i]) <= sizes(s),
    decreases s.len(),
{
    if i < s.len() - 1 {
        lemma_sizes_index(s.drop_last(), i);
    }
}

/// Every prefix of a valid path is valid.
pub proof fn lemma_elem_at_prefix(v: ElementView, p: Seq<usize>, j: int)
    requires
        elem_at(v, p) is Some,
        0 <= j <= p.len(),
    ensures
        elem_at(v, p.take(j)) is Some,
    decreases p.len(),
{
    if j > 0 {
        match v {
            ElementView::Node { children, .. } => {
                lemma_elem_at_prefix(children[p[0] as int], p.drop_first(), j - 1);
                assert(p.take(j).drop_first() =~= p.drop_first().take(j - 1));
            },
            _ => {},
        }
    }
}

/// Extending a path by one child index steps from the reached node into
/// that child.
pub proof fn lemma_elem_at_push(v: ElementView, q: Seq<usize>, i: usize)
    requires
        elem_at(v, q) is Some,
    ensures
        elem_at(v, q.push(i)) == (match elem_at(v, q)->Some_0 {
            ElementView::Node { children, .. } => if i < children.len() {
                Some(children[i as int])
            } else {
                None::<ElementView>
            },
            _ => None::<ElementView>,
        }),
    decreases q.len(),
{
    if q.len() == 0 {
        assert(q.push(i)[0] == i);
        assert(q.push(i).drop_first() =~= Seq::<usize>::empty());
        match v {
            ElementView::Node { children, .. } => {
                if i < children.len() {
                    assert(elem_at(children[i as int], Seq::<usize>::empty()) == Some(
                        children[i as int],
                    ));
                }
            },
            _ => {},
        }
    } else {
        match v {
            ElementView::Node { children, .. } => {
                lemma_elem_at_push(children[q[0] as int], q.drop_first(), i);
                assert(q.push(i)[0] == q[0]);
                assert(q.push(i).drop_first() =~= q.drop_first().push(i));
            },
            _ => {},
        }
    }
}

/// The start offset of a child subtree is the parent subtree's start plus
/// the text of the siblings that render before it.
pub proof fn lemma_rel_start_push(v: ElementView, q: Seq<usize>, i: usize)
    requires
        elem_at(v, q) is Some,
        elem_at(v, q)->Some_0 matches ElementView::Node { children, .. } && i < children.len(),
    ensures
        elem_at(v, q) matches Some(u) && (u matches ElementView::Node { children, .. }
            && rel_start(v, q.push(i)) == rel_start(v, q) + texts(children.take(i as int)).len()),
    decreases q.len(),
{
    if q.len() == 0 {
        assert(q.push(i)[0] == i);
        assert(q.push(i).drop_first() =~= Seq::<usize>::empty());
        match v {
            ElementView::Node { children, .. } => {
                if i < children.len() {
                    assert(rel_start(children[i as int], Seq::<usize>::empty()) == 0);
                }
            },
            _ => {},
        }
    } else {
        match v {
            ElementView::Node { children, .. } => {
                lemma_rel_start_push(children[q[0] as int], q.drop_first(), i);
                assert(q.push(i)[0] == q[0]);
                assert(q.push(i).drop_first() =~= q.drop_first().push(i));
            },
            _ => {},
        }
    }
}

// ---------------------------------------------------------------------------
// Executable operations: rendering a tree to text, measuring it, and copying
// a subtree by value.
// ---------------------------------------------------------------------------

/// Appends the text the element renders to.
pub fn render_into(e: &Element, out: &mut Vec<char>)
    ensures
        final(out)@ == old(out)@ + text_of(e@),
    decreases size_of(e@),
{
    match e {
        Element::Tok(t) => {
            let mut i: usize = 0;
            while i < t.text.len()
                invariant
                    i <= t.text.len(),
                    out@ == old(out)@ + t.text@.take(i as int),
                decreases t.text.len() - i,
            {
                out.push(t.text[i]);
                proof {
                    assert(t.text@.take(i + 1) =~= t.text@.take(i as int).push(t.text@[i as int]));
                }
                i = i + 1;
            }
            proof {
                assert(t.text@.take(t.text@.len() as int) =~= t.text@);
            }
        },
        Element::Node(n) => {
            let ghost cv = children_view(n.children@);
            proof {
                lemma_children_view_len(n.children@);
            }
            let mut i: usize = 0;
            while i < n.children.len()
                invariant
                    i <= n.children.len(),
                    cv == children_view(n.children@),
                    cv.len() == n.children@.len(),
                    e@ == (ElementView::Node { kind: n.kind, children: cv }),
                    out@ == old(out)@ + texts(cv.take(i as int)),
                decreases n.children.len() - i,
            {
                proof {
                    lemma_children_view_index(n.children@, i as int);
                    lemma_sizes_index(cv, i as int);
                }
                render_into(&n.children[i], out);
                proof {
                    lemma_children_view_index(n.children@, i as int);
                    assert(cv.take(i + 1).drop_last() =~= cv.take(i as int));
                    assert(texts(cv.take(i + 1)) == texts(cv.take(i as int)) + text_of(
                        cv[i as int],
                    ));
                }
                i = i + 1;
            }
            proof {
                assert(cv.take(cv.len() as int) =~= cv);
            }
        },
    }
}

/// Renders the element to its text.
pub fn render(e: &Element) -> (r: Vec<char>)
    ensures
        r@ == text_of(e@),
{
    let mut out: Vec<char> = Vec::new();
    render_into(e, &mut out);
    proof {
        assert(Seq::<char>::empty() + text_of(e@) =~= text_of(e@));
    }
    out
}

/// Length of the text the element renders to.
pub fn text_len(e: &Element) -> (n: usize)
    requires
        text_of(e@).len() <= usize::MAX,
    ensures
        n == text_of(e@).len(),
    decreases size_of(e@),
{
    match e {
        Element::Tok(t) => t.text.len(),
        Element::Node(n) => {
            let ghost cv = children_view(n.children@);
            proof {
                lemma_children_view_len(n.children@);
            }
            let mut acc: usize = 0;
            let mut i: usize = 0;
            while i < n.children.len()
                invariant
                    i <= n.children.len(),
                    cv == children_view(n.children@),
                    cv.len() == n.children@.len(),
                    e@ == (ElementView::Node { kind: n.kind, children: cv }),
                    text_of(e@).len() <= usize::MAX,
                    acc == texts(cv.take(i as int)).len(),
                decreases n.children.len() - i,
            {
                proof {
                    lemma_children_view_index(n.children@, i as int);
                    lemma_texts_split(cv, i as int);
                    assert(cv.take(i + 1).drop_last() =~= cv.take(i as int));
                    assert(cv.take(i as int) =~= cv.take(i + 1).take(i as int));
                    assert(texts(cv.take(i + 1)) == texts(cv.take(i as int)) + text_of(
                        cv[i as int],
                    ));
                    assert(cv.skip(i + 1).len() >= 0);
                    assert(texts(cv).len() == texts(cv.take(i as int)).len() + text_of(
                        cv[i as int],
                    ).len() + texts(cv.skip(i + 1)).len());
                }
                proof {
                    lemma_sizes_index(cv, i as int);
                }
                let l = text_len(&n.children[i]);
                acc = acc + l;
                i = i + 1;
            }
            proof {
                assert(cv.take(cv.len() as int) =~= cv);
            }
            acc
        },
    }
}

/// Copies a character vector.
pub fn copy_chars(v: &Vec<char>) -> (r: Vec<char>)
    ensures
        r@ == v@,
{
    let mut out: Vec<char> = Vec::new();
    let mut i: usize = 0;
    while i < v.len()
        invariant
            i <= v.len(),
            out@ == v@.take(i as int),
        decreases v.len() - i,
    {
        out.push(v[i]);
        proof {
            assert(v@.take(i + 1) =~= v@.take(i as int).push(v@[i as int]));
        }
        i = i + 1;
    }
    proof {
        assert(v@.take(v@.len() as int) =~= v@);
    }
    out
}

/// Copies a subtree by value: the copy has the same model as the original.
pub fn copy_elem(e: &Element) -> (r: Element)
    ensures
        r@ == e@,
    decreases size_of(e@), 1int,
{
    match e {
        Element::Tok(t) => Element::Tok(Token { kind: t.kind, text: copy_chars(&t.text) }),
        Element::Node(n) => Element::Node(copy_node(n)),
    }
}

/// Copies a node by value: the copy has the same model as the original.
pub fn copy_node(n: &SyntaxNode) -> (r: SyntaxNode)
    ensures
        r@ == n@,
    decreases size_of(n@), 0int,
{
    let ghost cv = children_view(n.children@);
    proof {
        lemma_children_view_len(n.children@);
    }
    let mut out: Vec<Element> = Vec::new();
    let mut i: usize = 0;
    while i < n.children.len()
        invariant
            i <= n.children.len(),
            cv == children_view(n.children@),
            cv.len() == n.children@.len(),
            n@ == (ElementView::Node { kind: n.kind, children: cv }),
            children_view(out@) == cv.take(i as int),
        decreases n.children.len() - i,
    {
        proof {
            lemma_children_view_index(n.children@, i as int);
            lemma_sizes_index(cv, i as int);
        }
        let c = copy_elem(&n.children[i]);
        let ghost prev = out@;
        out.push(c);
        proof {
            assert(out@.drop_last() =~= prev);
            assert(children_view(out@) == children_view(prev).push(out@.last()@));
            assert(cv.take(i + 1).drop_last() =~= cv.take(i as int));
            assert(children_view(out@) =~= cv.take(i + 1));
        }
        i = i + 1;
    }
    proof {
        assert(cv.take(cv.len() as int) =~= cv);
    }
    SyntaxNode { kind: n.kind, children: out }
}

} // verus!
