//! The tree locator: finds the token of a requested kind under an offset,
//! walks ancestors for a node of a requested category, and scans a node's
//! children for its pattern or initializer. Absence is a normal outcome that
//! signals "not applicable", never a failure.

use vstd::prelude::*;

use crate::tree::{
    elem_at, lemma_elem_at_prefix, lemma_elem_at_push, lemma_rel_start_push, lemma_subtree_text,
    lemma_texts_first, lemma_texts_split, lemma_children_view_index, lemma_children_view_len,
    lemma_sizes_index, lemma_wf_seq_index, children_view, rel_start, size_of, text_len, text_of,
    texts, wf, Element, ElementView, NodeKind, SyntaxNode, TokenKind,
};

verus! {

/// A token of kind `k` touches relative offset `off` somewhere in the
/// subtree: the offset lies between the token's start and its end, both ends
/// included, as a cursor sitting on either edge of a token touches it.
pub open spec fn tok_found(v: ElementView, off: int, k: TokenKind) -> bool
    decreases v,
{
    match v {
        ElementView::Token { kind, text } => kind == k && 0 <= off <= text.len(),
        ElementView::Node { children, .. } => tok_found_seq(children, off, k),
    }
}

pub open spec fn tok_found_seq(s: Seq<ElementView>, off: int, k: TokenKind) -> bool
    decreases s,
{
    if s.len() == 0 {
        false
    } else {
        tok_found(s[0], off, k) || tok_found_seq(s.drop_first(), off - text_of(s[0]).len(), k)
    }
}

/// Index of the first child whose subtree holds a matching token.
pub open spec fn tok_idx(s: Seq<ElementView>, off: int, k: TokenKind) -> int
    decreases s,
{
    if s.len() == 0 {
        0
    } else if tok_found(s[0], off, k) {
        0
    } else {
        1 + tok_idx(s.drop_first(), off - text_of(s[0]).len(), k)
    }
}

/// Path to the leftmost matching token.
pub open spec fn tok_path(v: ElementView, off: int, k: TokenKind) -> Seq<usize>
    decreases v,
{
    match v {
        ElementView::Token { .. } => Seq::empty(),
        ElementView::Node { children, .. } => {
            let i = tok_idx(children, off, k);
            if 0 <= i < children.len() {
                seq![i as usize] + tok_path(
                    children[i],
                    off - texts(children.take(i)).len(),
                    k,
                )
            } else {
                Seq::empty()
            }
        },
    }
}

pub proof fn lemma_tok_idx(s: Seq<ElementView>, off: int, k: TokenKind)
    requires
        tok_found_seq(s, off, k),
    ensures
        0 <= tok_idx(s, off, k) < s.len(),
        tok_found(s[tok_idx(s, off, k)], off - texts(s.take(tok_idx(s, off, k))).len(), k),
    decreases s.len(),
{
    if tok_found(s[0], off, k) {
        assert(s.take(0) =~= Seq::<ElementView>::empty());
    } else {
        lemma_tok_idx(s.drop_first(), off - text_of(s[0]).len(), k);
        let i = tok_idx(s, off, k);
        assert(s.take(i).drop_first() =~= s.drop_first().take(i - 1));
        lemma_texts_first(s.take(i));
        assert(s.drop_first()[i - 1] == s[i]);
    }
}

/// The leftmost-match path is valid, reaches a token of the requested kind,
/// and that token's range touches the offset.
pub proof fn lemma_tok_path(v: ElementView, off: int, k: TokenKind)
    requires
        wf(v),
        tok_found(v, off, k),
    ensures
        elem_at(v, tok_path(v, off, k)) matches Some(u) && (u matches ElementView::Token {
            kind,
            text,
        } && kind == k && rel_start(v, tok_path(v, off, k)) <= off <= rel_start(
            v,
            tok_path(v, off, k),
        ) + text.len()),
    decreases v,
{
    match v {
        ElementView::Token { .. } => {},
        ElementView::Node { children, .. } => {
            lemma_tok_idx(children, off, k);
            let i = tok_idx(children, off, k);
            let off2 = off - texts(children.take(i)).len();
            lemma_wf_seq_index(children, i);
            lemma_tok_path(children[i], off2, k);
            let p = seq![i as usize] + tok_path(children[i], off2, k);
            assert(p[0] == i as usize);
            assert(p.drop_first() =~= tok_path(children[i], off2, k));
        },
    }
}

/// A token found under an offset: the path from the root, the token's
/// absolute start, and the length of its text.
pub struct FoundToken {
    pub path: Vec<usize>,
    pub start: usize,
    pub length: usize,
}

/// Finds the leftmost token of kind `k` whose range touches `offset`,
/// searching the subtree `e` whose own text begins at absolute `base`.
pub fn find_token(e: &Element, base: usize, offset: usize, k: TokenKind) -> (r: Option<FoundToken>)
    requires
        base + text_of(e@).len() <= usize::MAX,
    ensures
        (r is Some) <==> tok_found(e@, offset - base, k),
        r matches Some(f) ==> f.path@ == tok_path(e@, offset - base, k) && f.start == base
            + rel_start(e@, f.path@) && (elem_at(e@, f.path@) matches Some(u) && (u
            matches ElementView::Token { text, .. } && f.length == text.len())),
    decreases size_of(e@),
{
    match e {
        Element::Tok(t) => {
            if t.kind == k && base <= offset && offset <= base + t.text.len() {
                let p: Vec<usize> = Vec::new();
                proof {
                    assert(p@ =~= Seq::<usize>::empty());
                }
                Some(FoundToken { path: p, start: base, length: t.text.len() })
            } else {
                None
            }
        },
        Element::Node(n) => {
            let ghost cv = children_view(n.children@);
            proof {
                lemma_children_view_len(n.children@);
                assert(cv.skip(0) =~= cv);
                assert(cv.take(0) =~= Seq::<ElementView>::empty());
            }
            let ghost offi = offset - base;
            let mut i: usize = 0;
            let mut b: usize = base;
            while i < n.children.len()
                invariant
                    i <= n.children.len(),
                    cv == children_view(n.children@),
                    cv.len() == n.children@.len(),
                    e@ == (ElementView::Node { kind: n.kind, children: cv }),
                    base + text_of(e@).len() <= usize::MAX,
                    offi == offset - base,
                    b == base + texts(cv.take(i as int)).len(),
                    tok_found(e@, offi, k) <==> tok_found_seq(cv.skip(i as int), offset - b, k),
                    tok_found(e@, offi, k) ==> tok_idx(cv, offi, k) == i + tok_idx(
                        cv.skip(i as int),
                        offset - b,
                        k,
                    ),
                decreases n.children.len() - i,
            {
                proof {
                    lemma_children_view_index(n.children@, i as int);
                    lemma_sizes_index(cv, i as int);
                    lemma_texts_split(cv, i as int);
                    assert(cv.take(i + 1).drop_last() =~= cv.take(i as int));
                    assert(texts(cv.take(i + 1)) == texts(cv.take(i as int)) + text_of(
                        cv[i as int],
                    ));
                    assert(cv.skip(i as int)[0] == cv[i as int]);
                    assert(cv.skip(i as int).drop_first() =~= cv.skip(i + 1));
                }
                let r = find_token(&n.children[i], b, offset, k);
                match r {
                    Some(f) => {
                        let mut p = f.path;
                        p.insert(0, i);
                        proof {
                            assert(tok_idx(cv.skip(i as int), offset - b, k) == 0);
                            assert(tok_idx(cv, offi, k) == i);
                            let rest = tok_path(cv[i as int], offset - b, k);
                            let full = tok_path(e@, offi, k);
                            assert(offset - b == offi - texts(cv.take(i as int)).len());
                            assert(full == seq![i] + rest);
                            assert(p@ =~= seq![i] + rest);
                            assert(full[0] == i);
                            assert(full.drop_first() =~= rest);
                        }
                        return Some(FoundToken { path: p, start: f.start, length: f.length });
                    },
                    None => {},
                }
                let clen = text_len(&n.children[i]);
                b = b + clen;
                i = i + 1;
            }
            proof {
                assert(cv.skip(cv.len() as int) =~= Seq::<ElementView>::empty());
            }
            None
        },
    }
}

/// Kind of the node reached by a path, if the path reaches a node.
pub open spec fn node_kind_at(v: ElementView, p: Seq<usize>) -> Option<NodeKind> {
    match elem_at(v, p) {
        Some(ElementView::Node { kind, .. }) => Some(kind),
        _ => None,
    }
}

/// Depth of the deepest prefix of `p`, of length at most `j`, that reaches a
/// node of kind `k`: the innermost enclosing node of that kind.
pub open spec fn anc_depth(v: ElementView, p: Seq<usize>, k: NodeKind, j: int) -> Option<int>
    decreases j + 1,
{
    if j < 0 {
        None
    } else if node_kind_at(v, p.take(j)) == Some(k) {
        Some(j)
    } else {
        anc_depth(v, p, k, j - 1)
    }
}

/// When an ancestor depth is found, it lies in range and the prefix of that
/// length reaches a node of the requested kind.
pub proof fn lemma_anc_depth(v: ElementView, p: Seq<usize>, k: NodeKind, j0: int)
    requires
        anc_depth(v, p, k, j0) is Some,
    ensures
        0 <= anc_depth(v, p, k, j0)->Some_0 <= j0,
        node_kind_at(v, p.take(anc_depth(v, p, k, j0)->Some_0)) == Some(k),
    decreases j0 + 1,
{
    if j0 >= 0 && node_kind_at(v, p.take(j0)) != Some(k) {
        lemma_anc_depth(v, p, k, j0 - 1);
    }
}

/// Walks `depth` steps of a valid path and returns the subtree reached and
/// its absolute start offset.
pub fn walk_prefix<'a>(root: &'a Element, path: &Vec<usize>, depth: usize) -> (r: (&'a Element, usize))
    requires
        depth <= path@.len(),
        elem_at(root@, path@) is Some,
        text_of(root@).len() <= usize::MAX,
    ensures
        Some(r.0@) == elem_at(root@, path@.take(depth as int)),
        r.1 == rel_start(root@, path@.take(depth as int)),
{
    let mut cur: &Element = root;
    let mut start: usize = 0;
    let mut t: usize = 0;
    proof {
        assert(path@.take(0) =~= Seq::<usize>::empty());
    }
    while t < depth
        invariant
            t <= depth,
            depth <= path@.len(),
            elem_at(root@, path@) is Some,
            text_of(root@).len() <= usize::MAX,
            Some(cur@) == elem_at(root@, path@.take(t as int)),
            start == rel_start(root@, path@.take(t as int)),
        decreases depth - t,
    {
        proof {
            lemma_elem_at_prefix(root@, path@, t + 1);
            lemma_elem_at_push(root@, path@.take(t as int), path@[t as int]);
            assert(path@.take(t as int).push(path@[t as int]) =~= path@.take(t + 1));
        }
        match cur {
            Element::Node(n) => {
                let ghost cv = children_view(n.children@);
                proof {
                    lemma_children_view_len(n.children@);
                    assert(cv.take(0) =~= Seq::<ElementView>::empty());
                    lemma_subtree_text(root@, path@.take(t as int));
                }
                let i = path[t];
                let mut j: usize = 0;
                let mut acc: usize = 0;
                while j < i
                    invariant
                        j <= i,
                        i < n.children@.len(),
                        cv == children_view(n.children@),
                        cv.len() == n.children@.len(),
                        cur@ == (ElementView::Node { kind: n.kind, children: cv }),
                        text_of(cur@).len() <= usize::MAX,
                        acc == texts(cv.take(j as int)).len(),
                    decreases i - j,
                {
                    proof {
                        lemma_children_view_index(n.children@, j as int);
                        lemma_texts_split(cv, j as int);
                        assert(cv.take(j + 1).drop_last() =~= cv.take(j as int));
                        assert(texts(cv.take(j + 1)) == texts(cv.take(j as int)) + text_of(
                            cv[j as int],
                        ));
                    }
                    let l = text_len(&n.children[j]);
                    acc = acc + l;
                    j = j + 1;
                }
                proof {
                    lemma_rel_start_push(root@, path@.take(t as int), path@[t as int]);
                    lemma_subtree_text(root@, path@.take(t + 1));
                    lemma_children_view_index(n.children@, i as int);
                }
                start = start + acc;
                cur = &n.children[i];
            },
            Element::Tok(_) => {
                proof {
                    assert(false);
                }
            },
        }
        t = t + 1;
    }
    (cur, start)
}

/// Walks parent links upward from the token at `path`: returns the depth of
/// the innermost proper ancestor of kind `k`, or nothing when no enclosing
/// node of that kind exists.
pub fn ancestor_of_kind(root: &Element, path: &Vec<usize>, k: NodeKind) -> (r: Option<usize>)
    requires
        elem_at(root@, path@) is Some,
        text_of(root@).len() <= usize::MAX,
    ensures
        r matches Some(j) ==> j < path@.len() && anc_depth(root@, path@, k, path@.len() - 1)
            == Some(j as int),
        (r is None) <==> anc_depth(root@, path@, k, path@.len() - 1) is None,
{
    let mut j: usize = path.len();
    while j > 0
        invariant
            j <= path@.len(),
            elem_at(root@, path@) is Some,
            text_of(root@).len() <= usize::MAX,
            anc_depth(root@, path@, k, path@.len() - 1) == anc_depth(root@, path@, k, j - 1),
        decreases j,
    {
        let jj = j - 1;
        let (el, _s) = walk_prefix(root, path, jj);
        let hit = match el {
            Element::Node(n) => {
                let m: &SyntaxNode = n;
                m.kind == k
            },
            Element::Tok(_) => false,
        };
        if hit {
            return Some(jj);
        }
        j = jj;
    }
    None
}

/// Category of child a construct exposes: its binding pattern or its
/// initializer expression.
#[derive(Clone, Copy, PartialEq, Eq, Structural, Debug)]
pub enum ChildCat {
    Pat,
    Expr,
}

/// Whether an element belongs to the category.
pub open spec fn in_cat(v: ElementView, c: ChildCat) -> bool {
    match c {
        ChildCat::Pat => v matches ElementView::Node { kind, .. } && (kind == NodeKind::BindPat
            || kind == NodeKind::PlaceholderPat || kind == NodeKind::TupleStructPat),
        ChildCat::Expr => v matches ElementView::Node { kind: NodeKind::Expr, .. },
    }
}

/// Index of the first child in the category, if any.
pub open spec fn cat_child(s: Seq<ElementView>, c: ChildCat) -> Option<int>
    decreases s.len(),
{
    if s.len() == 0 {
        None
    } else if in_cat(s[0], c) {
        Some(0)
    } else {
        match cat_child(s.drop_first(), c) {
            Some(i) => Some(i + 1),
            None => None,
        }
    }
}

pub proof fn lemma_cat_child(s: Seq<ElementView>, c: ChildCat)
    requires
        cat_child(s, c) is Some,
    ensures
        0 <= cat_child(s, c)->Some_0 < s.len(),
        in_cat(s[cat_child(s, c)->Some_0], c),
    decreases s.len(),
{
    if s.len() > 0 && !in_cat(s[0], c) {
        lemma_cat_child(s.drop_first(), c);
    }
}

/// Finds the first child of the node that belongs to the category.
pub fn find_child(n: &SyntaxNode, c: ChildCat) -> (r: Option<usize>)
    ensures
        r matches Some(i) ==> i < n.children@.len() && cat_child(children_view(n.children@), c)
            == Some(i as int),
        (r is None) <==> cat_child(children_view(n.children@), c) is None,
{
    let ghost cv = children_view(n.children@);
    proof {
        lemma_children_view_len(n.children@);
        assert(cv.skip(0) =~= cv);
    }
    let mut i: usize = 0;
    while i < n.children.len()
        invariant
            i <= n.children.len(),
            cv == children_view(n.children@),
            cv.len() == n.children@.len(),
            cat_child(cv, c) == (match cat_child(cv.skip(i as int), c) {
                Some(x) => Some(i + x),
                None => None::<int>,
            }),
        decreases n.children.len() - i,
    {
        proof {
            lemma_children_view_index(n.children@, i as int);
            assert(cv.skip(i as int)[0] == cv[i as int]);
            assert(cv.skip(i as int).drop_first() =~= cv.skip(i + 1));
        }
        let hit = match &n.children[i] {
            Element::Node(m) => match c {
                ChildCat::Pat => m.kind == NodeKind::BindPat || m.kind == NodeKind::PlaceholderPat
                    || m.kind == NodeKind::TupleStructPat,
                ChildCat::Expr => m.kind == NodeKind::Expr,
            },
            Element::Tok(_) => false,
        };
        if hit {
            return Some(i);
        }
        i = i + 1;
    }
    proof {
        assert(cv.skip(cv.len() as int) =~= Seq::<ElementView>::empty());
    }
    None
}

} // verus!
