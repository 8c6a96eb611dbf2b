//! The placeholder/splice engine: finds the unique hole in a freshly built
//! fragment, substitutes a real subtree in its place, and replaces a subtree
//! of the original tree by value, producing a new tree together with a
//! textual edit. Trees are never mutated: every result is a fresh value.

use vstd::prelude::*;

use crate::locate::walk_prefix;
use crate::tree::{
    children_view, copy_elem, elem_at, first_ph, is_placeholder, lemma_children_view_index,
    lemma_children_view_len, lemma_children_view_push, lemma_first_ph, lemma_first_ph_at,
    lemma_sizes_index, lemma_subtree_text, lemma_texts_split, lemma_view_wf, ph_count, ph_counts,
    rel_start, render, replace_at, size_of, text_len, text_of, texts, Element, ElementView,
    NodeKind, SyntaxNode,
};

verus! {

/// Finds the first placeholder node in preorder: its path and the offset at
/// which it begins within the element's rendered text. Nothing is found
/// exactly when the element holds no placeholder.
pub fn find_placeholder(e: &Element) -> (r: Option<(Vec<usize>, usize)>)
    requires
        text_of(e@).len() <= usize::MAX,
    ensures
        (r is Some) <==> ph_count(e@) > 0,
        r matches Some(pr) ==> pr.0@ == first_ph(e@) && pr.1 == rel_start(e@, first_ph(e@)),
    decreases size_of(e@),
{
    match e {
        Element::Tok(_) => None,
        Element::Node(n) => {
            if n.kind == NodeKind::PlaceholderPat {
                let p: Vec<usize> = Vec::new();
                proof {
                    assert(p@ =~= Seq::<usize>::empty());
                    assert(is_placeholder(e@));
                }
                Some((p, 0))
            } else {
                let ghost cv = children_view(n.children@);
                proof {
                    lemma_children_view_len(n.children@);
                    assert(cv.take(0) =~= Seq::<ElementView>::empty());
                }
                let mut i: usize = 0;
                let mut b: usize = 0;
                while i < n.children.len()
                    invariant
                        i <= n.children.len(),
                        cv == children_view(n.children@),
                        cv.len() == n.children@.len(),
                        e@ == (ElementView::Node { kind: n.kind, children: cv }),
                        n.kind != NodeKind::PlaceholderPat,
                        text_of(e@).len() <= usize::MAX,
                        ph_counts(cv.take(i as int)) == 0,
                        b == texts(cv.take(i as int)).len(),
                    decreases n.children.len() - i,
                {
                    proof {
                        lemma_children_view_index(n.children@, i as int);
                        lemma_sizes_index(cv, i as int);
                        lemma_texts_split(cv, i as int);
                        assert(cv.take(i + 1).drop_last() =~= cv.take(i as int));
                        assert(texts(cv.take(i + 1)) == texts(cv.take(i as int)) + text_of(
                            cv[i as int],
                        ));
                    }
                    let r = find_placeholder(&n.children[i]);
                    match r {
                        Some(pr) => {
                            let (cp, crel) = pr;
                            let mut p = cp;
                            p.insert(0, i);
                            proof {
                                assert(n.children@.len() == n.children.len());
                                lemma_first_ph_at(e@, i as int);
                                assert(p@ =~= seq![i] + first_ph(cv[i as int]));
                                lemma_view_wf(n.children@[i as int]);
                                lemma_first_ph(cv[i as int]);
                                lemma_subtree_text(cv[i as int], first_ph(cv[i as int]));
                            }
                            return Some((p, b + crel));
                        },
                        None => {},
                    }
                    let clen = text_len(&n.children[i]);
                    b = b + clen;
                    i = i + 1;
                }
                proof {
                    assert(cv.take(cv.len() as int) =~= cv);
                }
                None
            }
        },
    }
}

/// Replaces, by value, the subtree that the suffix of `path` from depth `d`
/// reaches in `e`; every element off that path is carried over unchanged.
pub fn replace_at_path(e: &Element, path: &Vec<usize>, d: usize, rep: &Element) -> (r: Element)
    requires
        d <= path@.len(),
        elem_at(e@, path@.skip(d as int)) is Some,
    ensures
        r@ == replace_at(e@, path@.skip(d as int), rep@),
    decreases path@.len() - d,
{
    if d == path.len() {
        proof {
            assert(path@.skip(d as int) =~= Seq::<usize>::empty());
        }
        copy_elem(rep)
    } else {
        match e {
            Element::Node(n) => {
                let ghost cv = children_view(n.children@);
                let ghost sp = path@.skip(d as int);
                proof {
                    lemma_children_view_len(n.children@);
                    assert(sp[0] == path@[d as int]);
                    assert(sp.drop_first() =~= path@.skip(d + 1));
                }
                let i = path[d];
                let ghost newv = replace_at(cv[i as int], path@.skip(d + 1), rep@);
                let mut out: Vec<Element> = Vec::new();
                proof {
                    assert(cv.update(i as int, newv).take(0) =~= Seq::<ElementView>::empty());
                }
                let mut j: usize = 0;
                while j < n.children.len()
                    invariant
                        j <= n.children.len(),
                        cv == children_view(n.children@),
                        cv.len() == n.children@.len(),
                        e@ == (ElementView::Node { kind: n.kind, children: cv }),
                        d < path@.len(),
                        i == path@[d as int],
                        i < n.children@.len(),
                        elem_at(e@, path@.skip(d as int)) is Some,
                        newv == replace_at(cv[i as int], path@.skip(d + 1), rep@),
                        children_view(out@) == cv.update(i as int, newv).take(j as int),
                    decreases n.children.len() - j,
                {
                    proof {
                        lemma_children_view_index(n.children@, j as int);
                    }
                    let c: Element;
                    if j == i {
                        proof {
                            assert(path@.len() == path.len());
                            assert(path@.skip(d as int).drop_first() =~= path@.skip(d + 1));
                        }
                        c = replace_at_path(&n.children[j], path, d + 1, rep);
                    } else {
                        c = copy_elem(&n.children[j]);
                    }
                    let ghost ce = c;
                    let ghost before = out@;
                    out.push(c);
                    proof {
                        lemma_children_view_push(before, ce);
                        assert(cv.update(i as int, newv).take(j + 1).drop_last() =~= cv.update(
                            i as int,
                            newv,
                        ).take(j as int));
                        assert(children_view(out@) =~= cv.update(i as int, newv).take(j + 1));
                    }
                    j = j + 1;
                }
                proof {
                    assert(cv.update(i as int, newv).take(cv.len() as int) =~= cv.update(
                        i as int,
                        newv,
                    ));
                }
                Element::Node(SyntaxNode { kind: n.kind, children: out })
            },
            Element::Tok(_) => {
                proof {
                    assert(false);
                }
                copy_elem(e)
            },
        }
    }
}

/// A textual edit: remove `removed` characters starting at `start` in the
/// original text, insert `replacement` there, and optionally land the cursor
/// at `cursor` — an absolute offset in the original text's coordinate space,
/// valid once the edit has been applied.
pub struct Edit {
    pub start: usize,
    pub removed: usize,
    pub replacement: Vec<char>,
    pub cursor: Option<usize>,
}

/// Replaces the subtree at `path` with `frag`, producing the new tree value
/// and the textual edit expressing the same change against the original
/// tree's coordinate space. The edit's cursor is left unset.
pub fn replace(root: &Element, path: &Vec<usize>, frag: &Element) -> (r: (Element, Edit))
    requires
        elem_at(root@, path@) is Some,
        text_of(root@).len() <= usize::MAX,
    ensures
        r.0@ == replace_at(root@, path@, frag@),
        r.1.start == rel_start(root@, path@),
        r.1.removed == text_of(elem_at(root@, path@)->Some_0).len(),
        r.1.replacement@ == text_of(frag@),
        r.1.cursor is None,
{
    proof {
        lemma_elem_at_prefix_full(root@, path@);
    }
    let (el, start) = walk_prefix(root, path, path.len());
    proof {
        assert(path@.take(path@.len() as int) =~= path@);
        lemma_subtree_text(root@, path@);
    }
    let removed = text_len(el);
    let replacement = render(frag);
    let newroot = replace_at_path(root, path, 0, frag);
    proof {
        assert(path@.skip(0) =~= path@);
    }
    (newroot, Edit { start, removed, replacement, cursor: None })
}

proof fn lemma_elem_at_prefix_full(v: ElementView, p: Seq<usize>)
    requires
        elem_at(v, p) is Some,
    ensures
        elem_at(v, p.take(p.len() as int)) is Some,
{
    assert(p.take(p.len() as int) =~= p);
}

} // verus!
