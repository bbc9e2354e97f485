//! Grows the explanation tree of a pattern and merges its literal runs.
//!
//! [`MyAstVisitor`] is driven by the walk over the syntax tree of a pattern:
//! each construct that is entered becomes a new last child of the innermost
//! open node and is then the innermost open node itself; each construct that
//! is left hands that place back to the node above it. [`merge_literal`]
//! joins neighbouring literal characters into text nodes. [`parse`] takes
//! the events of a whole walk and gives the finished explanation.
use crate::outline::{
    absorbed, all_literal, closed, coalesce, finished, fits, is_literal, is_untitled, joined,
    leaf, left, lemma_coalesce_shape, lemma_enter_keeps_spans, lemma_enter_keeps_tiling,
    lemma_leave_keeps_spans, lemma_leave_keeps_tiling, lemma_merged_top_down, lemma_titles,
    lemma_walk_tiled, lemma_walk_well_spanned, literal_title, merged, merged_each,
    open_tiled, open_well_spanned, retitled, sequence_title, sequences_tiled, text_title, tiles,
    top_well_spanned, well_spanned, whole_node, Explanation, Label,
};
use crate::syntax::{
    detail_of, item_detail_of, item_gets_node, item_has_node, item_label, item_title_of, label,
    title_of, ClassSetItem, Construct,
};
use crate::text::{reads, text_of};
use crate::tree::TreeNode;
use std::ops::Range;
use vstd::prelude::*;
use vstd::string::StringExecFns;

verus! {

/// The content of a node of the explanation tree.
#[derive(Debug)]
pub struct TreeItem {
    pub title: String,
    pub content: String,
    pub span: Range<u32>,
}

impl View for TreeItem {
    type V = Label;

    open spec fn view(&self) -> Label {
        Label {
            title: self.title@,
            detail: self.content@,
            start: self.span.start,
            end: self.span.end,
        }
    }
}

impl TreeItem {
    /// An item with the given title and detail. The offsets are kept in 32
    /// bits; an offset that does not fit loses its upper bits.
    pub fn new(title: String, content: String, start: usize, end: usize) -> (item: Self)
        ensures
            item@ == (Label {
                title: title@,
                detail: content@,
                start: start as u32,
                end: end as u32,
            }),
    {
        Self {
            title,
            content,
            span: Range {
                start: #[verifier::truncate] (start as u32),
                end: #[verifier::truncate] (end as u32),
            },
        }
    }
}

/// The explanation that node `at` of the arena stands for: its label and,
/// in order, the explanations of its children.
pub open spec fn outline(tree: &TreeNode<TreeItem>, at: int) -> Explanation
    decreases tree.node_count() - at,
    when tree.wf() && tree.has(at)
{
    Explanation {
        label: tree.content_of(at)@,
        children: Seq::new(
            tree.children_of(at).len(),
            |k: int|
                if 0 <= k < tree.children_of(at).len() {
                    outline(tree, tree.children_of(at)[k] as int)
                } else {
                    Explanation { label: tree.content_of(at)@, children: Seq::empty() }
                },
        ),
    }
}

/// The explanation of a node depends on nothing but the contents and the
/// child lists of the nodes below it.
pub proof fn lemma_outline_local(a: &TreeNode<TreeItem>, b: &TreeNode<TreeItem>, at: int)
    requires
        a.wf(),
        b.wf(),
        a.node_count() <= b.node_count(),
        a.has(at),
        forall|j: int| #![trigger a.in_subtree(at, j)]
            a.has(j) && a.in_subtree(at, j) ==> a.content_of(j)@ == b.content_of(j)@
                && a.children_of(j) == b.children_of(j),
    ensures
        outline(a, at) == outline(b, at),
    decreases a.node_count() - at,
{
    assert(a.in_subtree(at, at));
    let cs = a.children_of(at);
    assert forall|k: int| 0 <= k < cs.len() implies outline(a, cs[k] as int) == outline(
        b,
        cs[k] as int,
    ) by {
        let c = cs[k] as int;
        assert(a.has(a.children_of(at)[k] as int));
        assert(a.is_child(at, c));
        assert forall|j: int| #![trigger a.in_subtree(c, j)]
            a.has(j) && a.in_subtree(c, j) implies a.content_of(j)@ == b.content_of(j)@
            && a.children_of(j) == b.children_of(j) by {
            a.lemma_subtree_step(at, c, j);
        }
        lemma_outline_local(a, b, c);
    }
    assert(outline(a, at).children =~= outline(b, at).children);
}

/// The outline of a node, one level down: its label is what its content
/// shows, and its children are the outlines of its children.
pub proof fn lemma_outline_unfold(tree: &TreeNode<TreeItem>, at: int)
    requires
        tree.wf(),
        tree.has(at),
    ensures
        outline(tree, at).label == tree.content_of(at)@,
        outline(tree, at).children.len() == tree.children_of(at).len(),
        forall|k: int|
            0 <= k < tree.children_of(at).len() ==> {
                &&& (#[trigger] outline(tree, at).children[k]) == outline(
                    tree,
                    tree.children_of(at)[k] as int,
                )
                &&& outline(tree, at).children[k].label == tree.content_of(
                    tree.children_of(at)[k] as int,
                )@
            },
{
    assert forall|k: int| 0 <= k < tree.children_of(at).len() implies {
        &&& (#[trigger] outline(tree, at).children[k]) == outline(
            tree,
            tree.children_of(at)[k] as int,
        )
        &&& outline(tree, at).children[k].label == tree.content_of(
            tree.children_of(at)[k] as int,
        )@
    } by {
        tree.lemma_child(at, k);
        let c = tree.children_of(at)[k] as int;
        assert(outline(tree, c).label == tree.content_of(c)@);
    }
}

/// `b` differs from `a` at most in the content of `top` and of its
/// children, in the child list of `top`, and in parent links.
spec fn near(a: &TreeNode<TreeItem>, b: &TreeNode<TreeItem>, top: int) -> bool {
    &&& a.node_count() == b.node_count()
    &&& forall|j: int| #![trigger b.children_of(j)]
        a.has(j) && j != top ==> b.children_of(j) == a.children_of(j)
    &&& forall|j: int| #![trigger b.content_of(j)]
        a.has(j) && j != top && !a.is_child(top, j) ==> b.content_of(j) == a.content_of(j)
}

/// A change near `top` leaves the outline of a child of `top` as it was
/// below the child's own label.
proof fn lemma_outline_near(
    a: &TreeNode<TreeItem>,
    b: &TreeNode<TreeItem>,
    top: int,
    child: int,
)
    requires
        a.wf(),
        b.wf(),
        near(a, b, top),
        a.has(top),
        a.has(child),
        a.is_child(top, child),
    ensures
        outline(b, child) == (Explanation {
            label: b.content_of(child)@,
            children: outline(a, child).children,
        }),
{
    let gs = a.children_of(child);
    assert(b.children_of(child) == gs);
    assert forall|k: int| 0 <= k < gs.len() implies outline(a, gs[k] as int) == outline(
        b,
        gs[k] as int,
    ) by {
        a.lemma_child(child, k);
        let g = gs[k] as int;
        assert forall|j: int| #![trigger a.in_subtree(g, j)]
            a.has(j) && a.in_subtree(g, j) implies a.content_of(j)@ == b.content_of(j)@
            && a.children_of(j) == b.children_of(j) by {
            if j == top || a.is_child(top, j) {
                a.lemma_above_grandchild(top, child, g, j);
            }
        }
        lemma_outline_local(a, b, g);
    }
    assert(outline(b, child).children =~= outline(a, child).children);
}

/// Tells whether node `at` has children that are literals, all of them.
fn only_literals(tree: &TreeNode<TreeItem>, at: usize) -> (yes: bool)
    requires
        tree.wf(),
        tree.has(at as int),
    ensures
        yes == (outline(tree, at as int).children.len() > 0 && all_literal(
            outline(tree, at as int).children,
        )),
{
    let n = tree.children(at).len();
    if n == 0 {
        return false;
    }
    proof {
        lemma_outline_unfold(tree, at as int);
    }
    let mut k: usize = 0;
    while k < n
        invariant
            tree.wf(),
            tree.has(at as int),
            n == tree.children_of(at as int).len(),
            n == outline(tree, at as int).children.len(),
            k <= n,
            forall|i: int|
                0 <= i < n ==> (#[trigger] outline(tree, at as int).children[i]).label
                    == tree.content_of(tree.children_of(at as int)[i] as int)@,
            forall|i: int| 0 <= i < k ==> is_literal(#[trigger] outline(tree, at as int).children[i]),
        decreases n - k,
    {
        let c = tree.children(at)[k];
        proof {
            tree.lemma_child(at as int, k as int);
        }
        if !reads(&tree.content(c).title, "literal") {
            assert(!is_literal(outline(tree, at as int).children[k as int]));
            return false;
        }
        k += 1;
    }
    true
}

/// The details of the children of `at`, one after the other.
fn joined_text(tree: &TreeNode<TreeItem>, at: usize) -> (text: String)
    requires
        tree.wf(),
        tree.has(at as int),
    ensures
        text@ == joined(
            outline(tree, at as int).children,
            outline(tree, at as int).children.len() as int,
        ),
{
    let n = tree.children(at).len();
    let mut text = String::new();
    proof {
        lemma_outline_unfold(tree, at as int);
    }
    let mut k: usize = 0;
    while k < n
        invariant
            tree.wf(),
            tree.has(at as int),
            n == tree.children_of(at as int).len(),
            n == outline(tree, at as int).children.len(),
            k <= n,
            forall|i: int|
                0 <= i < n ==> (#[trigger] outline(tree, at as int).children[i]).label
                    == tree.content_of(tree.children_of(at as int)[i] as int)@,
            text@ == joined(outline(tree, at as int).children, k as int),
        decreases n - k,
    {
        let c = tree.children(at)[k];
        proof {
            tree.lemma_child(at as int, k as int);
            assert(outline(tree, at as int).children[k as int].label == tree.content_of(c as int)@);
        }
        text.append(tree.content(c).content.as_str());
        k += 1;
    }
    text
}

/// The label of a literal with its title changed to that of a run; any
/// other label as it is.
spec fn relabeled_label(l: Label) -> Label {
    if l.title == literal_title() {
        Label { title: text_title(), detail: l.detail, start: l.start, end: l.end }
    } else {
        l
    }
}

/// Retitles every literal among the children of `at`, each on its own.
fn relabel_literals(tree: &mut TreeNode<TreeItem>, at: usize)
    requires
        old(tree).wf(),
        old(tree).has(at as int),
    ensures
        final(tree).wf(),
        final(tree).same_links(old(tree)),
        forall|j: int| #![trigger final(tree).content_of(j)]
            old(tree).has(j) && !old(tree).is_child(at as int, j) ==> final(tree).content_of(j)
                == old(tree).content_of(j),
        forall|j: int| #![trigger final(tree).content_of(j)]
            old(tree).has(j) && old(tree).is_child(at as int, j) ==> final(tree).content_of(j)@
                == relabeled_label(old(tree).content_of(j)@),
{
    let n = tree.children(at).len();
    let ghost ids = tree.children_of(at as int);
    let mut k: usize = 0;
    while k < n
        invariant
            old(tree).wf(),
            tree.wf(),
            tree.has(at as int),
            tree.same_links(old(tree)),
            ids == old(tree).children_of(at as int),
            n == ids.len(),
            k <= n,
            forall|j: int| #![trigger tree.content_of(j)]
                old(tree).has(j) && !old(tree).is_child(at as int, j) ==> tree.content_of(j)
                    == old(tree).content_of(j),
            forall|i: int|
                0 <= i < k ==> (#[trigger] tree.content_of(ids[i] as int))@ == relabeled_label(
                    old(tree).content_of(ids[i] as int)@,
                ),
            forall|i: int|
                k <= i < n ==> #[trigger] tree.content_of(ids[i] as int) == old(tree).content_of(
                    ids[i] as int,
                ),
        decreases n - k,
    {
        assert(tree.children_of(at as int) == ids);
        let c = tree.children(at)[k];
        proof {
            old(tree).lemma_child(at as int, k as int);
            assert(ids.no_duplicates());
        }
        if reads(&tree.content(c).title, "literal") {
            let ghost before = *tree;
            let item = tree.content_mut(c);
            item.title = text_of("plain text");
            proof {
                assert forall|i: int| 0 <= i < n && i != k implies #[trigger] tree.content_of(
                    ids[i] as int,
                ) == before.content_of(ids[i] as int) by {
                    assert(ids[i] != ids[k as int]);
                }
                assert forall|j: int|
                    old(tree).has(j) && !old(tree).is_child(at as int, j) implies #[trigger] tree.content_of(j)
                    == old(tree).content_of(j) by {
                    assert(j != c);
                    assert(before.content_of(j) == old(tree).content_of(j));
                }
            }
        }
        k += 1;
    }
    proof {
        assert forall|j: int| #![trigger tree.content_of(j)]
            old(tree).has(j) && old(tree).is_child(at as int, j) implies tree.content_of(j)@
            == relabeled_label(old(tree).content_of(j)@) by {
            assert(old(tree).children_of(at as int).contains(j as usize));
            let i = choose|i: int| 0 <= i < ids.len() && ids[i] == j as usize;
            assert(tree.content_of(ids[i] as int)@ == relabeled_label(
                old(tree).content_of(ids[i] as int)@,
            ));
        }
    }
}

/// `kept` and `src` describe what the scan for runs made of the first `k`
/// children: the node `kept[i]` was the child at place `src[i]`, it now
/// shows the label of the `i`-th node the scan gives, and what lies below it
/// is what lay below that child.
spec fn scanned(
    tree: &TreeNode<TreeItem>,
    ids: Seq<usize>,
    pre: Seq<Explanation>,
    k: int,
    kept: Seq<usize>,
    src: Seq<int>,
) -> bool {
    let out = coalesce(pre, k);
    &&& kept.len() == out.len()
    &&& src.len() == out.len()
    &&& forall|i: int|
        0 <= i < out.len() ==> {
            &&& 0 <= #[trigger] src[i] < k
            &&& kept[i] == ids[src[i]]
            &&& tree.content_of(kept[i] as int)@ == out[i].label
            &&& out[i].children == pre[src[i]].children
        }
    &&& forall|i: int, j: int| 0 <= i < j < out.len() ==> #[trigger] src[i] < #[trigger] src[j]
}

/// The second stage at node `at`, up to the child list: scans the children
/// from left to right, grows each run in its first literal, and returns the
/// children that are to stay, in order.
fn scan_children(
    tree: &mut TreeNode<TreeItem>,
    at: usize,
    Ghost(pre): Ghost<Seq<Explanation>>,
) -> (r: (Vec<usize>, Ghost<Seq<int>>))
    requires
        old(tree).wf(),
        old(tree).has(at as int),
        pre.len() == old(tree).children_of(at as int).len(),
        forall|k: int|
            0 <= k < pre.len() ==> (#[trigger] pre[k]).label == old(tree).content_of(
                old(tree).children_of(at as int)[k] as int,
            )@,
    ensures
        final(tree).wf(),
        final(tree).same_links(old(tree)),
        forall|j: int| #![trigger final(tree).content_of(j)]
            old(tree).has(j) && !old(tree).is_child(at as int, j) ==> final(tree).content_of(j)
                == old(tree).content_of(j),
        scanned(
            final(tree),
            old(tree).children_of(at as int),
            pre,
            pre.len() as int,
            r.0@,
            r.1@,
        ),
{
    let n = tree.children(at).len();
    let ghost ids = tree.children_of(at as int);
    let mut kept: Vec<usize> = Vec::new();
    let mut run: Option<usize> = None;
    let ghost mut src: Seq<int> = Seq::empty();
    let mut k: usize = 0;
    proof {
        lemma_titles();
    }
    while k < n
        invariant
            old(tree).wf(),
            tree.wf(),
            tree.has(at as int),
            tree.same_links(old(tree)),
            ids == old(tree).children_of(at as int),
            n == ids.len(),
            pre.len() == n,
            k <= n,
            forall|i: int|
                0 <= i < n ==> (#[trigger] pre[i]).label == old(tree).content_of(ids[i] as int)@,
            forall|j: int| #![trigger tree.content_of(j)]
                old(tree).has(j) && !old(tree).is_child(at as int, j) ==> tree.content_of(j)
                    == old(tree).content_of(j),
            forall|i: int|
                k <= i < n ==> #[trigger] tree.content_of(ids[i] as int) == old(tree).content_of(
                    ids[i] as int,
                ),
            scanned(tree, ids, pre, k as int, kept@, src),
            run is Some <==> k > 0 && is_literal(pre[k - 1]),
            run matches Some(r) ==> kept@.len() > 0 && r == kept@.last(),
        decreases n - k,
    {
        assert(tree.children_of(at as int) == ids);
        let c = tree.children(at)[k];
        let ghost before = *tree;
        let ghost out = coalesce(pre, k as int);
        proof {
            old(tree).lemma_child(at as int, k as int);
            assert(ids.no_duplicates());
            assert(tree.content_of(ids[k as int] as int) == old(tree).content_of(ids[k as int] as int));
            assert(pre[k as int].label == tree.content_of(c as int)@);
            lemma_coalesce_shape(pre, k as int);
        }
        if reads(&tree.content(c).title, "literal") {
            match run {
                Some(r) => {
                    let extra = tree.content(c).content.clone();
                    let end = tree.content(c).span.end;
                    let ghost last = kept@.len() - 1;
                    assert(r == ids[src[last]]);
                    assert(src[last] < k);
                    assert(r != c);
                    let item = tree.content_mut(r);
                    item.content.append(extra.as_str());
                    item.span.end = end;
                    proof {
                        let grown = absorbed(out.last(), pre[k as int]);
                        let next = coalesce(pre, k + 1);
                        assert(next == out.drop_last().push(grown));
                        assert(tree.content_of(r as int)@ == grown.label);
                        assert forall|i: int| 0 <= i < next.len() implies {
                            &&& 0 <= #[trigger] src[i] < k + 1
                            &&& kept@[i] == ids[src[i]]
                            &&& tree.content_of(kept@[i] as int)@ == next[i].label
                            &&& next[i].children == pre[src[i]].children
                        } by {
                            if i < last {
                                assert(src[i] < src[last]);
                                assert(ids[src[i]] != ids[src[last]]);
                                assert(tree.content_of(kept@[i] as int) == before.content_of(
                                    kept@[i] as int,
                                ));
                                assert(next[i] == out[i]);
                            }
                        }
                        assert forall|i: int| k + 1 <= i < n implies #[trigger] tree.content_of(
                            ids[i] as int,
                        ) == old(tree).content_of(ids[i] as int) by {
                            assert(ids[i] != ids[src[last]]);
                            assert(before.content_of(ids[i] as int) == old(tree).content_of(
                                ids[i] as int,
                            ));
                        }
                        assert forall|j: int|
                            old(tree).has(j) && !old(tree).is_child(
                                at as int,
                                j,
                            ) implies #[trigger] tree.content_of(j) == old(tree).content_of(j) by {
                            old(tree).lemma_child(at as int, src[last]);
                            assert(before.content_of(j) == old(tree).content_of(j));
                        }
                    }
                },
                None => {
                    let item = tree.content_mut(c);
                    item.title = text_of("plain text");
                    kept.push(c);
                    run = Some(c);
                    proof {
                        let next = coalesce(pre, k + 1);
                        assert(next == out.push(retitled(pre[k as int])));
                        let ghost old_src = src;
                        src = src.push(k as int);
                        assert forall|i: int| 0 <= i < next.len() implies {
                            &&& 0 <= #[trigger] src[i] < k + 1
                            &&& kept@[i] == ids[src[i]]
                            &&& tree.content_of(kept@[i] as int)@ == next[i].label
                            &&& next[i].children == pre[src[i]].children
                        } by {
                            if i < out.len() {
                                assert(old_src[i] < k);
                                assert(ids[old_src[i]] != ids[k as int]);
                                assert(tree.content_of(kept@[i] as int) == before.content_of(
                                    kept@[i] as int,
                                ));
                                assert(next[i] == out[i]);
                            }
                        }
                        assert forall|i: int, j: int| 0 <= i < j < next.len() implies #[trigger] src[i]
                            < #[trigger] src[j] by {
                            if j < out.len() {
                                assert(old_src[i] < old_src[j]);
                            } else {
                                assert(old_src[i] < k);
                            }
                        }
                        assert forall|i: int| k + 1 <= i < n implies #[trigger] tree.content_of(
                            ids[i] as int,
                        ) == old(tree).content_of(ids[i] as int) by {
                            assert(ids[i] != ids[k as int]);
                            assert(before.content_of(ids[i] as int) == old(tree).content_of(
                                ids[i] as int,
                            ));
                        }
                        assert forall|j: int|
                            old(tree).has(j) && !old(tree).is_child(
                                at as int,
                                j,
                            ) implies #[trigger] tree.content_of(j) == old(tree).content_of(j) by {
                            assert(before.content_of(j) == old(tree).content_of(j));
                        }
                    }
                },
            }
        } else {
            run = None;
            if !tree.content(c).title.as_str().is_empty() {
                kept.push(c);
                proof {
                    let next = coalesce(pre, k + 1);
                    assert(next == out.push(pre[k as int]));
                    let ghost old_src = src;
                    src = src.push(k as int);
                    assert forall|i: int| 0 <= i < next.len() implies {
                        &&& 0 <= #[trigger] src[i] < k + 1
                        &&& kept@[i] == ids[src[i]]
                        &&& tree.content_of(kept@[i] as int)@ == next[i].label
                        &&& next[i].children == pre[src[i]].children
                    } by {
                        if i < out.len() {
                            assert(old_src[i] < k);
                            assert(next[i] == out[i]);
                        }
                    }
                    assert forall|i: int, j: int| 0 <= i < j < next.len() implies #[trigger] src[i]
                        < #[trigger] src[j] by {
                        if j < out.len() {
                            assert(old_src[i] < old_src[j]);
                        } else {
                            assert(old_src[i] < k);
                        }
                    }
                }
            } else {
                proof {
                    assert(coalesce(pre, k + 1) == out);
                    assert forall|i: int| 0 <= i < out.len() implies 0 <= #[trigger] src[i] < k
                        + 1 by {
                        assert(src[i] < k);
                    }
                }
            }
        }
        k += 1;
    }
    (kept, Ghost(src))
}

/// Runs the merge pass below each child of `at`.
fn merge_below(tree: &mut TreeNode<TreeItem>, at: usize, Ghost(out): Ghost<Seq<Explanation>>)
    requires
        old(tree).wf(),
        old(tree).has(at as int),
        out.len() == old(tree).children_of(at as int).len(),
        forall|i: int|
            0 <= i < out.len() ==> outline(
                old(tree),
                #[trigger] old(tree).children_of(at as int)[i] as int,
            ) == out[i],
    ensures
        final(tree).wf(),
        old(tree).changed_below(final(tree), at as int),
        final(tree).children_of(at as int) == old(tree).children_of(at as int),
        final(tree).content_of(at as int) == old(tree).content_of(at as int),
        forall|i: int|
            0 <= i < out.len() ==> outline(
                final(tree),
                #[trigger] old(tree).children_of(at as int)[i] as int,
            ) == merged(out[i]),
    decreases old(tree).node_count() - at, 0nat,
{
    let n = tree.children(at).len();
    let ghost ids = tree.children_of(at as int);
    let mut i: usize = 0;
    proof {
        assert(tree.in_subtree(at as int, at as int));
    }
    while i < n
        invariant
            old(tree).wf(),
            old(tree).has(at as int),
            tree.wf(),
            old(tree).changed_below(tree, at as int),
            ids == old(tree).children_of(at as int),
            tree.children_of(at as int) == ids,
            tree.content_of(at as int) == old(tree).content_of(at as int),
            n == ids.len(),
            out.len() == n,
            i <= n,
            forall|m: int| 0 <= m < i ==> outline(tree, #[trigger] ids[m] as int) == merged(out[m]),
            forall|m: int| i <= m < n ==> outline(tree, #[trigger] ids[m] as int) == out[m],
        decreases n - i,
    {
        let c = tree.children(at)[i];
        let ghost before = *tree;
        proof {
            before.lemma_child(at as int, i as int);
        }
        merge_literal(tree, c);
        proof {
            before.lemma_changed_below_chain(&before, tree, c as int, c as int);
            if before.in_subtree(c as int, at as int) {
                before.lemma_subtree_order(c as int, at as int);
            }
            old(tree).lemma_changed_below_chain(&before, tree, at as int, c as int);
            assert forall|m: int| 0 <= m < n && m != i implies outline(
                tree,
                #[trigger] ids[m] as int,
            ) == outline(&before, ids[m] as int) by {
                before.lemma_child(at as int, m);
                let d = ids[m] as int;
                assert(ids.no_duplicates());
                assert(d != c);
                assert forall|j: int| #![trigger before.in_subtree(d, j)]
                    before.has(j) && before.in_subtree(d, j) implies before.content_of(j)@
                    == tree.content_of(j)@ && before.children_of(j) == tree.children_of(j) by {
                    before.lemma_siblings_apart(d, c as int, j);
                }
                lemma_outline_local(&before, tree, d);
            }
        }
        i += 1;
    }
}

/// The merge pass at node `at` and below it. A concatenation of literal
/// characters becomes one text node; under an alternation each literal is
/// retitled on its own; among the children of any node, neighbouring
/// literals are joined into one text node and nodes without a title are
/// taken out; then the pass goes on below each child that is left. Nodes
/// outside the subtree of `at` are not touched. A node that is taken out
/// stays in the arena without a parent.
pub fn merge_literal(tree: &mut TreeNode<TreeItem>, at: usize)
    requires
        old(tree).wf(),
        old(tree).has(at as int),
    ensures
        final(tree).wf(),
        old(tree).changed_below(final(tree), at as int),
        outline(final(tree), at as int) == merged(outline(old(tree), at as int)),
    decreases old(tree).node_count() - at, 1nat,
{
    let ghost t0 = *tree;
    let ghost whole = outline(tree, at as int);
    let ghost ids = tree.children_of(at as int);
    proof {
        lemma_titles();
        lemma_outline_unfold(tree, at as int);
        lemma_merged_top_down(whole);
        assert(tree.in_subtree(at as int, at as int));
        assert forall|k: int| 0 <= k < ids.len() implies at < #[trigger] ids[k] && t0.is_child(
            at as int,
            ids[k] as int,
        ) && t0.in_subtree(at as int, ids[k] as int) by {
            t0.lemma_child(at as int, k);
        }
    }
    if reads(&tree.content(at).title, "sequence") && only_literals(tree, at) {
        let text = joined_text(tree, at);
        let item = tree.content_mut(at);
        item.title = text_of("plain text");
        item.content = text;
        let ghost t1 = *tree;
        let done = tree.children_mut(at, Vec::new());
        proof {
            assert(t1.selects(at as int, Seq::<usize>::empty()));
            assert(outline(tree, at as int).children =~= Seq::<Explanation>::empty());
            assert(merged_each(coalesce(Seq::<Explanation>::empty(), 0)) =~= Seq::<
                Explanation,
            >::empty());
            lemma_changed_near(&t0, tree, at as int);
        }
        return ;
    }
    if reads(&tree.content(at).title, "alternatives") {
        relabel_literals(tree, at);
    }
    let ghost pre = whole_node(whole).children;
    proof {
        assert forall|k: int| 0 <= k < pre.len() implies (#[trigger] pre[k]).label
            == tree.content_of(tree.children_of(at as int)[k] as int)@ && pre[k].children
            == outline(&t0, ids[k] as int).children by {
            assert(whole.children[k] == outline(&t0, ids[k] as int));
            assert(t0.is_child(at as int, ids[k] as int));
        }
    }
    let (kept, Ghost(src)) = scan_children(tree, at, Ghost(pre));
    let ghost t2 = *tree;
    let ghost out = coalesce(pre, pre.len() as int);
    proof {
        assert(t2.selects(at as int, kept@)) by {
            assert forall|i: int, j: int| 0 <= i < j < kept@.len() implies kept@[i]
                != kept@[j] by {
                assert(src[i] < src[j]);
                assert(ids.no_duplicates());
            }
            assert forall|k: int| 0 <= k < kept@.len() implies t2.children_of(
                at as int,
            ).contains(#[trigger] kept@[k]) by {
                assert(ids[src[k]] == kept@[k]);
            }
        }
    }
    let done = tree.children_mut(at, kept);
    proof {
        lemma_changed_near(&t0, tree, at as int);
        assert forall|i: int| 0 <= i < out.len() implies outline(
            tree,
            #[trigger] tree.children_of(at as int)[i] as int,
        ) == out[i] by {
            let c = tree.children_of(at as int)[i] as int;
            assert(c == ids[src[i]]);
            lemma_outline_near(&t0, tree, at as int, c);
        }
    }
    let ghost t3 = *tree;
    merge_below(tree, at, Ghost(out));
    proof {
        t0.lemma_changed_below_chain(&t3, tree, at as int, at as int);
        lemma_outline_unfold(tree, at as int);
        assert(outline(tree, at as int).children =~= merged_each(out));
    }
}

/// A change to the content of `top` and its children, to the child list of
/// `top` and to the parents of its children, which gives no node a new
/// parent, is a change below `top`.
proof fn lemma_changed_near(a: &TreeNode<TreeItem>, b: &TreeNode<TreeItem>, top: int)
    requires
        a.wf(),
        a.has(top),
        near(a, b, top),
        b.parent_of(top) == a.parent_of(top),
        forall|j: int| #![trigger b.parent_of(j)]
            a.has(j) ==> b.parent_of(j) == a.parent_of(j) || (b.parent_of(j) is None
                && a.is_child(top, j)),
    ensures
        a.changed_below(b, top),
{
    assert(a.in_subtree(top, top));
    assert forall|j: int| #![trigger a.in_subtree(top, j)]
        a.has(j) && !a.in_subtree(top, j) implies {
        &&& b.content_of(j) == a.content_of(j)
        &&& b.children_of(j) == a.children_of(j)
        &&& b.parent_of(j) == a.parent_of(j)
    } by {
        assert(!a.is_child(top, j));
    }
}

/// The nodes above `at`, outermost first, each as it stands while its last
/// child is still open: with its label and with its children but the last.
spec fn above(tree: &TreeNode<TreeItem>, at: int) -> Seq<Explanation>
    decreases at,
    when tree.wf() && tree.has(at)
{
    match tree.parent_of(at) {
        Some(p) => above(tree, p as int).push(
            Explanation {
                label: tree.content_of(p as int)@,
                children: outline(tree, p as int).children.drop_last(),
            },
        ),
        None => Seq::empty(),
    }
}

/// The open nodes of a walk whose cursor is on `at`, outermost first: the
/// nodes above `at` without their last child, and then `at` as it is.
spec fn open_nodes(tree: &TreeNode<TreeItem>, at: int) -> Seq<Explanation> {
    above(tree, at).push(outline(tree, at))
}

/// `at` lies on the right edge of the tree below node `0`: it is node `0`,
/// or the last child of a node on the right edge.
spec fn on_edge(tree: &TreeNode<TreeItem>, at: int) -> bool
    decreases at,
    when tree.wf() && tree.has(at)
{
    match tree.parent_of(at) {
        Some(p) => tree.children_of(p as int).len() > 0 && tree.children_of(p as int).last()
            == at && on_edge(tree, p as int),
        None => at == 0,
    }
}

proof fn lemma_edge_stable(a: &TreeNode<TreeItem>, b: &TreeNode<TreeItem>, at: int)
    requires
        a.wf(),
        b.wf(),
        a.node_count() <= b.node_count(),
        a.has(at),
        on_edge(a, at),
        forall|j: int| #![trigger b.parent_of(j)] a.has(j) ==> b.parent_of(j) == a.parent_of(j),
        forall|j: int| #![trigger b.children_of(j)]
            a.has(j) && j < at ==> b.children_of(j) == a.children_of(j),
    ensures
        on_edge(b, at),
    decreases at,
{
    match a.parent_of(at) {
        Some(p) => {
            assert(b.parent_of(at) == Some(p));
            assert(b.children_of(p as int) == a.children_of(p as int));
            lemma_edge_stable(a, b, p as int);
        },
        None => {
            assert(b.parent_of(at) is None);
        },
    }
}

proof fn lemma_above_stable(a: &TreeNode<TreeItem>, b: &TreeNode<TreeItem>, at: int, cur: int)
    requires
        a.wf(),
        b.wf(),
        a.node_count() <= b.node_count(),
        a.has(at),
        a.has(cur),
        on_edge(a, at),
        a.in_subtree(at, cur),
        forall|j: int| #![trigger b.parent_of(j)] a.has(j) ==> b.parent_of(j) == a.parent_of(j),
        forall|j: int| #![trigger b.content_of(j)]
            a.has(j) ==> b.content_of(j) == a.content_of(j),
        forall|j: int| #![trigger b.children_of(j)]
            a.has(j) && j != cur ==> b.children_of(j) == a.children_of(j),
    ensures
        above(b, at) == above(a, at),
    decreases at,
{
    a.lemma_subtree_order(at, cur);
    match a.parent_of(at) {
        Some(p) => {
            let p = p as int;
            assert(b.parent_of(at) == a.parent_of(at));
            assert(a.is_child(p, at));
            a.lemma_subtree_step(p, at, cur);
            lemma_above_stable(a, b, p, cur);
            let cs = a.children_of(p);
            assert(b.children_of(p) == cs);
            assert(b.content_of(p) == a.content_of(p));
            lemma_outline_unfold(a, p);
            lemma_outline_unfold(b, p);
            assert forall|k: int| 0 <= k < cs.len() - 1 implies outline(a, p).children[k]
                == outline(b, p).children[k] by {
                a.lemma_child(p, k);
                let c = cs[k] as int;
                assert(cs.no_duplicates());
                assert(c != at);
                assert forall|j: int| #![trigger a.in_subtree(c, j)]
                    a.has(j) && a.in_subtree(c, j) implies a.content_of(j)@ == b.content_of(j)@
                    && a.children_of(j) == b.children_of(j) by {
                    if j == cur {
                        a.lemma_siblings_apart(at, c, cur);
                    }
                }
                lemma_outline_local(a, b, c);
            }
            assert(outline(a, p).children.drop_last() =~= outline(b, p).children.drop_last());
        },
        None => {
            assert(b.parent_of(at) is None);
        },
    }
}

/// Entering a construct adds a leaf with its label to the open nodes.
proof fn lemma_entered_open(
    a: &TreeNode<TreeItem>,
    b: &TreeNode<TreeItem>,
    cur: int,
    content: TreeItem,
)
    requires
        a.wf(),
        b.wf(),
        a.has(cur),
        on_edge(a, cur),
        a.grown(b, cur, content),
    ensures
        on_edge(b, a.node_count() as int),
        open_nodes(b, a.node_count() as int) == open_nodes(a, cur).push(
            leaf(content@),
        ),
{
    let n = a.node_count() as int;
    assert(a.in_subtree(cur, cur));
    lemma_edge_stable(a, b, cur);
    lemma_above_stable(a, b, cur, cur);
    assert(b.children_of(cur).last() == n);
    assert(outline(b, n).children =~= Seq::<Explanation>::empty());
    let cs = a.children_of(cur);
    lemma_outline_unfold(a, cur);
    lemma_outline_unfold(b, cur);
    assert forall|k: int| 0 <= k < cs.len() implies outline(a, cur).children[k] == outline(
        b,
        cur,
    ).children[k] by {
        a.lemma_child(cur, k);
        let c = cs[k] as int;
        assert forall|j: int| #![trigger a.in_subtree(c, j)]
            a.has(j) && a.in_subtree(c, j) implies a.content_of(j)@ == b.content_of(j)@
            && a.children_of(j) == b.children_of(j) by {
            if j == cur {
                a.lemma_subtree_order(c, cur);
            }
        }
        lemma_outline_local(a, b, c);
    }
    assert(outline(b, cur).children.drop_last() =~= outline(a, cur).children);
}

/// Leaving a construct makes the innermost open node the last child of the
/// one above it.
proof fn lemma_left_open(tree: &TreeNode<TreeItem>, cur: int)
    requires
        tree.wf(),
        tree.has(cur),
        on_edge(tree, cur),
        tree.parent_of(cur) is Some,
    ensures
        open_nodes(tree, cur).len() >= 2,
        on_edge(tree, tree.parent_of(cur)->0 as int),
        open_nodes(tree, tree.parent_of(cur)->0 as int) == left(
            open_nodes(tree, cur),
        ),
{
    let p = tree.parent_of(cur)->0 as int;
    lemma_outline_unfold(tree, p);
    let stack = open_nodes(tree, cur);
    let kids = outline(tree, p).children;
    assert(kids.last() == outline(tree, cur));
    assert(kids.drop_last().push(outline(tree, cur)) =~= kids);
    assert(stack.drop_last() =~= above(tree, cur));
    assert(stack.drop_last().drop_last() =~= above(tree, p));
}

/// Leaving every open node gives the tree below node `0`.
proof fn lemma_closed_open(tree: &TreeNode<TreeItem>, cur: int)
    requires
        tree.wf(),
        tree.has(cur),
        on_edge(tree, cur),
    ensures
        closed(open_nodes(tree, cur)) == outline(tree, 0),
        open_nodes(tree, cur).len() >= 2 <==> tree.parent_of(cur) is Some,
    decreases cur,
{
    match tree.parent_of(cur) {
        Some(p) => {
            lemma_left_open(tree, cur);
            lemma_closed_open(tree, p as int);
        },
        None => {
            assert(above(tree, cur) =~= Seq::<Explanation>::empty());
        },
    }
}

/// Builds the explanation tree while the syntax tree of a pattern is walked.
/// The arena starts with a node that stands for no construct; the
/// cursor names the node below which the next construct is added.
///
/// The builder is seen as its open nodes, outermost first: the node it
/// started with, then each construct that was entered and not yet left,
/// every one with the children it has got so far.
pub struct MyAstVisitor {
    root: TreeNode<TreeItem>,
    tree: usize,
}

impl View for MyAstVisitor {
    type V = Seq<Explanation>;

    closed spec fn view(&self) -> Seq<Explanation> {
        open_nodes(&self.root, self.tree as int)
    }
}

/// The label of the node a builder starts with.
pub open spec fn root_label() -> Label {
    Label { title: "root"@, detail: Seq::empty(), start: 0, end: 0 }
}

/// The label a construct is entered with.
pub open spec fn construct_label(ast: Construct) -> Label {
    Label {
        title: title_of(ast.kind),
        detail: detail_of(ast.kind),
        start: ast.start as u32,
        end: ast.end as u32,
    }
}

/// The label a class item that gets a node is entered with.
pub open spec fn item_label_of(ast: ClassSetItem) -> Label {
    Label {
        title: item_title_of(ast.kind),
        detail: item_detail_of(ast.kind),
        start: ast.start as u32,
        end: ast.end as u32,
    }
}

impl MyAstVisitor {
    /// The tree is consistent, and the cursor is on the last node that was
    /// entered and not yet left.
    pub closed spec fn wf(&self) -> bool {
        &&& self.root.wf()
        &&& self.root.has(self.tree as int)
        &&& on_edge(&self.root, self.tree as int)
    }

    /// There is always an open node: the one the builder started with.
    pub proof fn lemma_open(&self)
        requires
            self.wf(),
        ensures
            self@.len() >= 1,
    {
    }

    /// A builder whose only open node is the one that stands for no
    /// construct: its title is `root`, its detail is empty and its span is
    /// `[0, 0)`.
    pub fn new() -> (visitor: Self)
        ensures
            visitor.wf(),
            visitor@ == seq![leaf(root_label())],
    {
        let root = TreeNode::new(TreeItem::new(text_of("root"), String::new(), 0, 0));
        let visitor = Self { root, tree: 0 };
        proof {
            assert(above(&visitor.root, 0) =~= Seq::<Explanation>::empty());
            assert(outline(&visitor.root, 0).children =~= Seq::<Explanation>::empty());
            assert(visitor@ =~= seq![leaf(root_label())]);
        }
        visitor
    }

    /// Called once before the walk; there is nothing to prepare.
    pub fn start(&mut self)
        ensures
            *final(self) == *old(self),
    {
    }

    /// Tells whether a construct is open, so that it can be left.
    pub fn has_parent(&self) -> (below: bool)
        requires
            self.wf(),
        ensures
            below == (self@.len() >= 2),
    {
        proof {
            lemma_closed_open(&self.root, self.tree as int);
        }
        self.root.parent(self.tree).is_some()
    }

    /// Enters a construct: a node with the title and the detail that the
    /// classification table gives the construct, and with its span, becomes
    /// the innermost open node.
    pub fn visit_pre(&mut self, ast: &Construct)
        requires
            old(self).wf(),
        ensures
            final(self).wf(),
            final(self)@ == old(self)@.push(leaf(construct_label(*ast))),
    {
        let (title, content) = label(&ast.kind);
        self.enter(TreeItem::new(title, content, ast.start, ast.end));
    }

    fn enter(&mut self, item: TreeItem)
        requires
            old(self).wf(),
        ensures
            final(self).wf(),
            final(self)@ == old(self)@.push(leaf(item@)),
    {
        let ghost before = self.root;
        let ghost shown = item@;
        let id = self.root.push(self.tree, item);
        proof {
            lemma_entered_open(&before, &self.root, self.tree as int, self.root.content_of(id as int));
        }
        self.tree = id;
    }

    /// Leaves a construct: the innermost open node is complete and becomes
    /// the last child of the node above it. A construct must be open; the
    /// node the builder started with cannot be left.
    pub fn visit_post(&mut self, ast: &Construct)
        requires
            old(self).wf(),
            old(self)@.len() >= 2,
        ensures
            final(self).wf(),
            final(self)@ == left(old(self)@),
    {
        self.ascend();
    }

    fn ascend(&mut self)
        requires
            old(self).wf(),
            old(self)@.len() >= 2,
        ensures
            final(self).wf(),
            final(self)@ == left(old(self)@),
    {
        proof {
            lemma_closed_open(&self.root, self.tree as int);
            lemma_left_open(&self.root, self.tree as int);
        }
        match self.root.parent(self.tree) {
            Some(p) => {
                self.tree = p;
            },
            None => {},
        }
    }

    /// Ends the walk: every construct that is still open is taken as left,
    /// the merge pass runs over the whole tree, and the arena is handed out
    /// with the index of the explanation's top node, which is the first
    /// node below the one the builder started with. Where the walk has
    /// left nothing there, a placeholder titled `empty` with the span
    /// `[0, 0)` is put there first. The top node is handed out without a
    /// parent.
    pub fn finish(self) -> (done: (TreeNode<TreeItem>, usize))
        requires
            self.wf(),
        ensures
            done.0.wf(),
            done.0.has(done.1 as int),
            done.0.parent_of(done.1 as int) is None,
            outline(&done.0, done.1 as int) == finished(closed(self@)),
    {
        proof {
            lemma_closed_open(&self.root, self.tree as int);
        }
        let mut root = self.root;
        merge_literal(&mut root, 0);
        let ghost after_merge = root;
        proof {
            lemma_outline_unfold(&root, 0);
        }
        if root.children(0).len() == 0 {
            let id = root.push(0, TreeItem::new(text_of("empty"), String::new(), 0, 0));
            proof {
                assert(outline(&root, id as int).children =~= Seq::<Explanation>::empty());
            }
        }
        let top = root.children(0)[0];
        let ghost before = root;
        proof {
            before.lemma_child(0, 0);
        }
        let detached = root.children_mut(0, Vec::new());
        proof {
            assert(before.selects(0, Seq::<usize>::empty()));
            assert(before.children_of(0).contains(top)) by {
                assert(before.children_of(0)[0] == top);
            }
            assert forall|j: int| #![trigger before.in_subtree(top as int, j)]
                before.has(j) && before.in_subtree(top as int, j) implies before.content_of(j)@
                == root.content_of(j)@ && before.children_of(j) == root.children_of(j) by {
                before.lemma_subtree_order(top as int, j);
            }
            lemma_outline_local(&before, &root, top as int);
        }
        (root, top)
    }

    /// Passing from one branch of an alternation to the next adds nothing.
    pub fn visit_alternation_in(&mut self)
        ensures
            *final(self) == *old(self),
    {
    }

    /// Enters an item of a bracketed class. A union is transparent: its
    /// members will be added straight below the innermost open node, and
    /// nothing changes now. Any other item is entered like a construct.
    pub fn visit_class_set_item_pre(&mut self, ast: &ClassSetItem)
        requires
            old(self).wf(),
        ensures
            final(self).wf(),
            !item_has_node(ast.kind) ==> *final(self) == *old(self),
            item_has_node(ast.kind) ==> final(self)@ == old(self)@.push(
                leaf(item_label_of(*ast)),
            ),
    {
        match item_label(&ast.kind) {
            Some((title, content)) => {
                self.enter(TreeItem::new(title, content, ast.start, ast.end));
            },
            None => {},
        }
    }

    /// Leaves an item of a bracketed class. Leaving a union changes
    /// nothing; any other item is left like a construct, and an item or a
    /// construct must then be open.
    pub fn visit_class_set_item_post(&mut self, ast: &ClassSetItem)
        requires
            old(self).wf(),
            item_has_node(ast.kind) ==> old(self)@.len() >= 2,
        ensures
            final(self).wf(),
            !item_has_node(ast.kind) ==> *final(self) == *old(self),
            item_has_node(ast.kind) ==> final(self)@ == left(old(self)@),
    {
        if item_gets_node(&ast.kind) {
            self.ascend();
        }
    }

    /// Entering a set operation between classes adds nothing; its operands
    /// arrive as items.
    pub fn visit_class_set_binary_op_pre(&mut self)
        ensures
            *final(self) == *old(self),
    {
    }

    /// Leaving a set operation between classes changes nothing.
    pub fn visit_class_set_binary_op_post(&mut self)
        ensures
            *final(self) == *old(self),
    {
    }

    /// Passing from the left operand of a set operation to the right one
    /// changes nothing.
    pub fn visit_class_set_binary_op_in(&mut self)
        ensures
            *final(self) == *old(self),
    {
    }
}

/// What the walk over a syntax tree reports, in the order of the walk.
pub enum Event {
    /// A construct is entered.
    Pre(Construct),
    /// The construct that was entered last and not yet left is left.
    Post,
    /// The walk passes from one branch of an alternation to the next.
    AlternationIn,
    /// An item of a bracketed class is entered.
    ClassSetItemPre(ClassSetItem),
    /// An item of a bracketed class is left.
    ClassSetItemPost(ClassSetItem),
    /// A set operation between classes is entered.
    ClassSetBinaryOpPre,
    /// The walk passes from the left operand of a set operation to the right.
    ClassSetBinaryOpIn,
    /// A set operation between classes is left.
    ClassSetBinaryOpPost,
}

/// A walk left a construct that it had not entered.
pub struct ProtocolFault {
    /// The place of the offending event in the walk.
    pub at: usize,
}

/// The open nodes after one more event, or nothing where the event leaves a
/// construct and none is open.
pub open spec fn stepped(open: Seq<Explanation>, event: Event) -> Option<Seq<Explanation>> {
    match event {
        Event::Pre(ast) => Some(open.push(leaf(construct_label(ast)))),
        Event::Post => if open.len() >= 2 {
            Some(left(open))
        } else {
            None
        },
        Event::ClassSetItemPre(ast) => if item_has_node(ast.kind) {
            Some(open.push(leaf(item_label_of(ast))))
        } else {
            Some(open)
        },
        Event::ClassSetItemPost(ast) => if !item_has_node(ast.kind) {
            Some(open)
        } else if open.len() >= 2 {
            Some(left(open))
        } else {
            None
        },
        _ => Some(open),
    }
}

/// The open nodes after the first `n` events of a walk that starts with a
/// new builder, or nothing where one of these events cannot be taken.
pub open spec fn walked(events: Seq<Event>, n: int) -> Option<Seq<Explanation>>
    decreases n,
{
    if n <= 0 {
        Some(seq![leaf(root_label())])
    } else {
        match walked(events, n - 1) {
            Some(open) => stepped(open, events[n - 1]),
            None => None,
        }
    }
}

/// A walk that cannot take its first `i` events cannot take more of them.
pub proof fn lemma_walk_stays_broken(events: Seq<Event>, i: int, n: int)
    requires
        0 <= i <= n,
        walked(events, i) is None,
    ensures
        walked(events, n) is None,
    decreases n - i,
{
    if i < n {
        lemma_walk_stays_broken(events, i, n - 1);
    }
}

/// Builds the explanation of a pattern from the events of the walk over its
/// syntax tree: a new builder takes the events one by one and is then
/// finished. The walk is refused at the first event that leaves a construct
/// while none is open.
pub fn parse(events: &Vec<Event>) -> (made: Result<(TreeNode<TreeItem>, usize), ProtocolFault>)
    ensures
        match made {
            Ok(done) => {
                &&& walked(events@, events@.len() as int) matches Some(open) && outline(
                    &done.0,
                    done.1 as int,
                ) == finished(closed(open))
                &&& done.0.wf()
                &&& done.0.has(done.1 as int)
                &&& done.0.parent_of(done.1 as int) is None
            },
            Err(fault) => {
                &&& fault.at < events@.len()
                &&& walked(events@, fault.at as int) is Some
                &&& walked(events@, fault.at + 1) is None
                &&& walked(events@, events@.len() as int) is None
            },
        },
{
    let mut visitor = MyAstVisitor::new();
    visitor.start();
    let mut i: usize = 0;
    while i < events.len()
        invariant
            i <= events.len(),
            visitor.wf(),
            walked(events@, i as int) == Some(visitor@),
        decreases events.len() - i,
    {
        let ghost open = visitor@;
        let mut fault = false;
        match &events[i] {
            Event::Pre(ast) => {
                visitor.visit_pre(ast);
            },
            Event::Post => {
                if visitor.has_parent() {
                    visitor.ascend();
                } else {
                    fault = true;
                }
            },
            Event::AlternationIn => {
                visitor.visit_alternation_in();
            },
            Event::ClassSetItemPre(ast) => {
                visitor.visit_class_set_item_pre(ast);
            },
            Event::ClassSetItemPost(ast) => {
                if !item_gets_node(&ast.kind) || visitor.has_parent() {
                    visitor.visit_class_set_item_post(ast);
                } else {
                    fault = true;
                }
            },
            Event::ClassSetBinaryOpPre => {
                visitor.visit_class_set_binary_op_pre();
            },
            Event::ClassSetBinaryOpIn => {
                visitor.visit_class_set_binary_op_in();
            },
            Event::ClassSetBinaryOpPost => {
                visitor.visit_class_set_binary_op_post();
            },
        }
        if fault {
            proof {
                assert(stepped(open, events@[i as int]) is None);
                lemma_walk_stays_broken(events@, i + 1, events@.len() as int);
            }
            return Err(ProtocolFault { at: i });
        }
        assert(stepped(open, events@[i as int]) == Some(visitor@));
        i += 1;
    }
    Ok(visitor.finish())
}

/// The event keeps span containment: a construct or an item that is
/// entered has a span that fits the open nodes.
pub open spec fn step_fits(open: Seq<Explanation>, event: Event) -> bool {
    match event {
        Event::Pre(ast) => fits(open, construct_label(ast)),
        Event::ClassSetItemPre(ast) => item_has_node(ast.kind) ==> fits(open, item_label_of(ast)),
        _ => true,
    }
}

/// Each of the first `n` events of the walk keeps span containment.
pub open spec fn walk_fits(events: Seq<Event>, n: int) -> bool
    decreases n,
{
    n <= 0 || (walk_fits(events, n - 1) && match walked(events, n - 1) {
        Some(open) => step_fits(open, events[n - 1]),
        None => true,
    })
}

/// When the event leaves a construct or an item, that one has a title and,
/// if it is a concatenation, is covered by its children.
pub open spec fn step_tiles(open: Seq<Explanation>, event: Event) -> bool {
    let leaves = match event {
        Event::Post => true,
        Event::ClassSetItemPost(ast) => item_has_node(ast.kind),
        _ => false,
    };
    leaves ==> !is_untitled(open.last()) && (open.last().label.title == sequence_title()
        ==> tiles(open.last()))
}

/// Each of the first `n` events of the walk that leaves a construct leaves
/// it titled and, if it is a concatenation, covered.
pub open spec fn walk_tiles(events: Seq<Event>, n: int) -> bool
    decreases n,
{
    n <= 0 || (walk_tiles(events, n - 1) && match walked(events, n - 1) {
        Some(open) => step_tiles(open, events[n - 1]),
        None => true,
    })
}

proof fn lemma_walk_keeps_spans(events: Seq<Event>, n: int)
    requires
        0 <= n <= events.len(),
        walk_fits(events, n),
        walked(events, n) is Some,
    ensures
        open_well_spanned(walked(events, n)->0),
    decreases n,
{
    if n > 0 {
        lemma_walk_keeps_spans(events, n - 1);
        let open = walked(events, n - 1)->0;
        match events[n - 1] {
            Event::Pre(ast) => {
                lemma_enter_keeps_spans(open, construct_label(ast));
            },
            Event::Post => {
                lemma_leave_keeps_spans(open);
            },
            Event::ClassSetItemPre(ast) => {
                if item_has_node(ast.kind) {
                    lemma_enter_keeps_spans(open, item_label_of(ast));
                }
            },
            Event::ClassSetItemPost(ast) => {
                if item_has_node(ast.kind) {
                    lemma_leave_keeps_spans(open);
                }
            },
            _ => {},
        }
    } else {
        let start = seq![leaf(root_label())];
        assert(top_well_spanned(start[0]));
    }
}

proof fn lemma_walk_keeps_tiling(events: Seq<Event>, n: int)
    requires
        0 <= n <= events.len(),
        walk_tiles(events, n),
        walked(events, n) is Some,
    ensures
        open_tiled(walked(events, n)->0),
    decreases n,
{
    if n > 0 {
        lemma_walk_keeps_tiling(events, n - 1);
        let open = walked(events, n - 1)->0;
        match events[n - 1] {
            Event::Pre(ast) => {
                lemma_enter_keeps_tiling(open, construct_label(ast));
            },
            Event::Post => {
                lemma_leave_keeps_tiling(open);
            },
            Event::ClassSetItemPre(ast) => {
                if item_has_node(ast.kind) {
                    lemma_enter_keeps_tiling(open, item_label_of(ast));
                }
            },
            Event::ClassSetItemPost(ast) => {
                if item_has_node(ast.kind) {
                    lemma_leave_keeps_tiling(open);
                }
            },
            _ => {},
        }
    }
}

/// Span containment in what `parse` hands out: if every construct of the
/// walk was entered with a span that does not end before it starts, lies
/// within the construct around it and starts no earlier than the
/// construct before it ends, then in the explanation no span ends before it
/// starts, every node lies within its parent, and the children of a node
/// follow each other from left to right.
pub proof fn lemma_parsed_well_spanned(events: Seq<Event>)
    requires
        walk_fits(events, events.len() as int),
        walked(events, events.len() as int) is Some,
    ensures
        well_spanned(finished(closed(walked(events, events.len() as int)->0))),
{
    lemma_walk_keeps_spans(events, events.len() as int);
    lemma_walk_well_spanned(walked(events, events.len() as int)->0);
}

/// Span coverage in what `parse` hands out: if the walk left every
/// construct it entered, and every construct had a title and, if it was a
/// concatenation, was covered by its children from its start to its end
/// without gap or overlap when it was left, then every concatenation in the
/// explanation is covered by its children in that way.
pub proof fn lemma_parsed_tiled(events: Seq<Event>)
    requires
        walk_tiles(events, events.len() as int),
        walked(events, events.len() as int) matches Some(open) && open.len() == 1,
    ensures
        sequences_tiled(finished(closed(walked(events, events.len() as int)->0))),
{
    lemma_walk_keeps_tiling(events, events.len() as int);
    lemma_walk_tiled(walked(events, events.len() as int)->0);
}

} // verus!
