//! A generic tree whose nodes live in an arena and are named by their index.
//!
//! Every node stores its content, the ordered list of its children and the
//! index of its parent. A node is only ever added below an existing node, so a
//! parent always has a smaller index than its children; this is what makes
//! walking up and walking down terminate.
use vstd::prelude::*;

verus! {

#[derive(Debug)]
struct Slot<T> {
    content: T,
    children: Vec<usize>,
    parent: Option<usize>,
}

/// A forest of nodes with content of type `T`. Node `0` is the node the tree
/// was created with; nodes that were taken out of their parent's child list
/// stay in the arena as roots of their own.
#[derive(Debug)]
pub struct TreeNode<T> {
    slots: Vec<Slot<T>>,
}

/// Tells whether `x` occurs in `v`.
pub fn holds(v: &Vec<usize>, x: usize) -> (found: bool)
    ensures
        found == v@.contains(x),
{
    let mut i: usize = 0;
    while i < v.len()
        invariant
            i <= v.len(),
            forall|k: int| 0 <= k < i ==> v@[k] != x,
        decreases v.len() - i,
    {
        if v[i] == x {
            return true;
        }
        i += 1;
    }
    false
}

/// `x` is one of the first `m` entries of `list`.
pub open spec fn among_first(list: Seq<usize>, m: int, x: usize) -> bool {
    exists|q: int| 0 <= q < m && q < list.len() && #[trigger] list[q] == x
}

impl<T> TreeNode<T> {
    /// The number of nodes in the arena.
    pub closed spec fn node_count(&self) -> nat {
        self.slots@.len()
    }

    /// The content stored at node `at`.
    pub closed spec fn content_of(&self, at: int) -> T {
        self.slots@[at].content
    }

    /// The children of node `at`, left to right.
    pub closed spec fn children_of(&self, at: int) -> Seq<usize> {
        self.slots@[at].children@
    }

    /// The parent of node `at`, if it has one.
    pub closed spec fn parent_of(&self, at: int) -> Option<usize> {
        self.slots@[at].parent
    }

    /// `at` names a node of this arena.
    pub open spec fn has(&self, at: int) -> bool {
        0 <= at < self.node_count()
    }

    /// Structural consistency: a node that names a parent is listed exactly
    /// once among that parent's children, a node listed among the children of
    /// `p` names `p` as its parent, and a parent precedes its children.
    pub open spec fn wf(&self) -> bool {
        &&& 1 <= self.node_count() <= usize::MAX
        &&& forall|i: int| #![trigger self.parent_of(i)]
            self.has(i) ==> match self.parent_of(i) {
                Some(p) => p < i && self.children_of(p as int).contains(i as usize),
                None => true,
            }
        &&& forall|p: int, k: int| #![trigger self.children_of(p)[k]]
            self.has(p) && 0 <= k < self.children_of(p).len() ==> {
                &&& self.has(self.children_of(p)[k] as int)
                &&& self.is_child(p, self.children_of(p)[k] as int)
            }
        &&& forall|p: int| #![trigger self.children_of(p)]
            self.has(p) ==> self.children_of(p).no_duplicates()
    }

    /// The two arenas have the same nodes with the same links.
    pub open spec fn same_links(&self, other: &Self) -> bool {
        &&& self.node_count() == other.node_count()
        &&& forall|i: int| #![trigger self.parent_of(i)] #![trigger self.children_of(i)]
            self.has(i) ==> self.parent_of(i) == other.parent_of(i) && self.children_of(i)
                == other.children_of(i)
    }

    /// The two arenas hold the same content at every node but `at`.
    pub open spec fn same_contents_but(&self, other: &Self, at: int) -> bool {
        forall|i: int| #![trigger self.content_of(i)]
            self.has(i) && i != at ==> self.content_of(i) == other.content_of(i)
    }

    /// The topmost ancestor of `at`, found by following parent links.
    pub open spec fn root_of(&self, at: int) -> int
        decreases at,
        when self.wf() && self.has(at)
    {
        match self.parent_of(at) {
            Some(p) => self.root_of(p as int),
            None => at,
        }
    }

    /// `at` is `top` or lies below it.
    pub open spec fn in_subtree(&self, top: int, at: int) -> bool
        decreases at,
        when self.wf() && self.has(at)
    {
        at == top || match self.parent_of(at) {
            Some(p) => self.in_subtree(top, p as int),
            None => false,
        }
    }

    /// Creates a tree of one node, which has no parent and no children.
    pub fn new(content: T) -> (tree: Self)
        ensures
            tree.wf(),
            tree.node_count() == 1,
            tree.content_of(0) == content,
            tree.children_of(0) == Seq::<usize>::empty(),
            tree.parent_of(0) == None::<usize>,
    {
        Self::new_inner(content)
    }

    fn new_inner(content: T) -> (tree: Self)
        ensures
            tree.wf(),
            tree.node_count() == 1,
            tree.content_of(0) == content,
            tree.children_of(0) == Seq::<usize>::empty(),
            tree.parent_of(0) == None::<usize>,
    {
        let mut slots: Vec<Slot<T>> = Vec::new();
        slots.push(Slot { content, children: Vec::new(), parent: None });
        TreeNode { slots }
    }

    /// The number of nodes in the arena.
    pub fn len(&self) -> (n: usize)
        ensures
            n == self.node_count(),
    {
        self.slots.len()
    }

    /// Adds a node with `content` as the last child of `at` and returns its
    /// index. Every other node keeps its index, content and links.
    pub fn push(&mut self, at: usize, content: T) -> (id: usize)
        requires
            old(self).wf(),
            old(self).has(at as int),
        ensures
            final(self).wf(),
            id == old(self).node_count(),
            old(self).grown(final(self), at as int, content),
    {
        let id = self.slots.len();
        self.slots.push(Slot { content, children: Vec::new(), parent: Some(at) });
        self.slots[at].children.push(id);
        proof {
            let before = *old(self);
            let after = *self;
            assert(after.node_count() == self.slots.len());
            assert forall|p: int, k: int|
                after.has(p) && 0 <= k < after.children_of(p).len() implies {
                &&& after.has(#[trigger] after.children_of(p)[k] as int)
                &&& after.is_child(p, after.children_of(p)[k] as int)
            } by {
                if p == at && k == before.children_of(p).len() {
                } else if p == id {
                } else {
                    let c = before.children_of(p)[k];
                    assert(before.has(c as int));
                }
            }
            assert forall|p: int| after.has(p) implies (#[trigger] after.children_of(
                p,
            )).no_duplicates() by {
                if p == at {
                    let cs = before.children_of(p);
                    assert(cs.no_duplicates());
                    assert forall|k: int| 0 <= k < cs.len() implies cs[k] != id by {
                        assert(before.has(before.children_of(p)[k] as int));
                    }
                } else if p == id {
                } else {
                    assert(before.children_of(p).no_duplicates());
                }
            }
            assert forall|i: int| after.has(i) implies match #[trigger] after.parent_of(i) {
                Some(p) => p < i && after.children_of(p as int).contains(i as usize),
                None => true,
            } by {
                if i == id {
                    assert(after.children_of(at as int)[before.children_of(at as int).len() as int]
                        == id);
                } else {
                    match before.parent_of(i) {
                        Some(p) => {
                            assert(before.children_of(p as int).contains(i as usize));
                            let k = choose|k: int|
                                0 <= k < before.children_of(p as int).len() && before.children_of(
                                    p as int,
                                )[k] == i as usize;
                            assert(after.children_of(p as int)[k] == i as usize);
                        },
                        None => {},
                    }
                }
            }
        }
        id
    }

    /// The parent of `at`, or `None` where `at` is a root.
    pub fn parent(&self, at: usize) -> (p: Option<usize>)
        requires
            self.has(at as int),
        ensures
            p == self.parent_of(at as int),
    {
        self.slots[at].parent
    }

    /// Walks the parent links from `at` up to the node that has no parent.
    pub fn root(&self, at: usize) -> (top: usize)
        requires
            self.wf(),
            self.has(at as int),
        ensures
            top == self.root_of(at as int),
            self.has(top as int),
            self.parent_of(top as int) is None,
            self.in_subtree(top as int, at as int),
    {
        let mut cur = at;
        loop
            invariant
                self.wf(),
                self.has(cur as int),
                self.root_of(cur as int) == self.root_of(at as int),
                forall|top: int| self.in_subtree(top, cur as int) ==> self.in_subtree(top, at as int),
            decreases cur,
        {
            match self.slots[cur].parent {
                Some(p) => {
                    assert(self.parent_of(cur as int) == Some(p));
                    cur = p;
                },
                None => {
                    assert(self.parent_of(cur as int) is None);
                    return cur;
                },
            }
        }
    }

    /// Read access to the content of `at`.
    pub fn content(&self, at: usize) -> (c: &T)
        requires
            self.has(at as int),
        ensures
            *c == self.content_of(at as int),
    {
        &self.slots[at].content
    }

    /// Write access to the content of `at`. What the caller leaves behind the
    /// reference becomes the content of `at`; nothing else changes.
    pub fn content_mut(&mut self, at: usize) -> (c: &mut T)
        requires
            old(self).has(at as int),
        ensures
            *c == old(self).content_of(at as int),
            final(self).content_of(at as int) == *final(c),
            final(self).same_links(old(self)),
            final(self).same_contents_but(old(self), at as int),
            old(self).wf() ==> final(self).wf(),
    {
        proof {
            assert forall|later: Self| old(self).wf() && #[trigger] later.same_links(
                old(self),
            ) implies later.wf() by {
                old(self).lemma_same_links_wf(&later);
            }
        }
        &mut self.slots[at].content
    }

    /// Replaces the content of `at`; nothing else changes.
    pub fn set_content(&mut self, at: usize, content: T)
        requires
            old(self).has(at as int),
        ensures
            final(self).content_of(at as int) == content,
            final(self).same_links(old(self)),
            final(self).same_contents_but(old(self), at as int),
            old(self).wf() ==> final(self).wf(),
    {
        self.slots[at].content = content;
        proof {
            if old(self).wf() {
                old(self).lemma_same_links_wf(self);
            }
        }
    }

    /// Read access to the ordered child list of `at`.
    pub fn children(&self, at: usize) -> (cs: &Vec<usize>)
        requires
            self.has(at as int),
        ensures
            cs@ == self.children_of(at as int),
    {
        &self.slots[at].children
    }

    /// `children` may become the child list of `at`: it names children of
    /// `at` only, and none of them twice.
    pub open spec fn selects(&self, at: int, children: Seq<usize>) -> bool {
        &&& self.has(at)
        &&& children.no_duplicates()
        &&& forall|k: int|
            0 <= k < children.len() ==> self.children_of(at).contains(#[trigger] children[k])
    }

    /// Write access to the ordered child list of `at`: the list is replaced by
    /// `children`, which may leave out and reorder the present children but
    /// not bring in other nodes. A child that is left out loses its parent
    /// and becomes a root of its own. Where `children` is no such selection,
    /// nothing changes and the result is `false`.
    pub fn children_mut(&mut self, at: usize, children: Vec<usize>) -> (done: bool)
        requires
            old(self).wf(),
        ensures
            done == old(self).selects(at as int, children@),
            !done ==> *final(self) == *old(self),
            done ==> {
                &&& final(self).wf()
                &&& final(self).node_count() == old(self).node_count()
                &&& final(self).children_of(at as int) == children@
                &&& forall|i: int| #![trigger final(self).content_of(i)]
                    old(self).has(i) ==> final(self).content_of(i) == old(self).content_of(i)
                &&& forall|i: int| #![trigger final(self).children_of(i)]
                    old(self).has(i) && i != at ==> final(self).children_of(i) == old(
                        self,
                    ).children_of(i)
                &&& forall|i: int| #![trigger final(self).parent_of(i)]
                    old(self).has(i) ==> final(self).parent_of(i) == if old(self).children_of(
                        at as int,
                    ).contains(i as usize) && !children@.contains(i as usize) {
                        None
                    } else {
                        old(self).parent_of(i)
                    }
            },
    {
        if at >= self.slots.len() {
            return false;
        }
        let mut k: usize = 0;
        while k < children.len()
            invariant
                at < self.slots.len(),
                *self == *old(self),
                k <= children.len(),
                forall|i: int|
                    0 <= i < k ==> self.children_of(at as int).contains(#[trigger] children@[i]),
                forall|i: int, j: int| 0 <= i < j < k ==> children@[i] != children@[j],
            decreases children.len() - k,
        {
            let c = children[k];
            if !holds(&self.slots[at].children, c) {
                return false;
            }
            let mut j: usize = 0;
            while j < k
                invariant
                    j <= k < children.len(),
                    c == children@[k as int],
                    forall|i: int| 0 <= i < j ==> children@[i] != c,
                decreases k - j,
            {
                if children[j] == c {
                    return false;
                }
                j += 1;
            }
            k += 1;
        }
        let count = self.slots[at].children.len();
        let mut m: usize = 0;
        while m < count
            invariant
                at < self.slots.len(),
                old(self).wf(),
                old(self).selects(at as int, children@),
                self.node_count() == old(self).node_count(),
                count == old(self).children_of(at as int).len(),
                m <= count,
                forall|i: int| #![trigger self.content_of(i)]
                    self.has(i) ==> self.content_of(i) == old(self).content_of(i),
                forall|i: int| #![trigger self.children_of(i)]
                    self.has(i) ==> self.children_of(i) == old(self).children_of(i),
                forall|i: int| #![trigger self.parent_of(i)]
                    self.has(i) ==> self.parent_of(i) == if among_first(
                        old(self).children_of(at as int),
                        m as int,
                        i as usize,
                    ) && !children@.contains(i as usize) {
                        None
                    } else {
                        old(self).parent_of(i)
                    },
            decreases count - m,
        {
            assert(self.children_of(at as int) == old(self).children_of(at as int));
            let c = self.slots[at].children[m];
            proof {
                let cs = old(self).children_of(at as int);
                assert(cs[m as int] == c);
                assert(old(self).has(cs[m as int] as int));
                assert(cs.no_duplicates());
                assert forall|i: int| self.has(i) implies (among_first(cs, m + 1, i as usize)
                    <==> among_first(cs, m as int, i as usize) || i == c) by {
                    if among_first(cs, m + 1, i as usize) {
                        let q = choose|q: int|
                            0 <= q < m + 1 && q < cs.len() && #[trigger] cs[q] == i as usize;
                        if q < m {
                            assert(among_first(cs, m as int, i as usize));
                        }
                    }
                }
            }
            let ghost pre = *self;
            if !holds(&children, c) {
                self.slots[c].parent = None;
            }
            proof {
                assert(self.slots@.len() == pre.slots@.len());
                assert forall|i: int| self.has(i) implies #[trigger] self.content_of(i)
                    == old(self).content_of(i) by {
                    assert(self.slots@[i].content == pre.slots@[i].content);
                    assert(pre.content_of(i) == old(self).content_of(i));
                }
                assert forall|i: int| self.has(i) implies #[trigger] self.children_of(i)
                    == old(self).children_of(i) by {
                    assert(self.slots@[i].children == pre.slots@[i].children);
                    assert(pre.children_of(i) == old(self).children_of(i));
                }
                let cs = old(self).children_of(at as int);
                assert(among_first(cs, m + 1, c)) by {
                    assert(cs[m as int] == c);
                }
                assert forall|i: int| self.has(i) implies #[trigger] self.parent_of(i)
                    == if among_first(cs, m + 1, i as usize) && !children@.contains(i as usize) {
                    None
                } else {
                    old(self).parent_of(i)
                } by {
                    if i != c {
                        assert(self.slots@[i].parent == pre.slots@[i].parent);
                    }
                    assert(pre.parent_of(i) == if among_first(cs, m as int, i as usize)
                        && !children@.contains(i as usize) {
                        None
                    } else {
                        old(self).parent_of(i)
                    });
                }
            }
            m += 1;
        }
        let ghost mid = *self;
        self.slots[at].children = children;
        proof {
            let before = *old(self);
            let after = *self;
            let cs = before.children_of(at as int);
            assert forall|i: int| after.has(i) implies after.parent_of(i) == mid.parent_of(i)
                && after.content_of(i) == mid.content_of(i) && (i != at ==> after.children_of(i)
                == before.children_of(i)) by {
                assert(mid.children_of(i) == before.children_of(i));
            }
            assert forall|x: usize| among_first(cs, count as int, x) == cs.contains(x) by {
                if cs.contains(x) {
                    let q = choose|q: int| 0 <= q < cs.len() && cs[q] == x;
                    assert(cs[q] == x);
                }
            }
            assert forall|p: int, k: int|
                after.has(p) && 0 <= k < after.children_of(p).len() implies {
                &&& after.has(#[trigger] after.children_of(p)[k] as int)
                &&& after.is_child(p, after.children_of(p)[k] as int)
            } by {
                let c = after.children_of(p)[k];
                if p == at {
                    assert(cs.contains(c));
                    let q = choose|q: int| 0 <= q < cs.len() && cs[q] == c;
                    assert(before.has(before.children_of(at as int)[q] as int));
                } else {
                    assert(before.has(before.children_of(p)[k] as int));
                    if cs.contains(c) {
                        let q = choose|q: int| 0 <= q < cs.len() && cs[q] == c;
                        assert(before.is_child(at as int, before.children_of(at as int)[q] as int));
                    }
                }
            }
            assert forall|p: int| after.has(p) implies (#[trigger] after.children_of(
                p,
            )).no_duplicates() by {
                if p != at {
                    assert(before.children_of(p).no_duplicates());
                }
            }
            assert forall|i: int| after.has(i) implies match #[trigger] after.parent_of(i) {
                Some(p) => p < i && after.children_of(p as int).contains(i as usize),
                None => true,
            } by {
                match after.parent_of(i) {
                    Some(p) => {
                        assert(before.parent_of(i) == Some(p));
                        assert(before.children_of(p as int).contains(i as usize));
                    },
                    None => {},
                }
            }
        }
        true
    }

    /// `later` is `self` with one more node, which holds `content` and is
    /// the last child of `at`. The new node has the index that follows the
    /// last one of `self`; every other node has kept its index, its content
    /// and its links.
    pub open spec fn grown(&self, later: &Self, at: int, content: T) -> bool {
        let id = self.node_count() as int;
        &&& later.node_count() == self.node_count() + 1
        &&& later.content_of(id) == content
        &&& later.children_of(id) == Seq::<usize>::empty()
        &&& later.is_child(at, id)
        &&& later.children_of(at) == self.children_of(at).push(id as usize)
        &&& forall|i: int| #![trigger later.content_of(i)]
            self.has(i) ==> later.content_of(i) == self.content_of(i)
        &&& forall|i: int| #![trigger later.parent_of(i)]
            self.has(i) ==> later.parent_of(i) == self.parent_of(i)
        &&& forall|i: int| #![trigger later.children_of(i)]
            self.has(i) && i != at ==> later.children_of(i) == self.children_of(i)
    }

    /// `child` names `top` as its parent.
    pub open spec fn is_child(&self, top: int, child: int) -> bool {
        self.parent_of(child) matches Some(p) && p as int == top
    }

    /// `later` differs from `self` only in the subtree of `top`: every node
    /// outside it has its content and links as before, `top` has the parent
    /// it had, and no node has got a parent it did not have.
    pub open spec fn changed_below(&self, later: &Self, top: int) -> bool {
        &&& later.node_count() == self.node_count()
        &&& later.parent_of(top) == self.parent_of(top)
        &&& forall|j: int| #![trigger self.in_subtree(top, j)]
            self.has(j) && !self.in_subtree(top, j) ==> {
                &&& later.content_of(j) == self.content_of(j)
                &&& later.children_of(j) == self.children_of(j)
                &&& later.parent_of(j) == self.parent_of(j)
            }
        &&& forall|j: int| #![trigger later.parent_of(j)]
            self.has(j) ==> later.parent_of(j) is None || later.parent_of(j) == self.parent_of(j)
    }

    /// A node lies below `top` only if its index is at least that of `top`.
    pub proof fn lemma_subtree_order(&self, top: int, at: int)
        requires
            self.wf(),
            self.has(at),
            self.in_subtree(top, at),
        ensures
            top <= at,
        decreases at,
    {
        if at != top {
            let p = self.parent_of(at)->0;
            self.lemma_subtree_order(top, p as int);
        }
    }

    /// What lies below a child of `top` lies below `top`.
    pub proof fn lemma_subtree_step(&self, top: int, child: int, at: int)
        requires
            self.wf(),
            self.has(at),
            self.has(child),
            self.is_child(top, child),
            self.in_subtree(child, at),
        ensures
            self.in_subtree(top, at),
        decreases at,
    {
        if at == child {
            assert(self.in_subtree(top, top));
        } else {
            let p = self.parent_of(at)->0;
            self.lemma_subtree_step(top, child, p as int);
        }
    }

    /// Two children of one node have nothing below them in common.
    pub proof fn lemma_siblings_apart(&self, first: int, second: int, at: int)
        requires
            self.wf(),
            self.has(at),
            self.has(first),
            self.has(second),
            first != second,
            self.parent_of(first) is Some,
            self.parent_of(first) == self.parent_of(second),
            self.in_subtree(first, at),
        ensures
            !self.in_subtree(second, at),
        decreases at,
    {
        let p = self.parent_of(first)->0 as int;
        if self.in_subtree(second, at) {
            if at == first {
                assert(self.in_subtree(second, p));
                self.lemma_subtree_order(second, p);
                assert(false);
            } else if at == second {
                assert(self.in_subtree(first, p));
                self.lemma_subtree_order(first, p);
                assert(false);
            } else {
                let q = self.parent_of(at)->0;
                self.lemma_siblings_apart(first, second, q as int);
            }
        }
    }

    /// Neither a node nor any of its children lies below one of its
    /// grandchildren.
    pub proof fn lemma_above_grandchild(&self, top: int, child: int, grandchild: int, at: int)
        requires
            self.wf(),
            self.has(at),
            self.has(child),
            self.has(grandchild),
            self.is_child(top, child),
            self.is_child(child, grandchild),
            at == top || self.is_child(top, at),
        ensures
            !self.in_subtree(grandchild, at),
    {
        if self.in_subtree(grandchild, at) {
            self.lemma_subtree_order(grandchild, at);
            if at != top && at != grandchild {
                assert(self.in_subtree(grandchild, top));
                self.lemma_subtree_order(grandchild, top);
            }
        }
    }

    /// Where nodes have only lost parents, what lies below `top` afterwards
    /// lay below it before.
    pub proof fn lemma_subtree_shrinks(&self, later: &Self, top: int, at: int)
        requires
            self.wf(),
            later.wf(),
            later.node_count() == self.node_count(),
            forall|j: int| #![trigger later.parent_of(j)]
                self.has(j) ==> later.parent_of(j) is None || later.parent_of(j)
                    == self.parent_of(j),
            self.has(at),
            later.in_subtree(top, at),
        ensures
            self.in_subtree(top, at),
        decreases at,
    {
        if at != top {
            let p = later.parent_of(at)->0;
            assert(self.parent_of(at) == Some(p));
            self.lemma_subtree_shrinks(later, top, p as int);
        }
    }

    /// Consistency depends on the links alone.
    pub proof fn lemma_same_links_wf(&self, other: &Self)
        requires
            self.wf(),
            other.same_links(self),
        ensures
            other.wf(),
    {
        assert forall|i: int| other.has(i) implies match #[trigger] other.parent_of(i) {
            Some(p) => p < i && other.children_of(p as int).contains(i as usize),
            None => true,
        } by {
            match self.parent_of(i) {
                Some(p) => {
                    assert(other.children_of(p as int) == self.children_of(p as int));
                },
                None => {},
            }
        }
        assert forall|p: int, k: int|
            other.has(p) && 0 <= k < other.children_of(p).len() implies {
            &&& other.has(#[trigger] other.children_of(p)[k] as int)
            &&& other.is_child(p, other.children_of(p)[k] as int)
        } by {
            let c = self.children_of(p)[k] as int;
            assert(self.has(c) && self.is_child(p, c));
            assert(other.parent_of(c) == self.parent_of(c));
        }
        assert forall|p: int| other.has(p) implies (#[trigger] other.children_of(
            p,
        )).no_duplicates() by {
            assert(self.children_of(p).no_duplicates());
        }
    }

    /// What the links say of the child at place `k` below `at`.
    pub proof fn lemma_child(&self, at: int, k: int)
        requires
            self.wf(),
            self.has(at),
            0 <= k < self.children_of(at).len(),
        ensures
            self.has(self.children_of(at)[k] as int),
            self.is_child(at, self.children_of(at)[k] as int),
            at < self.children_of(at)[k],
            self.in_subtree(at, self.children_of(at)[k] as int),
    {
        let c = self.children_of(at)[k] as int;
        assert(self.has(c) && self.is_child(at, c));
        assert(self.in_subtree(at, at));
    }

    /// What lies below a node that lies below `top` lies below `top`.
    pub proof fn lemma_subtree_trans(&self, top: int, mid: int, at: int)
        requires
            self.wf(),
            self.has(at),
            self.has(mid),
            self.in_subtree(top, mid),
            self.in_subtree(mid, at),
        ensures
            self.in_subtree(top, at),
        decreases at,
    {
        if at != mid {
            let p = self.parent_of(at)->0;
            self.lemma_subtree_trans(top, mid, p as int);
        }
    }

    /// A change below `top` followed by a change below a node that then lies
    /// below `top` is a change below `top`.
    pub proof fn lemma_changed_below_chain(&self, mid: &Self, later: &Self, top: int, inner: int)
        requires
            self.wf(),
            mid.wf(),
            self.has(top),
            self.has(inner),
            self.changed_below(mid, top),
            mid.changed_below(later, inner),
            mid.in_subtree(top, inner),
        ensures
            self.changed_below(later, top),
    {
        if inner != top {
            if mid.in_subtree(inner, top) {
                mid.lemma_subtree_order(inner, top);
                mid.lemma_subtree_order(top, inner);
            }
        }
        assert forall|j: int| #![trigger self.in_subtree(top, j)]
            self.has(j) && !self.in_subtree(top, j) implies {
            &&& later.content_of(j) == self.content_of(j)
            &&& later.children_of(j) == self.children_of(j)
            &&& later.parent_of(j) == self.parent_of(j)
        } by {
            if mid.in_subtree(inner, j) {
                mid.lemma_subtree_trans(top, inner, j);
                self.lemma_subtree_shrinks(mid, top, j);
            }
        }
        assert forall|j: int| #![trigger later.parent_of(j)] self.has(j) implies later.parent_of(
            j,
        ) is None || later.parent_of(j) == self.parent_of(j) by {
            assert(mid.parent_of(j) is None || mid.parent_of(j) == self.parent_of(j));
        }
    }

    /// In a consistent tree node `0` has no parent, and a node that names a
    /// parent is listed by that parent at exactly one place and by no other
    /// node.
    pub proof fn lemma_structural_consistency(&self, child: int)
        requires
            self.wf(),
            self.has(child),
        ensures
            self.parent_of(0) is None,
            self.parent_of(child) matches Some(p) ==> self.has(p as int) && exists|k: int|
                0 <= k < self.children_of(p as int).len() && #[trigger] self.children_of(
                    p as int,
                )[k] == child,
            forall|q: int, k: int, l: int|
                self.has(q) && 0 <= k < self.children_of(q).len() && 0 <= l < self.children_of(
                    q,
                ).len() && #[trigger] self.children_of(q)[k] == child
                    && #[trigger] self.children_of(q)[l] == child ==> k == l,
            forall|q: int, k: int|
                self.has(q) && 0 <= k < self.children_of(q).len() && #[trigger] self.children_of(
                    q,
                )[k] == child ==> self.is_child(q, child),
    {
        assert forall|q: int, k: int, l: int|
            self.has(q) && 0 <= k < self.children_of(q).len() && 0 <= l < self.children_of(
                q,
            ).len() && #[trigger] self.children_of(q)[k] == child
                && #[trigger] self.children_of(q)[l] == child implies k == l by {
            assert(self.children_of(q).no_duplicates());
        }
        match self.parent_of(child) {
            Some(p) => {
                assert(self.children_of(p as int).contains(child as usize));
            },
            None => {},
        }
    }
}

} // verus!
