//! The mathematical picture of an explanation tree, and what merging the
//! runs of literal characters does to it.
//!
//! An [`Explanation`] is a label with the explanations of the parts below
//! it. [`merged`] says what the merge pass makes of such a tree; the proof
//! functions of this module state what follows for every tree.
use vstd::prelude::*;

verus! {

/// What a node says of its construct: a title, a detail and the half-open
/// span `[start, end)` of bytes in the pattern.
pub struct Label {
    pub title: Seq<char>,
    pub detail: Seq<char>,
    pub start: u32,
    pub end: u32,
}

/// A node of an explanation tree with everything below it.
pub struct Explanation {
    pub label: Label,
    pub children: Seq<Explanation>,
}

/// The title of a single literal character.
pub open spec fn literal_title() -> Seq<char> {
    "literal"@
}

/// The title of a run of literal characters.
pub open spec fn text_title() -> Seq<char> {
    "plain text"@
}

/// The title of a concatenation.
pub open spec fn sequence_title() -> Seq<char> {
    "sequence"@
}

/// The title of an alternation.
pub open spec fn alternatives_title() -> Seq<char> {
    "alternatives"@
}

/// The four titles the merge pass looks at differ from each other, and none
/// of them is empty.
pub proof fn lemma_titles()
    ensures
        literal_title().len() == 7,
        text_title().len() == 10,
        sequence_title().len() == 8,
        alternatives_title().len() == 12,
{
    reveal_strlit("literal");
    reveal_strlit("plain text");
    reveal_strlit("sequence");
    reveal_strlit("alternatives");
}

pub open spec fn is_literal(t: Explanation) -> bool {
    t.label.title == literal_title()
}

pub open spec fn is_untitled(t: Explanation) -> bool {
    t.label.title.len() == 0
}

/// The node with its title changed to that of a run.
pub open spec fn retitled(t: Explanation) -> Explanation {
    Explanation {
        label: Label {
            title: text_title(),
            detail: t.label.detail,
            start: t.label.start,
            end: t.label.end,
        },
        children: t.children,
    }
}

/// The run after it has taken in the literal `c`: the detail grows by that
/// of `c`, and the span now ends where `c` ends.
pub open spec fn absorbed(run: Explanation, c: Explanation) -> Explanation {
    Explanation {
        label: Label {
            title: run.label.title,
            detail: run.label.detail + c.label.detail,
            start: run.label.start,
            end: c.label.end,
        },
        children: run.children,
    }
}

/// What the scan for runs makes of the first `n` nodes of `cs`. A literal
/// that follows a literal is taken into the run before it, any other
/// literal starts a run, a node without a title is dropped, and every other
/// node stays as it is.
pub open spec fn coalesce(cs: Seq<Explanation>, n: int) -> Seq<Explanation>
    decreases n,
{
    if n <= 0 {
        Seq::empty()
    } else {
        let before = coalesce(cs, n - 1);
        let c = cs[n - 1];
        if is_literal(c) {
            if n >= 2 && is_literal(cs[n - 2]) {
                before.drop_last().push(absorbed(before.last(), c))
            } else {
                before.push(retitled(c))
            }
        } else if is_untitled(c) {
            before
        } else {
            before.push(c)
        }
    }
}

/// The details of the first `n` nodes of `cs`, one after the other.
pub open spec fn joined(cs: Seq<Explanation>, n: int) -> Seq<char>
    decreases n,
{
    if n <= 0 {
        Seq::empty()
    } else {
        joined(cs, n - 1) + cs[n - 1].label.detail
    }
}

pub open spec fn all_literal(cs: Seq<Explanation>) -> bool {
    forall|i: int| 0 <= i < cs.len() ==> is_literal(#[trigger] cs[i])
}

/// The node is a concatenation of literal characters and nothing else. A
/// concatenation without children is none.
pub open spec fn collapses(t: Explanation) -> bool {
    t.label.title == sequence_title() && t.children.len() > 0 && all_literal(t.children)
}

/// Every literal among `cs` retitled, each on its own.
pub open spec fn relabeled(cs: Seq<Explanation>) -> Seq<Explanation> {
    Seq::new(
        cs.len(),
        |i: int|
            if is_literal(cs[i]) {
                retitled(cs[i])
            } else {
                cs[i]
            },
    )
}

/// The first stage at one node. A concatenation of literals becomes a leaf
/// that reads as their text; under an alternation every literal is retitled
/// without being joined to its neighbours; any other node is left alone.
pub open spec fn whole_node(t: Explanation) -> Explanation {
    if collapses(t) {
        Explanation {
            label: Label {
                title: text_title(),
                detail: joined(t.children, t.children.len() as int),
                start: t.label.start,
                end: t.label.end,
            },
            children: Seq::empty(),
        }
    } else if t.label.title == alternatives_title() {
        Explanation { label: t.label, children: relabeled(t.children) }
    } else {
        t
    }
}

/// Both stages at one node, leaving what lies below its children alone.
pub open spec fn merge_level(t: Explanation) -> Explanation {
    let a = whole_node(t);
    Explanation { label: a.label, children: coalesce(a.children, a.children.len() as int) }
}

/// The tree after the merge pass.
pub open spec fn merged(t: Explanation) -> Explanation
    decreases t,
{
    merge_level(Explanation { label: t.label, children: merged_each(t.children) })
}

/// Every tree of `s` after the merge pass.
pub open spec fn merged_each(s: Seq<Explanation>) -> Seq<Explanation>
    decreases s,
{
    Seq::new(
        s.len(),
        |i: int|
            if 0 <= i < s.len() {
                merged(s[i])
            } else {
                Explanation { label: s[i].label, children: Seq::empty() }
            },
    )
}

/// What the merge pass does to the label of a node.
pub proof fn lemma_merged_label(t: Explanation)
    ensures
        merged(t).label.start == t.label.start,
        merged(t).label.end == t.label.end,
        t.label.title != sequence_title() ==> merged(t).label == t.label,
        merged(t).label == t.label || (t.label.title == sequence_title() && merged(t).label.title
            == text_title()),
        is_literal(merged(t)) == is_literal(t),
        is_untitled(merged(t)) == is_untitled(t),
{
    lemma_titles();
}

/// Nodes with the same details join to the same text.
pub proof fn lemma_joined_same(a: Seq<Explanation>, b: Seq<Explanation>, n: int)
    requires
        0 <= n <= a.len(),
        n <= b.len(),
        forall|i: int| 0 <= i < n ==> (#[trigger] a[i]).label.detail == b[i].label.detail,
    ensures
        joined(a, n) == joined(b, n),
    decreases n,
{
    if n > 0 {
        lemma_joined_same(a, b, n - 1);
    }
}

/// What comes out of the scan for runs holds no literal and no node
/// without a title, and after a literal the last node is the open run.
pub proof fn lemma_coalesce_shape(cs: Seq<Explanation>, n: int)
    requires
        0 <= n <= cs.len(),
    ensures
        coalesce(cs, n).len() <= n,
        forall|k: int|
            0 <= k < coalesce(cs, n).len() ==> !is_literal(#[trigger] coalesce(cs, n)[k])
                && !is_untitled(coalesce(cs, n)[k]),
        n >= 1 && is_literal(cs[n - 1]) ==> coalesce(cs, n).len() > 0 && coalesce(
            cs,
            n,
        ).last().label.title == text_title(),
    decreases n,
{
    lemma_titles();
    if n > 0 {
        lemma_coalesce_shape(cs, n - 1);
    }
}

/// Retitling a literal and merging below it can be done in either order.
pub proof fn lemma_retitle_commutes(t: Explanation)
    requires
        is_literal(t),
    ensures
        merged(retitled(t)) == retitled(merged(t)),
{
    lemma_titles();
}

/// Taking a literal into a run and merging below the run can be done in
/// either order.
pub proof fn lemma_absorb_commutes(run: Explanation, c: Explanation)
    requires
        run.label.title == text_title(),
        is_literal(c),
    ensures
        merged(absorbed(run, c)) == absorbed(merged(run), merged(c)),
{
    lemma_titles();
    lemma_merged_label(c);
}

/// Scanning for runs and merging below each node can be done in either
/// order.
pub proof fn lemma_coalesce_commutes(cs: Seq<Explanation>, n: int)
    requires
        0 <= n <= cs.len(),
    ensures
        coalesce(merged_each(cs), n) == merged_each(coalesce(cs, n)),
    decreases n,
{
    lemma_titles();
    if n > 0 {
        lemma_coalesce_commutes(cs, n - 1);
        let ms = merged_each(cs);
        let c = cs[n - 1];
        lemma_merged_label(c);
        assert(ms[n - 1] == merged(c));
        if n >= 2 {
            lemma_merged_label(cs[n - 2]);
            assert(ms[n - 2] == merged(cs[n - 2]));
        }
        let before = coalesce(cs, n - 1);
        if is_literal(c) {
            if n >= 2 && is_literal(cs[n - 2]) {
                lemma_coalesce_shape(cs, n - 1);
                lemma_absorb_commutes(before.last(), c);
                assert(merged_each(before).last() == merged(before.last()));
            } else {
                lemma_retitle_commutes(c);
            }
        }
        assert(coalesce(ms, n) =~= merged_each(coalesce(cs, n)));
    } else {
        assert(coalesce(merged_each(cs), n) =~= merged_each(coalesce(cs, n)));
    }
}

/// The merge pass read from the top: the two stages are applied to a node,
/// and then the pass goes on below each child that is left.
pub proof fn lemma_merged_top_down(t: Explanation)
    ensures
        merged(t) == (Explanation {
            label: whole_node(t).label,
            children: merged_each(
                coalesce(whole_node(t).children, whole_node(t).children.len() as int),
            ),
        }),
{
    lemma_titles();
    let cs = t.children;
    let u = Explanation { label: t.label, children: merged_each(cs) };
    assert forall|i: int| 0 <= i < cs.len() implies is_literal(#[trigger] u.children[i])
        == is_literal(cs[i]) && (is_literal(cs[i]) ==> u.children[i].label == cs[i].label) by {
        lemma_merged_label(cs[i]);
    }
    assert(all_literal(u.children) == all_literal(cs)) by {
        if all_literal(cs) {
            assert forall|i: int| 0 <= i < u.children.len() implies is_literal(
                #[trigger] u.children[i],
            ) by {
                assert(is_literal(cs[i]));
            }
        }
        if all_literal(u.children) {
            assert forall|i: int| 0 <= i < cs.len() implies is_literal(#[trigger] cs[i]) by {
                assert(is_literal(u.children[i]));
            }
        }
    }
    if collapses(t) {
        assert forall|i: int| 0 <= i < cs.len() implies (#[trigger] u.children[i]).label.detail
            == cs[i].label.detail by {
            assert(is_literal(cs[i]));
        }
        lemma_joined_same(u.children, cs, cs.len() as int);
        assert(merged_each(coalesce(Seq::<Explanation>::empty(), 0)) =~= Seq::<
            Explanation,
        >::empty());
    } else if t.label.title == alternatives_title() {
        let rs = relabeled(cs);
        assert(relabeled(u.children) =~= merged_each(rs)) by {
            assert forall|i: int| 0 <= i < cs.len() implies relabeled(u.children)[i]
                == merged_each(rs)[i] by {
                if is_literal(cs[i]) {
                    lemma_retitle_commutes(cs[i]);
                }
            }
        }
        lemma_coalesce_commutes(rs, rs.len() as int);
    } else {
        lemma_coalesce_commutes(cs, cs.len() as int);
    }
}

/// Below the node nothing is left for the merge pass to do: no node there
/// is a literal or lacks a title.
pub open spec fn settled(t: Explanation) -> bool
    decreases t,
{
    forall|i: int|
        0 <= i < t.children.len() ==> {
            &&& !is_literal(#[trigger] t.children[i])
            &&& !is_untitled(t.children[i])
            &&& settled(t.children[i])
        }
}

proof fn lemma_settled_by_children(a: Explanation, b: Explanation)
    requires
        a.children == b.children,
    ensures
        settled(a) == settled(b),
{
}

proof fn lemma_coalesce_settled(cs: Seq<Explanation>, n: int)
    requires
        0 <= n <= cs.len(),
        forall|i: int| 0 <= i < n ==> settled(#[trigger] cs[i]),
    ensures
        forall|k: int| 0 <= k < coalesce(cs, n).len() ==> settled(#[trigger] coalesce(cs, n)[k]),
    decreases n,
{
    if n > 0 {
        lemma_coalesce_settled(cs, n - 1);
        lemma_coalesce_shape(cs, n - 1);
        let before = coalesce(cs, n - 1);
        let c = cs[n - 1];
        assert(settled(c));
        lemma_settled_by_children(retitled(c), c);
        if before.len() > 0 {
            lemma_settled_by_children(absorbed(before.last(), c), before.last());
        }
    }
}

proof fn lemma_coalesce_plain(cs: Seq<Explanation>, n: int)
    requires
        0 <= n <= cs.len(),
        forall|i: int| 0 <= i < n ==> !is_literal(#[trigger] cs[i]) && !is_untitled(cs[i]),
    ensures
        coalesce(cs, n) == cs.subrange(0, n),
    decreases n,
{
    if n > 0 {
        lemma_coalesce_plain(cs, n - 1);
        assert(!is_literal(cs[n - 1]) && !is_untitled(cs[n - 1]));
    }
    assert(coalesce(cs, n) =~= cs.subrange(0, n));
}

/// The merge pass leaves a tree in which nothing is left to do.
pub proof fn lemma_merged_settled(t: Explanation)
    ensures
        settled(merged(t)),
    decreases t,
{
    let cs = t.children;
    let u = Explanation { label: t.label, children: merged_each(cs) };
    assert forall|i: int| 0 <= i < cs.len() implies settled(#[trigger] u.children[i]) by {
        lemma_merged_settled(cs[i]);
    }
    let a = whole_node(u);
    assert forall|i: int| 0 <= i < a.children.len() implies settled(#[trigger] a.children[i]) by {
        if !collapses(u) && u.label.title == alternatives_title() {
            assert(settled(u.children[i]));
            lemma_settled_by_children(retitled(u.children[i]), u.children[i]);
        } else {
            assert(settled(u.children[i]));
        }
    }
    lemma_coalesce_settled(a.children, a.children.len() as int);
    lemma_coalesce_shape(a.children, a.children.len() as int);
}

/// The merge pass changes nothing in a tree in which nothing is left to do.
pub proof fn lemma_settled_fixed(t: Explanation)
    requires
        settled(t),
    ensures
        merged(t) == t,
    decreases t,
{
    lemma_titles();
    let cs = t.children;
    assert forall|i: int| 0 <= i < cs.len() implies merged(#[trigger] cs[i]) == cs[i] by {
        lemma_settled_fixed(cs[i]);
    }
    assert(merged_each(cs) =~= cs);
    if cs.len() > 0 {
        assert(!is_literal(cs[0]));
    }
    assert(relabeled(cs) =~= cs);
    lemma_coalesce_plain(cs, cs.len() as int);
    assert(cs.subrange(0, cs.len() as int) =~= cs);
}

/// Running the merge pass a second time changes nothing.
pub proof fn lemma_merge_idempotent(t: Explanation)
    ensures
        merged(merged(t)) == merged(t),
{
    lemma_merged_settled(t);
    lemma_settled_fixed(merged(t));
}

proof fn lemma_coalesce_all_literal(cs: Seq<Explanation>, n: int)
    requires
        1 <= n <= cs.len(),
        forall|i: int| 0 <= i < n ==> is_literal(#[trigger] cs[i]),
    ensures
        coalesce(cs, n).len() == 1,
        coalesce(cs, n)[0].label == (Label {
            title: text_title(),
            detail: joined(cs, n),
            start: cs[0].label.start,
            end: cs[n - 1].label.end,
        }),
        coalesce(cs, n)[0].children == cs[0].children,
    decreases n,
{
    assert(is_literal(cs[n - 1]));
    if n == 1 {
        assert(coalesce(cs, 0) =~= Seq::<Explanation>::empty());
        assert(joined(cs, 0) =~= Seq::<char>::empty());
        assert(joined(cs, 1) =~= cs[0].label.detail);
    } else {
        lemma_coalesce_all_literal(cs, n - 1);
        assert(is_literal(cs[n - 2]));
    }
}

/// Where every child of a node is a literal, the merge pass leaves their
/// text in one piece: a concatenation becomes a leaf that reads as the
/// text, and any other node but an alternation keeps a single child that
/// reads as the text and spans from the first literal to the last.
pub proof fn lemma_literal_run_complete(t: Explanation)
    requires
        t.children.len() > 0,
        all_literal(t.children),
        t.label.title != alternatives_title(),
    ensures
        t.label.title == sequence_title() ==> merged(t) == (Explanation {
            label: Label {
                title: text_title(),
                detail: joined(t.children, t.children.len() as int),
                start: t.label.start,
                end: t.label.end,
            },
            children: Seq::empty(),
        }),
        t.label.title != sequence_title() ==> {
            &&& merged(t).label == t.label
            &&& merged(t).children.len() == 1
            &&& merged(t).children[0].label == (Label {
                title: text_title(),
                detail: joined(t.children, t.children.len() as int),
                start: t.children[0].label.start,
                end: t.children.last().label.end,
            })
        },
{
    lemma_titles();
    lemma_merged_top_down(t);
    let cs = t.children;
    let n = cs.len() as int;
    if t.label.title == sequence_title() {
        assert(merged_each(coalesce(Seq::<Explanation>::empty(), 0)) =~= Seq::<
            Explanation,
        >::empty());
    } else {
        lemma_coalesce_all_literal(cs, n);
        lemma_merged_label(coalesce(cs, n)[0]);
    }
}

/// How many of the first `n` nodes of `cs` have a title.
pub open spec fn titled_before(cs: Seq<Explanation>, n: int) -> int
    decreases n,
{
    if n <= 0 {
        0
    } else if is_untitled(cs[n - 1]) {
        titled_before(cs, n - 1)
    } else {
        titled_before(cs, n - 1) + 1
    }
}

proof fn lemma_titled_before_grows(cs: Seq<Explanation>, i: int, n: int)
    requires
        0 <= i <= n <= cs.len(),
    ensures
        0 <= titled_before(cs, i) <= titled_before(cs, n),
        i < n && !is_untitled(cs[i]) ==> titled_before(cs, i) < titled_before(cs, n),
    decreases n - i,
{
    lemma_titled_before_base(cs, i);
    if i < n {
        lemma_titled_before_grows(cs, i, n - 1);
    }
}

proof fn lemma_titled_before_base(cs: Seq<Explanation>, n: int)
    requires
        0 <= n <= cs.len(),
    ensures
        0 <= titled_before(cs, n),
    decreases n,
{
    if n > 0 {
        lemma_titled_before_base(cs, n - 1);
    }
}

proof fn lemma_coalesce_no_literal(cs: Seq<Explanation>, n: int)
    requires
        0 <= n <= cs.len(),
        forall|i: int| 0 <= i < n ==> !is_literal(#[trigger] cs[i]),
    ensures
        coalesce(cs, n).len() == titled_before(cs, n),
        forall|i: int|
            0 <= i < n && !is_untitled(#[trigger] cs[i]) ==> 0 <= titled_before(cs, i)
                < titled_before(cs, n) && coalesce(cs, n)[titled_before(cs, i)] == cs[i],
    decreases n,
{
    if n > 0 {
        lemma_coalesce_no_literal(cs, n - 1);
        assert(!is_literal(cs[n - 1]));
        assert forall|i: int| 0 <= i < n && !is_untitled(#[trigger] cs[i]) implies 0
            <= titled_before(cs, i) < titled_before(cs, n) && coalesce(cs, n)[titled_before(
            cs,
            i,
        )] == cs[i] by {
            lemma_titled_before_grows(cs, i, n);
            lemma_titled_before_grows(cs, i, n - 1);
        }
    }
}

proof fn lemma_titled_before_relabeled(cs: Seq<Explanation>, n: int)
    requires
        0 <= n <= cs.len(),
    ensures
        titled_before(relabeled(cs), n) == titled_before(cs, n),
    decreases n,
{
    lemma_titles();
    if n > 0 {
        lemma_titled_before_relabeled(cs, n - 1);
    }
}

/// Under an alternation the merge pass retitles each literal on its own and
/// joins it to no neighbour: the node keeps one child for every child that
/// had a title, in the same order, and the child that was the literal `i`
/// has the detail and the span of that literal.
pub proof fn lemma_alternatives_apart(t: Explanation, i: int)
    requires
        t.label.title == alternatives_title(),
        0 <= i < t.children.len(),
        is_literal(t.children[i]),
    ensures
        merged(t).label == t.label,
        merged(t).children.len() == titled_before(t.children, t.children.len() as int),
        0 <= titled_before(t.children, i) < merged(t).children.len(),
        merged(t).children[titled_before(t.children, i)].label == retitled(t.children[i]).label,
{
    lemma_titles();
    lemma_merged_top_down(t);
    let cs = t.children;
    let n = cs.len() as int;
    let rs = relabeled(cs);
    assert forall|k: int| 0 <= k < n implies !is_literal(#[trigger] rs[k]) by {}
    lemma_coalesce_no_literal(rs, n);
    lemma_titled_before_relabeled(cs, n);
    lemma_titled_before_relabeled(cs, i);
    assert(rs[i] == retitled(cs[i]));
    assert(!is_untitled(rs[i]));
    lemma_merged_label(rs[i]);
}

/// The span of `c` lies within the span of `p`.
pub open spec fn within(c: Label, p: Label) -> bool {
    p.start <= c.start && c.end <= p.end
}

/// Each node of `cs` ends no later than the next one starts.
pub open spec fn in_order(cs: Seq<Explanation>) -> bool {
    forall|i: int, j: int|
        0 <= i && i + 1 == j && j < cs.len() ==> (#[trigger] cs[i]).label.end <= (
        #[trigger] cs[j]).label.start
}

/// Span containment throughout the tree: no span ends before it starts,
/// the children of a node follow each other from left to right, and each
/// lies within the span of its parent.
pub open spec fn well_spanned(t: Explanation) -> bool
    decreases t,
{
    &&& t.label.start <= t.label.end
    &&& in_order(t.children)
    &&& forall|i: int|
        0 <= i < t.children.len() ==> within((#[trigger] t.children[i]).label, t.label)
            && well_spanned(t.children[i])
}

proof fn lemma_retitled_spans(c: Explanation)
    requires
        well_spanned(c),
    ensures
        well_spanned(retitled(c)),
{
    let fresh = retitled(c);
    assert forall|i: int| 0 <= i < fresh.children.len() implies within(
        (#[trigger] fresh.children[i]).label,
        fresh.label,
    ) && well_spanned(fresh.children[i]) by {
        assert(within(c.children[i].label, c.label));
    }
}

proof fn lemma_absorbed_spans(run: Explanation, c: Explanation)
    requires
        well_spanned(run),
        well_spanned(c),
        run.label.end <= c.label.start,
    ensures
        well_spanned(absorbed(run, c)),
{
    let grown = absorbed(run, c);
    assert forall|i: int| 0 <= i < grown.children.len() implies within(
        (#[trigger] grown.children[i]).label,
        grown.label,
    ) && well_spanned(grown.children[i]) by {
        assert(within(run.children[i].label, run.label));
    }
}

proof fn lemma_coalesce_spans(cs: Seq<Explanation>, n: int, p: Label)
    requires
        0 <= n <= cs.len(),
        in_order(cs),
        forall|i: int|
            0 <= i < cs.len() ==> within((#[trigger] cs[i]).label, p) && well_spanned(cs[i]),
    ensures
        in_order(coalesce(cs, n)),
        forall|k: int|
            0 <= k < coalesce(cs, n).len() ==> within((#[trigger] coalesce(cs, n)[k]).label, p)
                && well_spanned(coalesce(cs, n)[k]),
        coalesce(cs, n).len() > 0 ==> n >= 1 && coalesce(cs, n).last().label.end <= cs[n
            - 1].label.end,
    decreases n,
{
    if n > 0 {
        lemma_coalesce_spans(cs, n - 1, p);
        lemma_coalesce_shape(cs, n - 1);
        let before = coalesce(cs, n - 1);
        let after = coalesce(cs, n);
        let c = cs[n - 1];
        assert(within(c.label, p) && well_spanned(c));
        if before.len() > 0 {
            assert(well_spanned(cs[n - 2]));
            assert(cs[n - 2].label.end <= cs[n - 1].label.start);
            assert(before.last().label.end <= c.label.start);
        }
        if is_literal(c) {
            if n >= 2 && is_literal(cs[n - 2]) {
                let run = before.last();
                let grown = absorbed(run, c);
                assert(well_spanned(run) && within(run.label, p));
                lemma_absorbed_spans(run, c);
                assert(in_order(after)) by {
                    assert forall|i: int, j: int| 0 <= i && i + 1 == j && j < after.len() implies (
                    #[trigger] after[i]).label.end <= (#[trigger] after[j]).label.start by {
                        assert(before[i].label.end <= before[j].label.start);
                    }
                }
                assert forall|k: int| 0 <= k < after.len() implies within(
                    (#[trigger] after[k]).label,
                    p,
                ) && well_spanned(after[k]) by {
                    if k < after.len() - 1 {
                        assert(within(before[k].label, p) && well_spanned(before[k]));
                    }
                }
            } else {
                let fresh = retitled(c);
                lemma_retitled_spans(c);
                lemma_pushed_in_order(before, fresh);
                assert forall|k: int| 0 <= k < after.len() implies within(
                    (#[trigger] after[k]).label,
                    p,
                ) && well_spanned(after[k]) by {
                    if k < after.len() - 1 {
                        assert(within(before[k].label, p) && well_spanned(before[k]));
                    }
                }
            }
        } else if is_untitled(c) {
        } else {
            lemma_pushed_in_order(before, c);
            assert forall|k: int| 0 <= k < after.len() implies within(
                (#[trigger] after[k]).label,
                p,
            ) && well_spanned(after[k]) by {
                if k < after.len() - 1 {
                    assert(within(before[k].label, p) && well_spanned(before[k]));
                }
            }
        }
    }
}

proof fn lemma_pushed_in_order(before: Seq<Explanation>, c: Explanation)
    requires
        in_order(before),
        before.len() > 0 ==> before.last().label.end <= c.label.start,
    ensures
        in_order(before.push(c)),
{
    let after = before.push(c);
    assert forall|i: int, j: int| 0 <= i && i + 1 == j && j < after.len() implies (
    #[trigger] after[i]).label.end <= (#[trigger] after[j]).label.start by {
        if j < before.len() {
            assert(before[i].label.end <= before[j].label.start);
        }
    }
}

proof fn lemma_relabeled_spans(cs: Seq<Explanation>, p: Label)
    requires
        in_order(cs),
        forall|i: int|
            0 <= i < cs.len() ==> within((#[trigger] cs[i]).label, p) && well_spanned(cs[i]),
    ensures
        in_order(relabeled(cs)),
        forall|i: int|
            0 <= i < cs.len() ==> within((#[trigger] relabeled(cs)[i]).label, p)
                && well_spanned(relabeled(cs)[i]),
{
    let rs = relabeled(cs);
    assert forall|i: int, j: int| 0 <= i && i + 1 == j && j < rs.len() implies (
    #[trigger] rs[i]).label.end <= (#[trigger] rs[j]).label.start by {
        assert(cs[i].label.end <= cs[j].label.start);
    }
    assert forall|i: int| 0 <= i < cs.len() implies within((#[trigger] rs[i]).label, p)
        && well_spanned(rs[i]) by {
        assert(within(cs[i].label, p) && well_spanned(cs[i]));
        if is_literal(cs[i]) {
            lemma_retitled_spans(cs[i]);
        }
    }
}

proof fn lemma_level_keeps_spans(t: Explanation)
    requires
        well_spanned(t),
    ensures
        well_spanned(merge_level(t)),
{
    let cs = t.children;
    if collapses(t) {
        assert(coalesce(Seq::<Explanation>::empty(), 0) =~= Seq::<Explanation>::empty());
    } else if t.label.title == alternatives_title() {
        lemma_relabeled_spans(cs, t.label);
        lemma_coalesce_spans(relabeled(cs), cs.len() as int, t.label);
    } else {
        lemma_coalesce_spans(cs, cs.len() as int, t.label);
    }
}

/// The merge pass keeps span containment: if it holds throughout the tree
/// before the pass, it holds throughout the tree after it.
pub proof fn lemma_merge_keeps_spans(t: Explanation)
    requires
        well_spanned(t),
    ensures
        well_spanned(merged(t)),
    decreases t,
{
    let cs = t.children;
    let u = Explanation { label: t.label, children: merged_each(cs) };
    assert(well_spanned(u)) by {
        assert forall|i: int| 0 <= i < cs.len() implies within(
            (#[trigger] u.children[i]).label,
            u.label,
        ) && well_spanned(u.children[i]) by {
            assert(within(cs[i].label, t.label) && well_spanned(cs[i]));
            lemma_merged_label(cs[i]);
            lemma_merge_keeps_spans(cs[i]);
        }
        assert forall|i: int, j: int| 0 <= i && i + 1 == j && j < u.children.len() implies (
        #[trigger] u.children[i]).label.end <= (#[trigger] u.children[j]).label.start by {
            lemma_merged_label(cs[i]);
            lemma_merged_label(cs[j]);
            assert(cs[i].label.end <= cs[j].label.start);
        }
    }
    lemma_level_keeps_spans(u);
}

/// Each node of `cs` ends exactly where the next one starts.
pub open spec fn abutting(cs: Seq<Explanation>) -> bool {
    forall|i: int, j: int|
        0 <= i && i + 1 == j && j < cs.len() ==> (#[trigger] cs[i]).label.end == (
        #[trigger] cs[j]).label.start
}

/// The spans of the children cover the span of the node from its start to
/// its end, without a gap and without an overlap. Without children there
/// is nothing to cover.
pub open spec fn tiles(t: Explanation) -> bool {
    if t.children.len() == 0 {
        t.label.start == t.label.end
    } else {
        &&& t.children[0].label.start == t.label.start
        &&& t.children.last().label.end == t.label.end
        &&& abutting(t.children)
    }
}

/// Every concatenation in the tree is covered by its children.
pub open spec fn sequences_tiled(t: Explanation) -> bool
    decreases t,
{
    &&& t.label.title == sequence_title() ==> tiles(t)
    &&& forall|i: int| 0 <= i < t.children.len() ==> sequences_tiled(#[trigger] t.children[i])
}

/// Every node below `t` has a title.
pub open spec fn titled_below(t: Explanation) -> bool
    decreases t,
{
    forall|i: int|
        0 <= i < t.children.len() ==> !is_untitled(#[trigger] t.children[i]) && titled_below(
            t.children[i],
        )
}

proof fn lemma_tiling_by_children(a: Explanation, b: Explanation)
    requires
        a.children == b.children,
        a.label.title != sequence_title(),
        sequences_tiled(b),
        titled_below(b),
    ensures
        sequences_tiled(a),
        titled_below(a),
{
}

proof fn lemma_coalesce_tiles(cs: Seq<Explanation>, n: int)
    requires
        1 <= n <= cs.len(),
        abutting(cs),
        forall|i: int| 0 <= i < n ==> !is_untitled(#[trigger] cs[i]),
    ensures
        coalesce(cs, n).len() >= 1,
        coalesce(cs, n)[0].label.start == cs[0].label.start,
        coalesce(cs, n).last().label.end == cs[n - 1].label.end,
        abutting(coalesce(cs, n)),
    decreases n,
{
    let after = coalesce(cs, n);
    let c = cs[n - 1];
    assert(!is_untitled(c));
    if n == 1 {
        assert(coalesce(cs, 0) =~= Seq::<Explanation>::empty());
    } else {
        lemma_coalesce_tiles(cs, n - 1);
        let before = coalesce(cs, n - 1);
        assert(cs[n - 2].label.end == cs[n - 1].label.start);
        assert forall|i: int, j: int| 0 <= i && i + 1 == j && j < after.len() implies (
        #[trigger] after[i]).label.end == (#[trigger] after[j]).label.start by {
            if j < before.len() {
                assert(before[i].label.end == before[j].label.start);
            }
        }
    }
}

proof fn lemma_coalesce_keeps_tiling(cs: Seq<Explanation>, n: int)
    requires
        0 <= n <= cs.len(),
        forall|i: int|
            0 <= i < n ==> sequences_tiled(#[trigger] cs[i]) && titled_below(cs[i]),
    ensures
        forall|k: int|
            0 <= k < coalesce(cs, n).len() ==> sequences_tiled(#[trigger] coalesce(cs, n)[k])
                && titled_below(coalesce(cs, n)[k]),
    decreases n,
{
    lemma_titles();
    if n > 0 {
        lemma_coalesce_keeps_tiling(cs, n - 1);
        lemma_coalesce_shape(cs, n - 1);
        let before = coalesce(cs, n - 1);
        let after = coalesce(cs, n);
        let c = cs[n - 1];
        assert(sequences_tiled(c) && titled_below(c));
        if is_literal(c) {
            if n >= 2 && is_literal(cs[n - 2]) {
                lemma_tiling_by_children(absorbed(before.last(), c), before.last());
            } else {
                lemma_tiling_by_children(retitled(c), c);
            }
        }
        assert forall|k: int| 0 <= k < after.len() implies sequences_tiled(#[trigger] after[k])
            && titled_below(after[k]) by {
            if k < after.len() - 1 {
                assert(sequences_tiled(before[k]) && titled_below(before[k]));
            }
        }
    }
}

proof fn lemma_level_keeps_tiling(t: Explanation)
    requires
        sequences_tiled(t),
        titled_below(t),
    ensures
        sequences_tiled(merge_level(t)),
        titled_below(merge_level(t)),
{
    lemma_titles();
    let cs = t.children;
    let n = cs.len() as int;
    if collapses(t) {
        assert(coalesce(Seq::<Explanation>::empty(), 0) =~= Seq::<Explanation>::empty());
    } else {
        let xs = whole_node(t).children;
        assert forall|i: int| 0 <= i < n implies sequences_tiled(#[trigger] xs[i])
            && titled_below(xs[i]) && !is_untitled(xs[i]) && xs[i].label.start
            == cs[i].label.start && xs[i].label.end == cs[i].label.end by {
            assert(sequences_tiled(cs[i]) && titled_below(cs[i]) && !is_untitled(cs[i]));
            if is_literal(cs[i]) {
                lemma_tiling_by_children(retitled(cs[i]), cs[i]);
            }
        }
        lemma_coalesce_keeps_tiling(xs, n);
        lemma_coalesce_shape(xs, n);
        if n > 0 && t.label.title == sequence_title() {
            assert(abutting(xs)) by {
                assert forall|i: int, j: int| 0 <= i && i + 1 == j && j < xs.len() implies (
                #[trigger] xs[i]).label.end == (#[trigger] xs[j]).label.start by {
                    assert(cs[i].label.end == cs[j].label.start);
                }
            }
            lemma_coalesce_tiles(xs, n);
        }
    }
}

/// The merge pass keeps concatenations covered: where every node below `t`
/// has a title and every concatenation is covered by its children before
/// the pass, the same holds after it.
pub proof fn lemma_merge_keeps_tiling(t: Explanation)
    requires
        sequences_tiled(t),
        titled_below(t),
    ensures
        sequences_tiled(merged(t)),
        titled_below(merged(t)),
    decreases t,
{
    let cs = t.children;
    let u = Explanation { label: t.label, children: merged_each(cs) };
    assert forall|i: int| 0 <= i < cs.len() implies sequences_tiled(#[trigger] u.children[i])
        && titled_below(u.children[i]) && !is_untitled(u.children[i]) && u.children[i].label.start
        == cs[i].label.start && u.children[i].label.end == cs[i].label.end by {
        assert(sequences_tiled(cs[i]) && titled_below(cs[i]) && !is_untitled(cs[i]));
        lemma_merged_label(cs[i]);
        lemma_merge_keeps_tiling(cs[i]);
    }
    if t.label.title == sequence_title() && cs.len() > 0 {
        assert(abutting(u.children)) by {
            assert forall|i: int, j: int| 0 <= i && i + 1 == j && j < u.children.len() implies (
            #[trigger] u.children[i]).label.end == (#[trigger] u.children[j]).label.start by {
                assert(cs[i].label.end == cs[j].label.start);
            }
        }
        assert(u.children.last() == u.children[cs.len() - 1]);
    }
    lemma_level_keeps_tiling(u);
}

/// A node with the given label and nothing below it.
pub open spec fn leaf(label: Label) -> Explanation {
    Explanation { label, children: Seq::empty() }
}

/// The node with `c` as one more child, after those it has.
pub open spec fn with_child(t: Explanation, c: Explanation) -> Explanation {
    Explanation { label: t.label, children: t.children.push(c) }
}

/// The open nodes of a walk, outermost first, after the innermost of them
/// was left: it has become the last child of the node above it.
pub open spec fn left(open: Seq<Explanation>) -> Seq<Explanation> {
    open.drop_last().drop_last().push(with_child(open[open.len() - 2], open.last()))
}

/// The tree that the open nodes of a walk make once each of them has been
/// left, from the innermost out.
pub open spec fn closed(open: Seq<Explanation>) -> Explanation
    decreases open.len(),
{
    if open.len() <= 1 {
        open[0]
    } else {
        closed(left(open))
    }
}

/// The node that stands for a pattern in which there is nothing to explain.
pub open spec fn placeholder() -> Explanation {
    Explanation {
        label: Label { title: "empty"@, detail: Seq::empty(), start: 0, end: 0 },
        children: Seq::empty(),
    }
}

/// What is handed out for a tree `raw` whose root stands for no construct:
/// the first node below the root after the merge pass, or the placeholder
/// where nothing is left below the root.
pub open spec fn finished(raw: Explanation) -> Explanation {
    let m = merged(raw);
    if m.children.len() == 0 {
        placeholder()
    } else {
        m.children[0]
    }
}

/// Span containment holds throughout what is handed out, if it held
/// throughout each tree below the root before the merge pass and those
/// trees followed each other from left to right.
pub proof fn lemma_finished_well_spanned(raw: Explanation)
    requires
        in_order(raw.children),
        forall|i: int| 0 <= i < raw.children.len() ==> well_spanned(#[trigger] raw.children[i]),
    ensures
        well_spanned(finished(raw)),
{
    lemma_merged_top_down(raw);
    let all = Label { title: raw.label.title, detail: raw.label.detail, start: 0, end: u32::MAX };
    let cs = raw.children;
    let xs = whole_node(raw).children;
    if !collapses(raw) {
        assert forall|i: int| 0 <= i < cs.len() implies within((#[trigger] cs[i]).label, all)
            && well_spanned(cs[i]) by {}
        if raw.label.title == alternatives_title() {
            lemma_relabeled_spans(cs, all);
        }
        lemma_coalesce_spans(xs, xs.len() as int, all);
        let out = coalesce(xs, xs.len() as int);
        if out.len() > 0 {
            assert(well_spanned(out[0]));
            lemma_merge_keeps_spans(out[0]);
        }
    } else {
        assert(merged_each(coalesce(Seq::<Explanation>::empty(), 0)) =~= Seq::<
            Explanation,
        >::empty());
    }
}

/// Every concatenation in what is handed out is covered by its children, if
/// that held in each tree below the root before the merge pass and every
/// node below the root had a title.
pub proof fn lemma_finished_tiled(raw: Explanation)
    requires
        titled_below(raw),
        forall|i: int| 0 <= i < raw.children.len() ==> sequences_tiled(#[trigger] raw.children[i]),
    ensures
        sequences_tiled(finished(raw)),
{
    lemma_titles();
    reveal_strlit("empty");
    lemma_merged_top_down(raw);
    let cs = raw.children;
    let xs = whole_node(raw).children;
    if !collapses(raw) {
        assert forall|i: int| 0 <= i < xs.len() implies sequences_tiled(#[trigger] xs[i])
            && titled_below(xs[i]) by {
            assert(sequences_tiled(cs[i]) && titled_below(cs[i]));
            if is_literal(cs[i]) {
                lemma_tiling_by_children(retitled(cs[i]), cs[i]);
            }
        }
        lemma_coalesce_keeps_tiling(xs, xs.len() as int);
        let out = coalesce(xs, xs.len() as int);
        if out.len() > 0 {
            assert(sequences_tiled(out[0]) && titled_below(out[0]));
            lemma_merge_keeps_tiling(out[0]);
        }
    } else {
        assert(merged_each(coalesce(Seq::<Explanation>::empty(), 0)) =~= Seq::<
            Explanation,
        >::empty());
    }
}

/// The next child of `t` may have the label `next`: it starts no earlier
/// than the last child of `t` ends.
pub open spec fn follows(t: Explanation, next: Label) -> bool {
    t.children.len() > 0 ==> t.children.last().label.end <= next.start
}

/// The children of the node a walk starts with: each is well spanned, and
/// they follow each other from left to right. The node itself stands for no
/// construct and its span contains nothing.
pub open spec fn top_well_spanned(t: Explanation) -> bool {
    &&& in_order(t.children)
    &&& forall|i: int| 0 <= i < t.children.len() ==> well_spanned(#[trigger] t.children[i])
}

/// Span containment in a walk that is under way: it holds in every open
/// construct as far as that has been built, each open construct lies
/// within the one around it, and starts no earlier than the children of
/// that one end.
pub open spec fn open_well_spanned(open: Seq<Explanation>) -> bool {
    &&& open.len() >= 1
    &&& top_well_spanned(open[0])
    &&& forall|i: int| 1 <= i < open.len() ==> well_spanned(#[trigger] open[i])
    &&& forall|i: int, j: int|
        1 <= i && i + 1 == j && j < open.len() ==> within(
            (#[trigger] open[j]).label,
            (#[trigger] open[i]).label,
        )
    &&& forall|i: int, j: int|
        0 <= i && i + 1 == j && j < open.len() ==> follows(
            #[trigger] open[i],
            (#[trigger] open[j]).label,
        )
}

/// A construct with the label `next` can be entered without breaking span
/// containment: its span does not end before it starts, lies within the
/// innermost open construct, and starts no earlier than the children of
/// that one end.
pub open spec fn fits(open: Seq<Explanation>, next: Label) -> bool {
    &&& next.start <= next.end
    &&& open.len() >= 2 ==> within(next, open.last().label)
    &&& follows(open.last(), next)
}

/// Entering a construct whose span fits keeps span containment.
pub proof fn lemma_enter_keeps_spans(open: Seq<Explanation>, next: Label)
    requires
        open_well_spanned(open),
        fits(open, next),
    ensures
        open_well_spanned(open.push(leaf(next))),
{
    let after = open.push(leaf(next));
    assert(well_spanned(leaf(next)));
    assert forall|i: int| 1 <= i < after.len() implies well_spanned(#[trigger] after[i]) by {
        if i < open.len() {
            assert(well_spanned(open[i]));
        }
    }
    assert forall|i: int, j: int| 1 <= i && i + 1 == j && j < after.len() implies within(
        (#[trigger] after[j]).label,
        (#[trigger] after[i]).label,
    ) by {
        if j < open.len() {
            assert(within(open[j].label, open[i].label));
        }
    }
    assert forall|i: int, j: int| 0 <= i && i + 1 == j && j < after.len() implies follows(
        #[trigger] after[i],
        (#[trigger] after[j]).label,
    ) by {
        if j < open.len() {
            assert(follows(open[i], open[j].label));
        }
    }
}

/// Leaving a construct keeps span containment.
pub proof fn lemma_leave_keeps_spans(open: Seq<Explanation>)
    requires
        open_well_spanned(open),
        open.len() >= 2,
    ensures
        open_well_spanned(left(open)),
{
    let n = open.len() as int;
    let after = left(open);
    let outer = open[n - 2];
    let inner = open[n - 1];
    let grown = with_child(outer, inner);
    assert(after.len() == n - 1);
    assert(after[n - 2] == grown);
    assert(well_spanned(inner));
    assert(follows(outer, inner.label));
    lemma_pushed_in_order(outer.children, inner);
    if n >= 3 {
        assert(well_spanned(outer));
        assert(within(inner.label, outer.label));
        assert(well_spanned(grown)) by {
            assert forall|k: int| 0 <= k < grown.children.len() implies within(
                (#[trigger] grown.children[k]).label,
                grown.label,
            ) && well_spanned(grown.children[k]) by {
                if k < outer.children.len() {
                    assert(within(outer.children[k].label, outer.label) && well_spanned(
                        outer.children[k],
                    ));
                }
            }
        }
    } else {
        assert(top_well_spanned(grown)) by {
            assert forall|k: int| 0 <= k < grown.children.len() implies well_spanned(
                #[trigger] grown.children[k],
            ) by {
                if k < outer.children.len() {
                    assert(well_spanned(outer.children[k]));
                }
            }
        }
    }
    assert forall|i: int| 1 <= i < after.len() implies well_spanned(#[trigger] after[i]) by {
        if i < n - 2 {
            assert(well_spanned(open[i]));
        }
    }
    assert forall|i: int, j: int| 1 <= i && i + 1 == j && j < after.len() implies within(
        (#[trigger] after[j]).label,
        (#[trigger] after[i]).label,
    ) by {
        assert(within(open[j].label, open[i].label));
    }
    assert forall|i: int, j: int| 0 <= i && i + 1 == j && j < after.len() implies follows(
        #[trigger] after[i],
        (#[trigger] after[j]).label,
    ) by {
        assert(follows(open[i], open[j].label));
    }
}

/// If span containment has held throughout a walk, it holds throughout the
/// explanation that is handed out at its end.
pub proof fn lemma_walk_well_spanned(open: Seq<Explanation>)
    requires
        open_well_spanned(open),
    ensures
        top_well_spanned(closed(open)),
        well_spanned(finished(closed(open))),
    decreases open.len(),
{
    if open.len() >= 2 {
        lemma_leave_keeps_spans(open);
        lemma_walk_well_spanned(left(open));
    } else {
        lemma_finished_well_spanned(open[0]);
    }
}

/// Everything that is complete in a walk under way has its concatenations
/// covered and its nodes titled.
pub open spec fn open_tiled(open: Seq<Explanation>) -> bool {
    forall|i: int, k: int|
        0 <= i < open.len() && 0 <= k < open[i].children.len() ==> {
            &&& sequences_tiled(#[trigger] open[i].children[k])
            &&& titled_below(open[i].children[k])
            &&& !is_untitled(open[i].children[k])
        }
}

/// Entering a construct leaves what is complete as it is.
pub proof fn lemma_enter_keeps_tiling(open: Seq<Explanation>, next: Label)
    requires
        open_tiled(open),
    ensures
        open_tiled(open.push(leaf(next))),
{
    let after = open.push(leaf(next));
    assert forall|i: int, k: int|
        0 <= i < after.len() && 0 <= k < after[i].children.len() implies {
        &&& sequences_tiled(#[trigger] after[i].children[k])
        &&& titled_below(after[i].children[k])
        &&& !is_untitled(after[i].children[k])
    } by {
        assert(sequences_tiled(open[i].children[k]));
    }
}

/// Leaving a construct that has a title and, if it is a concatenation, is
/// covered by its children keeps everything that is complete covered.
pub proof fn lemma_leave_keeps_tiling(open: Seq<Explanation>)
    requires
        open_tiled(open),
        open.len() >= 2,
        !is_untitled(open.last()),
        open.last().label.title == sequence_title() ==> tiles(open.last()),
    ensures
        open_tiled(left(open)),
{
    let n = open.len() as int;
    let after = left(open);
    let outer = open[n - 2];
    let inner = open[n - 1];
    assert(sequences_tiled(inner) && titled_below(inner)) by {
        assert forall|k: int| 0 <= k < inner.children.len() implies sequences_tiled(
            #[trigger] inner.children[k],
        ) && titled_below(inner.children[k]) && !is_untitled(inner.children[k]) by {
            assert(sequences_tiled(open[n - 1].children[k]));
        }
    }
    assert forall|i: int, k: int|
        0 <= i < after.len() && 0 <= k < after[i].children.len() implies {
        &&& sequences_tiled(#[trigger] after[i].children[k])
        &&& titled_below(after[i].children[k])
        &&& !is_untitled(after[i].children[k])
    } by {
        if i < n - 2 {
            assert(sequences_tiled(open[i].children[k]));
        } else if k < outer.children.len() {
            assert(sequences_tiled(open[n - 2].children[k]));
        }
    }
}

/// If every construct had a title and every concatenation was covered by
/// its children when it was left, then at the end of a walk in which every
/// construct was left, every concatenation in the explanation that is
/// handed out is covered by its children.
pub proof fn lemma_walk_tiled(open: Seq<Explanation>)
    requires
        open_tiled(open),
        open.len() == 1,
    ensures
        sequences_tiled(finished(closed(open))),
{
    let raw = open[0];
    assert(titled_below(raw)) by {
        assert forall|k: int| 0 <= k < raw.children.len() implies !is_untitled(
            #[trigger] raw.children[k],
        ) && titled_below(raw.children[k]) by {
            assert(sequences_tiled(open[0].children[k]));
        }
    }
    assert forall|k: int| 0 <= k < raw.children.len() implies sequences_tiled(
        #[trigger] raw.children[k],
    ) by {
        assert(sequences_tiled(open[0].children[k]));
    }
    lemma_finished_tiled(raw);
}

} // verus!
