//! The laws of the merge engine: what a use tree denotes, and that merging
//! preserves it.
//!
//! A tree denotes a set of fully qualified entries ([`FlatUse`]).  The
//! central law, [`lemma_try_merge_trees_preserves_paths`], states that a
//! successful merge denotes exactly the union of what the two inputs
//! denote; its hypotheses are the well-formedness conditions
//! ([`wf_tree`], [`self_ok`]) that every tree read from real source
//! satisfies.
use vstd::prelude::*;

use crate::model::{PathV, SegV, TreeV};
use crate::order::{
    lemma_path_cmp_for_sort_flip, lemma_path_cmp_for_sort_greater_trans, lemma_segment_cmp_flip,
    spec_path_cmp_bin_search, spec_path_cmp_for_sort, spec_path_cmp_short, spec_path_is_self,
    spec_segment_cmp,
};
use std::cmp::Ordering;

verus! {

/// One fully qualified entry denoted by a use tree: whether it is absolute,
/// its segment run, and whether it is a glob over that run.
#[verifier::ext_equal]
pub struct FlatUse {
    pub root: bool,
    pub segs: Seq<SegV>,
    pub glob: bool,
}

/// Appending a path to a prefix run: the sole keyword `self` names the
/// prefix itself and adds nothing.
pub open spec fn spec_concat(pre: Seq<SegV>, q: Seq<SegV>) -> Seq<SegV> {
    if q.len() == 1 && q[0] is SelfSeg {
        pre
    } else {
        pre + q
    }
}

/// The ambient root flag and segment run after walking through a node's
/// optional path.
pub open spec fn spec_extend(root: bool, pre: Seq<SegV>, path: Option<PathV>) -> (bool, Seq<SegV>) {
    match path {
        Option::None => (root, pre),
        Option::Some(p) => (root || p.root, spec_concat(pre, p.segments)),
    }
}

/// The set of entries a tree denotes below the given ambient prefix.
pub open spec fn tree_flat(t: TreeV, root: bool, pre: Seq<SegV>) -> Set<FlatUse>
    decreases t,
{
    match t {
        TreeV::Leaf { path, glob } => {
            let e = spec_extend(root, pre, path);
            set![FlatUse { root: e.0, segs: e.1, glob }]
        },
        TreeV::Group { path, root: groot, children } => {
            let e = spec_extend(root || groot, pre, path);
            children_flat(children, e.0, e.1)
        },
    }
}

/// The union of what the nodes of a child list denote.
pub open spec fn children_flat(s: Seq<TreeV>, root: bool, pre: Seq<SegV>) -> Set<FlatUse>
    decreases s,
{
    if s.len() == 0 {
        Set::empty()
    } else {
        children_flat(s.drop_last(), root, pre).union(tree_flat(s.last(), root, pre))
    }
}

/// The set of fully qualified entries a whole tree denotes.
pub open spec fn tree_paths(t: TreeV) -> Set<FlatUse> {
    tree_flat(t, false, Seq::empty())
}

/// A well-formed path: non-empty, and the keyword `self` occurs only as the
/// whole single-segment path.
pub open spec fn path_wf(p: PathV) -> bool {
    &&& p.segments.len() > 0
    &&& forall|i: int|
        0 <= i < p.segments.len() ==> (#[trigger] p.segments[i] is SelfSeg ==> p.segments.len()
            == 1)
}

/// A node whose path is the bare keyword `self` must be a simple leaf: the
/// keyword names the enclosing entry, so a glob or a nested group under it
/// has no meaning.
pub open spec fn self_ok(c: TreeV) -> bool {
    (c.path_of() matches Some(p) && spec_path_is_self(p)) ==> c.is_simple_path()
}

/// A well-formed tree: every path in it is well formed, a group's own root
/// marker is never doubled with a path, and every `self`-pathed node is a
/// simple leaf.
pub open spec fn wf_tree(t: TreeV) -> bool
    decreases t,
{
    match t {
        TreeV::Leaf { path, .. } => match path {
            Option::Some(p) => path_wf(p),
            Option::None => true,
        },
        TreeV::Group { path, root: groot, children } => {
            &&& match path {
                Option::Some(p) => path_wf(p) && !groot,
                Option::None => true,
            }
            &&& wf_children(children)
        },
    }
}

/// Every node of the list is well formed and `self`-disciplined.
pub open spec fn wf_children(s: Seq<TreeV>) -> bool
    decreases s,
{
    if s.len() == 0 {
        true
    } else {
        wf_children(s.drop_last()) && wf_tree(s.last()) && self_ok(s.last())
    }
}

/// What [`wf_children`] says of each position.
pub proof fn lemma_wf_children_index(s: Seq<TreeV>, i: int)
    requires
        wf_children(s),
        0 <= i < s.len(),
    ensures
        wf_tree(s[i]),
        self_ok(s[i]),
    decreases s,
{
    if i < s.len() - 1 {
        lemma_wf_children_index(s.drop_last(), i);
    }
}

/// A list is well formed when each of its positions is.
pub proof fn lemma_wf_children_intro(s: Seq<TreeV>)
    requires
        forall|i: int| 0 <= i < s.len() ==> wf_tree(#[trigger] s[i]) && self_ok(s[i]),
    ensures
        wf_children(s),
    decreases s,
{
    if s.len() > 0 {
        assert(forall|i: int|
            0 <= i < s.drop_last().len() ==> s.drop_last()[i] == s[i]);
        lemma_wf_children_intro(s.drop_last());
    }
}

/// A child list denotes the union of what its two halves denote.
pub proof fn lemma_children_flat_concat(a: Seq<TreeV>, b: Seq<TreeV>, root: bool, pre: Seq<SegV>)
    ensures
        children_flat(a + b, root, pre) == children_flat(a, root, pre).union(
            children_flat(b, root, pre),
        ),
    decreases b,
{
    if b.len() == 0 {
        assert(a + b =~= a);
        assert(children_flat(a + b, root, pre) =~= children_flat(a, root, pre).union(
            children_flat(b, root, pre),
        ));
    } else {
        lemma_children_flat_concat(a, b.drop_last(), root, pre);
        assert((a + b).drop_last() =~= a + b.drop_last());
        assert((a + b).last() == b.last());
        assert(children_flat(a + b, root, pre) =~= children_flat(a, root, pre).union(
            children_flat(b, root, pre),
        ));
    }
}

/// A single-node list denotes what its node denotes.
pub proof fn lemma_children_flat_singleton(t: TreeV, root: bool, pre: Seq<SegV>)
    ensures
        children_flat(seq![t], root, pre) == tree_flat(t, root, pre),
{
    reveal_with_fuel(children_flat, 2);
    assert(seq![t].drop_last() =~= Seq::<TreeV>::empty());
    assert(children_flat(seq![t], root, pre) =~= tree_flat(t, root, pre));
}

/// A child list denotes the part before a position, the node there, and the
/// part after it.
pub proof fn lemma_children_flat_decompose(s: Seq<TreeV>, i: int, root: bool, pre: Seq<SegV>)
    requires
        0 <= i < s.len(),
    ensures
        children_flat(s, root, pre) == children_flat(s.take(i), root, pre).union(
            tree_flat(s[i], root, pre),
        ).union(children_flat(s.skip(i + 1), root, pre)),
{
    assert(s =~= s.take(i) + (seq![s[i]] + s.skip(i + 1)));
    lemma_children_flat_concat(s.take(i), seq![s[i]] + s.skip(i + 1), root, pre);
    lemma_children_flat_concat(seq![s[i]], s.skip(i + 1), root, pre);
    lemma_children_flat_singleton(s[i], root, pre);
    assert(children_flat(s, root, pre) =~= children_flat(s.take(i), root, pre).union(
        tree_flat(s[i], root, pre),
    ).union(children_flat(s.skip(i + 1), root, pre)));
}

/// Inserting a node adds exactly what it denotes.
pub proof fn lemma_children_flat_insert(s: Seq<TreeV>, i: int, t: TreeV, root: bool, pre: Seq<SegV>)
    requires
        0 <= i <= s.len(),
    ensures
        children_flat(s.insert(i, t), root, pre) == children_flat(s, root, pre).union(
            tree_flat(t, root, pre),
        ),
{
    assert(s.insert(i, t) =~= s.take(i) + (seq![t] + s.skip(i)));
    assert(s =~= s.take(i) + s.skip(i));
    lemma_children_flat_concat(s.take(i), seq![t] + s.skip(i), root, pre);
    lemma_children_flat_concat(seq![t], s.skip(i), root, pre);
    lemma_children_flat_singleton(t, root, pre);
    lemma_children_flat_concat(s.take(i), s.skip(i), root, pre);
    assert(children_flat(s.insert(i, t), root, pre) =~= children_flat(s, root, pre).union(
        tree_flat(t, root, pre),
    ));
}

/// An insertion position never passes the end of the list.
pub proof fn lemma_insert_pos_le(s: Seq<TreeV>, p: Option<PathV>)
    ensures
        crate::merge::spec_insert_pos(s, p) <= s.len(),
    decreases s.len(),
{
    if s.len() > 0 {
        lemma_insert_pos_le(s.skip(1), p);
    }
}

/// Sorting a child list neither adds nor drops denoted entries.
pub proof fn lemma_sort_flat(s: Seq<TreeV>, root: bool, pre: Seq<SegV>)
    ensures
        children_flat(crate::merge::spec_sort(s), root, pre) == children_flat(s, root, pre),
    decreases s,
{
    if s.len() == 0 {
    } else {
        lemma_sort_flat(s.drop_last(), root, pre);
        let base = crate::merge::spec_sort(s.drop_last());
        lemma_insert_pos_le(base, s.last().path_of());
        lemma_children_flat_insert(
            base,
            crate::merge::spec_insert_pos(base, s.last().path_of()) as int,
            s.last(),
            root,
            pre,
        );
        assert(s =~= s.drop_last() + seq![s.last()]);
        lemma_children_flat_concat(s.drop_last(), seq![s.last()], root, pre);
        lemma_children_flat_singleton(s.last(), root, pre);
        assert(children_flat(crate::merge::spec_sort(s), root, pre) =~= children_flat(
            s,
            root,
            pre,
        ));
    }
}

/// Sorting keeps every node of the list well formed and `self`-disciplined.
pub proof fn lemma_sort_wf(s: Seq<TreeV>)
    requires
        forall|i: int| 0 <= i < s.len() ==> wf_tree(#[trigger] s[i]) && self_ok(s[i]),
    ensures
        forall|i: int|
            0 <= i < crate::merge::spec_sort(s).len() ==> wf_tree(
                #[trigger] crate::merge::spec_sort(s)[i],
            ) && self_ok(crate::merge::spec_sort(s)[i]),
    decreases s,
{
    if s.len() > 0 {
        assert(forall|i: int| 0 <= i < s.drop_last().len() ==> s.drop_last()[i] == s[i]);
        lemma_sort_wf(s.drop_last());
        let base = crate::merge::spec_sort(s.drop_last());
        lemma_insert_pos_le(base, s.last().path_of());
        let pos = crate::merge::spec_insert_pos(base, s.last().path_of()) as int;
        let out = crate::merge::spec_sort(s);
        assert(out == base.insert(pos, s.last()));
        assert forall|i: int| 0 <= i < out.len() implies wf_tree(#[trigger] out[i]) && self_ok(
            out[i],
        ) by {
            if i < pos {
                assert(out[i] == base[i]);
            } else if i == pos {
                assert(out[i] == s.last());
            } else {
                assert(out[i] == base[i - 1]);
            }
        }
    }
}

/// Splitting a tree at a leading prefix of its path does not change what it
/// denotes.
pub proof fn lemma_split_flat(t: TreeV, n: nat, root: bool, pre: Seq<SegV>)
    requires
        wf_tree(t),
        t.path_of() matches Some(p) && 1 <= n <= p.segments.len(),
    ensures
        tree_flat(crate::prefix::spec_split_prefix(t, n), root, pre) == tree_flat(t, root, pre),
{
    let p = t.path_of()->Some_0;
    let sp = crate::prefix::spec_split_prefix(t, n);
    if n == p.segments.len() {
        assert(p.segments.take(n as int) =~= p.segments);
        match t {
            TreeV::Leaf { glob, .. } => {
                let child = sp->Group_children[0];
                lemma_children_flat_singleton(child, root || p.root, spec_concat(pre, p.segments));
                assert(tree_flat(sp, root, pre) =~= tree_flat(t, root, pre));
            },
            TreeV::Group { .. } => {},
        }
    } else {
        // the prefix and the remainder are real runs, never the bare `self`
        assert(p.segments.take(n as int)[0] == p.segments[0]);
        assert(!(p.segments.take(n as int).len() == 1 && p.segments.take(n as int)[0] is SelfSeg));
        assert(p.segments.skip(n as int)[0] == p.segments[n as int]);
        assert(!(p.segments.skip(n as int).len() == 1 && p.segments.skip(n as int)[0] is SelfSeg));
        assert(!(p.segments.len() == 1 && p.segments[0] is SelfSeg));
        let pre2 = spec_concat(pre, p.segments.take(n as int));
        assert(pre2 + p.segments.skip(n as int) =~= pre + p.segments);
        match t {
            TreeV::Leaf { glob, .. } => {
                let child = sp->Group_children[0];
                lemma_children_flat_singleton(child, root || p.root, pre2);
                assert(tree_flat(sp, root, pre) =~= tree_flat(t, root, pre));
            },
            TreeV::Group { children, .. } => {
                let inner = sp->Group_children[0];
                lemma_children_flat_singleton(inner, root || p.root, pre2);
                assert(tree_flat(inner, root || p.root, pre2) == children_flat(
                    children,
                    root || p.root,
                    pre + p.segments,
                ));
                assert(tree_flat(sp, root, pre) =~= tree_flat(t, root, pre));
            },
        }
    }
}

/// Splitting a well-formed tree at a proper, non-`self` prefix yields a
/// well-formed, `self`-disciplined group.
pub proof fn lemma_split_wf(t: TreeV, n: nat)
    requires
        wf_tree(t),
        self_ok(t),
        t.path_of() matches Some(p) && 1 <= n <= p.segments.len() && !spec_path_is_self(p),
    ensures
        wf_tree(crate::prefix::spec_split_prefix(t, n)),
        self_ok(crate::prefix::spec_split_prefix(t, n)),
        crate::prefix::spec_split_prefix(t, n) matches TreeV::Group { path: Some(q), .. }
            && q.segments == t.path_of()->Some_0.segments.take(n as int) && q.root == t.path_of()->Some_0.root,
    decreases t,
{
    let p = t.path_of()->Some_0;
    let sp = crate::prefix::spec_split_prefix(t, n);
    assert(p.segments.take(n as int)[0] == p.segments[0]);
    if n == p.segments.len() {
        assert(p.segments.take(n as int) =~= p.segments);
        match t {
            TreeV::Leaf { glob, .. } => {
                let child = sp->Group_children[0];
                assert(wf_children(sp->Group_children)) by {
                    lemma_wf_children_intro(sp->Group_children);
                }
            },
            TreeV::Group { .. } => {},
        }
    } else {
        match t {
            TreeV::Leaf { glob, .. } => {
                let child = sp->Group_children[0];
                assert(wf_tree(child) && self_ok(child));
                lemma_wf_children_intro(sp->Group_children);
            },
            TreeV::Group { children, .. } => {
                let inner = sp->Group_children[0];
                assert(wf_tree(inner) && self_ok(inner));
                lemma_wf_children_intro(sp->Group_children);
            },
        }
    }
}

/// The two shapes in which trees reach the recursive merger: two groups
/// whose paths agree, or one simple path merged with itself.
pub open spec fn aligned(lhs: TreeV, rhs: TreeV) -> bool {
    ||| (lhs is Group && rhs is Group && lhs.path_of() == rhs.path_of() && lhs.path_of() is Some)
    ||| (lhs == rhs && lhs.is_simple_path())
}

/// One step family of the recursive merger preserves the denoted set: when
/// the child-merging loop succeeds, the resulting child list denotes
/// exactly what the accumulated list and the remaining incoming children
/// denoted, and stays well formed.
pub proof fn lemma_merge_loop_flat(
    fuel: nat,
    acc: Seq<TreeV>,
    rhs_ch: Seq<TreeV>,
    i: nat,
    m: crate::merge::MergeBehavior,
    root: bool,
    pre: Seq<SegV>,
)
    requires
        forall|j: int| 0 <= j < acc.len() ==> wf_tree(#[trigger] acc[j]) && self_ok(acc[j]),
        forall|j: int| 0 <= j < rhs_ch.len() ==> wf_tree(#[trigger] rhs_ch[j]) && self_ok(rhs_ch[j]),
        i <= rhs_ch.len(),
    ensures
        crate::merge::spec_merge_loop(fuel, acc, rhs_ch, i, m) matches Some(out) ==> {
            &&& children_flat(out, root, pre) == children_flat(acc, root, pre).union(
                children_flat(rhs_ch.skip(i as int), root, pre),
            )
            &&& forall|j: int| 0 <= j < out.len() ==> wf_tree(#[trigger] out[j]) && self_ok(out[j])
        },
    decreases fuel, rhs_ch.len() - i,
{
    let res = crate::merge::spec_merge_loop(fuel, acc, rhs_ch, i, m);
    if i >= rhs_ch.len() {
        assert(rhs_ch.skip(i as int) =~= Seq::<TreeV>::empty());
        assert(children_flat(acc, root, pre) =~= children_flat(acc, root, pre).union(
            children_flat(rhs_ch.skip(i as int), root, pre),
        ));
    } else {
        let c = rhs_ch[i as int];
        assert(rhs_ch.skip(i as int) =~= seq![c] + rhs_ch.skip(i as int + 1));
        lemma_children_flat_concat(seq![c], rhs_ch.skip(i as int + 1), root, pre);
        lemma_children_flat_singleton(c, root, pre);
        let rest = children_flat(rhs_ch.skip(i as int + 1), root, pre);
        let cflat = tree_flat(c, root, pre);
        assert(children_flat(rhs_ch.skip(i as int), root, pre) == cflat.union(rest));
        if !crate::merge::spec_is_tree_allowed(m, c) {
        } else {
            let sr = crate::merge::spec_search(acc, c.path_of());
            let pos = sr.0 as int;
            let found = sr.1;
            if found {
                crate::merge::lemma_search_in_range(acc, c.path_of());
                let lt = acc[pos];
                match (lt.path_of(), c.path_of()) {
                    (Option::Some(lp), Option::Some(cp)) => {
                        match crate::prefix::spec_common_prefix(lp, cp) {
                            Some(pair) => {
                                let n = pair.0.segments.len();
                                crate::prefix::lemma_common_prefix_len(lp.segments, cp.segments);
                                assert(n == crate::prefix::spec_common_prefix_len(
                                    lp.segments,
                                    cp.segments,
                                ));
                                assert(lp.segments.take(n as int) =~= cp.segments.take(n as int));
                                assert(lp.root == cp.root);
                                let full = n == lp.segments.len() && n == cp.segments.len();
                                let skip_c = full && crate::merge::spec_tree_contains_self(lt)
                                    == Some(true) && crate::merge::spec_tree_contains_self(c)
                                    is None;
                                let replace_l = full && crate::merge::spec_tree_contains_self(lt)
                                    is None && crate::merge::spec_tree_contains_self(c) == Some(
                                    true,
                                );
                                let dedup = full && lt.is_simple_path() && c.is_simple_path();
                                if full {
                                    assert(lp.segments =~= lp.segments.take(n as int));
                                    assert(cp.segments =~= cp.segments.take(n as int));
                                    assert(lp =~= cp);
                                }
                                lemma_children_flat_decompose(acc, pos, root, pre);
                                if skip_c || dedup {
                                    // the incoming node's entry already stands in the candidate
                                    assert(cflat.subset_of(tree_flat(lt, root, pre))) by {
                                        lemma_covered(lt, c, root, pre);
                                    }
                                    lemma_merge_loop_flat(fuel, acc, rhs_ch, i + 1, m, root, pre);
                                    if res is Some {
                                        let out = res->Some_0;
                                        assert(children_flat(out, root, pre) =~= children_flat(
                                            acc,
                                            root,
                                            pre,
                                        ).union(children_flat(rhs_ch.skip(i as int), root, pre)));
                                    }
                                } else if replace_l {
                                    // the incoming group's `self` entry absorbs the candidate
                                    assert(tree_flat(lt, root, pre).subset_of(cflat)) by {
                                        lemma_covered(c, lt, root, pre);
                                    }
                                    let acc2 = acc.update(pos, c);
                                    assert(forall|j: int|
                                        0 <= j < acc2.len() ==> wf_tree(#[trigger] acc2[j])
                                            && self_ok(acc2[j]));
                                    lemma_merge_loop_flat(fuel, acc2, rhs_ch, i + 1, m, root, pre);
                                    lemma_children_flat_decompose(acc2, pos, root, pre);
                                    assert(acc2.take(pos) =~= acc.take(pos));
                                    assert(acc2.skip(pos + 1) =~= acc.skip(pos + 1));
                                    if res is Some {
                                        let out = res->Some_0;
                                        assert(children_flat(out, root, pre) =~= children_flat(
                                            acc,
                                            root,
                                            pre,
                                        ).union(children_flat(rhs_ch.skip(i as int), root, pre)));
                                    }
                                } else if fuel == 0 {
                                } else {
                                    // split both at the shared prefix and recurse
                                    assert(!spec_path_is_self(lp) && !spec_path_is_self(cp)) by {
                                        lemma_no_self_recursion(lt, c, lp, cp, n);
                                    }
                                    let l2 = crate::prefix::spec_split_prefix(lt, n);
                                    let r2 = crate::prefix::spec_split_prefix(c, n);
                                    lemma_split_wf(lt, n);
                                    lemma_split_wf(c, n);
                                    lemma_split_flat(lt, n, root, pre);
                                    lemma_split_flat(c, n, root, pre);
                                    assert(l2.path_of() == r2.path_of());
                                    assert(aligned(l2, r2));
                                    lemma_recursive_merge_flat(
                                        (fuel - 1) as nat,
                                        l2,
                                        r2,
                                        m,
                                        root,
                                        pre,
                                    );
                                    let sub = crate::merge::spec_recursive_merge(
                                        (fuel - 1) as nat,
                                        l2,
                                        r2,
                                        m,
                                    );
                                    if let Some(mg) = sub {
                                        assert(tree_flat(mg, root, pre) == tree_flat(
                                            lt,
                                            root,
                                            pre,
                                        ).union(cflat));
                                        let acc2 = acc.update(pos, mg);
                                        assert(forall|j: int|
                                            0 <= j < acc2.len() ==> wf_tree(#[trigger] acc2[j])
                                                && self_ok(acc2[j]));
                                        lemma_merge_loop_flat(
                                            fuel,
                                            acc2,
                                            rhs_ch,
                                            i + 1,
                                            m,
                                            root,
                                            pre,
                                        );
                                        lemma_children_flat_decompose(acc2, pos, root, pre);
                                        assert(acc2.take(pos) =~= acc.take(pos));
                                        assert(acc2.skip(pos + 1) =~= acc.skip(pos + 1));
                                        if res is Some {
                                            let out = res->Some_0;
                                            assert(children_flat(out, root, pre) =~= children_flat(
                                                acc,
                                                root,
                                                pre,
                                            ).union(
                                                children_flat(rhs_ch.skip(i as int), root, pre),
                                            ));
                                        }
                                    }
                                }
                            },
                            None => {},
                        }
                    },
                    _ => {},
                }
            } else {
                if m == crate::merge::MergeBehavior::Module && acc.len() > 0 && c.is_group() {
                } else {
                    crate::merge::lemma_search_in_range(acc, c.path_of());
                    let acc2 = acc.insert(pos, c);
                    assert(forall|j: int|
                        0 <= j < acc2.len() ==> wf_tree(#[trigger] acc2[j]) && self_ok(acc2[j]))
                        by {
                        assert forall|j: int| 0 <= j < acc2.len() implies wf_tree(
                            #[trigger] acc2[j],
                        ) && self_ok(acc2[j]) by {
                            if j < pos {
                                assert(acc2[j] == acc[j]);
                            } else if j == pos {
                                assert(acc2[j] == c);
                            } else {
                                assert(acc2[j] == acc[j - 1]);
                            }
                        }
                    }
                    lemma_children_flat_insert(acc, pos, c, root, pre);
                    lemma_merge_loop_flat(fuel, acc2, rhs_ch, i + 1, m, root, pre);
                    if res is Some {
                        let out = res->Some_0;
                        assert(children_flat(out, root, pre) =~= children_flat(acc, root, pre)
                            .union(children_flat(rhs_ch.skip(i as int), root, pre)));
                    }
                }
            }
        }
    }
}

/// A plain leaf whose path a same-pathed group's `self` entry names is
/// covered by that group: the group contains the leaf's entry.
pub proof fn lemma_covered(g: TreeV, l: TreeV, root: bool, pre: Seq<SegV>)
    requires
        wf_tree(g),
        crate::merge::spec_tree_contains_self(g) == Some(true) || (g.is_simple_path()
            && l.is_simple_path() && g.path_of() == l.path_of()),
        l matches TreeV::Leaf { path: Some(_), glob: false },
        g.path_of() == l.path_of(),
        g.path_of() is Some,
    ensures
        tree_flat(l, root, pre).subset_of(tree_flat(g, root, pre)),
{
    let p = g.path_of()->Some_0;
    if g.is_simple_path() {
        assert(tree_flat(l, root, pre) =~= tree_flat(g, root, pre));
    } else {
        match g {
            TreeV::Group { children, .. } => {
                let e0 = root || p.root;
                let e1 = spec_concat(pre, p.segments);
                let j = choose|j: int|
                    0 <= j < children.len() && (#[trigger] children[j].path_of() matches Some(q)
                        && spec_path_is_self(q));
                lemma_wf_children_index(children, j);
                let sc = children[j];
                assert(sc.is_simple_path());
                lemma_children_flat_decompose(children, j, e0, e1);
                let scp = sc.path_of()->Some_0;
                assert(spec_concat(e1, scp.segments) == e1);
                assert(tree_flat(sc, e0, e1) == tree_flat(l, root, pre));
                assert(tree_flat(l, root, pre).subset_of(tree_flat(g, root, pre)));
            },
            TreeV::Leaf { .. } => {
                assert(false);
            },
        }
    }
}

/// In the split-and-recurse branch neither path is the bare `self`.
pub proof fn lemma_no_self_recursion(lt: TreeV, c: TreeV, lp: PathV, cp: PathV, n: nat)
    requires
        wf_tree(lt),
        self_ok(lt),
        wf_tree(c),
        self_ok(c),
        lt.path_of() == Some(lp),
        c.path_of() == Some(cp),
        1 <= n <= lp.segments.len(),
        1 <= n <= cp.segments.len(),
        lp.segments.take(n as int) == cp.segments.take(n as int),
        lp.root == cp.root,
        // the fall-through: the dedup exits did not fire
        !(n == lp.segments.len() && n == cp.segments.len() && lt.is_simple_path()
            && c.is_simple_path()),
    ensures
        !spec_path_is_self(lp),
        !spec_path_is_self(cp),
{
    if spec_path_is_self(lp) || spec_path_is_self(cp) {
        assert(lp.segments[0] == cp.segments[0]) by {
            assert(lp.segments.take(n as int)[0] == lp.segments[0]);
            assert(cp.segments.take(n as int)[0] == cp.segments[0]);
        }
        assert(lp.segments[0] is SelfSeg);
        assert(lp.segments.len() == 1 && cp.segments.len() == 1);
        assert(spec_path_is_self(lp) && spec_path_is_self(cp));
        assert(lt.is_simple_path() && c.is_simple_path());
        assert(false);
    }
}

/// The recursive merger preserves the denoted set: a successful merge of
/// two aligned, well-formed trees denotes exactly the union of what the two
/// denote, and is itself well formed.
pub proof fn lemma_recursive_merge_flat(
    fuel: nat,
    lhs: TreeV,
    rhs: TreeV,
    m: crate::merge::MergeBehavior,
    root: bool,
    pre: Seq<SegV>,
)
    requires
        wf_tree(lhs),
        self_ok(lhs),
        wf_tree(rhs),
        self_ok(rhs),
        aligned(lhs, rhs),
    ensures
        crate::merge::spec_recursive_merge(fuel, lhs, rhs, m) matches Some(t) ==> {
            &&& tree_flat(t, root, pre) == tree_flat(lhs, root, pre).union(
                tree_flat(rhs, root, pre),
            )
            &&& wf_tree(t)
            &&& self_ok(t)
        },
    decreases fuel, rhs.children_or_empty().len() + 1,
{
    let res = crate::merge::spec_recursive_merge(fuel, lhs, rhs, m);
    let ls = lhs.children_or_empty();
    let rs = rhs.children_or_empty();
    if !(forall|j: int|
        0 <= j < ls.len() ==> crate::merge::spec_is_tree_allowed(m, #[trigger] ls[j]))
        || res is None {
    } else if lhs is Group {
        let p = lhs.path_of()->Some_0;
        let e0 = root || p.root;
        let e1 = spec_concat(pre, p.segments);
        assert(forall|j: int| 0 <= j < ls.len() ==> wf_tree(#[trigger] ls[j]) && self_ok(ls[j]))
            by {
            assert forall|j: int| 0 <= j < ls.len() implies wf_tree(#[trigger] ls[j]) && self_ok(
                ls[j],
            ) by {
                lemma_wf_children_index(ls, j);
            }
        }
        assert(forall|j: int| 0 <= j < rs.len() ==> wf_tree(#[trigger] rs[j]) && self_ok(rs[j]))
            by {
            assert forall|j: int| 0 <= j < rs.len() implies wf_tree(#[trigger] rs[j]) && self_ok(
                rs[j],
            ) by {
                lemma_wf_children_index(rs, j);
            }
        }
        let sorted = crate::merge::spec_sort(ls);
        lemma_sort_wf(ls);
        lemma_sort_flat(ls, e0, e1);
        lemma_merge_loop_flat(fuel, sorted, rs, 0, m, e0, e1);
        let lres = crate::merge::spec_merge_loop(fuel, sorted, rs, 0, m);
        if let Some(out) = lres {
            assert(rs.skip(0) =~= rs);
            let t = crate::merge::spec_rebuild(lhs, out);
            assert(t == TreeV::Group { path: lhs.path_of(), root: false, children: out }) by {
                assert(lhs matches TreeV::Group { root: groot, .. } && !groot);
            }
            assert(tree_flat(t, root, pre) == children_flat(out, e0, e1));
            assert(tree_flat(t, root, pre) =~= tree_flat(lhs, root, pre).union(
                tree_flat(rhs, root, pre),
            ));
            assert(wf_children(out)) by {
                lemma_wf_children_intro(out);
            }
            assert(!spec_path_is_self(p));
            assert(wf_tree(t) && self_ok(t));
        }
    } else {
        // one simple path merged with itself: nothing to fold in
        assert(lhs == rhs);
        assert(ls =~= Seq::<TreeV>::empty());
        assert(rs =~= Seq::<TreeV>::empty());
        let sorted = crate::merge::spec_sort(ls);
        assert(sorted =~= Seq::<TreeV>::empty());
        let lres = crate::merge::spec_merge_loop(fuel, sorted, rs, 0, m);
        assert(lres == Some(sorted));
        if let Some(out) = lres {
            assert(out.len() == 0);
            let t = crate::merge::spec_rebuild(lhs, out);
            assert(t == lhs);
            assert(tree_flat(t, root, pre) =~= tree_flat(lhs, root, pre).union(
                tree_flat(rhs, root, pre),
            ));
        }
    }
}

/// Removing a tree's leading root qualifier and reinstating it as the
/// ambient flag leaves the denoted set unchanged.
pub proof fn lemma_strip_root_flat(t: TreeV)
    requires
        wf_tree(t),
        t.has_leading_root(),
    ensures
        tree_flat(crate::merge::spec_strip_root(t), true, Seq::empty()) == tree_flat(
            t,
            false,
            Seq::empty(),
        ),
{
    let st = crate::merge::spec_strip_root(t);
    match t {
        TreeV::Leaf { path, glob } => {
            assert(tree_flat(st, true, Seq::empty()) =~= tree_flat(t, false, Seq::empty()));
        },
        TreeV::Group { path, root: groot, children } => {
            match path {
                Option::Some(p) => {
                    assert(!groot);
                    assert(tree_flat(st, true, Seq::empty()) =~= tree_flat(
                        t,
                        false,
                        Seq::empty(),
                    ));
                },
                Option::None => {
                    assert(tree_flat(st, true, Seq::empty()) =~= tree_flat(
                        t,
                        false,
                        Seq::empty(),
                    ));
                },
            }
        },
    }
}

/// The flatten-into-one fallback preserves the denoted set.
pub proof fn lemma_merge_into_one_flat(lhs: TreeV, rhs: TreeV, m: crate::merge::MergeBehavior)
    requires
        wf_tree(lhs),
        wf_tree(rhs),
    ensures
        crate::merge::spec_merge_into_one(lhs, rhs, m) matches Some(t) ==> tree_paths(t)
            == tree_paths(lhs).union(tree_paths(rhs)),
{
    let res = crate::merge::spec_merge_into_one(lhs, rhs, m);
    if res is Some {
        let lhs_cc = lhs.has_leading_root();
        let rhs_cc = rhs.has_leading_root();
        let both = lhs_cc && rhs_cc;
        let l2 = if both {
            crate::merge::spec_strip_root(lhs)
        } else {
            lhs
        };
        let r2 = if both {
            crate::merge::spec_strip_root(rhs)
        } else {
            rhs
        };
        let a: Seq<TreeV> = if lhs.path_of() is Some || (lhs_cc && !rhs_cc) {
            seq![l2]
        } else {
            l2.children_or_empty()
        };
        let b: Seq<TreeV> = if rhs.path_of() is Some || (rhs_cc && !lhs_cc) {
            seq![r2]
        } else {
            r2.children_or_empty()
        };
        let t = res->Some_0;
        assert(t == TreeV::Group { path: None, root: both, children: a + b });
        lemma_children_flat_concat(a, b, both, Seq::empty());
        assert(tree_paths(t) == children_flat(a, both, Seq::empty()).union(
            children_flat(b, both, Seq::empty()),
        ));
        assert(children_flat(a, both, Seq::empty()) == tree_paths(lhs)) by {
            lemma_flat_entry_side(lhs, rhs, a, l2, both);
        }
        assert(children_flat(b, both, Seq::empty()) == tree_paths(rhs)) by {
            lemma_flat_entry_side(rhs, lhs, b, r2, both);
        }
    }
}

/// One side's contribution to the flattened group denotes exactly what that
/// side denoted.
pub proof fn lemma_flat_entry_side(t: TreeV, other: TreeV, entries: Seq<TreeV>, t2: TreeV, both: bool)
    requires
        wf_tree(t),
        both == (t.has_leading_root() && other.has_leading_root()),
        t2 == if both {
            crate::merge::spec_strip_root(t)
        } else {
            t
        },
        entries == if t.path_of() is Some || (t.has_leading_root() && !other.has_leading_root()) {
            seq![t2]
        } else {
            t2.children_or_empty()
        },
        !(t.path_of() is Some || (t.has_leading_root() && !other.has_leading_root())) ==> t
            is Group,
    ensures
        children_flat(entries, both, Seq::empty()) == tree_paths(t),
{
    if t.path_of() is Some || (t.has_leading_root() && !other.has_leading_root()) {
        lemma_children_flat_singleton(t2, both, Seq::empty());
        if both {
            lemma_strip_root_flat(t);
        }
        assert(children_flat(entries, both, Seq::empty()) =~= tree_paths(t));
    } else {
        match t {
            TreeV::Group { path, root: groot, children } => {
                assert(path is None);
                if both {
                    assert(groot);
                    assert(t2 == TreeV::Group { path: None, root: false, children });
                    assert(entries == children);
                    assert(children_flat(entries, true, Seq::empty()) =~= tree_paths(t));
                } else {
                    assert(!t.has_leading_root());
                    assert(!groot);
                    assert(t2 == t);
                    assert(entries == children);
                    assert(children_flat(entries, false, Seq::empty()) =~= tree_paths(t));
                }
            },
            TreeV::Leaf { .. } => {
                assert(false);
            },
        }
    }
}

/// The preferred, prefix-factoring strategy preserves the denoted set.
pub proof fn lemma_try_merge_prefixed_flat(
    fuel: nat,
    lhs: TreeV,
    rhs: TreeV,
    m: crate::merge::MergeBehavior,
)
    requires
        wf_tree(lhs),
        self_ok(lhs),
        wf_tree(rhs),
        self_ok(rhs),
    ensures
        crate::merge::spec_try_merge_prefixed(fuel, lhs, rhs, m) matches Some(t) ==> tree_paths(t)
            == tree_paths(lhs).union(tree_paths(rhs)),
{
    let res = crate::merge::spec_try_merge_prefixed(fuel, lhs, rhs, m);
    if res is Some {
        let lp = lhs.path_of()->Some_0;
        let rp = rhs.path_of()->Some_0;
        let pair = crate::prefix::spec_common_prefix(lp, rp)->Some_0;
        let n = pair.0.segments.len();
        crate::prefix::lemma_common_prefix_len(lp.segments, rp.segments);
        assert(lp.segments.take(n as int) =~= rp.segments.take(n as int));
        assert(lp.root == rp.root);
        if lhs.is_simple_path() && rhs.is_simple_path() && n == lp.segments.len() && n
            == rp.segments.len() {
            assert(lp.segments =~= lp.segments.take(n as int));
            assert(rp.segments =~= rp.segments.take(n as int));
            assert(lp =~= rp);
            assert(lhs =~= rhs);
            assert(aligned(lhs, rhs));
            lemma_recursive_merge_flat(fuel, lhs, rhs, m, false, Seq::empty());
        } else {
            lemma_no_self_recursion(lhs, rhs, lp, rp, n);
            lemma_split_wf(lhs, n);
            lemma_split_wf(rhs, n);
            lemma_split_flat(lhs, n, false, Seq::empty());
            lemma_split_flat(rhs, n, false, Seq::empty());
            let l2 = crate::prefix::spec_split_prefix(lhs, n);
            let r2 = crate::prefix::spec_split_prefix(rhs, n);
            assert(l2.path_of() == r2.path_of());
            assert(aligned(l2, r2));
            lemma_recursive_merge_flat(fuel, l2, r2, m, false, Seq::empty());
        }
    }
}

/// A successful merge of two well-formed trees denotes exactly the union
/// of the fully qualified entries the two trees denote: merging changes
/// tree shape, never what is imported.
pub proof fn lemma_try_merge_trees_preserves_paths(
    lhs: TreeV,
    rhs: TreeV,
    m: crate::merge::MergeBehavior,
)
    requires
        wf_tree(lhs),
        self_ok(lhs),
        wf_tree(rhs),
        self_ok(rhs),
    ensures
        crate::merge::spec_try_merge_trees(lhs, rhs, m) matches Some(t) ==> tree_paths(t)
            == tree_paths(lhs).union(tree_paths(rhs)),
{
    lemma_try_merge_prefixed_flat(crate::merge::MERGE_FUEL as nat, lhs, rhs, m);
    lemma_merge_into_one_flat(lhs, rhs, m);
}

/// Merging a well-formed tree with itself denotes the same set of entries.
pub proof fn lemma_self_merge_idempotent(t: TreeV, m: crate::merge::MergeBehavior)
    requires
        wf_tree(t),
        self_ok(t),
    ensures
        crate::merge::spec_try_merge_trees(t, t, m) matches Some(u) ==> tree_paths(u)
            == tree_paths(t),
{
    lemma_try_merge_trees_preserves_paths(t, t, m);
    if crate::merge::spec_try_merge_trees(t, t, m) is Some {
        assert(tree_paths(t).union(tree_paths(t)) =~= tree_paths(t));
    }
}

/// The same, lifted to whole declarations: a successful merge imports
/// exactly what the two declarations imported.
pub proof fn lemma_try_merge_imports_preserves_paths(
    lhs: crate::model::DeclV,
    rhs: crate::model::DeclV,
    m: crate::merge::MergeBehavior,
)
    requires
        lhs.tree matches Some(lt) && wf_tree(lt) && self_ok(lt),
        rhs.tree matches Some(rt) && wf_tree(rt) && self_ok(rt),
    ensures
        crate::merge::spec_try_merge_imports(lhs, rhs, m) matches Some(d) ==> (d.tree matches Some(
            t,
        ) && tree_paths(t) == tree_paths(lhs.tree->Some_0).union(tree_paths(rhs.tree->Some_0))),
{
    lemma_try_merge_trees_preserves_paths(lhs.tree->Some_0, rhs.tree->Some_0, m);
}

/// The canonical non-strict order on sibling nodes.
pub open spec fn le_sort(a: Option<PathV>, b: Option<PathV>) -> bool {
    spec_path_cmp_for_sort(a, b) != Ordering::Greater
}

/// A child list in canonical order: no node sorts strictly after a later
/// one.
pub open spec fn children_sorted(s: Seq<TreeV>) -> bool {
    forall|i: int, j: int|
        0 <= i < j < s.len() ==> le_sort((#[trigger] s[i]).path_of(), (#[trigger] s[j]).path_of())
}

/// A tree all of whose groups keep their children in canonical order.
pub open spec fn sorted_tree(t: TreeV) -> bool
    decreases t,
{
    match t {
        TreeV::Leaf { .. } => true,
        TreeV::Group { children, .. } => children_sorted(children) && all_sorted(children),
    }
}

/// Every node of the list is canonically sorted throughout.
pub open spec fn all_sorted(s: Seq<TreeV>) -> bool
    decreases s,
{
    if s.len() == 0 {
        true
    } else {
        all_sorted(s.drop_last()) && sorted_tree(s.last())
    }
}

/// What [`all_sorted`] says of each position.
pub proof fn lemma_all_sorted_index(s: Seq<TreeV>, i: int)
    requires
        all_sorted(s),
        0 <= i < s.len(),
    ensures
        sorted_tree(s[i]),
    decreases s,
{
    if i < s.len() - 1 {
        lemma_all_sorted_index(s.drop_last(), i);
    }
}

/// A list is sorted throughout when each of its positions is.
pub proof fn lemma_all_sorted_intro(s: Seq<TreeV>)
    requires
        forall|i: int| 0 <= i < s.len() ==> sorted_tree(#[trigger] s[i]),
    ensures
        all_sorted(s),
    decreases s,
{
    if s.len() > 0 {
        assert(forall|i: int| 0 <= i < s.drop_last().len() ==> s.drop_last()[i] == s[i]);
        lemma_all_sorted_intro(s.drop_last());
    }
}

/// An optional path whose segment run, if any, is non-empty.
pub open spec fn nonempty_path(x: Option<PathV>) -> bool {
    x matches Some(p) ==> p.segments.len() > 0
}

/// A node that is search-key-less than another sorts no later than it.
pub proof fn lemma_bin_less_le_sort(e: Option<PathV>, c: Option<PathV>)
    requires
        spec_path_cmp_bin_search(e, c) == Ordering::Less,
        nonempty_path(e),
        nonempty_path(c),
    ensures
        le_sort(e, c),
{
    match (e, c) {
        (Option::Some(pe), Option::Some(pc)) => {
            if !spec_path_is_self(pe) && !spec_path_is_self(pc) {
                assert(spec_segment_cmp(pe.segments[0], pc.segments[0]) == Ordering::Less);
            }
        },
        _ => {},
    }
}

/// A node that is search-key-greater than another sorts strictly after it.
pub proof fn lemma_bin_greater_lt_sort(d: Option<PathV>, c: Option<PathV>)
    requires
        spec_path_cmp_bin_search(d, c) == Ordering::Greater,
        nonempty_path(d),
        nonempty_path(c),
    ensures
        spec_path_cmp_for_sort(c, d) == Ordering::Less,
{
    match (d, c) {
        (Option::Some(pd), Option::Some(pc)) => {
            if !spec_path_is_self(pd) && !spec_path_is_self(pc) {
                lemma_segment_cmp_flip(pd.segments[0], pc.segments[0]);
                assert(spec_segment_cmp(pc.segments[0], pd.segments[0]) == Ordering::Less);
            }
        },
        (Option::Some(pd), Option::None) => {},
        _ => {},
    }
}

/// Truncating the right-hand path of a non-strict comparison keeps it
/// non-strict.
pub proof fn lemma_short_truncate_right(a: Seq<SegV>, b: Seq<SegV>, n: int)
    requires
        1 <= n <= b.len(),
        spec_path_cmp_short(a, b) != Ordering::Greater,
    ensures
        spec_path_cmp_short(a, b.take(n)) != Ordering::Greater,
    decreases a.len(),
{
    reveal_with_fuel(spec_path_cmp_short, 2);
    if a.len() == 0 {
    } else {
        assert(b.take(n)[0] == b[0]);
        match spec_segment_cmp(a[0], b[0]) {
            Ordering::Less => {
                assert(spec_path_cmp_short(a, b.take(n)) == Ordering::Less);
            },
            Ordering::Equal => {
                if n == 1 {
                    assert(b.take(n).skip(1) =~= Seq::<SegV>::empty());
                    assert(spec_path_cmp_short(a.skip(1), b.take(n).skip(1))
                        == Ordering::Equal);
                } else {
                    assert(b.take(n).skip(1) =~= b.skip(1).take(n - 1));
                    lemma_short_truncate_right(a.skip(1), b.skip(1), n - 1);
                }
                assert(spec_path_cmp_short(a, b.take(n)) == spec_path_cmp_short(
                    a.skip(1),
                    b.take(n).skip(1),
                ));
            },
            Ordering::Greater => {
                assert(spec_path_cmp_short(a, b) == Ordering::Greater);
            },
        }
    }
}

/// Truncating the left-hand path of a non-strict comparison keeps it
/// non-strict.
pub proof fn lemma_short_truncate_left(a: Seq<SegV>, b: Seq<SegV>, n: int)
    requires
        1 <= n <= a.len(),
        spec_path_cmp_short(a, b) != Ordering::Greater,
    ensures
        spec_path_cmp_short(a.take(n), b) != Ordering::Greater,
    decreases a.len(),
{
    reveal_with_fuel(spec_path_cmp_short, 2);
    if b.len() == 0 {
    } else {
        assert(a.take(n)[0] == a[0]);
        match spec_segment_cmp(a[0], b[0]) {
            Ordering::Less => {
                assert(spec_path_cmp_short(a.take(n), b) == Ordering::Less);
            },
            Ordering::Equal => {
                if n == 1 {
                    assert(a.take(n).skip(1) =~= Seq::<SegV>::empty());
                    assert(spec_path_cmp_short(a.take(n).skip(1), b.skip(1))
                        == Ordering::Equal);
                } else {
                    assert(a.take(n).skip(1) =~= a.skip(1).take(n - 1));
                    lemma_short_truncate_left(a.skip(1), b.skip(1), n - 1);
                }
                assert(spec_path_cmp_short(a.take(n), b) == spec_path_cmp_short(
                    a.take(n).skip(1),
                    b.skip(1),
                ));
            },
            Ordering::Greater => {
                assert(spec_path_cmp_short(a, b) == Ordering::Greater);
            },
        }
    }
}

/// Shortening a sibling's path to a leading prefix cannot move it after a
/// node it did not already sort after.
pub proof fn lemma_for_sort_truncate_right(x: Option<PathV>, p: PathV, q: PathV, n: int)
    requires
        le_sort(x, Some(p)),
        1 <= n <= p.segments.len(),
        q.segments == p.segments.take(n),
        !spec_path_is_self(q),
        !spec_path_is_self(p),
    ensures
        le_sort(x, Some(q)),
{
    match x {
        Option::Some(px) => {
            if !spec_path_is_self(px) {
                lemma_short_truncate_right(px.segments, p.segments, n);
            }
        },
        Option::None => {},
    }
}

/// Shortening a node's path to a leading prefix cannot move it after a
/// sibling it did not already sort after.
pub proof fn lemma_for_sort_truncate_left(x: Option<PathV>, p: PathV, q: PathV, n: int)
    requires
        le_sort(Some(p), x),
        1 <= n <= p.segments.len(),
        q.segments == p.segments.take(n),
        !spec_path_is_self(q),
        !spec_path_is_self(p),
    ensures
        le_sort(Some(q), x),
{
    match x {
        Option::Some(px) => {
            if !spec_path_is_self(px) {
                lemma_short_truncate_left(p.segments, px.segments, n);
            }
        },
        Option::None => {},
    }
}

/// Every node before the insertion position sorts no later than the new
/// one, and the node at the position, if any, sorts strictly after it.
pub proof fn lemma_insert_pos_before(s: Seq<TreeV>, p: Option<PathV>)
    ensures
        forall|j: int|
            0 <= j < crate::merge::spec_insert_pos(s, p) ==> le_sort(
                (#[trigger] s[j]).path_of(),
                p,
            ),
        crate::merge::spec_insert_pos(s, p) < s.len() ==> spec_path_cmp_for_sort(
            s[crate::merge::spec_insert_pos(s, p) as int].path_of(),
            p,
        ) == Ordering::Greater,
    decreases s.len(),
{
    lemma_insert_pos_le(s, p);
    if s.len() > 0 && spec_path_cmp_for_sort(s[0].path_of(), p) != Ordering::Greater {
        lemma_insert_pos_le(s.skip(1), p);
        lemma_insert_pos_before(s.skip(1), p);
        let pos = crate::merge::spec_insert_pos(s, p);
        assert forall|j: int| 0 <= j < pos implies le_sort((#[trigger] s[j]).path_of(), p) by {
            if j > 0 {
                assert(s.skip(1)[j - 1] == s[j]);
            }
        }
        if pos < s.len() {
            assert(s.skip(1)[pos - 1] == s[pos as int]);
        }
    }
}

/// When no node sorts after the path, the insertion position is the end.
pub proof fn lemma_insert_pos_all_le(s: Seq<TreeV>, p: Option<PathV>)
    requires
        forall|j: int| 0 <= j < s.len() ==> le_sort((#[trigger] s[j]).path_of(), p),
    ensures
        crate::merge::spec_insert_pos(s, p) == s.len(),
    decreases s.len(),
{
    if s.len() > 0 {
        assert(forall|j: int|
            0 <= j < s.skip(1).len() ==> (#[trigger] s.skip(1)[j]) == s[j + 1]);
        lemma_insert_pos_all_le(s.skip(1), p);
    }
}

/// Inserting at the canonical position keeps the list sorted.
pub proof fn lemma_insert_sorted_sorted(s: Seq<TreeV>, t: TreeV)
    requires
        children_sorted(s),
    ensures
        children_sorted(crate::merge::spec_insert_sorted(s, t)),
{
    lemma_insert_pos_le(s, t.path_of());
    lemma_insert_pos_before(s, t.path_of());
    let pos = crate::merge::spec_insert_pos(s, t.path_of()) as int;
    let out = s.insert(pos, t);
    assert forall|i: int, j: int|
        0 <= i < j < out.len() implies le_sort(
        (#[trigger] out[i]).path_of(),
        (#[trigger] out[j]).path_of(),
    ) by {
        if i < pos && j < pos {
            assert(out[i] == s[i] && out[j] == s[j]);
        } else if i < pos && j == pos {
            assert(out[i] == s[i] && out[j] == t);
        } else if i < pos && j > pos {
            assert(out[i] == s[i] && out[j] == s[j - 1]);
        } else if i == pos {
            assert(out[i] == t && out[j] == s[j - 1]);
            assert(pos < s.len());
            // the node at the old position sorts after t, so everything
            // from there on does too
            assert(spec_path_cmp_for_sort(s[pos].path_of(), t.path_of()) == Ordering::Greater);
            if j - 1 > pos {
                if spec_path_cmp_for_sort(t.path_of(), s[j - 1].path_of()) == Ordering::Greater {
                    lemma_path_cmp_for_sort_greater_trans(
                        s[pos].path_of(),
                        t.path_of(),
                        s[j - 1].path_of(),
                    );
                }
            } else {
                lemma_path_cmp_for_sort_flip(s[pos].path_of(), t.path_of());
            }
        } else {
            assert(out[i] == s[i - 1] && out[j] == s[j - 1]);
        }
    }
}

/// The canonical sorting of any child list is sorted.
pub proof fn lemma_sort_sorted(s: Seq<TreeV>)
    ensures
        children_sorted(crate::merge::spec_sort(s)),
    decreases s,
{
    if s.len() > 0 {
        lemma_sort_sorted(s.drop_last());
        lemma_insert_sorted_sorted(crate::merge::spec_sort(s.drop_last()), s.last());
    }
}

/// Sorting keeps every node of the list canonically sorted throughout.
pub proof fn lemma_sort_all_sorted(s: Seq<TreeV>)
    requires
        forall|i: int| 0 <= i < s.len() ==> sorted_tree(#[trigger] s[i]),
    ensures
        forall|i: int|
            0 <= i < crate::merge::spec_sort(s).len() ==> sorted_tree(
                #[trigger] crate::merge::spec_sort(s)[i],
            ),
    decreases s,
{
    if s.len() > 0 {
        assert(forall|i: int| 0 <= i < s.drop_last().len() ==> s.drop_last()[i] == s[i]);
        lemma_sort_all_sorted(s.drop_last());
        let base = crate::merge::spec_sort(s.drop_last());
        lemma_insert_pos_le(base, s.last().path_of());
        let pos = crate::merge::spec_insert_pos(base, s.last().path_of()) as int;
        let out = crate::merge::spec_sort(s);
        assert(out == base.insert(pos, s.last()));
        assert forall|i: int| 0 <= i < out.len() implies sorted_tree(#[trigger] out[i]) by {
            if i < pos {
                assert(out[i] == base[i]);
            } else if i == pos {
                assert(out[i] == s.last());
            } else {
                assert(out[i] == base[i - 1]);
            }
        }
    }
}

/// Re-running the canonical sort on an already sorted list is a no-op.
pub proof fn lemma_sorted_sort_id(s: Seq<TreeV>)
    requires
        children_sorted(s),
    ensures
        crate::merge::spec_sort(s) == s,
    decreases s,
{
    if s.len() > 0 {
        assert(forall|i: int| 0 <= i < s.drop_last().len() ==> s.drop_last()[i] == s[i]);
        lemma_sorted_sort_id(s.drop_last());
        assert(forall|j: int|
            0 <= j < s.drop_last().len() ==> le_sort(
                (#[trigger] s.drop_last()[j]).path_of(),
                s.last().path_of(),
            ));
        lemma_insert_pos_all_le(s.drop_last(), s.last().path_of());
        assert(crate::merge::spec_sort(s) =~= s);
    }
}

/// Everything scanned before the search position is search-key-less than
/// the key, and on a failed search the node at the position, if any, is
/// search-key-greater.
pub proof fn lemma_search_chars(s: Seq<TreeV>, key: Option<PathV>)
    ensures
        forall|j: int|
            0 <= j < crate::merge::spec_search(s, key).0 ==> spec_path_cmp_bin_search(
                (#[trigger] s[j]).path_of(),
                key,
            ) == Ordering::Less,
        !crate::merge::spec_search(s, key).1 && crate::merge::spec_search(s, key).0 < s.len()
            ==> spec_path_cmp_bin_search(
            s[crate::merge::spec_search(s, key).0 as int].path_of(),
            key,
        ) == Ordering::Greater,
    decreases s.len(),
{
    crate::merge::lemma_search_in_range(s, key);
    if s.len() > 0 && spec_path_cmp_bin_search(s[0].path_of(), key) == Ordering::Less {
        crate::merge::lemma_search_in_range(s.skip(1), key);
        lemma_search_chars(s.skip(1), key);
        let pos = crate::merge::spec_search(s, key).0;
        assert forall|j: int| 0 <= j < pos implies spec_path_cmp_bin_search(
            (#[trigger] s[j]).path_of(),
            key,
        ) == Ordering::Less by {
            if j > 0 {
                assert(s.skip(1)[j - 1] == s[j]);
            }
        }
        if !crate::merge::spec_search(s, key).1 && pos < s.len() {
            assert(s.skip(1)[pos - 1] == s[pos as int]);
        }
    }
}

/// A well-formed node's path, if any, has at least one segment.
pub proof fn lemma_wf_nonempty_path(t: TreeV)
    requires
        wf_tree(t),
    ensures
        nonempty_path(t.path_of()),
{
}

/// Inserting an incoming node at its search position keeps the child list
/// canonically sorted.
pub proof fn lemma_insert_search_sorted(s: Seq<TreeV>, c: TreeV)
    requires
        children_sorted(s),
        forall|j: int| 0 <= j < s.len() ==> wf_tree(#[trigger] s[j]),
        wf_tree(c),
        !crate::merge::spec_search(s, c.path_of()).1,
    ensures
        children_sorted(
            s.insert(crate::merge::spec_search(s, c.path_of()).0 as int, c),
        ),
{
    crate::merge::lemma_search_in_range(s, c.path_of());
    lemma_search_chars(s, c.path_of());
    lemma_wf_nonempty_path(c);
    let pos = crate::merge::spec_search(s, c.path_of()).0 as int;
    let out = s.insert(pos, c);
    assert forall|i: int, j: int|
        0 <= i < j < out.len() implies le_sort(
        (#[trigger] out[i]).path_of(),
        (#[trigger] out[j]).path_of(),
    ) by {
        if i < pos && j < pos {
            assert(out[i] == s[i] && out[j] == s[j]);
        } else if i < pos && j == pos {
            assert(out[i] == s[i] && out[j] == c);
            lemma_wf_nonempty_path(s[i]);
            lemma_bin_less_le_sort(s[i].path_of(), c.path_of());
        } else if i < pos && j > pos {
            assert(out[i] == s[i] && out[j] == s[j - 1]);
        } else if i == pos {
            assert(out[i] == c && out[j] == s[j - 1]);
            assert(pos < s.len());
            lemma_wf_nonempty_path(s[pos]);
            lemma_bin_greater_lt_sort(s[pos].path_of(), c.path_of());
            assert(spec_path_cmp_for_sort(c.path_of(), s[pos].path_of()) == Ordering::Less);
            if j - 1 > pos {
                lemma_path_cmp_for_sort_flip(c.path_of(), s[pos].path_of());
                if spec_path_cmp_for_sort(c.path_of(), s[j - 1].path_of()) == Ordering::Greater {
                    lemma_path_cmp_for_sort_flip(s[pos].path_of(), c.path_of());
                    lemma_path_cmp_for_sort_greater_trans(
                        s[pos].path_of(),
                        c.path_of(),
                        s[j - 1].path_of(),
                    );
                }
            }
        } else {
            assert(out[i] == s[i - 1] && out[j] == s[j - 1]);
        }
    }
}

/// The truncated shared prefix of a recursion step is never the bare
/// `self`.
pub proof fn lemma_truncated_not_self(lp: PathV, q: PathV, n: int)
    requires
        path_wf(lp),
        !spec_path_is_self(lp),
        1 <= n <= lp.segments.len(),
        q.segments == lp.segments.take(n),
        q.root == lp.root,
    ensures
        !spec_path_is_self(q),
{
    assert(q.segments[0] == lp.segments[0]);
    if spec_path_is_self(q) {
        assert(lp.segments[0] is SelfSeg);
        assert(lp.segments.len() == 1);
        assert(!lp.root);
        assert(false);
    }
}

/// Replacing a node by one whose path is a leading prefix of its own keeps
/// the child list canonically sorted.
pub proof fn lemma_update_truncated_sorted(s: Seq<TreeV>, pos: int, mg: TreeV, lp: PathV, q: PathV, n: int)
    requires
        children_sorted(s),
        0 <= pos < s.len(),
        s[pos].path_of() == Some(lp),
        mg.path_of() == Some(q),
        path_wf(lp),
        !spec_path_is_self(lp),
        1 <= n <= lp.segments.len(),
        q.segments == lp.segments.take(n),
        q.root == lp.root,
    ensures
        children_sorted(s.update(pos, mg)),
{
    lemma_truncated_not_self(lp, q, n);
    let out = s.update(pos, mg);
    assert forall|i: int, j: int|
        0 <= i < j < out.len() implies le_sort(
        (#[trigger] out[i]).path_of(),
        (#[trigger] out[j]).path_of(),
    ) by {
        if i == pos {
            assert(out[i] == mg && out[j] == s[j]);
            assert(le_sort(Some(lp), s[j].path_of()));
            lemma_for_sort_truncate_left(s[j].path_of(), lp, q, n);
        } else if j == pos {
            assert(out[i] == s[i] && out[j] == mg);
            assert(le_sort(s[i].path_of(), Some(lp)));
            lemma_for_sort_truncate_right(s[i].path_of(), lp, q, n);
        } else {
            assert(out[i] == s[i] && out[j] == s[j]);
        }
    }
}

/// Splitting a tree at a prefix of its path keeps it canonically sorted.
pub proof fn lemma_split_sorted(t: TreeV, n: nat)
    requires
        wf_tree(t),
        sorted_tree(t),
        t.path_of() matches Some(p) && 1 <= n <= p.segments.len(),
    ensures
        sorted_tree(crate::prefix::spec_split_prefix(t, n)),
    decreases t,
{
    let p = t.path_of()->Some_0;
    let sp = crate::prefix::spec_split_prefix(t, n);
    if sp is Group && sp != t {
        let ch = sp->Group_children;
        assert(ch.len() == 1);
        assert(children_sorted(ch));
        assert(sorted_tree(ch[0]));
        lemma_all_sorted_intro(ch);
    }
}

/// The child-merging loop keeps the accumulated list canonically sorted
/// and all of its nodes sorted throughout.
pub proof fn lemma_merge_loop_sorted(
    fuel: nat,
    acc: Seq<TreeV>,
    rhs_ch: Seq<TreeV>,
    i: nat,
    m: crate::merge::MergeBehavior,
)
    requires
        children_sorted(acc),
        forall|j: int|
            0 <= j < acc.len() ==> wf_tree(#[trigger] acc[j]) && self_ok(acc[j]) && sorted_tree(
                acc[j],
            ),
        forall|j: int|
            0 <= j < rhs_ch.len() ==> wf_tree(#[trigger] rhs_ch[j]) && self_ok(rhs_ch[j])
                && sorted_tree(rhs_ch[j]),
        i <= rhs_ch.len(),
    ensures
        crate::merge::spec_merge_loop(fuel, acc, rhs_ch, i, m) matches Some(out) ==> {
            &&& children_sorted(out)
            &&& forall|j: int| 0 <= j < out.len() ==> sorted_tree(#[trigger] out[j])
        },
    decreases fuel, rhs_ch.len() - i,
{
    let res = crate::merge::spec_merge_loop(fuel, acc, rhs_ch, i, m);
    if i >= rhs_ch.len() || res is None {
    } else {
        let c = rhs_ch[i as int];
        if !crate::merge::spec_is_tree_allowed(m, c) {
        } else {
            let sr = crate::merge::spec_search(acc, c.path_of());
            let pos = sr.0 as int;
            let found = sr.1;
            if found {
                crate::merge::lemma_search_in_range(acc, c.path_of());
                let lt = acc[pos];
                match (lt.path_of(), c.path_of()) {
                    (Option::Some(lp), Option::Some(cp)) => {
                        match crate::prefix::spec_common_prefix(lp, cp) {
                            Some(pair) => {
                                let n = pair.0.segments.len();
                                crate::prefix::lemma_common_prefix_len(lp.segments, cp.segments);
                                assert(lp.segments.take(n as int) =~= cp.segments.take(n as int));
                                let full = n == lp.segments.len() && n == cp.segments.len();
                                let skip_c = full && crate::merge::spec_tree_contains_self(lt)
                                    == Some(true) && crate::merge::spec_tree_contains_self(c)
                                    is None;
                                let replace_l = full && crate::merge::spec_tree_contains_self(lt)
                                    is None && crate::merge::spec_tree_contains_self(c) == Some(
                                    true,
                                );
                                let dedup = full && lt.is_simple_path() && c.is_simple_path();
                                if full {
                                    assert(lp.segments =~= lp.segments.take(n as int));
                                    assert(cp.segments =~= cp.segments.take(n as int));
                                    assert(lp =~= cp);
                                }
                                if skip_c || dedup {
                                    lemma_merge_loop_sorted(fuel, acc, rhs_ch, i + 1, m);
                                } else if replace_l {
                                    let acc2 = acc.update(pos, c);
                                    assert(children_sorted(acc2)) by {
                                        assert forall|x: int, y: int|
                                            0 <= x < y < acc2.len() implies le_sort(
                                            (#[trigger] acc2[x]).path_of(),
                                            (#[trigger] acc2[y]).path_of(),
                                        ) by {
                                            assert(acc2[x].path_of() == acc[x].path_of());
                                            assert(acc2[y].path_of() == acc[y].path_of());
                                        }
                                    }
                                    assert(forall|j: int|
                                        0 <= j < acc2.len() ==> wf_tree(#[trigger] acc2[j])
                                            && self_ok(acc2[j]) && sorted_tree(acc2[j]));
                                    lemma_merge_loop_sorted(fuel, acc2, rhs_ch, i + 1, m);
                                } else if fuel == 0 {
                                } else {
                                    lemma_no_self_recursion(lt, c, lp, cp, n);
                                    let l2 = crate::prefix::spec_split_prefix(lt, n);
                                    let r2 = crate::prefix::spec_split_prefix(c, n);
                                    lemma_split_wf(lt, n);
                                    lemma_split_wf(c, n);
                                    lemma_split_sorted(lt, n);
                                    lemma_split_sorted(c, n);
                                    assert(aligned(l2, r2));
                                    lemma_recursive_merge_flat(
                                        (fuel - 1) as nat,
                                        l2,
                                        r2,
                                        m,
                                        false,
                                        Seq::empty(),
                                    );
                                    lemma_recursive_merge_sorted((fuel - 1) as nat, l2, r2, m);
                                    let sub = crate::merge::spec_recursive_merge(
                                        (fuel - 1) as nat,
                                        l2,
                                        r2,
                                        m,
                                    );
                                    if let Some(mg) = sub {
                                        let q = l2.path_of()->Some_0;
                                        assert(mg.path_of() == Some(q));
                                        assert(q.segments == lp.segments.take(n as int));
                                        assert(q.root == lp.root);
                                        let acc2 = acc.update(pos, mg);
                                        lemma_update_truncated_sorted(acc, pos, mg, lp, q, n as int);
                                        assert(forall|j: int|
                                            0 <= j < acc2.len() ==> wf_tree(#[trigger] acc2[j])
                                                && self_ok(acc2[j]) && sorted_tree(acc2[j]));
                                        lemma_merge_loop_sorted(fuel, acc2, rhs_ch, i + 1, m);
                                    }
                                }
                            },
                            None => {},
                        }
                    },
                    _ => {},
                }
            } else {
                if m == crate::merge::MergeBehavior::Module && acc.len() > 0 && c.is_group() {
                } else {
                    crate::merge::lemma_search_in_range(acc, c.path_of());
                    let acc2 = acc.insert(pos, c);
                    lemma_insert_search_sorted(acc, c);
                    assert(forall|j: int|
                        0 <= j < acc2.len() ==> wf_tree(#[trigger] acc2[j]) && self_ok(acc2[j])
                            && sorted_tree(acc2[j])) by {
                        assert forall|j: int| 0 <= j < acc2.len() implies wf_tree(
                            #[trigger] acc2[j],
                        ) && self_ok(acc2[j]) && sorted_tree(acc2[j]) by {
                            if j < pos {
                                assert(acc2[j] == acc[j]);
                            } else if j == pos {
                                assert(acc2[j] == c);
                            } else {
                                assert(acc2[j] == acc[j - 1]);
                            }
                        }
                    }
                    lemma_merge_loop_sorted(fuel, acc2, rhs_ch, i + 1, m);
                }
            }
        }
    }
}

/// The recursive merger's result is canonically sorted throughout, and
/// keeps the left-hand node's path.
pub proof fn lemma_recursive_merge_sorted(
    fuel: nat,
    lhs: TreeV,
    rhs: TreeV,
    m: crate::merge::MergeBehavior,
)
    requires
        wf_tree(lhs),
        self_ok(lhs),
        wf_tree(rhs),
        self_ok(rhs),
        aligned(lhs, rhs),
        sorted_tree(lhs),
        sorted_tree(rhs),
    ensures
        crate::merge::spec_recursive_merge(fuel, lhs, rhs, m) matches Some(t) ==> {
            &&& sorted_tree(t)
            &&& t.path_of() == lhs.path_of()
        },
    decreases fuel, rhs.children_or_empty().len() + 1,
{
    let res = crate::merge::spec_recursive_merge(fuel, lhs, rhs, m);
    let ls = lhs.children_or_empty();
    let rs = rhs.children_or_empty();
    if !(forall|j: int|
        0 <= j < ls.len() ==> crate::merge::spec_is_tree_allowed(m, #[trigger] ls[j]))
        || res is None {
    } else if lhs is Group {
        assert(forall|j: int|
            0 <= j < ls.len() ==> wf_tree(#[trigger] ls[j]) && self_ok(ls[j]) && sorted_tree(
                ls[j],
            )) by {
            assert forall|j: int| 0 <= j < ls.len() implies wf_tree(#[trigger] ls[j]) && self_ok(
                ls[j],
            ) && sorted_tree(ls[j]) by {
                lemma_wf_children_index(ls, j);
                lemma_all_sorted_index(ls, j);
            }
        }
        assert(forall|j: int|
            0 <= j < rs.len() ==> wf_tree(#[trigger] rs[j]) && self_ok(rs[j]) && sorted_tree(
                rs[j],
            )) by {
            assert forall|j: int| 0 <= j < rs.len() implies wf_tree(#[trigger] rs[j]) && self_ok(
                rs[j],
            ) && sorted_tree(rs[j]) by {
                lemma_wf_children_index(rs, j);
                lemma_all_sorted_index(rs, j);
            }
        }
        let sorted = crate::merge::spec_sort(ls);
        lemma_sort_sorted(ls);
        lemma_sort_wf(ls);
        lemma_sort_all_sorted(ls);
        lemma_merge_loop_sorted(fuel, sorted, rs, 0, m);
        let lres = crate::merge::spec_merge_loop(fuel, sorted, rs, 0, m);
        if let Some(out) = lres {
            let t = crate::merge::spec_rebuild(lhs, out);
            assert(t == TreeV::Group { path: lhs.path_of(), root: false, children: out }) by {
                assert(lhs matches TreeV::Group { root: groot, .. } && !groot);
            }
            lemma_all_sorted_intro(out);
            assert(sorted_tree(t));
        }
    } else {
        assert(lhs == rhs);
        assert(ls =~= Seq::<TreeV>::empty());
        assert(rs =~= Seq::<TreeV>::empty());
        let sorted = crate::merge::spec_sort(ls);
        assert(sorted =~= Seq::<TreeV>::empty());
        let lres = crate::merge::spec_merge_loop(fuel, sorted, rs, 0, m);
        assert(lres == Some(sorted));
        if let Some(out) = lres {
            assert(out.len() == 0);
            let t = crate::merge::spec_rebuild(lhs, out);
            assert(t == lhs);
        }
    }
}

/// When the prefix-factoring strategy succeeds on two canonically sorted,
/// well-formed trees, every group of the merged tree keeps its children in
/// non-decreasing canonical order.
pub proof fn lemma_try_merge_trees_canonical_order(
    lhs: TreeV,
    rhs: TreeV,
    m: crate::merge::MergeBehavior,
)
    requires
        wf_tree(lhs),
        self_ok(lhs),
        wf_tree(rhs),
        self_ok(rhs),
        sorted_tree(lhs),
        sorted_tree(rhs),
    ensures
        crate::merge::spec_try_merge_prefixed(crate::merge::MERGE_FUEL as nat, lhs, rhs, m)
            matches Some(t) ==> {
            &&& sorted_tree(t)
            &&& crate::merge::spec_try_merge_trees(lhs, rhs, m) == Some(t)
        },
{
    let fuel = crate::merge::MERGE_FUEL as nat;
    let res = crate::merge::spec_try_merge_prefixed(fuel, lhs, rhs, m);
    if res is Some {
        let lp = lhs.path_of()->Some_0;
        let rp = rhs.path_of()->Some_0;
        let pair = crate::prefix::spec_common_prefix(lp, rp)->Some_0;
        let n = pair.0.segments.len();
        crate::prefix::lemma_common_prefix_len(lp.segments, rp.segments);
        assert(lp.segments.take(n as int) =~= rp.segments.take(n as int));
        if lhs.is_simple_path() && rhs.is_simple_path() && n == lp.segments.len() && n
            == rp.segments.len() {
            assert(lp.segments =~= lp.segments.take(n as int));
            assert(rp.segments =~= rp.segments.take(n as int));
            assert(lp =~= rp);
            assert(lhs =~= rhs);
            lemma_recursive_merge_sorted(fuel, lhs, rhs, m);
        } else {
            lemma_no_self_recursion(lhs, rhs, lp, rp, n);
            lemma_split_wf(lhs, n);
            lemma_split_wf(rhs, n);
            lemma_split_sorted(lhs, n);
            lemma_split_sorted(rhs, n);
            let l2 = crate::prefix::spec_split_prefix(lhs, n);
            let r2 = crate::prefix::spec_split_prefix(rhs, n);
            assert(aligned(l2, r2));
            lemma_recursive_merge_sorted(fuel, l2, r2, m);
        }
    }
}

/// Re-running the canonical sort on the child list of an already sorted
/// group is a no-op.
pub proof fn lemma_canonical_sort_noop(t: TreeV)
    requires
        sorted_tree(t),
        t is Group,
    ensures
        crate::merge::spec_sort(t->Group_children) == t->Group_children,
{
    lemma_sorted_sort_id(t->Group_children);
}

} // verus!
