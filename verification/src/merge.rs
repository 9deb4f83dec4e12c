//! The merge engine proper: the policy model, the equality gate, the
//! recursive merger and the flatten-into-one fallback.
//!
//! Every function here is total and pure: the callers' trees are read
//! through shared references only, all work happens on freshly built nodes,
//! and a failed merge therefore leaves both inputs untouched.  The exact
//! result of each function is pinned by a specification-level mirror
//! (`spec_...`) of the same decision structure.
use std::cmp::Ordering;

use vstd::prelude::*;

use crate::model::{
    Attr, Path, PathV, TreeV, UseDecl, UseTree, DeclV, VisV, Visibility, copy_trees, trees_view,
};
use crate::order::{
    path_cmp_bin_search, path_cmp_for_sort, path_is_self, path_len, spec_path_cmp_bin_search,
    spec_path_cmp_for_sort, spec_path_is_self,
};
use crate::prefix::{
    bytes_eq, common_prefix_len, lemma_common_prefix_len, lemma_seg_text_eq_is_eq, seg_text_eq,
    spec_common_prefix, spec_split_prefix, split_prefix,
};

verus! {

broadcast use crate::model::group_trees_view;

/// What type of merges are allowed.
#[derive(Copy, Clone, Debug, PartialEq, Eq, Structural)]
pub enum MergeBehavior {
    /// Merge all imports into a single use statement.
    One,
    /// Merge imports from the same crate into a single use statement.
    Crate,
    /// Merge imports from the same module into a single use statement.
    Module,
}

/// How many levels of nested prefix splitting a merge may descend through.
/// Import trees are nested a handful of levels deep in practice; a tree that
/// exhausts this budget is simply reported as not mergeable.
pub const MERGE_FUEL: u64 = 4294967295;

/// Whether a single tree is eligible under the policy: `Module` admits only
/// simple paths of at most one segment with no nested group, the other two
/// policies admit everything.
pub open spec fn spec_is_tree_allowed(m: MergeBehavior, t: TreeV) -> bool {
    match m {
        MergeBehavior::One => true,
        MergeBehavior::Crate => true,
        MergeBehavior::Module => !t.is_group() && match t.path_of() {
            Some(p) => p.segments.len() <= 1,
            None => true,
        },
    }
}

/// The view of an optional borrowed path.
pub open spec fn opt_path_v(p: Option<&Path>) -> Option<PathV> {
    match p {
        Some(q) => Some(q@),
        None => None,
    }
}

impl MergeBehavior {
    /// Whether the given tree is eligible for merging under this policy.
    pub fn is_tree_allowed(&self, tree: &UseTree) -> (r: bool)
        ensures
            r == spec_is_tree_allowed(*self, tree@),
    {
        match self {
            MergeBehavior::One => true,
            MergeBehavior::Crate => true,
            MergeBehavior::Module => !tree.has_tree_list() && match tree.path() {
                Some(p) => path_len(p) <= 1,
                None => true,
            },
        }
    }
}

/// Whether some node of the child list names the bare `self`, reported as
/// `Some(..)` only for nodes that can absorb or be absorbed: a group answers
/// whether any of its children is a bare `self`, a glob answers `false`, and
/// a plain leaf gives no answer.
pub open spec fn spec_tree_contains_self(t: TreeV) -> Option<bool> {
    match t {
        TreeV::Group { children, .. } => Some(
            exists|j: int|
                0 <= j < children.len() && (#[trigger] children[j].path_of() matches Some(p)
                    && spec_path_is_self(p)),
        ),
        TreeV::Leaf { glob: true, .. } => Some(false),
        TreeV::Leaf { glob: false, .. } => None,
    }
}

/// Reports whether a group's child list contains a bare `self` entry; globs
/// report `false` and plain leaves report nothing.
pub fn tree_contains_self(t: &UseTree) -> (r: Option<bool>)
    ensures
        r == spec_tree_contains_self(t@),
{
    match t {
        UseTree::Group { children, .. } => {
            let mut i: usize = 0;
            proof {
                assert(t@->Group_children == trees_view(children@));
            }
            while i < children.len()
                invariant
                    i <= children.len(),
                    t@ is Group,
                    t@->Group_children == trees_view(children@),
                    trees_view(children@).len() == children@.len(),
                    forall|j: int|
                        0 <= j < i ==> !(#[trigger] trees_view(children@)[j].path_of() matches Some(
                            p,
                        ) && spec_path_is_self(p)),
                decreases children.len() - i,
            {
                let is_self = match children[i].path() {
                    Some(p) => path_is_self(p),
                    None => false,
                };
                if is_self {
                    proof {
                        let cv = trees_view(children@);
                        assert(cv[i as int] == children@[i as int]@);
                        assert(cv[i as int].path_of() matches Some(p) && spec_path_is_self(p));
                    }
                    return Some(true);
                }
                i = i + 1;
            }
            Some(false)
        },
        UseTree::Leaf { glob: true, .. } => Some(false),
        UseTree::Leaf { glob: false, .. } => None,
    }
}

/// The first position whose node is not search-key-less than the key, and
/// whether the node there matches the key exactly: the merge candidate when
/// there is one, the insertion position otherwise.
pub open spec fn spec_search(s: Seq<TreeV>, key: Option<PathV>) -> (nat, bool)
    decreases s.len(),
{
    if s.len() == 0 {
        (0nat, false)
    } else {
        match spec_path_cmp_bin_search(s[0].path_of(), key) {
            Ordering::Less => {
                let t = spec_search(s.skip(1), key);
                ((t.0 + 1) as nat, t.1)
            },
            Ordering::Equal => (0nat, true),
            Ordering::Greater => (0nat, false),
        }
    }
}

/// Looks the key up in the child list with the search-key order, returning
/// the candidate position and whether a candidate was found there.
pub fn search_trees(v: &Vec<UseTree>, key: Option<&Path>) -> (r: (usize, bool))
    ensures
        r.0 == spec_search(trees_view(v@), opt_path_v(key)).0,
        r.1 == spec_search(trees_view(v@), opt_path_v(key)).1,
{
    let ghost whole = trees_view(v@);
    let ghost kv = opt_path_v(key);
    let mut i: usize = 0;
    proof {
        assert(whole.skip(0) =~= whole);
    }
    loop
        invariant
            i <= v@.len(),
            whole == trees_view(v@),
            kv == opt_path_v(key),
            spec_search(whole, kv).0 == i + spec_search(whole.skip(i as int), kv).0,
            spec_search(whole, kv).1 == spec_search(whole.skip(i as int), kv).1,
        decreases v@.len() - i,
    {
        if i == v.len() {
            return (i, false);
        }
        proof {
            assert(whole.skip(i as int)[0] == whole[i as int]);
            assert(whole.skip(i as int).skip(1) =~= whole.skip(i as int + 1));
        }
        match path_cmp_bin_search(v[i].path(), key) {
            Ordering::Less => {
                i = i + 1;
            },
            Ordering::Equal => {
                return (i, true);
            },
            Ordering::Greater => {
                return (i, false);
            },
        }
    }
}

/// The position at which a node with the given path belongs in a sorted
/// child list: after every sibling that does not sort strictly greater.
pub open spec fn spec_insert_pos(s: Seq<TreeV>, p: Option<PathV>) -> nat
    decreases s.len(),
{
    if s.len() == 0 {
        0nat
    } else if spec_path_cmp_for_sort(s[0].path_of(), p) == Ordering::Greater {
        0nat
    } else {
        (1 + spec_insert_pos(s.skip(1), p)) as nat
    }
}

/// A list with one node inserted at its canonical position.
pub open spec fn spec_insert_sorted(s: Seq<TreeV>, t: TreeV) -> Seq<TreeV> {
    s.insert(spec_insert_pos(s, t.path_of()) as int, t)
}

/// The canonical sorting of a child list: every node inserted, in order, at
/// its canonical position; ties keep their relative order.
pub open spec fn spec_sort(s: Seq<TreeV>) -> Seq<TreeV>
    decreases s.len(),
{
    if s.len() == 0 {
        Seq::empty()
    } else {
        spec_insert_sorted(spec_sort(s.drop_last()), s.last())
    }
}

/// Inserts one tree into a child list at its canonical position.
pub fn insert_sorted(v: &mut Vec<UseTree>, t: UseTree)
    ensures
        trees_view(final(v)@) == spec_insert_sorted(trees_view(old(v)@), t@),
{
    let ghost whole = trees_view(v@);
    let ghost pv = t@.path_of();
    let mut i: usize = 0;
    proof {
        assert(whole.skip(0) =~= whole);
    }
    loop
        invariant
            i <= v@.len(),
            whole == trees_view(v@),
            pv == t@.path_of(),
            spec_insert_pos(whole, pv) == i + spec_insert_pos(whole.skip(i as int), pv),
        ensures
            i <= v@.len(),
            whole == trees_view(v@),
            pv == t@.path_of(),
            spec_insert_pos(whole, pv) == i,
        decreases v@.len() - i,
    {
        if i == v.len() {
            break;
        }
        proof {
            assert(whole.skip(i as int)[0] == whole[i as int]);
            assert(whole.skip(i as int).skip(1) =~= whole.skip(i as int + 1));
        }
        match path_cmp_for_sort(v[i].path(), t.path()) {
            Ordering::Greater => {
                break;
            },
            _ => {
                i = i + 1;
            },
        }
    }
    v.insert(i, t);
    proof {
        assert(trees_view(v@) =~= whole.insert(i as int, t@));
    }
}

/// Sorts a child list into the canonical sibling order.
pub fn sort_trees(v: Vec<UseTree>) -> (r: Vec<UseTree>)
    ensures
        trees_view(r@) == spec_sort(trees_view(v@)),
{
    let mut out: Vec<UseTree> = Vec::new();
    let mut i: usize = 0;
    proof {
        assert(trees_view(out@) =~= spec_sort(trees_view(v@).take(0)));
    }
    let n = v.len();
    loop
        invariant
            i <= n,
            n == v@.len(),
            trees_view(out@) == spec_sort(trees_view(v@).take(i as int)),
        ensures
            i == n,
            n == v@.len(),
            trees_view(out@) == spec_sort(trees_view(v@).take(i as int)),
        decreases n - i,
    {
        if i == n {
            break;
        }
        let ghost pre = trees_view(v@).take(i as int);
        let t = v[i].deep_copy();
        insert_sorted(&mut out, t);
        proof {
            let pre2 = trees_view(v@).take(i as int + 1);
            assert(pre2.drop_last() =~= pre);
            assert(pre2.last() == trees_view(v@)[i as int]);
        }
        i = i + 1;
    }
    proof {
        assert(trees_view(v@).take(n as int) =~= trees_view(v@));
    }
    out
}

/// The node that replaces `lhs` once the merged child list is known: a group
/// keeps its prefix, a leaf that received children becomes a group under its
/// own path, and a leaf that received none stays as it is.
pub open spec fn spec_rebuild(lhs: TreeV, children: Seq<TreeV>) -> TreeV {
    match lhs {
        TreeV::Group { path, root, .. } => TreeV::Group { path, root, children },
        TreeV::Leaf { .. } => if children.len() == 0 {
            lhs
        } else {
            TreeV::Group { path: lhs.path_of(), root: false, children }
        },
    }
}

/// One policy-gated step of the recursive merger for each child of the
/// right-hand tree, walking the sorted left-hand child list.
pub open spec fn spec_merge_loop(
    fuel: nat,
    acc: Seq<TreeV>,
    rhs_children: Seq<TreeV>,
    i: nat,
    m: MergeBehavior,
) -> Option<Seq<TreeV>>
    decreases fuel, rhs_children.len() - i,
{
    if i >= rhs_children.len() {
        Some(acc)
    } else {
        let c = rhs_children[i as int];
        if !spec_is_tree_allowed(m, c) {
            None
        } else {
            let sr = spec_search(acc, c.path_of());
            let pos = sr.0;
            let found = sr.1;
            if found {
                let lt = acc[pos as int];
                match (lt.path_of(), c.path_of()) {
                    (Some(lp), Some(cp)) => match spec_common_prefix(lp, cp) {
                        Some(pair) => {
                            let n = pair.0.segments.len();
                            let full = n == lp.segments.len() && n == cp.segments.len();
                            let skip_c = full && spec_tree_contains_self(lt) == Some(true)
                                && spec_tree_contains_self(c) is None;
                            let replace_l = full && spec_tree_contains_self(lt) is None
                                && spec_tree_contains_self(c) == Some(true);
                            let dedup = full && lt.is_simple_path() && c.is_simple_path();
                            if skip_c || dedup {
                                spec_merge_loop(fuel, acc, rhs_children, i + 1, m)
                            } else if replace_l {
                                spec_merge_loop(fuel, acc.update(pos as int, c), rhs_children, i + 1, m)
                            } else if fuel == 0 {
                                None
                            } else {
                                match spec_recursive_merge(
                                    (fuel - 1) as nat,
                                    spec_split_prefix(lt, n),
                                    spec_split_prefix(c, n),
                                    m,
                                ) {
                                    Some(mg) => spec_merge_loop(
                                        fuel,
                                        acc.update(pos as int, mg),
                                        rhs_children,
                                        i + 1,
                                        m,
                                    ),
                                    None => None,
                                }
                            }
                        },
                        None => None,
                    },
                    _ => None,
                }
            } else {
                if m == MergeBehavior::Module && acc.len() > 0 && c.is_group() {
                    None
                } else {
                    spec_merge_loop(fuel, acc.insert(pos as int, c), rhs_children, i + 1, m)
                }
            }
        }
    }
}

/// The recursive merger: fails when any existing or incoming child is
/// ineligible under the policy, and otherwise folds every child of `rhs`
/// into the canonically sorted child list of `lhs`.
pub open spec fn spec_recursive_merge(fuel: nat, lhs: TreeV, rhs: TreeV, m: MergeBehavior) -> Option<
    TreeV,
>
    decreases fuel, rhs.children_or_empty().len() + 1,
{
    let ls = lhs.children_or_empty();
    if !(forall|j: int| 0 <= j < ls.len() ==> spec_is_tree_allowed(m, #[trigger] ls[j])) {
        None
    } else {
        match spec_merge_loop(fuel, spec_sort(ls), rhs.children_or_empty(), 0, m) {
            Some(ch) => Some(spec_rebuild(lhs, ch)),
            None => None,
        }
    }
}

/// The view of an optional tree result.
pub open spec fn opt_tree_v(r: Option<UseTree>) -> Option<TreeV> {
    match r {
        Some(t) => Some(t@),
        None => None,
    }
}

/// Recursively merges the children of `rhs` into a freshly built copy of
/// `lhs`, keeping the child list canonically sorted; `None` when the policy
/// or the tree shapes forbid it (or when `fuel` runs out on a pathologically
/// deep tree).
pub fn recursive_merge(fuel: u64, lhs: &UseTree, rhs: &UseTree, m: MergeBehavior) -> (r: Option<
    UseTree,
>)
    ensures
        opt_tree_v(r) == spec_recursive_merge(fuel as nat, lhs@, rhs@, m),
    decreases fuel,
{
    let empty_list: Vec<UseTree> = Vec::new();
    let ghost lvs = lhs@.children_or_empty();
    // gather and vet the existing children
    let lhs_children: &Vec<UseTree> = match lhs {
        UseTree::Group { children, .. } => {
            proof {
                assert(lvs =~= trees_view(children@));
            }
            children
        },
        UseTree::Leaf { .. } => {
            proof {
                assert(lvs =~= trees_view(empty_list@));
            }
            &empty_list
        },
    };
    let mut k: usize = 0;
    while k < lhs_children.len()
        invariant
            k <= lhs_children.len(),
            lvs == lhs@.children_or_empty(),
            lvs == trees_view(lhs_children@),
            forall|j: int| 0 <= j < k ==> spec_is_tree_allowed(m, #[trigger] lvs[j]),
        decreases lhs_children.len() - k,
    {
        if !m.is_tree_allowed(&lhs_children[k]) {
            proof {
                assert(!spec_is_tree_allowed(m, lvs[k as int]));
            }
            return None;
        }
        k = k + 1;
    }
    let copied = copy_trees(lhs_children);
    proof {
        assert(trees_view(copied@) =~= trees_view(lhs_children@));
    }
    let mut acc = sort_trees(copied);
    let ghost rhs_vs = rhs@.children_or_empty();
    let rhs_children: &Vec<UseTree> = match rhs {
        UseTree::Group { children, .. } => {
            proof {
                assert(rhs_vs =~= trees_view(children@));
            }
            children
        },
        UseTree::Leaf { .. } => {
            proof {
                assert(rhs_vs =~= trees_view(empty_list@));
            }
            &empty_list
        },
    };
    let ghost whole = spec_merge_loop(fuel as nat, spec_sort(lvs), rhs_vs, 0, m);
    let mut i: usize = 0;
    proof {
        assert(trees_view(acc@) == spec_sort(lvs));
        assert(spec_recursive_merge(fuel as nat, lhs@, rhs@, m) == match whole {
            Some(ch) => Some(spec_rebuild(lhs@, ch)),
            None => None,
        });
    }
    loop
        invariant
            i <= rhs_children@.len(),
            rhs_vs == rhs@.children_or_empty(),
            rhs_vs == trees_view(rhs_children@),
            rhs_vs.len() == rhs_children@.len(),
            lvs == lhs@.children_or_empty(),
            whole == spec_merge_loop(fuel as nat, spec_sort(lvs), rhs_vs, 0, m),
            whole == spec_merge_loop(fuel as nat, trees_view(acc@), rhs_vs, i as nat, m),
            forall|j: int| 0 <= j < lvs.len() ==> spec_is_tree_allowed(m, #[trigger] lvs[j]),
            spec_recursive_merge(fuel as nat, lhs@, rhs@, m) == match whole {
                Some(ch) => Some(spec_rebuild(lhs@, ch)),
                None => None,
            },
        ensures
            i == rhs_children@.len(),
            rhs_vs.len() == rhs_children@.len(),
            whole == spec_merge_loop(fuel as nat, trees_view(acc@), rhs_vs, i as nat, m),
            spec_recursive_merge(fuel as nat, lhs@, rhs@, m) == match whole {
                Some(ch) => Some(spec_rebuild(lhs@, ch)),
                None => None,
            },
        decreases rhs_children@.len() - i,
    {
        if i == rhs_children.len() {
            break;
        }
        let c = &rhs_children[i];
        let ghost acc0 = trees_view(acc@);
        proof {
            assert(rhs_vs[i as int] == c@);
        }
        if !m.is_tree_allowed(c) {
            proof {
                assert(spec_merge_loop(fuel as nat, acc0, rhs_vs, i as nat, m) is None);
            }
            return None;
        }
        let c_key = c.path();
        let (pos, found) = search_trees(&acc, c_key);
        proof {
            assert(opt_path_v(c_key) == c@.path_of());
        }
        if found {
            proof {
                assert(spec_search(acc0, c@.path_of()).1);
                lemma_search_in_range(acc0, c@.path_of());
            }
            let lt_path_opt = acc[pos].path();
            let c_path_opt = c.path();
            let (lp, cp) = match (lt_path_opt, c_path_opt) {
                (Some(lp), Some(cp)) => (lp, cp),
                _ => {
                    proof {
                        assert(spec_merge_loop(fuel as nat, acc0, rhs_vs, i as nat, m) is None);
                    }
                    return None;
                },
            };
            if lp.root != cp.root {
                proof {
                    assert(spec_common_prefix(lp@, cp@) is None);
                    assert(spec_merge_loop(fuel as nat, acc0, rhs_vs, i as nat, m) is None);
                }
                return None;
            }
            let n = common_prefix_len(lp, cp);
            if n == 0 {
                proof {
                    assert(spec_common_prefix(lp@, cp@) is None);
                    assert(spec_merge_loop(fuel as nat, acc0, rhs_vs, i as nat, m) is None);
                }
                return None;
            }
            proof {
                lemma_common_prefix_len(lp@.segments, cp@.segments);
                assert(spec_common_prefix(lp@, cp@) matches Some(pair) && pair.0.segments.len()
                    == n);
            }
            let full = n == path_len(lp) && n == path_len(cp);
            let lt_self = tree_contains_self(&acc[pos]);
            let c_self = tree_contains_self(c);
            let skip_c = full && matches!(lt_self, Some(true)) && matches!(c_self, None);
            let replace_l = full && matches!(lt_self, None) && matches!(c_self, Some(true));
            let dedup = full && acc[pos].is_simple_path() && c.is_simple_path();
            if skip_c || dedup {
                // the incoming child is already covered by the candidate; drop it
                proof {
                    assert(spec_merge_loop(fuel as nat, acc0, rhs_vs, i as nat, m)
                        == spec_merge_loop(fuel as nat, acc0, rhs_vs, i as nat + 1, m));
                }
            } else if replace_l {
                let cc = c.deep_copy();
                set_tree(&mut acc, pos, cc);
                proof {
                    assert(trees_view(acc@) =~= acc0.update(pos as int, c@));
                    assert(spec_merge_loop(fuel as nat, acc0, rhs_vs, i as nat, m)
                        == spec_merge_loop(fuel as nat, trees_view(acc@), rhs_vs, i as nat + 1, m));
                }
            } else {
                if fuel == 0 {
                    proof {
                        assert(spec_merge_loop(fuel as nat, acc0, rhs_vs, i as nat, m) is None);
                    }
                    return None;
                }
                let l2 = split_prefix(&acc[pos], n);
                let r2 = split_prefix(c, n);
                match recursive_merge(fuel - 1, &l2, &r2, m) {
                    Some(mg) => {
                        let ghost mgv = mg@;
                        set_tree(&mut acc, pos, mg);
                        proof {
                            assert(trees_view(acc@) =~= acc0.update(pos as int, mgv));
                            assert(spec_merge_loop(fuel as nat, acc0, rhs_vs, i as nat, m)
                                == spec_merge_loop(
                                fuel as nat,
                                trees_view(acc@),
                                rhs_vs,
                                i as nat + 1,
                                m,
                            ));
                        }
                    },
                    None => {
                        proof {
                            assert(spec_merge_loop(fuel as nat, acc0, rhs_vs, i as nat, m)
                                is None);
                        }
                        return None;
                    },
                }
            }
        } else {
            if matches!(m, MergeBehavior::Module) && acc.len() > 0 && c.has_tree_list() {
                proof {
                    assert(spec_merge_loop(fuel as nat, acc0, rhs_vs, i as nat, m) is None);
                }
                return None;
            }
            let cc = c.deep_copy();
            proof {
                lemma_search_in_range(acc0, c@.path_of());
            }
            acc.insert(pos, cc);
            proof {
                assert(trees_view(acc@) =~= acc0.insert(pos as int, c@));
                assert(spec_merge_loop(fuel as nat, acc0, rhs_vs, i as nat, m)
                    == spec_merge_loop(fuel as nat, trees_view(acc@), rhs_vs, i as nat + 1, m));
            }
        }
        i = i + 1;
    }
    // the whole right-hand list was folded in; rebuild the node around it
    let ghost final_ch = trees_view(acc@);
    proof {
        assert(spec_merge_loop(fuel as nat, final_ch, rhs_vs, i as nat, m) == Some(final_ch));
    }
    let result = if acc.len() == 0 && !lhs.has_tree_list() {
        lhs.deep_copy()
    } else {
        match lhs {
            UseTree::Group { path, root, .. } => UseTree::Group {
                path: crate::model::copy_opt_path(path),
                root: *root,
                children: acc,
            },
            UseTree::Leaf { path, .. } => UseTree::Group {
                path: crate::model::copy_opt_path(path),
                root: false,
                children: acc,
            },
        }
    };
    proof {
        assert(result@ =~~= spec_rebuild(lhs@, final_ch));
    }
    Some(result)
}

/// A search that found its key points inside the list.
pub proof fn lemma_search_in_range(s: Seq<TreeV>, key: Option<PathV>)
    ensures
        spec_search(s, key).1 ==> spec_search(s, key).0 < s.len(),
        spec_search(s, key).0 <= s.len(),
    decreases s.len(),
{
    if s.len() > 0 {
        lemma_search_in_range(s.skip(1), key);
    }
}

/// Replaces the node at `pos`.
pub fn set_tree(v: &mut Vec<UseTree>, pos: usize, t: UseTree)
    requires
        pos < old(v)@.len(),
    ensures
        final(v)@.len() == old(v)@.len(),
        trees_view(final(v)@) == trees_view(old(v)@).update(pos as int, t@),
{
    let ghost before = trees_view(v@);
    v.remove(pos);
    v.insert(pos, t);
    proof {
        assert(trees_view(v@) =~= before.update(pos as int, t@));
    }
}

/// Whether two paths are structurally equal.
pub fn path_eq(a: &Path, b: &Path) -> (r: bool)
    ensures
        r == (a@ == b@),
{
    proof {
        assert(a@.segments.len() == a.segments@.len());
        assert(b@.segments.len() == b.segments@.len());
    }
    if a.root != b.root {
        return false;
    }
    if a.segments.len() != b.segments.len() {
        return false;
    }
    let mut j: usize = 0;
    while j < a.segments.len()
        invariant
            j <= a.segments@.len(),
            a.segments@.len() == b.segments@.len(),
            a@.root == b@.root,
            forall|k: int| 0 <= k < j ==> a@.segments[k] == b@.segments[k],
        decreases a.segments@.len() - j,
    {
        if !seg_text_eq(&a.segments[j], &b.segments[j]) {
            proof {
                lemma_seg_text_eq_is_eq(a@.segments[j as int], b@.segments[j as int]);
            }
            return false;
        }
        proof {
            lemma_seg_text_eq_is_eq(a@.segments[j as int], b@.segments[j as int]);
        }
        j = j + 1;
    }
    proof {
        assert(a@.segments =~= b@.segments);
        assert(a@ =~= b@);
    }
    true
}

/// Whether two optional visibilities are structurally equal: both absent, or
/// both present with the same qualifier kind and the same restriction path.
pub open spec fn spec_eq_visibility(a: Option<VisV>, b: Option<VisV>) -> bool {
    match (a, b) {
        (Option::None, Option::None) => true,
        (Option::Some(x), Option::Some(y)) => x == y,
        _ => false,
    }
}

/// The equality gate on visibilities.
pub fn eq_visibility(vis0: Option<&Visibility>, vis1: Option<&Visibility>) -> (r: bool)
    ensures
        r == spec_eq_visibility(
            match vis0 {
                Some(v) => Some(v@),
                None => None,
            },
            match vis1 {
                Some(v) => Some(v@),
                None => None,
            },
        ),
{
    match (vis0, vis1) {
        (None, None) => true,
        (Some(Visibility::Public), Some(Visibility::Public)) => true,
        (Some(Visibility::Restricted(p)), Some(Visibility::Restricted(q))) => path_eq(p, q),
        _ => false,
    }
}

/// The views of an attribute list: each attribute's raw text, in order.
pub open spec fn spec_attr_views(s: Seq<Attr>) -> Seq<Seq<u8>> {
    s.map(|i: int, a: Attr| a@)
}

/// The equality gate on attribute lists: the raw texts must agree
/// element by element, in the original order.
pub fn eq_attrs(attrs0: &Vec<Attr>, attrs1: &Vec<Attr>) -> (r: bool)
    ensures
        r == (spec_attr_views(attrs0@) == spec_attr_views(attrs1@)),
{
    proof {
        assert(spec_attr_views(attrs0@).len() == attrs0@.len());
        assert(spec_attr_views(attrs1@).len() == attrs1@.len());
    }
    if attrs0.len() != attrs1.len() {
        return false;
    }
    let mut j: usize = 0;
    while j < attrs0.len()
        invariant
            j <= attrs0@.len(),
            attrs0@.len() == attrs1@.len(),
            forall|k: int| 0 <= k < j ==> spec_attr_views(attrs0@)[k] == spec_attr_views(attrs1@)[k],
        decreases attrs0@.len() - j,
    {
        proof {
            assert(spec_attr_views(attrs0@)[j as int] == attrs0@[j as int]@);
            assert(spec_attr_views(attrs1@)[j as int] == attrs1@[j as int]@);
        }
        if !bytes_eq(&attrs0[j].text, &attrs1[j].text) {
            return false;
        }
        j = j + 1;
    }
    proof {
        assert(spec_attr_views(attrs0@) =~= spec_attr_views(attrs1@));
    }
    true
}

/// The tree with its leading root qualifier removed, wherever it sat.
pub open spec fn spec_strip_root(t: TreeV) -> TreeV {
    match t {
        TreeV::Leaf { path: Some(p), glob } => TreeV::Leaf {
            path: Some(PathV { root: false, segments: p.segments }),
            glob,
        },
        TreeV::Leaf { path: None, .. } => t,
        TreeV::Group { path: Some(p), root: _, children } => TreeV::Group {
            path: Some(PathV { root: false, segments: p.segments }),
            root: false,
            children,
        },
        TreeV::Group { path: None, root: _, children } => TreeV::Group {
            path: None,
            root: false,
            children,
        },
    }
}

/// A copy of the tree with its leading root qualifier removed.
pub fn strip_root(t: &UseTree) -> (r: UseTree)
    ensures
        r@ == spec_strip_root(t@),
{
    broadcast use crate::model::group_trees_view;

    match t {
        UseTree::Leaf { path, glob } => match path {
            Some(p) => {
                let np = p.sub_path(0, p.segments.len(), false);
                proof {
                    assert(np@.segments =~= p@.segments);
                }
                UseTree::Leaf { path: Some(np), glob: *glob }
            },
            None => UseTree::Leaf { path: None, glob: *glob },
        },
        UseTree::Group { path, root: _, children } => {
            let np = match path {
                Some(p) => {
                    let q = p.sub_path(0, p.segments.len(), false);
                    proof {
                        assert(q@.segments =~= p@.segments);
                    }
                    Some(q)
                },
                None => None,
            };
            let ct = copy_trees(children);
            let ghost ctv = ct@;
            let r = UseTree::Group { path: np, root: false, children: ct };
            proof {
                assert(r@->Group_children == trees_view(ctv));
                assert(trees_view(ctv) =~= trees_view(children@));
                assert(r@ =~~= spec_strip_root(t@));
            }
            r
        },
    }
}

/// The flatten-into-one fallback: available only under the `One` policy, it
/// builds a single group whose children are the two trees side by side — a
/// tree with a path (or the sole bearer of a leading root qualifier) enters
/// whole, a path-less group contributes its children — and hoists a root
/// qualifier shared by both sides in front of the group.  It fails when
/// either side has neither a path nor children to contribute.
pub open spec fn spec_merge_into_one(lhs: TreeV, rhs: TreeV, m: MergeBehavior) -> Option<TreeV> {
    if m != MergeBehavior::One {
        None
    } else {
        let lhs_cc = lhs.has_leading_root();
        let rhs_cc = rhs.has_leading_root();
        let both = lhs_cc && rhs_cc;
        let l2 = if both {
            spec_strip_root(lhs)
        } else {
            lhs
        };
        let r2 = if both {
            spec_strip_root(rhs)
        } else {
            rhs
        };
        let le: Option<Seq<TreeV>> = if lhs.path_of() is Some || (lhs_cc && !rhs_cc) {
            Some(seq![l2])
        } else if lhs is Group {
            Some(l2.children_or_empty())
        } else {
            None
        };
        let re: Option<Seq<TreeV>> = if rhs.path_of() is Some || (rhs_cc && !lhs_cc) {
            Some(seq![r2])
        } else if rhs is Group {
            Some(r2.children_or_empty())
        } else {
            None
        };
        match (le, re) {
            (Option::Some(a), Option::Some(b)) => Some(
                TreeV::Group { path: None, root: both, children: a + b },
            ),
            _ => None,
        }
    }
}

/// Builds the single flattened group described by [`spec_merge_into_one`].
pub fn merge_trees_into_one(lhs: &UseTree, rhs: &UseTree, m: MergeBehavior) -> (r: Option<UseTree>)
    ensures
        opt_tree_v(r) == spec_merge_into_one(lhs@, rhs@, m),
{
    broadcast use crate::model::group_trees_view;

    if !matches!(m, MergeBehavior::One) {
        return None;
    }
    let lhs_cc = lhs.has_leading_root();
    let rhs_cc = rhs.has_leading_root();
    let both = lhs_cc && rhs_cc;
    let mut entries: Vec<UseTree> = Vec::new();
    let ghost le: Seq<TreeV>;
    if lhs.path().is_some() || (lhs_cc && !rhs_cc) {
        let l2 = if both {
            strip_root(lhs)
        } else {
            lhs.deep_copy()
        };
        let ghost l2v = l2@;
        entries.push(l2);
        proof {
            le = seq![l2v];
            assert(trees_view(entries@) =~= le);
        }
    } else {
        match lhs {
            UseTree::Group { children, .. } => {
                let mut l2 = if both {
                    strip_root(lhs)
                } else {
                    lhs.deep_copy()
                };
                let ghost l2v = l2@;
                match l2 {
                    UseTree::Group { children: mut inner, .. } => {
                        let ghost innerv = inner@;
                        proof {
                            le = l2v.children_or_empty();
                            assert(le == trees_view(innerv));
                        }
                        entries.append(&mut inner);
                        proof {
                            assert(trees_view(entries@) =~= le);
                        }
                    },
                    _ => {
                        proof {
                            assert(false);
                        }
                        return None;
                    },
                }
            },
            UseTree::Leaf { .. } => {
                return None;
            },
        }
    }
    let ghost re: Seq<TreeV>;
    let ghost entries_l = trees_view(entries@);
    if rhs.path().is_some() || (rhs_cc && !lhs_cc) {
        let r2 = if both {
            strip_root(rhs)
        } else {
            rhs.deep_copy()
        };
        let ghost r2v = r2@;
        entries.push(r2);
        proof {
            re = seq![r2v];
            assert(trees_view(entries@) =~= entries_l + re);
        }
    } else {
        match rhs {
            UseTree::Group { children, .. } => {
                let mut r2 = if both {
                    strip_root(rhs)
                } else {
                    rhs.deep_copy()
                };
                let ghost r2v = r2@;
                match r2 {
                    UseTree::Group { children: mut inner, .. } => {
                        let ghost innerv = inner@;
                        proof {
                            re = r2v.children_or_empty();
                            assert(re == trees_view(innerv));
                        }
                        entries.append(&mut inner);
                        proof {
                            assert(trees_view(entries@) =~= entries_l + re);
                        }
                    },
                    _ => {
                        proof {
                            assert(false);
                        }
                        return None;
                    },
                }
            },
            UseTree::Leaf { .. } => {
                return None;
            },
        }
    }
    let ghost ev = trees_view(entries@);
    let result = UseTree::Group { path: None, root: both, children: entries };
    proof {
        assert(result@->Group_children == ev);
        assert(result@ =~~= spec_merge_into_one(lhs@, rhs@, m)->Some_0);
    }
    Some(result)
}

/// The preferred strategy: factor the shared prefix out of the two paths,
/// split both trees there unless both already are the same simple path, and
/// hand the aligned trees to the recursive merger.
pub open spec fn spec_try_merge_prefixed(fuel: nat, lhs: TreeV, rhs: TreeV, m: MergeBehavior) -> Option<
    TreeV,
> {
    match (lhs.path_of(), rhs.path_of()) {
        (Option::Some(lp), Option::Some(rp)) => match spec_common_prefix(lp, rp) {
            Some(pair) => {
                let n = pair.0.segments.len();
                if lhs.is_simple_path() && rhs.is_simple_path() && n == lp.segments.len() && n
                    == rp.segments.len() {
                    spec_recursive_merge(fuel, lhs, rhs, m)
                } else {
                    spec_recursive_merge(
                        fuel,
                        spec_split_prefix(lhs, n),
                        spec_split_prefix(rhs, n),
                        m,
                    )
                }
            },
            None => None,
        },
        _ => None,
    }
}

/// Factors the shared prefix out of both trees and merges them recursively.
pub fn try_merge_trees_prefixed(fuel: u64, lhs: &UseTree, rhs: &UseTree, m: MergeBehavior) -> (r:
    Option<UseTree>)
    ensures
        opt_tree_v(r) == spec_try_merge_prefixed(fuel as nat, lhs@, rhs@, m),
{
    let lp = match lhs.path() {
        Some(p) => p,
        None => {
            return None;
        },
    };
    let rp = match rhs.path() {
        Some(p) => p,
        None => {
            return None;
        },
    };
    if lp.root != rp.root {
        proof {
            assert(spec_common_prefix(lp@, rp@) is None);
        }
        return None;
    }
    let n = common_prefix_len(lp, rp);
    if n == 0 {
        proof {
            assert(spec_common_prefix(lp@, rp@) is None);
        }
        return None;
    }
    proof {
        lemma_common_prefix_len(lp@.segments, rp@.segments);
        assert(spec_common_prefix(lp@, rp@) matches Some(pair) && pair.0.segments.len() == n);
    }
    if lhs.is_simple_path() && rhs.is_simple_path() && n == path_len(lp) && n == path_len(rp) {
        recursive_merge(fuel, lhs, rhs, m)
    } else {
        let l2 = split_prefix(lhs, n);
        let r2 = split_prefix(rhs, n);
        recursive_merge(fuel, &l2, &r2, m)
    }
}

/// The result of merging two trees: the recursive merger on the factored
/// prefix where it applies, otherwise the flatten-into-one fallback.  Both
/// strategies work on fresh copies of the callers' trees.
pub open spec fn spec_try_merge_trees(lhs: TreeV, rhs: TreeV, m: MergeBehavior) -> Option<TreeV> {
    match spec_try_merge_prefixed(MERGE_FUEL as nat, lhs, rhs, m) {
        Some(t) => Some(t),
        None => spec_merge_into_one(lhs, rhs, m),
    }
}

/// Merge `rhs` into `lhs` keeping both intact.  Returns the freshly built
/// merged tree, or `None` when the two trees are not mergeable under the
/// policy.
pub fn try_merge_trees(lhs: &UseTree, rhs: &UseTree, merge: MergeBehavior) -> (r: Option<UseTree>)
    ensures
        opt_tree_v(r) == spec_try_merge_trees(lhs@, rhs@, merge),
{
    match try_merge_trees_prefixed(MERGE_FUEL, lhs, rhs, merge) {
        Some(t) => Some(t),
        None => merge_trees_into_one(lhs, rhs, merge),
    }
}

/// An independent copy of an optional visibility.
pub fn copy_vis(v: &Option<Visibility>) -> (r: Option<Visibility>)
    ensures
        match r {
            Some(q) => v matches Some(orig) && q@ == orig@,
            None => v is None,
        },
{
    match v {
        Some(Visibility::Public) => Some(Visibility::Public),
        Some(Visibility::Restricted(p)) => Some(Visibility::Restricted(p.deep_copy())),
        None => None,
    }
}

/// An independent copy of an attribute list.
pub fn copy_attrs(v: &Vec<Attr>) -> (r: Vec<Attr>)
    ensures
        spec_attr_views(r@) == spec_attr_views(v@),
{
    let mut out: Vec<Attr> = Vec::new();
    let mut i: usize = 0;
    while i < v.len()
        invariant
            i <= v@.len(),
            out@.len() == i,
            forall|j: int| 0 <= j < i ==> out@[j]@ == v@[j]@,
        decreases v@.len() - i,
    {
        out.push(Attr { text: crate::model::copy_bytes(&v[i].text) });
        i = i + 1;
    }
    proof {
        assert(spec_attr_views(out@) =~= spec_attr_views(v@));
    }
    out
}

/// The view of an optional declaration result.
pub open spec fn opt_decl_v(r: Option<UseDecl>) -> Option<DeclV> {
    match r {
        Some(d) => Some(d@),
        None => None,
    }
}

/// The merged declaration: nothing unless the visibilities are structurally
/// equal and the attribute texts agree element by element; otherwise the
/// merged tree under the left-hand side's visibility and attributes.
pub open spec fn spec_try_merge_imports(lhs: DeclV, rhs: DeclV, m: MergeBehavior) -> Option<DeclV> {
    if !spec_eq_visibility(lhs.vis, rhs.vis) {
        None
    } else if lhs.attrs != rhs.attrs {
        None
    } else {
        match (lhs.tree, rhs.tree) {
            (Option::Some(lt), Option::Some(rt)) => match spec_try_merge_trees(lt, rt, m) {
                Some(t) => Some(DeclV { vis: lhs.vis, attrs: lhs.attrs, tree: Some(t) }),
                None => None,
            },
            _ => None,
        }
    }
}

/// Merge `rhs` into `lhs` keeping both intact.
///
/// Declarations with different visibilities or different attribute lists
/// never merge, under any policy.  On success the combined declaration is a
/// freshly built value; the inputs are read through shared references and
/// are never modified, so a failed attempt leaves both exactly as they were.
pub fn try_merge_imports(lhs: &UseDecl, rhs: &UseDecl, merge: MergeBehavior) -> (r: Option<UseDecl>)
    ensures
        opt_decl_v(r) == spec_try_merge_imports(lhs@, rhs@, merge),
        !spec_eq_visibility(lhs@.vis, rhs@.vis) ==> r is None,
        lhs@.attrs != rhs@.attrs ==> r is None,
{
    // don't merge imports with different visibilities
    if !eq_visibility(lhs.vis.as_ref(), rhs.vis.as_ref()) {
        return None;
    }
    if !eq_attrs(&lhs.attrs, &rhs.attrs) {
        proof {
            assert(lhs@.attrs == spec_attr_views(lhs.attrs@));
            assert(rhs@.attrs == spec_attr_views(rhs.attrs@));
        }
        return None;
    }
    let lt = match &lhs.tree {
        Some(t) => t,
        None => {
            return None;
        },
    };
    let rt = match &rhs.tree {
        Some(t) => t,
        None => {
            return None;
        },
    };
    match try_merge_trees(lt, rt, merge) {
        Some(t) => {
            let ghost tv = t@;
            let result = UseDecl { vis: copy_vis(&lhs.vis), attrs: copy_attrs(&lhs.attrs), tree: Some(t) };
            proof {
                assert(result@ =~~= spec_try_merge_imports(lhs@, rhs@, merge)->Some_0);
            }
            Some(result)
        },
        None => None,
    }
}

} // verus!
