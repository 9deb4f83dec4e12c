//! Factoring the longest shared leading segment run out of two paths, and
//! physically splitting a tree into `prefix::{remainder}` form at such a
//! prefix, so that merge candidates line up on their first differing segment.
use vstd::prelude::*;

use crate::model::{Path, PathV, SegV, Segment, TreeV, UseTree, copy_trees, trees_view};

verus! {

broadcast use crate::model::group_trees_view;

/// Whether two segments have the same text.  Marker text never spells an
/// ordinary identifier or `self`, so segments of different kinds are never
/// text-equal.
pub open spec fn spec_seg_text_eq(a: SegV, b: SegV) -> bool {
    match (a, b) {
        (SegV::Ident(x), SegV::Ident(y)) => x == y,
        (SegV::SelfSeg, SegV::SelfSeg) => true,
        (SegV::Marker(x), SegV::Marker(y)) => x == y,
        _ => false,
    }
}

/// Text-equal segments are equal outright.
pub proof fn lemma_seg_text_eq_is_eq(a: SegV, b: SegV)
    ensures
        spec_seg_text_eq(a, b) ==> a == b,
{
}

/// Length of the longest shared leading run of text-equal segments.
pub open spec fn spec_common_prefix_len(a: Seq<SegV>, b: Seq<SegV>) -> nat
    decreases a.len(),
{
    if a.len() == 0 || b.len() == 0 {
        0
    } else if spec_seg_text_eq(a[0], b[0]) {
        1 + spec_common_prefix_len(a.skip(1), b.skip(1))
    } else {
        0
    }
}

/// The shared run is no longer than either sequence, consists of equal
/// segments, and ends at the first mismatch.
pub proof fn lemma_common_prefix_len(a: Seq<SegV>, b: Seq<SegV>)
    ensures
        spec_common_prefix_len(a, b) <= a.len(),
        spec_common_prefix_len(a, b) <= b.len(),
        forall|j: int| 0 <= j < spec_common_prefix_len(a, b) ==> a[j] == b[j],
        spec_common_prefix_len(a, b) < a.len() && spec_common_prefix_len(a, b) < b.len()
            ==> !spec_seg_text_eq(a[spec_common_prefix_len(a, b) as int], b[spec_common_prefix_len(a, b) as int]),
    decreases a.len(),
{
    if a.len() == 0 || b.len() == 0 {
    } else if spec_seg_text_eq(a[0], b[0]) {
        lemma_seg_text_eq_is_eq(a[0], b[0]);
        lemma_common_prefix_len(a.skip(1), b.skip(1));
        let n = spec_common_prefix_len(a, b);
        assert(forall|j: int| 1 <= j < n ==> a[j] == a.skip(1)[j - 1] && b[j] == b.skip(1)[j - 1]);
    } else {
    }
}

/// The pair of equal-length sub-paths representing the shared leading run of
/// two paths, or nothing when the paths disagree already at their first
/// segment or on their root qualifier.
pub open spec fn spec_common_prefix(a: PathV, b: PathV) -> Option<(PathV, PathV)> {
    if a.root != b.root {
        None
    } else {
        let n = spec_common_prefix_len(a.segments, b.segments);
        if n == 0 {
            None
        } else {
            Some(
                (
                    PathV { root: a.root, segments: a.segments.take(n as int) },
                    PathV { root: b.root, segments: b.segments.take(n as int) },
                ),
            )
        }
    }
}

/// Walks both paths from their first segment and returns the pair of shared
/// leading sub-paths, stopping at the first mismatch; nothing when the first
/// segments (or the root qualifiers) already differ.
pub fn common_prefix(lhs: &Path, rhs: &Path) -> (r: Option<(Path, Path)>)
    ensures
        match r {
            Some(pair) => spec_common_prefix(lhs@, rhs@) == Some((pair.0@, pair.1@)),
            None => spec_common_prefix(lhs@, rhs@) is None,
        },
{
    if lhs.root != rhs.root {
        return None;
    }
    let n = common_prefix_len(lhs, rhs);
    proof {
        lemma_common_prefix_len(lhs@.segments, rhs@.segments);
    }
    if n == 0 {
        None
    } else {
        let p0 = lhs.sub_path(0, n, lhs.root);
        let p1 = rhs.sub_path(0, n, rhs.root);
        proof {
            assert(p0@.segments =~= lhs@.segments.take(n as int));
            assert(p1@.segments =~= rhs@.segments.take(n as int));
        }
        Some((p0, p1))
    }
}

/// The number of leading text-equal segments shared by two paths.
pub fn common_prefix_len(lhs: &Path, rhs: &Path) -> (r: usize)
    ensures
        r == spec_common_prefix_len(lhs@.segments, rhs@.segments),
{
    let mut i: usize = 0;
    proof {
        assert(lhs@.segments.skip(0) =~= lhs@.segments);
        assert(rhs@.segments.skip(0) =~= rhs@.segments);
    }
    loop
        invariant
            i <= lhs.segments@.len(),
            i <= rhs.segments@.len(),
            spec_common_prefix_len(lhs@.segments, rhs@.segments) == i + spec_common_prefix_len(
                lhs@.segments.skip(i as int),
                rhs@.segments.skip(i as int),
            ),
        decreases lhs.segments@.len() - i,
    {
        if i == lhs.segments.len() || i == rhs.segments.len() {
            return i;
        }
        proof {
            assert(lhs@.segments.skip(i as int)[0] == lhs@.segments[i as int]);
            assert(rhs@.segments.skip(i as int)[0] == rhs@.segments[i as int]);
            assert(lhs@.segments.skip(i as int).skip(1) =~= lhs@.segments.skip(i as int + 1));
            assert(rhs@.segments.skip(i as int).skip(1) =~= rhs@.segments.skip(i as int + 1));
        }
        if !seg_text_eq(&lhs.segments[i], &rhs.segments[i]) {
            return i;
        }
        i = i + 1;
    }
}

/// Whether two byte strings are equal.
pub fn bytes_eq(a: &Vec<u8>, b: &Vec<u8>) -> (r: bool)
    ensures
        r == (a@ == b@),
{
    if a.len() != b.len() {
        return false;
    }
    let mut i: usize = 0;
    while i < a.len()
        invariant
            i <= a@.len(),
            a@.len() == b@.len(),
            forall|j: int| 0 <= j < i ==> a@[j] == b@[j],
        decreases a@.len() - i,
    {
        if a[i] != b[i] {
            return false;
        }
        i = i + 1;
    }
    proof {
        assert(a@ =~= b@);
    }
    true
}

/// Whether two segments have the same text.
pub fn seg_text_eq(a: &Segment, b: &Segment) -> (r: bool)
    ensures
        r == spec_seg_text_eq(a@, b@),
{
    match (a, b) {
        (Segment::Ident(x), Segment::Ident(y)) => bytes_eq(x, y),
        (Segment::SelfSeg, Segment::SelfSeg) => true,
        (Segment::Marker(x), Segment::Marker(y)) => bytes_eq(x, y),
        _ => false,
    }
}

/// The path consisting of the bare keyword `self`.
pub open spec fn spec_self_path() -> PathV {
    PathV { root: false, segments: seq![SegV::SelfSeg] }
}

/// The result of splitting a tree at the first `n` segments of its path:
/// `prefix::{remainder}`.
///
/// When the prefix is the whole path, a plain leaf becomes
/// `prefix::{self}`, a glob leaf becomes `prefix::{*}`, and a group — which
/// already has the form `prefix::{...}` — stays as it is.  Otherwise the
/// node's path is cut after `n` segments and the remainder tree keeps the
/// node's own shape.
pub open spec fn spec_split_prefix(t: TreeV, n: nat) -> TreeV
    recommends
        t.path_of() is Some,
        1 <= n <= t.path_of()->Some_0.segments.len(),
{
    let p = t.path_of()->Some_0;
    let pre = PathV { root: p.root, segments: p.segments.take(n as int) };
    if n == p.segments.len() {
        match t {
            TreeV::Leaf { glob: false, .. } => TreeV::Group {
                path: Some(pre),
                root: false,
                children: seq![TreeV::Leaf { path: Some(spec_self_path()), glob: false }],
            },
            TreeV::Leaf { glob: true, .. } => TreeV::Group {
                path: Some(pre),
                root: false,
                children: seq![TreeV::Leaf { path: None, glob: true }],
            },
            TreeV::Group { .. } => t,
        }
    } else {
        let rest = PathV { root: false, segments: p.segments.skip(n as int) };
        match t {
            TreeV::Leaf { glob, .. } => TreeV::Group {
                path: Some(pre),
                root: false,
                children: seq![TreeV::Leaf { path: Some(rest), glob }],
            },
            TreeV::Group { root: _, children, .. } => TreeV::Group {
                path: Some(pre),
                root: false,
                children: seq![TreeV::Group { path: Some(rest), root: false, children }],
            },
        }
    }
}

/// Splits the tree at the given leading prefix of its path, producing the
/// `prefix::{remainder}` form described by [`spec_split_prefix`].
pub fn split_prefix(t: &UseTree, n: usize) -> (r: UseTree)
    requires
        t@.path_of() is Some,
        1 <= n <= t@.path_of()->Some_0.segments.len(),
    ensures
        r@ == spec_split_prefix(t@, n as nat),
{
    broadcast use crate::model::group_trees_view;

    match t {
        UseTree::Leaf { path, glob } => {
            let p = match path {
                Some(p) => p,
                None => {
                    proof {
                        assert(false);
                    }
                    unreached()
                },
            };
            let pre = p.sub_path(0, n, p.root);
            let child: UseTree = if n == p.segments.len() {
                if *glob {
                    UseTree::Leaf { path: None, glob: true }
                } else {
                    let mut segs: Vec<Segment> = Vec::new();
                    segs.push(Segment::SelfSeg);
                    proof {
                        assert(segs@.map(|i: int, s: Segment| s@) =~= seq![SegV::SelfSeg]);
                    }
                    UseTree::Leaf { path: Some(Path { root: false, segments: segs }), glob: false }
                }
            } else {
                let rest = p.sub_path(n, p.segments.len(), false);
                proof {
                    assert(rest@.segments =~= t@.path_of()->Some_0.segments.skip(n as int));
                }
                UseTree::Leaf { path: Some(rest), glob: *glob }
            };
            let ghost child_v = child@;
            let ghost sp = spec_split_prefix(t@, n as nat);
            proof {
                assert(child_v == sp->Group_children[0]);
            }
            let mut children: Vec<UseTree> = Vec::new();
            children.push(child);
            let ghost ncv = children@;
            let r = UseTree::Group { path: Some(pre), root: false, children };
            proof {
                assert(pre@.segments =~= t@.path_of()->Some_0.segments.take(n as int));
                assert(r@->Group_path == sp->Group_path);
                assert(r@->Group_root == sp->Group_root);
                assert(r@->Group_children == trees_view(ncv));
                assert(trees_view(ncv).len() == 1);
                assert(trees_view(ncv)[0] == child_v);
                assert(sp->Group_children.len() == 1);
                assert(r@->Group_children =~= sp->Group_children);
                assert(r@ =~~= sp);
            }
            r
        },
        UseTree::Group { path, root, children } => {
            let p = match path {
                Some(p) => p,
                None => {
                    proof {
                        assert(false);
                    }
                    unreached()
                },
            };
            if n == p.segments.len() {
                let r = t.deep_copy();
                proof {
                    assert(r@ == spec_split_prefix(t@, n as nat));
                }
                r
            } else {
                let ghost sp = spec_split_prefix(t@, n as nat);
                let pre = p.sub_path(0, n, p.root);
                let rest = p.sub_path(n, p.segments.len(), false);
                let ct = copy_trees(children);
                let ghost ctv = ct@;
                let inner = UseTree::Group { path: Some(rest), root: false, children: ct };
                let ghost inner_v = inner@;
                proof {
                    assert(pre@.segments =~= t@.path_of()->Some_0.segments.take(n as int));
                    assert(rest@.segments =~= t@.path_of()->Some_0.segments.skip(n as int));
                    assert(inner_v->Group_children == trees_view(ctv));
                    assert(trees_view(ctv) =~= trees_view(children@));
                    assert(inner_v =~~= sp->Group_children[0]);
                }
                let mut new_children: Vec<UseTree> = Vec::new();
                new_children.push(inner);
                let ghost ncv = new_children@;
                let r = UseTree::Group { path: Some(pre), root: false, children: new_children };
                proof {
                    assert(r@->Group_path == sp->Group_path);
                    assert(r@->Group_root == sp->Group_root);
                    assert(r@->Group_children == trees_view(ncv));
                    assert(trees_view(ncv).len() == 1);
                    assert(trees_view(ncv)[0] == inner_v);
                    assert(sp->Group_children.len() == 1);
                    assert(sp->Group_children[0] == inner_v);
                    assert(r@->Group_children =~= sp->Group_children);
                    assert(r@ =~~= sp);
                }
                r
            }
        },
    }
}

} // verus!
