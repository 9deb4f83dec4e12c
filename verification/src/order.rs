//! The three sibling orderings of the merge engine.
//!
//! Three related but distinct comparisons are used on purpose and must not be
//! conflated: the canonical sort order (`path_cmp_for_sort`) keeps a group's
//! children in their output order, the search-key order
//! (`path_cmp_bin_search`) compares first segments only and serves to look a
//! merge candidate up in a sorted child list, and the prefix-tie-break order
//! (`use_tree_path_cmp`) resolves ties between a plain path and a same-prefix
//! group when producing a fully normalized ordering.
use std::cmp::Ordering;

use vstd::prelude::*;

use crate::model::{Path, PathV, SegV, Segment};

verus! {

/// Lexicographic order on byte strings; the empty string sorts first.
pub open spec fn spec_bytes_cmp(a: Seq<u8>, b: Seq<u8>) -> Ordering
    decreases a.len(),
{
    if a.len() == 0 && b.len() == 0 {
        Ordering::Equal
    } else if a.len() == 0 {
        Ordering::Less
    } else if b.len() == 0 {
        Ordering::Greater
    } else if a[0] < b[0] {
        Ordering::Less
    } else if b[0] < a[0] {
        Ordering::Greater
    } else {
        spec_bytes_cmp(a.skip(1), b.skip(1))
    }
}

/// Two byte strings compare `Equal` exactly when they are equal.
pub proof fn lemma_bytes_cmp_equal(a: Seq<u8>, b: Seq<u8>)
    ensures
        spec_bytes_cmp(a, b) == Ordering::Equal <==> a == b,
    decreases a.len(),
{
    if a.len() == 0 && b.len() == 0 {
        assert(a =~= b);
    } else if a.len() == 0 || b.len() == 0 {
    } else if a[0] == b[0] {
        lemma_bytes_cmp_equal(a.skip(1), b.skip(1));
        if spec_bytes_cmp(a, b) == Ordering::Equal {
            assert(a =~= seq![a[0]] + a.skip(1));
            assert(b =~= seq![b[0]] + b.skip(1));
        } else {
            if a == b {
                assert(a.skip(1) =~= b.skip(1));
            }
        }
    } else {
        if a == b {
            assert(a[0] == b[0]);
        }
    }
}

/// The ordering key of a segment: its text for an ordinary identifier,
/// nothing for `self` and for markers, which therefore sort before every
/// identifier.
pub open spec fn spec_seg_key(s: SegV) -> Option<Seq<u8>> {
    match s {
        SegV::Ident(t) => Some(t),
        SegV::SelfSeg => None,
        SegV::Marker(_) => None,
    }
}

/// Order on segment keys: a key-less segment sorts first.
pub open spec fn spec_segment_cmp(a: SegV, b: SegV) -> Ordering {
    match (spec_seg_key(a), spec_seg_key(b)) {
        (Option::None, Option::None) => Ordering::Equal,
        (Option::None, Option::Some(_)) => Ordering::Less,
        (Option::Some(_), Option::None) => Ordering::Greater,
        (Option::Some(x), Option::Some(y)) => spec_bytes_cmp(x, y),
    }
}

/// Short-circuiting segment-sequence order: compare segment by segment and
/// call the runs `Equal` as soon as either is exhausted.
pub open spec fn spec_path_cmp_short(a: Seq<SegV>, b: Seq<SegV>) -> Ordering
    decreases a.len(),
{
    if a.len() == 0 || b.len() == 0 {
        Ordering::Equal
    } else {
        match spec_segment_cmp(a[0], b[0]) {
            Ordering::Equal => spec_path_cmp_short(a.skip(1), b.skip(1)),
            Ordering::Less => Ordering::Less,
            Ordering::Greater => Ordering::Greater,
        }
    }
}

/// A path that is exactly the bare keyword `self`.
pub open spec fn spec_path_is_self(p: PathV) -> bool {
    !p.root && p.segments.len() == 1 && p.segments[0] is SelfSeg
}

/// Canonical sort order on the optional paths of sibling nodes: a node
/// without a path sorts first, then the sole `self` path, then everything
/// else under the short-circuiting order.
pub open spec fn spec_path_cmp_for_sort(a: Option<PathV>, b: Option<PathV>) -> Ordering {
    match (a, b) {
        (Option::None, Option::None) => Ordering::Equal,
        (Option::None, Option::Some(_)) => Ordering::Less,
        (Option::Some(_), Option::None) => Ordering::Greater,
        (Option::Some(pa), Option::Some(pb)) => {
            if spec_path_is_self(pa) && spec_path_is_self(pb) {
                Ordering::Equal
            } else if spec_path_is_self(pa) {
                Ordering::Less
            } else if spec_path_is_self(pb) {
                Ordering::Greater
            } else {
                spec_path_cmp_short(pa.segments, pb.segments)
            }
        },
    }
}

/// The first segment of an optional path, if any.
pub open spec fn spec_first_seg(a: Option<PathV>) -> Option<SegV> {
    match a {
        Option::None => None,
        Option::Some(p) => if p.segments.len() == 0 {
            None
        } else {
            Some(p.segments[0])
        },
    }
}

/// Search-key order: compare the first segments only.  `Equal` here means
/// the two nodes are merge candidates, not that their paths agree.
pub open spec fn spec_path_cmp_bin_search(a: Option<PathV>, b: Option<PathV>) -> Ordering {
    match (spec_first_seg(a), spec_first_seg(b)) {
        (Option::None, Option::None) => Ordering::Equal,
        (Option::None, Option::Some(_)) => Ordering::Less,
        (Option::Some(_), Option::None) => Ordering::Greater,
        (Option::Some(x), Option::Some(y)) => spec_segment_cmp(x, y),
    }
}

/// Prefix-tie-break order: full lexicographic compare, and when one run is a
/// strict prefix of the other, the side whose node carries a nested group
/// counts as the larger structural unit.
pub open spec fn spec_use_tree_path_cmp(a: Seq<SegV>, a_tl: bool, b: Seq<SegV>, b_tl: bool) -> Ordering
    decreases a.len(),
{
    if a.len() == 0 && b.len() == 0 {
        Ordering::Equal
    } else if a.len() == 0 {
        if !a_tl {
            Ordering::Less
        } else {
            Ordering::Greater
        }
    } else if b.len() == 0 {
        if !b_tl {
            Ordering::Greater
        } else {
            Ordering::Less
        }
    } else {
        match spec_segment_cmp(a[0], b[0]) {
            Ordering::Equal => spec_use_tree_path_cmp(a.skip(1), a_tl, b.skip(1), b_tl),
            Ordering::Less => Ordering::Less,
            Ordering::Greater => Ordering::Greater,
        }
    }
}

/// Swapping the operands of the byte order mirrors the outcome.
pub proof fn lemma_bytes_cmp_flip(a: Seq<u8>, b: Seq<u8>)
    ensures
        (spec_bytes_cmp(a, b) == Ordering::Less) == (spec_bytes_cmp(b, a) == Ordering::Greater),
        (spec_bytes_cmp(a, b) == Ordering::Equal) == (spec_bytes_cmp(b, a) == Ordering::Equal),
    decreases a.len(),
{
    if a.len() > 0 && b.len() > 0 && a[0] == b[0] {
        lemma_bytes_cmp_flip(a.skip(1), b.skip(1));
    }
}

/// The strict byte order is transitive.
pub proof fn lemma_bytes_cmp_greater_trans(a: Seq<u8>, b: Seq<u8>, c: Seq<u8>)
    requires
        spec_bytes_cmp(a, b) == Ordering::Greater,
        spec_bytes_cmp(b, c) == Ordering::Greater,
    ensures
        spec_bytes_cmp(a, c) == Ordering::Greater,
    decreases a.len(),
{
    if b.len() > 0 && c.len() > 0 && a.len() > 0 {
        if a[0] == b[0] && b[0] == c[0] {
            lemma_bytes_cmp_greater_trans(a.skip(1), b.skip(1), c.skip(1));
        }
    }
}

/// Two segments compare `Equal` exactly when their ordering keys are equal.
pub proof fn lemma_segment_cmp_equal(a: SegV, b: SegV)
    ensures
        (spec_segment_cmp(a, b) == Ordering::Equal) == (spec_seg_key(a) == spec_seg_key(b)),
{
    match (spec_seg_key(a), spec_seg_key(b)) {
        (Option::Some(x), Option::Some(y)) => {
            lemma_bytes_cmp_equal(x, y);
        },
        _ => {},
    }
}

/// Swapping the operands of the segment order mirrors the outcome.
pub proof fn lemma_segment_cmp_flip(a: SegV, b: SegV)
    ensures
        (spec_segment_cmp(a, b) == Ordering::Less) == (spec_segment_cmp(b, a)
            == Ordering::Greater),
        (spec_segment_cmp(a, b) == Ordering::Equal) == (spec_segment_cmp(b, a)
            == Ordering::Equal),
{
    match (spec_seg_key(a), spec_seg_key(b)) {
        (Option::Some(x), Option::Some(y)) => {
            lemma_bytes_cmp_flip(x, y);
        },
        _ => {},
    }
}

/// The strict segment order is transitive, treating equal keys alike.
pub proof fn lemma_segment_cmp_greater_trans(a: SegV, b: SegV, c: SegV)
    requires
        spec_segment_cmp(a, b) != Ordering::Less,
        spec_segment_cmp(b, c) != Ordering::Less,
        spec_segment_cmp(a, b) == Ordering::Greater || spec_segment_cmp(b, c)
            == Ordering::Greater,
    ensures
        spec_segment_cmp(a, c) == Ordering::Greater,
{
    lemma_segment_cmp_equal(a, b);
    lemma_segment_cmp_equal(b, c);
    match (spec_seg_key(a), spec_seg_key(b), spec_seg_key(c)) {
        (Option::Some(x), Option::Some(y), Option::Some(z)) => {
            lemma_bytes_cmp_equal(x, y);
            lemma_bytes_cmp_equal(y, z);
            if spec_bytes_cmp(x, y) == Ordering::Greater && spec_bytes_cmp(y, z)
                == Ordering::Greater {
                lemma_bytes_cmp_greater_trans(x, y, z);
            }
        },
        _ => {},
    }
}

/// Swapping the operands of the short-circuiting path order mirrors it.
pub proof fn lemma_path_cmp_short_flip(a: Seq<SegV>, b: Seq<SegV>)
    ensures
        (spec_path_cmp_short(a, b) == Ordering::Less) == (spec_path_cmp_short(b, a)
            == Ordering::Greater),
        (spec_path_cmp_short(a, b) == Ordering::Equal) == (spec_path_cmp_short(b, a)
            == Ordering::Equal),
    decreases a.len(),
{
    if a.len() > 0 && b.len() > 0 {
        lemma_segment_cmp_flip(a[0], b[0]);
        if spec_segment_cmp(a[0], b[0]) == Ordering::Equal {
            lemma_path_cmp_short_flip(a.skip(1), b.skip(1));
        }
    }
}

/// The strict short-circuiting path order is transitive.
pub proof fn lemma_path_cmp_short_greater_trans(a: Seq<SegV>, b: Seq<SegV>, c: Seq<SegV>)
    requires
        spec_path_cmp_short(a, b) == Ordering::Greater,
        spec_path_cmp_short(b, c) == Ordering::Greater,
    ensures
        spec_path_cmp_short(a, c) == Ordering::Greater,
    decreases a.len(),
{
    if spec_segment_cmp(a[0], b[0]) == Ordering::Equal && spec_segment_cmp(b[0], c[0])
        == Ordering::Equal {
        lemma_segment_cmp_equal(a[0], b[0]);
        lemma_segment_cmp_equal(b[0], c[0]);
        lemma_segment_cmp_equal(a[0], c[0]);
        lemma_path_cmp_short_greater_trans(a.skip(1), b.skip(1), c.skip(1));
    } else {
        lemma_segment_cmp_greater_trans(a[0], b[0], c[0]);
    }
}

/// Swapping the operands of the canonical sort order mirrors the outcome.
pub proof fn lemma_path_cmp_for_sort_flip(a: Option<PathV>, b: Option<PathV>)
    ensures
        (spec_path_cmp_for_sort(a, b) == Ordering::Less) == (spec_path_cmp_for_sort(b, a)
            == Ordering::Greater),
        (spec_path_cmp_for_sort(a, b) == Ordering::Equal) == (spec_path_cmp_for_sort(b, a)
            == Ordering::Equal),
{
    match (a, b) {
        (Option::Some(pa), Option::Some(pb)) => {
            lemma_path_cmp_short_flip(pa.segments, pb.segments);
        },
        _ => {},
    }
}

/// The strict canonical sort order is transitive.
pub proof fn lemma_path_cmp_for_sort_greater_trans(
    a: Option<PathV>,
    b: Option<PathV>,
    c: Option<PathV>,
)
    requires
        spec_path_cmp_for_sort(a, b) == Ordering::Greater,
        spec_path_cmp_for_sort(b, c) == Ordering::Greater,
    ensures
        spec_path_cmp_for_sort(a, c) == Ordering::Greater,
{
    match (a, b, c) {
        (Option::Some(pa), Option::Some(pb), Option::Some(pc)) => {
            if !spec_path_is_self(pa) && !spec_path_is_self(pb) && !spec_path_is_self(pc) {
                lemma_path_cmp_short_greater_trans(pa.segments, pb.segments, pc.segments);
            }
        },
        _ => {},
    }
}

/// Compares two byte strings lexicographically.
pub fn bytes_cmp(a: &Vec<u8>, b: &Vec<u8>) -> (r: Ordering)
    ensures
        r == spec_bytes_cmp(a@, b@),
{
    let mut i: usize = 0;
    proof {
        assert(a@.skip(0) =~= a@);
        assert(b@.skip(0) =~= b@);
    }
    loop
        invariant
            i <= a.len(),
            i <= b.len(),
            spec_bytes_cmp(a@, b@) == spec_bytes_cmp(a@.skip(i as int), b@.skip(i as int)),
        decreases a@.len() - i,
    {
        if i == a.len() {
            if i == b.len() {
                return Ordering::Equal;
            } else {
                return Ordering::Less;
            }
        } else if i == b.len() {
            return Ordering::Greater;
        } else {
            let x = a[i];
            let y = b[i];
            proof {
                assert(a@.skip(i as int)[0] == a@[i as int]);
                assert(b@.skip(i as int)[0] == b@[i as int]);
                assert(a@.skip(i as int).skip(1) =~= a@.skip(i as int + 1));
                assert(b@.skip(i as int).skip(1) =~= b@.skip(i as int + 1));
            }
            if x < y {
                return Ordering::Less;
            } else if y < x {
                return Ordering::Greater;
            }
            i = i + 1;
        }
    }
}

/// Compares two segments by their ordering keys.
pub fn path_segment_cmp(a: &Segment, b: &Segment) -> (r: Ordering)
    ensures
        r == spec_segment_cmp(a@, b@),
{
    match (a, b) {
        (Segment::Ident(x), Segment::Ident(y)) => bytes_cmp(x, y),
        (Segment::Ident(_), _) => Ordering::Greater,
        (_, Segment::Ident(_)) => Ordering::Less,
        _ => Ordering::Equal,
    }
}

/// Whether a path is the bare keyword `self`.
pub fn path_is_self(p: &Path) -> (r: bool)
    ensures
        r == spec_path_is_self(p@),
{
    !p.root && p.segments.len() == 1 && matches!(&p.segments[0], Segment::SelfSeg)
}

/// The number of segments of a path.
pub fn path_len(p: &Path) -> (r: usize)
    ensures
        r == p@.segments.len(),
{
    p.segments.len()
}

/// Short-circuiting comparison of two paths: if both are equal until one of
/// them ends they are considered equal.
pub fn path_cmp_short(a: &Path, b: &Path) -> (r: Ordering)
    ensures
        r == spec_path_cmp_short(a@.segments, b@.segments),
{
    let mut i: usize = 0;
    proof {
        assert(a@.segments.skip(0) =~= a@.segments);
        assert(b@.segments.skip(0) =~= b@.segments);
    }
    loop
        invariant
            i <= a.segments.len(),
            i <= b.segments.len(),
            spec_path_cmp_short(a@.segments, b@.segments) == spec_path_cmp_short(
                a@.segments.skip(i as int),
                b@.segments.skip(i as int),
            ),
        decreases a@.segments.len() - i,
    {
        if i == a.segments.len() || i == b.segments.len() {
            return Ordering::Equal;
        }
        proof {
            assert(a@.segments.skip(i as int)[0] == a@.segments[i as int]);
            assert(b@.segments.skip(i as int)[0] == b@.segments[i as int]);
            assert(a@.segments.skip(i as int).skip(1) =~= a@.segments.skip(i as int + 1));
            assert(b@.segments.skip(i as int).skip(1) =~= b@.segments.skip(i as int + 1));
        }
        match path_segment_cmp(&a.segments[i], &b.segments[i]) {
            Ordering::Equal => {
                i = i + 1;
            },
            ord => {
                return ord;
            },
        }
    }
}

/// Canonical sort order on the optional paths of two sibling nodes: the sole
/// `self` path comes first, the rest follow the short-circuiting order.
pub fn path_cmp_for_sort(a: Option<&Path>, b: Option<&Path>) -> (r: Ordering)
    ensures
        r == spec_path_cmp_for_sort(
            match a {
                Some(p) => Some(p@),
                None => None,
            },
            match b {
                Some(p) => Some(p@),
                None => None,
            },
        ),
{
    match (a, b) {
        (None, None) => Ordering::Equal,
        (None, Some(_)) => Ordering::Less,
        (Some(_), None) => Ordering::Greater,
        (Some(pa), Some(pb)) => {
            let a_self = path_is_self(pa);
            let b_self = path_is_self(pb);
            if a_self && b_self {
                Ordering::Equal
            } else if a_self {
                Ordering::Less
            } else if b_self {
                Ordering::Greater
            } else {
                path_cmp_short(pa, pb)
            }
        },
    }
}

/// Search-key comparison for looking a merge candidate up: compares only the
/// first segments of the two optional paths.
pub fn path_cmp_bin_search(a: Option<&Path>, b: Option<&Path>) -> (r: Ordering)
    ensures
        r == spec_path_cmp_bin_search(
            match a {
                Some(p) => Some(p@),
                None => None,
            },
            match b {
                Some(p) => Some(p@),
                None => None,
            },
        ),
{
    let a_first = match a {
        Some(p) => if p.segments.len() > 0 {
            Some(&p.segments[0])
        } else {
            None
        },
        None => None,
    };
    let b_first = match b {
        Some(p) => if p.segments.len() > 0 {
            Some(&p.segments[0])
        } else {
            None
        },
        None => None,
    };
    match (a_first, b_first) {
        (None, None) => Ordering::Equal,
        (None, Some(_)) => Ordering::Less,
        (Some(_), None) => Ordering::Greater,
        (Some(x), Some(y)) => path_segment_cmp(x, y),
    }
}

/// Full path comparison with the prefix tie-break: when the shorter path
/// ends, the side that carries a nested group (`a_has_tl`, `b_has_tl`) sorts
/// after the side that does not.
pub fn use_tree_path_cmp(a: &Path, a_has_tl: bool, b: &Path, b_has_tl: bool) -> (r: Ordering)
    ensures
        r == spec_use_tree_path_cmp(a@.segments, a_has_tl, b@.segments, b_has_tl),
{
    let mut i: usize = 0;
    proof {
        assert(a@.segments.skip(0) =~= a@.segments);
        assert(b@.segments.skip(0) =~= b@.segments);
    }
    loop
        invariant
            i <= a.segments.len(),
            i <= b.segments.len(),
            spec_use_tree_path_cmp(a@.segments, a_has_tl, b@.segments, b_has_tl)
                == spec_use_tree_path_cmp(
                a@.segments.skip(i as int),
                a_has_tl,
                b@.segments.skip(i as int),
                b_has_tl,
            ),
        decreases a@.segments.len() - i,
    {
        if i == a.segments.len() && i == b.segments.len() {
            return Ordering::Equal;
        } else if i == a.segments.len() {
            if !a_has_tl {
                return Ordering::Less;
            } else {
                return Ordering::Greater;
            }
        } else if i == b.segments.len() {
            if !b_has_tl {
                return Ordering::Greater;
            } else {
                return Ordering::Less;
            }
        }
        proof {
            assert(a@.segments.skip(i as int)[0] == a@.segments[i as int]);
            assert(b@.segments.skip(i as int)[0] == b@.segments[i as int]);
            assert(a@.segments.skip(i as int).skip(1) =~= a@.segments.skip(i as int + 1));
            assert(b@.segments.skip(i as int).skip(1) =~= b@.segments.skip(i as int + 1));
        }
        match path_segment_cmp(&a.segments[i], &b.segments[i]) {
            Ordering::Equal => {
                i = i + 1;
            },
            ord => {
                return ord;
            },
        }
    }
}

} // verus!
