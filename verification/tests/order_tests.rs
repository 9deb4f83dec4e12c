use std::cmp::Ordering;

use merge_imports::model::{Path, Segment};
use merge_imports::order::{
    path_cmp_bin_search, path_cmp_for_sort, path_cmp_short, path_is_self, path_len,
    path_segment_cmp, use_tree_path_cmp,
};
use merge_imports::prefix::common_prefix;

fn seg(s: &str) -> Segment {
    Segment::Ident(s.as_bytes().to_vec())
}

fn path(parts: &[&str]) -> Path {
    Path { root: false, segments: parts.iter().map(|p| seg(p)).collect() }
}

fn self_path() -> Path {
    Path { root: false, segments: vec![Segment::SelfSeg] }
}

#[test]
fn segment_order_puts_markers_first_then_text() {
    let krate = Segment::Marker(b"crate".to_vec());
    assert_eq!(path_segment_cmp(&krate, &seg("a")), Ordering::Less);
    assert_eq!(path_segment_cmp(&seg("a"), &krate), Ordering::Greater);
    assert_eq!(path_segment_cmp(&krate, &Segment::SelfSeg), Ordering::Equal);
    assert_eq!(path_segment_cmp(&seg("HashMap"), &seg("HashSet")), Ordering::Less);
    assert_eq!(path_segment_cmp(&seg("a"), &seg("a")), Ordering::Equal);
    assert_eq!(path_segment_cmp(&seg("b"), &seg("a")), Ordering::Greater);
}

#[test]
fn sort_order_puts_self_first() {
    assert_eq!(
        path_cmp_for_sort(Some(&self_path()), Some(&path(&["a"]))),
        Ordering::Less
    );
    assert_eq!(
        path_cmp_for_sort(Some(&path(&["a"])), Some(&self_path())),
        Ordering::Greater
    );
    assert_eq!(
        path_cmp_for_sort(Some(&self_path()), Some(&self_path())),
        Ordering::Equal
    );
    assert_eq!(path_cmp_for_sort(None, Some(&path(&["a"]))), Ordering::Less);
    assert_eq!(
        path_cmp_for_sort(Some(&path(&["a", "b"])), Some(&path(&["a", "c"]))),
        Ordering::Less
    );
}

#[test]
fn short_compare_calls_prefix_runs_equal() {
    assert_eq!(
        path_cmp_short(&path(&["a", "b"]), &path(&["a", "b", "c"])),
        Ordering::Equal
    );
    assert_eq!(
        path_cmp_short(&path(&["a", "b"]), &path(&["a", "c"])),
        Ordering::Less
    );
}

#[test]
fn bin_search_order_compares_first_segment_only() {
    assert_eq!(
        path_cmp_bin_search(Some(&path(&["a", "z"])), Some(&path(&["a", "b"]))),
        Ordering::Equal
    );
    assert_eq!(
        path_cmp_bin_search(Some(&path(&["a"])), Some(&path(&["b", "a"]))),
        Ordering::Less
    );
    assert_eq!(path_cmp_bin_search(None, Some(&path(&["a"]))), Ordering::Less);
    assert_eq!(path_cmp_bin_search(None, None), Ordering::Equal);
}

#[test]
fn prefix_tie_break_ranks_groups_after_plain_paths() {
    // `a` as a plain path sorts before `a::{...}`, while a longer plain
    // path sorts after the short one
    assert_eq!(
        use_tree_path_cmp(&path(&["a"]), false, &path(&["a", "b"]), false),
        Ordering::Less
    );
    assert_eq!(
        use_tree_path_cmp(&path(&["a"]), true, &path(&["a", "b"]), false),
        Ordering::Greater
    );
    assert_eq!(
        use_tree_path_cmp(&path(&["a", "b"]), false, &path(&["a"]), true),
        Ordering::Less
    );
    assert_eq!(
        use_tree_path_cmp(&path(&["a", "b"]), false, &path(&["a", "b"]), true),
        Ordering::Equal
    );
}

#[test]
fn path_is_self_recognises_only_the_bare_keyword() {
    assert!(path_is_self(&self_path()));
    assert!(!path_is_self(&path(&["a"])));
    let nested = Path { root: false, segments: vec![seg("a"), Segment::SelfSeg] };
    assert!(!path_is_self(&nested));
}

#[test]
fn path_len_counts_segments() {
    assert_eq!(path_len(&path(&["a"])), 1);
    assert_eq!(path_len(&path(&["a", "b", "c"])), 3);
}

#[test]
fn common_prefix_returns_the_shared_run() {
    let (l, r) = common_prefix(&path(&["a", "b", "c"]), &path(&["a", "b", "d"]))
        .expect("shared prefix");
    assert_eq!(l, path(&["a", "b"]));
    assert_eq!(r, path(&["a", "b"]));
}

#[test]
fn common_prefix_fails_on_first_segment_mismatch() {
    assert!(common_prefix(&path(&["a"]), &path(&["b"])).is_none());
}

#[test]
fn common_prefix_fails_on_root_qualifier_mismatch() {
    let rooted = Path { root: true, segments: vec![seg("a"), seg("b")] };
    assert!(common_prefix(&rooted, &path(&["a", "b"])).is_none());
}

#[test]
fn common_prefix_stops_at_the_shorter_path() {
    let (l, _) = common_prefix(&path(&["a", "b"]), &path(&["a", "b", "c"]))
        .expect("shared prefix");
    assert_eq!(l, path(&["a", "b"]));
}
