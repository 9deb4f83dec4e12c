use merge_imports::merge::{try_merge_trees, MergeBehavior};
use merge_imports::model::{Path, Segment, UseTree};

fn seg(s: &str) -> Segment {
    Segment::Ident(s.as_bytes().to_vec())
}

fn path(parts: &[&str]) -> Path {
    Path { root: false, segments: parts.iter().map(|p| seg(p)).collect() }
}

fn leaf(parts: &[&str]) -> UseTree {
    UseTree::Leaf { path: Some(path(parts)), glob: false }
}

fn self_leaf() -> UseTree {
    UseTree::Leaf {
        path: Some(Path { root: false, segments: vec![Segment::SelfSeg] }),
        glob: false,
    }
}

fn group(parts: &[&str], children: Vec<UseTree>) -> UseTree {
    UseTree::Group { path: Some(path(parts)), root: false, children }
}

type Entry = (bool, Vec<String>, bool);

fn seg_text(s: &Segment) -> String {
    match s {
        Segment::Ident(t) => format!("i:{}", String::from_utf8_lossy(t)),
        Segment::SelfSeg => "self".to_string(),
        Segment::Marker(t) => format!("m:{}", String::from_utf8_lossy(t)),
    }
}

fn extend(root: bool, pre: &[String], p: &Option<Path>) -> (bool, Vec<String>) {
    match p {
        None => (root, pre.to_vec()),
        Some(p) => {
            let segs: Vec<String> = p.segments.iter().map(seg_text).collect();
            if segs.len() == 1 && segs[0] == "self" {
                (root || p.root, pre.to_vec())
            } else {
                let mut out = pre.to_vec();
                out.extend(segs);
                (root || p.root, out)
            }
        },
    }
}

fn flatten_into(t: &UseTree, root: bool, pre: &[String], out: &mut Vec<Entry>) {
    match t {
        UseTree::Leaf { path, glob } => {
            let (r, segs) = extend(root, pre, path);
            out.push((r, segs, *glob));
        },
        UseTree::Group { path, root: groot, children } => {
            let (r, segs) = extend(root || *groot, pre, path);
            for c in children {
                flatten_into(c, r, &segs, out);
            }
        },
    }
}

fn denoted(t: &UseTree) -> Vec<Entry> {
    let mut out = Vec::new();
    flatten_into(t, false, &[], &mut out);
    out.sort();
    out.dedup();
    out
}

fn union(a: &UseTree, b: &UseTree) -> Vec<Entry> {
    let mut out = denoted(a);
    out.extend(denoted(b));
    out.sort();
    out.dedup();
    out
}

#[test]
fn merge_preserves_denoted_paths_for_nested_groups() {
    let a = group(
        &["std"],
        vec![leaf(&["collections", "HashMap"]), leaf(&["fmt", "Display"])],
    );
    let b = group(
        &["std"],
        vec![leaf(&["collections", "HashSet"]), leaf(&["io", "Read"])],
    );
    let merged = try_merge_trees(&a, &b, MergeBehavior::Crate).expect("should merge");
    assert_eq!(denoted(&merged), union(&a, &b));
}

#[test]
fn merge_preserves_denoted_paths_when_a_prefix_folds_in() {
    let a = leaf(&["a", "b"]);
    let b = leaf(&["a", "b", "c"]);
    let merged = try_merge_trees(&a, &b, MergeBehavior::Crate).expect("should merge");
    assert_eq!(denoted(&merged), union(&a, &b));
}

#[test]
fn merge_preserves_denoted_paths_through_self_absorption() {
    let a = leaf(&["a", "b"]);
    let b = group(&["a"], vec![group(&["b"], vec![self_leaf(), leaf(&["c"])])]);
    let merged = try_merge_trees(&a, &b, MergeBehavior::Crate).expect("should merge");
    assert_eq!(denoted(&merged), union(&a, &b));
}

#[test]
fn flatten_fallback_preserves_denoted_paths() {
    let a = leaf(&["foo", "bar"]);
    let b = group(&["baz"], vec![leaf(&["qux"]), leaf(&["quux"])]);
    let merged = try_merge_trees(&a, &b, MergeBehavior::One).expect("should merge");
    assert_eq!(denoted(&merged), union(&a, &b));
}

#[test]
fn self_merge_preserves_denoted_paths() {
    let a = group(&["k"], vec![self_leaf(), leaf(&["x"]), leaf(&["y", "z"])]);
    let b = group(&["k"], vec![self_leaf(), leaf(&["x"]), leaf(&["y", "z"])]);
    let merged = try_merge_trees(&a, &b, MergeBehavior::Crate).expect("should merge");
    assert_eq!(denoted(&merged), denoted(&a));
}
