use merge_imports::merge::{
    eq_attrs, eq_visibility, try_merge_imports, try_merge_trees, MergeBehavior,
};
use merge_imports::model::{Attr, Path, Segment, UseDecl, UseTree, Visibility};

fn seg(s: &str) -> Segment {
    Segment::Ident(s.as_bytes().to_vec())
}

fn path(parts: &[&str]) -> Path {
    Path { root: false, segments: parts.iter().map(|p| seg(p)).collect() }
}

fn rooted_path(parts: &[&str]) -> Path {
    Path { root: true, segments: parts.iter().map(|p| seg(p)).collect() }
}

fn self_path() -> Path {
    Path { root: false, segments: vec![Segment::SelfSeg] }
}

fn leaf(parts: &[&str]) -> UseTree {
    UseTree::Leaf { path: Some(path(parts)), glob: false }
}

fn self_leaf() -> UseTree {
    UseTree::Leaf { path: Some(self_path()), glob: false }
}

fn glob(parts: &[&str]) -> UseTree {
    UseTree::Leaf { path: Some(path(parts)), glob: true }
}

fn bare_glob() -> UseTree {
    UseTree::Leaf { path: None, glob: true }
}

fn group(parts: &[&str], children: Vec<UseTree>) -> UseTree {
    UseTree::Group { path: Some(path(parts)), root: false, children }
}

fn top_group(root: bool, children: Vec<UseTree>) -> UseTree {
    UseTree::Group { path: None, root, children }
}

fn decl(tree: UseTree) -> UseDecl {
    UseDecl { vis: None, attrs: Vec::new(), tree: Some(tree) }
}

#[test]
fn same_module_paths_merge_under_module_policy() {
    let a = leaf(&["std", "collections", "HashMap"]);
    let b = leaf(&["std", "collections", "HashSet"]);
    let merged = try_merge_trees(&a, &b, MergeBehavior::Module).expect("should merge");
    assert_eq!(
        merged,
        group(
            &["std", "collections"],
            vec![leaf(&["HashMap"]), leaf(&["HashSet"])],
        )
    );
}

#[test]
fn different_modules_fail_under_module_policy() {
    let a = leaf(&["std", "collections", "HashMap"]);
    let b = leaf(&["std", "fmt", "Display"]);
    assert_eq!(try_merge_trees(&a, &b, MergeBehavior::Module), None);
}

#[test]
fn crate_policy_merges_same_crate() {
    let a = leaf(&["std", "collections", "HashMap"]);
    let b = leaf(&["std", "fmt", "Display"]);
    let merged = try_merge_trees(&a, &b, MergeBehavior::Crate).expect("should merge");
    assert_eq!(
        merged,
        group(
            &["std"],
            vec![
                leaf(&["collections", "HashMap"]),
                leaf(&["fmt", "Display"]),
            ],
        )
    );
}

#[test]
fn crate_policy_fails_across_crates() {
    let a = leaf(&["foo", "bar"]);
    let b = leaf(&["baz", "qux"]);
    assert_eq!(try_merge_trees(&a, &b, MergeBehavior::Crate), None);
}

#[test]
fn one_policy_flattens_disjoint_paths() {
    let a = leaf(&["foo", "bar"]);
    let b = leaf(&["baz", "qux"]);
    let merged = try_merge_trees(&a, &b, MergeBehavior::One).expect("should merge");
    assert_eq!(
        merged,
        top_group(false, vec![leaf(&["foo", "bar"]), leaf(&["baz", "qux"])])
    );
}

#[test]
fn one_policy_hoists_shared_root_qualifier() {
    let a = UseTree::Leaf { path: Some(rooted_path(&["a", "b"])), glob: false };
    let b = UseTree::Leaf { path: Some(rooted_path(&["c", "d"])), glob: false };
    let merged = try_merge_trees(&a, &b, MergeBehavior::One).expect("should merge");
    assert_eq!(
        merged,
        top_group(true, vec![leaf(&["a", "b"]), leaf(&["c", "d"])])
    );
}

#[test]
fn one_policy_spills_group_children_into_flat_list() {
    let a = top_group(false, vec![leaf(&["m"]), leaf(&["n"])]);
    let b = leaf(&["baz", "qux"]);
    let merged = try_merge_trees(&a, &b, MergeBehavior::One).expect("should merge");
    assert_eq!(
        merged,
        top_group(false, vec![leaf(&["m"]), leaf(&["n"]), leaf(&["baz", "qux"])])
    );
}

#[test]
fn one_policy_fails_without_path_or_children() {
    let a = UseTree::Leaf { path: None, glob: false };
    let b = leaf(&["x"]);
    assert_eq!(try_merge_trees(&a, &b, MergeBehavior::One), None);
}

#[test]
fn self_merge_is_idempotent_for_simple_path() {
    let a = leaf(&["a", "b"]);
    let b = leaf(&["a", "b"]);
    for policy in [MergeBehavior::Crate, MergeBehavior::Module] {
        let merged = try_merge_trees(&a, &b, policy).expect("should merge");
        assert_eq!(merged, leaf(&["a", "b"]));
    }
}

#[test]
fn self_merge_of_group_keeps_one_copy_of_each_leaf() {
    let a = group(&["a"], vec![leaf(&["b"]), leaf(&["c"])]);
    let b = group(&["a"], vec![leaf(&["b"]), leaf(&["c"])]);
    let merged = try_merge_trees(&a, &b, MergeBehavior::Crate).expect("should merge");
    assert_eq!(merged, group(&["a"], vec![leaf(&["b"]), leaf(&["c"])]));
}

#[test]
fn self_entry_absorbs_duplicate_bare_path() {
    // the incoming group's `self` child stands for the bare path already
    // present on the left, so the group replaces the plain leaf
    let a = leaf(&["a", "b"]);
    let b = group(&["a"], vec![group(&["b"], vec![self_leaf(), leaf(&["c"])])]);
    let merged = try_merge_trees(&a, &b, MergeBehavior::Crate).expect("should merge");
    assert_eq!(
        merged,
        group(&["a"], vec![group(&["b"], vec![self_leaf(), leaf(&["c"])])])
    );
}

#[test]
fn self_entry_on_left_absorbs_incoming_bare_path() {
    let a = group(&["a"], vec![group(&["b"], vec![self_leaf(), leaf(&["c"])])]);
    let b = leaf(&["a", "b"]);
    let merged = try_merge_trees(&a, &b, MergeBehavior::Crate).expect("should merge");
    assert_eq!(
        merged,
        group(&["a"], vec![group(&["b"], vec![self_leaf(), leaf(&["c"])])])
    );
}

#[test]
fn bare_path_and_group_with_top_level_self() {
    // every name of both sides is kept: the bare `a::b`, the group's `a`
    // (spelt `self`) and its `a::b::c`
    let a = leaf(&["a", "b"]);
    let b = group(&["a"], vec![self_leaf(), leaf(&["b", "c"])]);
    let merged = try_merge_trees(&a, &b, MergeBehavior::Crate).expect("should merge");
    assert_eq!(
        merged,
        group(
            &["a"],
            vec![self_leaf(), group(&["b"], vec![self_leaf(), leaf(&["c"])])],
        )
    );
}

#[test]
fn prefix_of_longer_path_becomes_self_entry() {
    let a = leaf(&["a", "b"]);
    let b = leaf(&["a", "b", "c"]);
    let merged = try_merge_trees(&a, &b, MergeBehavior::Crate).expect("should merge");
    assert_eq!(merged, group(&["a", "b"], vec![self_leaf(), leaf(&["c"])]));
}

#[test]
fn glob_stays_a_separate_entry() {
    let a = glob(&["a"]);
    let b = leaf(&["a", "b"]);
    let merged = try_merge_trees(&a, &b, MergeBehavior::Crate).expect("should merge");
    assert_eq!(merged, group(&["a"], vec![bare_glob(), leaf(&["b"])]));
}

#[test]
fn merged_children_are_canonically_sorted() {
    let a = group(&["a"], vec![leaf(&["z"]), leaf(&["m"])]);
    let b = group(&["a"], vec![leaf(&["b"]), leaf(&["y"])]);
    let merged = try_merge_trees(&a, &b, MergeBehavior::Crate).expect("should merge");
    assert_eq!(
        merged,
        group(
            &["a"],
            vec![leaf(&["b"]), leaf(&["m"]), leaf(&["y"]), leaf(&["z"])],
        )
    );
}

#[test]
fn self_sorts_before_named_entries() {
    let a = group(&["a"], vec![leaf(&["b"])]);
    let b = group(&["a"], vec![self_leaf()]);
    let merged = try_merge_trees(&a, &b, MergeBehavior::Crate).expect("should merge");
    assert_eq!(merged, group(&["a"], vec![self_leaf(), leaf(&["b"])]));
}

#[test]
fn failed_merge_leaves_inputs_untouched() {
    let a = leaf(&["foo", "bar"]);
    let b = leaf(&["baz", "qux"]);
    let a_before = leaf(&["foo", "bar"]);
    let b_before = leaf(&["baz", "qux"]);
    assert_eq!(try_merge_trees(&a, &b, MergeBehavior::Crate), None);
    assert_eq!(a, a_before);
    assert_eq!(b, b_before);
}

#[test]
fn different_visibilities_never_merge() {
    let make = |vis: Option<Visibility>| UseDecl {
        vis,
        attrs: Vec::new(),
        tree: Some(leaf(&["a", "b"])),
    };
    for policy in [MergeBehavior::One, MergeBehavior::Crate, MergeBehavior::Module] {
        let a = make(Some(Visibility::Public));
        let b = make(None);
        assert!(try_merge_imports(&a, &b, policy).is_none());
        let c = make(Some(Visibility::Public));
        let d = make(Some(Visibility::Restricted(path(&["super"]))));
        assert!(try_merge_imports(&c, &d, policy).is_none());
    }
}

#[test]
fn equal_visibilities_pass_the_gate() {
    let a = UseDecl {
        vis: Some(Visibility::Public),
        attrs: Vec::new(),
        tree: Some(leaf(&["a", "b"])),
    };
    let b = UseDecl {
        vis: Some(Visibility::Public),
        attrs: Vec::new(),
        tree: Some(leaf(&["a", "c"])),
    };
    let merged = try_merge_imports(&a, &b, MergeBehavior::Crate).expect("should merge");
    assert_eq!(merged.vis, Some(Visibility::Public));
    assert_eq!(
        merged.tree,
        Some(group(&["a"], vec![leaf(&["b"]), leaf(&["c"])]))
    );
}

#[test]
fn attribute_order_matters_for_the_gate() {
    let attr = |s: &str| Attr { text: s.as_bytes().to_vec() };
    let a = UseDecl {
        vis: None,
        attrs: vec![attr("#[cfg(test)]"), attr("#[allow(unused)]")],
        tree: Some(leaf(&["a", "b"])),
    };
    let b = UseDecl {
        vis: None,
        attrs: vec![attr("#[allow(unused)]"), attr("#[cfg(test)]")],
        tree: Some(leaf(&["a", "c"])),
    };
    assert!(try_merge_imports(&a, &b, MergeBehavior::Crate).is_none());
    let c = UseDecl {
        vis: None,
        attrs: vec![attr("#[cfg(test)]"), attr("#[allow(unused)]")],
        tree: Some(leaf(&["a", "c"])),
    };
    assert!(try_merge_imports(&a, &c, MergeBehavior::Crate).is_some());
}

#[test]
fn declaration_without_tree_never_merges() {
    let a = UseDecl { vis: None, attrs: Vec::new(), tree: None };
    let b = decl(leaf(&["a"]));
    assert!(try_merge_imports(&a, &b, MergeBehavior::One).is_none());
}

#[test]
fn merged_declaration_keeps_left_attributes() {
    let attr = |s: &str| Attr { text: s.as_bytes().to_vec() };
    let a = UseDecl {
        vis: None,
        attrs: vec![attr("#[cfg(test)]")],
        tree: Some(leaf(&["a", "b"])),
    };
    let b = UseDecl {
        vis: None,
        attrs: vec![attr("#[cfg(test)]")],
        tree: Some(leaf(&["a", "c"])),
    };
    let merged = try_merge_imports(&a, &b, MergeBehavior::Crate).expect("should merge");
    assert_eq!(merged.attrs, vec![attr("#[cfg(test)]")]);
}

#[test]
fn module_policy_rejects_nested_group_on_either_side() {
    let nested = group(&["a"], vec![group(&["b"], vec![leaf(&["c"])])]);
    let plain = leaf(&["a", "d"]);
    assert_eq!(try_merge_trees(&nested, &plain, MergeBehavior::Module), None);
    assert_eq!(try_merge_trees(&plain, &nested, MergeBehavior::Module), None);
}

#[test]
fn eq_visibility_matches_structurally() {
    assert!(eq_visibility(None, None));
    assert!(eq_visibility(Some(&Visibility::Public), Some(&Visibility::Public)));
    assert!(!eq_visibility(Some(&Visibility::Public), None));
    assert!(eq_visibility(
        Some(&Visibility::Restricted(path(&["crate"]))),
        Some(&Visibility::Restricted(path(&["crate"]))),
    ));
    assert!(!eq_visibility(
        Some(&Visibility::Restricted(path(&["crate"]))),
        Some(&Visibility::Restricted(path(&["super"]))),
    ));
}

#[test]
fn eq_attrs_compares_texts_in_order() {
    let attr = |s: &str| Attr { text: s.as_bytes().to_vec() };
    assert!(eq_attrs(&vec![], &vec![]));
    assert!(eq_attrs(&vec![attr("x")], &vec![attr("x")]));
    assert!(!eq_attrs(&vec![attr("x")], &vec![attr("y")]));
    assert!(!eq_attrs(&vec![attr("x")], &vec![attr("x"), attr("x")]));
}
