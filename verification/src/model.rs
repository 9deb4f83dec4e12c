//! The data model: segments, paths, use trees and use declarations, together
//! with their mathematical views.
use vstd::prelude::*;

verus! {

/// One atomic name in a hierarchical path.
///
/// Three kinds matter to the merge engine: an ordinary identifier (carrying
/// its text), the keyword `self` (which names the enclosing path's own
/// entry), and a root- or self-referential marker such as `crate` or `super`
/// (carrying its text; used only for ordering decisions).  Marker text never
/// spells an ordinary identifier, and neither an identifier nor a marker is
/// ever spelt `self`, so segments of different kinds are never text-equal.
#[derive(Debug, Clone, PartialEq, Eq)]
pub enum Segment {
    Ident(Vec<u8>),
    SelfSeg,
    Marker(Vec<u8>),
}

/// The view of a [`Segment`].
#[verifier::ext_equal]
pub enum SegV {
    Ident(Seq<u8>),
    SelfSeg,
    Marker(Seq<u8>),
}

impl View for Segment {
    type V = SegV;

    open spec fn view(&self) -> SegV {
        match self {
            Segment::Ident(t) => SegV::Ident(t@),
            Segment::SelfSeg => SegV::SelfSeg,
            Segment::Marker(t) => SegV::Marker(t@),
        }
    }
}

/// An ordered, non-empty run of segments denoting one namespace entry, with
/// an optional leading root qualifier (an explicit `::` marking the path
/// absolute).
#[derive(Debug, Clone, PartialEq, Eq)]
pub struct Path {
    pub root: bool,
    pub segments: Vec<Segment>,
}

/// The view of a [`Path`].
#[verifier::ext_equal]
pub struct PathV {
    pub root: bool,
    pub segments: Seq<SegV>,
}

impl View for Path {
    type V = PathV;

    open spec fn view(&self) -> PathV {
        PathV { root: self.root, segments: self.segments@.map(|i: int, s: Segment| s@) }
    }
}

/// One mergeable node of a use declaration.
///
/// A `Leaf` imports a single entry: its optional path, or everything under
/// that path when `glob` is set.  A `Group` carries an optional shared path
/// prefix and an ordered list of child trees; `root` records a leading `::`
/// for the prefix-less `::{...}` form and is never set when `path` is
/// present (a path of its own then carries the qualifier).
#[derive(Debug, PartialEq, Eq)]
pub enum UseTree {
    Leaf { path: Option<Path>, glob: bool },
    Group { path: Option<Path>, root: bool, children: Vec<UseTree> },
}

/// The view of a [`UseTree`].
#[verifier::ext_equal]
pub enum TreeV {
    Leaf { path: Option<PathV>, glob: bool },
    Group { path: Option<PathV>, root: bool, children: Seq<TreeV> },
}

/// The views of a list of trees, in order.
pub open spec fn trees_view(s: Seq<UseTree>) -> Seq<TreeV>
    decreases s,
{
    if s.len() == 0 {
        Seq::empty()
    } else {
        trees_view(s.drop_last()).push(s.last()@)
    }
}

impl View for UseTree {
    type V = TreeV;

    open spec fn view(&self) -> TreeV
        decreases self,
    {
        match self {
            UseTree::Leaf { path, glob } => TreeV::Leaf {
                path: match path {
                    Some(p) => Some(p@),
                    None => None,
                },
                glob: *glob,
            },
            UseTree::Group { path, root, children } => TreeV::Group {
                path: match path {
                    Some(p) => Some(p@),
                    None => None,
                },
                root: *root,
                children: trees_view(children@),
            },
        }
    }
}

/// A list of tree views is as long as the list of trees.
pub proof fn lemma_trees_view_len_rec(s: Seq<UseTree>)
    ensures
        trees_view(s).len() == s.len(),
    decreases s,
{
    reveal_with_fuel(trees_view, 2);
    if s.len() > 0 {
        lemma_trees_view_len_rec(s.drop_last());
    }
}

/// Each position of a list of tree views holds the view of the tree there.
pub proof fn lemma_trees_view_index_rec(s: Seq<UseTree>, i: int)
    requires
        0 <= i < s.len(),
    ensures
        trees_view(s)[i] == s[i]@,
    decreases s,
{
    reveal_with_fuel(trees_view, 2);
    lemma_trees_view_len_rec(s.drop_last());
    if s.len() > 0 && i < s.len() - 1 {
        lemma_trees_view_index_rec(s.drop_last(), i);
    }
}

/// A list of tree views is as long as the list of trees.
pub broadcast proof fn lemma_trees_view_len(s: Seq<UseTree>)
    ensures
        (#[trigger] trees_view(s)).len() == s.len(),
{
    lemma_trees_view_len_rec(s);
}

/// Each position of a list of tree views holds the view of the tree there.
pub broadcast proof fn lemma_trees_view_index(s: Seq<UseTree>, i: int)
    requires
        0 <= i < s.len(),
    ensures
        #[trigger] trees_view(s)[i] == s[i]@,
{
    lemma_trees_view_index_rec(s, i);
}

/// The facts a caller needs about [`trees_view`].
pub broadcast group group_trees_view {
    lemma_trees_view_len,
    lemma_trees_view_index,
}

impl Segment {
    /// An independent deep copy.
    pub fn deep_copy(&self) -> (r: Segment)
        ensures
            r@ == self@,
    {
        match self {
            Segment::Ident(t) => Segment::Ident(copy_bytes(t)),
            Segment::SelfSeg => Segment::SelfSeg,
            Segment::Marker(t) => Segment::Marker(copy_bytes(t)),
        }
    }
}

/// An independent copy of a byte string.
pub fn copy_bytes(v: &Vec<u8>) -> (r: Vec<u8>)
    ensures
        r@ == v@,
{
    let mut out: Vec<u8> = Vec::new();
    let mut i: usize = 0;
    while i < v.len()
        invariant
            i <= v.len(),
            out@ =~= v@.take(i as int),
        decreases v.len() - i,
    {
        out.push(v[i]);
        i = i + 1;
    }
    proof {
        assert(out@ =~= v@);
    }
    out
}

impl Path {
    /// A new path made of the segment run `from..to` of this one, under the
    /// given root flag.
    pub fn sub_path(&self, from: usize, to: usize, root: bool) -> (r: Path)
        requires
            from <= to <= self.segments@.len(),
        ensures
            r@.root == root,
            r@.segments == self@.segments.subrange(from as int, to as int),
    {
        let mut segs: Vec<Segment> = Vec::new();
        let mut i: usize = from;
        while i < to
            invariant
                from <= i <= to <= self.segments@.len(),
                segs@.len() == i - from,
                forall|j: int| 0 <= j < segs@.len() ==> segs@[j]@ == self.segments@[from + j]@,
            decreases to - i,
        {
            segs.push(self.segments[i].deep_copy());
            i = i + 1;
        }
        let r = Path { root, segments: segs };
        proof {
            assert(r@.segments =~= self@.segments.subrange(from as int, to as int));
        }
        r
    }

    /// An independent deep copy.
    pub fn deep_copy(&self) -> (r: Path)
        ensures
            r@ == self@,
    {
        let r = self.sub_path(0, self.segments.len(), self.root);
        proof {
            assert(self@.segments.subrange(0, self.segments@.len() as int) =~= self@.segments);
        }
        r
    }
}

/// An independent deep copy of an optional path.
pub fn copy_opt_path(p: &Option<Path>) -> (r: Option<Path>)
    ensures
        match r {
            Some(q) => p matches Some(orig) && q@ == orig@,
            None => p is None,
        },
{
    match p {
        Some(q) => Some(q.deep_copy()),
        None => None,
    }
}

impl UseTree {
    /// The node's own path, if any.
    pub fn path(&self) -> (r: Option<&Path>)
        ensures
            match r {
                Some(p) => self@.path_of() == Some(p@),
                None => self@.path_of() is None,
            },
    {
        match self {
            UseTree::Leaf { path, .. } => path.as_ref(),
            UseTree::Group { path, .. } => path.as_ref(),
        }
    }

    /// Whether the node is a braced group.
    pub fn has_tree_list(&self) -> (r: bool)
        ensures
            r == self@.is_group(),
    {
        matches!(self, UseTree::Group { .. })
    }

    /// Whether the node is a glob import.
    pub fn is_glob(&self) -> (r: bool)
        ensures
            r == self@.is_glob(),
    {
        matches!(self, UseTree::Leaf { glob: true, .. })
    }

    /// A simple tree: a plain path and nothing else.
    pub fn is_simple_path(&self) -> (r: bool)
        ensures
            r == self@.is_simple_path(),
    {
        matches!(self, UseTree::Leaf { path: Some(_), glob: false })
    }

    /// Whether the node carries a leading root qualifier.
    pub fn has_leading_root(&self) -> (r: bool)
        ensures
            r == self@.has_leading_root(),
    {
        match self {
            UseTree::Leaf { path, .. } => match path {
                Some(p) => p.root,
                None => false,
            },
            UseTree::Group { path, root, .. } => match path {
                Some(p) => p.root,
                None => *root,
            },
        }
    }

    /// An independent deep copy.
    #[verifier::loop_isolation(false)]
    pub fn deep_copy(&self) -> (r: UseTree)
        ensures
            r@ == self@,
        decreases self,
    {
        broadcast use group_trees_view;

        match self {
            UseTree::Leaf { path, glob } => UseTree::Leaf { path: copy_opt_path(path), glob: *glob },
            UseTree::Group { path, root, children } => {
                let mut out: Vec<UseTree> = Vec::new();
                let mut i: usize = 0;
                while i < children.len()
                    invariant
                        i <= children.len(),
                        out@.len() == i,
                        forall|j: int| 0 <= j < i ==> out@[j]@ == children@[j]@,
                    decreases children.len() - i,
                {
                    proof {
                        assert(decreases_to!(*self => *children));
                        assert(decreases_to!(*children => children[i as int]));
                    }
                    out.push(children[i].deep_copy());
                    i = i + 1;
                }
                let ghost outv = out@;
                let r = UseTree::Group { path: copy_opt_path(path), root: *root, children: out };
                proof {
                    assert(r@->Group_children == trees_view(outv));
                    assert(self@->Group_children == trees_view(children@));
                    assert(outv.len() == children@.len());
                    assert(r@->Group_children =~= self@->Group_children);
                    assert(r@ =~~= self@);
                }
                r
            },
        }
    }
}

/// An independent deep copy of a list of trees.
pub fn copy_trees(v: &Vec<UseTree>) -> (r: Vec<UseTree>)
    ensures
        r@.len() == v@.len(),
        forall|j: int| 0 <= j < v@.len() ==> r@[j]@ == v@[j]@,
{
    broadcast use group_trees_view;

    let mut out: Vec<UseTree> = Vec::new();
    let mut i: usize = 0;
    while i < v.len()
        invariant
            i <= v.len(),
            out@.len() == i,
            forall|j: int| 0 <= j < i ==> out@[j]@ == v@[j]@,
        decreases v.len() - i,
    {
        out.push(v[i].deep_copy());
        i = i + 1;
    }
    out
}

/// A visibility qualifier: plain `pub`, or `pub` restricted to a path.
#[derive(Debug, Clone, PartialEq, Eq)]
pub enum Visibility {
    Public,
    Restricted(Path),
}

/// The view of a [`Visibility`].
#[verifier::ext_equal]
pub enum VisV {
    Public,
    Restricted(PathV),
}

impl View for Visibility {
    type V = VisV;

    open spec fn view(&self) -> VisV {
        match self {
            Visibility::Public => VisV::Public,
            Visibility::Restricted(p) => VisV::Restricted(p@),
        }
    }
}

/// One attribute of a declaration, kept as its raw text.
#[derive(Debug, Clone, PartialEq, Eq)]
pub struct Attr {
    pub text: Vec<u8>,
}

impl View for Attr {
    type V = Seq<u8>;

    open spec fn view(&self) -> Seq<u8> {
        self.text@
    }
}

/// A whole use declaration: one tree plus its visibility (`None` for an
/// unqualified, private declaration) and its attributes in source order.
#[derive(Debug, PartialEq, Eq)]
pub struct UseDecl {
    pub vis: Option<Visibility>,
    pub attrs: Vec<Attr>,
    pub tree: Option<UseTree>,
}

/// The view of a [`UseDecl`].
#[verifier::ext_equal]
pub struct DeclV {
    pub vis: Option<VisV>,
    pub attrs: Seq<Seq<u8>>,
    pub tree: Option<TreeV>,
}

impl View for UseDecl {
    type V = DeclV;

    open spec fn view(&self) -> DeclV {
        DeclV {
            vis: match self.vis {
                Some(v) => Some(v@),
                None => None,
            },
            attrs: self.attrs@.map(|i: int, a: Attr| a@),
            tree: match self.tree {
                Some(t) => Some(t@),
                None => None,
            },
        }
    }
}

impl TreeV {
    /// The children of a node: a group's list, and nothing for a leaf.
    pub open spec fn children_or_empty(self) -> Seq<TreeV> {
        match self {
            TreeV::Group { children, .. } => children,
            TreeV::Leaf { .. } => Seq::empty(),
        }
    }

    /// The node's own path, if any.
    pub open spec fn path_of(self) -> Option<PathV> {
        match self {
            TreeV::Leaf { path, .. } => path,
            TreeV::Group { path, .. } => path,
        }
    }

    /// Whether the node is a braced group.
    pub open spec fn is_group(self) -> bool {
        self is Group
    }

    /// Whether the node is a glob import.
    pub open spec fn is_glob(self) -> bool {
        self matches TreeV::Leaf { glob: true, .. }
    }

    /// A simple tree: a plain path and nothing else.
    pub open spec fn is_simple_path(self) -> bool {
        self matches TreeV::Leaf { path: Some(_), glob: false }
    }

    /// Whether the node carries a leading root qualifier, on its path or, for
    /// the path-less `::{...}` form, on the node itself.
    pub open spec fn has_leading_root(self) -> bool {
        match self {
            TreeV::Leaf { path, .. } => path matches Some(p) && p.root,
            TreeV::Group { path, root, .. } => match path {
                Some(p) => p.root,
                None => root,
            },
        }
    }
}

} // verus!
