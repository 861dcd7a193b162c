//! The symbol grammar and the arena that holds its nodes.
//!
//! Every tree node lives in one append-only arena and is addressed by its
//! index.  Nodes are immutable once constructed and may be shared by many
//! parents: a parent stores the index of each child, and reusing a node means
//! storing its index again.  A node's children always have smaller indices
//! than the node itself, so every tree bottoms out and recursion over the
//! arena terminates.

use vstd::prelude::*;

verus! {

/// The hierarchical, crate/module/impl-qualified portion of a symbol's name,
/// exclusive of generic arguments.  Child fields are arena indices.
#[derive(Debug, Clone, PartialEq, Eq)]
pub enum PathPrefix {
    /// A crate root: a leaf, opaque to the expansion rules.
    CrateId { name: String },
    /// An `impl` of a trait (if present) for a self type, with a
    /// disambiguator that tells otherwise-identical impls apart.
    TraitImpl { self_type: usize, impled_trait: Option<usize>, dis: u64 },
    /// One path segment appended to a parent prefix.
    Node { prefix: usize, ident: String },
    /// A numbered back-reference to a previously expanded prefix.
    Subst(usize),
}

/// A full absolute path: a prefix together with its generic arguments.
#[derive(Debug, Clone, PartialEq, Eq)]
pub enum AbsolutePath {
    /// `name` is the index of a prefix node; `args` are indices of type nodes,
    /// in order.  The list may be empty.
    Path { name: usize, args: Vec<usize> },
    /// A numbered back-reference, resolvable as a full path or, failing that,
    /// as a bare prefix reinterpreted as a zero-argument path.
    Subst(usize),
}

/// A type expression.  Child fields are arena indices.
#[derive(Debug, Clone, PartialEq, Eq)]
pub enum Type {
    /// A primitive type: a leaf, named by its token.
    BasicType(String),
    /// A shared reference `&T`.
    Ref(usize),
    /// A mutable reference `&mut T`.
    RefMut(usize),
    /// A raw pointer `*const T`.
    RawPtrConst(usize),
    /// A raw pointer `*mut T`.
    RawPtrMut(usize),
    /// An array, with its size token carried through unchanged.
    Array(Option<u64>, usize),
    /// A tuple of types, in order.
    Tuple(Vec<usize>),
    /// A type named by an absolute path.
    Named(usize),
    /// A function type: parameters in order, then an optional return type.
    Fn { is_unsafe: bool, abi: u64, return_type: Option<usize>, params: Vec<usize> },
    /// A reference to a generic parameter in scope: a leaf.
    GenericParam(u64),
    /// A numbered back-reference, resolvable as a type, as an absolute path
    /// wrapped in `Named`, or as a prefix wrapped in a zero-argument path.
    Subst(usize),
}

/// One arena slot: a node of one of the three grammar categories.
#[derive(Debug, Clone, PartialEq, Eq)]
pub enum AstNode {
    Prefix(PathPrefix),
    Path(AbsolutePath),
    Ty(Type),
}

/// The root of every decompression: an absolute path, and optionally the
/// prefix of the crate the symbol was instantiated in.  Both are arena
/// indices.
#[derive(Debug, Clone, Copy, PartialEq, Eq)]
pub struct Symbol {
    pub name: usize,
    pub instantiating_crate: Option<usize>,
}

/// Mathematical image of an `AbsolutePath`: the argument vector becomes a
/// sequence.
pub enum PathView {
    Path { name: usize, args: Seq<usize> },
    Subst(usize),
}

/// Mathematical image of a `Type`: the component vectors become sequences.
pub enum TypeView {
    BasicType(String),
    Ref(usize),
    RefMut(usize),
    RawPtrConst(usize),
    RawPtrMut(usize),
    Array(Option<u64>, usize),
    Tuple(Seq<usize>),
    Named(usize),
    Fn { is_unsafe: bool, abi: u64, return_type: Option<usize>, params: Seq<usize> },
    GenericParam(u64),
    Subst(usize),
}

/// Mathematical image of one arena slot.
pub enum NodeView {
    Prefix(PathPrefix),
    Path(PathView),
    Ty(TypeView),
}

impl View for AbsolutePath {
    type V = PathView;

    open spec fn view(&self) -> PathView {
        match self {
            AbsolutePath::Path { name, args } => PathView::Path { name: *name, args: args@ },
            AbsolutePath::Subst(id) => PathView::Subst(*id),
        }
    }
}

impl View for Type {
    type V = TypeView;

    open spec fn view(&self) -> TypeView {
        match self {
            Type::BasicType(t) => TypeView::BasicType(*t),
            Type::Ref(x) => TypeView::Ref(*x),
            Type::RefMut(x) => TypeView::RefMut(*x),
            Type::RawPtrConst(x) => TypeView::RawPtrConst(*x),
            Type::RawPtrMut(x) => TypeView::RawPtrMut(*x),
            Type::Array(sz, x) => TypeView::Array(*sz, *x),
            Type::Tuple(c) => TypeView::Tuple(c@),
            Type::Named(p) => TypeView::Named(*p),
            Type::Fn { is_unsafe, abi, return_type, params } => (TypeView::Fn {
                is_unsafe: *is_unsafe,
                abi: *abi,
                return_type: *return_type,
                params: params@,
            }),
            Type::GenericParam(g) => TypeView::GenericParam(*g),
            Type::Subst(id) => TypeView::Subst(*id),
        }
    }
}

impl View for AstNode {
    type V = NodeView;

    open spec fn view(&self) -> NodeView {
        match self {
            AstNode::Prefix(p) => NodeView::Prefix(*p),
            AstNode::Path(p) => NodeView::Path(p@),
            AstNode::Ty(t) => NodeView::Ty(t@),
        }
    }
}

/// `i` is the index of a path-prefix node.
pub open spec fn is_prefix_at(ns: Seq<NodeView>, i: int) -> bool {
    0 <= i < ns.len() && ns[i] is Prefix
}

/// `i` is the index of an absolute-path node.
pub open spec fn is_path_at(ns: Seq<NodeView>, i: int) -> bool {
    0 <= i < ns.len() && ns[i] is Path
}

/// `i` is the index of a type node.
pub open spec fn is_ty_at(ns: Seq<NodeView>, i: int) -> bool {
    0 <= i < ns.len() && ns[i] is Ty
}

/// Every index in `ids` is a type node below the bound `b`.
pub open spec fn args_wf(ns: Seq<NodeView>, ids: Seq<usize>, b: int) -> bool {
    forall|k: int| 0 <= k < ids.len() ==> ids[k] < b && is_ty_at(ns, #[trigger] ids[k] as int)
}

/// The node `n` may stand at index `b`: each child is an already present
/// node, below `b`, of the category its field requires.
pub open spec fn node_wf(ns: Seq<NodeView>, b: int, n: NodeView) -> bool {
    match n {
        NodeView::Prefix(p) => match p {
            PathPrefix::CrateId { .. } => true,
            PathPrefix::TraitImpl { self_type, impled_trait, .. } => {
                &&& self_type < b
                &&& is_ty_at(ns, self_type as int)
                &&& match impled_trait {
                    Some(t) => t < b && is_path_at(ns, t as int),
                    None => true,
                }
            },
            PathPrefix::Node { prefix, .. } => prefix < b && is_prefix_at(ns, prefix as int),
            PathPrefix::Subst(_) => true,
        },
        NodeView::Path(p) => match p {
            PathView::Path { name, args } => {
                name < b && is_prefix_at(ns, name as int) && args_wf(ns, args, b)
            },
            PathView::Subst(_) => true,
        },
        NodeView::Ty(t) => match t {
            TypeView::BasicType(_) => true,
            TypeView::Ref(x) => x < b && is_ty_at(ns, x as int),
            TypeView::RefMut(x) => x < b && is_ty_at(ns, x as int),
            TypeView::RawPtrConst(x) => x < b && is_ty_at(ns, x as int),
            TypeView::RawPtrMut(x) => x < b && is_ty_at(ns, x as int),
            TypeView::Array(_, x) => x < b && is_ty_at(ns, x as int),
            TypeView::Tuple(c) => args_wf(ns, c, b),
            TypeView::Named(p) => p < b && is_path_at(ns, p as int),
            TypeView::Fn { return_type, params, .. } => {
                &&& match return_type {
                    Some(rt) => rt < b && is_ty_at(ns, rt as int),
                    None => true,
                }
                &&& args_wf(ns, params, b)
            },
            TypeView::GenericParam(_) => true,
            TypeView::Subst(_) => true,
        },
    }
}

/// Every node's children stand before it: the arena is a forest of finite
/// trees.
pub open spec fn arena_wf(ns: Seq<NodeView>) -> bool {
    forall|i: int| 0 <= i < ns.len() ==> node_wf(ns, i, #[trigger] ns[i])
}

/// `b` holds everything `a` holds, at the same indices, and possibly more.
pub open spec fn extends<T>(a: Seq<T>, b: Seq<T>) -> bool {
    a.len() <= b.len() && forall|j: int| 0 <= j < a.len() ==> a[j] == b[j]
}

/// The tree rooted at `i` holds no `Subst` node at any depth.
pub open spec fn expanded(ns: Seq<NodeView>, i: int) -> bool
    decreases i, 1int, 0int,
{
    0 <= i < ns.len() && match ns[i] {
        NodeView::Prefix(p) => match p {
            PathPrefix::CrateId { .. } => true,
            PathPrefix::TraitImpl { self_type, impled_trait, .. } => {
                &&& self_type < i
                &&& expanded(ns, self_type as int)
                &&& match impled_trait {
                    Some(t) => t < i && expanded(ns, t as int),
                    None => true,
                }
            },
            PathPrefix::Node { prefix, .. } => prefix < i && expanded(ns, prefix as int),
            PathPrefix::Subst(_) => false,
        },
        NodeView::Path(p) => match p {
            PathView::Path { name, args } => {
                name < i && expanded(ns, name as int) && all_expanded(ns, args, i)
            },
            PathView::Subst(_) => false,
        },
        NodeView::Ty(t) => match t {
            TypeView::BasicType(_) => true,
            TypeView::Ref(x) => x < i && expanded(ns, x as int),
            TypeView::RefMut(x) => x < i && expanded(ns, x as int),
            TypeView::RawPtrConst(x) => x < i && expanded(ns, x as int),
            TypeView::RawPtrMut(x) => x < i && expanded(ns, x as int),
            TypeView::Array(_, x) => x < i && expanded(ns, x as int),
            TypeView::Tuple(c) => all_expanded(ns, c, i),
            TypeView::Named(p) => p < i && expanded(ns, p as int),
            TypeView::Fn { return_type, params, .. } => {
                &&& match return_type {
                    Some(rt) => rt < i && expanded(ns, rt as int),
                    None => true,
                }
                &&& all_expanded(ns, params, i)
            },
            TypeView::GenericParam(_) => true,
            TypeView::Subst(_) => false,
        },
    }
}

/// Every tree rooted in `ids` is free of `Subst` nodes; all roots lie below
/// `b`.
pub open spec fn all_expanded(ns: Seq<NodeView>, ids: Seq<usize>, b: int) -> bool
    decreases b, 0int, ids.len(),
{
    ids.len() == 0 || {
        &&& ids[0] < b
        &&& expanded(ns, ids[0] as int)
        &&& all_expanded(ns, ids.drop_first(), b)
    }
}

/// Growing the arena never invalidates a node that was well formed in it.
pub proof fn lemma_node_wf_extend(ns1: Seq<NodeView>, ns2: Seq<NodeView>, b: int, n: NodeView)
    requires
        extends(ns1, ns2),
        b <= ns1.len(),
        node_wf(ns1, b, n),
    ensures
        node_wf(ns2, b, n),
{
    assert forall|j: int| 0 <= j < ns1.len() implies ns2[j] == ns1[j] by {}
}

/// Growing the arena never introduces a `Subst` into an existing tree.
pub proof fn lemma_expanded_extend(ns1: Seq<NodeView>, ns2: Seq<NodeView>, i: int)
    requires
        extends(ns1, ns2),
        expanded(ns1, i),
    ensures
        expanded(ns2, i),
    decreases i, 1int, 0int,
{
    assert(ns2[i] == ns1[i]);
    match ns1[i] {
        NodeView::Prefix(p) => match p {
            PathPrefix::CrateId { .. } => {},
            PathPrefix::TraitImpl { self_type, impled_trait, .. } => {
                lemma_expanded_extend(ns1, ns2, self_type as int);
                match impled_trait {
                    Some(t) => lemma_expanded_extend(ns1, ns2, t as int),
                    None => {},
                }
            },
            PathPrefix::Node { prefix, .. } => lemma_expanded_extend(ns1, ns2, prefix as int),
            PathPrefix::Subst(_) => {},
        },
        NodeView::Path(p) => match p {
            PathView::Path { name, args } => {
                lemma_expanded_extend(ns1, ns2, name as int);
                lemma_all_expanded_extend(ns1, ns2, args, i);
            },
            PathView::Subst(_) => {},
        },
        NodeView::Ty(t) => match t {
            TypeView::BasicType(_) => {},
            TypeView::Ref(x) => lemma_expanded_extend(ns1, ns2, x as int),
            TypeView::RefMut(x) => lemma_expanded_extend(ns1, ns2, x as int),
            TypeView::RawPtrConst(x) => lemma_expanded_extend(ns1, ns2, x as int),
            TypeView::RawPtrMut(x) => lemma_expanded_extend(ns1, ns2, x as int),
            TypeView::Array(_, x) => lemma_expanded_extend(ns1, ns2, x as int),
            TypeView::Tuple(c) => lemma_all_expanded_extend(ns1, ns2, c, i),
            TypeView::Named(p) => lemma_expanded_extend(ns1, ns2, p as int),
            TypeView::Fn { return_type, params, .. } => {
                match return_type {
                    Some(rt) => lemma_expanded_extend(ns1, ns2, rt as int),
                    None => {},
                }
                lemma_all_expanded_extend(ns1, ns2, params, i);
            },
            TypeView::GenericParam(_) => {},
            TypeView::Subst(_) => {},
        },
    }
}

/// Extension is transitive.
pub proof fn lemma_extends_trans<T>(a: Seq<T>, b: Seq<T>, c: Seq<T>)
    requires
        extends(a, b),
        extends(b, c),
    ensures
        extends(a, c),
{
    assert forall|j: int| 0 <= j < a.len() implies a[j] == c[j] by {
        assert(a[j] == b[j]);
        assert(b[j] == c[j]);
    }
}

/// A list is `all_expanded` as soon as each of its elements is expanded and
/// below the bound.
pub proof fn lemma_all_expanded_from_pointwise(ns: Seq<NodeView>, ids: Seq<usize>, b: int)
    requires
        forall|k: int| 0 <= k < ids.len() ==> ids[k] < b && expanded(ns, #[trigger] ids[k] as int),
    ensures
        all_expanded(ns, ids, b),
    decreases ids.len(),
{
    if ids.len() > 0 {
        assert forall|k: int| 0 <= k < ids.drop_first().len() implies ids.drop_first()[k] < b
            && expanded(ns, #[trigger] ids.drop_first()[k] as int) by {
            assert(ids.drop_first()[k] == ids[k + 1]);
        }
        lemma_all_expanded_from_pointwise(ns, ids.drop_first(), b);
    }
}

/// List form of `lemma_expanded_extend`.
pub proof fn lemma_all_expanded_extend(ns1: Seq<NodeView>, ns2: Seq<NodeView>, ids: Seq<usize>, b: int)
    requires
        extends(ns1, ns2),
        all_expanded(ns1, ids, b),
    ensures
        all_expanded(ns2, ids, b),
    decreases b, 0int, ids.len(),
{
    if ids.len() > 0 {
        lemma_expanded_extend(ns1, ns2, ids[0] as int);
        lemma_all_expanded_extend(ns1, ns2, ids.drop_first(), b);
    }
}

/// The append-only store of tree nodes.  Compressed input trees and their
/// expansions live side by side in it; nothing is ever removed or mutated.
#[derive(Debug, Clone, PartialEq, Eq)]
pub struct Arena {
    nodes: Vec<AstNode>,
}

impl View for Arena {
    type V = Seq<NodeView>;

    closed spec fn view(&self) -> Seq<NodeView> {
        self.nodes@.map_values(|n: AstNode| n@)
    }
}

impl Arena {
    /// An arena with no nodes.
    pub fn new() -> (a: Arena)
        ensures
            a@ == Seq::<NodeView>::empty(),
    {
        let a = Arena { nodes: Vec::new() };
        proof {
            assert(a@ =~= Seq::<NodeView>::empty());
        }
        a
    }

    /// The number of nodes held.
    pub fn len(&self) -> (n: usize)
        ensures
            n == self@.len(),
    {
        self.nodes.len()
    }

    /// The node at index `i`.
    pub fn node(&self, i: usize) -> (n: &AstNode)
        requires
            i < self@.len(),
        ensures
            n@ == self@[i as int],
    {
        &self.nodes[i]
    }

    /// Appends a node whose children are already present, and returns its
    /// index.
    pub fn append(&mut self, n: AstNode) -> (i: usize)
        requires
            node_wf(old(self)@, old(self)@.len() as int, n@),
        ensures
            i == old(self)@.len(),
            final(self)@ == old(self)@.push(n@),
            arena_wf(old(self)@) ==> arena_wf(final(self)@),
    {
        let ghost pre = self@;
        let i = self.nodes.len();
        self.nodes.push(n);
        proof {
            assert(self@ =~= pre.push(n@));
            if arena_wf(pre) {
                assert forall|j: int| 0 <= j < self@.len() implies node_wf(
                    self@,
                    j,
                    #[trigger] self@[j],
                ) by {
                    assert(extends(pre, self@));
                    if j < pre.len() {
                        lemma_node_wf_extend(pre, self@, j, pre[j]);
                    } else {
                        lemma_node_wf_extend(pre, self@, j, n@);
                    }
                }
            }
        }
        i
    }
}

} // verus!
