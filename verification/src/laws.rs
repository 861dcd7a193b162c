//! The properties the expansion rules guarantee, each proved against the
//! rules in [`crate::model`].
//!
//! The executable decompressor is proved equal to those rules, so each law
//! stated here carries over to it verbatim.  Freedom from residual `Subst`
//! nodes is stated directly on the decompressor: see the `expanded`
//! postconditions of [`crate::decompress::decompress_ext`].

use vstd::prelude::*;

use crate::ast::{arena_wf, is_ty_at, node_wf, NodeView, PathPrefix, PathView, Symbol, TypeView};
use crate::model::{
    dec_abs_path, dec_prefix, dec_symbol, dec_type, dec_type_list, fresh_id, push_node, push_tab,
    DecState, TableEntry,
};

verus! {

/// The tree rooted at `i` is one that expansion leaves alone: it holds no
/// `Subst` at any depth, and no `TraitImpl` — a `TraitImpl` is constructed
/// afresh even when its children are unchanged.
pub open spec fn untouched(ns: Seq<NodeView>, i: int) -> bool
    decreases i, 1int, 0int,
{
    0 <= i < ns.len() && match ns[i] {
        NodeView::Prefix(p) => match p {
            PathPrefix::CrateId { .. } => true,
            PathPrefix::TraitImpl { .. } => false,
            PathPrefix::Node { prefix, .. } => prefix < i && untouched(ns, prefix as int),
            PathPrefix::Subst(_) => false,
        },
        NodeView::Path(p) => match p {
            PathView::Path { name, args } => {
                name < i && untouched(ns, name as int) && all_untouched(ns, args, i)
            },
            PathView::Subst(_) => false,
        },
        NodeView::Ty(t) => match t {
            TypeView::BasicType(_) => true,
            TypeView::Ref(x) => x < i && untouched(ns, x as int),
            TypeView::RefMut(x) => x < i && untouched(ns, x as int),
            TypeView::RawPtrConst(x) => x < i && untouched(ns, x as int),
            TypeView::RawPtrMut(x) => x < i && untouched(ns, x as int),
            TypeView::Array(_, x) => x < i && untouched(ns, x as int),
            TypeView::Tuple(c) => all_untouched(ns, c, i),
            TypeView::Named(p) => p < i && untouched(ns, p as int),
            TypeView::Fn { return_type, params, .. } => {
                &&& match return_type {
                    Some(rt) => rt < i && untouched(ns, rt as int),
                    None => true,
                }
                &&& all_untouched(ns, params, i)
            },
            TypeView::GenericParam(_) => true,
            TypeView::Subst(_) => false,
        },
    }
}

/// List form of `untouched`.
pub open spec fn all_untouched(ns: Seq<NodeView>, ids: Seq<usize>, b: int) -> bool
    decreases b, 0int, ids.len(),
{
    ids.len() == 0 || {
        &&& ids[0] < b
        &&& untouched(ns, ids[0] as int)
        &&& all_untouched(ns, ids.drop_first(), b)
    }
}

/// Each element of an `all_untouched` list is untouched and below the
/// bound.
pub proof fn lemma_all_untouched_to_pointwise(ns: Seq<NodeView>, ids: Seq<usize>, b: int)
    requires
        all_untouched(ns, ids, b),
    ensures
        forall|k: int| 0 <= k < ids.len() ==> ids[k] < b && untouched(
            ns,
            #[trigger] ids[k] as int,
        ),
    decreases ids.len(),
{
    if ids.len() > 0 {
        lemma_all_untouched_to_pointwise(ns, ids.drop_first(), b);
        assert forall|k: int| 0 <= k < ids.len() implies ids[k] < b && untouched(
            ns,
            #[trigger] ids[k] as int,
        ) by {
            if k > 0 {
                assert(ids.drop_first()[k - 1] == ids[k]);
            }
        }
    }
}

/// The structural-sharing invariant of the data model: a prefix whose tree
/// expansion leaves alone is returned as the very same node, and no new
/// node is built anywhere beneath it — only table entries are allocated.
pub proof fn lemma_untouched_prefix_identity(s: DecState, i: usize)
    requires
        arena_wf(s.nodes),
        i < s.nodes.len(),
        s.nodes[i as int] is Prefix,
        untouched(s.nodes, i as int),
    ensures
        dec_prefix(s, i) matches Result::Ok(pr) && pr.1 == i && pr.0.nodes == s.nodes,
    decreases i, 1int, 0int,
{
    assert(node_wf(s.nodes, i as int, s.nodes[i as int]));
    match s.nodes[i as int]->Prefix_0 {
        PathPrefix::CrateId { .. } => {},
        PathPrefix::TraitImpl { .. } => {},
        PathPrefix::Node { prefix, .. } => {
            lemma_untouched_prefix_identity(s, prefix);
        },
        PathPrefix::Subst(_) => {},
    }
}

/// `lemma_untouched_prefix_identity` for absolute paths.
pub proof fn lemma_untouched_path_identity(s: DecState, i: usize)
    requires
        arena_wf(s.nodes),
        i < s.nodes.len(),
        s.nodes[i as int] is Path,
        untouched(s.nodes, i as int),
    ensures
        dec_abs_path(s, i) matches Result::Ok(pr) && pr.1 == i && pr.0.nodes == s.nodes,
    decreases i, 1int, 0int,
{
    assert(node_wf(s.nodes, i as int, s.nodes[i as int]));
    match s.nodes[i as int]->Path_0 {
        PathView::Path { name, args } => {
            lemma_untouched_prefix_identity(s, name);
            match dec_prefix(s, name) {
                Result::Ok(p) => {
                    lemma_all_untouched_to_pointwise(s.nodes, args, i as int);
                    lemma_untouched_list_identity(p.0, args, i);
                },
                Result::Err(_) => {},
            }
        },
        PathView::Subst(_) => {},
    }
}

/// `lemma_untouched_prefix_identity` for types.
pub proof fn lemma_untouched_type_identity(s: DecState, i: usize)
    requires
        arena_wf(s.nodes),
        i < s.nodes.len(),
        s.nodes[i as int] is Ty,
        untouched(s.nodes, i as int),
    ensures
        dec_type(s, i) matches Result::Ok(pr) && pr.1 == i && pr.0.nodes == s.nodes,
    decreases i, 1int, 0int,
{
    assert(node_wf(s.nodes, i as int, s.nodes[i as int]));
    match s.nodes[i as int]->Ty_0 {
        TypeView::BasicType(_) => {},
        TypeView::Ref(x) => {
            lemma_untouched_type_identity(s, x);
        },
        TypeView::RefMut(x) => {
            lemma_untouched_type_identity(s, x);
        },
        TypeView::RawPtrConst(x) => {
            lemma_untouched_type_identity(s, x);
        },
        TypeView::RawPtrMut(x) => {
            lemma_untouched_type_identity(s, x);
        },
        TypeView::Array(_, x) => {
            lemma_untouched_type_identity(s, x);
        },
        TypeView::Tuple(c) => {
            lemma_all_untouched_to_pointwise(s.nodes, c, i as int);
            lemma_untouched_list_identity(s, c, i);
        },
        TypeView::Named(p) => {
            lemma_untouched_path_identity(s, p);
        },
        TypeView::Fn { return_type, params, .. } => {
            lemma_all_untouched_to_pointwise(s.nodes, params, i as int);
            lemma_untouched_list_identity(s, params, i);
            match dec_type_list(s, params, i) {
                Result::Ok(p) => {
                    match return_type {
                        Some(rt) => {
                            lemma_untouched_type_identity(p.0, rt);
                        },
                        None => {},
                    }
                },
                Result::Err(_) => {},
            }
        },
        TypeView::GenericParam(_) => {},
        TypeView::Subst(_) => {},
    }
}

/// `lemma_untouched_prefix_identity` for type lists: an untouched list
/// comes back elementwise identical, with the arena unchanged.
pub proof fn lemma_untouched_list_identity(s: DecState, ids: Seq<usize>, b: usize)
    requires
        arena_wf(s.nodes),
        forall|k: int| 0 <= k < ids.len() ==> ids[k] < b && is_ty_at(
            s.nodes,
            #[trigger] ids[k] as int,
        ) && untouched(s.nodes, ids[k] as int),
    ensures
        dec_type_list(s, ids, b) matches Result::Ok(pr) && pr.1 == ids && pr.0.nodes == s.nodes,
    decreases b, 0int, ids.len(),
{
    if ids.len() == 0 {
    } else {
        lemma_untouched_type_identity(s, ids[0]);
        match dec_type(s, ids[0]) {
            Result::Ok(p) => {
                assert forall|k: int| 0 <= k < ids.drop_first().len() implies
                    ids.drop_first()[k] < b && is_ty_at(
                    p.0.nodes,
                    #[trigger] ids.drop_first()[k] as int,
                ) && untouched(p.0.nodes, ids.drop_first()[k] as int) by {
                    assert(ids.drop_first()[k] == ids[k + 1]);
                }
                lemma_untouched_list_identity(p.0, ids.drop_first(), b);
                assert(seq![ids[0]] + ids.drop_first() =~= ids);
            },
            Result::Err(_) => {},
        }
    }
}

/// Expansion is deterministic: the rules are one mathematical function, so
/// expanding the same compressed symbol from equal states — in particular,
/// from fresh tables — yields equal expanded symbols and identical
/// substitution-id assignments.
pub proof fn lemma_expansion_deterministic(s1: DecState, s2: DecState, sym1: Symbol, sym2: Symbol)
    requires
        s1 == s2,
        sym1 == sym2,
    ensures
        dec_symbol(s1, sym1) == dec_symbol(s2, sym2),
{
}

/// A `BasicType` is returned unchanged and no table entry is created for
/// it: the whole state is left as it was.
pub proof fn lemma_basic_type_allocates_nothing(s: DecState, i: usize)
    requires
        i < s.nodes.len(),
        node_wf(s.nodes, i as int, s.nodes[i as int]),
        s.nodes[i as int] is Ty,
        s.nodes[i as int]->Ty_0 is BasicType,
    ensures
        dec_type(s, i) == Result::<(DecState, usize), usize>::Ok(((s), i)),
{
}

/// A `GenericParam` is returned unchanged but still receives exactly one
/// new type-table entry, denoting itself.
pub proof fn lemma_generic_param_allocates_one(s: DecState, i: usize)
    requires
        i < s.nodes.len(),
        node_wf(s.nodes, i as int, s.nodes[i as int]),
        s.nodes[i as int] is Ty,
        s.nodes[i as int]->Ty_0 is GenericParam,
    ensures
        dec_type(s, i) == Result::<(DecState, usize), usize>::Ok(
            ((push_tab(s, TableEntry::Type(i))), i),
        ),
{
}

/// A `CrateId` is returned unchanged but still receives exactly one new
/// prefix-table entry, denoting itself.
pub proof fn lemma_crate_id_allocates_one(s: DecState, i: usize)
    requires
        i < s.nodes.len(),
        node_wf(s.nodes, i as int, s.nodes[i as int]),
        s.nodes[i as int] is Prefix,
        s.nodes[i as int]->Prefix_0 is CrateId,
    ensures
        dec_prefix(s, i) == Result::<(DecState, usize), usize>::Ok(
            ((push_tab(s, TableEntry::Prefix(i))), i),
        ),
{
}

/// The conclusion of the one-entry-per-occurrence laws: on success, the
/// result was allocated exactly one entry of the stated variant, under the
/// newest id.
pub open spec fn registers_type_entry(s: DecState, res: Result<(DecState, usize), usize>) -> bool {
    res matches Result::Ok(pr) ==> {
        &&& pr.0.tabs.len() >= 1
        &&& pr.0.tabs.last() == TableEntry::Type(pr.1)
    }
}

/// Prefix form of `registers_type_entry`.
pub open spec fn registers_prefix_entry(s: DecState, res: Result<(DecState, usize), usize>) -> bool {
    res matches Result::Ok(pr) ==> {
        &&& pr.0.tabs.len() >= 1
        &&& pr.0.tabs.last() == TableEntry::Prefix(pr.1)
    }
}

/// Every allocating type variant — `Ref`, `RefMut`, `RawPtrConst`,
/// `RawPtrMut`, `Array`, `Tuple`, `Fn`, `GenericParam` — creates exactly
/// one type-table entry per occurrence: its result stands under the id the
/// shared counter held after its children were expanded.
pub proof fn lemma_type_alloc_registers_result(s: DecState, i: usize)
    requires
        i < s.nodes.len(),
        node_wf(s.nodes, i as int, s.nodes[i as int]),
        s.nodes[i as int] is Ty,
        !(s.nodes[i as int]->Ty_0 is BasicType),
        !(s.nodes[i as int]->Ty_0 is Named),
        !(s.nodes[i as int]->Ty_0 is Subst),
    ensures
        registers_type_entry(s, dec_type(s, i)),
{
    match s.nodes[i as int]->Ty_0 {
        TypeView::BasicType(_) => {},
        TypeView::Ref(inner) => {
            match dec_type(s, inner) {
                Result::Ok(_) => {},
                Result::Err(_) => {},
            }
        },
        TypeView::RefMut(inner) => {
            match dec_type(s, inner) {
                Result::Ok(_) => {},
                Result::Err(_) => {},
            }
        },
        TypeView::RawPtrConst(inner) => {
            match dec_type(s, inner) {
                Result::Ok(_) => {},
                Result::Err(_) => {},
            }
        },
        TypeView::RawPtrMut(inner) => {
            match dec_type(s, inner) {
                Result::Ok(_) => {},
                Result::Err(_) => {},
            }
        },
        TypeView::Array(_, inner) => {
            match dec_type(s, inner) {
                Result::Ok(_) => {},
                Result::Err(_) => {},
            }
        },
        TypeView::Tuple(comps) => {
            match dec_type_list(s, comps, i) {
                Result::Ok(_) => {},
                Result::Err(_) => {},
            }
        },
        TypeView::Named(_) => {},
        TypeView::Fn { return_type, params, .. } => {
            match dec_type_list(s, params, i) {
                Result::Ok(p) => {
                    match return_type {
                        Some(rt) => {
                            match dec_type(p.0, rt) {
                                Result::Ok(_) => {},
                                Result::Err(_) => {},
                            }
                        },
                        None => {},
                    }
                },
                Result::Err(_) => {},
            }
        },
        TypeView::GenericParam(_) => {},
        TypeView::Subst(_) => {},
    }
}

/// Every non-`Subst` prefix variant creates exactly one prefix-table entry
/// per occurrence, denoting its result.
pub proof fn lemma_prefix_alloc_registers_result(s: DecState, i: usize)
    requires
        i < s.nodes.len(),
        node_wf(s.nodes, i as int, s.nodes[i as int]),
        s.nodes[i as int] is Prefix,
        !(s.nodes[i as int]->Prefix_0 is Subst),
    ensures
        registers_prefix_entry(s, dec_prefix(s, i)),
{
    match s.nodes[i as int]->Prefix_0 {
        PathPrefix::CrateId { .. } => {},
        PathPrefix::TraitImpl { self_type, impled_trait, .. } => {
            match dec_type(s, self_type) {
                Result::Ok(p) => {
                    match impled_trait {
                        Some(t) => {
                            match dec_abs_path(p.0, t) {
                                Result::Ok(_) => {},
                                Result::Err(_) => {},
                            }
                        },
                        None => {},
                    }
                },
                Result::Err(_) => {},
            }
        },
        PathPrefix::Node { prefix, .. } => {
            match dec_prefix(s, prefix) {
                Result::Ok(_) => {},
                Result::Err(_) => {},
            }
        },
        PathPrefix::Subst(_) => {},
    }
}

/// A `Named` type creates no type-table entry of its own: whatever entries
/// exist after it are exactly those its underlying absolute path created.
pub proof fn lemma_named_type_allocates_no_type_entry(s: DecState, i: usize, p: usize)
    requires
        i < s.nodes.len(),
        node_wf(s.nodes, i as int, s.nodes[i as int]),
        s.nodes[i as int] == NodeView::Ty(TypeView::Named(p)),
    ensures
        (dec_type(s, i) is Ok) == (dec_abs_path(s, p) is Ok),
        dec_type(s, i) matches Result::Ok(pr) ==> pr.0.tabs == (dec_abs_path(
            s,
            p,
        )->Ok_0).0.tabs,
{
    match dec_abs_path(s, p) {
        Result::Ok(_) => {},
        Result::Err(_) => {},
    }
}

/// A zero-argument `Path` creates no path-table entry: whatever entries
/// exist after it are exactly those its prefix created.  Such a path is
/// addressed, if at all, through the prefix table.
pub proof fn lemma_zero_arg_path_allocates_no_path_entry(
    s: DecState,
    i: usize,
    name: usize,
    args: Seq<usize>,
)
    requires
        i < s.nodes.len(),
        node_wf(s.nodes, i as int, s.nodes[i as int]),
        s.nodes[i as int] == NodeView::Path(PathView::Path { name, args }),
        args.len() == 0,
    ensures
        (dec_abs_path(s, i) is Ok) == (dec_prefix(s, name) is Ok),
        dec_abs_path(s, i) matches Result::Ok(pr) ==> pr.0.tabs == (dec_prefix(
            s,
            name,
        )->Ok_0).0.tabs,
{
    match dec_prefix(s, name) {
        Result::Ok(p) => {
            assert(dec_type_list(p.0, args, i) == Result::<(DecState, Seq<usize>), usize>::Ok(
                ((p.0), Seq::empty()),
            ));
            assert(args =~= Seq::<usize>::empty());
        },
        Result::Err(_) => {},
    }
}

/// A later `Subst` that resolves through the prefix table synthesizes an
/// equivalent zero-argument `Path` around the stored prefix, as a fresh
/// node, and allocates nothing.
pub proof fn lemma_path_subst_synthesizes_zero_arg_path(s: DecState, i: usize, id: usize, x: usize)
    requires
        i < s.nodes.len(),
        node_wf(s.nodes, i as int, s.nodes[i as int]),
        s.nodes[i as int] == NodeView::Path(PathView::Subst(id)),
        id < s.tabs.len(),
        s.tabs[id as int] == TableEntry::Prefix(x),
    ensures
        dec_abs_path(s, i) == Result::<(DecState, usize), usize>::Ok(
            (
                (push_node(s, NodeView::Path(PathView::Path { name: x, args: Seq::empty() }))),
                fresh_id(s),
            ),
        ),
{
}

/// A `Subst` prefix whose id the prefix table does not hold is a fatal
/// defect: the expansion fails, reporting that id, and returns no value.
pub proof fn lemma_dangling_prefix_reference_fails(s: DecState, i: usize, id: usize)
    requires
        i < s.nodes.len(),
        node_wf(s.nodes, i as int, s.nodes[i as int]),
        s.nodes[i as int] == NodeView::Prefix(PathPrefix::Subst(id)),
        !(id < s.tabs.len() && s.tabs[id as int] is Prefix),
    ensures
        dec_prefix(s, i) == Result::<(DecState, usize), usize>::Err(id),
{
}

/// A `Subst` path whose id neither the path table nor the prefix table
/// holds is a fatal defect.
pub proof fn lemma_dangling_path_reference_fails(s: DecState, i: usize, id: usize)
    requires
        i < s.nodes.len(),
        node_wf(s.nodes, i as int, s.nodes[i as int]),
        s.nodes[i as int] == NodeView::Path(PathView::Subst(id)),
        !(id < s.tabs.len() && s.tabs[id as int] is Path),
        !(id < s.tabs.len() && s.tabs[id as int] is Prefix),
    ensures
        dec_abs_path(s, i) == Result::<(DecState, usize), usize>::Err(id),
{
}

/// A `Subst` type whose id no table holds is a fatal defect.
pub proof fn lemma_dangling_type_reference_fails(s: DecState, i: usize, id: usize)
    requires
        i < s.nodes.len(),
        node_wf(s.nodes, i as int, s.nodes[i as int]),
        s.nodes[i as int] == NodeView::Ty(TypeView::Subst(id)),
        !(id < s.tabs.len() && s.tabs[id as int] is Type),
        !(id < s.tabs.len() && s.tabs[id as int] is Path),
        !(id < s.tabs.len() && s.tabs[id as int] is Prefix),
    ensures
        dec_type(s, i) == Result::<(DecState, usize), usize>::Err(id),
{
}

/// Structural reuse for a `Node` prefix: when its prefix expands to itself,
/// the node itself is returned, not a fresh copy; the table entry still
/// gets allocated.
pub proof fn lemma_reuse_prefix_node(
    s: DecState,
    i: usize,
    prefix: usize,
    ident: String,
    s1: DecState,
)
    requires
        i < s.nodes.len(),
        node_wf(s.nodes, i as int, s.nodes[i as int]),
        s.nodes[i as int] == NodeView::Prefix(PathPrefix::Node { prefix, ident }),
        dec_prefix(s, prefix) == Result::<(DecState, usize), usize>::Ok(((s1), prefix)),
    ensures
        dec_prefix(s, i) == Result::<(DecState, usize), usize>::Ok(
            ((push_tab(s1, TableEntry::Prefix(i))), i),
        ),
{
}

/// Structural reuse for an absolute path: when neither the prefix nor any
/// argument changes, the path node itself is returned; an entry is
/// allocated only when the argument list is non-empty.
pub proof fn lemma_reuse_path(
    s: DecState,
    i: usize,
    name: usize,
    args: Seq<usize>,
    s1: DecState,
    s2: DecState,
)
    requires
        i < s.nodes.len(),
        node_wf(s.nodes, i as int, s.nodes[i as int]),
        s.nodes[i as int] == NodeView::Path(PathView::Path { name, args }),
        dec_prefix(s, name) == Result::<(DecState, usize), usize>::Ok(((s1), name)),
        dec_type_list(s1, args, i) == Result::<(DecState, Seq<usize>), usize>::Ok(((s2), args)),
    ensures
        dec_abs_path(s, i) == Result::<(DecState, usize), usize>::Ok(
            (
                (if args.len() > 0 {
                    push_tab(s2, TableEntry::Path(i))
                } else {
                    s2
                }),
                i,
            ),
        ),
{
}

/// Structural reuse for `Ref`.
pub proof fn lemma_reuse_ref(s: DecState, i: usize, inner: usize, s1: DecState)
    requires
        i < s.nodes.len(),
        node_wf(s.nodes, i as int, s.nodes[i as int]),
        s.nodes[i as int] == NodeView::Ty(TypeView::Ref(inner)),
        dec_type(s, inner) == Result::<(DecState, usize), usize>::Ok(((s1), inner)),
    ensures
        dec_type(s, i) == Result::<(DecState, usize), usize>::Ok(
            ((push_tab(s1, TableEntry::Type(i))), i),
        ),
{
}

/// Structural reuse for `RefMut`.
pub proof fn lemma_reuse_ref_mut(s: DecState, i: usize, inner: usize, s1: DecState)
    requires
        i < s.nodes.len(),
        node_wf(s.nodes, i as int, s.nodes[i as int]),
        s.nodes[i as int] == NodeView::Ty(TypeView::RefMut(inner)),
        dec_type(s, inner) == Result::<(DecState, usize), usize>::Ok(((s1), inner)),
    ensures
        dec_type(s, i) == Result::<(DecState, usize), usize>::Ok(
            ((push_tab(s1, TableEntry::Type(i))), i),
        ),
{
}

/// Structural reuse for `RawPtrConst`.
pub proof fn lemma_reuse_raw_ptr_const(s: DecState, i: usize, inner: usize, s1: DecState)
    requires
        i < s.nodes.len(),
        node_wf(s.nodes, i as int, s.nodes[i as int]),
        s.nodes[i as int] == NodeView::Ty(TypeView::RawPtrConst(inner)),
        dec_type(s, inner) == Result::<(DecState, usize), usize>::Ok(((s1), inner)),
    ensures
        dec_type(s, i) == Result::<(DecState, usize), usize>::Ok(
            ((push_tab(s1, TableEntry::Type(i))), i),
        ),
{
}

/// Structural reuse for `RawPtrMut`.
pub proof fn lemma_reuse_raw_ptr_mut(s: DecState, i: usize, inner: usize, s1: DecState)
    requires
        i < s.nodes.len(),
        node_wf(s.nodes, i as int, s.nodes[i as int]),
        s.nodes[i as int] == NodeView::Ty(TypeView::RawPtrMut(inner)),
        dec_type(s, inner) == Result::<(DecState, usize), usize>::Ok(((s1), inner)),
    ensures
        dec_type(s, i) == Result::<(DecState, usize), usize>::Ok(
            ((push_tab(s1, TableEntry::Type(i))), i),
        ),
{
}

/// Structural reuse for `Array`: the size token is preserved and the node
/// reused when the element type did not change.
pub proof fn lemma_reuse_array(
    s: DecState,
    i: usize,
    sz: Option<u64>,
    inner: usize,
    s1: DecState,
)
    requires
        i < s.nodes.len(),
        node_wf(s.nodes, i as int, s.nodes[i as int]),
        s.nodes[i as int] == NodeView::Ty(TypeView::Array(sz, inner)),
        dec_type(s, inner) == Result::<(DecState, usize), usize>::Ok(((s1), inner)),
    ensures
        dec_type(s, i) == Result::<(DecState, usize), usize>::Ok(
            ((push_tab(s1, TableEntry::Type(i))), i),
        ),
{
}

/// Structural reuse for `Tuple`: the whole node is reused only when every
/// component is unchanged.
pub proof fn lemma_reuse_tuple(s: DecState, i: usize, comps: Seq<usize>, s1: DecState)
    requires
        i < s.nodes.len(),
        node_wf(s.nodes, i as int, s.nodes[i as int]),
        s.nodes[i as int] == NodeView::Ty(TypeView::Tuple(comps)),
        dec_type_list(s, comps, i) == Result::<(DecState, Seq<usize>), usize>::Ok(((s1), comps)),
    ensures
        dec_type(s, i) == Result::<(DecState, usize), usize>::Ok(
            ((push_tab(s1, TableEntry::Type(i))), i),
        ),
{
}

/// Structural reuse for `Named`: when the underlying path expands to
/// itself, the named type is returned unchanged — and, either way, no
/// type-table entry is created.
pub proof fn lemma_reuse_named(s: DecState, i: usize, p: usize, s1: DecState)
    requires
        i < s.nodes.len(),
        node_wf(s.nodes, i as int, s.nodes[i as int]),
        s.nodes[i as int] == NodeView::Ty(TypeView::Named(p)),
        dec_abs_path(s, p) == Result::<(DecState, usize), usize>::Ok(((s1), p)),
    ensures
        dec_type(s, i) == Result::<(DecState, usize), usize>::Ok(((s1), i)),
{
}

/// Structural reuse for `Fn`: the node is reused only when the return type
/// and every parameter are all unchanged.  Parameters are expanded before
/// the return type, mirroring the encoder's numbering order.
pub proof fn lemma_reuse_fn_type(
    s: DecState,
    i: usize,
    is_unsafe: bool,
    abi: u64,
    return_type: Option<usize>,
    params: Seq<usize>,
    s1: DecState,
    s2: DecState,
)
    requires
        i < s.nodes.len(),
        node_wf(s.nodes, i as int, s.nodes[i as int]),
        s.nodes[i as int] == NodeView::Ty(
            TypeView::Fn { is_unsafe, abi, return_type, params },
        ),
        dec_type_list(s, params, i) == Result::<(DecState, Seq<usize>), usize>::Ok(
            ((s1), params),
        ),
        (match return_type {
            Some(rt) => dec_type(s1, rt) == Result::<(DecState, usize), usize>::Ok(((s2), rt)),
            None => s2 == s1,
        }),
    ensures
        dec_type(s, i) == Result::<(DecState, usize), usize>::Ok(
            ((push_tab(s2, TableEntry::Type(i))), i),
        ),
{
}

} // verus!
