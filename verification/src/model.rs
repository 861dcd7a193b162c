//! The expansion rules as one mathematical function.
//!
//! Expansion is deterministic: from an arena and a substitution table, each
//! rule either fails on a dangling back-reference or yields the next state
//! and the index of the expanded node.  The functions here spell the rules
//! out once, in spec land; the executable decompressor is proved to return
//! exactly what they say, step for step, including every table allocation
//! and every reused node.

use vstd::prelude::*;

use crate::ast::{
    expanded, extends, is_path_at, is_prefix_at, is_ty_at, node_wf, NodeView, PathPrefix,
    PathView, Symbol, TypeView,
};

verus! {

/// One substitution-table entry: the category the id was allocated in, and
/// the index of the expanded node it denotes.
///
/// The table of a run is a sequence of these, indexed by substitution id:
/// ids are drawn from one counter shared by all three categories, so the
/// sequence's length is the counter, and each category's mapping is the
/// restriction of the sequence to its variant.
#[derive(Debug, Clone, Copy, PartialEq, Eq)]
pub enum TableEntry {
    Prefix(usize),
    Path(usize),
    Type(usize),
}

/// The state an expansion threads along: the arena and the substitution
/// table, both append-only.
#[verifier::ext_equal]
pub struct DecState {
    pub nodes: Seq<NodeView>,
    pub tabs: Seq<TableEntry>,
}

/// The table entry for `e` denotes an expanded node of its own category.
pub open spec fn entry_good(ns: Seq<NodeView>, e: TableEntry) -> bool {
    match e {
        TableEntry::Prefix(x) => is_prefix_at(ns, x as int) && expanded(ns, x as int),
        TableEntry::Path(x) => is_path_at(ns, x as int) && expanded(ns, x as int),
        TableEntry::Type(x) => is_ty_at(ns, x as int) && expanded(ns, x as int),
    }
}

/// Every table entry denotes an expanded node of its own category.
pub open spec fn tabs_wf(ns: Seq<NodeView>, tabs: Seq<TableEntry>) -> bool {
    forall|id: int| 0 <= id < tabs.len() ==> entry_good(ns, #[trigger] tabs[id])
}

/// Table entries stay good while the arena grows.
pub proof fn lemma_tabs_wf_extend(ns1: Seq<NodeView>, ns2: Seq<NodeView>, tabs: Seq<TableEntry>)
    requires
        extends(ns1, ns2),
        tabs_wf(ns1, tabs),
    ensures
        tabs_wf(ns2, tabs),
{
    assert forall|id: int| 0 <= id < tabs.len() implies entry_good(ns2, #[trigger] tabs[id]) by {
        match tabs[id] {
            TableEntry::Prefix(x) => crate::ast::lemma_expanded_extend(ns1, ns2, x as int),
            TableEntry::Path(x) => crate::ast::lemma_expanded_extend(ns1, ns2, x as int),
            TableEntry::Type(x) => crate::ast::lemma_expanded_extend(ns1, ns2, x as int),
        }
    }
}

/// Takes the next substitution id for `e`: the id is the table's length.
pub open spec fn push_tab(s: DecState, e: TableEntry) -> DecState {
    DecState { nodes: s.nodes, tabs: s.tabs.push(e) }
}

/// Appends a freshly built node to the arena.
pub open spec fn push_node(s: DecState, n: NodeView) -> DecState {
    DecState { nodes: s.nodes.push(n), tabs: s.tabs }
}

/// The index the next appended node will receive.
pub open spec fn fresh_id(s: DecState) -> usize {
    s.nodes.len() as usize
}

/// Expands a path prefix.  `Subst` is resolved in the prefix table and
/// allocates nothing; every other variant allocates one prefix entry for its
/// result, after its children were expanded.
pub open spec fn dec_prefix(s: DecState, i: usize) -> Result<(DecState, usize), usize>
    decreases i, 1int, 0int,
{
    if !(i < s.nodes.len() && node_wf(s.nodes, i as int, s.nodes[i as int])
        && s.nodes[i as int] is Prefix) {
        Result::Err(0)
    } else {
        match s.nodes[i as int]->Prefix_0 {
            PathPrefix::CrateId { .. } => Result::Ok((push_tab(s, TableEntry::Prefix(i)), i)),
            PathPrefix::TraitImpl { self_type, impled_trait, dis } => {
                match dec_type(s, self_type) {
                    Result::Err(e) => Result::Err(e),
                    Result::Ok((s1, st_r)) => {
                        let step = match impled_trait {
                            Some(t) => match dec_abs_path(s1, t) {
                                Result::Err(e) => Result::Err(e),
                                Result::Ok((s2, p_r)) => Result::Ok((s2, Some(p_r))),
                            },
                            None => Result::Ok((s1, None)),
                        };
                        match step {
                            Result::Err(e) => Result::Err(e),
                            Result::Ok((s2, it_r)) => {
                                let r = fresh_id(s2);
                                let s3 = push_node(
                                    s2,
                                    NodeView::Prefix(
                                        PathPrefix::TraitImpl {
                                            self_type: st_r,
                                            impled_trait: it_r,
                                            dis,
                                        },
                                    ),
                                );
                                Result::Ok((push_tab(s3, TableEntry::Prefix(r)), r))
                            },
                        }
                    },
                }
            },
            PathPrefix::Node { prefix, ident } => {
                match dec_prefix(s, prefix) {
                    Result::Err(e) => Result::Err(e),
                    Result::Ok((s1, p_r)) => {
                        if p_r == prefix {
                            Result::Ok((push_tab(s1, TableEntry::Prefix(i)), i))
                        } else {
                            let r = fresh_id(s1);
                            let s2 = push_node(
                                s1,
                                NodeView::Prefix(PathPrefix::Node { prefix: p_r, ident }),
                            );
                            Result::Ok((push_tab(s2, TableEntry::Prefix(r)), r))
                        }
                    },
                }
            },
            PathPrefix::Subst(id) => {
                if id < s.tabs.len() && s.tabs[id as int] is Prefix {
                    Result::Ok((s, s.tabs[id as int]->Prefix_0))
                } else {
                    Result::Err(id)
                }
            },
        }
    }
}

/// Expands an absolute path.  A `Path` allocates a path entry only when its
/// argument list is non-empty; a `Subst` is resolved in the path table
/// first, then in the prefix table, where a zero-argument path is
/// synthesized around the stored prefix.
pub open spec fn dec_abs_path(s: DecState, i: usize) -> Result<(DecState, usize), usize>
    decreases i, 1int, 0int,
{
    if !(i < s.nodes.len() && node_wf(s.nodes, i as int, s.nodes[i as int])
        && s.nodes[i as int] is Path) {
        Result::Err(0)
    } else {
        match s.nodes[i as int]->Path_0 {
            PathView::Path { name, args } => {
                match dec_prefix(s, name) {
                    Result::Err(e) => Result::Err(e),
                    Result::Ok((s1, n_r)) => {
                        match dec_type_list(s1, args, i) {
                            Result::Err(e) => Result::Err(e),
                            Result::Ok((s2, rs)) => {
                                let (s3, r) = if n_r == name && rs == args {
                                    (s2, i)
                                } else {
                                    (
                                        push_node(
                                            s2,
                                            NodeView::Path(PathView::Path { name: n_r, args: rs }),
                                        ),
                                        fresh_id(s2),
                                    )
                                };
                                if args.len() > 0 {
                                    Result::Ok((push_tab(s3, TableEntry::Path(r)), r))
                                } else {
                                    Result::Ok((s3, r))
                                }
                            },
                        }
                    },
                }
            },
            PathView::Subst(id) => {
                if id < s.tabs.len() && s.tabs[id as int] is Path {
                    Result::Ok((s, s.tabs[id as int]->Path_0))
                } else if id < s.tabs.len() && s.tabs[id as int] is Prefix {
                    let x = s.tabs[id as int]->Prefix_0;
                    Result::Ok(
                        (
                            push_node(
                                s,
                                NodeView::Path(
                                    PathView::Path { name: x, args: Seq::empty() },
                                ),
                            ),
                            fresh_id(s),
                        ),
                    )
                } else {
                    Result::Err(id)
                }
            },
        }
    }
}

/// Expands each element of a type list, left to right; all elements lie
/// below the bound `b`, the index of the node that holds the list.
pub open spec fn dec_type_list(s: DecState, ids: Seq<usize>, b: usize) -> Result<
    (DecState, Seq<usize>),
    usize,
>
    decreases b, 0int, ids.len(),
{
    if ids.len() == 0 {
        Result::Ok((s, Seq::empty()))
    } else if !(ids[0] < b) {
        Result::Err(0)
    } else {
        match dec_type(s, ids[0]) {
            Result::Err(e) => Result::Err(e),
            Result::Ok((s1, r0)) => {
                match dec_type_list(s1, ids.drop_first(), b) {
                    Result::Err(e) => Result::Err(e),
                    Result::Ok((s2, rs)) => Result::Ok((s2, seq![r0] + rs)),
                }
            },
        }
    }
}

/// Expands a type.  `BasicType` and `Named` return without touching the
/// type table; `Subst` resolves through the type, path and prefix tables in
/// that order, wrapping as needed; every other variant allocates one type
/// entry for its result.
pub open spec fn dec_type(s: DecState, i: usize) -> Result<(DecState, usize), usize>
    decreases i, 1int, 0int,
{
    if !(i < s.nodes.len() && node_wf(s.nodes, i as int, s.nodes[i as int])
        && s.nodes[i as int] is Ty) {
        Result::Err(0)
    } else {
        match s.nodes[i as int]->Ty_0 {
            TypeView::BasicType(_) => Result::Ok((s, i)),
            TypeView::Ref(inner) => {
                match dec_type(s, inner) {
                    Result::Err(e) => Result::Err(e),
                    Result::Ok((s1, ir)) => {
                        let (s2, r) = if ir == inner {
                            (s1, i)
                        } else {
                            (push_node(s1, NodeView::Ty(TypeView::Ref(ir))), fresh_id(s1))
                        };
                        Result::Ok((push_tab(s2, TableEntry::Type(r)), r))
                    },
                }
            },
            TypeView::RefMut(inner) => {
                match dec_type(s, inner) {
                    Result::Err(e) => Result::Err(e),
                    Result::Ok((s1, ir)) => {
                        let (s2, r) = if ir == inner {
                            (s1, i)
                        } else {
                            (push_node(s1, NodeView::Ty(TypeView::RefMut(ir))), fresh_id(s1))
                        };
                        Result::Ok((push_tab(s2, TableEntry::Type(r)), r))
                    },
                }
            },
            TypeView::RawPtrConst(inner) => {
                match dec_type(s, inner) {
                    Result::Err(e) => Result::Err(e),
                    Result::Ok((s1, ir)) => {
                        let (s2, r) = if ir == inner {
                            (s1, i)
                        } else {
                            (push_node(s1, NodeView::Ty(TypeView::RawPtrConst(ir))), fresh_id(s1))
                        };
                        Result::Ok((push_tab(s2, TableEntry::Type(r)), r))
                    },
                }
            },
            TypeView::RawPtrMut(inner) => {
                match dec_type(s, inner) {
                    Result::Err(e) => Result::Err(e),
                    Result::Ok((s1, ir)) => {
                        let (s2, r) = if ir == inner {
                            (s1, i)
                        } else {
                            (push_node(s1, NodeView::Ty(TypeView::RawPtrMut(ir))), fresh_id(s1))
                        };
                        Result::Ok((push_tab(s2, TableEntry::Type(r)), r))
                    },
                }
            },
            TypeView::Array(sz, inner) => {
                match dec_type(s, inner) {
                    Result::Err(e) => Result::Err(e),
                    Result::Ok((s1, ir)) => {
                        let (s2, r) = if ir == inner {
                            (s1, i)
                        } else {
                            (push_node(s1, NodeView::Ty(TypeView::Array(sz, ir))), fresh_id(s1))
                        };
                        Result::Ok((push_tab(s2, TableEntry::Type(r)), r))
                    },
                }
            },
            TypeView::Tuple(comps) => {
                match dec_type_list(s, comps, i) {
                    Result::Err(e) => Result::Err(e),
                    Result::Ok((s1, rs)) => {
                        let (s2, r) = if rs == comps {
                            (s1, i)
                        } else {
                            (push_node(s1, NodeView::Ty(TypeView::Tuple(rs))), fresh_id(s1))
                        };
                        Result::Ok((push_tab(s2, TableEntry::Type(r)), r))
                    },
                }
            },
            TypeView::Named(p) => {
                match dec_abs_path(s, p) {
                    Result::Err(e) => Result::Err(e),
                    Result::Ok((s1, pr)) => {
                        if pr == p {
                            Result::Ok((s1, i))
                        } else {
                            Result::Ok(
                                (push_node(s1, NodeView::Ty(TypeView::Named(pr))), fresh_id(s1)),
                            )
                        }
                    },
                }
            },
            TypeView::Fn { is_unsafe, abi, return_type, params } => {
                match dec_type_list(s, params, i) {
                    Result::Err(e) => Result::Err(e),
                    Result::Ok((s1, ps)) => {
                        let step = match return_type {
                            Some(rt) => match dec_type(s1, rt) {
                                Result::Err(e) => Result::Err(e),
                                Result::Ok((s2, rr)) => Result::Ok((s2, Some(rr))),
                            },
                            None => Result::Ok((s1, None)),
                        };
                        match step {
                            Result::Err(e) => Result::Err(e),
                            Result::Ok((s2, nrt)) => {
                                let (s3, r) = if nrt == return_type && ps == params {
                                    (s2, i)
                                } else {
                                    (
                                        push_node(
                                            s2,
                                            NodeView::Ty(
                                                TypeView::Fn {
                                                    is_unsafe,
                                                    abi,
                                                    return_type: nrt,
                                                    params: ps,
                                                },
                                            ),
                                        ),
                                        fresh_id(s2),
                                    )
                                };
                                Result::Ok((push_tab(s3, TableEntry::Type(r)), r))
                            },
                        }
                    },
                }
            },
            TypeView::GenericParam(_) => Result::Ok((push_tab(s, TableEntry::Type(i)), i)),
            TypeView::Subst(id) => {
                if id < s.tabs.len() && s.tabs[id as int] is Type {
                    Result::Ok((s, s.tabs[id as int]->Type_0))
                } else if id < s.tabs.len() && s.tabs[id as int] is Path {
                    let x = s.tabs[id as int]->Path_0;
                    Result::Ok((push_node(s, NodeView::Ty(TypeView::Named(x))), fresh_id(s)))
                } else if id < s.tabs.len() && s.tabs[id as int] is Prefix {
                    let x = s.tabs[id as int]->Prefix_0;
                    let j = fresh_id(s);
                    let s1 = push_node(
                        s,
                        NodeView::Path(PathView::Path { name: x, args: Seq::empty() }),
                    );
                    Result::Ok((push_node(s1, NodeView::Ty(TypeView::Named(j))), fresh_id(s1)))
                } else {
                    Result::Err(id)
                }
            },
        }
    }
}

/// Expands a whole symbol: the absolute path first, then the instantiating
/// crate's prefix if present.
pub open spec fn dec_symbol(s: DecState, sym: Symbol) -> Result<(DecState, Symbol), usize> {
    match dec_abs_path(s, sym.name) {
        Result::Err(e) => Result::Err(e),
        Result::Ok((s1, n_r)) => {
            match sym.instantiating_crate {
                Some(ic) => match dec_prefix(s1, ic) {
                    Result::Err(e) => Result::Err(e),
                    Result::Ok((s2, ic_r)) => Result::Ok(
                        (s2, Symbol { name: n_r, instantiating_crate: Some(ic_r) }),
                    ),
                },
                None => Result::Ok((s1, Symbol { name: n_r, instantiating_crate: None })),
            }
        },
    }
}

/// The roots of `sym` stand in the arena with the categories the grammar
/// asks of them.
pub open spec fn symbol_wf(ns: Seq<NodeView>, sym: Symbol) -> bool {
    &&& is_path_at(ns, sym.name as int)
    &&& match sym.instantiating_crate {
        Some(ic) => is_prefix_at(ns, ic as int),
        None => true,
    }
}

} // verus!
