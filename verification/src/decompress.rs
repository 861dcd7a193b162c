//! The decompressor: one expansion rule per grammar production, invoked
//! recursively top-down from a `Symbol` root.
//!
//! Each rule expands its children first, decides whether to allocate a new
//! substitution-table entry for the result, and returns the index of the
//! expanded node.  Every function is proved to return exactly what the
//! corresponding rule in [`crate::model`] says — the same result node, the
//! same arena appends, the same table allocations, in the same order.

use vstd::prelude::*;

use crate::ast::{
    arena_wf, expanded, extends, is_path_at, is_prefix_at, is_ty_at,
    lemma_all_expanded_from_pointwise, lemma_expanded_extend, lemma_extends_trans, node_wf,
    AbsolutePath, Arena, AstNode, NodeView, PathPrefix, PathView, Symbol, Type, TypeView,
};
use crate::model::{
    dec_abs_path, dec_prefix, dec_symbol, dec_type, dec_type_list, entry_good, fresh_id,
    lemma_tabs_wf_extend, push_node, push_tab, symbol_wf, tabs_wf, DecState, TableEntry,
};

verus! {

/// The one failure of expansion: a `Subst(id)` was met in a context where
/// none of the applicable tables holds `id`.  Such an input was not produced
/// by an encoder sharing this engine's numbering discipline; the expansion
/// stops at once and returns no partial result.
#[derive(Debug, Clone, Copy, PartialEq, Eq)]
pub enum DecompressError {
    UnresolvedSubst(usize),
}

/// The dangling id an error reports.
pub open spec fn err_id(e: DecompressError) -> usize {
    match e {
        DecompressError::UnresolvedSubst(id) => id,
    }
}

/// Copies a child-index list out of a node, so the arena can grow while the
/// list is walked.
fn copy_ids(v: &Vec<usize>) -> (r: Vec<usize>)
    ensures
        r@ == v@,
{
    let mut r: Vec<usize> = Vec::new();
    let mut k: usize = 0;
    while k < v.len()
        invariant
            k <= v@.len(),
            r@ == v@.take(k as int),
        decreases v@.len() - k,
    {
        r.push(v[k]);
        k = k + 1;
        proof {
            assert(r@ =~= v@.take(k as int));
        }
    }
    proof {
        assert(v@.take(v@.len() as int) =~= v@);
    }
    r
}

/// Whether two child-index lists are elementwise identical: the reuse test
/// of the structural-sharing optimization.
fn same_ids(a: &Vec<usize>, b: &Vec<usize>) -> (r: bool)
    ensures
        r == (a@ == b@),
{
    if a.len() != b.len() {
        proof {
            assert(a@ != b@);
        }
        return false;
    }
    let mut k: usize = 0;
    while k < a.len()
        invariant
            a@.len() == b@.len(),
            k <= a@.len(),
            forall|j: int| 0 <= j < k ==> a@[j] == b@[j],
        decreases a@.len() - k,
    {
        if a[k] != b[k] {
            proof {
                assert(a@[k as int] != b@[k as int]);
            }
            return false;
        }
        k = k + 1;
    }
    proof {
        assert(a@ =~= b@);
    }
    true
}

/// The run-scoped state of one decompression: the substitution table.
///
/// Spec-wise the table is three mappings — id to prefix, id to path, id to
/// type — partitioned by the entry's variant, plus the shared counter that
/// is the table's length.  Ids are allocated in the exact order the
/// equivalent encoder would have assigned them; no entry is ever removed or
/// overwritten.
#[derive(Debug)]
pub struct Decompress {
    entries: Vec<TableEntry>,
}

impl View for Decompress {
    type V = Seq<TableEntry>;

    closed spec fn view(&self) -> Seq<TableEntry> {
        self.entries@
    }
}

impl Decompress {
    /// A fresh table: no entries, counter at zero.
    pub fn new() -> (d: Decompress)
        ensures
            d@ == Seq::<TableEntry>::empty(),
    {
        let d = Decompress { entries: Vec::new() };
        proof {
            assert(d@ =~= Seq::<TableEntry>::empty());
        }
        d
    }

    /// The shared counter: how many substitution ids have been allocated.
    pub fn subst_count(&self) -> (n: usize)
        ensures
            n == self@.len(),
    {
        self.entries.len()
    }

    /// The entry allocated under `id`, if any.
    pub fn lookup(&self, id: usize) -> (r: Option<TableEntry>)
        ensures
            r == (if id < self@.len() {
                Some(self@[id as int])
            } else {
                None::<TableEntry>
            }),
    {
        if id < self.entries.len() {
            Some(self.entries[id])
        } else {
            None
        }
    }

    /// Takes the next counter value, records `entry` under it, and advances
    /// the counter.
    pub fn alloc_subst(&mut self, arena: &Arena, entry: TableEntry)
        requires
            tabs_wf(arena@, old(self)@),
            entry_good(arena@, entry),
        ensures
            final(self)@ == old(self)@.push(entry),
            tabs_wf(arena@, final(self)@),
    {
        self.entries.push(entry);
        proof {
            assert forall|id: int| 0 <= id < self@.len() implies entry_good(
                arena@,
                #[trigger] self@[id],
            ) by {
                if id < old(self)@.len() {
                    assert(self@[id] == old(self)@[id]);
                } else {
                    assert(self@[id] == entry);
                }
            }
        }
    }

    /// Expands the path prefix at index `p`: `CrateId` is reused and
    /// allocated; `TraitImpl` is rebuilt and allocated; `Node` is reused when
    /// its prefix did not change, and allocated either way; `Subst` is looked
    /// up in the prefix table and allocates nothing.
    pub fn decompress_path_prefix(&mut self, arena: &mut Arena, p: usize) -> (r: Result<
        usize,
        DecompressError,
    >)
        requires
            arena_wf(old(arena)@),
            tabs_wf(old(arena)@, old(self)@),
            is_prefix_at(old(arena)@, p as int),
        ensures
            arena_wf(final(arena)@),
            extends(old(arena)@, final(arena)@),
            extends(old(self)@, final(self)@),
            tabs_wf(final(arena)@, final(self)@),
            (match r {
                Result::Ok(x) => {
                    &&& dec_prefix((DecState { nodes: old(arena)@, tabs: old(self)@ }), p)
                        == Result::<(DecState, usize), usize>::Ok(
                        ((DecState { nodes: final(arena)@, tabs: final(self)@ }), x),
                    )
                    &&& is_prefix_at(final(arena)@, x as int)
                    &&& expanded(final(arena)@, x as int)
                },
                Result::Err(e) => dec_prefix((DecState { nodes: old(arena)@, tabs: old(self)@ }), p)
                    == Result::<(DecState, usize), usize>::Err(err_id(e)),
            }),
        decreases p, 1int,
    {
        let ghost s0 = DecState { nodes: arena@, tabs: self@ };
        proof {
            assert(node_wf(s0.nodes, p as int, s0.nodes[p as int]));
        }
        match arena.node(p) {
            AstNode::Prefix(PathPrefix::CrateId { .. }) => {
                proof {
                    assert(expanded(s0.nodes, p as int));
                }
                self.alloc_subst(arena, TableEntry::Prefix(p));
                proof {
                    assert(dec_prefix(s0, p) == Result::<(DecState, usize), usize>::Ok(
                        ((DecState { nodes: arena@, tabs: self@ }), p),
                    ));
                }
                Result::Ok(p)
            },
            AstNode::Prefix(PathPrefix::TraitImpl { self_type, impled_trait, dis }) => {
                let st: usize = *self_type;
                let it: Option<usize> = *impled_trait;
                let d: u64 = *dis;
                proof {
                    assert(s0.nodes[p as int] == NodeView::Prefix(
                        PathPrefix::TraitImpl { self_type: st, impled_trait: it, dis: d },
                    ));
                }
                let st_r: usize;
                match self.decompress_type(arena, st) {
                    Result::Ok(x) => {
                        st_r = x;
                    },
                    Result::Err(e) => {
                        proof {
                            assert(dec_prefix(s0, p) == Result::<(DecState, usize), usize>::Err(
                                err_id(e),
                            ));
                        }
                        return Result::Err(e);
                    },
                }
                let ghost s1 = DecState { nodes: arena@, tabs: self@ };
                let mut it_r: Option<usize> = None;
                match it {
                    Some(t) => {
                        proof {
                            assert(arena@[t as int] == s0.nodes[t as int]);
                        }
                        match self.decompress_abs_path(arena, t) {
                            Result::Ok(x) => {
                                it_r = Some(x);
                            },
                            Result::Err(e) => {
                                proof {
                                    lemma_extends_trans(s0.nodes, s1.nodes, arena@);
                                    lemma_extends_trans(s0.tabs, s1.tabs, self@);
                                    assert(dec_prefix(s0, p) == Result::<
                                        (DecState, usize),
                                        usize,
                                    >::Err(err_id(e)));
                                }
                                return Result::Err(e);
                            },
                        }
                    },
                    None => {},
                }
                let ghost s2 = DecState { nodes: arena@, tabs: self@ };
                proof {
                    lemma_extends_trans(s0.nodes, s1.nodes, s2.nodes);
                    lemma_extends_trans(s0.tabs, s1.tabs, s2.tabs);
                    lemma_expanded_extend(s1.nodes, s2.nodes, st_r as int);
                    assert(s2.nodes[st_r as int] == s1.nodes[st_r as int]);
                }
                let node_new = AstNode::Prefix(
                    PathPrefix::TraitImpl { self_type: st_r, impled_trait: it_r, dis: d },
                );
                let ghost nv = node_new@;
                proof {
                    assert(node_wf(arena@, arena@.len() as int, nv));
                }
                let r: usize = arena.append(node_new);
                proof {
                    lemma_tabs_wf_extend(s2.nodes, arena@, self@);
                    lemma_expanded_extend(s2.nodes, arena@, st_r as int);
                    match it_r {
                        Some(x) => lemma_expanded_extend(s2.nodes, arena@, x as int),
                        None => {},
                    }
                    assert(expanded(arena@, r as int));
                    assert(fresh_id(s2) == r);
                }
                self.alloc_subst(arena, TableEntry::Prefix(r));
                proof {
                    lemma_extends_trans(s0.nodes, s2.nodes, arena@);
                    lemma_extends_trans(s0.tabs, s2.tabs, self@);
                    assert(dec_prefix(s0, p) == Result::<(DecState, usize), usize>::Ok(
                        ((DecState { nodes: arena@, tabs: self@ }), r),
                    ));
                }
                Result::Ok(r)
            },
            AstNode::Prefix(PathPrefix::Node { prefix, ident }) => {
                let p0: usize = *prefix;
                let ident_c: String = ident.clone();
                let ghost identv = ident_c;
                proof {
                    assert(s0.nodes[p as int] == NodeView::Prefix(
                        PathPrefix::Node { prefix: p0, ident: identv },
                    ));
                }
                match self.decompress_path_prefix(arena, p0) {
                    Result::Err(e) => {
                        proof {
                            assert(dec_prefix(s0, p) == Result::<(DecState, usize), usize>::Err(
                                err_id(e),
                            ));
                        }
                        Result::Err(e)
                    },
                    Result::Ok(p_r) => {
                        let ghost s1 = DecState { nodes: arena@, tabs: self@ };
                        let r: usize;
                        if p_r == p0 {
                            r = p;
                            proof {
                                assert(arena@[p as int] == s0.nodes[p as int]);
                                assert(expanded(arena@, p as int));
                            }
                        } else {
                            let node_new = AstNode::Prefix(
                                PathPrefix::Node { prefix: p_r, ident: ident_c },
                            );
                            let ghost nv = node_new@;
                            proof {
                                assert(node_wf(arena@, arena@.len() as int, nv));
                            }
                            r = arena.append(node_new);
                            proof {
                                lemma_tabs_wf_extend(s1.nodes, arena@, self@);
                                lemma_expanded_extend(s1.nodes, arena@, p_r as int);
                                assert(expanded(arena@, r as int));
                                assert(fresh_id(s1) == r);
                            }
                        }
                        self.alloc_subst(arena, TableEntry::Prefix(r));
                        proof {
                            lemma_extends_trans(s0.nodes, s1.nodes, arena@);
                            lemma_extends_trans(s0.tabs, s1.tabs, self@);
                            assert(dec_prefix(s0, p) == Result::<(DecState, usize), usize>::Ok(
                                ((DecState { nodes: arena@, tabs: self@ }), r),
                            ));
                        }
                        Result::Ok(r)
                    },
                }
            },
            AstNode::Prefix(PathPrefix::Subst(id)) => {
                let sid: usize = *id;
                proof {
                    assert(s0.nodes[p as int] == NodeView::Prefix(PathPrefix::Subst(sid)));
                }
                if sid < self.entries.len() {
                    match self.entries[sid] {
                        TableEntry::Prefix(x) => {
                            proof {
                                assert(self@[sid as int] == TableEntry::Prefix(x));
                                assert(entry_good(arena@, self@[sid as int]));
                                assert(dec_prefix(s0, p) == Result::<(DecState, usize), usize>::Ok(
                                    ((DecState { nodes: arena@, tabs: self@ }), x),
                                ));
                            }
                            Result::Ok(x)
                        },
                        TableEntry::Path(_) => {
                            proof {
                                assert(dec_prefix(s0, p) == Result::<(DecState, usize), usize>::Err(
                                    sid,
                                ));
                            }
                            Result::Err(DecompressError::UnresolvedSubst(sid))
                        },
                        TableEntry::Type(_) => {
                            proof {
                                assert(dec_prefix(s0, p) == Result::<(DecState, usize), usize>::Err(
                                    sid,
                                ));
                            }
                            Result::Err(DecompressError::UnresolvedSubst(sid))
                        },
                    }
                } else {
                    proof {
                        assert(dec_prefix(s0, p) == Result::<(DecState, usize), usize>::Err(sid));
                    }
                    Result::Err(DecompressError::UnresolvedSubst(sid))
                }
            },
            AstNode::Path(_) => {
                proof {
                    assert(false);
                }
                Result::Err(DecompressError::UnresolvedSubst(0))
            },
            AstNode::Ty(_) => {
                proof {
                    assert(false);
                }
                Result::Err(DecompressError::UnresolvedSubst(0))
            },
        }
    }

    /// Expands the absolute path at index `i`: a `Path` is reused
    /// when neither its prefix nor any argument changed, and allocates a
    /// path entry only when its argument list is non-empty; a `Subst` is
    /// resolved in the path table first, then in the prefix table, where a
    /// zero-argument path is synthesized; it allocates nothing.
    pub fn decompress_abs_path(&mut self, arena: &mut Arena, i: usize) -> (r: Result<
        usize,
        DecompressError,
    >)
        requires
            arena_wf(old(arena)@),
            tabs_wf(old(arena)@, old(self)@),
            is_path_at(old(arena)@, i as int),
        ensures
            arena_wf(final(arena)@),
            extends(old(arena)@, final(arena)@),
            extends(old(self)@, final(self)@),
            tabs_wf(final(arena)@, final(self)@),
            (match r {
                Result::Ok(x) => {
                    &&& dec_abs_path((DecState { nodes: old(arena)@, tabs: old(self)@ }), i)
                        == Result::<(DecState, usize), usize>::Ok(
                        ((DecState { nodes: final(arena)@, tabs: final(self)@ }), x),
                    )
                    &&& is_path_at(final(arena)@, x as int)
                    &&& expanded(final(arena)@, x as int)
                },
                Result::Err(e) => dec_abs_path(
                    (DecState { nodes: old(arena)@, tabs: old(self)@ }),
                    i,
                ) == Result::<(DecState, usize), usize>::Err(err_id(e)),
            }),
        decreases i, 1int,
    {
        let ghost s0 = DecState { nodes: arena@, tabs: self@ };
        proof {
            assert(node_wf(s0.nodes, i as int, s0.nodes[i as int]));
        }
        match arena.node(i) {
            AstNode::Path(AbsolutePath::Path { name, args }) => {
                let n0: usize = *name;
                let args_c: Vec<usize> = copy_ids(args);
                let ghost argsv = args_c@;
                proof {
                    assert(s0.nodes[i as int] == NodeView::Path(
                        PathView::Path { name: n0, args: argsv },
                    ));
                }
                let n_r: usize;
                match self.decompress_path_prefix(arena, n0) {
                    Result::Ok(x) => {
                        n_r = x;
                    },
                    Result::Err(e) => {
                        proof {
                            assert(dec_abs_path(s0, i) == Result::<(DecState, usize), usize>::Err(
                                err_id(e),
                            ));
                        }
                        return Result::Err(e);
                    },
                }
                let ghost s1 = DecState { nodes: arena@, tabs: self@ };
                proof {
                    assert forall|k: int| 0 <= k < argsv.len() implies argsv[k] < i && is_ty_at(
                        arena@,
                        #[trigger] argsv[k] as int,
                    ) by {
                        assert(is_ty_at(s0.nodes, argsv[k] as int));
                        assert(arena@[argsv[k] as int] == s0.nodes[argsv[k] as int]);
                    }
                }
                let rs: Vec<usize>;
                match self.decompress_generic_parameter_list(arena, &args_c, Ghost(i)) {
                    Result::Ok(v) => {
                        rs = v;
                    },
                    Result::Err(e) => {
                        proof {
                            lemma_extends_trans(s0.nodes, s1.nodes, arena@);
                            lemma_extends_trans(s0.tabs, s1.tabs, self@);
                            assert(dec_abs_path(s0, i) == Result::<(DecState, usize), usize>::Err(
                                err_id(e),
                            ));
                        }
                        return Result::Err(e);
                    },
                }
                let ghost s2 = DecState { nodes: arena@, tabs: self@ };
                let ghost rsv = rs@;
                proof {
                    lemma_extends_trans(s0.nodes, s1.nodes, s2.nodes);
                    lemma_extends_trans(s0.tabs, s1.tabs, s2.tabs);
                    lemma_expanded_extend(s1.nodes, s2.nodes, n_r as int);
                    assert(s2.nodes[n_r as int] == s1.nodes[n_r as int]);
                }
                let same: bool = n_r == n0 && same_ids(&rs, &args_c);
                let r: usize;
                if same {
                    r = i;
                    proof {
                        assert(arena@[i as int] == s0.nodes[i as int]);
                        assert forall|k: int| 0 <= k < argsv.len() implies argsv[k] < i as int
                            && expanded(arena@, #[trigger] argsv[k] as int) by {
                            assert(argsv[k] == rsv[k]);
                            assert(expanded(arena@, rsv[k] as int));
                        }
                        lemma_all_expanded_from_pointwise(arena@, argsv, i as int);
                        assert(expanded(arena@, i as int));
                    }
                } else {
                    let node_new = AstNode::Path(AbsolutePath::Path { name: n_r, args: rs });
                    let ghost nv = node_new@;
                    proof {
                        assert(nv == NodeView::Path(PathView::Path { name: n_r, args: rsv }));
                        assert(node_wf(arena@, arena@.len() as int, nv));
                    }
                    r = arena.append(node_new);
                    proof {
                        lemma_tabs_wf_extend(s2.nodes, arena@, self@);
                        lemma_expanded_extend(s2.nodes, arena@, n_r as int);
                        assert forall|k: int| 0 <= k < rsv.len() implies rsv[k] < r as int
                            && expanded(arena@, #[trigger] rsv[k] as int) by {
                            assert(is_ty_at(s2.nodes, rsv[k] as int));
                            lemma_expanded_extend(s2.nodes, arena@, rsv[k] as int);
                        }
                        lemma_all_expanded_from_pointwise(arena@, rsv, r as int);
                        assert(expanded(arena@, r as int));
                        assert(fresh_id(s2) == r);
                    }
                }
                if args_c.len() > 0 {
                    self.alloc_subst(arena, TableEntry::Path(r));
                    proof {
                        lemma_extends_trans(s0.nodes, s2.nodes, arena@);
                        lemma_extends_trans(s0.tabs, s2.tabs, self@);
                        assert(dec_abs_path(s0, i) == Result::<(DecState, usize), usize>::Ok(
                            ((DecState { nodes: arena@, tabs: self@ }), r),
                        ));
                    }
                    Result::Ok(r)
                } else {
                    proof {
                        lemma_extends_trans(s0.nodes, s2.nodes, arena@);
                        lemma_extends_trans(s0.tabs, s2.tabs, self@);
                        assert(argsv =~= Seq::<usize>::empty());
                        assert(dec_abs_path(s0, i) == Result::<(DecState, usize), usize>::Ok(
                            ((DecState { nodes: arena@, tabs: self@ }), r),
                        ));
                    }
                    Result::Ok(r)
                }
            },
            AstNode::Path(AbsolutePath::Subst(id)) => {
                let sid: usize = *id;
                proof {
                    assert(s0.nodes[i as int] == NodeView::Path(PathView::Subst(sid)));
                }
                if sid < self.entries.len() {
                    match self.entries[sid] {
                        TableEntry::Path(x) => {
                            proof {
                                assert(self@[sid as int] == TableEntry::Path(x));
                                assert(entry_good(arena@, self@[sid as int]));
                                assert(dec_abs_path(s0, i) == Result::<
                                    (DecState, usize),
                                    usize,
                                >::Ok(((DecState { nodes: arena@, tabs: self@ }), x)));
                            }
                            Result::Ok(x)
                        },
                        TableEntry::Prefix(x) => {
                            proof {
                                assert(self@[sid as int] == TableEntry::Prefix(x));
                                assert(entry_good(arena@, self@[sid as int]));
                            }
                            let empty_args: Vec<usize> = Vec::new();
                            proof {
                                assert(empty_args@ =~= Seq::<usize>::empty());
                            }
                            let node_new = AstNode::Path(
                                AbsolutePath::Path { name: x, args: empty_args },
                            );
                            let ghost nv = node_new@;
                            proof {
                                assert(nv == NodeView::Path(
                                    PathView::Path { name: x, args: Seq::empty() },
                                ));
                                assert(node_wf(arena@, arena@.len() as int, nv));
                            }
                            let r: usize = arena.append(node_new);
                            proof {
                                lemma_tabs_wf_extend(s0.nodes, arena@, self@);
                                lemma_expanded_extend(s0.nodes, arena@, x as int);
                                lemma_all_expanded_from_pointwise(
                                    arena@,
                                    Seq::empty(),
                                    r as int,
                                );
                                assert(expanded(arena@, r as int));
                                assert(fresh_id(s0) == r);
                                assert(dec_abs_path(s0, i) == Result::<
                                    (DecState, usize),
                                    usize,
                                >::Ok(((DecState { nodes: arena@, tabs: self@ }), r)));
                            }
                            Result::Ok(r)
                        },
                        TableEntry::Type(_) => {
                            proof {
                                assert(dec_abs_path(s0, i) == Result::<
                                    (DecState, usize),
                                    usize,
                                >::Err(sid));
                            }
                            Result::Err(DecompressError::UnresolvedSubst(sid))
                        },
                    }
                } else {
                    proof {
                        assert(dec_abs_path(s0, i) == Result::<(DecState, usize), usize>::Err(
                            sid,
                        ));
                    }
                    Result::Err(DecompressError::UnresolvedSubst(sid))
                }
            },
            AstNode::Prefix(_) => {
                proof {
                    assert(false);
                }
                Result::Err(DecompressError::UnresolvedSubst(0))
            },
            AstNode::Ty(_) => {
                proof {
                    assert(false);
                }
                Result::Err(DecompressError::UnresolvedSubst(0))
            },
        }
    }

    /// Expands each element of a generic-argument (or tuple, or parameter)
    /// list, in order.  `bound` is the index of the node that holds the
    /// list; every element lies below it.
    #[verifier::loop_isolation(false)]
    pub fn decompress_generic_parameter_list(
        &mut self,
        arena: &mut Arena,
        compressed: &Vec<usize>,
        bound: Ghost<usize>,
    ) -> (r: Result<Vec<usize>, DecompressError>)
        requires
            arena_wf(old(arena)@),
            tabs_wf(old(arena)@, old(self)@),
            forall|k: int| 0 <= k < compressed@.len() ==> compressed@[k] < bound@ && is_ty_at(
                old(arena)@,
                #[trigger] compressed@[k] as int,
            ),
        ensures
            arena_wf(final(arena)@),
            extends(old(arena)@, final(arena)@),
            extends(old(self)@, final(self)@),
            tabs_wf(final(arena)@, final(self)@),
            (match r {
                Result::Ok(v) => {
                    &&& dec_type_list(
                        (DecState { nodes: old(arena)@, tabs: old(self)@ }),
                        compressed@,
                        bound@,
                    ) == Result::<(DecState, Seq<usize>), usize>::Ok(
                        ((DecState { nodes: final(arena)@, tabs: final(self)@ }), v@),
                    )
                    &&& v@.len() == compressed@.len()
                    &&& forall|k: int| 0 <= k < v@.len() ==> is_ty_at(
                        final(arena)@,
                        #[trigger] v@[k] as int,
                    ) && expanded(final(arena)@, v@[k] as int)
                },
                Result::Err(e) => dec_type_list(
                    (DecState { nodes: old(arena)@, tabs: old(self)@ }),
                    compressed@,
                    bound@,
                ) == Result::<(DecState, Seq<usize>), usize>::Err(err_id(e)),
            }),
        decreases bound@, 0int,
    {
        let ghost s_init = DecState { nodes: arena@, tabs: self@ };
        let n = compressed.len();
        let mut out: Vec<usize> = Vec::new();
        let mut k: usize = 0;
        proof {
            assert(compressed@.skip(0) =~= compressed@);
            match dec_type_list(s_init, compressed@, bound@) {
                Result::Ok(pr) => {
                    assert(out@ + pr.1 =~= pr.1);
                },
                Result::Err(_) => {},
            }
        }
        while k < n
            invariant
                n == compressed@.len(),
                k <= n,
                out@.len() == k,
                arena_wf(arena@),
                tabs_wf(arena@, self@),
                extends(s_init.nodes, arena@),
                extends(s_init.tabs, self@),
                forall|k2: int| 0 <= k2 < compressed@.len() ==> compressed@[k2] < bound@
                    && is_ty_at(s_init.nodes, #[trigger] compressed@[k2] as int),
                forall|j: int| 0 <= j < k ==> is_ty_at(arena@, #[trigger] out@[j] as int)
                    && expanded(arena@, out@[j] as int),
                (match dec_type_list(
                    (DecState { nodes: arena@, tabs: self@ }),
                    compressed@.skip(k as int),
                    bound@,
                ) {
                    Result::Ok(pr) => dec_type_list(s_init, compressed@, bound@) == Result::<
                        (DecState, Seq<usize>),
                        usize,
                    >::Ok((pr.0, out@ + pr.1)),
                    Result::Err(e) => dec_type_list(s_init, compressed@, bound@) == Result::<
                        (DecState, Seq<usize>),
                        usize,
                    >::Err(e),
                }),
            decreases n - k,
        {
            let ghost pre = DecState { nodes: arena@, tabs: self@ };
            let ghost out_pre = out@;
            let id: usize = compressed[k];
            proof {
                assert(is_ty_at(s_init.nodes, id as int));
                assert(arena@[id as int] == s_init.nodes[id as int]);
            }
            match self.decompress_type(arena, id) {
                Result::Err(e) => {
                    proof {
                        let sk = compressed@.skip(k as int);
                        assert(sk[0] == compressed@[k as int]);
                        assert(dec_type_list(pre, sk, bound@) == Result::<
                            (DecState, Seq<usize>),
                            usize,
                        >::Err(err_id(e)));
                        lemma_extends_trans(s_init.nodes, pre.nodes, arena@);
                        lemma_extends_trans(s_init.tabs, pre.tabs, self@);
                    }
                    return Result::Err(e);
                },
                Result::Ok(x) => {
                    out.push(x);
                    k = k + 1;
                    proof {
                        let post = DecState { nodes: arena@, tabs: self@ };
                        let sk = compressed@.skip(k as int - 1);
                        assert(sk[0] == compressed@[k as int - 1]);
                        assert(sk.drop_first() =~= compressed@.skip(k as int));
                        assert(out@ =~= out_pre.push(x));
                        lemma_extends_trans(s_init.nodes, pre.nodes, arena@);
                        lemma_extends_trans(s_init.tabs, pre.tabs, self@);
                        assert forall|j: int| 0 <= j < k implies is_ty_at(
                            arena@,
                            #[trigger] out@[j] as int,
                        ) && expanded(arena@, out@[j] as int) by {
                            if j < k - 1 {
                                assert(out@[j] == out_pre[j]);
                                assert(is_ty_at(pre.nodes, out_pre[j] as int));
                                assert(arena@[out_pre[j] as int] == pre.nodes[out_pre[j] as int]);
                                lemma_expanded_extend(pre.nodes, arena@, out_pre[j] as int);
                            } else {
                                assert(out@[j] == x);
                            }
                        }
                        match dec_type_list(post, compressed@.skip(k as int), bound@) {
                            Result::Ok(pr) => {
                                assert(dec_type_list(pre, sk, bound@) == Result::<
                                    (DecState, Seq<usize>),
                                    usize,
                                >::Ok((pr.0, seq![x] + pr.1)));
                                assert(out_pre + (seq![x] + pr.1) =~= out@ + pr.1);
                            },
                            Result::Err(e) => {
                                assert(dec_type_list(pre, sk, bound@) == Result::<
                                    (DecState, Seq<usize>),
                                    usize,
                                >::Err(e));
                            },
                        }
                    }
                },
            }
        }
        proof {
            assert(compressed@.skip(n as int) =~= Seq::<usize>::empty());
            assert(dec_type_list(
                (DecState { nodes: arena@, tabs: self@ }),
                Seq::empty(),
                bound@,
            ) == Result::<(DecState, Seq<usize>), usize>::Ok(
                ((DecState { nodes: arena@, tabs: self@ }), Seq::empty()),
            ));
            assert(out@ + Seq::<usize>::empty() =~= out@);
        }
        Result::Ok(out)
    }

    /// Expands the type at index `i`.  `BasicType` is returned
    /// unchanged with no allocation; `Named` recurses into its path and
    /// allocates no type entry; `Subst` resolves through the type, path and
    /// prefix tables in that order, wrapping as needed, and allocates
    /// nothing; every other variant is reused when no child changed and
    /// allocates one type entry for its result.
    pub fn decompress_type(&mut self, arena: &mut Arena, i: usize) -> (r: Result<
        usize,
        DecompressError,
    >)
        requires
            arena_wf(old(arena)@),
            tabs_wf(old(arena)@, old(self)@),
            is_ty_at(old(arena)@, i as int),
        ensures
            arena_wf(final(arena)@),
            extends(old(arena)@, final(arena)@),
            extends(old(self)@, final(self)@),
            tabs_wf(final(arena)@, final(self)@),
            (match r {
                Result::Ok(x) => {
                    &&& dec_type((DecState { nodes: old(arena)@, tabs: old(self)@ }), i)
                        == Result::<(DecState, usize), usize>::Ok(
                        ((DecState { nodes: final(arena)@, tabs: final(self)@ }), x),
                    )
                    &&& is_ty_at(final(arena)@, x as int)
                    &&& expanded(final(arena)@, x as int)
                },
                Result::Err(e) => dec_type((DecState { nodes: old(arena)@, tabs: old(self)@ }), i)
                    == Result::<(DecState, usize), usize>::Err(err_id(e)),
            }),
        decreases i, 1int,
    {
        let ghost s0 = DecState { nodes: arena@, tabs: self@ };
        proof {
            assert(node_wf(s0.nodes, i as int, s0.nodes[i as int]));
        }
        match arena.node(i) {
            AstNode::Ty(Type::BasicType(_)) => {
                proof {
                    assert(expanded(s0.nodes, i as int));
                    assert(dec_type(s0, i) == Result::<(DecState, usize), usize>::Ok(
                        ((DecState { nodes: arena@, tabs: self@ }), i),
                    ));
                }
                Result::Ok(i)
            },
            AstNode::Ty(Type::Ref(inner)) => {
                let x0: usize = *inner;
                proof {
                    assert(s0.nodes[i as int] == NodeView::Ty(TypeView::Ref(x0)));
                }
                let ir: usize;
                match self.decompress_type(arena, x0) {
                    Result::Ok(v) => {
                        ir = v;
                    },
                    Result::Err(e) => {
                        proof {
                            assert(dec_type(s0, i) == Result::<(DecState, usize), usize>::Err(
                                err_id(e),
                            ));
                        }
                        return Result::Err(e);
                    },
                }
                let ghost s1 = DecState { nodes: arena@, tabs: self@ };
                let r: usize;
                if ir == x0 {
                    r = i;
                    proof {
                        assert(arena@[i as int] == s0.nodes[i as int]);
                        assert(expanded(arena@, i as int));
                    }
                } else {
                    let node_new = AstNode::Ty(Type::Ref(ir));
                    let ghost nv = node_new@;
                    proof {
                        assert(node_wf(arena@, arena@.len() as int, nv));
                    }
                    r = arena.append(node_new);
                    proof {
                        lemma_tabs_wf_extend(s1.nodes, arena@, self@);
                        lemma_expanded_extend(s1.nodes, arena@, ir as int);
                        assert(expanded(arena@, r as int));
                        assert(fresh_id(s1) == r);
                    }
                }
                self.alloc_subst(arena, TableEntry::Type(r));
                proof {
                    lemma_extends_trans(s0.nodes, s1.nodes, arena@);
                    lemma_extends_trans(s0.tabs, s1.tabs, self@);
                    assert(dec_type(s0, i) == Result::<(DecState, usize), usize>::Ok(
                        ((DecState { nodes: arena@, tabs: self@ }), r),
                    ));
                }
                Result::Ok(r)
            },
            AstNode::Ty(Type::RefMut(inner)) => {
                let x0: usize = *inner;
                proof {
                    assert(s0.nodes[i as int] == NodeView::Ty(TypeView::RefMut(x0)));
                }
                let ir: usize;
                match self.decompress_type(arena, x0) {
                    Result::Ok(v) => {
                        ir = v;
                    },
                    Result::Err(e) => {
                        proof {
                            assert(dec_type(s0, i) == Result::<(DecState, usize), usize>::Err(
                                err_id(e),
                            ));
                        }
                        return Result::Err(e);
                    },
                }
                let ghost s1 = DecState { nodes: arena@, tabs: self@ };
                let r: usize;
                if ir == x0 {
                    r = i;
                    proof {
                        assert(arena@[i as int] == s0.nodes[i as int]);
                        assert(expanded(arena@, i as int));
                    }
                } else {
                    let node_new = AstNode::Ty(Type::RefMut(ir));
                    let ghost nv = node_new@;
                    proof {
                        assert(node_wf(arena@, arena@.len() as int, nv));
                    }
                    r = arena.append(node_new);
                    proof {
                        lemma_tabs_wf_extend(s1.nodes, arena@, self@);
                        lemma_expanded_extend(s1.nodes, arena@, ir as int);
                        assert(expanded(arena@, r as int));
                        assert(fresh_id(s1) == r);
                    }
                }
                self.alloc_subst(arena, TableEntry::Type(r));
                proof {
                    lemma_extends_trans(s0.nodes, s1.nodes, arena@);
                    lemma_extends_trans(s0.tabs, s1.tabs, self@);
                    assert(dec_type(s0, i) == Result::<(DecState, usize), usize>::Ok(
                        ((DecState { nodes: arena@, tabs: self@ }), r),
                    ));
                }
                Result::Ok(r)
            },
            AstNode::Ty(Type::RawPtrConst(inner)) => {
                let x0: usize = *inner;
                proof {
                    assert(s0.nodes[i as int] == NodeView::Ty(TypeView::RawPtrConst(x0)));
                }
                let ir: usize;
                match self.decompress_type(arena, x0) {
                    Result::Ok(v) => {
                        ir = v;
                    },
                    Result::Err(e) => {
                        proof {
                            assert(dec_type(s0, i) == Result::<(DecState, usize), usize>::Err(
                                err_id(e),
                            ));
                        }
                        return Result::Err(e);
                    },
                }
                let ghost s1 = DecState { nodes: arena@, tabs: self@ };
                let r: usize;
                if ir == x0 {
                    r = i;
                    proof {
                        assert(arena@[i as int] == s0.nodes[i as int]);
                        assert(expanded(arena@, i as int));
                    }
                } else {
                    let node_new = AstNode::Ty(Type::RawPtrConst(ir));
                    let ghost nv = node_new@;
                    proof {
                        assert(node_wf(arena@, arena@.len() as int, nv));
                    }
                    r = arena.append(node_new);
                    proof {
                        lemma_tabs_wf_extend(s1.nodes, arena@, self@);
                        lemma_expanded_extend(s1.nodes, arena@, ir as int);
                        assert(expanded(arena@, r as int));
                        assert(fresh_id(s1) == r);
                    }
                }
                self.alloc_subst(arena, TableEntry::Type(r));
                proof {
                    lemma_extends_trans(s0.nodes, s1.nodes, arena@);
                    lemma_extends_trans(s0.tabs, s1.tabs, self@);
                    assert(dec_type(s0, i) == Result::<(DecState, usize), usize>::Ok(
                        ((DecState { nodes: arena@, tabs: self@ }), r),
                    ));
                }
                Result::Ok(r)
            },
            AstNode::Ty(Type::RawPtrMut(inner)) => {
                let x0: usize = *inner;
                proof {
                    assert(s0.nodes[i as int] == NodeView::Ty(TypeView::RawPtrMut(x0)));
                }
                let ir: usize;
                match self.decompress_type(arena, x0) {
                    Result::Ok(v) => {
                        ir = v;
                    },
                    Result::Err(e) => {
                        proof {
                            assert(dec_type(s0, i) == Result::<(DecState, usize), usize>::Err(
                                err_id(e),
                            ));
                        }
                        return Result::Err(e);
                    },
                }
                let ghost s1 = DecState { nodes: arena@, tabs: self@ };
                let r: usize;
                if ir == x0 {
                    r = i;
                    proof {
                        assert(arena@[i as int] == s0.nodes[i as int]);
                        assert(expanded(arena@, i as int));
                    }
                } else {
                    let node_new = AstNode::Ty(Type::RawPtrMut(ir));
                    let ghost nv = node_new@;
                    proof {
                        assert(node_wf(arena@, arena@.len() as int, nv));
                    }
                    r = arena.append(node_new);
                    proof {
                        lemma_tabs_wf_extend(s1.nodes, arena@, self@);
                        lemma_expanded_extend(s1.nodes, arena@, ir as int);
                        assert(expanded(arena@, r as int));
                        assert(fresh_id(s1) == r);
                    }
                }
                self.alloc_subst(arena, TableEntry::Type(r));
                proof {
                    lemma_extends_trans(s0.nodes, s1.nodes, arena@);
                    lemma_extends_trans(s0.tabs, s1.tabs, self@);
                    assert(dec_type(s0, i) == Result::<(DecState, usize), usize>::Ok(
                        ((DecState { nodes: arena@, tabs: self@ }), r),
                    ));
                }
                Result::Ok(r)
            },
            AstNode::Ty(Type::Array(sz, inner)) => {
                let szc: Option<u64> = *sz;
                let x0: usize = *inner;
                proof {
                    assert(s0.nodes[i as int] == NodeView::Ty(TypeView::Array(szc, x0)));
                }
                let ir: usize;
                match self.decompress_type(arena, x0) {
                    Result::Ok(v) => {
                        ir = v;
                    },
                    Result::Err(e) => {
                        proof {
                            assert(dec_type(s0, i) == Result::<(DecState, usize), usize>::Err(
                                err_id(e),
                            ));
                        }
                        return Result::Err(e);
                    },
                }
                let ghost s1 = DecState { nodes: arena@, tabs: self@ };
                let r: usize;
                if ir == x0 {
                    r = i;
                    proof {
                        assert(arena@[i as int] == s0.nodes[i as int]);
                        assert(expanded(arena@, i as int));
                    }
                } else {
                    let node_new = AstNode::Ty(Type::Array(szc, ir));
                    let ghost nv = node_new@;
                    proof {
                        assert(node_wf(arena@, arena@.len() as int, nv));
                    }
                    r = arena.append(node_new);
                    proof {
                        lemma_tabs_wf_extend(s1.nodes, arena@, self@);
                        lemma_expanded_extend(s1.nodes, arena@, ir as int);
                        assert(expanded(arena@, r as int));
                        assert(fresh_id(s1) == r);
                    }
                }
                self.alloc_subst(arena, TableEntry::Type(r));
                proof {
                    lemma_extends_trans(s0.nodes, s1.nodes, arena@);
                    lemma_extends_trans(s0.tabs, s1.tabs, self@);
                    assert(dec_type(s0, i) == Result::<(DecState, usize), usize>::Ok(
                        ((DecState { nodes: arena@, tabs: self@ }), r),
                    ));
                }
                Result::Ok(r)
            },
            AstNode::Ty(Type::Tuple(comps)) => {
                let comps_c: Vec<usize> = copy_ids(comps);
                let ghost compsv = comps_c@;
                proof {
                    assert(s0.nodes[i as int] == NodeView::Ty(TypeView::Tuple(compsv)));
                    assert forall|k: int| 0 <= k < compsv.len() implies compsv[k] < i && is_ty_at(
                        arena@,
                        #[trigger] compsv[k] as int,
                    ) by {}
                }
                let rs: Vec<usize>;
                match self.decompress_generic_parameter_list(arena, &comps_c, Ghost(i)) {
                    Result::Ok(v) => {
                        rs = v;
                    },
                    Result::Err(e) => {
                        proof {
                            assert(dec_type(s0, i) == Result::<(DecState, usize), usize>::Err(
                                err_id(e),
                            ));
                        }
                        return Result::Err(e);
                    },
                }
                let ghost s1 = DecState { nodes: arena@, tabs: self@ };
                let ghost rsv = rs@;
                let same: bool = same_ids(&rs, &comps_c);
                let r: usize;
                if same {
                    r = i;
                    proof {
                        assert(arena@[i as int] == s0.nodes[i as int]);
                        assert forall|k: int| 0 <= k < compsv.len() implies compsv[k] < i as int
                            && expanded(arena@, #[trigger] compsv[k] as int) by {
                            assert(compsv[k] == rsv[k]);
                            assert(expanded(arena@, rsv[k] as int));
                        }
                        lemma_all_expanded_from_pointwise(arena@, compsv, i as int);
                        assert(expanded(arena@, i as int));
                    }
                } else {
                    let node_new = AstNode::Ty(Type::Tuple(rs));
                    let ghost nv = node_new@;
                    proof {
                        assert(nv == NodeView::Ty(TypeView::Tuple(rsv)));
                        assert(node_wf(arena@, arena@.len() as int, nv));
                    }
                    r = arena.append(node_new);
                    proof {
                        lemma_tabs_wf_extend(s1.nodes, arena@, self@);
                        assert forall|k: int| 0 <= k < rsv.len() implies rsv[k] < r as int
                            && expanded(arena@, #[trigger] rsv[k] as int) by {
                            assert(is_ty_at(s1.nodes, rsv[k] as int));
                            lemma_expanded_extend(s1.nodes, arena@, rsv[k] as int);
                        }
                        lemma_all_expanded_from_pointwise(arena@, rsv, r as int);
                        assert(expanded(arena@, r as int));
                        assert(fresh_id(s1) == r);
                    }
                }
                self.alloc_subst(arena, TableEntry::Type(r));
                proof {
                    lemma_extends_trans(s0.nodes, s1.nodes, arena@);
                    lemma_extends_trans(s0.tabs, s1.tabs, self@);
                    assert(dec_type(s0, i) == Result::<(DecState, usize), usize>::Ok(
                        ((DecState { nodes: arena@, tabs: self@ }), r),
                    ));
                }
                Result::Ok(r)
            },
            AstNode::Ty(Type::Named(path)) => {
                let p0: usize = *path;
                proof {
                    assert(s0.nodes[i as int] == NodeView::Ty(TypeView::Named(p0)));
                }
                let pr: usize;
                match self.decompress_abs_path(arena, p0) {
                    Result::Ok(v) => {
                        pr = v;
                    },
                    Result::Err(e) => {
                        proof {
                            assert(dec_type(s0, i) == Result::<(DecState, usize), usize>::Err(
                                err_id(e),
                            ));
                        }
                        return Result::Err(e);
                    },
                }
                let ghost s1 = DecState { nodes: arena@, tabs: self@ };
                if pr == p0 {
                    proof {
                        assert(arena@[i as int] == s0.nodes[i as int]);
                        assert(expanded(arena@, i as int));
                        assert(dec_type(s0, i) == Result::<(DecState, usize), usize>::Ok(
                            ((DecState { nodes: arena@, tabs: self@ }), i),
                        ));
                    }
                    Result::Ok(i)
                } else {
                    let node_new = AstNode::Ty(Type::Named(pr));
                    let ghost nv = node_new@;
                    proof {
                        assert(node_wf(arena@, arena@.len() as int, nv));
                    }
                    let r: usize = arena.append(node_new);
                    proof {
                        lemma_tabs_wf_extend(s1.nodes, arena@, self@);
                        lemma_expanded_extend(s1.nodes, arena@, pr as int);
                        assert(expanded(arena@, r as int));
                        assert(fresh_id(s1) == r);
                        lemma_extends_trans(s0.nodes, s1.nodes, arena@);
                        assert(dec_type(s0, i) == Result::<(DecState, usize), usize>::Ok(
                            ((DecState { nodes: arena@, tabs: self@ }), r),
                        ));
                    }
                    Result::Ok(r)
                }
            },
            AstNode::Ty(Type::Fn { is_unsafe, abi, return_type, params }) => {
                let us: bool = *is_unsafe;
                let ab: u64 = *abi;
                let rt: Option<usize> = *return_type;
                let params_c: Vec<usize> = copy_ids(params);
                let ghost paramsv = params_c@;
                proof {
                    assert(s0.nodes[i as int] == NodeView::Ty(
                        TypeView::Fn { is_unsafe: us, abi: ab, return_type: rt, params: paramsv },
                    ));
                    assert forall|k: int| 0 <= k < paramsv.len() implies paramsv[k] < i
                        && is_ty_at(arena@, #[trigger] paramsv[k] as int) by {}
                }
                let ps: Vec<usize>;
                match self.decompress_generic_parameter_list(arena, &params_c, Ghost(i)) {
                    Result::Ok(v) => {
                        ps = v;
                    },
                    Result::Err(e) => {
                        proof {
                            assert(dec_type(s0, i) == Result::<(DecState, usize), usize>::Err(
                                err_id(e),
                            ));
                        }
                        return Result::Err(e);
                    },
                }
                let ghost s1 = DecState { nodes: arena@, tabs: self@ };
                let ghost psv = ps@;
                let mut nrt: Option<usize> = None;
                match rt {
                    Some(t) => {
                        proof {
                            assert(is_ty_at(s0.nodes, t as int));
                            assert(arena@[t as int] == s0.nodes[t as int]);
                        }
                        match self.decompress_type(arena, t) {
                            Result::Ok(v) => {
                                nrt = Some(v);
                            },
                            Result::Err(e) => {
                                proof {
                                    lemma_extends_trans(s0.nodes, s1.nodes, arena@);
                                    lemma_extends_trans(s0.tabs, s1.tabs, self@);
                                    assert(dec_type(s0, i) == Result::<
                                        (DecState, usize),
                                        usize,
                                    >::Err(err_id(e)));
                                }
                                return Result::Err(e);
                            },
                        }
                    },
                    None => {},
                }
                let ghost s2 = DecState { nodes: arena@, tabs: self@ };
                proof {
                    lemma_extends_trans(s0.nodes, s1.nodes, s2.nodes);
                    lemma_extends_trans(s0.tabs, s1.tabs, s2.tabs);
                }
                let rts_same: bool = match (rt, nrt) {
                    (Some(a), Some(b)) => a == b,
                    (None, None) => true,
                    _ => false,
                };
                let same: bool = rts_same && same_ids(&ps, &params_c);
                let r: usize;
                if same {
                    r = i;
                    proof {
                        assert(arena@[i as int] == s0.nodes[i as int]);
                        assert forall|k: int| 0 <= k < paramsv.len() implies paramsv[k] < i as int
                            && expanded(arena@, #[trigger] paramsv[k] as int) by {
                            assert(paramsv[k] == psv[k]);
                            assert(is_ty_at(s1.nodes, psv[k] as int));
                            lemma_expanded_extend(s1.nodes, s2.nodes, psv[k] as int);
                        }
                        lemma_all_expanded_from_pointwise(arena@, paramsv, i as int);
                        match nrt {
                            Some(x) => {
                                assert(expanded(arena@, x as int));
                            },
                            None => {},
                        }
                        assert(expanded(arena@, i as int));
                    }
                } else {
                    let node_new = AstNode::Ty(
                        Type::Fn { is_unsafe: us, abi: ab, return_type: nrt, params: ps },
                    );
                    let ghost nv = node_new@;
                    proof {
                        assert(nv == NodeView::Ty(
                            TypeView::Fn {
                                is_unsafe: us,
                                abi: ab,
                                return_type: nrt,
                                params: psv,
                            },
                        ));
                        assert forall|k: int| 0 <= k < psv.len() implies psv[k]
                            < arena@.len() as int && is_ty_at(
                            arena@,
                            #[trigger] psv[k] as int,
                        ) by {
                            assert(is_ty_at(s1.nodes, psv[k] as int));
                            assert(arena@[psv[k] as int] == s1.nodes[psv[k] as int]);
                        }
                        assert(node_wf(arena@, arena@.len() as int, nv));
                    }
                    r = arena.append(node_new);
                    proof {
                        lemma_tabs_wf_extend(s2.nodes, arena@, self@);
                        assert forall|k: int| 0 <= k < psv.len() implies psv[k] < r as int
                            && expanded(arena@, #[trigger] psv[k] as int) by {
                            assert(is_ty_at(s1.nodes, psv[k] as int));
                            lemma_expanded_extend(s1.nodes, s2.nodes, psv[k] as int);
                            lemma_expanded_extend(s2.nodes, arena@, psv[k] as int);
                        }
                        lemma_all_expanded_from_pointwise(arena@, psv, r as int);
                        match nrt {
                            Some(x) => {
                                lemma_expanded_extend(s2.nodes, arena@, x as int);
                            },
                            None => {},
                        }
                        assert(expanded(arena@, r as int));
                        assert(fresh_id(s2) == r);
                    }
                }
                self.alloc_subst(arena, TableEntry::Type(r));
                proof {
                    lemma_extends_trans(s0.nodes, s2.nodes, arena@);
                    lemma_extends_trans(s0.tabs, s2.tabs, self@);
                    assert(dec_type(s0, i) == Result::<(DecState, usize), usize>::Ok(
                        ((DecState { nodes: arena@, tabs: self@ }), r),
                    ));
                }
                Result::Ok(r)
            },
            AstNode::Ty(Type::GenericParam(_)) => {
                proof {
                    assert(expanded(s0.nodes, i as int));
                }
                self.alloc_subst(arena, TableEntry::Type(i));
                proof {
                    assert(dec_type(s0, i) == Result::<(DecState, usize), usize>::Ok(
                        ((DecState { nodes: arena@, tabs: self@ }), i),
                    ));
                }
                Result::Ok(i)
            },
            AstNode::Ty(Type::Subst(id)) => {
                let sid: usize = *id;
                proof {
                    assert(s0.nodes[i as int] == NodeView::Ty(TypeView::Subst(sid)));
                }
                if sid < self.entries.len() {
                    match self.entries[sid] {
                        TableEntry::Type(x) => {
                            proof {
                                assert(self@[sid as int] == TableEntry::Type(x));
                                assert(entry_good(arena@, self@[sid as int]));
                                assert(dec_type(s0, i) == Result::<(DecState, usize), usize>::Ok(
                                    ((DecState { nodes: arena@, tabs: self@ }), x),
                                ));
                            }
                            Result::Ok(x)
                        },
                        TableEntry::Path(x) => {
                            proof {
                                assert(self@[sid as int] == TableEntry::Path(x));
                                assert(entry_good(arena@, self@[sid as int]));
                            }
                            let node_new = AstNode::Ty(Type::Named(x));
                            let ghost nv = node_new@;
                            proof {
                                assert(node_wf(arena@, arena@.len() as int, nv));
                            }
                            let r: usize = arena.append(node_new);
                            proof {
                                lemma_tabs_wf_extend(s0.nodes, arena@, self@);
                                lemma_expanded_extend(s0.nodes, arena@, x as int);
                                assert(expanded(arena@, r as int));
                                assert(fresh_id(s0) == r);
                                assert(dec_type(s0, i) == Result::<(DecState, usize), usize>::Ok(
                                    ((DecState { nodes: arena@, tabs: self@ }), r),
                                ));
                            }
                            Result::Ok(r)
                        },
                        TableEntry::Prefix(x) => {
                            proof {
                                assert(self@[sid as int] == TableEntry::Prefix(x));
                                assert(entry_good(arena@, self@[sid as int]));
                            }
                            let empty_args: Vec<usize> = Vec::new();
                            proof {
                                assert(empty_args@ =~= Seq::<usize>::empty());
                            }
                            let path_node = AstNode::Path(
                                AbsolutePath::Path { name: x, args: empty_args },
                            );
                            let ghost pv = path_node@;
                            proof {
                                assert(pv == NodeView::Path(
                                    PathView::Path { name: x, args: Seq::empty() },
                                ));
                                assert(node_wf(arena@, arena@.len() as int, pv));
                            }
                            let j: usize = arena.append(path_node);
                            let ghost s1 = DecState { nodes: arena@, tabs: self@ };
                            let named_node = AstNode::Ty(Type::Named(j));
                            let ghost nv = named_node@;
                            proof {
                                lemma_tabs_wf_extend(s0.nodes, s1.nodes, self@);
                                lemma_expanded_extend(s0.nodes, s1.nodes, x as int);
                                lemma_all_expanded_from_pointwise(
                                    s1.nodes,
                                    Seq::empty(),
                                    j as int,
                                );
                                assert(expanded(s1.nodes, j as int));
                                assert(node_wf(arena@, arena@.len() as int, nv));
                            }
                            let r: usize = arena.append(named_node);
                            proof {
                                lemma_tabs_wf_extend(s1.nodes, arena@, self@);
                                lemma_expanded_extend(s1.nodes, arena@, j as int);
                                assert(expanded(arena@, r as int));
                                assert(fresh_id(s0) == j);
                                assert(fresh_id(s1) == r);
                                lemma_extends_trans(s0.nodes, s1.nodes, arena@);
                                assert(dec_type(s0, i) == Result::<(DecState, usize), usize>::Ok(
                                    ((DecState { nodes: arena@, tabs: self@ }), r),
                                ));
                            }
                            Result::Ok(r)
                        },
                    }
                } else {
                    proof {
                        assert(dec_type(s0, i) == Result::<(DecState, usize), usize>::Err(sid));
                    }
                    Result::Err(DecompressError::UnresolvedSubst(sid))
                }
            },
            AstNode::Prefix(_) => {
                proof {
                    assert(false);
                }
                Result::Err(DecompressError::UnresolvedSubst(0))
            },
            AstNode::Path(_) => {
                proof {
                    assert(false);
                }
                Result::Err(DecompressError::UnresolvedSubst(0))
            },
        }
    }

    /// Expands a whole symbol: the absolute path first, then the
    /// instantiating crate's prefix if present.  On success the returned
    /// symbol's trees hold no `Subst` node at any depth.
    pub fn decompress_symbol(&mut self, arena: &mut Arena, symbol: &Symbol) -> (r: Result<
        Symbol,
        DecompressError,
    >)
        requires
            arena_wf(old(arena)@),
            tabs_wf(old(arena)@, old(self)@),
            symbol_wf(old(arena)@, *symbol),
        ensures
            arena_wf(final(arena)@),
            extends(old(arena)@, final(arena)@),
            extends(old(self)@, final(self)@),
            tabs_wf(final(arena)@, final(self)@),
            (match r {
                Result::Ok(out) => {
                    &&& dec_symbol((DecState { nodes: old(arena)@, tabs: old(self)@ }), *symbol)
                        == Result::<(DecState, Symbol), usize>::Ok(
                        ((DecState { nodes: final(arena)@, tabs: final(self)@ }), out),
                    )
                    &&& is_path_at(final(arena)@, out.name as int)
                    &&& expanded(final(arena)@, out.name as int)
                    &&& match out.instantiating_crate {
                        Some(ic) => is_prefix_at(final(arena)@, ic as int) && expanded(
                            final(arena)@,
                            ic as int,
                        ),
                        None => symbol.instantiating_crate is None,
                    }
                },
                Result::Err(e) => dec_symbol(
                    (DecState { nodes: old(arena)@, tabs: old(self)@ }),
                    *symbol,
                ) == Result::<(DecState, Symbol), usize>::Err(err_id(e)),
            }),
    {
        let ghost s0 = DecState { nodes: arena@, tabs: self@ };
        let n_r: usize;
        match self.decompress_abs_path(arena, symbol.name) {
            Result::Ok(x) => {
                n_r = x;
            },
            Result::Err(e) => {
                proof {
                    assert(dec_symbol(s0, *symbol) == Result::<(DecState, Symbol), usize>::Err(
                        err_id(e),
                    ));
                }
                return Result::Err(e);
            },
        }
        let ghost s1 = DecState { nodes: arena@, tabs: self@ };
        match symbol.instantiating_crate {
            Some(ic) => {
                proof {
                    assert(arena@[ic as int] == s0.nodes[ic as int]);
                }
                match self.decompress_path_prefix(arena, ic) {
                    Result::Ok(ic_r) => {
                        let out = Symbol { name: n_r, instantiating_crate: Some(ic_r) };
                        proof {
                            lemma_extends_trans(s0.nodes, s1.nodes, arena@);
                            lemma_extends_trans(s0.tabs, s1.tabs, self@);
                            lemma_expanded_extend(s1.nodes, arena@, n_r as int);
                            assert(arena@[n_r as int] == s1.nodes[n_r as int]);
                            assert(dec_symbol(s0, *symbol) == Result::<
                                (DecState, Symbol),
                                usize,
                            >::Ok(((DecState { nodes: arena@, tabs: self@ }), out)));
                        }
                        Result::Ok(out)
                    },
                    Result::Err(e) => {
                        proof {
                            lemma_extends_trans(s0.nodes, s1.nodes, arena@);
                            lemma_extends_trans(s0.tabs, s1.tabs, self@);
                            assert(dec_symbol(s0, *symbol) == Result::<
                                (DecState, Symbol),
                                usize,
                            >::Err(err_id(e)));
                        }
                        Result::Err(e)
                    },
                }
            },
            None => {
                let out = Symbol { name: n_r, instantiating_crate: None };
                proof {
                    assert(dec_symbol(s0, *symbol) == Result::<(DecState, Symbol), usize>::Ok(
                        ((DecState { nodes: arena@, tabs: self@ }), out),
                    ));
                }
                Result::Ok(out)
            },
        }
    }
}

/// The one externally invoked operation: expands `symbol` against a
/// fresh, unshared substitution table and returns the expanded symbol
/// together with the fully populated table.
///
/// A dangling back-reference is a programming-invariant violation on the
/// producer's side, never a recoverable user error; at this boundary it
/// surfaces as `Err` rather than a crash, with the detection logic
/// unchanged: `Err` is returned exactly when a `Subst(id)` is met whose id
/// none of the applicable tables holds, and no partial result escapes.
pub fn decompress_ext(arena: &mut Arena, symbol: &Symbol) -> (r: Result<
    (Symbol, Decompress),
    DecompressError,
>)
    requires
        arena_wf(old(arena)@),
        symbol_wf(old(arena)@, *symbol),
    ensures
        arena_wf(final(arena)@),
        extends(old(arena)@, final(arena)@),
        (match r {
            Result::Ok(p) => {
                &&& dec_symbol((DecState { nodes: old(arena)@, tabs: Seq::empty() }), *symbol)
                    == Result::<(DecState, Symbol), usize>::Ok(
                    ((DecState { nodes: final(arena)@, tabs: p.1@ }), p.0),
                )
                &&& tabs_wf(final(arena)@, p.1@)
                &&& is_path_at(final(arena)@, p.0.name as int)
                &&& expanded(final(arena)@, p.0.name as int)
                &&& match p.0.instantiating_crate {
                    Some(ic) => is_prefix_at(final(arena)@, ic as int) && expanded(
                        final(arena)@,
                        ic as int,
                    ),
                    None => symbol.instantiating_crate is None,
                }
            },
            Result::Err(e) => dec_symbol(
                (DecState { nodes: old(arena)@, tabs: Seq::empty() }),
                *symbol,
            ) == Result::<(DecState, Symbol), usize>::Err(err_id(e)),
        }),
{
    let mut state = Decompress::new();
    proof {
        assert(tabs_wf(arena@, state@));
    }
    let res = state.decompress_symbol(arena, symbol);
    match res {
        Result::Ok(out) => Result::Ok((out, state)),
        Result::Err(e) => Result::Err(e),
    }
}

} // verus!
