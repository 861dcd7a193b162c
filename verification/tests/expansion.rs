use decompress::{
    decompress_ext, AbsolutePath, Arena, AstNode, Decompress, DecompressError, PathPrefix, Symbol,
    TableEntry, Type,
};

fn s(x: &str) -> String {
    x.to_string()
}

/// Walks the tree rooted at `i` and panics on any residual `Subst` node.
fn assert_expanded(arena: &Arena, i: usize) {
    match arena.node(i) {
        AstNode::Prefix(PathPrefix::CrateId { .. }) => {}
        AstNode::Prefix(PathPrefix::TraitImpl { self_type, impled_trait, .. }) => {
            assert_expanded(arena, *self_type);
            if let Some(t) = impled_trait {
                assert_expanded(arena, *t);
            }
        }
        AstNode::Prefix(PathPrefix::Node { prefix, .. }) => assert_expanded(arena, *prefix),
        AstNode::Prefix(PathPrefix::Subst(_)) => panic!("residual prefix substitution"),
        AstNode::Path(AbsolutePath::Path { name, args }) => {
            assert_expanded(arena, *name);
            for a in args {
                assert_expanded(arena, *a);
            }
        }
        AstNode::Path(AbsolutePath::Subst(_)) => panic!("residual path substitution"),
        AstNode::Ty(Type::BasicType(_)) => {}
        AstNode::Ty(Type::Ref(x))
        | AstNode::Ty(Type::RefMut(x))
        | AstNode::Ty(Type::RawPtrConst(x))
        | AstNode::Ty(Type::RawPtrMut(x))
        | AstNode::Ty(Type::Array(_, x)) => assert_expanded(arena, *x),
        AstNode::Ty(Type::Tuple(c)) => {
            for a in c {
                assert_expanded(arena, *a);
            }
        }
        AstNode::Ty(Type::Named(p)) => assert_expanded(arena, *p),
        AstNode::Ty(Type::Fn { return_type, params, .. }) => {
            for a in params {
                assert_expanded(arena, *a);
            }
            if let Some(rt) = return_type {
                assert_expanded(arena, *rt);
            }
        }
        AstNode::Ty(Type::GenericParam(_)) => {}
        AstNode::Ty(Type::Subst(_)) => panic!("residual type substitution"),
    }
}

/// A compressed symbol that exercises prefixes, a generic parameter and a
/// back-reference resolved through the prefix table.
fn sample_symbol(arena: &mut Arena) -> Symbol {
    let cid = arena.append(AstNode::Prefix(PathPrefix::CrateId { name: s("c") }));
    let seg = arena.append(AstNode::Prefix(PathPrefix::Node { prefix: cid, ident: s("f") }));
    let gp = arena.append(AstNode::Ty(Type::GenericParam(0)));
    let su = arena.append(AstNode::Ty(Type::Subst(1)));
    let path = arena.append(AstNode::Path(AbsolutePath::Path {
        name: seg,
        args: vec![gp, su],
    }));
    Symbol { name: path, instantiating_crate: None }
}

#[test]
fn end_to_end_scenario() {
    let mut arena = Arena::new();
    let basic = arena.append(AstNode::Ty(Type::BasicType(s("i32"))));
    let crate_id = arena.append(AstNode::Prefix(PathPrefix::CrateId { name: s("c") }));
    let node = arena.append(AstNode::Prefix(PathPrefix::Node {
        prefix: crate_id,
        ident: s("foo"),
    }));
    let arg = arena.append(AstNode::Ty(Type::Subst(0)));
    let path = arena.append(AstNode::Path(AbsolutePath::Path { name: node, args: vec![arg] }));

    let mut d = Decompress::new();
    // Pre-seed substitution 0, as a prior sibling expansion would have.
    d.alloc_subst(&arena, TableEntry::Type(basic));
    assert_eq!(d.subst_count(), 1);

    let r = d.decompress_abs_path(&mut arena, path).unwrap();
    assert_ne!(r, path);
    match arena.node(r) {
        AstNode::Path(AbsolutePath::Path { name, args }) => {
            assert_eq!(*name, node);
            assert_eq!(args, &vec![basic]);
        }
        _ => panic!("expected an absolute path"),
    }
    // One prefix entry each for CrateId and Node, one path entry for the
    // non-empty-args path, and nothing else.
    assert_eq!(d.subst_count(), 4);
    assert_eq!(d.lookup(1), Some(TableEntry::Prefix(crate_id)));
    assert_eq!(d.lookup(2), Some(TableEntry::Prefix(node)));
    assert_eq!(d.lookup(3), Some(TableEntry::Path(r)));
}

#[test]
fn determinism_fresh_tables() {
    let mut a1 = Arena::new();
    let sym = sample_symbol(&mut a1);
    let mut a2 = a1.clone();

    let (out1, d1) = decompress_ext(&mut a1, &sym).unwrap();
    let (out2, d2) = decompress_ext(&mut a2, &sym).unwrap();

    assert_eq!(out1, out2);
    assert_eq!(a1, a2);
    assert_eq!(d1.subst_count(), d2.subst_count());
    for id in 0..d1.subst_count() {
        assert_eq!(d1.lookup(id), d2.lookup(id));
    }
}

#[test]
fn no_residual_substitutions() {
    let mut arena = Arena::new();
    let sym = sample_symbol(&mut arena);
    let (out, _d) = decompress_ext(&mut arena, &sym).unwrap();
    assert_expanded(&arena, out.name);
    assert!(out.instantiating_crate.is_none());
}

#[test]
fn basic_type_allocates_nothing() {
    let mut arena = Arena::new();
    let basic = arena.append(AstNode::Ty(Type::BasicType(s("u8"))));
    let before = arena.len();
    let mut d = Decompress::new();
    let r = d.decompress_type(&mut arena, basic).unwrap();
    assert_eq!(r, basic);
    assert_eq!(d.subst_count(), 0);
    assert_eq!(arena.len(), before);
}

#[test]
fn generic_param_allocates_one() {
    let mut arena = Arena::new();
    let gp = arena.append(AstNode::Ty(Type::GenericParam(2)));
    let mut d = Decompress::new();
    let r = d.decompress_type(&mut arena, gp).unwrap();
    assert_eq!(r, gp);
    assert_eq!(d.subst_count(), 1);
    assert_eq!(d.lookup(0), Some(TableEntry::Type(gp)));
}

#[test]
fn ref_allocates_one_and_reuses() {
    let mut arena = Arena::new();
    let basic = arena.append(AstNode::Ty(Type::BasicType(s("i8"))));
    let r_node = arena.append(AstNode::Ty(Type::Ref(basic)));
    let before = arena.len();
    let mut d = Decompress::new();
    let r = d.decompress_type(&mut arena, r_node).unwrap();
    assert_eq!(r, r_node);
    assert_eq!(arena.len(), before);
    assert_eq!(d.subst_count(), 1);
    assert_eq!(d.lookup(0), Some(TableEntry::Type(r_node)));
}

#[test]
fn named_type_allocates_no_type_entry() {
    let mut arena = Arena::new();
    let cid = arena.append(AstNode::Prefix(PathPrefix::CrateId { name: s("c") }));
    let path = arena.append(AstNode::Path(AbsolutePath::Path { name: cid, args: vec![] }));
    let named = arena.append(AstNode::Ty(Type::Named(path)));
    let before = arena.len();
    let mut d = Decompress::new();
    let r = d.decompress_type(&mut arena, named).unwrap();
    assert_eq!(r, named);
    assert_eq!(arena.len(), before);
    // Only the CrateId's prefix entry: no path entry (empty args), no type
    // entry for the Named wrapper.
    assert_eq!(d.subst_count(), 1);
    assert_eq!(d.lookup(0), Some(TableEntry::Prefix(cid)));
}

#[test]
fn zero_arg_path_shares_through_prefix_table() {
    let mut arena = Arena::new();
    let cid = arena.append(AstNode::Prefix(PathPrefix::CrateId { name: s("c") }));
    let path = arena.append(AstNode::Path(AbsolutePath::Path { name: cid, args: vec![] }));
    let mut d = Decompress::new();
    let r = d.decompress_abs_path(&mut arena, path).unwrap();
    assert_eq!(r, path);
    // No absolute-path-table entry was created; the prefix entry stands in.
    assert_eq!(d.subst_count(), 1);
    assert_eq!(d.lookup(0), Some(TableEntry::Prefix(cid)));

    // A later Subst resolving to that id synthesizes an equivalent
    // zero-argument path around the stored prefix.
    let su = arena.append(AstNode::Path(AbsolutePath::Subst(0)));
    let before = d.subst_count();
    let r2 = d.decompress_abs_path(&mut arena, su).unwrap();
    assert_ne!(r2, su);
    match arena.node(r2) {
        AstNode::Path(AbsolutePath::Path { name, args }) => {
            assert_eq!(*name, cid);
            assert!(args.is_empty());
        }
        _ => panic!("expected a synthesized zero-argument path"),
    }
    assert_eq!(d.subst_count(), before);
}

#[test]
fn structural_reuse_identity() {
    let mut arena = Arena::new();
    let b1 = arena.append(AstNode::Ty(Type::BasicType(s("i32"))));
    let b2 = arena.append(AstNode::Ty(Type::BasicType(s("u64"))));
    let tup = arena.append(AstNode::Ty(Type::Tuple(vec![b1, b2])));
    let cid = arena.append(AstNode::Prefix(PathPrefix::CrateId { name: s("c") }));
    let seg = arena.append(AstNode::Prefix(PathPrefix::Node { prefix: cid, ident: s("g") }));
    let path = arena.append(AstNode::Path(AbsolutePath::Path { name: seg, args: vec![tup] }));
    let before = arena.len();
    let mut d = Decompress::new();
    let r = d.decompress_abs_path(&mut arena, path).unwrap();
    // Nothing beneath the path held a substitution, so every node is the
    // same shared node, and no new node was built.
    assert_eq!(r, path);
    assert_eq!(arena.len(), before);
}

#[test]
fn fatal_on_dangling_reference() {
    let mut arena = Arena::new();
    let cid = arena.append(AstNode::Prefix(PathPrefix::CrateId { name: s("c") }));
    let arg = arena.append(AstNode::Ty(Type::Subst(7)));
    let path = arena.append(AstNode::Path(AbsolutePath::Path { name: cid, args: vec![arg] }));
    let sym = Symbol { name: path, instantiating_crate: None };
    let err = decompress_ext(&mut arena, &sym).unwrap_err();
    assert_eq!(err, DecompressError::UnresolvedSubst(7));
}

#[test]
fn dangling_prefix_reference() {
    let mut arena = Arena::new();
    let su = arena.append(AstNode::Prefix(PathPrefix::Subst(3)));
    let mut d = Decompress::new();
    let err = d.decompress_path_prefix(&mut arena, su).unwrap_err();
    assert_eq!(err, DecompressError::UnresolvedSubst(3));
}

#[test]
fn dangling_path_reference_ignores_type_entries() {
    let mut arena = Arena::new();
    let basic = arena.append(AstNode::Ty(Type::BasicType(s("i32"))));
    let su = arena.append(AstNode::Path(AbsolutePath::Subst(0)));
    let mut d = Decompress::new();
    // Id 0 exists, but only in the type table, which an absolute-path
    // substitution never consults.
    d.alloc_subst(&arena, TableEntry::Type(basic));
    let err = d.decompress_abs_path(&mut arena, su).unwrap_err();
    assert_eq!(err, DecompressError::UnresolvedSubst(0));
}

#[test]
fn type_subst_resolves_type_table_first() {
    let mut arena = Arena::new();
    let basic = arena.append(AstNode::Ty(Type::BasicType(s("i16"))));
    let r_node = arena.append(AstNode::Ty(Type::Ref(basic)));
    let mut d = Decompress::new();
    let first = d.decompress_type(&mut arena, r_node).unwrap();
    assert_eq!(first, r_node);
    // Substitution 0 now denotes the Ref type.
    let su = arena.append(AstNode::Ty(Type::Subst(0)));
    let before = arena.len();
    let r = d.decompress_type(&mut arena, su).unwrap();
    assert_eq!(r, r_node);
    assert_eq!(arena.len(), before);
    assert_eq!(d.subst_count(), 1);
}

#[test]
fn type_subst_wraps_path_entry_in_named() {
    let mut arena = Arena::new();
    let cid = arena.append(AstNode::Prefix(PathPrefix::CrateId { name: s("c") }));
    let gp = arena.append(AstNode::Ty(Type::GenericParam(0)));
    let path = arena.append(AstNode::Path(AbsolutePath::Path { name: cid, args: vec![gp] }));
    let mut d = Decompress::new();
    let pr = d.decompress_abs_path(&mut arena, path).unwrap();
    assert_eq!(pr, path);
    // Ids: 0 = CrateId prefix, 1 = GenericParam type, 2 = the path.
    assert_eq!(d.lookup(2), Some(TableEntry::Path(path)));
    let su = arena.append(AstNode::Ty(Type::Subst(2)));
    let r = d.decompress_type(&mut arena, su).unwrap();
    match arena.node(r) {
        AstNode::Ty(Type::Named(p)) => assert_eq!(*p, path),
        _ => panic!("expected a Named wrapper"),
    }
    assert_eq!(d.subst_count(), 3);
}

#[test]
fn type_subst_wraps_prefix_entry_in_zero_arg_named_path() {
    let mut arena = Arena::new();
    let cid = arena.append(AstNode::Prefix(PathPrefix::CrateId { name: s("c") }));
    let mut d = Decompress::new();
    let pr = d.decompress_path_prefix(&mut arena, cid).unwrap();
    assert_eq!(pr, cid);
    let su = arena.append(AstNode::Ty(Type::Subst(0)));
    let r = d.decompress_type(&mut arena, su).unwrap();
    match arena.node(r) {
        AstNode::Ty(Type::Named(p)) => match arena.node(*p) {
            AstNode::Path(AbsolutePath::Path { name, args }) => {
                assert_eq!(*name, cid);
                assert!(args.is_empty());
            }
            _ => panic!("expected a synthesized path"),
        },
        _ => panic!("expected a Named wrapper"),
    }
    assert_eq!(d.subst_count(), 1);
}

#[test]
fn trait_impl_is_rebuilt_and_allocated() {
    let mut arena = Arena::new();
    let basic = arena.append(AstNode::Ty(Type::BasicType(s("i32"))));
    let cid = arena.append(AstNode::Prefix(PathPrefix::CrateId { name: s("c") }));
    let tr = arena.append(AstNode::Path(AbsolutePath::Path { name: cid, args: vec![] }));
    let ti = arena.append(AstNode::Prefix(PathPrefix::TraitImpl {
        self_type: basic,
        impled_trait: Some(tr),
        dis: 9,
    }));
    let mut d = Decompress::new();
    let r = d.decompress_path_prefix(&mut arena, ti).unwrap();
    // A TraitImpl is constructed afresh even when no child changed.
    assert_ne!(r, ti);
    match arena.node(r) {
        AstNode::Prefix(PathPrefix::TraitImpl { self_type, impled_trait, dis }) => {
            assert_eq!(*self_type, basic);
            assert_eq!(*impled_trait, Some(tr));
            assert_eq!(*dis, 9);
        }
        _ => panic!("expected a TraitImpl"),
    }
    // Ids: 0 = the trait path's CrateId, 1 = the rebuilt TraitImpl.
    assert_eq!(d.subst_count(), 2);
    assert_eq!(d.lookup(0), Some(TableEntry::Prefix(cid)));
    assert_eq!(d.lookup(1), Some(TableEntry::Prefix(r)));
}

#[test]
fn fn_type_numbers_params_before_return_type() {
    let mut arena = Arena::new();
    let b = arena.append(AstNode::Ty(Type::BasicType(s("i32"))));
    let param = arena.append(AstNode::Ty(Type::Ref(b)));
    let ret = arena.append(AstNode::Ty(Type::RefMut(b)));
    let f = arena.append(AstNode::Ty(Type::Fn {
        is_unsafe: false,
        abi: 0,
        return_type: Some(ret),
        params: vec![param],
    }));
    let mut d = Decompress::new();
    let r = d.decompress_type(&mut arena, f).unwrap();
    assert_eq!(r, f);
    // Ids follow the encoder's order: the parameter, then the return type,
    // then the Fn node itself.
    assert_eq!(d.lookup(0), Some(TableEntry::Type(param)));
    assert_eq!(d.lookup(1), Some(TableEntry::Type(ret)));
    assert_eq!(d.lookup(2), Some(TableEntry::Type(f)));
    assert_eq!(d.subst_count(), 3);
}

#[test]
fn array_preserves_size_token() {
    let mut arena = Arena::new();
    let basic = arena.append(AstNode::Ty(Type::BasicType(s("u8"))));
    let su = arena.append(AstNode::Ty(Type::Subst(0)));
    let arr = arena.append(AstNode::Ty(Type::Array(Some(4), su)));
    let mut d = Decompress::new();
    d.alloc_subst(&arena, TableEntry::Type(basic));
    let r = d.decompress_type(&mut arena, arr).unwrap();
    assert_ne!(r, arr);
    match arena.node(r) {
        AstNode::Ty(Type::Array(sz, inner)) => {
            assert_eq!(*sz, Some(4));
            assert_eq!(*inner, basic);
        }
        _ => panic!("expected an array"),
    }
}

#[test]
fn tuple_reuses_only_when_all_components_unchanged() {
    let mut arena = Arena::new();
    let basic = arena.append(AstNode::Ty(Type::BasicType(s("u8"))));
    let su = arena.append(AstNode::Ty(Type::Subst(0)));
    let changed = arena.append(AstNode::Ty(Type::Tuple(vec![basic, su])));
    let unchanged = arena.append(AstNode::Ty(Type::Tuple(vec![basic, basic])));
    let mut d = Decompress::new();
    d.alloc_subst(&arena, TableEntry::Type(basic));
    let r1 = d.decompress_type(&mut arena, changed).unwrap();
    assert_ne!(r1, changed);
    match arena.node(r1) {
        AstNode::Ty(Type::Tuple(c)) => assert_eq!(c, &vec![basic, basic]),
        _ => panic!("expected a tuple"),
    }
    let r2 = d.decompress_type(&mut arena, unchanged).unwrap();
    assert_eq!(r2, unchanged);
}

#[test]
fn symbol_with_instantiating_crate() {
    let mut arena = Arena::new();
    let cid = arena.append(AstNode::Prefix(PathPrefix::CrateId { name: s("a") }));
    let path = arena.append(AstNode::Path(AbsolutePath::Path { name: cid, args: vec![] }));
    let inst = arena.append(AstNode::Prefix(PathPrefix::CrateId { name: s("b") }));
    let sym = Symbol { name: path, instantiating_crate: Some(inst) };
    let (out, d) = decompress_ext(&mut arena, &sym).unwrap();
    assert_eq!(out.name, path);
    assert_eq!(out.instantiating_crate, Some(inst));
    // The name is expanded first: its CrateId takes id 0; the
    // instantiating crate's prefix takes id 1.
    assert_eq!(d.lookup(0), Some(TableEntry::Prefix(cid)));
    assert_eq!(d.lookup(1), Some(TableEntry::Prefix(inst)));
    assert_eq!(d.subst_count(), 2);
}

#[test]
fn prefix_subst_returns_stored_node_without_allocating() {
    let mut arena = Arena::new();
    let cid = arena.append(AstNode::Prefix(PathPrefix::CrateId { name: s("c") }));
    let seg = arena.append(AstNode::Prefix(PathPrefix::Node { prefix: cid, ident: s("m") }));
    let mut d = Decompress::new();
    let first = d.decompress_path_prefix(&mut arena, seg).unwrap();
    assert_eq!(first, seg);
    assert_eq!(d.subst_count(), 2);
    // Ids: 0 = CrateId, 1 = the Node.  A Subst(1) revisits the entry.
    let su = arena.append(AstNode::Prefix(PathPrefix::Subst(1)));
    let before = arena.len();
    let r = d.decompress_path_prefix(&mut arena, su).unwrap();
    assert_eq!(r, seg);
    assert_eq!(arena.len(), before);
    assert_eq!(d.subst_count(), 2);
}
