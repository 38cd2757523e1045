use trait_resolution::coherence::{IsExtendingExistingImpl, IsImplSelf};
use trait_resolution::decls::{
    CodeBlockFirstPass, Decl, DeclEngine, Engines, ResolvedTraitImplItem, Span, TyTraitItem,
};
use trait_resolution::errors::{CompileError, DeclKindName, Handler};
use trait_resolution::resolve::Module;
use trait_resolution::trait_map::{CallPath, TraitConstraint, TraitMap, TypeParameter};
use trait_resolution::types::{IntegerBits, TypeEngine, TypeInfo, UnifyKind};

struct Fx {
    engines: Engines,
    module: Module,
    handler: Handler,
}

fn fx() -> Fx {
    Fx {
        engines: Engines { te: TypeEngine::new(), de: DeclEngine::new() },
        module: Module::new(),
        handler: Handler::new(),
    }
}

fn span(n: usize) -> Span {
    Span { source_id: 1, start: n, end: n + 1 }
}

fn path(name: &str) -> CallPath {
    CallPath { prefixes: vec![], suffix: name.to_string() }
}

impl Fx {
    fn ty(&mut self, t: TypeInfo) -> usize {
        self.engines.te.insert(t)
    }

    fn u64(&mut self) -> usize {
        self.ty(TypeInfo::UnsignedInteger(IntegerBits::SixtyFour))
    }

    fn decl(&mut self, name: &str, dummy: bool, self_ty: Option<usize>, sig: Vec<usize>, at: usize) -> usize {
        self.engines.de.insert(Decl {
            name: name.to_string(),
            span: span(at),
            is_trait_method_dummy: dummy,
            implementing_for_typeid: self_ty,
            signature: sig,
            parent: None,
        })
    }

    fn method(&mut self, name: &str, at: usize) -> ResolvedTraitImplItem {
        let d = self.decl(name, false, None, vec![], at);
        ResolvedTraitImplItem::Typed(TyTraitItem::Fn(d))
    }

    fn constant(&mut self, name: &str, at: usize) -> ResolvedTraitImplItem {
        let d = self.decl(name, false, None, vec![], at);
        ResolvedTraitImplItem::Typed(TyTraitItem::Constant(d))
    }

    fn impl_trait(
        &mut self,
        tr: &str,
        args: Vec<usize>,
        params: Vec<TypeParameter>,
        type_id: usize,
        items: Vec<ResolvedTraitImplItem>,
        at: usize,
        impl_self: IsImplSelf,
    ) -> bool {
        self.module
            .insert(
                &mut self.handler,
                &self.engines,
                path(tr),
                args,
                params,
                type_id,
                &items,
                span(at),
                Some(span(1000 + at)),
                impl_self,
                IsExtendingExistingImpl::No,
            )
            .is_ok()
    }

    fn conflicts(&self) -> usize {
        self.handler
            .errors
            .iter()
            .filter(|e| matches!(e, CompileError::ConflictingImplsForTraitAndType { .. }))
            .count()
    }

    fn names(&self, items: &[ResolvedTraitImplItem]) -> Vec<String> {
        items.iter().map(|i| self.engines.de.decls[i.decl_id()].name.clone()).collect()
    }
}

#[test]
fn identical_non_generic_impls_conflict_once() {
    let mut f = fx();
    let u = f.u64();
    let a = f.method("foo", 1);
    let b = f.method("bar", 2);
    assert!(f.impl_trait("Trait", vec![], vec![], u, vec![a], 10, IsImplSelf::No));
    assert!(!f.impl_trait("Trait", vec![], vec![], u, vec![b], 20, IsImplSelf::No));
    assert_eq!(f.conflicts(), 1);
    assert_eq!(f.handler.errors.len(), 1);
    match &f.handler.errors[0] {
        CompileError::ConflictingImplsForTraitAndType { trait_name, existing_impl_span, second_impl_span, .. } => {
            assert_eq!(trait_name, "Trait");
            assert_eq!(*existing_impl_span, span(10));
            assert_eq!(*second_impl_span, span(20));
        }
        _ => panic!("expected a conflict"),
    }
    let items = f.module.get_items_for_type(&f.engines.te, &f.engines.de, u);
    let mut names = f.names(&items);
    names.sort();
    assert_eq!(names, vec!["bar".to_string(), "foo".to_string()]);
}

#[test]
fn concrete_impl_specializes_generic_one() {
    let mut f = fx();
    let u = f.u64();
    let t = f.ty(TypeInfo::UnknownGeneric { is_from_type_parameter: true });
    let g_t = f.ty(TypeInfo::Struct { decl: 1, args: vec![t] });
    let g_u = f.ty(TypeInfo::Struct { decl: 1, args: vec![u] });
    let generic = f.method("generic_go", 1);
    let concrete = f.method("concrete_go", 2);
    assert!(f.impl_trait("Trait", vec![], vec![], g_t, vec![generic], 10, IsImplSelf::No));
    assert!(f.impl_trait("Trait", vec![], vec![], g_u, vec![concrete], 20, IsImplSelf::No));
    assert_eq!(f.handler.errors.len(), 0);
    let items = f.module.get_items_for_type(&f.engines.te, &f.engines.de, g_u);
    assert_eq!(f.names(&items), vec!["concrete_go".to_string()]);
    let items = f.module.get_items_for_type(&f.engines.te, &f.engines.de, g_t);
    assert_eq!(f.names(&items), vec!["generic_go".to_string()]);
}

#[test]
fn generic_after_concrete_does_not_conflict() {
    let mut f = fx();
    let u = f.u64();
    let t = f.ty(TypeInfo::UnknownGeneric { is_from_type_parameter: true });
    let g_t = f.ty(TypeInfo::Struct { decl: 1, args: vec![t] });
    let g_u = f.ty(TypeInfo::Struct { decl: 1, args: vec![u] });
    let a = f.method("a", 1);
    let b = f.method("b", 2);
    assert!(f.impl_trait("Trait", vec![], vec![], g_u, vec![a], 10, IsImplSelf::No));
    assert!(f.impl_trait("Trait", vec![], vec![], g_t, vec![b], 20, IsImplSelf::No));
    assert_eq!(f.conflicts(), 0);
}

#[test]
fn inherent_block_never_conflicts() {
    let mut f = fx();
    let u = f.u64();
    let a = f.method("foo", 1);
    let b = f.method("bar", 2);
    let c = f.method("baz", 3);
    assert!(f.impl_trait("Trait", vec![], vec![], u, vec![a], 10, IsImplSelf::No));
    assert!(f.impl_trait("u64", vec![], vec![], u, vec![b], 20, IsImplSelf::Yes));
    assert!(f.impl_trait("u64", vec![], vec![], u, vec![c], 30, IsImplSelf::Yes));
    assert_eq!(f.conflicts(), 0);
    assert_eq!(f.handler.errors.len(), 0);
}

#[test]
fn inherent_block_reports_duplicate_items() {
    let mut f = fx();
    let u = f.u64();
    let a = f.method("foo", 1);
    let b = f.method("foo", 2);
    let k1 = f.constant("K", 3);
    let k2 = f.constant("K", 4);
    assert!(f.impl_trait("Trait", vec![], vec![], u, vec![a, k1], 10, IsImplSelf::No));
    assert!(!f.impl_trait("u64", vec![], vec![], u, vec![b, k2], 20, IsImplSelf::Yes));
    assert_eq!(f.conflicts(), 0);
    let kinds: Vec<DeclKindName> = f
        .handler
        .errors
        .iter()
        .map(|e| match e {
            CompileError::DuplicateDeclDefinedForType { decl_kind, .. } => *decl_kind,
            _ => panic!("expected duplicates only"),
        })
        .collect();
    assert_eq!(kinds, vec![DeclKindName::Method, DeclKindName::Constant]);
}

#[test]
fn duplicate_method_in_one_block() {
    let mut f = fx();
    let u = f.u64();
    let a = f.method("foo", 1);
    let b = f.method("foo", 2);
    assert!(!f.impl_trait("Trait", vec![], vec![], u, vec![a, b], 10, IsImplSelf::No));
    match &f.handler.errors[..] {
        [CompileError::MultipleDefinitionsOfName { name, span: s }] => {
            assert_eq!(name, "foo");
            assert_eq!(*s, span(2));
        }
        _ => panic!("expected one duplicate-name diagnostic"),
    }
    let items = f.module.get_items_for_type(&f.engines.te, &f.engines.de, u);
    assert_eq!(items, vec![b]);
}

#[test]
fn different_trait_arguments_do_not_conflict() {
    let mut f = fx();
    let u = f.u64();
    let b = f.ty(TypeInfo::Boolean);
    let x = f.method("x", 1);
    let y = f.method("y", 2);
    assert!(f.impl_trait("From", vec![u], vec![], u, vec![x], 10, IsImplSelf::No));
    assert!(f.impl_trait("From", vec![b], vec![], u, vec![y], 20, IsImplSelf::No));
    assert_eq!(f.handler.errors.len(), 0);
}

#[test]
fn single_candidate_is_resolved() {
    let mut f = fx();
    let u = f.u64();
    let go = f.method("go", 1);
    f.impl_trait("A", vec![], vec![], u, vec![go], 10, IsImplSelf::No);
    let r = f.module.get_trait_item_for_type(&mut f.handler, &f.engines.te, &f.engines.de, &"go".to_string(), u, None);
    assert_eq!(r, Ok(go));
}

#[test]
fn two_traits_are_ambiguous() {
    let mut f = fx();
    let u = f.u64();
    let go_a = f.method("go", 1);
    let go_b = f.method("go", 2);
    f.impl_trait("A", vec![], vec![], u, vec![go_a], 10, IsImplSelf::No);
    f.impl_trait("B", vec![], vec![], u, vec![go_b], 20, IsImplSelf::No);
    let r = f.module.get_trait_item_for_type(&mut f.handler, &f.engines.te, &f.engines.de, &"go".to_string(), u, None);
    assert!(r.is_err());
    match f.handler.errors.last() {
        Some(CompileError::MultipleApplicableItemsInScope { item_name, as_traits, item_paths }) => {
            assert_eq!(item_name, "go");
            assert_eq!(as_traits, &vec!["A".to_string(), "B".to_string()]);
            assert_eq!(item_paths, &vec![span(1), span(2)]);
        }
        _ => panic!("expected an ambiguity"),
    }
    let r = f.module.get_trait_item_for_type(&mut f.handler, &f.engines.te, &f.engines.de, &"go".to_string(), u, Some(path("B")));
    assert_eq!(r, Ok(go_b));
}

#[test]
fn missing_symbol_is_reported() {
    let mut f = fx();
    let u = f.u64();
    let r = f.module.get_trait_item_for_type(&mut f.handler, &f.engines.te, &f.engines.de, &"nope".to_string(), u, None);
    assert!(r.is_err());
    assert!(matches!(f.handler.errors.last(), Some(CompileError::SymbolNotFound { name }) if name == "nope"));
}

fn summary(m: &TraitMap) -> Vec<String> {
    let mut out = vec![];
    for (f, es) in &m.trait_impls {
        for e in es {
            let mut items: Vec<String> = e.value.trait_items.iter().map(|(n, i)| format!("{}={:?}", n, i)).collect();
            items.sort();
            out.push(format!("{:?} {} {} {:?}", f, e.key.name.name, e.key.type_id, items));
        }
    }
    out.sort();
    out
}

fn map_with(f: &mut Fx, entries: &[(&str, usize, &str)]) -> TraitMap {
    let mut m = Module::new();
    let mut h = Handler::new();
    for (tr, ty, item) in entries {
        let it = f.method(item, 0);
        let _ = m.insert(&mut h, &f.engines, path(tr), vec![], vec![], *ty, &vec![it], span(0), None, IsImplSelf::No, IsExtendingExistingImpl::No);
    }
    m.scopes.pop().unwrap()
}

#[test]
fn extend_is_associative_on_example() {
    let mut f = fx();
    let u = f.u64();
    let b = f.ty(TypeInfo::Boolean);
    let specs_a = [("A", u, "a1"), ("B", b, "b1")];
    let specs_b = [("A", u, "a2"), ("C", u, "c1")];
    let specs_c = [("A", u, "a1"), ("B", b, "b2")];
    let mut left = map_with(&mut f, &specs_a);
    left.extend(map_with(&mut f, &specs_b));
    left.extend(map_with(&mut f, &specs_c));
    let mut bc = map_with(&mut f, &specs_b);
    bc.extend(map_with(&mut f, &specs_c));
    let mut right = map_with(&mut f, &specs_a);
    right.extend(bc);
    assert_eq!(summary(&left).len(), 3);
    let strip = |v: Vec<String>| -> Vec<String> { v.into_iter().map(|s| s.split('=').next().unwrap().to_string()).collect() };
    assert_eq!(strip(summary(&left)), strip(summary(&right)));
}

#[test]
fn extend_keeps_every_record_and_prefers_incoming_items() {
    let mut f = fx();
    let u = f.u64();
    let mut a = map_with(&mut f, &[("A", u, "x")]);
    let b = map_with(&mut f, &[("A", u, "x"), ("B", u, "y")]);
    let incoming = b.trait_impls[0].1[0].value.trait_items[0].1;
    a.extend(b);
    let es = &a.trait_impls[0].1;
    assert_eq!(es.len(), 2);
    let rec_a = es.iter().find(|e| e.key.name.name == "A").unwrap();
    assert_eq!(rec_a.value.trait_items.len(), 1);
    assert_eq!(rec_a.value.trait_items[0].1, incoming);
}

fn eq_bound() -> Vec<TraitConstraint> {
    vec![TraitConstraint { trait_name: "Eq".to_string(), type_arguments: vec![] }]
}

#[test]
fn satisfied_bounds_are_cached() {
    let mut f = fx();
    let u = f.u64();
    let eq = f.method("eq", 1);
    f.impl_trait("Eq", vec![], vec![], u, vec![eq], 10, IsImplSelf::No);
    let bounds = eq_bound();
    let r1 = f.module.check_if_trait_constraints_are_satisfied_for_type(&mut f.handler, u, &bounds, span(5), &f.engines.te);
    assert_eq!(r1, Ok(()));
    let scans = f.module.scan_count;
    assert_eq!(scans, 1);
    let r2 = f.module.check_if_trait_constraints_are_satisfied_for_type(&mut f.handler, u, &bounds, span(5), &f.engines.te);
    assert_eq!(r2, Ok(()));
    assert_eq!(f.module.scan_count, scans);
}

#[test]
fn failed_bounds_are_not_cached() {
    let mut f = fx();
    let u = f.u64();
    let bounds = eq_bound();
    let r1 = f.module.check_if_trait_constraints_are_satisfied_for_type(&mut f.handler, u, &bounds, span(5), &f.engines.te);
    assert!(r1.is_err());
    assert!(matches!(
        f.handler.errors.last(),
        Some(CompileError::TraitConstraintNotSatisfied { trait_name, type_id, .. }) if trait_name == "Eq" && *type_id == u
    ));
    let eq = f.method("eq", 1);
    f.impl_trait("Eq", vec![], vec![], u, vec![eq], 10, IsImplSelf::No);
    let r2 = f.module.check_if_trait_constraints_are_satisfied_for_type(&mut f.handler, u, &bounds, span(5), &f.engines.te);
    assert_eq!(r2, Ok(()));
    assert_eq!(f.module.scan_count, 2);
}

#[test]
fn every_missing_bound_is_reported() {
    let mut f = fx();
    let u = f.u64();
    let bounds = vec![
        TraitConstraint { trait_name: "Eq".to_string(), type_arguments: vec![] },
        TraitConstraint { trait_name: "Ord".to_string(), type_arguments: vec![] },
    ];
    let before = f.handler.errors.len();
    let r = f.module.check_if_trait_constraints_are_satisfied_for_type(&mut f.handler, u, &bounds, span(5), &f.engines.te);
    assert!(r.is_err());
    assert_eq!(f.handler.errors.len() - before, 2);
    let empty: Vec<TraitConstraint> = vec![];
    let r = f.module.check_if_trait_constraints_are_satisfied_for_type(&mut f.handler, u, &empty, span(5), &f.engines.te);
    assert_eq!(r, Ok(()));
}

#[test]
fn unmet_bound_of_existing_slot_skips_conflict() {
    let mut f = fx();
    let u = f.u64();
    let t = f.ty(TypeInfo::UnknownGeneric { is_from_type_parameter: true });
    let g_t = f.ty(TypeInfo::Struct { decl: 3, args: vec![t] });
    let g_u = f.ty(TypeInfo::Struct { decl: 3, args: vec![u] });
    let a = f.method("a", 1);
    let b = f.method("a", 2);
    let params = vec![TypeParameter { type_id: t, trait_constraints: eq_bound() }];
    assert!(f.impl_trait("Trait", vec![], params, g_t, vec![a], 10, IsImplSelf::No));
    assert!(f.impl_trait("Trait", vec![], vec![], g_u, vec![b], 20, IsImplSelf::No));
    assert_eq!(f.handler.errors.len(), 0);
}

#[test]
fn reference_mutability_keeps_impls_apart() {
    let mut f = fx();
    let u = f.u64();
    let r = f.ty(TypeInfo::Ref { to_mutable_value: false, referenced: u });
    let rm = f.ty(TypeInfo::Ref { to_mutable_value: true, referenced: u });
    let a = f.method("shared", 1);
    let b = f.method("exclusive", 2);
    assert!(f.impl_trait("Trait", vec![], vec![], r, vec![a], 10, IsImplSelf::No));
    assert!(f.impl_trait("Trait", vec![], vec![], rm, vec![b], 20, IsImplSelf::No));
    assert_eq!(f.conflicts(), 0);
    let items = f.module.get_items_for_type(&f.engines.te, &f.engines.de, r);
    assert_eq!(f.names(&items), vec!["shared".to_string()]);
    let items = f.module.get_items_for_type(&f.engines.te, &f.engines.de, rm);
    assert_eq!(f.names(&items), vec!["exclusive".to_string()]);
}

#[test]
fn dummy_methods_are_hidden_from_concrete_types() {
    let mut f = fx();
    let u = f.u64();
    let t = f.ty(TypeInfo::UnknownGeneric { is_from_type_parameter: true });
    let d = f.decl("default_m", true, None, vec![], 1);
    let dummy = ResolvedTraitImplItem::Typed(TyTraitItem::Fn(d));
    let real = f.method("real", 2);
    f.impl_trait("Trait", vec![], vec![], t, vec![dummy, real], 10, IsImplSelf::No);
    let items = f.module.get_items_for_type(&f.engines.te, &f.engines.de, u);
    assert_eq!(f.names(&items), vec!["real".to_string()]);
    let t2 = f.ty(TypeInfo::UnknownGeneric { is_from_type_parameter: true });
    let items = f.module.get_items_for_type(&f.engines.te, &f.engines.de, t2);
    let mut names = f.names(&items);
    names.sort();
    assert_eq!(names, vec!["default_m".to_string(), "real".to_string()]);
}

#[test]
fn dbl_end_to_end() {
    let mut f = fx();
    let u = f.u64();
    let p_u = f.ty(TypeInfo::Struct { decl: 7, args: vec![u] });
    let self_ty = f.ty(TypeInfo::Placeholder);
    let d = f.decl("dbl", false, Some(self_ty), vec![self_ty, u, u], 1);
    let dbl = ResolvedTraitImplItem::Typed(TyTraitItem::Fn(d));
    assert!(f.impl_trait("Dbl", vec![u], vec![], p_u, vec![dbl], 10, IsImplSelf::No));
    let n_decls = f.engines.de.decls.len();
    let items = f.module.get_items_for_type_and_trait_name_and_trait_type_arguments(&mut f.engines, p_u, &path("Dbl"), &vec![u]);
    assert_eq!(items.len(), 1);
    let fresh = match items[0] {
        ResolvedTraitImplItem::Typed(TyTraitItem::Fn(id)) => id,
        _ => panic!("expected a function"),
    };
    assert_eq!(fresh, n_decls);
    let inst = &f.engines.de.decls[fresh];
    assert_eq!(inst.name, "dbl");
    assert_eq!(inst.parent, Some(d));
    assert_eq!(inst.signature[0], p_u);
    assert_eq!(inst.signature[1], u);
    assert_eq!(inst.signature[2], u);
    let none = f.module.get_items_for_type_and_trait_name_and_trait_type_arguments(&mut f.engines, p_u, &path("Dbl"), &vec![p_u]);
    assert_eq!(none.len(), 0);
}

#[test]
fn generic_impl_is_instantiated_for_the_query_type() {
    let mut f = fx();
    let u = f.u64();
    let t = f.ty(TypeInfo::UnknownGeneric { is_from_type_parameter: true });
    let p_t = f.ty(TypeInfo::Struct { decl: 7, args: vec![t] });
    let p_u = f.ty(TypeInfo::Struct { decl: 7, args: vec![u] });
    let d = f.decl("dbl", false, None, vec![p_t, t, t], 1);
    let dbl = ResolvedTraitImplItem::Typed(TyTraitItem::Fn(d));
    assert!(f.impl_trait("Dbl", vec![t], vec![], p_t, vec![dbl], 10, IsImplSelf::No));
    let items = f.module.get_items_for_type_and_trait_name_and_trait_type_arguments(&mut f.engines, p_u, &path("Dbl"), &vec![u]);
    assert_eq!(items.len(), 1);
    let inst = &f.engines.de.decls[items[0].decl_id()];
    assert_eq!(inst.signature[1], u);
    assert_eq!(inst.signature[2], u);
    match f.engines.te.get(inst.signature[0]) {
        TypeInfo::Struct { decl, args } => {
            assert_eq!(*decl, 7);
            assert_eq!(args, &vec![u]);
        }
        _ => panic!("expected the struct"),
    }
}

#[test]
fn spans_and_names_are_projected() {
    let mut f = fx();
    let u = f.u64();
    let a = f.method("a", 1);
    let b = f.method("b", 2);
    f.impl_trait("A", vec![], vec![], u, vec![a], 10, IsImplSelf::No);
    f.impl_trait("B", vec![u], vec![], u, vec![b], 20, IsImplSelf::No);
    let spans = f.module.get_impl_spans_for_type(&f.engines.te, u);
    assert_eq!(spans, vec![span(10), span(20)]);
    let names = f.module.get_trait_names_and_type_arguments_for_type(&f.engines.te, u);
    assert_eq!(names.len(), 2);
    assert_eq!(names[1].name, "B");
    assert_eq!(names[1].args, vec![u]);
    assert_eq!(f.module.get_impl_spans_for_trait_name(&path("B")), vec![span(20)]);
    assert_eq!(f.module.get_impl_spans_for_trait_name(&path("C")), Vec::<Span>::new());
}

#[test]
fn outer_scopes_are_searched() {
    let mut f = fx();
    let u = f.u64();
    let a = f.method("outer", 1);
    f.impl_trait("A", vec![], vec![], u, vec![a], 10, IsImplSelf::No);
    f.module.push_scope();
    let b = f.method("inner", 2);
    f.impl_trait("B", vec![], vec![], u, vec![b], 20, IsImplSelf::No);
    let items = f.module.get_items_for_type(&f.engines.te, &f.engines.de, u);
    assert_eq!(f.names(&items), vec!["inner".to_string(), "outer".to_string()]);
    assert_eq!(f.module.scopes[0].trait_impls[0].1.len(), 1);
    let inner = f.module.pop_scope();
    assert_eq!(inner.trait_impls[0].1[0].key.name.name, "B");
    let items = f.module.get_items_for_type(&f.engines.te, &f.engines.de, u);
    assert_eq!(f.names(&items), vec!["outer".to_string()]);
}

#[test]
fn code_block_first_pass_from_bool() {
    assert_eq!(CodeBlockFirstPass::from(true), CodeBlockFirstPass::Yes);
    assert_eq!(CodeBlockFirstPass::from(false), CodeBlockFirstPass::No);
}

#[test]
fn expect_typed_returns_the_item() {
    let it = ResolvedTraitImplItem::Typed(TyTraitItem::Constant(4));
    assert_eq!(it.expect_typed(), TyTraitItem::Constant(4));
}

#[test]
fn decl_span_filter_keeps_one_trait() {
    let mut f = fx();
    let u = f.u64();
    let b = f.ty(TypeInfo::Boolean);
    let x = f.method("x", 1);
    let y = f.method("y", 2);
    let z = f.method("z", 3);
    f.impl_trait("A", vec![], vec![], u, vec![x], 10, IsImplSelf::No);
    f.impl_trait("B", vec![], vec![], u, vec![y], 20, IsImplSelf::No);
    f.impl_trait("A", vec![], vec![], b, vec![z], 10, IsImplSelf::No);
    let only_a = f.module.scopes[0].filter_by_trait_decl_span(span(1010));
    let kept: Vec<String> = only_a
        .trait_impls
        .iter()
        .flat_map(|(_, es)| es.iter().map(|e| e.key.name.name.clone()))
        .collect();
    assert_eq!(kept, vec!["A".to_string(), "A".to_string()]);
    assert!(only_a.satisfied_cache.is_empty());
}

#[test]
fn import_of_concrete_type_brings_its_impls_and_inner_ones() {
    let mut f = fx();
    let u = f.u64();
    let b = f.ty(TypeInfo::Boolean);
    let t = f.ty(TypeInfo::UnknownGeneric { is_from_type_parameter: true });
    let p_u = f.ty(TypeInfo::Struct { decl: 5, args: vec![u] });
    let p_t = f.ty(TypeInfo::Struct { decl: 5, args: vec![t] });
    let a = f.method("on_point", 1);
    let g = f.method("on_any_point", 2);
    let c = f.method("on_u64", 3);
    let d = f.method("on_bool", 4);
    f.impl_trait("Dbl", vec![u], vec![], p_u, vec![a], 10, IsImplSelf::No);
    f.impl_trait("Gen", vec![], vec![], p_t, vec![g], 20, IsImplSelf::No);
    f.impl_trait("Num", vec![], vec![], u, vec![c], 30, IsImplSelf::No);
    f.impl_trait("Flag", vec![], vec![], b, vec![d], 40, IsImplSelf::No);
    let imported = f.module.scopes[0].filter_by_type_item_import(&f.engines.te, &f.engines.de, p_u);
    let mut names: Vec<String> = imported
        .trait_impls
        .iter()
        .flat_map(|(_, es)| es.iter().map(|e| e.key.name.name.clone()))
        .collect();
    names.sort();
    assert_eq!(names, vec!["Dbl".to_string(), "Gen".to_string(), "Num".to_string()]);
}

#[test]
fn satisfied_bounds_are_listed_with_their_records() {
    let mut f = fx();
    let u = f.u64();
    let eq = f.method("eq", 1);
    let ord = f.method("cmp", 2);
    f.impl_trait("Eq", vec![], vec![], u, vec![eq], 10, IsImplSelf::No);
    f.impl_trait("Ord", vec![], vec![], u, vec![ord], 20, IsImplSelf::No);
    let bounds = eq_bound();
    let found = f.module.get_trait_constraints_are_satisfied_for_types(&f.engines.te, u, &bounds);
    assert_eq!(found.len(), 1);
    assert_eq!(found[0].0, u);
    assert_eq!(found[0].1.name, "Eq");
}

#[test]
fn typed_trait_items_are_instantiated() {
    let mut f = fx();
    let u = f.u64();
    let k = f.constant("K", 1);
    f.impl_trait("HasK", vec![], vec![], u, vec![k], 10, IsImplSelf::No);
    let items = f.module.get_items_for_type_and_trait_name_and_trait_type_arguments_typed(&mut f.engines, u, &path("HasK"), &vec![]);
    assert_eq!(items.len(), 1);
    match items[0] {
        TyTraitItem::Constant(id) => {
            assert_eq!(f.engines.de.decls[id].name, "K");
            assert_eq!(f.engines.de.decls[id].parent, Some(k.decl_id()));
        }
        _ => panic!("expected a constant"),
    }
}

#[test]
fn substitution_rebuilds_compound_types() {
    let mut te = TypeEngine::new();
    let u = te.insert(TypeInfo::UnsignedInteger(IntegerBits::SixtyFour));
    let t = te.insert(TypeInfo::UnknownGeneric { is_from_type_parameter: true });
    let tup = te.insert(TypeInfo::Tuple(vec![t, u]));
    let r = te.insert(TypeInfo::Ref { to_mutable_value: true, referenced: tup });
    let m = te.from_superset_and_subset(t, u);
    assert_eq!(m, vec![(t, u)]);
    let s = te.subst(&m, r);
    match te.get(s) {
        TypeInfo::Ref { to_mutable_value: true, referenced } => match te.get(*referenced) {
            TypeInfo::Tuple(v) => assert_eq!(v, &vec![u, u]),
            _ => panic!("expected a tuple"),
        },
        _ => panic!("expected a reference"),
    }
    assert_eq!(te.extract_inner_types(r), vec![tup, t, u]);
}

#[test]
fn unification_kinds_differ_on_generics_and_references() {
    let mut te = TypeEngine::new();
    let u = te.insert(TypeInfo::UnsignedInteger(IntegerBits::SixtyFour));
    let t = te.insert(TypeInfo::UnknownGeneric { is_from_type_parameter: true });
    let r = te.insert(TypeInfo::Ref { to_mutable_value: false, referenced: u });
    let rm = te.insert(TypeInfo::Ref { to_mutable_value: true, referenced: u });
    let al = te.insert(TypeInfo::Alias { ty: u });
    assert!(te.unify_check(UnifyKind::ConstraintSubset, u, t));
    assert!(!te.unify_check(UnifyKind::NonGenericConstraintSubset, u, t));
    assert!(!te.unify_check(UnifyKind::ConstraintSubset, t, u));
    assert!(!te.unify_check(UnifyKind::ConstraintSubset, rm, r));
    assert!(te.unify_check(UnifyKind::Coercion, rm, r));
    assert!(!te.unify_check(UnifyKind::Coercion, r, rm));
    assert!(te.unify_check(UnifyKind::ConstraintSubset, al, u));
    assert_eq!(te.get_unaliased_type_id(al), u);
    assert_eq!(te.get_type_root_filter(rm), te.get_type_root_filter(u));
    assert!(!te.ref_layers_agree(r, rm));
    assert!(te.is_concrete(r));
    assert!(!te.is_concrete(t));
}
