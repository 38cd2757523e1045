//! Handing out impl items instantiated for a concrete type: the stored
//! declaration is copied with the generics of its record bound, and the
//! copy is added to the declaration store.
use vstd::prelude::*;
use crate::decls::{item_decl, Decl, Engines, ResolvedTraitImplItem, TyImplItem, TyTraitItem};
use crate::queries::dummy_dropped;
use crate::resolve::{collect_hits, derefs, Module};
use crate::seqs::lemma_take_all;
use crate::trait_map::{strs_view, CallPath, TraitEntry};
use crate::types::{
    dealias, extends, lemma_extends_trans, lemma_subst_rel_stable, subst_pairs, subst_rel,
    types_wf, unifies, TypeEngine, TypeId, TypeInfo, UnifyKind,
};

use crate::types::copy_ids;

verus! {

/// The same kind of item, for another declaration.
pub open spec fn with_decl(item: ResolvedTraitImplItem, d: usize) -> ResolvedTraitImplItem {
    match item {
        ResolvedTraitImplItem::Typed(TyTraitItem::Fn(_)) => ResolvedTraitImplItem::Typed(TyTraitItem::Fn(d)),
        ResolvedTraitImplItem::Typed(TyTraitItem::Constant(_)) => ResolvedTraitImplItem::Typed(TyTraitItem::Constant(d)),
        _ => ResolvedTraitImplItem::Typed(TyTraitItem::Type(d)),
    }
}

/// The substitution applied to a declaration: a method's `Self` is bound to
/// the query type first, then the record's generics.
pub open spec fn full_mapping(o: Decl, item: ResolvedTraitImplItem, m: Seq<(TypeId, TypeId)>, q: TypeId) -> Seq<(TypeId, TypeId)> {
    match (item, o.implementing_for_typeid) {
        (ResolvedTraitImplItem::Typed(TyTraitItem::Fn(_)), Some(s)) => seq![(s, q)] + m,
        _ => m,
    }
}

/// Declaration `d` is `o` instantiated under `m`.
pub open spec fn instantiated(types: Seq<TypeInfo>, o: Decl, d: Decl, oid: usize, m: Seq<(TypeId, TypeId)>) -> bool {
    &&& d.name@ == o.name@
    &&& d.span == o.span
    &&& d.is_trait_method_dummy == o.is_trait_method_dummy
    &&& d.implementing_for_typeid == o.implementing_for_typeid
    &&& d.parent == Some(oid)
    &&& d.signature@.len() == o.signature@.len()
    &&& forall|k: int| 0 <= k < o.signature@.len() ==> subst_rel(types, m, o.signature@[k], #[trigger] d.signature@[k])
}

/// Copies the declaration of `item` with `type_mapping` applied to its
/// signature (and, for a method, its `Self` bound to `type_id`), adds the copy
/// to the store with the stored declaration as parent, and returns the item
/// for it.
pub fn make_item_for_type_mapping(
    engines: &mut Engines,
    item: ResolvedTraitImplItem,
    type_mapping: &Vec<(TypeId, TypeId)>,
    type_id: TypeId,
) -> (r: ResolvedTraitImplItem)
    requires
        old(engines).wf(),
        item is Typed,
        old(engines).de.valid(item_decl(item)),
        old(engines).te.valid(type_id),
        forall|i: int| 0 <= i < type_mapping@.len() ==> type_mapping@[i].1 < old(engines).te.types@.len(),
    ensures
        final(engines).wf(),
        extends(old(engines).te.types@, final(engines).te.types@),
        final(engines).de.decls@.len() == old(engines).de.decls@.len() + 1,
        final(engines).de.decls@.drop_last() == old(engines).de.decls@,
        r == with_decl(item, old(engines).de.decls@.len() as usize),
        instantiated(
            final(engines).te.types@,
            old(engines).de.decls@[item_decl(item) as int],
            final(engines).de.decls@.last(),
            item_decl(item),
            full_mapping(old(engines).de.decls@[item_decl(item) as int], item, type_mapping@, type_id),
        ),
{
    let oid = item.decl_id();
    let ghost o = engines.de.decls@[oid as int];
    proof {
        assert(o.types_valid(engines.te.types@.len()));
    }
    let mut m: Vec<(TypeId, TypeId)> = Vec::new();
    let is_fn = matches!(item, ResolvedTraitImplItem::Typed(TyTraitItem::Fn(_)));
    let implementing_for = engines.de.get(oid).implementing_for_typeid;
    if is_fn {
        if let Some(s) = implementing_for {
            m.push((s, type_id));
        }
    }
    let mut i: usize = 0;
    let ghost m0 = m@;
    while i < type_mapping.len()
        invariant
            i <= type_mapping@.len(),
            m@ == m0 + type_mapping@.take(i as int),
        decreases type_mapping@.len() - i,
    {
        m.push(type_mapping[i]);
        i += 1;
        assert(m@ =~= m0 + type_mapping@.take(i as int));
    }
    assert(type_mapping@.take(type_mapping@.len() as int) =~= type_mapping@);
    assert(m@ =~= full_mapping(o, item, type_mapping@, type_id));
    let sig = copy_ids(&engines.de.get(oid).signature);
    let ghost t0 = engines.te.types@;
    assert(t0.subrange(0, t0.len() as int) =~= t0);
    let mut out: Vec<TypeId> = Vec::new();
    let mut k: usize = 0;
    while k < sig.len()
        invariant
            engines.te.wf(),
            types_wf(t0),
            extends(t0, engines.te.types@),
            sig@ == o.signature@,
            forall|j: int| 0 <= j < sig@.len() ==> sig@[j] < t0.len(),
            forall|j: int| 0 <= j < m@.len() ==> m@[j].1 < t0.len(),
            k <= sig@.len(),
            out@.len() == k,
            forall|j: int| 0 <= j < k ==> out@[j] < engines.te.types@.len(),
            forall|j: int| 0 <= j < k ==> subst_rel(engines.te.types@, m@, sig@[j], #[trigger] out@[j]),
            engines.de == old(engines).de,
        decreases sig@.len() - k,
    {
        let ghost before = engines.te.types@;
        let c = engines.te.subst(&m, sig[k]);
        proof {
            lemma_extends_trans(t0, before, engines.te.types@);
            assert forall|j: int| 0 <= j < k implies subst_rel(engines.te.types@, m@, sig@[j], #[trigger] out@[j]) by {
                lemma_subst_rel_stable(before, engines.te.types@, m@, sig@[j], out@[j]);
            }
        }
        out.push(c);
        k += 1;
    }
    let d = Decl {
        name: engines.de.get(oid).name.clone(),
        span: engines.de.get(oid).span,
        is_trait_method_dummy: engines.de.get(oid).is_trait_method_dummy,
        implementing_for_typeid: implementing_for,
        signature: out,
        parent: Some(oid),
    };
    let ghost dd = d;
    let ghost decls0 = engines.de.decls@;
    let nid = engines.de.insert(d);
    proof {
        assert(engines.de.decls@.drop_last() =~= decls0);
        assert forall|x: int| 0 <= x < engines.de.decls@.len() implies #[trigger] engines.de.decls@[x].types_valid(
            engines.te.types@.len(),
        ) by {
            if x < decls0.len() {
                assert(old(engines).de.decls@[x].types_valid(t0.len()));
            }
        }
    }
    match item {
        ResolvedTraitImplItem::Typed(TyTraitItem::Fn(_)) => ResolvedTraitImplItem::Typed(TyTraitItem::Fn(nid)),
        ResolvedTraitImplItem::Typed(TyTraitItem::Constant(_)) => ResolvedTraitImplItem::Typed(TyTraitItem::Constant(nid)),
        _ => ResolvedTraitImplItem::Typed(TyTraitItem::Type(nid)),
    }
}


/// The trait arguments asked for unify, one by one, into the record's.
pub open spec fn trait_args_match(types: Seq<TypeInfo>, want: Seq<TypeId>, got: Seq<TypeId>) -> bool {
    &&& want.len() == got.len()
    &&& forall|k: int|
        0 <= k < want.len() ==> want[k] < types.len() && got[k] < types.len() && unifies(
            types,
            UnifyKind::ConstraintSubset,
            want[k],
            got[k],
        )
}

/// Record `e` implements the trait at path `c` with arguments matching `args`.
pub open spec fn names_trait(types: Seq<TypeInfo>, c: CallPath, args: Seq<TypeId>, e: TraitEntry) -> bool {
    &&& strs_view(e.key.name.prefixes@) == strs_view(c.prefixes@)
    &&& e.key.name.name@ == c.suffix@
    &&& trait_args_match(types, args, e.key.name.args@)
}

/// The items of `items` handed out for `q`, each with the bindings of its
/// record's generics.
pub open spec fn entry_sources(
    decls: Seq<Decl>,
    types: Seq<TypeInfo>,
    q: TypeId,
    e: TraitEntry,
    items: Seq<(String, ResolvedTraitImplItem)>,
) -> Seq<(ResolvedTraitImplItem, Seq<(TypeId, TypeId)>)>
    decreases items.len(),
{
    if items.len() == 0 {
        Seq::empty()
    } else {
        let rest = entry_sources(decls, types, q, e, items.drop_last());
        let it = items.last().1;
        if it is Typed && item_decl(it) < decls.len() && !dummy_dropped(decls, types, q, it) {
            rest.push((it, subst_pairs(types, e.key.type_id, q)))
        } else {
            rest
        }
    }
}

/// The items to instantiate for the records of `es` that name the trait.
pub open spec fn trait_sources(
    decls: Seq<Decl>,
    types: Seq<TypeInfo>,
    q: TypeId,
    c: CallPath,
    args: Seq<TypeId>,
    es: Seq<TraitEntry>,
) -> Seq<(ResolvedTraitImplItem, Seq<(TypeId, TypeId)>)>
    decreases es.len(),
{
    if es.len() == 0 {
        Seq::empty()
    } else {
        let rest = trait_sources(decls, types, q, c, args, es.drop_last());
        let e = es.last();
        if names_trait(types, c, args, e) {
            rest + entry_sources(decls, types, q, e, e.value.trait_items@)
        } else {
            rest
        }
    }
}

fn trait_args_match_exec(te: &TypeEngine, want: &Vec<TypeId>, got: &Vec<TypeId>) -> (r: bool)
    requires
        te.wf(),
    ensures
        r == trait_args_match(te.types@, want@, got@),
{
    if want.len() != got.len() {
        return false;
    }
    let mut k: usize = 0;
    while k < want.len()
        invariant
            te.wf(),
            want@.len() == got@.len(),
            k <= want@.len(),
            forall|j: int|
                0 <= j < k ==> want@[j] < te.types@.len() && got@[j] < te.types@.len() && unifies(
                    te.types@,
                    UnifyKind::ConstraintSubset,
                    want@[j],
                    got@[j],
                ),
        decreases want@.len() - k,
    {
        if want[k] >= te.types.len() || got[k] >= te.types.len() || !te.unify_check(
            UnifyKind::ConstraintSubset,
            want[k],
            got[k],
        ) {
            return false;
        }
        k += 1;
    }
    true
}

fn copy_pairs(v: &Vec<(TypeId, TypeId)>) -> (r: Vec<(TypeId, TypeId)>)
    ensures
        r@ == v@,
{
    let mut r: Vec<(TypeId, TypeId)> = Vec::new();
    let mut i: usize = 0;
    while i < v.len()
        invariant
            i <= v@.len(),
            r@ == v@.take(i as int),
        decreases v@.len() - i,
    {
        r.push(v[i]);
        i += 1;
        assert(r@ =~= v@.take(i as int));
    }
    assert(v@.take(v@.len() as int) =~= v@);
    r
}

pub open spec fn sources_view(s: Seq<(ResolvedTraitImplItem, Vec<(TypeId, TypeId)>)>) -> Seq<(ResolvedTraitImplItem, Seq<(TypeId, TypeId)>)> {
    s.map_values(|p: (ResolvedTraitImplItem, Vec<(TypeId, TypeId)>)| (p.0, p.1@))
}

impl Module {
    /// The items of the implementations of the trait at path `trait_name`
    /// with arguments `trait_type_args` that apply to `type_id`, each
    /// instantiated for `type_id`: a fresh declaration whose signature has
    /// the record's generics bound as `type_id` binds them.
    pub fn get_items_for_type_and_trait_name_and_trait_type_arguments(
        &self,
        engines: &mut Engines,
        type_id: TypeId,
        trait_name: &CallPath,
        trait_type_args: &Vec<TypeId>,
    ) -> (r: Vec<ResolvedTraitImplItem>)
        requires
            self.wf(),
            old(engines).wf(),
            old(engines).te.valid(type_id),
        ensures
            final(engines).wf(),
            extends(old(engines).te.types@, final(engines).te.types@),
            ({
                let types = old(engines).te.types@;
                let decls = old(engines).de.decls@;
                let q = dealias(types, type_id);
                let srcs = if types[q as int] is ErrorRecovery {
                    Seq::empty()
                } else {
                    trait_sources(decls, types, q, *trait_name, trait_type_args@, self.hits(types, q, false))
                };
                &&& r@.len() == srcs.len()
                &&& final(engines).de.decls@.len() == decls.len() + srcs.len()
                &&& final(engines).de.decls@.subrange(0, decls.len() as int) == decls
                &&& forall|i: int|
                    0 <= i < srcs.len() ==> {
                        &&& #[trigger] r@[i] == with_decl(srcs[i].0, (decls.len() + i) as usize)
                        &&& instantiated(
                            final(engines).te.types@,
                            decls[item_decl(srcs[i].0) as int],
                            final(engines).de.decls@[decls.len() + i],
                            item_decl(srcs[i].0),
                            full_mapping(decls[item_decl(srcs[i].0) as int], srcs[i].0, srcs[i].1, q),
                        )
                    }
            }),
    {
        let ghost types = engines.te.types@;
        let ghost decls = engines.de.decls@;
        let q = engines.te.get_unaliased_type_id(type_id);
        let mut srcs: Vec<(ResolvedTraitImplItem, Vec<(TypeId, TypeId)>)> = Vec::new();
        if !matches!(engines.te.get(q), TypeInfo::ErrorRecovery) {
            let te = &engines.te;
            let de = &engines.de;
            let hits = collect_hits(&self.scopes, te, q, false);
            let ghost hs = derefs(hits@);
            proof {
                assert forall|j: int| 0 <= j < hs.len() implies #[trigger] hs[j].key.type_id < types.len() by {
                    crate::resolve::lemma_chain_member(types, self.scopes@, q, false, self.scopes@.len() as int, j);
                }
            }
            let mut i: usize = 0;
            assert(sources_view(srcs@) =~= Seq::empty());
            while i < hits.len()
                invariant
                    te.wf(),
                    te.valid(q),
                    te.types@ == types,
                    de.decls@ == decls,
                    hs == derefs(hits@),
                    forall|j: int| 0 <= j < hs.len() ==> #[trigger] hs[j].key.type_id < types.len(),
                    i <= hits@.len(),
                    sources_view(srcs@) == trait_sources(decls, types, q, *trait_name, trait_type_args@, hs.take(i as int)),
                    forall|j: int| 0 <= j < srcs@.len() ==> (#[trigger] srcs@[j]).0 is Typed && item_decl(srcs@[j].0) < decls.len(),
                    forall|j: int, x: int| 0 <= j < srcs@.len() && 0 <= x < srcs@[j].1@.len() ==> (#[trigger] srcs@[j].1@[x]).1 < types.len(),
                decreases hits@.len() - i,
            {
                let e = hits[i];
                proof {
                    assert(hs.take(i as int + 1).drop_last() =~= hs.take(i as int));
                    assert(hs.take(i as int + 1).last() == *e);
                }
                if crate::trait_map::strings_eq(&e.key.name.prefixes, &trait_name.prefixes) && e.key.name.name
                    == trait_name.suffix && trait_args_match_exec(te, trait_type_args, &e.key.name.args) {
                    let mapping = te.from_superset_and_subset(e.key.type_id, q);
                    let items = &e.value.trait_items;
                    let ghost base = sources_view(srcs@);
                    let mut j: usize = 0;
                    assert(base + entry_sources(decls, types, q, *e, items@.take(0)) =~= base);
                    while j < items.len()
                        invariant
                            te.wf(),
                            te.valid(q),
                            te.types@ == types,
                            de.decls@ == decls,
                            j <= items@.len(),
                            items@ == e.value.trait_items@,
                            mapping@ == subst_pairs(types, e.key.type_id, q),
                            forall|x: int| 0 <= x < mapping@.len() ==> mapping@[x].1 < types.len(),
                            sources_view(srcs@) == base + entry_sources(decls, types, q, *e, items@.take(j as int)),
                            forall|k: int| 0 <= k < srcs@.len() ==> (#[trigger] srcs@[k]).0 is Typed && item_decl(srcs@[k].0) < decls.len(),
                            forall|k: int, x: int| 0 <= k < srcs@.len() && 0 <= x < srcs@[k].1@.len() ==> (#[trigger] srcs@[k].1@[x]).1 < types.len(),
                        decreases items@.len() - j,
                    {
                        let it = items[j].1;
                        proof {
                            assert(items@.take(j as int + 1).drop_last() =~= items@.take(j as int));
                        }
                        let d = it.decl_id();
                        if matches!(it, ResolvedTraitImplItem::Typed(_)) && d < de.decls.len()
                            && !crate::queries::is_dummy_dropped(de, te, q, it) {
                            let ghost prev = srcs@;
                            srcs.push((it, copy_pairs(&mapping)));
                            assert(sources_view(srcs@) =~= sources_view(prev).push((it, mapping@)));
                        }
                        j += 1;
                    }
                    proof {
                        lemma_take_all(items@);
                    }
                }
                i += 1;
            }
            proof {
                lemma_take_all(hs);
            }
        } else {
            assert(sources_view(srcs@) =~= Seq::empty());
        }
        let ghost sv = sources_view(srcs@);
        assert(forall|d: int| 0 <= d < decls.len() ==> #[trigger] decls[d].types_valid(types.len()));
        let mut r: Vec<ResolvedTraitImplItem> = Vec::new();
        let mut i: usize = 0;
        assert(engines.de.decls@.subrange(0, decls.len() as int) =~= decls);
        assert(types.subrange(0, types.len() as int) =~= types);
        while i < srcs.len()
            invariant
                engines.wf(),
                types_wf(types),
                extends(types, engines.te.types@),
                engines.te.valid(q),
                sv == sources_view(srcs@),
                i <= srcs@.len(),
                r@.len() == i,
                engines.de.decls@.len() == decls.len() + i,
                engines.de.decls@.subrange(0, decls.len() as int) == decls,
                forall|d: int| 0 <= d < decls.len() ==> #[trigger] decls[d].types_valid(types.len()),
                forall|j: int| 0 <= j < srcs@.len() ==> (#[trigger] srcs@[j]).0 is Typed && item_decl(srcs@[j].0) < decls.len(),
                forall|j: int, x: int| 0 <= j < srcs@.len() && 0 <= x < srcs@[j].1@.len() ==> (#[trigger] srcs@[j].1@[x]).1 < types.len(),
                forall|j: int|
                    0 <= j < i ==> {
                        &&& #[trigger] r@[j] == with_decl(sv[j].0, (decls.len() + j) as usize)
                        &&& instantiated(
                            engines.te.types@,
                            decls[item_decl(sv[j].0) as int],
                            engines.de.decls@[decls.len() + j],
                            item_decl(sv[j].0),
                            full_mapping(decls[item_decl(sv[j].0) as int], sv[j].0, sv[j].1, q),
                        )
                    },
            decreases srcs@.len() - i,
        {
            let ghost before_t = engines.te.types@;
            let ghost before_d = engines.de.decls@;
            proof {
                assert(srcs@[i as int].0 is Typed);
                assert(before_d[item_decl(srcs@[i as int].0) as int] == decls[item_decl(srcs@[i as int].0) as int]);
                assert forall|x: int| 0 <= x < srcs@[i as int].1@.len() implies srcs@[i as int].1@[x].1 < engines.te.types@.len() by {
                    assert(srcs@[i as int].1@[x].1 < types.len());
                }
            }
            let it = make_item_for_type_mapping(engines, srcs[i].0, &srcs[i].1, q);
            let ghost r0 = r@;
            r.push(it);
            proof {
                lemma_extends_trans(types, before_t, engines.te.types@);
                assert(engines.de.decls@.subrange(0, decls.len() as int) =~= before_d.subrange(0, decls.len() as int));
                assert forall|j: int|
                    0 <= j < i + 1 implies {
                        &&& #[trigger] r@[j] == with_decl(sv[j].0, (decls.len() + j) as usize)
                        &&& instantiated(
                            engines.te.types@,
                            decls[item_decl(sv[j].0) as int],
                            engines.de.decls@[decls.len() + j],
                            item_decl(sv[j].0),
                            full_mapping(decls[item_decl(sv[j].0) as int], sv[j].0, sv[j].1, q),
                        )
                    } by {
                    let o = decls[item_decl(sv[j].0) as int];
                    let mm = full_mapping(o, sv[j].0, sv[j].1, q);
                    let d = engines.de.decls@[decls.len() + j];
                    if j < i {
                        assert(r0[j] == with_decl(sv[j].0, (decls.len() + j) as usize));
                        assert(engines.de.decls@[decls.len() + j] == before_d[decls.len() + j]);
                        assert forall|k: int| 0 <= k < o.signature@.len() implies subst_rel(engines.te.types@, mm, o.signature@[k], #[trigger] d.signature@[k]) by {
                            assert(subst_rel(before_t, mm, o.signature@[k], d.signature@[k]));
                            assert(o.types_valid(types.len()));
                            assert(before_d[decls.len() + j].types_valid(before_t.len()));
                            lemma_subst_rel_stable(before_t, engines.te.types@, mm, o.signature@[k], d.signature@[k]);
                        }
                    }
                }
            }
            i += 1;
        }
        r
    }

    /// As `get_items_for_type_and_trait_name_and_trait_type_arguments`, as
    /// type-checked items.
    pub fn get_items_for_type_and_trait_name_and_trait_type_arguments_typed(
        &self,
        engines: &mut Engines,
        type_id: TypeId,
        trait_name: &CallPath,
        trait_type_args: &Vec<TypeId>,
    ) -> (r: Vec<TyImplItem>)
        requires
            self.wf(),
            old(engines).wf(),
            old(engines).te.valid(type_id),
        ensures
            final(engines).wf(),
            extends(old(engines).te.types@, final(engines).te.types@),
            ({
                let types = old(engines).te.types@;
                let decls = old(engines).de.decls@;
                let q = dealias(types, type_id);
                let srcs = if types[q as int] is ErrorRecovery {
                    Seq::empty()
                } else {
                    trait_sources(decls, types, q, *trait_name, trait_type_args@, self.hits(types, q, false))
                };
                &&& r@.len() == srcs.len()
                &&& final(engines).de.decls@.len() == decls.len() + srcs.len()
                &&& final(engines).de.decls@.subrange(0, decls.len() as int) == decls
                &&& forall|i: int|
                    0 <= i < srcs.len() ==> {
                        &&& ResolvedTraitImplItem::Typed(#[trigger] r@[i]) == with_decl(srcs[i].0, (decls.len() + i) as usize)
                        &&& instantiated(
                            final(engines).te.types@,
                            decls[item_decl(srcs[i].0) as int],
                            final(engines).de.decls@[decls.len() + i],
                            item_decl(srcs[i].0),
                            full_mapping(decls[item_decl(srcs[i].0) as int], srcs[i].0, srcs[i].1, q),
                        )
                    }
            }),
    {
        let items = self.get_items_for_type_and_trait_name_and_trait_type_arguments(engines, type_id, trait_name, trait_type_args);
        let mut r: Vec<TyImplItem> = Vec::new();
        let mut i: usize = 0;
        while i < items.len()
            invariant
                i <= items@.len(),
                r@.len() == i,
                forall|j: int| 0 <= j < items@.len() ==> (#[trigger] items@[j]) is Typed,
                forall|j: int| 0 <= j < i ==> ResolvedTraitImplItem::Typed(#[trigger] r@[j]) == items@[j],
            decreases items@.len() - i,
        {
            r.push(items[i].expect_typed());
            i += 1;
        }
        r
    }
}

} // verus!
