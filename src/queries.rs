//! Lookups over the scope chain: items, trait names and impl spans that
//! apply to a type.
use vstd::prelude::*;
use crate::decls::{is_typed_fn, item_decl, Decl, DeclEngine, ResolvedTraitImplItem, Span};
use crate::errors::{CompileError, ErrorEmitted, ErrorView, Handler};
use crate::trait_map::{CallPath, TraitMap, TraitName};
use crate::types::TypeRootFilter;
use crate::resolve::{applies, collect_hits, derefs, impls_for, Module};
use crate::trait_map::TraitConstraint;
use crate::types::root_filter;
use crate::seqs::lemma_take_all;
use crate::trait_map::{strs_view, TraitEntry, TraitKey};
use crate::types::{dealias, unifies, TypeEngine, TypeId, TypeInfo, UnifyKind};

verus! {

/// Two records implement the same trait with the same arguments.
pub open spec fn same_trait(a: TraitEntry, b: TraitEntry) -> bool {
    &&& strs_view(a.key.name.prefixes@) == strs_view(b.key.name.prefixes@)
    &&& a.key.name.name@ == b.key.name.name@
    &&& a.key.name.args@ == b.key.name.args@
}

/// `a`'s type is strictly more specific than `b`'s.
pub open spec fn more_specific(types: Seq<TypeInfo>, a: TraitEntry, b: TraitEntry) -> bool {
    &&& a.key.type_id < types.len()
    &&& b.key.type_id < types.len()
    &&& unifies(types, UnifyKind::ConstraintSubset, a.key.type_id, b.key.type_id)
    &&& !unifies(types, UnifyKind::ConstraintSubset, b.key.type_id, a.key.type_id)
}

/// Record `e` is hidden by a more specific applicable implementation of the
/// same trait.
pub open spec fn shadowed(types: Seq<TypeInfo>, hits: Seq<TraitEntry>, e: TraitEntry) -> bool {
    exists|k: int| 0 <= k < hits.len() && same_trait(hits[k], e) && #[trigger] more_specific(types, hits[k], e)
}

/// The records of `es` that no record of `hits` hides, in order.
pub open spec fn unshadowed(types: Seq<TypeInfo>, hits: Seq<TraitEntry>, es: Seq<TraitEntry>) -> Seq<TraitEntry>
    decreases es.len(),
{
    if es.len() == 0 {
        Seq::empty()
    } else if shadowed(types, hits, es.last()) {
        unshadowed(types, hits, es.drop_last())
    } else {
        unshadowed(types, hits, es.drop_last()).push(es.last())
    }
}

/// A stand-in for a default method is not handed out for a type that is not
/// itself an unresolved generic.
pub open spec fn dummy_dropped(decls: Seq<Decl>, types: Seq<TypeInfo>, q: TypeId, it: ResolvedTraitImplItem) -> bool {
    &&& is_typed_fn(it)
    &&& item_decl(it) < decls.len()
    &&& decls[item_decl(it) as int].is_trait_method_dummy
    &&& !(types[q as int] is UnknownGeneric)
}

/// The items of `e` handed out for query type `q`, each with its record's key.
pub open spec fn entry_items(
    decls: Seq<Decl>,
    types: Seq<TypeInfo>,
    q: TypeId,
    e: TraitEntry,
    items: Seq<(String, ResolvedTraitImplItem)>,
) -> Seq<(ResolvedTraitImplItem, TraitKey)>
    decreases items.len(),
{
    if items.len() == 0 {
        Seq::empty()
    } else {
        let rest = entry_items(decls, types, q, e, items.drop_last());
        let it = items.last().1;
        if dummy_dropped(decls, types, q, it) {
            rest
        } else {
            rest.push((it, e.key))
        }
    }
}

pub open spec fn all_entry_items(decls: Seq<Decl>, types: Seq<TypeInfo>, q: TypeId, es: Seq<TraitEntry>) -> Seq<(ResolvedTraitImplItem, TraitKey)>
    decreases es.len(),
{
    if es.len() == 0 {
        Seq::empty()
    } else {
        all_entry_items(decls, types, q, es.drop_last()) + entry_items(
            decls,
            types,
            q,
            es.last(),
            es.last().value.trait_items@,
        )
    }
}

pub open spec fn pairs_view(s: Seq<(ResolvedTraitImplItem, &TraitKey)>) -> Seq<(ResolvedTraitImplItem, TraitKey)> {
    s.map_values(|p: (ResolvedTraitImplItem, &TraitKey)| (p.0, *p.1))
}

/// The items, with their records' keys, that apply to `type_id` in the scope
/// chain: records whose type `type_id` unifies into, less those hidden by a
/// more specific implementation of the same trait.
pub open spec fn items_and_keys_for_type(
    m: Module,
    decls: Seq<Decl>,
    types: Seq<TypeInfo>,
    type_id: TypeId,
) -> Seq<(ResolvedTraitImplItem, TraitKey)> {
    let q = dealias(types, type_id);
    if types[q as int] is ErrorRecovery {
        Seq::empty()
    } else {
        let hits = m.hits(types, q, true);
        all_entry_items(decls, types, q, unshadowed(types, hits, hits))
    }
}

fn same_trait_exec(a: &TraitEntry, b: &TraitEntry) -> (r: bool)
    ensures
        r == same_trait(*a, *b),
{
    crate::trait_map::trait_names_eq(&a.key.name, &b.key.name)
}

fn shadowed_exec(te: &TypeEngine, hits: &Vec<&TraitEntry>, e: &TraitEntry) -> (r: bool)
    requires
        te.wf(),
    ensures
        r == shadowed(te.types@, derefs(hits@), *e),
{
    let ghost hs = derefs(hits@);
    let mut k: usize = 0;
    while k < hits.len()
        invariant
            te.wf(),
            hs == derefs(hits@),
            k <= hits@.len(),
            forall|j: int| 0 <= j < k ==> !(same_trait(hs[j], *e) && #[trigger] more_specific(te.types@, hs[j], *e)),
        decreases hits@.len() - k,
    {
        let h = hits[k];
        if h.key.type_id < te.types.len() && e.key.type_id < te.types.len() && same_trait_exec(h, e)
            && te.unify_check(UnifyKind::ConstraintSubset, h.key.type_id, e.key.type_id)
            && !te.unify_check(UnifyKind::ConstraintSubset, e.key.type_id, h.key.type_id) {
            assert(same_trait(hs[k as int], *e) && more_specific(te.types@, hs[k as int], *e));
            return true;
        }
        k += 1;
    }
    false
}

pub(crate) fn is_dummy_dropped(de: &DeclEngine, te: &TypeEngine, q: TypeId, it: ResolvedTraitImplItem) -> (r: bool)
    requires
        te.valid(q),
    ensures
        r == dummy_dropped(de.decls@, te.types@, q, it),
{
    if !matches!(it, ResolvedTraitImplItem::Typed(crate::decls::TyTraitItem::Fn(_))) {
        return false;
    }
    let d = it.decl_id();
    if d >= de.decls.len() {
        return false;
    }
    de.get(d).is_trait_method_dummy && !matches!(te.get(q), TypeInfo::UnknownGeneric { .. })
}

impl Module {
    /// The applicable items for `type_id` with the keys of their records.
    pub fn get_items_and_trait_key_for_type<'a>(
        &'a self,
        te: &TypeEngine,
        de: &DeclEngine,
        type_id: TypeId,
    ) -> (r: Vec<(ResolvedTraitImplItem, &'a TraitKey)>)
        requires
            self.wf(),
            te.wf(),
            te.valid(type_id),
        ensures
            pairs_view(r@) == items_and_keys_for_type(*self, de.decls@, te.types@, type_id),
    {
        let q = te.get_unaliased_type_id(type_id);
        let mut out: Vec<(ResolvedTraitImplItem, &'a TraitKey)> = Vec::new();
        if matches!(te.get(q), TypeInfo::ErrorRecovery) {
            assert(pairs_view(out@) =~= Seq::empty());
            return out;
        }
        let hits = collect_hits(&self.scopes, te, q, true);
        let ghost hs = derefs(hits@);
        let ghost vis = unshadowed(te.types@, hs, hs);
        let mut i: usize = 0;
        assert(pairs_view(out@) =~= Seq::empty());
        while i < hits.len()
            invariant
                te.wf(),
                te.valid(q),
                hs == derefs(hits@),
                vis == unshadowed(te.types@, hs, hs),
                i <= hits@.len(),
                pairs_view(out@) == all_entry_items(de.decls@, te.types@, q, unshadowed(te.types@, hs, hs.take(i as int))),
            decreases hits@.len() - i,
        {
            let e: &'a TraitEntry = hits[i];
            proof {
                assert(hs.take(i as int + 1).drop_last() =~= hs.take(i as int));
                assert(hs.take(i as int + 1).last() == *e);
            }
            if !shadowed_exec(te, &hits, e) {
                let items = &e.value.trait_items;
                let ghost base = pairs_view(out@);
                let mut j: usize = 0;
                assert(base + entry_items(de.decls@, te.types@, q, *e, items@.take(0)) =~= base);
                while j < items.len()
                    invariant
                        te.valid(q),
                        j <= items@.len(),
                        items@ == e.value.trait_items@,
                        pairs_view(out@) == base + entry_items(de.decls@, te.types@, q, *e, items@.take(j as int)),
                    decreases items@.len() - j,
                {
                    let it = items[j].1;
                    proof {
                        assert(items@.take(j as int + 1).drop_last() =~= items@.take(j as int));
                    }
                    if !is_dummy_dropped(de, te, q, it) {
                        let ghost prev = out@;
                        out.push((it, &e.key));
                        assert(pairs_view(out@) =~= pairs_view(prev).push((it, e.key)));
                    }
                    j += 1;
                }
                proof {
                    lemma_take_all(items@);
                    let u = unshadowed(te.types@, hs, hs.take(i as int + 1));
                    assert(u == unshadowed(te.types@, hs, hs.take(i as int)).push(*e));
                    assert(u.drop_last() =~= unshadowed(te.types@, hs, hs.take(i as int)));
                }
            }
            i += 1;
        }
        proof {
            lemma_take_all(hs);
        }
        out
    }

    /// The applicable items for `type_id`.
    pub fn get_items_for_type(&self, te: &TypeEngine, de: &DeclEngine, type_id: TypeId) -> (r: Vec<ResolvedTraitImplItem>)
        requires
            self.wf(),
            te.wf(),
            te.valid(type_id),
        ensures
            r@ == items_and_keys_for_type(*self, de.decls@, te.types@, type_id).map_values(
                |p: (ResolvedTraitImplItem, TraitKey)| p.0,
            ),
    {
        let pairs = self.get_items_and_trait_key_for_type(te, de, type_id);
        let ghost pv = pairs_view(pairs@);
        let mut r: Vec<ResolvedTraitImplItem> = Vec::new();
        let mut i: usize = 0;
        while i < pairs.len()
            invariant
                i <= pairs@.len(),
                pv == pairs_view(pairs@),
                r@ == pv.take(i as int).map_values(|p: (ResolvedTraitImplItem, TraitKey)| p.0),
            decreases pairs@.len() - i,
        {
            r.push(pairs[i].0);
            i += 1;
            assert(r@ =~= pv.take(i as int).map_values(|p: (ResolvedTraitImplItem, TraitKey)| p.0));
        }
        assert(pv.take(pv.len() as int) =~= pv);
        r
    }
}


pub open spec fn trait_id(k: TraitKey) -> (Seq<Seq<char>>, Seq<char>, Seq<TypeId>) {
    (strs_view(k.name.prefixes@), k.name.name@, k.name.args@)
}

pub open spec fn has_trait(s: Seq<(ResolvedTraitImplItem, TraitKey)>, k: TraitKey) -> bool {
    exists|i: int| 0 <= i < s.len() && #[trigger] trait_id(s[i].1) == trait_id(k)
}

pub open spec fn trait_ids_unique(s: Seq<(ResolvedTraitImplItem, TraitKey)>) -> bool {
    forall|i: int, j: int| 0 <= i < s.len() && 0 <= j < s.len() && i != j ==> trait_id(s[i].1) != trait_id(s[j].1)
}

/// `s` with the candidate of `p`'s trait replaced by `p` (appended if new).
pub open spec fn put_candidate(s: Seq<(ResolvedTraitImplItem, TraitKey)>, p: (ResolvedTraitImplItem, TraitKey)) -> Seq<(ResolvedTraitImplItem, TraitKey)> {
    if has_trait(s, p.1) {
        s.update(choose|i: int| 0 <= i < s.len() && #[trigger] trait_id(s[i].1) == trait_id(p.1), p)
    } else {
        s.push(p)
    }
}

/// The key's trait is the one named by `as_trait`, when one is named.
pub open spec fn as_trait_matches(as_trait: Option<CallPath>, k: TraitKey) -> bool {
    match as_trait {
        None => true,
        Some(c) => strs_view(c.prefixes@) == strs_view(k.name.prefixes@) && c.suffix@ == k.name.name@,
    }
}

pub open spec fn symbol_matches(decls: Seq<Decl>, symbol: Seq<char>, as_trait: Option<CallPath>, p: (ResolvedTraitImplItem, TraitKey)) -> bool {
    &&& item_decl(p.0) < decls.len()
    &&& decls[item_decl(p.0) as int].name@ == symbol
    &&& as_trait_matches(as_trait, p.1)
}

/// One candidate per trait among the items named `symbol`, the last item of
/// a trait winning.
pub open spec fn candidates(
    decls: Seq<Decl>,
    symbol: Seq<char>,
    as_trait: Option<CallPath>,
    pairs: Seq<(ResolvedTraitImplItem, TraitKey)>,
) -> Seq<(ResolvedTraitImplItem, TraitKey)>
    decreases pairs.len(),
{
    if pairs.len() == 0 {
        Seq::empty()
    } else {
        let rest = candidates(decls, symbol, as_trait, pairs.drop_last());
        if symbol_matches(decls, symbol, as_trait, pairs.last()) {
            put_candidate(rest, pairs.last())
        } else {
            rest
        }
    }
}

fn callpath_matches(c: &Option<CallPath>, k: &TraitKey) -> (r: bool)
    ensures
        r == as_trait_matches(*c, *k),
{
    match c {
        None => true,
        Some(c) => crate::trait_map::strings_eq(&c.prefixes, &k.name.prefixes) && c.suffix == k.name.name,
    }
}

proof fn lemma_put_candidate_at(s: Seq<(ResolvedTraitImplItem, TraitKey)>, j: int, p: (ResolvedTraitImplItem, TraitKey))
    requires
        trait_ids_unique(s),
        0 <= j < s.len(),
        trait_id(s[j].1) == trait_id(p.1),
    ensures
        put_candidate(s, p) == s.update(j, p),
        trait_ids_unique(s.update(j, p)),
{
    assert(has_trait(s, p.1));
    let i = choose|i: int| 0 <= i < s.len() && #[trigger] trait_id(s[i].1) == trait_id(p.1);
    assert(i == j);
    let t = s.update(j, p);
    assert forall|a: int, b: int| 0 <= a < t.len() && 0 <= b < t.len() && a != b implies trait_id(t[a].1) != trait_id(t[b].1) by {
        if a != j && b != j {
            assert(t[a] == s[a] && t[b] == s[b]);
        } else if a == j {
            assert(t[b] == s[b]);
        } else {
            assert(t[a] == s[a]);
        }
    }
}

impl Module {
    /// The one item named `symbol` that applies to `type_id`, optionally
    /// under the trait `as_trait`. None is reported as `SymbolNotFound`;
    /// items of more than one trait as `MultipleApplicableItemsInScope`,
    /// listing each candidate's trait and the span of its item.
    pub fn get_trait_item_for_type(
        &self,
        handler: &mut Handler,
        te: &TypeEngine,
        de: &DeclEngine,
        symbol: &String,
        type_id: TypeId,
        as_trait: Option<CallPath>,
    ) -> (r: Result<ResolvedTraitImplItem, ErrorEmitted>)
        requires
            self.wf(),
            te.wf(),
            te.valid(type_id),
        ensures
            ({
                let cands = candidates(
                    de.decls@,
                    symbol@,
                    as_trait,
                    items_and_keys_for_type(*self, de.decls@, te.types@, type_id),
                );
                &&& (cands.len() == 1 ==> r == Ok::<ResolvedTraitImplItem, ErrorEmitted>(cands[0].0)
                    && final(handler).view() == old(handler).view())
                &&& (cands.len() == 0 ==> r is Err && final(handler).view() == old(handler).view().push(
                    ErrorView::SymbolNotFound { name: symbol@ },
                ))
                &&& (cands.len() > 1 ==> r is Err && final(handler).view() == old(handler).view().push(
                    ErrorView::MultipleApplicableItemsInScope {
                        item_name: symbol@,
                        as_traits: cands.map_values(|c: (ResolvedTraitImplItem, TraitKey)| c.1.name.name@),
                        item_paths: cands.map_values(
                            |c: (ResolvedTraitImplItem, TraitKey)| de.decls@[item_decl(c.0) as int].span,
                        ),
                    },
                ))
            }),
    {
        let pairs = self.get_items_and_trait_key_for_type(te, de, type_id);
        let ghost pv = pairs_view(pairs@);
        let mut cands: Vec<(ResolvedTraitImplItem, &TraitKey)> = Vec::new();
        let mut i: usize = 0;
        assert(pairs_view(cands@) =~= Seq::empty());
        while i < pairs.len()
            invariant
                i <= pairs@.len(),
                pv == pairs_view(pairs@),
                pairs_view(cands@) == candidates(de.decls@, symbol@, as_trait, pv.take(i as int)),
                trait_ids_unique(pairs_view(cands@)),
                forall|k: int| 0 <= k < cands@.len() ==> item_decl(#[trigger] cands@[k].0) < de.decls@.len(),
            decreases pairs@.len() - i,
        {
            let (it, key) = pairs[i];
            proof {
                assert(pv.take(i as int + 1).drop_last() =~= pv.take(i as int));
                assert(pv.take(i as int + 1).last() == (it, *key));
            }
            let d = it.decl_id();
            if d < de.decls.len() && de.get(d).name == *symbol && callpath_matches(&as_trait, key) {
                let ghost cv = pairs_view(cands@);
                let mut j: usize = 0;
                while j < cands.len() && !crate::trait_map::trait_names_eq(&cands[j].1.name, &key.name)
                    invariant
                        j <= cands@.len(),
                        cv == pairs_view(cands@),
                        forall|k: int| 0 <= k < j ==> trait_id(cv[k].1) != trait_id(*key),
                    decreases cands@.len() - j,
                {
                    j += 1;
                }
                if j < cands.len() {
                    proof {
                        lemma_put_candidate_at(cv, j as int, (it, *key));
                    }
                    cands.set(j, (it, key));
                    assert(pairs_view(cands@) =~= cv.update(j as int, (it, *key)));
                } else {
                    cands.push((it, key));
                    assert(!has_trait(cv, *key));
                    assert(pairs_view(cands@) =~= cv.push((it, *key)));
                    assert(trait_ids_unique(pairs_view(cands@)));
                }
            }
            i += 1;
        }
        proof {
            lemma_take_all(pv);
        }
        let ghost cv = pairs_view(cands@);
        if cands.len() == 1 {
            Ok(cands[0].0)
        } else if cands.len() == 0 {
            Err(handler.emit_err(CompileError::SymbolNotFound { name: symbol.clone() }))
        } else {
            let mut as_traits: Vec<String> = Vec::new();
            let mut item_paths: Vec<Span> = Vec::new();
            let mut k: usize = 0;
            while k < cands.len()
                invariant
                    k <= cands@.len(),
                    cv == pairs_view(cands@),
                    forall|x: int| 0 <= x < cands@.len() ==> item_decl(#[trigger] cands@[x].0) < de.decls@.len(),
                    as_traits@.map_values(|s: String| s@) == cv.take(k as int).map_values(
                        |c: (ResolvedTraitImplItem, TraitKey)| c.1.name.name@,
                    ),
                    item_paths@ == cv.take(k as int).map_values(
                        |c: (ResolvedTraitImplItem, TraitKey)| de.decls@[item_decl(c.0) as int].span,
                    ),
                decreases cands@.len() - k,
            {
                let ghost pa = as_traits@;
                let nm = cands[k].1.name.name.clone();
                assert(nm@ == cv[k as int].1.name.name@);
                as_traits.push(nm);
                assert(as_traits@.map_values(|s: String| s@) =~= pa.map_values(|s: String| s@).push(cv[k as int].1.name.name@));
                assert(cv.take(k as int + 1).map_values(|c: (ResolvedTraitImplItem, TraitKey)| c.1.name.name@) =~= cv.take(k as int).map_values(
                    |c: (ResolvedTraitImplItem, TraitKey)| c.1.name.name@).push(cv[k as int].1.name.name@));
                item_paths.push(cands[k].0.span(de));
                k += 1;
                assert(as_traits@.map_values(|s: String| s@) =~= cv.take(k as int).map_values(
                    |c: (ResolvedTraitImplItem, TraitKey)| c.1.name.name@,
                ));
                assert(item_paths@ =~= cv.take(k as int).map_values(
                    |c: (ResolvedTraitImplItem, TraitKey)| de.decls@[item_decl(c.0) as int].span,
                ));
            }
            proof {
                lemma_take_all(cv);
            }
            Err(
                handler.emit_err(
                    CompileError::MultipleApplicableItemsInScope {
                        item_name: symbol.clone(),
                        as_traits,
                        item_paths,
                    },
                ),
            )
        }
    }
}


pub open spec fn names_view(s: Seq<&TraitName>) -> Seq<TraitName> {
    s.map_values(|n: &TraitName| *n)
}

/// The spans of the records of `es` that implement the trait at path `c`.
pub open spec fn trait_spans_in(es: Seq<TraitEntry>, c: CallPath) -> Seq<Span>
    decreases es.len(),
{
    if es.len() == 0 {
        Seq::empty()
    } else {
        let rest = trait_spans_in(es.drop_last(), c);
        let e = es.last();
        if strs_view(e.key.name.prefixes@) == strs_view(c.prefixes@) && e.key.name.name@ == c.suffix@ {
            rest.push(e.value.impl_span)
        } else {
            rest
        }
    }
}

pub open spec fn trait_spans_in_buckets(bs: Seq<(TypeRootFilter, Vec<TraitEntry>)>, c: CallPath) -> Seq<Span>
    decreases bs.len(),
{
    if bs.len() == 0 {
        Seq::empty()
    } else {
        trait_spans_in_buckets(bs.drop_last(), c) + trait_spans_in(bs.last().1@, c)
    }
}

/// Scopes `k - 1` down to `0`.
pub open spec fn trait_spans_in_scopes(scopes: Seq<TraitMap>, c: CallPath, k: int) -> Seq<Span>
    decreases k,
{
    if k <= 0 || k > scopes.len() {
        Seq::empty()
    } else {
        trait_spans_in_buckets(scopes[k - 1].trait_impls@, c) + trait_spans_in_scopes(scopes, c, k - 1)
    }
}

impl Module {
    /// The trait names (with their arguments) of the records that apply to
    /// `type_id`.
    pub fn get_trait_names_and_type_arguments_for_type<'a>(&'a self, te: &TypeEngine, type_id: TypeId) -> (r: Vec<&'a TraitName>)
        requires
            self.wf(),
            te.wf(),
            te.valid(type_id),
        ensures
            names_view(r@) == ({
                let q = dealias(te.types@, type_id);
                if te.types@[q as int] is ErrorRecovery {
                    Seq::empty()
                } else {
                    self.hits(te.types@, q, false).map_values(|e: TraitEntry| e.key.name)
                }
            }),
    {
        let q = te.get_unaliased_type_id(type_id);
        let mut out: Vec<&'a TraitName> = Vec::new();
        if matches!(te.get(q), TypeInfo::ErrorRecovery) {
            assert(names_view(out@) =~= Seq::empty());
            return out;
        }
        let hits = collect_hits(&self.scopes, te, q, false);
        let ghost hs = derefs(hits@);
        let mut i: usize = 0;
        while i < hits.len()
            invariant
                i <= hits@.len(),
                hs == derefs(hits@),
                names_view(out@) == hs.take(i as int).map_values(|e: TraitEntry| e.key.name),
            decreases hits@.len() - i,
        {
            let ghost prev = out@;
            let h: &'a TraitEntry = hits[i];
            out.push(&h.key.name);
            assert(names_view(out@) =~= names_view(prev).push(hs[i as int].key.name));
            assert(hs.take(i as int + 1).map_values(|e: TraitEntry| e.key.name) =~= hs.take(i as int).map_values(
                |e: TraitEntry| e.key.name,
            ).push(hs[i as int].key.name));
            i += 1;
        }
        proof {
            lemma_take_all(hs);
        }
        out
    }

    /// The spans of the impl blocks that apply to `type_id`.
    pub fn get_impl_spans_for_type(&self, te: &TypeEngine, type_id: TypeId) -> (r: Vec<Span>)
        requires
            self.wf(),
            te.wf(),
            te.valid(type_id),
        ensures
            r@ == ({
                let q = dealias(te.types@, type_id);
                if te.types@[q as int] is ErrorRecovery {
                    Seq::empty()
                } else {
                    self.hits(te.types@, q, false).map_values(|e: TraitEntry| e.value.impl_span)
                }
            }),
    {
        let q = te.get_unaliased_type_id(type_id);
        let mut out: Vec<Span> = Vec::new();
        if matches!(te.get(q), TypeInfo::ErrorRecovery) {
            assert(out@ =~= Seq::<Span>::empty());
            return out;
        }
        let hits = collect_hits(&self.scopes, te, q, false);
        let ghost hs = derefs(hits@);
        let mut i: usize = 0;
        while i < hits.len()
            invariant
                i <= hits@.len(),
                hs == derefs(hits@),
                out@ == hs.take(i as int).map_values(|e: TraitEntry| e.value.impl_span),
            decreases hits@.len() - i,
        {
            out.push(hits[i].value.impl_span);
            assert(hs.take(i as int + 1).map_values(|e: TraitEntry| e.value.impl_span) =~= hs.take(i as int).map_values(
                |e: TraitEntry| e.value.impl_span,
            ).push(hs[i as int].value.impl_span));
            i += 1;
        }
        proof {
            lemma_take_all(hs);
        }
        out
    }

    /// The spans of every impl block of the trait at path `trait_name`, in
    /// every scope of the chain, innermost first.
    pub fn get_impl_spans_for_trait_name(&self, trait_name: &CallPath) -> (r: Vec<Span>)
        ensures
            r@ == trait_spans_in_scopes(self.scopes@, *trait_name, self.scopes@.len() as int),
    {
        let mut out: Vec<Span> = Vec::new();
        let mut k: usize = self.scopes.len();
        while k > 0
            invariant
                k <= self.scopes@.len(),
                out@ + trait_spans_in_scopes(self.scopes@, *trait_name, k as int) == trait_spans_in_scopes(
                    self.scopes@,
                    *trait_name,
                    self.scopes@.len() as int,
                ),
            decreases k,
        {
            let bs = &self.scopes[k - 1].trait_impls;
            let ghost base = out@;
            let mut b: usize = 0;
            assert(base + trait_spans_in_buckets(bs@.take(0), *trait_name) =~= base);
            while b < bs.len()
                invariant
                    b <= bs@.len(),
                    out@ == base + trait_spans_in_buckets(bs@.take(b as int), *trait_name),
                decreases bs@.len() - b,
            {
                let es = &bs[b].1;
                let ghost base2 = out@;
                let mut i: usize = 0;
                assert(base2 + trait_spans_in(es@.take(0), *trait_name) =~= base2);
                while i < es.len()
                    invariant
                        i <= es@.len(),
                        out@ == base2 + trait_spans_in(es@.take(i as int), *trait_name),
                    decreases es@.len() - i,
                {
                    let e = &es[i];
                    assert(es@.take(i as int + 1).drop_last() =~= es@.take(i as int));
                    if crate::trait_map::strings_eq(&e.key.name.prefixes, &trait_name.prefixes) && e.key.name.name
                        == trait_name.suffix {
                        out.push(e.value.impl_span);
                    }
                    i += 1;
                }
                proof {
                    lemma_take_all(es@);
                    assert(bs@.take(b as int + 1).drop_last() =~= bs@.take(b as int));
                }
                b += 1;
            }
            proof {
                lemma_take_all(bs@);
            }
            k -= 1;
        }
        assert(out@ + trait_spans_in_scopes(self.scopes@, *trait_name, 0) =~= out@);
        out
    }
}


/// The arguments unify pairwise as far as both lists go.
pub open spec fn zip_unify(types: Seq<TypeInfo>, a: Seq<TypeId>, b: Seq<TypeId>) -> bool {
    forall|k: int|
        0 <= k < a.len() && k < b.len() ==> a[k] < types.len() && b[k] < types.len() && unifies(
            types,
            UnifyKind::ConstraintSubset,
            a[k],
            b[k],
        )
}

/// Record `e` implements one of the bounds `cs` for a type `q` coerces to.
pub open spec fn meets_some(types: Seq<TypeInfo>, q: TypeId, e: TraitEntry, cs: Seq<TraitConstraint>) -> bool {
    &&& e.key.type_id < types.len()
    &&& unifies(types, UnifyKind::Coercion, q, e.key.type_id)
    &&& exists|i: int| 0 <= i < cs.len() && #[trigger] bound_matches(types, e, cs[i])
}

/// Record `e` implements the trait of bound `c`.
pub open spec fn bound_matches(types: Seq<TypeInfo>, e: TraitEntry, c: TraitConstraint) -> bool {
    c.trait_name@ == e.key.name.name@ && zip_unify(types, e.key.name.args@, c.type_arguments@)
}

pub open spec fn meeting(types: Seq<TypeInfo>, q: TypeId, cs: Seq<TraitConstraint>, es: Seq<TraitEntry>) -> Seq<TraitEntry>
    decreases es.len(),
{
    if es.len() == 0 {
        Seq::empty()
    } else if meets_some(types, q, es.last(), cs) {
        meeting(types, q, cs, es.drop_last()).push(es.last())
    } else {
        meeting(types, q, cs, es.drop_last())
    }
}

/// Scopes `k - 1` down to `0`.
pub open spec fn meeting_chain(types: Seq<TypeInfo>, scopes: Seq<crate::trait_map::TraitMap>, q: TypeId, cs: Seq<TraitConstraint>, k: int) -> Seq<TraitEntry>
    decreases k,
{
    if k <= 0 || k > scopes.len() {
        Seq::empty()
    } else {
        meeting(types, q, cs, impls_for(scopes[k - 1], root_filter(types, q), true)) + meeting_chain(types, scopes, q, cs, k - 1)
    }
}

fn zip_unify_exec(te: &TypeEngine, a: &Vec<TypeId>, b: &Vec<TypeId>) -> (r: bool)
    requires
        te.wf(),
    ensures
        r == zip_unify(te.types@, a@, b@),
{
    let mut k: usize = 0;
    while k < a.len() && k < b.len()
        invariant
            te.wf(),
            k <= a@.len(),
            forall|j: int|
                0 <= j < k && j < b@.len() ==> a@[j] < te.types@.len() && b@[j] < te.types@.len() && unifies(
                    te.types@,
                    UnifyKind::ConstraintSubset,
                    a@[j],
                    b@[j],
                ),
        decreases a@.len() - k,
    {
        if a[k] >= te.types.len() || b[k] >= te.types.len() || !te.unify_check(UnifyKind::ConstraintSubset, a[k], b[k]) {
            return false;
        }
        k += 1;
    }
    true
}

fn meets_some_exec(te: &TypeEngine, q: TypeId, e: &TraitEntry, cs: &Vec<TraitConstraint>) -> (r: bool)
    requires
        te.wf(),
        te.valid(q),
    ensures
        r == meets_some(te.types@, q, *e, cs@),
{
    if e.key.type_id >= te.types.len() || !te.unify_check(UnifyKind::Coercion, q, e.key.type_id) {
        return false;
    }
    let mut i: usize = 0;
    while i < cs.len()
        invariant
            te.wf(),
            i <= cs@.len(),
            e.key.type_id < te.types@.len(),
            unifies(te.types@, UnifyKind::Coercion, q, e.key.type_id),
            forall|j: int| 0 <= j < i ==> !#[trigger] bound_matches(te.types@, *e, cs@[j]),
        decreases cs@.len() - i,
    {
        if cs[i].trait_name == e.key.name.name && zip_unify_exec(te, &e.key.name.args, &cs[i].type_arguments) {
            assert(bound_matches(te.types@, *e, cs@[i as int]));
            return true;
        }
        i += 1;
    }
    false
}

pub open spec fn sat_pairs(es: Seq<TraitEntry>) -> Seq<(TypeId, TraitName)> {
    es.map_values(|e: TraitEntry| (e.key.type_id, e.key.name))
}

pub open spec fn sat_view(s: Seq<(TypeId, &TraitName)>) -> Seq<(TypeId, TraitName)> {
    s.map_values(|p: (TypeId, &TraitName)| (p.0, *p.1))
}

impl Module {
    /// For each record, innermost scope first, that implements one of the
    /// bounds `constraints` for a type `type_id` coerces to: the record's type
    /// and trait name.
    pub fn get_trait_constraints_are_satisfied_for_types<'a>(
        &'a self,
        te: &TypeEngine,
        type_id: TypeId,
        constraints: &Vec<TraitConstraint>,
    ) -> (r: Vec<(TypeId, &'a TraitName)>)
        requires
            self.wf(),
            te.wf(),
            te.valid(type_id),
        ensures
            sat_view(r@) == sat_pairs(meeting_chain(
                te.types@,
                self.scopes@,
                dealias(te.types@, type_id),
                constraints@,
                self.scopes@.len() as int,
            )),
    {
        let q = te.get_unaliased_type_id(type_id);
        let f = te.get_type_root_filter(q);
        let ghost target = meeting_chain(te.types@, self.scopes@, q, constraints@, self.scopes@.len() as int);
        let mut out: Vec<(TypeId, &'a TraitName)> = Vec::new();
        let mut k: usize = self.scopes.len();
        while k > 0
            invariant
                te.wf(),
                te.valid(q),
                f == root_filter(te.types@, q),
                k <= self.scopes@.len(),
                self.wf(),
                target == meeting_chain(te.types@, self.scopes@, q, constraints@, self.scopes@.len() as int),
                sat_view(out@) + sat_pairs(meeting_chain(te.types@, self.scopes@, q, constraints@, k as int))
                    == sat_pairs(target),
            decreases k,
        {
            let m = &self.scopes[k - 1];
            assert(m.wf());
            let impls = m.impls_refs(f);
            let ghost es = derefs(impls@);
            let ghost base = sat_view(out@);
            let mut i: usize = 0;
            assert(sat_pairs(meeting(te.types@, q, constraints@, es.take(0))) =~= Seq::empty());
            assert(base + Seq::<(TypeId, TraitName)>::empty() =~= base);
            while i < impls.len()
                invariant
                    te.wf(),
                    te.valid(q),
                    i <= impls@.len(),
                    es == derefs(impls@),
                        sat_view(out@) == base + sat_pairs(meeting(te.types@, q, constraints@, es.take(i as int))),
                decreases impls@.len() - i,
            {
                let e = impls[i];
                assert(es.take(i as int + 1).drop_last() =~= es.take(i as int));
                assert(es.take(i as int + 1).last() == *e);
                if meets_some_exec(te, q, e, constraints) {
                    let ghost prev = out@;
                    out.push((e.key.type_id, &e.key.name));
                    assert(sat_view(out@) =~= sat_view(prev).push((e.key.type_id, e.key.name)));
                    assert(sat_pairs(meeting(te.types@, q, constraints@, es.take(i as int + 1))) =~= sat_pairs(meeting(
                        te.types@,
                        q,
                        constraints@,
                        es.take(i as int),
                    )).push((e.key.type_id, e.key.name)));
                }
                i += 1;
            }
            proof {
                assert(es.take(es.len() as int) =~= es);
                let mk = sat_pairs(meeting(te.types@, q, constraints@, es));
                let rest = sat_pairs(meeting_chain(te.types@, self.scopes@, q, constraints@, k - 1));
                assert(sat_pairs(meeting_chain(te.types@, self.scopes@, q, constraints@, k as int)) =~= mk + rest);
                assert(sat_view(out@) + rest =~= base + (mk + rest));
            }
            k -= 1;
        }
        assert(sat_pairs(meeting_chain(te.types@, self.scopes@, q, constraints@, 0)) =~= Seq::empty());
        assert(sat_view(out@) =~= sat_view(out@) + Seq::<(TypeId, TraitName)>::empty());
        out
    }
}

} // verus!
