//! Sub-indexes cut out of an index: the implementations of one trait
//! declaration, and those a type brings along when it is imported.
use vstd::prelude::*;
use crate::assoc::{has_key, keys_unique, lemma_assoc_dom};
use crate::decls::{ResolvedTraitImplItem, Span};
use crate::resolve::clone_constraints;
use crate::trait_map::constraints_view;
use crate::trait_map::{
    bucket_view, bucket_wf, entries_seq, entry_view, entry_wf, find_bucket, items_seq, ord_key,
    param_ids, strs_view, EntryView, OrdKey, TraitEntry, TraitItems, TraitKey, TraitMap, TraitName,
    TraitValue, TypeParameter,
};
use crate::decls::{Decl, DeclEngine};
use crate::queries::{dummy_dropped, is_dummy_dropped};
use crate::resolve::{derefs, impls_for};
use crate::trait_map::{items_view, merge_buckets, merge_one};
use crate::order::{key_enc, lemma_lex_trans, lex_cmp};
use crate::trait_map::sorted;
use crate::types::{
    inner_types, is_concrete, root_filter, unifies, TypeEngine, TypeId, TypeInfo, TypeRootFilter,
    UnifyKind,
};

use crate::types::copy_ids;

verus! {

pub(crate) fn copy_strings(v: &Vec<String>) -> (r: Vec<String>)
    ensures
        strs_view(r@) == strs_view(v@),
{
    let mut r: Vec<String> = Vec::new();
    let mut i: usize = 0;
    while i < v.len()
        invariant
            i <= v@.len(),
            strs_view(r@) == strs_view(v@.take(i as int)),
        decreases v@.len() - i,
    {
        let ghost prev = r@;
        r.push(v[i].clone());
        assert(strs_view(r@) =~= strs_view(prev).push(v@[i as int]@));
        assert(strs_view(v@.take(i as int + 1)) =~= strs_view(v@.take(i as int)).push(v@[i as int]@));
        i += 1;
    }
    assert(v@.take(v@.len() as int) =~= v@);
    r
}

pub open spec fn params_view(ps: Seq<TypeParameter>) -> Seq<(TypeId, Seq<(Seq<char>, Seq<TypeId>)>)> {
    ps.map_values(|p: TypeParameter| (p.type_id, constraints_view(p.trait_constraints@)))
}

fn clone_params(ps: &Vec<TypeParameter>) -> (r: Vec<TypeParameter>)
    ensures
        params_view(r@) == params_view(ps@),
        param_ids(r@) == param_ids(ps@),
        crate::trait_map::param_bounds(r@) == crate::trait_map::param_bounds(ps@),
{
    let mut r: Vec<TypeParameter> = Vec::new();
    let mut i: usize = 0;
    while i < ps.len()
        invariant
            i <= ps@.len(),
            params_view(r@) == params_view(ps@.take(i as int)),
        decreases ps@.len() - i,
    {
        let ghost prev = r@;
        let p = TypeParameter { type_id: ps[i].type_id, trait_constraints: clone_constraints(&ps[i].trait_constraints) };
        r.push(p);
        assert(params_view(r@) =~= params_view(prev).push((ps@[i as int].type_id, constraints_view(ps@[i as int].trait_constraints@))));
        assert(params_view(ps@.take(i as int + 1)) =~= params_view(ps@.take(i as int)).push(
            (ps@[i as int].type_id, constraints_view(ps@[i as int].trait_constraints@)),
        ));
        i += 1;
    }
    assert(ps@.take(ps@.len() as int) =~= ps@);
    assert(param_ids(r@) =~= param_ids(ps@)) by {
        assert forall|k: int| 0 <= k < r@.len() implies r@[k].type_id == ps@[k].type_id by {
            assert(params_view(r@)[k] == params_view(ps@)[k]);
        }
    }
    assert(crate::trait_map::param_bounds(r@) =~= crate::trait_map::param_bounds(ps@)) by {
        assert forall|k: int| 0 <= k < r@.len() implies constraints_view(r@[k].trait_constraints@) == constraints_view(ps@[k].trait_constraints@) by {
            assert(params_view(r@)[k] == params_view(ps@)[k]);
        }
    }
    r
}

fn clone_items(items: &TraitItems) -> (r: TraitItems)
    ensures
        items_seq(r@) == items_seq(items@),
{
    let mut r: TraitItems = Vec::new();
    let mut i: usize = 0;
    while i < items.len()
        invariant
            i <= items@.len(),
            items_seq(r@) == items_seq(items@.take(i as int)),
        decreases items@.len() - i,
    {
        let ghost prev = r@;
        r.push((items[i].0.clone(), items[i].1));
        assert(items_seq(r@) =~= items_seq(prev).push((items@[i as int].0@, items@[i as int].1)));
        assert(items_seq(items@.take(i as int + 1)) =~= items_seq(items@.take(i as int)).push(
            (items@[i as int].0@, items@[i as int].1),
        ));
        i += 1;
    }
    assert(items@.take(items@.len() as int) =~= items@);
    r
}

/// A copy of the key: equal path, arguments, type and generic slots.
pub(crate) fn clone_key(k: &TraitKey) -> (r: TraitKey)
    ensures
        ord_key(r) == ord_key(*k),
        r.trait_decl_span == k.trait_decl_span,
        params_view(r.type_id_type_parameters@) == params_view(k.type_id_type_parameters@),
        crate::trait_map::param_bounds(r.type_id_type_parameters@) == crate::trait_map::param_bounds(k.type_id_type_parameters@),
{
    TraitKey {
        name: TraitName { prefixes: copy_strings(&k.name.prefixes), name: k.name.name.clone(), args: copy_ids(&k.name.args) },
        type_id: k.type_id,
        type_id_type_parameters: clone_params(&k.type_id_type_parameters),
        trait_decl_span: k.trait_decl_span,
    }
}

/// A copy of the record.
pub(crate) fn clone_entry(e: &TraitEntry) -> (r: TraitEntry)
    ensures
        entry_view(r) == entry_view(*e),
        items_seq(r.value.trait_items@) == items_seq(e.value.trait_items@),
        params_view(r.key.type_id_type_parameters@) == params_view(e.key.type_id_type_parameters@),
        entry_wf(*e) ==> entry_wf(r),
{
    TraitEntry {
        key: clone_key(&e.key),
        value: TraitValue { trait_items: clone_items(&e.value.trait_items), impl_span: e.value.impl_span },
    }
}

/// The records of a bucket whose trait was declared at `span`.
pub open spec fn restrict_to_decl(b: Map<OrdKey, EntryView>, span: Span) -> Map<OrdKey, EntryView> {
    Map::new(|k: OrdKey| b.contains_key(k) && b[k].trait_decl_span == Some(span), |k: OrdKey| b[k])
}

pub open spec fn span_entries(es: Seq<TraitEntry>, span: Span) -> Seq<TraitEntry>
    decreases es.len(),
{
    if es.len() == 0 {
        Seq::empty()
    } else if es.last().key.trait_decl_span == Some(span) {
        span_entries(es.drop_last(), span).push(es.last())
    } else {
        span_entries(es.drop_last(), span)
    }
}

proof fn lemma_span_entries(es: Seq<TraitEntry>, span: Span)
    requires
        keys_unique(entries_seq(es)),
    ensures
        bucket_view(span_entries(es, span)) == restrict_to_decl(bucket_view(es), span),
        keys_unique(entries_seq(span_entries(es, span))),
    decreases es.len(),
{
    if es.len() == 0 {
        assert(entries_seq(Seq::<TraitEntry>::empty()) =~= Seq::empty());
        assert(restrict_to_decl(bucket_view(es), span) =~= bucket_view(span_entries(es, span)));
    } else {
        let d = es.drop_last();
        assert(entries_seq(d) =~= entries_seq(es).drop_last());
        lemma_span_entries(d, span);
        let k = ord_key(es.last().key);
        lemma_assoc_dom(entries_seq(d), k);
        assert(!has_key(entries_seq(d), k)) by {
            if has_key(entries_seq(d), k) {
                let i = choose|i: int| 0 <= i < entries_seq(d).len() && entries_seq(d)[i].0 == k;
                assert(entries_seq(es)[i].0 == entries_seq(es)[es.len() - 1].0);
            }
        }
        let s = span_entries(d, span);
        if es.last().key.trait_decl_span == Some(span) {
            lemma_assoc_dom(entries_seq(s), k);
            assert(!bucket_view(s).contains_key(k));
            crate::assoc::lemma_assoc_push(entries_seq(s), (k, entry_view(es.last())));
            assert(entries_seq(span_entries(es, span)) =~= entries_seq(s).push((k, entry_view(es.last()))));
        }
        assert(bucket_view(span_entries(es, span)) =~= restrict_to_decl(bucket_view(es), span));
    }
}

impl TraitMap {
    /// The records of `self` whose trait was declared at `trait_decl_span`,
    /// as a map of their own with an empty cache.
    pub fn filter_by_trait_decl_span(&self, trait_decl_span: Span) -> (r: TraitMap)
        requires
            self.wf(),
        ensures
            r.wf(),
            r.satisfied_cache@.len() == 0,
            forall|f: TypeRootFilter| #[trigger] r.bucket(f) == restrict_to_decl(self.bucket(f), trait_decl_span),
    {
        let mut out: Vec<(TypeRootFilter, Vec<TraitEntry>)> = Vec::new();
        let mut b: usize = 0;
        while b < self.trait_impls.len()
            invariant
                self.wf(),
                b <= self.trait_impls@.len(),
                out@.len() == b,
                forall|j: int| 0 <= j < b ==> (#[trigger] out@[j]).0 == self.trait_impls@[j].0,
                forall|j: int| 0 <= j < b ==> (#[trigger] out@[j]).1@.len() == span_entries(self.trait_impls@[j].1@, trait_decl_span).len(),
                forall|j: int, i: int|
                    0 <= j < b && 0 <= i < out@[j].1@.len() ==> entry_view(#[trigger] out@[j].1@[i]) == entry_view(
                        span_entries(self.trait_impls@[j].1@, trait_decl_span)[i],
                    ) && entry_wf(out@[j].1@[i]),
                forall|j: int| 0 <= j < b ==> #[trigger] sorted(out@[j].1@),
            decreases self.trait_impls@.len() - b,
        {
            let f = self.trait_impls[b].0;
            let es = &self.trait_impls[b].1;
            let mut kept: Vec<TraitEntry> = Vec::new();
            let mut i: usize = 0;
            proof {
                assert(bucket_wf(es@));
            }
            while i < es.len()
                invariant
                    i <= es@.len(),
                    bucket_wf(es@),
                    kept@.len() == span_entries(es@.take(i as int), trait_decl_span).len(),
                    forall|k: int| 0 <= k < kept@.len() ==> entry_view(#[trigger] kept@[k]) == entry_view(
                        span_entries(es@.take(i as int), trait_decl_span)[k],
                    ) && entry_wf(kept@[k]),
                    sorted(kept@),
                    forall|k: int, x: int|
                        0 <= k < kept@.len() && i <= x < es@.len() ==> lex_cmp(
                            key_enc(ord_key(#[trigger] kept@[k].key)),
                            key_enc(ord_key(#[trigger] es@[x].key)),
                        ) <= 0,
                decreases es@.len() - i,
            {
                assert(es@.take(i as int + 1).drop_last() =~= es@.take(i as int));
                if es[i].key.trait_decl_span == Some(trait_decl_span) {
                    assert(entry_wf(es@[i as int]));
                    let ghost prev = kept@;
                    let c = clone_entry(&es[i]);
                    kept.push(c);
                    proof {
                        assert(ord_key(c.key) == ord_key(es@[i as int].key));
                        assert forall|a: int, b2: int| 0 <= a < b2 < kept@.len() implies #[trigger] lex_cmp(
                            key_enc(ord_key(kept@[a].key)),
                            key_enc(ord_key(kept@[b2].key)),
                        ) <= 0 by {
                            if b2 == kept@.len() - 1 {
                                assert(kept@[a] == prev[a]);
                                assert(lex_cmp(key_enc(ord_key(prev[a].key)), key_enc(ord_key(es@[i as int].key))) <= 0);
                            } else {
                                assert(kept@[a] == prev[a] && kept@[b2] == prev[b2]);
                            }
                        }
                    }
                }
                proof {
                    assert forall|k: int, x: int|
                        0 <= k < kept@.len() && i + 1 <= x < es@.len() implies lex_cmp(
                            key_enc(ord_key(#[trigger] kept@[k].key)),
                            key_enc(ord_key(#[trigger] es@[x].key)),
                        ) <= 0 by {
                        let ki = key_enc(ord_key(es@[i as int].key));
                        assert(lex_cmp(ki, key_enc(ord_key(es@[x].key))) <= 0);
                        if k < kept@.len() - 1 || es@[i as int].key.trait_decl_span != Some(trait_decl_span) {
                            assert(lex_cmp(key_enc(ord_key(kept@[k].key)), ki) <= 0);
                        } else {
                            crate::order::lemma_lex_refl(ki);
                        }
                        lemma_lex_trans(key_enc(ord_key(kept@[k].key)), ki, key_enc(ord_key(es@[x].key)));
                    }
                }
                i += 1;
            }
            assert(es@.take(es@.len() as int) =~= es@);
            out.push((f, kept));
            b += 1;
        }
        let r = TraitMap { trait_impls: out, satisfied_cache: Vec::new() };
        proof {
            lemma_filtered_map(self.trait_impls@, r.trait_impls@, trait_decl_span);
        }
        r
    }
}

proof fn lemma_filtered_map(
    bs: Seq<(TypeRootFilter, Vec<TraitEntry>)>,
    out: Seq<(TypeRootFilter, Vec<TraitEntry>)>,
    span: Span,
)
    requires
        keys_unique(bs),
        forall|j: int| 0 <= j < bs.len() ==> #[trigger] bucket_wf(bs[j].1@),
        out.len() == bs.len(),
        forall|j: int| 0 <= j < out.len() ==> (#[trigger] out[j]).0 == bs[j].0,
        forall|j: int| 0 <= j < out.len() ==> (#[trigger] out[j]).1@.len() == span_entries(bs[j].1@, span).len(),
        forall|j: int, i: int|
            0 <= j < out.len() && 0 <= i < out[j].1@.len() ==> entry_view(#[trigger] out[j].1@[i]) == entry_view(
                span_entries(bs[j].1@, span)[i],
            ) && entry_wf(out[j].1@[i]),
        forall|j: int| 0 <= j < out.len() ==> #[trigger] sorted(out[j].1@),
    ensures
        keys_unique(out),
        forall|j: int| 0 <= j < out.len() ==> #[trigger] bucket_wf(out[j].1@),
        forall|f: TypeRootFilter| #[trigger] bucket_view(find_bucket(out, f)) == restrict_to_decl(
            bucket_view(find_bucket(bs, f)),
            span,
        ),
    decreases bs.len(),
{
    assert forall|a: int, b: int| 0 <= a < out.len() && 0 <= b < out.len() && a != b implies out[a].0 != out[b].0 by {
        assert(out[a].0 == bs[a].0 && out[b].0 == bs[b].0);
    }
    assert forall|j: int| 0 <= j < out.len() implies #[trigger] bucket_wf(out[j].1@) by {
        assert(bucket_wf(bs[j].1@));
        lemma_span_entries(bs[j].1@, span);
        let se = span_entries(bs[j].1@, span);
        assert(entries_seq(out[j].1@) =~= entries_seq(se));
        assert(sorted(out[j].1@));
    }
    assert forall|f: TypeRootFilter| #[trigger] bucket_view(find_bucket(out, f)) == restrict_to_decl(
        bucket_view(find_bucket(bs, f)),
        span,
    ) by {
        lemma_filtered_bucket(bs, out, span, f);
    }
}

proof fn lemma_filtered_bucket(
    bs: Seq<(TypeRootFilter, Vec<TraitEntry>)>,
    out: Seq<(TypeRootFilter, Vec<TraitEntry>)>,
    span: Span,
    f: TypeRootFilter,
)
    requires
        forall|j: int| 0 <= j < bs.len() ==> #[trigger] bucket_wf(bs[j].1@),
        out.len() == bs.len(),
        forall|j: int| 0 <= j < out.len() ==> (#[trigger] out[j]).0 == bs[j].0,
        forall|j: int| 0 <= j < out.len() ==> (#[trigger] out[j]).1@.len() == span_entries(bs[j].1@, span).len(),
        forall|j: int, i: int|
            0 <= j < out.len() && 0 <= i < out[j].1@.len() ==> entry_view(#[trigger] out[j].1@[i]) == entry_view(
                span_entries(bs[j].1@, span)[i],
            ),
    ensures
        bucket_view(find_bucket(out, f)) == restrict_to_decl(bucket_view(find_bucket(bs, f)), span),
    decreases bs.len(),
{
    if bs.len() == 0 {
        assert(entries_seq(Seq::<TraitEntry>::empty()) =~= Seq::empty());
        assert(restrict_to_decl(bucket_view(Seq::<TraitEntry>::empty()), span) =~= Map::empty());
    } else {
        let n = bs.len() - 1;
        if bs[n].0 == f {
            assert(bucket_wf(bs[n].1@));
            lemma_span_entries(bs[n].1@, span);
            assert(entries_seq(out[n].1@) =~= entries_seq(span_entries(bs[n].1@, span)));
        } else {
            assert forall|j: int| 0 <= j < bs.drop_last().len() implies #[trigger] bucket_wf(bs.drop_last()[j].1@) by {
                assert(bs.drop_last()[j] == bs[j]);
            }
            assert forall|j: int, i: int|
                0 <= j < out.drop_last().len() && 0 <= i < out.drop_last()[j].1@.len() implies entry_view(
                    #[trigger] out.drop_last()[j].1@[i],
                ) == entry_view(span_entries(bs.drop_last()[j].1@, span)[i]) by {
                assert(out.drop_last()[j] == out[j]);
                assert(bs.drop_last()[j] == bs[j]);
            }
            lemma_filtered_bucket(bs.drop_last(), out.drop_last(), span, f);
        }
    }
}


/// The items of `items` handed out for query type `q`.
pub open spec fn kept_items(
    decls: Seq<Decl>,
    types: Seq<TypeInfo>,
    q: TypeId,
    items: Seq<(String, ResolvedTraitImplItem)>,
) -> Seq<(String, ResolvedTraitImplItem)>
    decreases items.len(),
{
    if items.len() == 0 {
        Seq::empty()
    } else if dummy_dropped(decls, types, q, items.last().1) {
        kept_items(decls, types, q, items.drop_last())
    } else {
        kept_items(decls, types, q, items.drop_last()).push(items.last())
    }
}

proof fn lemma_kept_items_unique(decls: Seq<Decl>, types: Seq<TypeInfo>, q: TypeId, items: Seq<(String, ResolvedTraitImplItem)>)
    requires
        keys_unique(items_seq(items)),
    ensures
        keys_unique(items_seq(kept_items(decls, types, q, items))),
        forall|n: Seq<char>| has_key(items_seq(kept_items(decls, types, q, items)), n) ==> has_key(items_seq(items), n),
    decreases items.len(),
{
    if items.len() > 0 {
        let d = items.drop_last();
        assert(items_seq(d) =~= items_seq(items).drop_last());
        lemma_kept_items_unique(decls, types, q, d);
        let kd = kept_items(decls, types, q, d);
        let k = items.last().0@;
        assert forall|n: Seq<char>| has_key(items_seq(d), n) implies has_key(items_seq(items), n) by {
            let i = choose|i: int| 0 <= i < items_seq(d).len() && items_seq(d)[i].0 == n;
            assert(items_seq(items)[i].0 == n);
        }
        if !dummy_dropped(decls, types, q, items.last().1) {
            let kk = kept_items(decls, types, q, items);
            assert(items_seq(kk) =~= items_seq(kd).push((k, items.last().1)));
            assert(!has_key(items_seq(d), k)) by {
                if has_key(items_seq(d), k) {
                    let i = choose|i: int| 0 <= i < items_seq(d).len() && items_seq(d)[i].0 == k;
                    assert(items_seq(items)[i].0 == items_seq(items)[items.len() - 1].0);
                }
            }
            assert(keys_unique(items_seq(kk))) by {
                let t = items_seq(kk);
                assert forall|a: int, b: int| 0 <= a < t.len() && 0 <= b < t.len() && a != b implies t[a].0 != t[b].0 by {
                    if a == t.len() - 1 {
                        assert(has_key(items_seq(kd), t[b].0));
                    } else if b == t.len() - 1 {
                        assert(has_key(items_seq(kd), t[a].0));
                    } else {
                        assert(t[a] == items_seq(kd)[a] && t[b] == items_seq(kd)[b]);
                    }
                }
            }
            assert forall|n: Seq<char>| has_key(items_seq(kk), n) implies has_key(items_seq(items), n) by {
                let i = choose|i: int| 0 <= i < items_seq(kk).len() && items_seq(kk)[i].0 == n;
                if i < items_seq(kd).len() {
                    assert(items_seq(kd)[i].0 == n);
                    assert(has_key(items_seq(kd), n));
                } else {
                    assert(items_seq(items)[items.len() - 1].0 == n);
                }
            }
        }
    }
}

fn clone_items_kept(de: &DeclEngine, te: &TypeEngine, q: TypeId, items: &TraitItems) -> (r: TraitItems)
    requires
        te.valid(q),
    ensures
        items_seq(r@) == items_seq(kept_items(de.decls@, te.types@, q, items@)),
{
    let mut r: TraitItems = Vec::new();
    let mut i: usize = 0;
    assert(items_seq(r@) =~= Seq::empty());
    while i < items.len()
        invariant
            te.valid(q),
            i <= items@.len(),
            items_seq(r@) == items_seq(kept_items(de.decls@, te.types@, q, items@.take(i as int))),
        decreases items@.len() - i,
    {
        assert(items@.take(i as int + 1).drop_last() =~= items@.take(i as int));
        if !is_dummy_dropped(de, te, q, items[i].1) {
            let ghost prev = r@;
            r.push((items[i].0.clone(), items[i].1));
            assert(items_seq(r@) =~= items_seq(prev).push((items@[i as int].0@, items@[i as int].1)));
            assert(items_seq(kept_items(de.decls@, te.types@, q, items@.take(i as int + 1))) =~= items_seq(
                kept_items(de.decls@, te.types@, q, items@.take(i as int)),
            ).push((items@[i as int].0@, items@[i as int].1)));
        }
        i += 1;
    }
    assert(items@.take(items@.len() as int) =~= items@);
    r
}

/// Whether an import of `t` takes record `e`: `None` for no, `Some(false)`
/// to take it as it is (a concrete type equal to the record's), `Some(true)`
/// to take it less the default-method stand-ins.
pub open spec fn import_decision(types: Seq<TypeInfo>, t: TypeId, e: TraitEntry, both_ways: bool) -> Option<bool> {
    if is_concrete(types, t) && t == e.key.type_id {
        Some(false)
    } else if e.key.type_id < types.len() && (unifies(types, UnifyKind::ConstraintSubset, t, e.key.type_id) || (
    both_ways && unifies(types, UnifyKind::NonGenericConstraintSubset, e.key.type_id, t))) {
        Some(true)
    } else {
        None
    }
}

pub type Selected = (TypeRootFilter, OrdKey, EntryView);

pub open spec fn import_entries(
    decls: Seq<Decl>,
    types: Seq<TypeInfo>,
    t: TypeId,
    both_ways: bool,
    es: Seq<TraitEntry>,
) -> Seq<Selected>
    decreases es.len(),
{
    if es.len() == 0 {
        Seq::empty()
    } else {
        let rest = import_entries(decls, types, t, both_ways, es.drop_last());
        let e = es.last();
        let v = entry_view(e);
        match import_decision(types, t, e, both_ways) {
            None => rest,
            Some(false) => rest.push((root_filter(types, e.key.type_id), v.key, v)),
            Some(true) => rest.push(
                (
                    root_filter(types, e.key.type_id),
                    v.key,
                    EntryView { items: items_view(kept_items(decls, types, t, e.value.trait_items@)), ..v },
                ),
            ),
        }
    }
}

/// The records an import of each type of `ts` takes from `m`, in order.
pub open spec fn import_selection(
    decls: Seq<Decl>,
    types: Seq<TypeInfo>,
    m: TraitMap,
    ts: Seq<TypeId>,
    both_ways: bool,
) -> Seq<Selected>
    decreases ts.len(),
{
    if ts.len() == 0 {
        Seq::empty()
    } else {
        let t = ts.last();
        import_selection(decls, types, m, ts.drop_last(), both_ways) + import_entries(
            decls,
            types,
            t,
            both_ways,
            impls_for(m, root_filter(types, t), true),
        )
    }
}

/// Bucket `f` of the map built by filing each selected record in turn.
pub open spec fn fold_selected(sel: Seq<Selected>, f: TypeRootFilter) -> Map<OrdKey, EntryView>
    decreases sel.len(),
{
    if sel.len() == 0 {
        Map::empty()
    } else {
        let prev = fold_selected(sel.drop_last(), f);
        let (g, k, v) = sel.last();
        if g == f {
            merge_one(prev, k, v)
        } else {
            prev
        }
    }
}

impl TraitMap {
    /// The records a query of bucket `f` scans, generic implementations included.
    pub(crate) fn impls_refs<'a>(&'a self, f: TypeRootFilter) -> (r: Vec<&'a TraitEntry>)
        requires
            self.wf(),
        ensures
            derefs(r@) == impls_for(*self, f, true),
            forall|i: int| 0 <= i < r@.len() ==> #[trigger] entry_wf(*r@[i]),
    {
        let mut out: Vec<&'a TraitEntry> = Vec::new();
        let mut fs: Vec<TypeRootFilter> = vec![f];
        if f != TypeRootFilter::Placeholder {
            fs.push(TypeRootFilter::Placeholder);
        }
        let ghost parts = if f != TypeRootFilter::Placeholder { seq![f, TypeRootFilter::Placeholder] } else { seq![f] };
        assert(fs@ == parts);
        let mut p: usize = 0;
        assert(derefs(out@) =~= Seq::empty());
        while p < fs.len()
            invariant
                self.wf(),
                fs@ == parts,
                parts[0] == f,
                parts.len() == 2 ==> parts[1] == TypeRootFilter::Placeholder,
                parts.len() == 1 || parts.len() == 2,
                parts.len() == 1 <==> f == TypeRootFilter::Placeholder,
                p <= fs@.len(),
                derefs(out@) == (if p == 0 { Seq::empty() } else if p == 1 { find_bucket(self.trait_impls@, f) } else { impls_for(*self, f, true) }),
                forall|i: int| 0 <= i < out@.len() ==> #[trigger] entry_wf(*out@[i]),
            decreases fs@.len() - p,
        {
            let ghost before = derefs(out@);
            match self.find_bucket_index(fs[p]) {
                None => {},
                Some(j) => {
                    let es = &self.trait_impls[j].1;
                    assert(bucket_wf(es@));
                    let mut i: usize = 0;
                    while i < es.len()
                        invariant
                            i <= es@.len(),
                            bucket_wf(es@),
                            derefs(out@) == before + es@.take(i as int),
                            forall|k: int| 0 <= k < out@.len() ==> #[trigger] entry_wf(*out@[k]),
                        decreases es@.len() - i,
                    {
                        let ghost prev = out@;
                        let e = &es[i];
                        assert(entry_wf(es@[i as int]));
                        out.push(e);
                        assert(derefs(out@) =~= derefs(prev).push(*e));
                        i += 1;
                        assert(derefs(out@) =~= before + es@.take(i as int));
                    }
                    assert(es@.take(es@.len() as int) =~= es@);
                },
            }
            proof {
                if p == 0 {
                    assert(derefs(out@) =~= find_bucket(self.trait_impls@, f));
                } else {
                    assert(derefs(out@) =~= impls_for(*self, f, true));
                }
            }
            p += 1;
        }
        proof {
            if f == TypeRootFilter::Placeholder {
                assert(impls_for(*self, f, true) =~= find_bucket(self.trait_impls@, f));
            }
        }
        out
    }

    /// The records an import of each type of `ts` takes, filed into a map of
    /// their own under their own types.
    #[verifier::rlimit(50)]
    fn filter_by_type_inner(&self, te: &TypeEngine, de: &DeclEngine, ts: &Vec<TypeId>, both_ways: bool) -> (r: TraitMap)
        requires
            self.wf(),
            te.wf(),
            forall|i: int| 0 <= i < ts@.len() ==> #[trigger] ts@[i] < te.types@.len(),
        ensures
            r.wf(),
            r.satisfied_cache@.len() == 0,
            forall|f: TypeRootFilter| #[trigger] r.bucket(f) == fold_selected(
                import_selection(de.decls@, te.types@, *self, ts@, both_ways),
                f,
            ),
    {
        let mut r = TraitMap::new();
        let ghost types = te.types@;
        let ghost decls = de.decls@;
        let mut x: usize = 0;
        proof {
            assert forall|f: TypeRootFilter| #[trigger] r.bucket(f) == fold_selected(
                import_selection(decls, types, *self, ts@.take(0), both_ways),
                f,
            ) by {
                assert(ts@.take(0) =~= Seq::<TypeId>::empty());
            }
        }
        while x < ts.len()
            invariant
                self.wf(),
                te.wf(),
                types == te.types@,
                decls == de.decls@,
                forall|i: int| 0 <= i < ts@.len() ==> #[trigger] ts@[i] < types.len(),
                x <= ts@.len(),
                r.wf(),
                r.satisfied_cache@.len() == 0,
                forall|f: TypeRootFilter| #[trigger] r.bucket(f) == fold_selected(
                    import_selection(decls, types, *self, ts@.take(x as int), both_ways),
                    f,
                ),
            decreases ts@.len() - x,
        {
            let t = ts[x];
            assert(ts@[x as int] < types.len());
            let ft = te.get_type_root_filter(t);
            let impls = self.impls_refs(ft);
            let ghost es = derefs(impls@);
            let ghost base = import_selection(decls, types, *self, ts@.take(x as int), both_ways);
            proof {
                assert(ts@.take(x as int + 1).drop_last() =~= ts@.take(x as int));
                assert(import_entries(decls, types, t, both_ways, es.take(0)) =~= Seq::<Selected>::empty());
                assert(base + Seq::<Selected>::empty() =~= base);
            }
            let mut i: usize = 0;
            let concrete = te.is_concrete(t);
            while i < impls.len()
                invariant
                    te.wf(),
                    te.valid(t),
                    types == te.types@,
                    decls == de.decls@,
                    concrete == is_concrete(types, t),
                    es == derefs(impls@),
                    forall|k: int| 0 <= k < impls@.len() ==> #[trigger] entry_wf(*impls@[k]),
                    i <= impls@.len(),
                    r.wf(),
                    r.satisfied_cache@.len() == 0,
                    forall|f: TypeRootFilter| #[trigger] r.bucket(f) == fold_selected(
                        base + import_entries(decls, types, t, both_ways, es.take(i as int)),
                        f,
                    ),
                decreases impls@.len() - i,
            {
                let e = impls[i];
                let ghost sel0 = base + import_entries(decls, types, t, both_ways, es.take(i as int));
                proof {
                    assert(es.take(i as int + 1).drop_last() =~= es.take(i as int));
                    assert(es.take(i as int + 1).last() == *e);
                    assert(entry_wf(*impls@[i as int]));
                }
                let exact = concrete && t == e.key.type_id;
                let decided = !exact && e.key.type_id < te.types.len() && (te.unify_check(UnifyKind::ConstraintSubset, t, e.key.type_id) || (both_ways
                    && te.unify_check(UnifyKind::NonGenericConstraintSubset, e.key.type_id, t)));
                if exact || decided {
                    let mut copy = clone_entry(e);
                    if decided {
                        proof {
                            lemma_kept_items_unique(decls, types, t, e.value.trait_items@);
                        }
                        copy.value.trait_items = clone_items_kept(de, te, t, &e.value.trait_items);
                    }
                    let fe = te.get_type_root_filter(e.key.type_id);
                    let ghost v = entry_view(copy);
                    let ghost sel1 = sel0.push((fe, v.key, v));
                    proof {
                        assert(base + import_entries(decls, types, t, both_ways, es.take(i as int + 1)) =~= sel1);
                    }
                    let j = r.get_impls_mut(fe);
                    r.merge_entry_at(j, copy);
                    proof {
                        assert(sel1.drop_last() =~= sel0);
                        assert forall|f: TypeRootFilter| #[trigger] r.bucket(f) == fold_selected(sel1, f) by {}
                    }
                } else {
                    proof {
                        assert(base + import_entries(decls, types, t, both_ways, es.take(i as int + 1)) =~= sel0);
                    }
                }
                i += 1;
            }
            proof {
                assert(es.take(es.len() as int) =~= es);
            }
            x += 1;
        }
        proof {
            assert(ts@.take(ts@.len() as int) =~= ts@);
        }
        r
    }

    /// The records that importing `type_id` brings along: those for types
    /// that `type_id` unifies into or that unify into it without binding
    /// generics (an exact concrete match kept whole), then, for each type
    /// nested in `type_id`, those it unifies into.
    pub fn filter_by_type_item_import(&self, te: &TypeEngine, de: &DeclEngine, type_id: TypeId) -> (r: TraitMap)
        requires
            self.wf(),
            te.wf(),
            te.valid(type_id),
        ensures
            r.wf(),
            forall|f: TypeRootFilter| #[trigger] r.bucket(f) == merge_buckets(
                fold_selected(import_selection(de.decls@, te.types@, *self, seq![type_id], true), f),
                fold_selected(import_selection(de.decls@, te.types@, *self, inner_types(te.types@, type_id), false), f),
            ),
    {
        let first = vec![type_id];
        assert(first@ =~= seq![type_id]);
        let mut r = self.filter_by_type_inner(te, de, &first, true);
        let inner = te.extract_inner_types(type_id);
        let rest = self.filter_by_type_inner(te, de, &inner, false);
        r.extend(rest);
        r
    }
}

} // verus!
