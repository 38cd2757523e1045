//! Laws relating the operations of the index.
use vstd::prelude::*;
use crate::coherence::{entry_errors, params_admit, traits_overlap, types_overlap, NewImpl};
use crate::decls::Decl;
use crate::errors::ErrorView;
use crate::decls::ResolvedTraitImplItem;
use crate::queries::{candidates, has_trait, put_candidate, symbol_matches, trait_id};
use crate::resolve::{all_met, applies, cached, Module};
use crate::trait_map::{CallPath, TraitKey};
use crate::trait_map::{merge_buckets, OrdKey, TraitConstraint, TraitEntry, TraitMap};
use crate::types::{
    children, children_below, dealias, is_generic, lemma_children_below, ref_layers_agree, types_wf,
    unifies, TypeId, TypeInfo, TypeRootFilter, UnifyKind,
};

verus! {

/// Merging is associative: extending `a` by `b` and then by `c` leaves every
/// bucket with the same records as extending `a` by the merge of `b` and `c`,
/// and no record of any of the three is lost.
pub proof fn extend_is_associative(a: TraitMap, b: TraitMap, c: TraitMap, f: TypeRootFilter)
    ensures
        merge_buckets(merge_buckets(a.bucket(f), b.bucket(f)), c.bucket(f)) == merge_buckets(
            a.bucket(f),
            merge_buckets(b.bucket(f), c.bucket(f)),
        ),
        forall|k: OrdKey|
            a.bucket(f).contains_key(k) || b.bucket(f).contains_key(k) || c.bucket(f).contains_key(k)
                ==> #[trigger] merge_buckets(merge_buckets(a.bucket(f), b.bucket(f)), c.bucket(f)).contains_key(k),
{
    let (x, y, z) = (a.bucket(f), b.bucket(f), c.bucket(f));
    let l = merge_buckets(merge_buckets(x, y), z);
    let r = merge_buckets(x, merge_buckets(y, z));
    assert forall|k: OrdKey| #[trigger] l.contains_key(k) implies l[k] == r[k] by {
        if x.contains_key(k) && y.contains_key(k) && z.contains_key(k) {
            assert(x[k].items.union_prefer_right(y[k].items).union_prefer_right(z[k].items) =~= x[k].items.union_prefer_right(
                y[k].items.union_prefer_right(z[k].items),
            ));
        }
    }
    assert(l =~= r);
}


/// Following aliases on both sides does not change a unification check.
pub proof fn unify_looks_through_aliases(types: Seq<TypeInfo>, kind: UnifyKind, l: TypeId, r: TypeId)
    requires
        types_wf(types),
        l < types.len(),
        r < types.len(),
    ensures
        unifies(types, kind, l, r) == unifies(types, kind, dealias(types, l), dealias(types, r)),
        dealias(types, l) <= l,
        !(types[dealias(types, l) as int] is Alias),
    decreases l + r,
{
    assert(children_below(types[l as int], l as int));
    assert(children_below(types[r as int], r as int));
    if let TypeInfo::Alias { ty } = types[l as int] {
        unify_looks_through_aliases(types, kind, ty, r);
    } else if let TypeInfo::Alias { ty } = types[r as int] {
        unify_looks_through_aliases(types, kind, l, ty);
    }
}

/// Every type unifies into itself, under every kind of check.
pub proof fn unify_is_reflexive(types: Seq<TypeInfo>, kind: UnifyKind, t: TypeId)
    requires
        types_wf(types),
        t < types.len(),
    ensures
        unifies(types, kind, t, t),
    decreases t,
{
    unify_looks_through_aliases(types, kind, t, t);
    let d = dealias(types, t);
    if d < t {
        unify_is_reflexive(types, kind, d);
    } else {
        assert(children_below(types[t as int], t as int));
        lemma_children_below(types[t as int], t as int);
        match types[t as int] {
            TypeInfo::Tuple(v) => {
                assert forall|k: int| 0 <= k < v@.len() implies unifies(types, kind, v@[k], v@[k]) by {
                    assert(children(types[t as int])[k] == v@[k]);
                    unify_is_reflexive(types, kind, v@[k]);
                }
            },
            TypeInfo::Struct { args, .. } => {
                assert forall|k: int| 0 <= k < args@.len() implies unifies(types, kind, args@[k], args@[k]) by {
                    assert(children(types[t as int])[k] == args@[k]);
                    unify_is_reflexive(types, kind, args@[k]);
                }
            },
            TypeInfo::Enum { args, .. } => {
                assert forall|k: int| 0 <= k < args@.len() implies unifies(types, kind, args@[k], args@[k]) by {
                    assert(children(types[t as int])[k] == args@[k]);
                    unify_is_reflexive(types, kind, args@[k]);
                }
            },
            TypeInfo::Array { elem, .. } => {
                unify_is_reflexive(types, kind, elem);
            },
            TypeInfo::Slice(elem) => {
                unify_is_reflexive(types, kind, elem);
            },
            TypeInfo::Ref { referenced, .. } => {
                unify_is_reflexive(types, kind, referenced);
            },
            _ => {},
        }
    }
}

/// Following aliases on both sides does not change the mutability check.
pub proof fn ref_layers_look_through_aliases(types: Seq<TypeInfo>, l: TypeId, r: TypeId)
    requires
        types_wf(types),
        l < types.len(),
        r < types.len(),
    ensures
        ref_layers_agree(types, l, r) == ref_layers_agree(types, dealias(types, l), dealias(types, r)),
    decreases l + r,
{
    assert(children_below(types[l as int], l as int));
    assert(children_below(types[r as int], r as int));
    if let TypeInfo::Alias { ty } = types[l as int] {
        ref_layers_look_through_aliases(types, ty, r);
    } else if let TypeInfo::Alias { ty } = types[r as int] {
        ref_layers_look_through_aliases(types, l, ty);
    }
}

/// Every type agrees with itself in reference mutability.
pub proof fn ref_layers_agree_reflexive(types: Seq<TypeInfo>, t: TypeId)
    requires
        types_wf(types),
        t < types.len(),
    ensures
        ref_layers_agree(types, t, t),
    decreases t,
{
    ref_layers_look_through_aliases(types, t, t);
    unify_looks_through_aliases(types, UnifyKind::ConstraintSubset, t, t);
    let d = dealias(types, t);
    if d < t {
        ref_layers_agree_reflexive(types, d);
    } else {
        assert(children_below(types[t as int], t as int));
        if let TypeInfo::Ref { referenced, .. } = types[t as int] {
            ref_layers_agree_reflexive(types, referenced);
        }
    }
}

/// References of different mutability keep their implementations apart:
/// an impl for one never conflicts with an impl for the other, and a query
/// for one never reaches a record of the other.
pub proof fn reference_mutability_separates(types: Seq<TypeInfo>, a: TypeId, b: TypeId, e: TraitEntry)
    requires
        types_wf(types),
        a < types.len(),
        b < types.len(),
        types[a as int] matches TypeInfo::Ref { to_mutable_value: ma, .. } && types[b as int] matches TypeInfo::Ref {
            to_mutable_value: mb,
            ..
        } && ma != mb,
        e.key.type_id == b,
    ensures
        !types_overlap(types, a, b),
        !applies(types, a, e),
{
}

/// Specializing a generic implementation is legal: for one struct with a
/// concrete argument `x` in one instance and a generic `g` in the other,
/// neither instance overlaps the other (so neither insertion order raises
/// a conflict), and the concrete instance is strictly more specific, so a
/// query for it is answered by the concrete implementation alone.
pub proof fn specialization_is_legal(types: Seq<TypeInfo>, a: TypeId, b: TypeId, x: TypeId, g: TypeId, c: TraitEntry, e: TraitEntry)
    requires
        types_wf(types),
        a < types.len(),
        b < types.len(),
        x < types.len(),
        g < types.len(),
        types[a as int] matches TypeInfo::Struct { decl: d1, args: a1 } && types[b as int] matches TypeInfo::Struct {
            decl: d2,
            args: a2,
        } && d1 == d2 && a1@ == seq![x] && a2@ == seq![g],
        is_generic(types[g as int]),
        !is_generic(types[x as int]),
        !(types[x as int] is Alias),
        !(types[x as int] is ErrorRecovery),
        c.key.type_id == a,
        e.key.type_id == b,
    ensures
        !types_overlap(types, a, b),
        !types_overlap(types, b, a),
        crate::queries::more_specific(types, c, e),
{
    assert(types[a as int]->Struct_args@[0] == x);
    assert(types[b as int]->Struct_args@[0] == g);
    assert(!unifies(types, UnifyKind::NonGenericConstraintSubset, x, g));
    assert(!unifies(types, UnifyKind::NonGenericConstraintSubset, g, x));
    assert(!unifies(types, UnifyKind::NonGenericConstraintSubset, a, b));
    assert(!unifies(types, UnifyKind::NonGenericConstraintSubset, b, a));
    assert(!unifies(types, UnifyKind::ConstraintSubset, g, x));
    assert(unifies(types, UnifyKind::ConstraintSubset, x, g));
}

/// A remembered bound query holds in the current scope chain, so answering
/// it from the cache (without a scan) gives the answer a scan would.
pub proof fn cached_query_holds(m: Module, types: Seq<TypeInfo>, q: TypeId, cs: Seq<TraitConstraint>)
    requires
        m.wf(),
        m.cache_sound(types),
        cached(m.current(), q, cs),
    ensures
        all_met(types, m.hits(types, q, true), cs),
{
    crate::resolve::lemma_cached_all_met(&m, types, q, cs);
}

/// Two non-generic impls of one trait (same name and arguments) for one
/// concrete type conflict: the second raises exactly one conflict against a
/// record of the first whose generic slots carry no bounds.
pub proof fn identical_impls_conflict(types: Seq<TypeInfo>, scopes: Seq<TraitMap>, decls: Seq<Decl>, n: NewImpl, e: TraitEntry)
    requires
        types_wf(types),
        n.type_id < types.len(),
        e.key.type_id == n.type_id,
        e.key.name.name@ == n.name,
        e.key.name.args@ == n.args,
        forall|k: int| 0 <= k < n.args.len() ==> n.args[k] < types.len(),
        forall|k: int| 0 <= k < e.key.type_id_type_parameters@.len() ==> (#[trigger] e.key.type_id_type_parameters@[k]).trait_constraints@.len() == 0,
        !n.impl_self,
        !n.extending,
    ensures
        entry_errors(types, scopes, decls, n, e) == seq![
            ErrorView::ConflictingImplsForTraitAndType {
                trait_name: n.name,
                type_implementing_for: n.type_id,
                existing_impl_span: e.value.impl_span,
                second_impl_span: n.impl_span,
            },
        ],
{
    unify_is_reflexive(types, UnifyKind::NonGenericConstraintSubset, n.type_id);
    ref_layers_agree_reflexive(types, n.type_id);
    assert forall|k: int| 0 <= k < n.args.len() implies unifies(types, UnifyKind::NonGenericConstraintSubset, n.args[k], e.key.name.args@[k]) by {
        unify_is_reflexive(types, UnifyKind::NonGenericConstraintSubset, n.args[k]);
    }
    assert(traits_overlap(types, n.name, n.args, e));
    assert(params_admit(types, scopes, n.own, e)) by {
        assert forall|k: int|
            0 <= k < n.own.len() && k < e.key.type_id_type_parameters@.len() && n.own[k] < types.len()
                && #[trigger] crate::types::is_concrete(types, n.own[k]) implies all_met(
            types,
            crate::resolve::chain_hits(types, scopes, dealias(types, n.own[k]), true, scopes.len() as int),
            e.key.type_id_type_parameters@[k].trait_constraints@,
        ) by {
            assert(e.key.type_id_type_parameters@[k].trait_constraints@.len() == 0);
        }
    }
}


proof fn lemma_no_candidates(
    decls: Seq<Decl>,
    symbol: Seq<char>,
    as_trait: Option<CallPath>,
    pairs: Seq<(ResolvedTraitImplItem, TraitKey)>,
)
    requires
        forall|j: int| 0 <= j < pairs.len() ==> !#[trigger] symbol_matches(decls, symbol, as_trait, pairs[j]),
    ensures
        candidates(decls, symbol, as_trait, pairs) == Seq::<(ResolvedTraitImplItem, TraitKey)>::empty(),
    decreases pairs.len(),
{
    if pairs.len() > 0 {
        assert(!symbol_matches(decls, symbol, as_trait, pairs[pairs.len() - 1]));
        assert forall|j: int| 0 <= j < pairs.drop_last().len() implies !#[trigger] symbol_matches(
            decls,
            symbol,
            as_trait,
            pairs.drop_last()[j],
        ) by {
            assert(pairs.drop_last()[j] == pairs[j]);
        }
        lemma_no_candidates(decls, symbol, as_trait, pairs.drop_last());
    }
}

/// A symbol provided by exactly one visible item resolves to that item:
/// it is the only candidate.
pub proof fn single_provider_is_the_candidate(
    decls: Seq<Decl>,
    symbol: Seq<char>,
    as_trait: Option<CallPath>,
    pairs: Seq<(ResolvedTraitImplItem, TraitKey)>,
    i: int,
)
    requires
        0 <= i < pairs.len(),
        symbol_matches(decls, symbol, as_trait, pairs[i]),
        forall|j: int| 0 <= j < pairs.len() && j != i ==> !#[trigger] symbol_matches(decls, symbol, as_trait, pairs[j]),
    ensures
        candidates(decls, symbol, as_trait, pairs) == seq![pairs[i]],
    decreases pairs.len(),
{
    let d = pairs.drop_last();
    if i == pairs.len() - 1 {
        assert forall|j: int| 0 <= j < d.len() implies !#[trigger] symbol_matches(decls, symbol, as_trait, d[j]) by {
            assert(d[j] == pairs[j]);
        }
        lemma_no_candidates(decls, symbol, as_trait, d);
        assert(!has_trait(Seq::<(ResolvedTraitImplItem, TraitKey)>::empty(), pairs[i].1));
        assert(put_candidate(Seq::empty(), pairs[i]) =~= seq![pairs[i]]);
    } else {
        assert(d[i] == pairs[i]);
        assert forall|j: int| 0 <= j < d.len() && j != i implies !#[trigger] symbol_matches(decls, symbol, as_trait, d[j]) by {
            assert(d[j] == pairs[j]);
        }
        single_provider_is_the_candidate(decls, symbol, as_trait, d, i);
        assert(!symbol_matches(decls, symbol, as_trait, pairs[pairs.len() - 1]));
    }
}

/// A symbol provided by two visible items of different traits (and no
/// other) has both as candidates, in order: the lookup is ambiguous.
pub proof fn two_providers_are_ambiguous(
    decls: Seq<Decl>,
    symbol: Seq<char>,
    as_trait: Option<CallPath>,
    pairs: Seq<(ResolvedTraitImplItem, TraitKey)>,
    i: int,
    k: int,
)
    requires
        0 <= i < k < pairs.len(),
        symbol_matches(decls, symbol, as_trait, pairs[i]),
        symbol_matches(decls, symbol, as_trait, pairs[k]),
        trait_id(pairs[i].1) != trait_id(pairs[k].1),
        forall|j: int| 0 <= j < pairs.len() && j != i && j != k ==> !#[trigger] symbol_matches(decls, symbol, as_trait, pairs[j]),
    ensures
        candidates(decls, symbol, as_trait, pairs) == seq![pairs[i], pairs[k]],
    decreases pairs.len(),
{
    let d = pairs.drop_last();
    if k == pairs.len() - 1 {
        assert(d[i] == pairs[i]);
        assert forall|j: int| 0 <= j < d.len() && j != i implies !#[trigger] symbol_matches(decls, symbol, as_trait, d[j]) by {
            assert(d[j] == pairs[j]);
        }
        single_provider_is_the_candidate(decls, symbol, as_trait, d, i);
        let one = seq![pairs[i]];
        assert(!has_trait(one, pairs[k].1)) by {
            if has_trait(one, pairs[k].1) {
                let x = choose|x: int| 0 <= x < one.len() && #[trigger] trait_id(one[x].1) == trait_id(pairs[k].1);
                assert(one[x] == pairs[i]);
            }
        }
        assert(put_candidate(one, pairs[k]) =~= seq![pairs[i], pairs[k]]);
    } else {
        assert(d[i] == pairs[i] && d[k] == pairs[k]);
        assert forall|j: int| 0 <= j < d.len() && j != i && j != k implies !#[trigger] symbol_matches(decls, symbol, as_trait, d[j]) by {
            assert(d[j] == pairs[j]);
        }
        two_providers_are_ambiguous(decls, symbol, as_trait, d, i, k);
        assert(!symbol_matches(decls, symbol, as_trait, pairs[pairs.len() - 1]));
    }
}

} // verus!
