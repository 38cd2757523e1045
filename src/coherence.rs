//! Insertion of impl blocks with coherence checking.
use vstd::prelude::*;
use crate::assoc::{has_key, keys_unique, lemma_assoc_dom};
use crate::decls::{is_typed_fn, item_decl, Decl, DeclEngine, Engines, ResolvedTraitImplItem, Span, TyTraitItem};
use crate::errors::{CompileError, DeclKindName, ErrorEmitted, ErrorView, Handler};
use crate::resolve::{
    all_met, chain_hits, collect_hits, constraint_met, constraint_met_exec, derefs,
    Module,
};
use crate::trait_map::{constraints_view, find_bucket, param_bounds};
use crate::trait_map::{
    entry_wf, items_seq, items_view, merge_one, param_ids, strs_view, CallPath,
    EntryView, OrdKey, TraitConstraint, TraitEntry, TraitItems, TraitKey, TraitMap, TraitName,
    TraitValue, TypeParameter,
};
use crate::types::{
    dealias, is_concrete, ref_layers_agree, root_filter, unifies, TypeEngine, TypeId, TypeInfo,
    TypeRootFilter, UnifyKind,
};

use crate::types::copy_ids;

verus! {

/// Whether the block is an inherent `impl Type { .. }` block.
#[derive(Clone, Copy, Debug, PartialEq, Eq, Structural)]
pub enum IsImplSelf {
    Yes,
    No,
}

/// Whether the block extends an implementation that is being imported.
#[derive(Clone, Copy, Debug, PartialEq, Eq, Structural)]
pub enum IsExtendingExistingImpl {
    Yes,
    No,
}

pub open spec fn item_name(decls: Seq<Decl>, it: ResolvedTraitImplItem) -> Seq<char> {
    decls[item_decl(it) as int].name@
}

/// `s` with the value under `n` set to `v` (appended if `n` is new).
pub open spec fn put_item(
    s: Seq<(Seq<char>, ResolvedTraitImplItem)>,
    n: Seq<char>,
    v: ResolvedTraitImplItem,
) -> Seq<(Seq<char>, ResolvedTraitImplItem)> {
    if has_key(s, n) {
        s.update(choose|i: int| 0 <= i < s.len() && s[i].0 == n, (n, v))
    } else {
        s.push((n, v))
    }
}

/// The items of an impl block by name; a later item replaces an earlier one
/// of the same name.
pub open spec fn block_items(decls: Seq<Decl>, items: Seq<ResolvedTraitImplItem>) -> Seq<(Seq<char>, ResolvedTraitImplItem)>
    decreases items.len(),
{
    if items.len() == 0 {
        Seq::empty()
    } else {
        put_item(block_items(decls, items.drop_last()), item_name(decls, items.last()), items.last())
    }
}

/// One diagnostic per method whose name an earlier item of the block used.
pub open spec fn dup_name_errors(decls: Seq<Decl>, items: Seq<ResolvedTraitImplItem>) -> Seq<ErrorView>
    decreases items.len(),
{
    if items.len() == 0 {
        Seq::empty()
    } else {
        let rest = dup_name_errors(decls, items.drop_last());
        let it = items.last();
        if is_typed_fn(it) && has_key(block_items(decls, items.drop_last()), item_name(decls, it)) {
            rest.push(
                ErrorView::MultipleDefinitionsOfName {
                    name: item_name(decls, it),
                    span: decls[item_decl(it) as int].span,
                },
            )
        } else {
            rest
        }
    }
}

/// The generic slots of a type: the arguments of a struct or enum instance.
pub open spec fn own_args(types: Seq<TypeInfo>, q: TypeId) -> Seq<TypeId> {
    match types[q as int] {
        TypeInfo::Struct { args, .. } => args@,
        TypeInfo::Enum { args, .. } => args@,
        _ => Seq::empty(),
    }
}

/// The last impl parameter declared on slot `t`.
pub open spec fn last_param_on(ps: Seq<TypeParameter>, t: TypeId) -> Option<int>
    decreases ps.len(),
{
    if ps.len() == 0 {
        None
    } else if ps.last().type_id == t {
        Some(ps.len() - 1)
    } else {
        last_param_on(ps.drop_last(), t)
    }
}

/// The bounds the impl block puts on slot `t` (those of its last parameter
/// on it, or none).
pub open spec fn bounds_on(ps: Seq<TypeParameter>, t: TypeId) -> Seq<(Seq<char>, Seq<TypeId>)> {
    match last_param_on(ps, t) {
        Some(i) => constraints_view(ps[i].trait_constraints@),
        None => Seq::empty(),
    }
}

/// The bounds on each generic slot of `q`.
pub open spec fn own_bounds(types: Seq<TypeInfo>, q: TypeId, ps: Seq<TypeParameter>) -> Seq<Seq<(Seq<char>, Seq<TypeId>)>> {
    own_args(types, q).map_values(|a: TypeId| bounds_on(ps, a))
}

/// The new type overlaps the existing one (`q` unifies into `t` without
/// binding generics), with reference mutability agreeing at every layer.
pub open spec fn types_overlap(types: Seq<TypeInfo>, q: TypeId, t: TypeId) -> bool {
    &&& t < types.len()
    &&& unifies(types, UnifyKind::NonGenericConstraintSubset, q, t)
    &&& ref_layers_agree(types, q, t)
}

/// The new trait is the existing one, its arguments unifying into the
/// existing ones.
pub open spec fn traits_overlap(types: Seq<TypeInfo>, name: Seq<char>, args: Seq<TypeId>, e: TraitEntry) -> bool {
    &&& e.key.name.name@ == name
    &&& e.key.name.args@.len() == args.len()
    &&& forall|k: int|
        0 <= k < args.len() ==> args[k] < types.len() && e.key.name.args@[k] < types.len()
            && unifies(types, UnifyKind::NonGenericConstraintSubset, args[k], e.key.name.args@[k])
}

/// Each concrete generic slot of the new type meets the bounds of the
/// matching slot of the existing record.
pub open spec fn params_admit(types: Seq<TypeInfo>, scopes: Seq<TraitMap>, own: Seq<TypeId>, e: TraitEntry) -> bool {
    forall|k: int|
        0 <= k < own.len() && k < e.key.type_id_type_parameters@.len() && own[k] < types.len()
            && #[trigger] is_concrete(types, own[k]) ==> all_met(
            types,
            chain_hits(types, scopes, dealias(types, own[k]), true, scopes.len() as int),
            e.key.type_id_type_parameters@[k].trait_constraints@,
        )
}

pub open spec fn decl_kind_of(it: ResolvedTraitImplItem) -> DeclKindName {
    match it {
        ResolvedTraitImplItem::Typed(TyTraitItem::Constant(_)) => DeclKindName::Constant,
        ResolvedTraitImplItem::Typed(TyTraitItem::Type(_)) => DeclKindName::Type,
        _ => DeclKindName::Method,
    }
}

/// One diagnostic per item of the block that the existing record also defines.
pub open spec fn dup_decl_errors(
    decls: Seq<Decl>,
    q: TypeId,
    block: Seq<(Seq<char>, ResolvedTraitImplItem)>,
    e: TraitEntry,
) -> Seq<ErrorView>
    decreases block.len(),
{
    if block.len() == 0 {
        Seq::empty()
    } else {
        let rest = dup_decl_errors(decls, q, block.drop_last(), e);
        let (n, it) = block.last();
        if items_view(e.value.trait_items@).contains_key(n) {
            rest.push(
                ErrorView::DuplicateDeclDefinedForType {
                    decl_kind: decl_kind_of(it),
                    decl_name: n,
                    type_implementing_for: q,
                    span: decls[item_decl(it) as int].span,
                },
            )
        } else {
            rest
        }
    }
}

/// What one impl block asks to insert, as values.
pub struct NewImpl {
    pub name: Seq<char>,
    pub args: Seq<TypeId>,
    pub type_id: TypeId,
    pub own: Seq<TypeId>,
    pub block: Seq<(Seq<char>, ResolvedTraitImplItem)>,
    pub impl_span: Span,
    pub impl_self: bool,
    pub extending: bool,
}

/// The diagnostics the new block raises against one existing record.
pub open spec fn entry_errors(
    types: Seq<TypeInfo>,
    scopes: Seq<TraitMap>,
    decls: Seq<Decl>,
    n: NewImpl,
    e: TraitEntry,
) -> Seq<ErrorView> {
    let types_sub = types_overlap(types, n.type_id, e.key.type_id);
    let traits_sub = traits_overlap(types, n.name, n.args, e);
    if !params_admit(types, scopes, n.own, e) {
        Seq::empty()
    } else if !n.extending && types_sub && traits_sub && !n.impl_self {
        seq![
            ErrorView::ConflictingImplsForTraitAndType {
                trait_name: n.name,
                type_implementing_for: n.type_id,
                existing_impl_span: e.value.impl_span,
                second_impl_span: n.impl_span,
            },
        ]
    } else if types_sub && (traits_sub || n.impl_self) {
        dup_decl_errors(decls, n.type_id, n.block, e)
    } else {
        Seq::empty()
    }
}

/// The diagnostics against each record of `es`, in order.
pub open spec fn coherence_errors(
    types: Seq<TypeInfo>,
    scopes: Seq<TraitMap>,
    decls: Seq<Decl>,
    n: NewImpl,
    es: Seq<TraitEntry>,
) -> Seq<ErrorView>
    decreases es.len(),
{
    if es.len() == 0 {
        Seq::empty()
    } else {
        coherence_errors(types, scopes, decls, n, es.drop_last()) + entry_errors(
            types,
            scopes,
            decls,
            n,
            es.last(),
        )
    }
}


proof fn lemma_put_item_at(
    s: Seq<(Seq<char>, ResolvedTraitImplItem)>,
    j: int,
    v: ResolvedTraitImplItem,
)
    requires
        keys_unique(s),
        0 <= j < s.len(),
    ensures
        put_item(s, s[j].0, v) == s.update(j, (s[j].0, v)),
{
    let n = s[j].0;
    assert(has_key(s, n));
    let i = choose|i: int| 0 <= i < s.len() && s[i].0 == n;
    assert(i == j);
}

/// The items of the block by name, reporting each method whose name an
/// earlier item of the block already used.
fn block_items_exec(de: &DeclEngine, items: &Vec<ResolvedTraitImplItem>, handler: &mut Handler) -> (r: TraitItems)
    requires
        forall|i: int| 0 <= i < items@.len() ==> de.valid(item_decl(#[trigger] items@[i])),
    ensures
        items_seq(r@) == block_items(de.decls@, items@),
        keys_unique(items_seq(r@)),
        final(handler).view() == old(handler).view() + dup_name_errors(de.decls@, items@),
{
    let mut r: TraitItems = Vec::new();
    let mut i: usize = 0;
    assert(items_seq(r@) =~= Seq::empty());
    assert(old(handler).view() + Seq::<ErrorView>::empty() =~= old(handler).view());
    while i < items.len()
        invariant
            i <= items@.len(),
            forall|k: int| 0 <= k < items@.len() ==> de.valid(item_decl(#[trigger] items@[k])),
            items_seq(r@) == block_items(de.decls@, items@.take(i as int)),
            keys_unique(items_seq(r@)),
            handler.view() == old(handler).view() + dup_name_errors(de.decls@, items@.take(i as int)),
        decreases items@.len() - i,
    {
        let it = items[i];
        let d = de.get(it.decl_id());
        let name = d.name.clone();
        let ghost before = items_seq(r@);
        let ghost pre = items@.take(i as int);
        proof {
            assert(items@.take(i as int + 1).drop_last() =~= pre);
            assert(items@.take(i as int + 1).last() == it);
            assert(item_name(de.decls@, it) == name@);
        }
        let mut j: usize = 0;
        while j < r.len() && r[j].0 != name
            invariant
                j <= r@.len(),
                forall|k: int| 0 <= k < j ==> r@[k].0@ != name@,
            decreases r@.len() - j,
        {
            j += 1;
        }
        let is_fn = matches!(it, ResolvedTraitImplItem::Typed(TyTraitItem::Fn(_)));
        if j < r.len() {
            proof {
                assert(before[j as int].0 == name@);
                lemma_put_item_at(before, j as int, it);
                crate::assoc::lemma_assoc_update(before, j as int, it);
            }
            if is_fn {
                handler.emit_err(CompileError::MultipleDefinitionsOfName { name: name.clone(), span: d.span });
            }
            r.set(j, (name, it));
            proof {
                assert(items_seq(r@) =~= before.update(j as int, (before[j as int].0, it)));
            }
        } else {
            proof {
                assert(!has_key(before, name@)) by {
                    if has_key(before, name@) {
                        let k = choose|k: int| 0 <= k < before.len() && before[k].0 == name@;
                        assert(r@[k].0@ == name@);
                    }
                }
                crate::assoc::lemma_assoc_push(before, (name@, it));
            }
            r.push((name, it));
            proof {
                assert(items_seq(r@) =~= before.push((name@, it)));
            }
        }
        proof {
            assert(handler.view() =~= old(handler).view() + dup_name_errors(de.decls@, items@.take(i as int + 1)));
        }
        i += 1;
    }
    proof {
        crate::seqs::lemma_take_all(items@);
    }
    r
}

/// The generic slots of `q`, each carrying the bounds that the impl block's
/// last parameter on that slot declares.
fn own_type_parameters(te: &TypeEngine, q: TypeId, impl_params: &Vec<TypeParameter>) -> (r: Vec<TypeParameter>)
    requires
        te.valid(q),
    ensures
        param_ids(r@) == own_args(te.types@, q),
        param_bounds(r@) == own_bounds(te.types@, q, impl_params@),
{
    let args = match te.get(q) {
        TypeInfo::Struct { args, .. } => copy_ids(args),
        TypeInfo::Enum { args, .. } => copy_ids(args),
        _ => Vec::new(),
    };
    let mut r: Vec<TypeParameter> = Vec::new();
    let mut i: usize = 0;
    while i < args.len()
        invariant
            i <= args@.len(),
            param_ids(r@) == args@.take(i as int),
            param_bounds(r@) == args@.take(i as int).map_values(|a: TypeId| bounds_on(impl_params@, a)),
        decreases args@.len() - i,
    {
        let mut found: Option<usize> = None;
        let mut k: usize = 0;
        while k < impl_params.len()
            invariant
                k <= impl_params@.len(),
                i < args@.len(),
                found matches Some(f) ==> f < impl_params@.len(),
                match found {
                    Some(f) => last_param_on(impl_params@.take(k as int), args@[i as int]) == Some(f as int),
                    None => last_param_on(impl_params@.take(k as int), args@[i as int]) is None,
                },
            decreases impl_params@.len() - k,
        {
            assert(impl_params@.take(k as int + 1).drop_last() =~= impl_params@.take(k as int));
            if impl_params[k].type_id == args[i] {
                found = Some(k);
            }
            k += 1;
        }
        assert(impl_params@.take(impl_params@.len() as int) =~= impl_params@);
        let trait_constraints = match found {
            Some(f) => crate::resolve::clone_constraints(&impl_params[f].trait_constraints),
            None => Vec::new(),
        };
        assert(constraints_view(trait_constraints@) == bounds_on(impl_params@, args@[i as int]));
        let ghost prev = r@;
        r.push(TypeParameter { type_id: args[i], trait_constraints });
        assert(param_ids(r@) =~= param_ids(prev).push(args@[i as int]));
        assert(param_bounds(r@) =~= param_bounds(prev).push(bounds_on(impl_params@, args@[i as int])));
        i += 1;
        assert(param_ids(r@) =~= args@.take(i as int));
        assert(param_bounds(r@) =~= args@.take(i as int).map_values(|a: TypeId| bounds_on(impl_params@, a)));
    }
    assert(args@.take(args@.len() as int) =~= args@);
    assert(param_bounds(r@) =~= own_bounds(te.types@, q, impl_params@)) by {
        assert(args@ == own_args(te.types@, q)) by {
            match te.types@[q as int] {
                TypeInfo::Struct { .. } => {},
                TypeInfo::Enum { .. } => {},
                _ => {
                    assert(args@ =~= Seq::<TypeId>::empty());
                },
            }
        }
    }
    match te.get(q) {
        TypeInfo::Struct { .. } => {},
        TypeInfo::Enum { .. } => {},
        _ => {
            assert(args@ =~= Seq::<TypeId>::empty());
        },
    }
    r
}

fn traits_overlap_exec(te: &TypeEngine, name: &String, args: &Vec<TypeId>, e: &TraitEntry) -> (r: bool)
    requires
        te.wf(),
    ensures
        r == traits_overlap(te.types@, name@, args@, *e),
{
    if e.key.name.name != *name || e.key.name.args.len() != args.len() {
        return false;
    }
    let ea = &e.key.name.args;
    let mut k: usize = 0;
    while k < args.len()
        invariant
            te.wf(),
            ea@ == e.key.name.args@,
            ea@.len() == args@.len(),
            k <= args@.len(),
            forall|j: int|
                0 <= j < k ==> args@[j] < te.types@.len() && ea@[j] < te.types@.len() && unifies(
                    te.types@,
                    UnifyKind::NonGenericConstraintSubset,
                    args@[j],
                    ea@[j],
                ),
        decreases args@.len() - k,
    {
        if args[k] >= te.types.len() || ea[k] >= te.types.len() {
            return false;
        }
        if !te.unify_check(UnifyKind::NonGenericConstraintSubset, args[k], ea[k]) {
            return false;
        }
        k += 1;
    }
    true
}

fn decl_kind_exec(it: ResolvedTraitImplItem) -> (k: DeclKindName)
    ensures
        k == decl_kind_of(it),
{
    match it {
        ResolvedTraitImplItem::Typed(TyTraitItem::Constant(_)) => DeclKindName::Constant,
        ResolvedTraitImplItem::Typed(TyTraitItem::Type(_)) => DeclKindName::Type,
        _ => DeclKindName::Method,
    }
}

/// Reports each item of `block` that `e` also defines.
fn dup_decl_errors_exec(
    handler: &mut Handler,
    de: &DeclEngine,
    q: TypeId,
    block: &TraitItems,
    e: &TraitEntry,
)
    requires
        forall|i: int| 0 <= i < block@.len() ==> de.valid(item_decl(#[trigger] block@[i].1)),
        entry_wf(*e),
    ensures
        final(handler).view() == old(handler).view() + dup_decl_errors(de.decls@, q, items_seq(block@), *e),
{
    let ghost bs = items_seq(block@);
    let ghost es = items_seq(e.value.trait_items@);
    let mut i: usize = 0;
    assert(old(handler).view() + Seq::<ErrorView>::empty() =~= old(handler).view());
    while i < block.len()
        invariant
            bs == items_seq(block@),
            es == items_seq(e.value.trait_items@),
            i <= block@.len(),
            forall|k: int| 0 <= k < block@.len() ==> de.valid(item_decl(#[trigger] block@[k].1)),
            handler.view() == old(handler).view() + dup_decl_errors(de.decls@, q, bs.take(i as int), *e),
        decreases block@.len() - i,
    {
        let name = &block[i].0;
        let it = block[i].1;
        let eitems = &e.value.trait_items;
        let mut j: usize = 0;
        while j < eitems.len() && eitems[j].0 != *name
            invariant
                j <= eitems@.len(),
                forall|k: int| 0 <= k < j ==> eitems@[k].0@ != name@,
            decreases eitems@.len() - j,
        {
            j += 1;
        }
        proof {
            assert(bs.take(i as int + 1).drop_last() =~= bs.take(i as int));
            assert(bs.take(i as int + 1).last() == (name@, it));
            lemma_assoc_dom(es, name@);
            if j < eitems@.len() {
                assert(es[j as int].0 == name@);
            } else if has_key(es, name@) {
                let k = choose|k: int| 0 <= k < es.len() && es[k].0 == name@;
                assert(eitems@[k].0@ == name@);
            }
        }
        if j < eitems.len() {
            let span = de.get(it.decl_id()).span;
            handler.emit_err(
                CompileError::DuplicateDeclDefinedForType {
                    decl_kind: decl_kind_exec(it),
                    decl_name: name.clone(),
                    type_implementing_for: q,
                    span,
                },
            );
        }
        proof {
            assert(handler.view() =~= old(handler).view() + dup_decl_errors(de.decls@, q, bs.take(i as int + 1), *e));
        }
        i += 1;
    }
    proof {
        crate::seqs::lemma_take_all(bs);
    }
}


impl Module {
    /// Whether `t` meets every bound of `cs` in the scope chain (without
    /// consulting or filling the cache).
    fn constraints_hold(&self, te: &TypeEngine, t: TypeId, cs: &Vec<TraitConstraint>) -> (r: bool)
        requires
            self.wf(),
            te.wf(),
            te.valid(t),
        ensures
            r == all_met(te.types@, self.hits(te.types@, dealias(te.types@, t), true), cs@),
    {
        let q = te.get_unaliased_type_id(t);
        let hits = collect_hits(&self.scopes, te, q, true);
        let ghost hs = derefs(hits@);
        let mut i: usize = 0;
        while i < cs.len()
            invariant
                te.wf(),
                hs == derefs(hits@),
                hs == self.hits(te.types@, dealias(te.types@, t), true),
                i <= cs@.len(),
                forall|k: int| 0 <= k < i ==> #[trigger] constraint_met(te.types@, hs, cs@[k]),
            decreases cs@.len() - i,
        {
            if !constraint_met_exec(te, &hits, &cs[i]) {
                assert(!constraint_met(te.types@, hs, cs@[i as int]));
                return false;
            }
            i += 1;
        }
        assert(all_met(te.types@, hs, cs@));
        true
    }

    fn params_admit_exec(&self, te: &TypeEngine, own: &Vec<TypeParameter>, e: &TraitEntry) -> (r: bool)
        requires
            self.wf(),
            te.wf(),
        ensures
            r == params_admit(te.types@, self.scopes@, param_ids(own@), *e),
    {
        let ghost ids = param_ids(own@);
        let eps = &e.key.type_id_type_parameters;
        let mut k: usize = 0;
        while k < own.len() && k < eps.len()
            invariant
                self.wf(),
                te.wf(),
                ids == param_ids(own@),
                eps@ == e.key.type_id_type_parameters@,
                k <= own@.len(),
                forall|j: int|
                    0 <= j < k && j < eps@.len() && ids[j] < te.types@.len() && #[trigger] is_concrete(
                        te.types@,
                        ids[j],
                    ) ==> all_met(
                        te.types@,
                        chain_hits(te.types@, self.scopes@, dealias(te.types@, ids[j]), true, self.scopes@.len() as int),
                        eps@[j].trait_constraints@,
                    ),
            decreases own@.len() - k,
        {
            let t = own[k].type_id;
            if t < te.types.len() && te.is_concrete(t) && !self.constraints_hold(te, t, &eps[k].trait_constraints) {
                assert(ids[k as int] == t);
                assert(is_concrete(te.types@, ids[k as int]));
                return false;
            }
            k += 1;
        }
        true
    }

    /// Reports what the new block raises against the existing record `e`.
    fn entry_errors_exec(
        &self,
        handler: &mut Handler,
        te: &TypeEngine,
        de: &DeclEngine,
        name: &String,
        args: &Vec<TypeId>,
        q: TypeId,
        own: &Vec<TypeParameter>,
        block: &TraitItems,
        impl_span: Span,
        impl_self: bool,
        extending: bool,
        e: &TraitEntry,
    )
        requires
            self.wf(),
            te.wf(),
            te.valid(q),
            forall|i: int| 0 <= i < block@.len() ==> de.valid(item_decl(#[trigger] block@[i].1)),
            entry_wf(*e),
        ensures
            final(handler).view() == old(handler).view() + entry_errors(
                te.types@,
                self.scopes@,
                de.decls@,
                NewImpl {
                    name: name@,
                    args: args@,
                    type_id: q,
                    own: param_ids(own@),
                    block: items_seq(block@),
                    impl_span,
                    impl_self,
                    extending,
                },
                *e,
            ),
    {
        let types_sub = e.key.type_id < te.types.len() && te.unify_check(
            UnifyKind::NonGenericConstraintSubset,
            q,
            e.key.type_id,
        ) && te.ref_layers_agree(q, e.key.type_id);
        let traits_sub = traits_overlap_exec(te, name, args, e);
        if !self.params_admit_exec(te, own, e) {
            assert(old(handler).view() + Seq::<ErrorView>::empty() =~= old(handler).view());
            return;
        }
        if !extending && types_sub && traits_sub && !impl_self {
            let ghost before = handler.view();
            handler.emit_err(
                CompileError::ConflictingImplsForTraitAndType {
                    trait_name: name.clone(),
                    type_implementing_for: q,
                    existing_impl_span: e.value.impl_span,
                    second_impl_span: impl_span,
                },
            );
            assert(handler.view() =~= before + seq![
                ErrorView::ConflictingImplsForTraitAndType {
                    trait_name: name@,
                    type_implementing_for: q,
                    existing_impl_span: e.value.impl_span,
                    second_impl_span: impl_span,
                },
            ]);
        } else if types_sub && (traits_sub || impl_self) {
            dup_decl_errors_exec(handler, de, q, block, e);
        } else {
            assert(old(handler).view() + Seq::<ErrorView>::empty() =~= old(handler).view());
        }
    }

    /// Registers an impl block in the current scope. Every record of the same
    /// bucket is checked for coherence first: an overlapping implementation
    /// of the same trait is reported as a conflict (never for an inherent
    /// block, nor when extending an imported implementation), and items
    /// defined again for an overlapping type are reported as duplicates. The
    /// block is recorded whatever was reported.
    pub fn insert(
        &mut self,
        handler: &mut Handler,
        engines: &Engines,
        trait_name: CallPath,
        trait_type_args: Vec<TypeId>,
        impl_type_parameters: Vec<TypeParameter>,
        type_id: TypeId,
        items: &Vec<ResolvedTraitImplItem>,
        impl_span: Span,
        trait_decl_span: Option<Span>,
        is_impl_self: IsImplSelf,
        is_extending_existing_impl: IsExtendingExistingImpl,
    ) -> (r: Result<(), ErrorEmitted>)
        requires
            old(self).wf(),
            old(self).cache_sound(engines.te.types@),
            engines.te.wf(),
            engines.te.valid(type_id),
            forall|i: int|
                0 <= i < items@.len() ==> (#[trigger] items@[i]) is Typed && engines.de.valid(
                    item_decl(items@[i]),
                ),
        ensures
            final(self).wf(),
            final(self).cache_sound(engines.te.types@),
            final(self).scan_count == old(self).scan_count,
            final(self).scopes@.len() == old(self).scopes@.len(),
            forall|s: int|
                0 <= s < old(self).scopes@.len() - 1 ==> #[trigger] final(self).scopes@[s] == old(
                    self,
                ).scopes@[s],
            final(self).current().satisfied_cache@ == old(self).current().satisfied_cache@,
            ({
                let types = engines.te.types@;
                let decls = engines.de.decls@;
                let q = dealias(types, type_id);
                let f = root_filter(types, q);
                let key: OrdKey = (
                    strs_view(trait_name.prefixes@),
                    trait_name.suffix@,
                    trait_type_args@,
                    q,
                    own_args(types, q),
                );
                let new = NewImpl {
                    name: trait_name.suffix@,
                    args: trait_type_args@,
                    type_id: q,
                    own: own_args(types, q),
                    block: block_items(decls, items@),
                    impl_span,
                    impl_self: is_impl_self == IsImplSelf::Yes,
                    extending: is_extending_existing_impl == IsExtendingExistingImpl::Yes,
                };
                let emitted = dup_name_errors(decls, items@) + coherence_errors(
                    types,
                    old(self).scopes@,
                    decls,
                    new,
                    find_bucket(old(self).current().trait_impls@, f),
                );
                &&& final(self).current().bucket(f) == merge_one(
                    old(self).current().bucket(f),
                    key,
                    EntryView {
                        key,
                        param_bounds: own_bounds(types, q, impl_type_parameters@),
                        trait_decl_span,
                        impl_span,
                        items: crate::assoc::assoc_view(block_items(decls, items@)),
                    },
                )
                &&& forall|g: TypeRootFilter|
                    g != f ==> #[trigger] final(self).current().bucket(g) == old(self).current().bucket(g)
                &&& final(handler).view() == old(handler).view() + emitted
                &&& (r is Ok <==> emitted.len() == 0)
                &&& (is_impl_self == IsImplSelf::Yes ==> forall|i: int|
                    0 <= i < emitted.len() ==> !(#[trigger] emitted[i] is ConflictingImplsForTraitAndType))
            }),
    {
        let te = &engines.te;
        let de = &engines.de;
        let q = te.get_unaliased_type_id(type_id);
        let f = te.get_type_root_filter(q);
        let own = own_type_parameters(te, q, &impl_type_parameters);
        let h0 = handler.len();
        let block = block_items_exec(de, items, handler);
        let ghost after_block = handler.view();
        let impl_self = is_impl_self == IsImplSelf::Yes;
        let extending = is_extending_existing_impl == IsExtendingExistingImpl::Yes;
        let ghost new = NewImpl {
            name: trait_name.suffix@,
            args: trait_type_args@,
            type_id: q,
            own: own_args(te.types@, q),
            block: block_items(de.decls@, items@),
            impl_span,
            impl_self,
            extending,
        };
        let n = self.scopes.len();
        proof {
            assert(forall|i: int| 0 <= i < block@.len() ==> de.valid(item_decl(#[trigger] block@[i].1))) by {
                assert forall|i: int| 0 <= i < block@.len() implies de.valid(item_decl(#[trigger] block@[i].1)) by {
                    lemma_block_items_valid(de.decls@, items@, i);
                    assert(items_seq(block@)[i].1 == block@[i].1);
                }
            }
            assert(self.scopes@[n - 1].wf());
        }
        match self.scopes[n - 1].find_bucket_index(f) {
            None => {
                assert(after_block + Seq::<ErrorView>::empty() =~= after_block);
            },
            Some(j) => {
                let es = &self.scopes[n - 1].trait_impls[j].1;
                let mut i: usize = 0;
                proof {
                    assert(self.scopes@[n - 1].trait_impls@[j as int].1@ == es@);
                    assert(crate::trait_map::bucket_wf(es@));
                    assert(after_block + Seq::<ErrorView>::empty() =~= after_block);
                }
                while i < es.len()
                    invariant
                        self.wf(),
                        te.wf(),
                        te.valid(q),
                        i <= es@.len(),
                        crate::trait_map::bucket_wf(es@),
                        new == (NewImpl {
                            name: trait_name.suffix@,
                            args: trait_type_args@,
                            type_id: q,
                            own: param_ids(own@),
                            block: items_seq(block@),
                            impl_span,
                            impl_self,
                            extending,
                        }),
                        forall|k: int| 0 <= k < block@.len() ==> de.valid(item_decl(#[trigger] block@[k].1)),
                        handler.view() == after_block + coherence_errors(
                            te.types@,
                            self.scopes@,
                            de.decls@,
                            new,
                            es@.take(i as int),
                        ),
                    decreases es@.len() - i,
                {
                    proof {
                        assert(entry_wf(es@[i as int]));
                        assert(es@.take(i as int + 1).drop_last() =~= es@.take(i as int));
                        assert(es@.take(i as int + 1).last() == es@[i as int]);
                    }
                    let ghost before = handler.view();
                    self.entry_errors_exec(
                        handler,
                        te,
                        de,
                        &trait_name.suffix,
                        &trait_type_args,
                        q,
                        &own,
                        &block,
                        impl_span,
                        impl_self,
                        extending,
                        &es[i],
                    );
                    assert(handler.view() =~= after_block + coherence_errors(
                        te.types@,
                        self.scopes@,
                        de.decls@,
                        new,
                        es@.take(i as int + 1),
                    ));
                    i += 1;
                }
                proof {
                    crate::seqs::lemma_take_all(es@);
                }
            },
        }
        proof {
            if impl_self {
                lemma_impl_self_never_conflicts(te.types@, self.scopes@, de.decls@, new, find_bucket(self.current().trait_impls@, f));
                lemma_dup_name_errors_kind(de.decls@, items@);
                let emitted = dup_name_errors(de.decls@, items@) + coherence_errors(te.types@, self.scopes@, de.decls@, new, find_bucket(self.current().trait_impls@, f));
                assert forall|i: int| 0 <= i < emitted.len() implies !(#[trigger] emitted[i] is ConflictingImplsForTraitAndType) by {
                    if i < dup_name_errors(de.decls@, items@).len() {
                        assert(emitted[i] == dup_name_errors(de.decls@, items@)[i]);
                    } else {
                        assert(emitted[i] == coherence_errors(te.types@, self.scopes@, de.decls@, new, find_bucket(self.current().trait_impls@, f))[i - dup_name_errors(de.decls@, items@).len()]);
                    }
                }
            }
        }
        let h1 = handler.len();
        let key = TraitKey {
            name: TraitName { prefixes: trait_name.prefixes, name: trait_name.suffix, args: trait_type_args },
            type_id: q,
            type_id_type_parameters: own,
            trait_decl_span,
        };
        let entry = TraitEntry { key, value: TraitValue { trait_items: block, impl_span } };
        let ghost mid = self.scopes@;
        let mut cur = self.scopes.pop().unwrap();
        let j = cur.get_impls_mut(f);
        cur.merge_entry_at(j, entry);
        self.scopes.push(cur);
        proof {
            assert(self.scopes@ =~= mid.update(n - 1, cur));
            assert forall|s: int| 0 <= s < self.scopes@.len() implies #[trigger] self.scopes@[s].wf() by {
                if s < n - 1 {
                    assert(self.scopes@[s] == mid[s]);
                }
            }
            assert forall|g: TypeRootFilter, k: OrdKey|
                #[trigger] old(self).current().bucket(g).contains_key(k) implies self.current().bucket(g).contains_key(k) by {
                if g != f {
                    assert(self.current().bucket(g) == old(self).current().bucket(g));
                }
            }
            crate::resolve::lemma_cache_sound_grows(te.types@, *old(self), *self);
        }
        if h1 > h0 {
            Err(ErrorEmitted)
        } else {
            Ok(())
        }
    }
}

proof fn lemma_dup_name_errors_kind(decls: Seq<Decl>, items: Seq<ResolvedTraitImplItem>)
    ensures
        forall|i: int|
            0 <= i < dup_name_errors(decls, items).len() ==> !(#[trigger] dup_name_errors(decls, items)[i] is ConflictingImplsForTraitAndType),
    decreases items.len(),
{
    if items.len() > 0 {
        lemma_dup_name_errors_kind(decls, items.drop_last());
    }
}

proof fn lemma_dup_decl_errors_kind(decls: Seq<Decl>, q: TypeId, block: Seq<(Seq<char>, ResolvedTraitImplItem)>, e: TraitEntry)
    ensures
        forall|i: int|
            0 <= i < dup_decl_errors(decls, q, block, e).len() ==> !(#[trigger] dup_decl_errors(decls, q, block, e)[i] is ConflictingImplsForTraitAndType),
    decreases block.len(),
{
    if block.len() > 0 {
        lemma_dup_decl_errors_kind(decls, q, block.drop_last(), e);
    }
}

/// An inherent block raises no conflict against any record.
proof fn lemma_impl_self_never_conflicts(
    types: Seq<TypeInfo>,
    scopes: Seq<TraitMap>,
    decls: Seq<Decl>,
    n: NewImpl,
    es: Seq<TraitEntry>,
)
    requires
        n.impl_self,
    ensures
        forall|i: int|
            0 <= i < coherence_errors(types, scopes, decls, n, es).len() ==> !(#[trigger] coherence_errors(types, scopes, decls, n, es)[i] is ConflictingImplsForTraitAndType),
    decreases es.len(),
{
    if es.len() > 0 {
        lemma_impl_self_never_conflicts(types, scopes, decls, n, es.drop_last());
        lemma_dup_decl_errors_kind(decls, n.type_id, n.block, es.last());
        let a = coherence_errors(types, scopes, decls, n, es.drop_last());
        let b = entry_errors(types, scopes, decls, n, es.last());
        assert forall|i: int| 0 <= i < (a + b).len() implies !(#[trigger] (a + b)[i] is ConflictingImplsForTraitAndType) by {
            if i >= a.len() {
                assert((a + b)[i] == b[i - a.len()]);
            }
        }
    }
}

proof fn lemma_put_item_cases(
    s: Seq<(Seq<char>, ResolvedTraitImplItem)>,
    n: Seq<char>,
    v: ResolvedTraitImplItem,
    i: int,
)
    requires
        0 <= i < put_item(s, n, v).len(),
    ensures
        put_item(s, n, v)[i].1 == v || (i < s.len() && put_item(s, n, v)[i] == s[i]),
{
}

proof fn lemma_block_items_valid(decls: Seq<Decl>, items: Seq<ResolvedTraitImplItem>, i: int)
    requires
        forall|k: int| 0 <= k < items.len() ==> item_decl(#[trigger] items[k]) < decls.len(),
        0 <= i < block_items(decls, items).len(),
    ensures
        item_decl(block_items(decls, items)[i].1) < decls.len(),
    decreases items.len(),
{
    if items.len() > 0 {
        let rest = block_items(decls, items.drop_last());
        let it = items.last();
        assert(item_decl(items[items.len() - 1]) < decls.len());
        let n = item_name(decls, it);
        lemma_put_item_cases(rest, n, it, i);
        if block_items(decls, items)[i].1 != it {
            assert forall|k: int| 0 <= k < items.drop_last().len() implies item_decl(
                #[trigger] items.drop_last()[k],
            ) < decls.len() by {
                assert(items.drop_last()[k] == items[k]);
            }
            lemma_block_items_valid(decls, items.drop_last(), i);
        }
    }
}

} // verus!
