//! The resolver over a chain of scopes: insertion with coherence checking,
//! lookups, and memoized checking of trait bounds.
use vstd::prelude::*;
use crate::assoc::{has_key, lemma_assoc_dom};
use crate::decls::Span;
use crate::errors::{CompileError, ErrorEmitted, ErrorView, Handler};
use crate::seqs::lemma_take_all;
use crate::trait_map::{
    constraints_view,
    entries_seq, find_bucket, ord_key, TraitConstraint, TraitEntry, TraitMap,
};
use crate::types::{dealias, root_filter, unifies, TypeEngine, TypeId, TypeInfo, TypeRootFilter, UnifyKind};

use crate::types::copy_ids;

verus! {

pub open spec fn derefs(s: Seq<&TraitEntry>) -> Seq<TraitEntry> {
    s.map_values(|e: &TraitEntry| *e)
}

/// The records a query of bucket `f` scans in one scope: the bucket itself,
/// then, if asked, the bucket of implementations for generic types.
pub open spec fn impls_for(m: TraitMap, f: TypeRootFilter, with_placeholder: bool) -> Seq<TraitEntry> {
    find_bucket(m.trait_impls@, f) + if with_placeholder && f != TypeRootFilter::Placeholder {
        find_bucket(m.trait_impls@, TypeRootFilter::Placeholder)
    } else {
        Seq::empty()
    }
}

/// Record `e` applies to the query type `q`.
pub open spec fn applies(types: Seq<TypeInfo>, q: TypeId, e: TraitEntry) -> bool {
    e.key.type_id < types.len() && unifies(types, UnifyKind::ConstraintSubset, q, e.key.type_id)
}

/// The records of `es` that apply to `q`, in order.
pub open spec fn applying(types: Seq<TypeInfo>, q: TypeId, es: Seq<TraitEntry>) -> Seq<TraitEntry>
    decreases es.len(),
{
    if es.len() == 0 {
        Seq::empty()
    } else if applies(types, q, es.last()) {
        applying(types, q, es.drop_last()).push(es.last())
    } else {
        applying(types, q, es.drop_last())
    }
}

proof fn lemma_applying_step(types: Seq<TypeInfo>, q: TypeId, es: Seq<TraitEntry>, i: int)
    requires
        0 <= i < es.len(),
    ensures
        applying(types, q, es.take(i + 1)) == if applies(types, q, es[i]) {
            applying(types, q, es.take(i)).push(es[i])
        } else {
            applying(types, q, es.take(i))
        },
{
    assert(es.take(i + 1).drop_last() =~= es.take(i));
}

proof fn lemma_applying_concat(types: Seq<TypeInfo>, q: TypeId, a: Seq<TraitEntry>, b: Seq<TraitEntry>)
    ensures
        applying(types, q, a + b) == applying(types, q, a) + applying(types, q, b),
    decreases b.len(),
{
    if b.len() == 0 {
        assert(a + b =~= a);
        assert(applying(types, q, a) + applying(types, q, b) =~= applying(types, q, a));
    } else {
        assert((a + b).drop_last() =~= a + b.drop_last());
        lemma_applying_concat(types, q, a, b.drop_last());
        assert(applying(types, q, a + b) =~= applying(types, q, a) + applying(types, q, b));
    }
}

pub open spec fn scope_hits(types: Seq<TypeInfo>, m: TraitMap, q: TypeId, with_placeholder: bool) -> Seq<TraitEntry> {
    applying(types, q, impls_for(m, root_filter(types, q), with_placeholder))
}

/// The records applying to `q` in scopes `k - 1` down to `0`, innermost first.
pub open spec fn chain_hits(
    types: Seq<TypeInfo>,
    scopes: Seq<TraitMap>,
    q: TypeId,
    with_placeholder: bool,
    k: int,
) -> Seq<TraitEntry>
    decreases k,
{
    if k <= 0 || k > scopes.len() {
        Seq::empty()
    } else {
        scope_hits(types, scopes[k - 1], q, with_placeholder) + chain_hits(
            types,
            scopes,
            q,
            with_placeholder,
            k - 1,
        )
    }
}

impl TraitMap {
    pub(crate) fn find_bucket_index(&self, f: TypeRootFilter) -> (r: Option<usize>)
        requires
            self.wf(),
        ensures
            r matches Some(j) ==> j < self.trait_impls@.len() && find_bucket(self.trait_impls@, f)
                == self.trait_impls@[j as int].1@,
            r is None ==> find_bucket(self.trait_impls@, f) == Seq::<TraitEntry>::empty(),
    {
        let mut j: usize = 0;
        while j < self.trait_impls.len() && self.trait_impls[j].0 != f
            invariant
                j <= self.trait_impls@.len(),
                forall|k: int| 0 <= k < j ==> self.trait_impls@[k].0 != f,
            decreases self.trait_impls@.len() - j,
        {
            j += 1;
        }
        proof {
            if j < self.trait_impls@.len() {
                crate::trait_map::lemma_find_bucket_index(self.trait_impls@, j as int);
            } else {
                assert(!has_key(self.trait_impls@, f)) by {
                    if has_key(self.trait_impls@, f) {
                        let k = choose|k: int| 0 <= k < self.trait_impls@.len() && self.trait_impls@[k].0 == f;
                        assert(self.trait_impls@[k].0 != f);
                    }
                }
                crate::trait_map::lemma_find_bucket_absent(self.trait_impls@, f);
            }
        }
        if j < self.trait_impls.len() {
            Some(j)
        } else {
            None
        }
    }

    /// Appends to `out` the records of bucket `f` that apply to `q`.
    fn push_hits<'a>(
        &'a self,
        te: &TypeEngine,
        f: TypeRootFilter,
        q: TypeId,
        out: &mut Vec<&'a TraitEntry>,
    )
        requires
            self.wf(),
            te.wf(),
            te.valid(q),
        ensures
            derefs(final(out)@) == derefs(old(out)@) + applying(
                te.types@,
                q,
                find_bucket(self.trait_impls@, f),
            ),
    {
        let ghost start = derefs(out@);
        match self.find_bucket_index(f) {
            None => {
                assert(derefs(out@) =~= start + applying(te.types@, q, Seq::<TraitEntry>::empty()));
            },
            Some(j) => {
                let es = &self.trait_impls[j].1;
                let mut i: usize = 0;
                while i < es.len()
                    invariant
                        i <= es@.len(),
                        te.wf(),
                        te.valid(q),
                        derefs(out@) == start + applying(te.types@, q, es@.take(i as int)),
                    decreases es@.len() - i,
                {
                    let e = &es[i];
                    proof {
                        lemma_applying_step(te.types@, q, es@, i as int);
                    }
                    let hit = e.key.type_id < te.types.len() && te.unify_check(
                        UnifyKind::ConstraintSubset,
                        q,
                        e.key.type_id,
                    );
                    assert(hit == applies(te.types@, q, es@[i as int]));
                    if hit {
                        let ghost prev = out@;
                        out.push(e);
                        assert(derefs(out@) =~= derefs(prev).push(*e));
                    }
                    i += 1;
                }
                proof {
                    lemma_take_all(es@);
                }
            },
        }
    }
}

/// The records applying to `q` in every scope, innermost scope first.
pub(crate) fn collect_hits<'a>(scopes: &'a Vec<TraitMap>, te: &TypeEngine, q: TypeId, with_placeholder: bool) -> (r: Vec<&'a TraitEntry>)
    requires
        forall|s: int| 0 <= s < scopes@.len() ==> #[trigger] scopes@[s].wf(),
        te.wf(),
        te.valid(q),
    ensures
        derefs(r@) == chain_hits(te.types@, scopes@, q, with_placeholder, scopes@.len() as int),
{
    let f = te.get_type_root_filter(q);
    let mut out: Vec<&'a TraitEntry> = Vec::new();
    let mut k: usize = scopes.len();
    while k > 0
        invariant
            k <= scopes@.len(),
            forall|s: int| 0 <= s < scopes@.len() ==> #[trigger] scopes@[s].wf(),
            te.wf(),
            te.valid(q),
            f == root_filter(te.types@, q),
            derefs(out@) + chain_hits(te.types@, scopes@, q, with_placeholder, k as int)
                == chain_hits(te.types@, scopes@, q, with_placeholder, scopes@.len() as int),
        decreases k,
    {
        let m = &scopes[k - 1];
        let ghost before = derefs(out@);
        m.push_hits(te, f, q, &mut out);
        if with_placeholder && f != TypeRootFilter::Placeholder {
            m.push_hits(te, TypeRootFilter::Placeholder, q, &mut out);
        }
        proof {
            let a = find_bucket(m.trait_impls@, f);
            let b = if with_placeholder && f != TypeRootFilter::Placeholder {
                find_bucket(m.trait_impls@, TypeRootFilter::Placeholder)
            } else {
                Seq::empty()
            };
            lemma_applying_concat(te.types@, q, a, b);
            if !(with_placeholder && f != TypeRootFilter::Placeholder) {
                assert(applying(te.types@, q, b) =~= Seq::<TraitEntry>::empty());
            }
            assert(derefs(out@) =~= before + scope_hits(te.types@, *m, q, with_placeholder));
            assert(derefs(out@) + chain_hits(te.types@, scopes@, q, with_placeholder, k - 1) =~= before
                + chain_hits(te.types@, scopes@, q, with_placeholder, k as int));
        }
        k -= 1;
    }
    assert(derefs(out@) =~= derefs(out@) + chain_hits(te.types@, scopes@, q, with_placeholder, 0));
    out
}


/// The implementation's trait arguments unify, one by one, into the
/// required ones.
pub open spec fn args_unify(types: Seq<TypeInfo>, got: Seq<TypeId>, want: Seq<TypeId>) -> bool {
    &&& got.len() == want.len()
    &&& forall|k: int|
        0 <= k < got.len() ==> got[k] < types.len() && want[k] < types.len() && unifies(
            types,
            UnifyKind::ConstraintSubset,
            got[k],
            want[k],
        )
}

/// Record `e` implements the trait `name` with arguments `args`.
pub open spec fn provides(types: Seq<TypeInfo>, e: TraitEntry, name: Seq<char>, args: Seq<TypeId>) -> bool {
    e.key.name.name@ == name && args_unify(types, e.key.name.args@, args)
}

pub open spec fn constraint_met(types: Seq<TypeInfo>, hits: Seq<TraitEntry>, c: TraitConstraint) -> bool {
    exists|i: int|
        0 <= i < hits.len() && #[trigger] provides(types, hits[i], c.trait_name@, c.type_arguments@)
}

pub open spec fn all_met(types: Seq<TypeInfo>, hits: Seq<TraitEntry>, cs: Seq<TraitConstraint>) -> bool {
    forall|i: int| 0 <= i < cs.len() ==> #[trigger] constraint_met(types, hits, cs[i])
}

/// One diagnostic per bound of `cs` that `hits` leave unmet, in order.
pub open spec fn unmet_errors(
    types: Seq<TypeInfo>,
    hits: Seq<TraitEntry>,
    cs: Seq<TraitConstraint>,
    q: TypeId,
    span: Span,
) -> Seq<ErrorView>
    decreases cs.len(),
{
    if cs.len() == 0 {
        Seq::empty()
    } else {
        let rest = unmet_errors(types, hits, cs.drop_last(), q, span);
        let c = cs.last();
        if constraint_met(types, hits, c) {
            rest
        } else {
            rest.push(
                ErrorView::TraitConstraintNotSatisfied {
                    type_id: q,
                    trait_name: c.trait_name@,
                    type_arguments: c.type_arguments@,
                    span,
                },
            )
        }
    }
}


/// The query `(q, cs)` is recorded in the cache of `m`.
pub open spec fn cached(m: TraitMap, q: TypeId, cs: Seq<TraitConstraint>) -> bool {
    exists|i: int|
        0 <= i < m.satisfied_cache@.len() && m.satisfied_cache@[i].0 == q && #[trigger] constraints_view(
            m.satisfied_cache@[i].1@,
        ) == constraints_view(cs)
}

/// A module's chain of lexical scopes, outermost first; the last one is the
/// current scope.
pub struct Module {
    pub scopes: Vec<TraitMap>,
    /// How many times bounds were checked by scanning the scope chain.
    pub scan_count: u64,
}

impl Module {
    pub open spec fn wf(&self) -> bool {
        &&& self.scopes@.len() >= 1
        &&& forall|s: int| 0 <= s < self.scopes@.len() ==> #[trigger] self.scopes@[s].wf()
    }

    pub open spec fn current(&self) -> TraitMap {
        self.scopes@.last()
    }

    /// Every cached query of a scope holds in the chain from that scope out.
    pub open spec fn cache_sound(&self, types: Seq<TypeInfo>) -> bool {
        forall|s: int, i: int|
            0 <= s < self.scopes@.len() && 0 <= i < self.scopes@[s].satisfied_cache@.len() ==> {
                &&& #[trigger] self.scopes@[s].satisfied_cache@[i].0 < types.len()
                &&& all_met(
                    types,
                    chain_hits(types, self.scopes@, self.scopes@[s].satisfied_cache@[i].0, true, s + 1),
                    self.scopes@[s].satisfied_cache@[i].1@,
                )
            }
    }

    /// The records that queries of `q` see from the current scope.
    pub open spec fn hits(&self, types: Seq<TypeInfo>, q: TypeId, with_placeholder: bool) -> Seq<TraitEntry> {
        chain_hits(types, self.scopes@, q, with_placeholder, self.scopes@.len() as int)
    }

    pub fn new() -> (m: Module)
        ensures
            m.wf(),
            m.scopes@.len() == 1,
            m.scopes@[0].satisfied_cache@.len() == 0,
            forall|f: TypeRootFilter| #[trigger] m.scopes@[0].bucket(f) == Map::<crate::trait_map::OrdKey, crate::trait_map::EntryView>::empty(),
            m.scan_count == 0,
    {
        let mut scopes = Vec::new();
        scopes.push(TraitMap::new());
        Module { scopes, scan_count: 0 }
    }
}

fn args_unify_exec(te: &TypeEngine, got: &Vec<TypeId>, want: &Vec<TypeId>) -> (r: bool)
    requires
        te.wf(),
    ensures
        r == args_unify(te.types@, got@, want@),
{
    if got.len() != want.len() {
        return false;
    }
    let mut k: usize = 0;
    while k < got.len()
        invariant
            te.wf(),
            got@.len() == want@.len(),
            k <= got@.len(),
            forall|j: int|
                0 <= j < k ==> got@[j] < te.types@.len() && want@[j] < te.types@.len() && unifies(
                    te.types@,
                    UnifyKind::ConstraintSubset,
                    got@[j],
                    want@[j],
                ),
        decreases got@.len() - k,
    {
        if got[k] >= te.types.len() || want[k] >= te.types.len() {
            return false;
        }
        if !te.unify_check(UnifyKind::ConstraintSubset, got[k], want[k]) {
            return false;
        }
        k += 1;
    }
    true
}

pub(crate) fn constraint_met_exec(te: &TypeEngine, hits: &Vec<&TraitEntry>, c: &TraitConstraint) -> (r: bool)
    requires
        te.wf(),
    ensures
        r == constraint_met(te.types@, derefs(hits@), *c),
{
    let ghost hs = derefs(hits@);
    let mut i: usize = 0;
    while i < hits.len()
        invariant
            te.wf(),
            hs == derefs(hits@),
            i <= hits@.len(),
            forall|j: int| 0 <= j < i ==> !#[trigger] provides(te.types@, hs[j], c.trait_name@, c.type_arguments@),
        decreases hits@.len() - i,
    {
        let e = hits[i];
        if e.key.name.name == c.trait_name && args_unify_exec(te, &e.key.name.args, &c.type_arguments) {
            assert(provides(te.types@, hs[i as int], c.trait_name@, c.type_arguments@));
            return true;
        }
        i += 1;
    }
    false
}

pub(crate) fn clone_constraints(cs: &Vec<TraitConstraint>) -> (r: Vec<TraitConstraint>)
    ensures
        constraints_view(r@) == constraints_view(cs@),
{
    let mut r: Vec<TraitConstraint> = Vec::new();
    let mut i: usize = 0;
    while i < cs.len()
        invariant
            i <= cs@.len(),
            constraints_view(r@) == constraints_view(cs@.take(i as int)),
        decreases cs@.len() - i,
    {
        let c = TraitConstraint {
            trait_name: cs[i].trait_name.clone(),
            type_arguments: copy_ids(&cs[i].type_arguments),
        };
        let ghost prev = r@;
        r.push(c);
        assert(constraints_view(r@) =~= constraints_view(prev).push(
            (cs@[i as int].trait_name@, cs@[i as int].type_arguments@),
        ));
        assert(constraints_view(cs@.take(i as int + 1)) =~= constraints_view(cs@.take(i as int)).push(
            (cs@[i as int].trait_name@, cs@[i as int].type_arguments@),
        ));
        i += 1;
    }
    assert(cs@.take(cs@.len() as int) =~= cs@);
    r
}

fn constraints_eq(a: &Vec<TraitConstraint>, b: &Vec<TraitConstraint>) -> (r: bool)
    ensures
        r == (constraints_view(a@) == constraints_view(b@)),
{
    if a.len() != b.len() {
        assert(constraints_view(a@).len() != constraints_view(b@).len());
        return false;
    }
    let mut i: usize = 0;
    while i < a.len()
        invariant
            a@.len() == b@.len(),
            i <= a@.len(),
            forall|k: int| 0 <= k < i ==> constraints_view(a@)[k] == constraints_view(b@)[k],
        decreases a@.len() - i,
    {
        if a[i].trait_name != b[i].trait_name || !crate::trait_map::ids_eq(
            &a[i].type_arguments,
            &b[i].type_arguments,
        ) {
            assert(constraints_view(a@)[i as int] != constraints_view(b@)[i as int]);
            return false;
        }
        i += 1;
    }
    assert(constraints_view(a@) =~= constraints_view(b@));
    true
}

impl TraitMap {
    fn is_cached(&self, q: TypeId, cs: &Vec<TraitConstraint>) -> (r: bool)
        ensures
            r == cached(*self, q, cs@),
    {
        let mut i: usize = 0;
        while i < self.satisfied_cache.len()
            invariant
                i <= self.satisfied_cache@.len(),
                forall|j: int|
                    0 <= j < i ==> !(self.satisfied_cache@[j].0 == q && #[trigger] constraints_view(
                        self.satisfied_cache@[j].1@,
                    ) == constraints_view(cs@)),
            decreases self.satisfied_cache@.len() - i,
        {
            if self.satisfied_cache[i].0 == q && constraints_eq(&self.satisfied_cache[i].1, cs) {
                return true;
            }
            i += 1;
        }
        false
    }
}

pub proof fn lemma_cached_all_met(module: &Module, types: Seq<TypeInfo>, q: TypeId, cs: Seq<TraitConstraint>)
    requires
        module.wf(),
        module.cache_sound(types),
        cached(module.current(), q, cs),
    ensures
        all_met(types, module.hits(types, q, true), cs),
{
    let s = module.scopes@.len() - 1;
    let i = choose|i: int|
        0 <= i < module.current().satisfied_cache@.len() && module.current().satisfied_cache@[i].0 == q
            && #[trigger] constraints_view(module.current().satisfied_cache@[i].1@) == constraints_view(cs);
    let t = module.scopes@[s].satisfied_cache@[i].0;
    let cs2 = module.scopes@[s].satisfied_cache@[i].1;
    assert(t < types.len());
    assert(all_met(types, chain_hits(types, module.scopes@, t, true, s + 1), cs2@));
    assert forall|k: int| 0 <= k < cs.len() implies #[trigger] constraint_met(
        types,
        module.hits(types, q, true),
        cs[k],
    ) by {
        assert(constraints_view(cs2@).len() == cs2@.len());
        assert(constraints_view(cs).len() == cs.len());
        assert(constraints_view(cs2@)[k] == constraints_view(cs)[k]);
        assert(constraints_view(cs2@)[k] == (cs2@[k].trait_name@, cs2@[k].type_arguments@));
        assert(constraints_view(cs)[k] == (cs[k].trait_name@, cs[k].type_arguments@));
        assert(constraint_met(types, chain_hits(types, module.scopes@, t, true, s + 1), cs2@[k]));
        assert(cs2@[k].trait_name@ == cs[k].trait_name@);
        assert(cs2@[k].type_arguments@ == cs[k].type_arguments@);
    }
}


proof fn lemma_chain_hits_same(
    types: Seq<TypeInfo>,
    a: Seq<TraitMap>,
    b: Seq<TraitMap>,
    q: TypeId,
    with_placeholder: bool,
    k: int,
)
    requires
        a.len() == b.len(),
        forall|s: int| 0 <= s < a.len() ==> #[trigger] a[s].trait_impls@ == b[s].trait_impls@,
    ensures
        chain_hits(types, a, q, with_placeholder, k) == chain_hits(types, b, q, with_placeholder, k),
    decreases k,
{
    if k > 0 && k <= a.len() {
        assert(a[k - 1].trait_impls@ == b[k - 1].trait_impls@);
        lemma_chain_hits_same(types, a, b, q, with_placeholder, k - 1);
    }
}

proof fn lemma_all_met_step(types: Seq<TypeInfo>, hits: Seq<TraitEntry>, cs: Seq<TraitConstraint>, i: int)
    requires
        0 <= i < cs.len(),
    ensures
        all_met(types, hits, cs.take(i + 1)) == (all_met(types, hits, cs.take(i)) && constraint_met(
            types,
            hits,
            cs[i],
        )),
{
    if all_met(types, hits, cs.take(i + 1)) {
        assert(constraint_met(types, hits, cs.take(i + 1)[i]));
        assert forall|k: int| 0 <= k < i implies #[trigger] constraint_met(types, hits, cs.take(i)[k]) by {
            assert(constraint_met(types, hits, cs.take(i + 1)[k]));
        }
    }
    if all_met(types, hits, cs.take(i)) && constraint_met(types, hits, cs[i]) {
        assert forall|k: int| 0 <= k < i + 1 implies #[trigger] constraint_met(
            types,
            hits,
            cs.take(i + 1)[k],
        ) by {
            if k < i {
                assert(constraint_met(types, hits, cs.take(i)[k]));
            }
        }
    }
}

proof fn lemma_unmet_none(types: Seq<TypeInfo>, hits: Seq<TraitEntry>, cs: Seq<TraitConstraint>, q: TypeId, span: Span)
    requires
        all_met(types, hits, cs),
    ensures
        unmet_errors(types, hits, cs, q, span) == Seq::<ErrorView>::empty(),
    decreases cs.len(),
{
    if cs.len() > 0 {
        assert(constraint_met(types, hits, cs[cs.len() - 1]));
        assert forall|k: int| 0 <= k < cs.drop_last().len() implies #[trigger] constraint_met(
            types,
            hits,
            cs.drop_last()[k],
        ) by {
            assert(constraint_met(types, hits, cs[k]));
        }
        lemma_unmet_none(types, hits, cs.drop_last(), q, span);
    }
}

impl Module {
    /// Checks that `type_id` implements every bound of `constraints` in the
    /// scope chain. Each unmet bound is reported; a success is remembered in
    /// the current scope, and a remembered query is answered without a scan.
    pub fn check_if_trait_constraints_are_satisfied_for_type(
        &mut self,
        handler: &mut Handler,
        type_id: TypeId,
        constraints: &Vec<TraitConstraint>,
        access_span: Span,
        te: &TypeEngine,
    ) -> (r: Result<(), ErrorEmitted>)
        requires
            old(self).wf(),
            old(self).cache_sound(te.types@),
            te.wf(),
            te.valid(type_id),
        ensures
            final(self).wf(),
            final(self).cache_sound(te.types@),
            final(self).scopes@.len() == old(self).scopes@.len(),
            forall|s: int|
                0 <= s < old(self).scopes@.len() ==> #[trigger] final(self).scopes@[s].trait_impls@
                    == old(self).scopes@[s].trait_impls@,
            r is Err ==> final(self).scopes@ == old(self).scopes@,
            ({
                let q = dealias(te.types@, type_id);
                let hits = old(self).hits(te.types@, q, true);
                &&& (r is Ok <==> all_met(te.types@, hits, constraints@))
                &&& final(handler).view() == old(handler).view() + unmet_errors(
                    te.types@,
                    hits,
                    constraints@,
                    q,
                    access_span,
                )
                &&& (r is Ok && constraints@.len() > 0 ==> cached(final(self).current(), q, constraints@))
                &&& final(self).scan_count == if constraints@.len() == 0 || cached(
                    old(self).current(),
                    q,
                    constraints@,
                ) {
                    old(self).scan_count
                } else if old(self).scan_count < u64::MAX {
                    (old(self).scan_count + 1) as u64
                } else {
                    old(self).scan_count
                }
            }),
    {
        let q = te.get_unaliased_type_id(type_id);
        let ghost types = te.types@;
        let ghost hits0 = self.hits(types, q, true);
        if constraints.len() == 0 {
            return Ok(());
        }
        let n = self.scopes.len();
        if self.scopes[n - 1].is_cached(q, constraints) {
            proof {
                lemma_cached_all_met(self, types, q, constraints@);
                lemma_unmet_none(types, hits0, constraints@, q, access_span);
                assert(old(handler).view() + Seq::<ErrorView>::empty() =~= old(handler).view());
            }
            return Ok(());
        }
        if self.scan_count < u64::MAX {
            self.scan_count = self.scan_count + 1;
        }
        let hits = collect_hits(&self.scopes, te, q, true);
        let ghost hs = derefs(hits@);
        let mut ok = true;
        let mut i: usize = 0;
        while i < constraints.len()
            invariant
                te.wf(),
                types == te.types@,
                hs == derefs(hits@),
                hs == hits0,
                i <= constraints@.len(),
                handler.view() == old(handler).view() + unmet_errors(
                    types,
                    hs,
                    constraints@.take(i as int),
                    q,
                    access_span,
                ),
                ok == all_met(types, hs, constraints@.take(i as int)),
            decreases constraints@.len() - i,
        {
            let c = &constraints[i];
            proof {
                lemma_all_met_step(types, hs, constraints@, i as int);
                assert(constraints@.take(i as int + 1).drop_last() =~= constraints@.take(i as int));
            }
            let met = constraint_met_exec(te, &hits, c);
            proof {
                let ghost pre = constraints@.take(i as int);
                let ghost nxt = constraints@.take(i as int + 1);
                assert(nxt.last() == *c);
                assert(nxt.drop_last() == pre);
                assert(nxt.len() > 0);
                assert(met == constraint_met(types, hs, nxt.last()));
                assert(unmet_errors(types, hs, nxt, q, access_span) == if met {
                    unmet_errors(types, hs, pre, q, access_span)
                } else {
                    unmet_errors(types, hs, pre, q, access_span).push(
                        ErrorView::TraitConstraintNotSatisfied {
                            type_id: q,
                            trait_name: c.trait_name@,
                            type_arguments: c.type_arguments@,
                            span: access_span,
                        },
                    )
                });
            }
            if !met {
                let ghost before = handler.view();
                handler.emit_err(
                    CompileError::TraitConstraintNotSatisfied {
                        type_id: q,
                        trait_name: c.trait_name.clone(),
                        type_arguments: copy_ids(&c.type_arguments),
                        span: access_span,
                    },
                );
                assert(handler.view() =~= old(handler).view() + unmet_errors(
                    types,
                    hs,
                    constraints@.take(i as int + 1),
                    q,
                    access_span,
                ));
                ok = false;
            }
            i += 1;
        }
        proof {
            lemma_take_all(constraints@);
        }
        if ok {
            let ghost mid = self.scopes@;
            let mut cur = self.scopes.pop().unwrap();
            cur.satisfied_cache.push((q, clone_constraints(constraints)));
            self.scopes.push(cur);
            proof {
                let sc = self.scopes@;
                assert(sc =~= mid.update(n - 1, cur));
                assert forall|s: int| 0 <= s < sc.len() implies #[trigger] sc[s].trait_impls@ == mid[s].trait_impls@ by {}
                assert forall|s: int| 0 <= s < sc.len() implies #[trigger] sc[s].wf() by {
                    assert(mid[s].wf());
                }
                assert forall|s: int, j: int|
                    0 <= s < sc.len() && 0 <= j < sc[s].satisfied_cache@.len() implies {
                    &&& #[trigger] sc[s].satisfied_cache@[j].0 < types.len()
                    &&& all_met(
                        types,
                        chain_hits(types, sc, sc[s].satisfied_cache@[j].0, true, s + 1),
                        sc[s].satisfied_cache@[j].1@,
                    )
                } by {
                    lemma_chain_hits_same(types, sc, mid, sc[s].satisfied_cache@[j].0, true, s + 1);
                    if s == n - 1 && j == sc[s].satisfied_cache@.len() - 1 {
                        assert(sc[s].satisfied_cache@[j].0 == q);
                        assert(constraints_view(sc[s].satisfied_cache@[j].1@) == constraints_view(constraints@));
                        assert forall|k: int| 0 <= k < sc[s].satisfied_cache@[j].1@.len() implies #[trigger] constraint_met(
                            types,
                            chain_hits(types, mid, q, true, s + 1),
                            sc[s].satisfied_cache@[j].1@[k],
                        ) by {
                            let c2 = sc[s].satisfied_cache@[j].1@;
                            assert(constraints_view(c2).len() == c2.len());
                            assert(constraints_view(constraints@).len() == constraints@.len());
                            assert(constraints_view(c2)[k] == constraints_view(constraints@)[k]);
                            assert(constraints_view(c2)[k] == (c2[k].trait_name@, c2[k].type_arguments@));
                            assert(constraints_view(constraints@)[k] == (constraints@[k].trait_name@, constraints@[k].type_arguments@));
                            assert(constraint_met(types, hs, constraints@[k]));
                        }
                    } else {
                        assert(sc[s].satisfied_cache@[j] == mid[s].satisfied_cache@[j]);
                    }
                }
                let j = sc[n - 1].satisfied_cache@.len() - 1;
                assert(constraints_view(sc[n - 1].satisfied_cache@[j].1@) == constraints_view(constraints@));
                lemma_unmet_none(types, hs, constraints@, q, access_span);
            }
            Ok(())
        } else {
            Err(ErrorEmitted)
        }
    }
}


proof fn lemma_applying_member(types: Seq<TypeInfo>, q: TypeId, es: Seq<TraitEntry>, i: int)
    requires
        0 <= i < applying(types, q, es).len(),
    ensures
        applies(types, q, applying(types, q, es)[i]),
        exists|j: int| 0 <= j < es.len() && es[j] == applying(types, q, es)[i],
    decreases es.len(),
{
    let rest = applying(types, q, es.drop_last());
    if i < rest.len() {
        lemma_applying_member(types, q, es.drop_last(), i);
        let j = choose|j: int| 0 <= j < es.drop_last().len() && es.drop_last()[j] == rest[i];
        assert(es[j] == applying(types, q, es)[i]);
    } else {
        assert(es[es.len() - 1] == applying(types, q, es)[i]);
    }
}

proof fn lemma_applying_contains(types: Seq<TypeInfo>, q: TypeId, es: Seq<TraitEntry>, j: int)
    requires
        0 <= j < es.len(),
        applies(types, q, es[j]),
    ensures
        exists|i: int| 0 <= i < applying(types, q, es).len() && applying(types, q, es)[i] == es[j],
    decreases es.len(),
{
    if j == es.len() - 1 {
        let i = applying(types, q, es).len() - 1;
        assert(applying(types, q, es)[i] == es[j]);
    } else {
        lemma_applying_contains(types, q, es.drop_last(), j);
        let i = choose|i: int|
            0 <= i < applying(types, q, es.drop_last()).len() && applying(types, q, es.drop_last())[i]
                == es.drop_last()[j];
        assert(applying(types, q, es)[i] == es[j]);
    }
}

pub(crate) proof fn lemma_chain_member(types: Seq<TypeInfo>, sc: Seq<TraitMap>, q: TypeId, ph: bool, k: int, i: int)
    requires
        0 <= i < chain_hits(types, sc, q, ph, k).len(),
    ensures
        applies(types, q, chain_hits(types, sc, q, ph, k)[i]),
        exists|s: int, j: int|
            0 <= s < k && s < sc.len() && 0 <= j < impls_for(sc[s], root_filter(types, q), ph).len()
                && #[trigger] impls_for(sc[s], root_filter(types, q), ph)[j] == chain_hits(types, sc, q, ph, k)[i],
    decreases k,
{
    let a = scope_hits(types, sc[k - 1], q, ph);
    let b = chain_hits(types, sc, q, ph, k - 1);
    if i < a.len() {
        assert(chain_hits(types, sc, q, ph, k)[i] == a[i]);
        lemma_applying_member(types, q, impls_for(sc[k - 1], root_filter(types, q), ph), i);
        let es = impls_for(sc[k - 1], root_filter(types, q), ph);
        let j = choose|j: int| 0 <= j < es.len() && #[trigger] es[j] == a[i];
        assert(impls_for(sc[k - 1], root_filter(types, q), ph)[j] == chain_hits(types, sc, q, ph, k)[i]);
    } else {
        assert(chain_hits(types, sc, q, ph, k)[i] == b[i - a.len()]);
        lemma_chain_member(types, sc, q, ph, k - 1, i - a.len());
        let (s, j) = choose|s: int, j: int|
            0 <= s < k - 1 && s < sc.len() && 0 <= j < impls_for(sc[s], root_filter(types, q), ph).len()
                && #[trigger] impls_for(sc[s], root_filter(types, q), ph)[j] == b[i - a.len()];
        assert(impls_for(sc[s], root_filter(types, q), ph)[j] == chain_hits(types, sc, q, ph, k)[i]);
    }
}

proof fn lemma_chain_contains(
    types: Seq<TypeInfo>,
    sc: Seq<TraitMap>,
    q: TypeId,
    ph: bool,
    k: int,
    s: int,
    x: TraitEntry,
    j: int,
)
    requires
        0 <= s < k <= sc.len(),
        0 <= j < impls_for(sc[s], root_filter(types, q), ph).len(),
        impls_for(sc[s], root_filter(types, q), ph)[j] == x,
        applies(types, q, x),
    ensures
        exists|i: int| 0 <= i < chain_hits(types, sc, q, ph, k).len() && chain_hits(types, sc, q, ph, k)[i] == x,
    decreases k,
{
    let a = scope_hits(types, sc[k - 1], q, ph);
    let b = chain_hits(types, sc, q, ph, k - 1);
    if s == k - 1 {
        lemma_applying_contains(types, q, impls_for(sc[s], root_filter(types, q), ph), j);
        let i = choose|i: int| 0 <= i < a.len() && #[trigger] a[i] == x;
        assert(chain_hits(types, sc, q, ph, k)[i] == x);
    } else {
        lemma_chain_contains(types, sc, q, ph, k - 1, s, x, j);
        let i = choose|i: int| 0 <= i < b.len() && #[trigger] b[i] == x;
        assert(chain_hits(types, sc, q, ph, k)[a.len() + i] == x);
    }
}

/// A record of bucket `g` has its key in the bucket's view, and a key of the
/// view belongs to a record of the bucket.
proof fn lemma_bucket_key(m: TraitMap, g: TypeRootFilter, key: crate::trait_map::OrdKey)
    requires
        m.wf(),
    ensures
        m.bucket(g).contains_key(key) <==> exists|j: int|
            0 <= j < find_bucket(m.trait_impls@, g).len() && #[trigger] ord_key(find_bucket(m.trait_impls@, g)[j].key) == key,
{
    let es = find_bucket(m.trait_impls@, g);
    let sq = entries_seq(es);
    lemma_assoc_dom(sq, key);
    if has_key(sq, key) {
        let j = choose|j: int| 0 <= j < sq.len() && sq[j].0 == key;
        assert(ord_key(es[j].key) == key);
    }
    if exists|j: int| 0 <= j < es.len() && #[trigger] ord_key(es[j].key) == key {
        let j = choose|j: int| 0 <= j < es.len() && #[trigger] ord_key(es[j].key) == key;
        assert(sq[j].0 == key);
    }
}

/// Growing the records of the innermost scope keeps every bound met.
proof fn lemma_met_grows(
    types: Seq<TypeInfo>,
    old_sc: Seq<TraitMap>,
    new_sc: Seq<TraitMap>,
    q: TypeId,
    k: int,
    c: TraitConstraint,
)
    requires
        old_sc.len() == new_sc.len(),
        old_sc.len() >= 1,
        0 <= k <= old_sc.len(),
        forall|s: int| 0 <= s < old_sc.len() - 1 ==> #[trigger] new_sc[s] == old_sc[s],
        old_sc.last().wf(),
        new_sc.last().wf(),
        forall|g: TypeRootFilter, key: crate::trait_map::OrdKey|
            #[trigger] old_sc.last().bucket(g).contains_key(key) ==> new_sc.last().bucket(g).contains_key(key),
        constraint_met(types, chain_hits(types, old_sc, q, true, k), c),
    ensures
        constraint_met(types, chain_hits(types, new_sc, q, true, k), c),
{
    let hs = chain_hits(types, old_sc, q, true, k);
    let i = choose|i: int| 0 <= i < hs.len() && #[trigger] provides(types, hs[i], c.trait_name@, c.type_arguments@);
    let x = hs[i];
    lemma_chain_member(types, old_sc, q, true, k, i);
    let f = root_filter(types, q);
    let (s, j) = choose|s: int, j: int|
        0 <= s < k && s < old_sc.len() && 0 <= j < impls_for(old_sc[s], f, true).len()
            && #[trigger] impls_for(old_sc[s], f, true)[j] == x;
    let n = old_sc.len() - 1;
    if s < n {
        assert(new_sc[s] == old_sc[s]);
        lemma_chain_contains(types, new_sc, q, true, k, s, x, j);
        let nh = chain_hits(types, new_sc, q, true, k);
        let i2 = choose|i2: int| 0 <= i2 < nh.len() && #[trigger] nh[i2] == x;
        assert(provides(types, chain_hits(types, new_sc, q, true, k)[i2], c.trait_name@, c.type_arguments@));
    } else {
        let om = old_sc[n];
        let nm = new_sc[n];
        let a = find_bucket(om.trait_impls@, f);
        let g = if j < a.len() { f } else { TypeRootFilter::Placeholder };
        let jj = if j < a.len() { j } else { j - a.len() };
        assert(find_bucket(om.trait_impls@, g)[jj] == x);
        lemma_bucket_key(om, g, ord_key(x.key));
        assert(om.bucket(g).contains_key(ord_key(x.key)));
        assert(nm.bucket(g).contains_key(ord_key(x.key)));
        lemma_bucket_key(nm, g, ord_key(x.key));
        let j2 = choose|j2: int|
            0 <= j2 < find_bucket(nm.trait_impls@, g).len() && #[trigger] ord_key(find_bucket(nm.trait_impls@, g)[j2].key) == ord_key(x.key);
        let y = find_bucket(nm.trait_impls@, g)[j2];
        let na = find_bucket(nm.trait_impls@, f);
        let jy = if j < a.len() { j2 } else { na.len() + j2 };
        assert(impls_for(nm, f, true)[jy] == y);
        assert(y.key.type_id == x.key.type_id);
        assert(y.key.name.name@ == x.key.name.name@);
        assert(y.key.name.args@ == x.key.name.args@);
        lemma_chain_contains(types, new_sc, q, true, k, n, y, jy);
        let nh = chain_hits(types, new_sc, q, true, k);
        let i2 = choose|i2: int| 0 <= i2 < nh.len() && #[trigger] nh[i2] == y;
        assert(provides(types, chain_hits(types, new_sc, q, true, k)[i2], c.trait_name@, c.type_arguments@));
    }
}

/// Cached queries stay sound when the innermost scope only gains records.
pub proof fn lemma_cache_sound_grows(types: Seq<TypeInfo>, old_m: Module, new_m: Module)
    requires
        old_m.wf(),
        new_m.wf(),
        old_m.cache_sound(types),
        old_m.scopes@.len() == new_m.scopes@.len(),
        forall|s: int| 0 <= s < old_m.scopes@.len() - 1 ==> #[trigger] new_m.scopes@[s] == old_m.scopes@[s],
        new_m.current().satisfied_cache@ == old_m.current().satisfied_cache@,
        forall|g: TypeRootFilter, key: crate::trait_map::OrdKey|
            #[trigger] old_m.current().bucket(g).contains_key(key) ==> new_m.current().bucket(g).contains_key(key),
    ensures
        new_m.cache_sound(types),
{
    let n = old_m.scopes@.len() - 1;
    assert(old_m.scopes@[n].wf());
    assert(new_m.scopes@[n].wf());
    assert forall|s: int, i: int|
        0 <= s < new_m.scopes@.len() && 0 <= i < new_m.scopes@[s].satisfied_cache@.len() implies {
        &&& #[trigger] new_m.scopes@[s].satisfied_cache@[i].0 < types.len()
        &&& all_met(
            types,
            chain_hits(types, new_m.scopes@, new_m.scopes@[s].satisfied_cache@[i].0, true, s + 1),
            new_m.scopes@[s].satisfied_cache@[i].1@,
        )
    } by {
        assert(new_m.scopes@[s].satisfied_cache@[i] == old_m.scopes@[s].satisfied_cache@[i]);
        let t = old_m.scopes@[s].satisfied_cache@[i].0;
        let cs = old_m.scopes@[s].satisfied_cache@[i].1@;
        assert(t < types.len());
        assert(all_met(types, chain_hits(types, old_m.scopes@, t, true, s + 1), cs));
        assert forall|k: int| 0 <= k < cs.len() implies #[trigger] constraint_met(
            types,
            chain_hits(types, new_m.scopes@, t, true, s + 1),
            cs[k],
        ) by {
            assert(constraint_met(types, chain_hits(types, old_m.scopes@, t, true, s + 1), cs[k]));
            lemma_met_grows(types, old_m.scopes@, new_m.scopes@, t, s + 1, cs[k]);
        }
    }
}


proof fn lemma_chain_hits_prefix(types: Seq<TypeInfo>, sc: Seq<TraitMap>, m: TraitMap, q: TypeId, ph: bool, k: int)
    requires
        k <= sc.len(),
    ensures
        chain_hits(types, sc.push(m), q, ph, k) == chain_hits(types, sc, q, ph, k),
    decreases k,
{
    if k > 0 {
        assert(sc.push(m)[k - 1] == sc[k - 1]);
        lemma_chain_hits_prefix(types, sc, m, q, ph, k - 1);
    }
}

impl Module {
    /// Opens a new innermost scope with an empty index.
    pub fn push_scope(&mut self)
        requires
            old(self).wf(),
        ensures
            final(self).wf(),
            final(self).scopes@.len() == old(self).scopes@.len() + 1,
            final(self).scopes@.drop_last() == old(self).scopes@,
            final(self).current().satisfied_cache@.len() == 0,
            forall|f: TypeRootFilter| #[trigger] final(self).current().bucket(f) == Map::<crate::trait_map::OrdKey, crate::trait_map::EntryView>::empty(),
            final(self).scan_count == old(self).scan_count,
            forall|types: Seq<TypeInfo>| old(self).cache_sound(types) ==> #[trigger] final(self).cache_sound(types),
    {
        let ghost before = self.scopes@;
        let fresh = TraitMap::new();
        self.scopes.push(fresh);
        proof {
            assert(self.scopes@.drop_last() =~= before);
            assert forall|s: int| 0 <= s < self.scopes@.len() implies #[trigger] self.scopes@[s].wf() by {
                if s < before.len() {
                    assert(self.scopes@[s] == before[s]);
                }
            }
            assert forall|types: Seq<TypeInfo>| old(self).cache_sound(types) implies #[trigger] self.cache_sound(types) by {
                assert forall|s: int, i: int|
                    0 <= s < self.scopes@.len() && 0 <= i < self.scopes@[s].satisfied_cache@.len() implies {
                    &&& #[trigger] self.scopes@[s].satisfied_cache@[i].0 < types.len()
                    &&& all_met(
                        types,
                        chain_hits(types, self.scopes@, self.scopes@[s].satisfied_cache@[i].0, true, s + 1),
                        self.scopes@[s].satisfied_cache@[i].1@,
                    )
                } by {
                    assert(s < before.len());
                    assert(self.scopes@[s] == before[s]);
                    lemma_chain_hits_prefix(types, before, fresh, self.scopes@[s].satisfied_cache@[i].0, true, s + 1);
                    assert(self.scopes@ == before.push(fresh));
                }
            }
        }
    }

    /// Closes the innermost scope.
    pub fn pop_scope(&mut self) -> (m: TraitMap)
        requires
            old(self).wf(),
            old(self).scopes@.len() > 1,
        ensures
            final(self).wf(),
            final(self).scopes@ == old(self).scopes@.drop_last(),
            m == old(self).current(),
            final(self).scan_count == old(self).scan_count,
            forall|types: Seq<TypeInfo>| old(self).cache_sound(types) ==> #[trigger] final(self).cache_sound(types),
    {
        let ghost before = self.scopes@;
        let m = self.scopes.pop().unwrap();
        proof {
            assert(before == self.scopes@.push(m));
            assert forall|s: int| 0 <= s < self.scopes@.len() implies #[trigger] self.scopes@[s].wf() by {
                assert(self.scopes@[s] == before[s]);
            }
            assert forall|types: Seq<TypeInfo>| old(self).cache_sound(types) implies #[trigger] self.cache_sound(types) by {
                assert forall|s: int, i: int|
                    0 <= s < self.scopes@.len() && 0 <= i < self.scopes@[s].satisfied_cache@.len() implies {
                    &&& #[trigger] self.scopes@[s].satisfied_cache@[i].0 < types.len()
                    &&& all_met(
                        types,
                        chain_hits(types, self.scopes@, self.scopes@[s].satisfied_cache@[i].0, true, s + 1),
                        self.scopes@[s].satisfied_cache@[i].1@,
                    )
                } by {
                    assert(self.scopes@[s] == before[s]);
                    lemma_chain_hits_prefix(types, self.scopes@, m, self.scopes@[s].satisfied_cache@[i].0, true, s + 1);
                }
            }
        }
        m
    }
}

} // verus!
