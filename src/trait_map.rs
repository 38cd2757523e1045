//! The implementation index: impl records sharded by the bucket of their
//! implementing type, merging of indexes, and filtering.
use vstd::prelude::*;
use crate::assoc::{assoc_view, has_key, keys_unique, lemma_assoc_dom, lemma_assoc_index, lemma_assoc_insert, lemma_assoc_push, lemma_assoc_update};
use crate::decls::{ResolvedTraitImplItem, Span};
use crate::order::{key_cmp, key_enc, lemma_lex_antisym, lemma_lex_refl, lemma_lex_trans, lex_cmp};
use crate::types::{TypeId, TypeRootFilter};

verus! {

/// A trait bound: trait identifier and its type arguments.
#[derive(Debug)]
pub struct TraitConstraint {
    pub trait_name: String,
    pub type_arguments: Vec<TypeId>,
}

/// A generic slot of an implementing type, with the bounds it must meet.
#[derive(Debug)]
pub struct TypeParameter {
    pub type_id: TypeId,
    pub trait_constraints: Vec<TraitConstraint>,
}

/// A qualified path: namespace prefixes and the final identifier.
#[derive(Debug)]
pub struct CallPath {
    pub prefixes: Vec<String>,
    pub suffix: String,
}

/// A trait as named at an impl site: its path and its type arguments.
#[derive(Debug)]
pub struct TraitName {
    pub prefixes: Vec<String>,
    pub name: String,
    pub args: Vec<TypeId>,
}

#[derive(Debug)]
pub struct TraitKey {
    pub name: TraitName,
    pub type_id: TypeId,
    pub type_id_type_parameters: Vec<TypeParameter>,
    pub trait_decl_span: Option<Span>,
}

/// Items of an impl block by name.
pub type TraitItems = Vec<(String, ResolvedTraitImplItem)>;

#[derive(Debug)]
pub struct TraitValue {
    pub trait_items: TraitItems,
    /// The span of the entire impl block.
    pub impl_span: Span,
}

/// One stored implementation.
#[derive(Debug)]
pub struct TraitEntry {
    pub key: TraitKey,
    pub value: TraitValue,
}

pub open spec fn strs_view(v: Seq<String>) -> Seq<Seq<char>> {
    v.map_values(|s: String| s@)
}

/// What records are ordered and merged by: trait path, trait arguments,
/// implementing type and the handles of its generic slots.
pub type OrdKey = (Seq<Seq<char>>, Seq<char>, Seq<TypeId>, TypeId, Seq<TypeId>);

pub open spec fn param_ids(ps: Seq<TypeParameter>) -> Seq<TypeId> {
    ps.map_values(|p: TypeParameter| p.type_id)
}

pub open spec fn ord_key(k: TraitKey) -> OrdKey {
    (
        strs_view(k.name.prefixes@),
        k.name.name@,
        k.name.args@,
        k.type_id,
        param_ids(k.type_id_type_parameters@),
    )
}

pub open spec fn items_seq(items: Seq<(String, ResolvedTraitImplItem)>) -> Seq<(Seq<char>, ResolvedTraitImplItem)> {
    items.map_values(|p: (String, ResolvedTraitImplItem)| (p.0@, p.1))
}

pub open spec fn items_view(items: Seq<(String, ResolvedTraitImplItem)>) -> Map<Seq<char>, ResolvedTraitImplItem> {
    assoc_view(items_seq(items))
}

pub open spec fn constraints_view(cs: Seq<TraitConstraint>) -> Seq<(Seq<char>, Seq<TypeId>)> {
    cs.map_values(|c: TraitConstraint| (c.trait_name@, c.type_arguments@))
}

/// The bounds on each generic slot of a key.
pub open spec fn param_bounds(ps: Seq<TypeParameter>) -> Seq<Seq<(Seq<char>, Seq<TypeId>)>> {
    ps.map_values(|p: TypeParameter| constraints_view(p.trait_constraints@))
}

/// A record as a value: its key, the bounds on its generic slots, the span
/// of its trait's declaration and of its impl block, and its items.
pub struct EntryView {
    pub key: OrdKey,
    pub param_bounds: Seq<Seq<(Seq<char>, Seq<TypeId>)>>,
    pub trait_decl_span: Option<Span>,
    pub impl_span: Span,
    pub items: Map<Seq<char>, ResolvedTraitImplItem>,
}

pub open spec fn entry_view(e: TraitEntry) -> EntryView {
    EntryView {
        key: ord_key(e.key),
        param_bounds: param_bounds(e.key.type_id_type_parameters@),
        trait_decl_span: e.key.trait_decl_span,
        impl_span: e.value.impl_span,
        items: items_view(e.value.trait_items@),
    }
}

pub open spec fn entries_seq(es: Seq<TraitEntry>) -> Seq<(OrdKey, EntryView)> {
    es.map_values(|e: TraitEntry| (ord_key(e.key), entry_view(e)))
}

/// The records of one bucket, by key.
pub open spec fn bucket_view(es: Seq<TraitEntry>) -> Map<OrdKey, EntryView> {
    assoc_view(entries_seq(es))
}

/// The entries filed under `f`.
pub open spec fn find_bucket(bs: Seq<(TypeRootFilter, Vec<TraitEntry>)>, f: TypeRootFilter) -> Seq<TraitEntry>
    decreases bs.len(),
{
    if bs.len() == 0 {
        Seq::empty()
    } else if bs.last().0 == f {
        bs.last().1@
    } else {
        find_bucket(bs.drop_last(), f)
    }
}

/// Two records with one key merge: the first keeps its key and spans, and
/// its items are joined with the second's, the second winning on a name.
pub open spec fn merge_entry(a: EntryView, b: EntryView) -> EntryView {
    EntryView { items: a.items.union_prefer_right(b.items), ..a }
}

pub open spec fn merge_buckets(a: Map<OrdKey, EntryView>, b: Map<OrdKey, EntryView>) -> Map<OrdKey, EntryView> {
    Map::new(
        |k: OrdKey| a.contains_key(k) || b.contains_key(k),
        |k: OrdKey|
            if a.contains_key(k) && b.contains_key(k) {
                merge_entry(a[k], b[k])
            } else if a.contains_key(k) {
                a[k]
            } else {
                b[k]
            },
    )
}

pub open spec fn merge_one(a: Map<OrdKey, EntryView>, k: OrdKey, v: EntryView) -> Map<OrdKey, EntryView> {
    if a.contains_key(k) {
        a.insert(k, merge_entry(a[k], v))
    } else {
        a.insert(k, v)
    }
}

pub open spec fn entry_wf(e: TraitEntry) -> bool {
    keys_unique(items_seq(e.value.trait_items@))
}

/// The records are in key order.
pub open spec fn sorted(es: Seq<TraitEntry>) -> bool {
    forall|i: int, j: int|
        0 <= i < j < es.len() ==> #[trigger] lex_cmp(key_enc(ord_key(es[i].key)), key_enc(ord_key(es[j].key))) <= 0
}

pub open spec fn bucket_wf(es: Seq<TraitEntry>) -> bool {
    &&& keys_unique(entries_seq(es))
    &&& sorted(es)
    &&& forall|i: int| 0 <= i < es.len() ==> #[trigger] entry_wf(es[i])
}

/// The index of one scope.
#[derive(Debug)]
pub struct TraitMap {
    pub trait_impls: Vec<(TypeRootFilter, Vec<TraitEntry>)>,
    /// Queries `(type, bounds)` already proven satisfied.
    pub satisfied_cache: Vec<(TypeId, Vec<TraitConstraint>)>,
}

impl TraitMap {
    pub open spec fn wf(&self) -> bool {
        &&& keys_unique(self.trait_impls@)
        &&& forall|j: int|
            0 <= j < self.trait_impls@.len() ==> #[trigger] bucket_wf(self.trait_impls@[j].1@)
    }

    /// The records filed under `f`.
    pub open spec fn bucket(&self, f: TypeRootFilter) -> Map<OrdKey, EntryView> {
        bucket_view(find_bucket(self.trait_impls@, f))
    }

    pub fn new() -> (r: TraitMap)
        ensures
            r.wf(),
            forall|f: TypeRootFilter| #[trigger] r.bucket(f) == Map::<OrdKey, EntryView>::empty(),
            r.satisfied_cache@.len() == 0,
    {
        let r = TraitMap { trait_impls: Vec::new(), satisfied_cache: Vec::new() };
        assert forall|f: TypeRootFilter| #[trigger] r.bucket(f) == Map::<OrdKey, EntryView>::empty() by {
            assert(entries_seq(Seq::<TraitEntry>::empty()) =~= Seq::empty());
        }
        r
    }
}


pub(crate) fn strings_eq(a: &Vec<String>, b: &Vec<String>) -> (r: bool)
    ensures
        r == (strs_view(a@) == strs_view(b@)),
{
    if a.len() != b.len() {
        assert(strs_view(a@).len() != strs_view(b@).len());
        return false;
    }
    let mut i: usize = 0;
    while i < a.len()
        invariant
            a@.len() == b@.len(),
            i <= a@.len(),
            forall|k: int| 0 <= k < i ==> a@[k]@ == b@[k]@,
        decreases a@.len() - i,
    {
        if a[i] != b[i] {
            assert(strs_view(a@)[i as int] != strs_view(b@)[i as int]);
            return false;
        }
        i += 1;
    }
    assert(strs_view(a@) =~= strs_view(b@));
    true
}

pub(crate) fn ids_eq(a: &Vec<TypeId>, b: &Vec<TypeId>) -> (r: bool)
    ensures
        r == (a@ == b@),
{
    if a.len() != b.len() {
        return false;
    }
    let mut i: usize = 0;
    while i < a.len()
        invariant
            a@.len() == b@.len(),
            i <= a@.len(),
            forall|k: int| 0 <= k < i ==> a@[k] == b@[k],
        decreases a@.len() - i,
    {
        if a[i] != b[i] {
            return false;
        }
        i += 1;
    }
    assert(a@ =~= b@);
    true
}

fn params_eq(a: &Vec<TypeParameter>, b: &Vec<TypeParameter>) -> (r: bool)
    ensures
        r == (param_ids(a@) == param_ids(b@)),
{
    if a.len() != b.len() {
        assert(param_ids(a@).len() != param_ids(b@).len());
        return false;
    }
    let mut i: usize = 0;
    while i < a.len()
        invariant
            a@.len() == b@.len(),
            i <= a@.len(),
            forall|k: int| 0 <= k < i ==> a@[k].type_id == b@[k].type_id,
        decreases a@.len() - i,
    {
        if a[i].type_id != b[i].type_id {
            assert(param_ids(a@)[i as int] != param_ids(b@)[i as int]);
            return false;
        }
        i += 1;
    }
    assert(param_ids(a@) =~= param_ids(b@));
    true
}

/// Whether two trait names denote the same trait with the same arguments.
pub fn trait_names_eq(a: &TraitName, b: &TraitName) -> (r: bool)
    ensures
        r == (strs_view(a.prefixes@) == strs_view(b.prefixes@) && a.name@ == b.name@ && a.args@
            == b.args@),
{
    strings_eq(&a.prefixes, &b.prefixes) && a.name == b.name && ids_eq(&a.args, &b.args)
}

fn keys_eq(a: &TraitKey, b: &TraitKey) -> (r: bool)
    ensures
        r == (ord_key(*a) == ord_key(*b)),
{
    trait_names_eq(&a.name, &b.name) && a.type_id == b.type_id && params_eq(
        &a.type_id_type_parameters,
        &b.type_id_type_parameters,
    )
}

/// Joins `other` into `items`, an item of `other` replacing one of the same name.
fn extend_items(items: &mut TraitItems, other: TraitItems)
    requires
        keys_unique(items_seq(old(items)@)),
    ensures
        keys_unique(items_seq(final(items)@)),
        items_view(final(items)@) == items_view(old(items)@).union_prefer_right(items_view(other@)),
{
    let ghost os = items_seq(other@);
    let mut i: usize = 0;
    while i < other.len()
        invariant
            os == items_seq(other@),
            i <= other@.len(),
            keys_unique(items_seq(items@)),
            items_view(items@) == items_view(old(items)@).union_prefer_right(
                assoc_view(os.take(i as int)),
            ),
        decreases other@.len() - i,
    {
        let ghost before = items_seq(items@);
        let name = other[i].0.clone();
        let item = other[i].1;
        let mut j: usize = 0;
        while j < items.len() && items[j].0 != name
            invariant
                before == items_seq(items@),
                j <= items@.len(),
                forall|k: int| 0 <= k < j ==> items@[k].0@ != name@,
            decreases items@.len() - j,
        {
            j += 1;
        }
        let found = j < items.len();
        proof {
            assert(os.take(i as int + 1).drop_last() =~= os.take(i as int));
            assert(os[i as int] == (name@, item));
        }
        if found {
            proof {
                assert(before[j as int].0 == name@);
                lemma_assoc_update(before, j as int, item);
            }
            items.set(j, (name, item));
            proof {
                assert(items_seq(items@) =~= before.update(j as int, (before[j as int].0, item)));
            }
        } else {
            proof {
                assert(!has_key(before, name@)) by {
                    if has_key(before, name@) {
                        let k = choose|k: int| 0 <= k < before.len() && before[k].0 == name@;
                        assert(items@[k].0@ == name@);
                    }
                }
                lemma_assoc_push(before, (name@, item));
            }
            items.push((name, item));
            proof {
                assert(items_seq(items@) =~= before.push((name@, item)));
            }
        }
        proof {
            assert(items_view(items@) =~= items_view(old(items)@).union_prefer_right(
                assoc_view(os.take(i as int + 1)),
            ));
        }
        i += 1;
    }
    proof {
        assert(os.take(other@.len() as int) =~= os);
    }
}


pub proof fn lemma_find_bucket_index(bs: Seq<(TypeRootFilter, Vec<TraitEntry>)>, j: int)
    requires
        keys_unique(bs),
        0 <= j < bs.len(),
    ensures
        find_bucket(bs, bs[j].0) == bs[j].1@,
    decreases bs.len(),
{
    if j < bs.len() - 1 {
        assert(bs.drop_last()[j] == bs[j]);
        lemma_find_bucket_index(bs.drop_last(), j);
    }
}

pub proof fn lemma_find_bucket_absent(bs: Seq<(TypeRootFilter, Vec<TraitEntry>)>, f: TypeRootFilter)
    requires
        !has_key(bs, f),
    ensures
        find_bucket(bs, f) == Seq::<TraitEntry>::empty(),
    decreases bs.len(),
{
    if bs.len() > 0 {
        assert(!has_key(bs.drop_last(), f)) by {
            if has_key(bs.drop_last(), f) {
                let i = choose|i: int| 0 <= i < bs.drop_last().len() && bs.drop_last()[i].0 == f;
                assert(bs[i].0 == f);
            }
        }
        assert(bs[bs.len() - 1].0 != f);
        lemma_find_bucket_absent(bs.drop_last(), f);
    }
}

proof fn lemma_find_bucket_update(
    bs: Seq<(TypeRootFilter, Vec<TraitEntry>)>,
    j: int,
    x: Vec<TraitEntry>,
    g: TypeRootFilter,
)
    requires
        0 <= j < bs.len(),
        bs[j].0 != g,
    ensures
        find_bucket(bs.update(j, (bs[j].0, x)), g) == find_bucket(bs, g),
    decreases bs.len(),
{
    let t = bs.update(j, (bs[j].0, x));
    if j < bs.len() - 1 {
        assert(t.drop_last() =~= bs.drop_last().update(j, (bs[j].0, x)));
        assert(bs.drop_last()[j] == bs[j]);
        lemma_find_bucket_update(bs.drop_last(), j, x, g);
    } else {
        assert(t.drop_last() =~= bs.drop_last());
    }
}

proof fn lemma_bucket_view_empty()
    ensures
        bucket_view(Seq::<TraitEntry>::empty()) == Map::<OrdKey, EntryView>::empty(),
{
    assert(entries_seq(Seq::<TraitEntry>::empty()) =~= Seq::empty());
}

proof fn lemma_bucket_view_pop(es: Seq<TraitEntry>)
    requires
        es.len() > 0,
        keys_unique(entries_seq(es)),
    ensures
        bucket_view(es) == bucket_view(es.drop_last()).insert(
            ord_key(es.last().key),
            entry_view(es.last()),
        ),
        !bucket_view(es.drop_last()).contains_key(ord_key(es.last().key)),
        keys_unique(entries_seq(es.drop_last())),
{
    let s = entries_seq(es);
    assert(entries_seq(es.drop_last()) =~= s.drop_last());
    lemma_assoc_dom(s.drop_last(), ord_key(es.last().key));
    if has_key(s.drop_last(), ord_key(es.last().key)) {
        let i = choose|i: int| 0 <= i < s.drop_last().len() && s.drop_last()[i].0 == ord_key(es.last().key);
        assert(s[i].0 == s[s.len() - 1].0);
    }
}

proof fn lemma_merge_empty(a: Map<OrdKey, EntryView>)
    ensures
        merge_buckets(a, Map::empty()) == a,
{
    assert(merge_buckets(a, Map::empty()) =~= a);
}

proof fn lemma_merge_one(
    a: Map<OrdKey, EntryView>,
    r: Map<OrdKey, EntryView>,
    k: OrdKey,
    v: EntryView,
)
    requires
        !r.contains_key(k),
    ensures
        merge_buckets(merge_one(a, k, v), r) == merge_buckets(a, r.insert(k, v)),
{
    assert(merge_buckets(merge_one(a, k, v), r) =~= merge_buckets(a, r.insert(k, v)));
}

/// Files `e` into a bucket: merged into the record of the same key, or
/// inserted before the first record that orders after it.
fn merge_entry_into(es: &mut Vec<TraitEntry>, e: TraitEntry)
    requires
        bucket_wf(old(es)@),
        entry_wf(e),
    ensures
        bucket_wf(final(es)@),
        bucket_view(final(es)@) == merge_one(bucket_view(old(es)@), ord_key(e.key), entry_view(e)),
{
    let ghost s = entries_seq(es@);
    let mut j: usize = 0;
    while j < es.len() && !keys_eq(&es[j].key, &e.key)
        invariant
            j <= es@.len(),
            forall|k: int| 0 <= k < j ==> ord_key(es@[k].key) != ord_key(e.key),
        decreases es@.len() - j,
    {
        j += 1;
    }
    if j < es.len() {
        proof {
            assert(entry_wf(old(es)@[j as int]));
        }
        let mut ent = es.remove(j);
        let ghost old_ent = ent;
        let TraitEntry { key: ekey, value: evalue } = e;
        extend_items(&mut ent.value.trait_items, evalue.trait_items);
        es.insert(j, ent);
        proof {
            lemma_assoc_index(s, j as int);
            assert(entry_view(ent) == merge_entry(entry_view(old_ent), entry_view(e)));
            assert(entries_seq(es@) =~= s.update(j as int, (s[j as int].0, entry_view(ent))));
            lemma_assoc_update(s, j as int, entry_view(ent));
            assert forall|i: int| 0 <= i < es@.len() implies #[trigger] entry_wf(es@[i]) by {
                if i != j {
                    assert(es@[i] == old(es)@[i]);
                }
            }
            assert forall|i: int| 0 <= i < es@.len() implies ord_key(#[trigger] es@[i].key) == ord_key(old(es)@[i].key) by {
                if i != j {
                    assert(es@[i] == old(es)@[i]);
                }
            }
            assert(sorted(es@)) by {
                assert forall|a: int, b: int| 0 <= a < b < es@.len() implies #[trigger] lex_cmp(
                    key_enc(ord_key(es@[a].key)),
                    key_enc(ord_key(es@[b].key)),
                ) <= 0 by {
                    assert(ord_key(es@[a].key) == ord_key(old(es)@[a].key));
                    assert(ord_key(es@[b].key) == ord_key(old(es)@[b].key));
                }
            }
        }
    } else {
        let mut pos: usize = 0;
        while pos < es.len() && key_cmp(&es[pos].key, &e.key) <= 0
            invariant
                pos <= es@.len(),
                forall|q: int| 0 <= q < pos ==> lex_cmp(key_enc(ord_key(#[trigger] es@[q].key)), key_enc(ord_key(e.key))) <= 0,
            decreases es@.len() - pos,
        {
            pos += 1;
        }
        let ghost ke = key_enc(ord_key(e.key));
        proof {
            if pos < es@.len() {
                lemma_lex_antisym(key_enc(ord_key(es@[pos as int].key)), ke);
            }
        }
        proof {
            lemma_assoc_dom(s, ord_key(e.key));
            if has_key(s, ord_key(e.key)) {
                let k = choose|k: int| 0 <= k < s.len() && s[k].0 == ord_key(e.key);
                assert(ord_key(es@[k].key) == ord_key(e.key));
            }
            lemma_assoc_insert(s, pos as int, (ord_key(e.key), entry_view(e)));
        }
        es.insert(pos, e);
        proof {
            assert(entries_seq(es@) =~= s.insert(pos as int, (ord_key(e.key), entry_view(e))));
            assert forall|i: int| 0 <= i < es@.len() implies #[trigger] entry_wf(es@[i]) by {
                if i < pos {
                    assert(es@[i] == old(es)@[i]);
                } else if i > pos {
                    assert(es@[i] == old(es)@[i - 1]);
                }
            }
            let o = old(es)@;
            let t = es@;
            assert forall|i: int, j: int| 0 <= i < j < t.len() implies #[trigger] lex_cmp(
                key_enc(ord_key(t[i].key)),
                key_enc(ord_key(t[j].key)),
            ) <= 0 by {
                let ki = key_enc(ord_key(t[i].key));
                let kj = key_enc(ord_key(t[j].key));
                if j < pos {
                    assert(t[i] == o[i] && t[j] == o[j]);
                } else if j == pos {
                    assert(t[i] == o[i]);
                } else if i > pos {
                    assert(t[i] == o[i - 1] && t[j] == o[j - 1]);
                } else if i == pos {
                    assert(t[j] == o[j - 1]);
                    let kp = key_enc(ord_key(o[pos as int].key));
                    if j - 1 > pos {
                        assert(lex_cmp(kp, key_enc(ord_key(o[j - 1].key))) <= 0);
                    }
                    lemma_lex_refl(kp);
                    lemma_lex_trans(ke, kp, kj);
                } else {
                    assert(t[i] == o[i] && t[j] == o[j - 1]);
                    lemma_lex_trans(ki, ke, key_enc(ord_key(o[pos as int].key)));
                    lemma_lex_refl(key_enc(ord_key(o[pos as int].key)));
                    if j - 1 > pos {
                        assert(lex_cmp(key_enc(ord_key(o[pos as int].key)), kj) <= 0);
                    }
                    lemma_lex_trans(ki, key_enc(ord_key(o[pos as int].key)), kj);
                }
            }
        }
    }
}

impl TraitMap {
    /// The position of the bucket `f`, created empty if missing.
    pub(crate) fn get_impls_mut(&mut self, f: TypeRootFilter) -> (j: usize)
        requires
            old(self).wf(),
        ensures
            final(self).wf(),
            j < final(self).trait_impls@.len(),
            final(self).trait_impls@[j as int].0 == f,
            forall|g: TypeRootFilter| #[trigger] final(self).bucket(g) == old(self).bucket(g),
            final(self).satisfied_cache@ == old(self).satisfied_cache@,
    {
        let mut j: usize = 0;
        while j < self.trait_impls.len() && self.trait_impls[j].0 != f
            invariant
                j <= self.trait_impls@.len(),
                forall|k: int| 0 <= k < j ==> self.trait_impls@[k].0 != f,
            decreases self.trait_impls@.len() - j,
        {
            j += 1;
        }
        if j == self.trait_impls.len() {
            let ghost bs = self.trait_impls@;
            proof {
                lemma_find_bucket_absent(bs, f);
                lemma_bucket_view_empty();
            }
            self.trait_impls.push((f, Vec::new()));
            proof {
                assert(self.trait_impls@.drop_last() =~= bs);
                assert(keys_unique(self.trait_impls@));
                assert forall|k: int| 0 <= k < self.trait_impls@.len() implies #[trigger] bucket_wf(
                    self.trait_impls@[k].1@,
                ) by {
                    if k < bs.len() {
                        assert(self.trait_impls@[k] == bs[k]);
                    } else {
                        assert(entries_seq(self.trait_impls@[k].1@) =~= Seq::empty());
                    }
                }
            }
        }
        j
    }

    /// Files one record into bucket `j`.
    pub(crate) fn merge_entry_at(&mut self, j: usize, e: TraitEntry)
        requires
            old(self).wf(),
            j < old(self).trait_impls@.len(),
            entry_wf(e),
        ensures
            final(self).wf(),
            final(self).trait_impls@.len() == old(self).trait_impls@.len(),
            final(self).trait_impls@[j as int].0 == old(self).trait_impls@[j as int].0,
            final(self).bucket(old(self).trait_impls@[j as int].0) == merge_one(
                old(self).bucket(old(self).trait_impls@[j as int].0),
                ord_key(e.key),
                entry_view(e),
            ),
            forall|g: TypeRootFilter|
                g != old(self).trait_impls@[j as int].0 ==> #[trigger] final(self).bucket(g)
                    == old(self).bucket(g),
            final(self).satisfied_cache@ == old(self).satisfied_cache@,
    {
        let ghost bs = self.trait_impls@;
        let (f, mut bucket) = self.trait_impls.remove(j);
        merge_entry_into(&mut bucket, e);
        self.trait_impls.insert(j, (f, bucket));
        proof {
            let t = self.trait_impls@;
            assert(t =~= bs.update(j as int, (f, bucket)));
            assert(keys_unique(t)) by {
                assert forall|a: int, b: int|
                    0 <= a < t.len() && 0 <= b < t.len() && a != b implies t[a].0 != t[b].0 by {
                    assert(t[a].0 == bs[a].0);
                    assert(t[b].0 == bs[b].0);
                }
            }
            lemma_find_bucket_index(bs, j as int);
            lemma_find_bucket_index(t, j as int);
            assert forall|g: TypeRootFilter| g != f implies #[trigger] self.bucket(g) == old(self).bucket(g) by {
                lemma_find_bucket_update(bs, j as int, bucket, g);
            }
            assert forall|k: int| 0 <= k < t.len() implies #[trigger] bucket_wf(t[k].1@) by {
                if k != j {
                    assert(t[k] == bs[k]);
                }
            }
        }
    }

    /// Joins `other` into `self`: a record whose key is already present has
    /// its items joined (the incoming item wins on a name), any other record
    /// is filed at its sorted position. No coherence check is made here.
    pub fn extend(&mut self, other: TraitMap)
        requires
            old(self).wf(),
            other.wf(),
        ensures
            final(self).wf(),
            forall|f: TypeRootFilter| #[trigger] final(self).bucket(f) == merge_buckets(
                old(self).bucket(f),
                other.bucket(f),
            ),
            final(self).satisfied_cache@ == old(self).satisfied_cache@,
    {
        let ghost other_map = other;
        let mut obs = other.trait_impls;
        while obs.len() > 0
            invariant
                self.wf(),
                keys_unique(obs@),
                forall|k: int| 0 <= k < obs@.len() ==> #[trigger] bucket_wf(obs@[k].1@),
                forall|g: TypeRootFilter| #[trigger] merge_buckets(self.bucket(g), bucket_view(find_bucket(obs@, g)))
                    == merge_buckets(old(self).bucket(g), other_map.bucket(g)),
                self.satisfied_cache@ == old(self).satisfied_cache@,
            decreases obs@.len(),
        {
            let ghost obs0 = obs@;
            let (f, mut es) = obs.pop().unwrap();
            proof {
                assert(obs@ =~= obs0.drop_last());
                assert(bucket_wf(obs0[obs0.len() - 1].1@));
                assert(!has_key(obs@, f)) by {
                    if has_key(obs@, f) {
                        let i = choose|i: int| 0 <= i < obs@.len() && obs@[i].0 == f;
                        assert(obs0[i].0 == obs0[obs0.len() - 1].0);
                    }
                }
                lemma_find_bucket_absent(obs@, f);
                lemma_bucket_view_empty();
                assert(keys_unique(obs@));
                assert forall|k: int| 0 <= k < obs@.len() implies #[trigger] bucket_wf(obs@[k].1@) by {
                    assert(obs@[k] == obs0[k]);
                }
            }
            let j = self.get_impls_mut(f);
            let ghost start = *self;
            let ghost es0 = es@;
            while es.len() > 0
                invariant
                    self.wf(),
                    j < self.trait_impls@.len(),
                    self.trait_impls@[j as int].0 == f,
                    bucket_wf(es@),
                    merge_buckets(self.bucket(f), bucket_view(es@)) == merge_buckets(
                        start.bucket(f),
                        bucket_view(es0),
                    ),
                    forall|g: TypeRootFilter| g != f ==> #[trigger] self.bucket(g) == start.bucket(g),
                    self.satisfied_cache@ == old(self).satisfied_cache@,
                decreases es@.len(),
            {
                let ghost es1 = es@;
                let e = es.pop().unwrap();
                proof {
                    assert(es@ =~= es1.drop_last());
                    lemma_bucket_view_pop(es1);
                    assert(entry_wf(es1[es1.len() - 1]));
                    assert forall|i: int| 0 <= i < es@.len() implies #[trigger] entry_wf(es@[i]) by {
                        assert(es@[i] == es1[i]);
                    }
                    lemma_merge_one(self.bucket(f), bucket_view(es@), ord_key(e.key), entry_view(e));
                }
                self.merge_entry_at(j, e);
            }
            proof {
                lemma_bucket_view_empty();
                lemma_merge_empty(self.bucket(f));
                lemma_merge_empty(self.bucket(f));
                assert forall|g: TypeRootFilter| #[trigger] merge_buckets(
                    self.bucket(g),
                    bucket_view(find_bucket(obs@, g)),
                ) == merge_buckets(old(self).bucket(g), other_map.bucket(g)) by {
                    assert(find_bucket(obs0, g) == if g == f { es0 } else { find_bucket(obs@, g) });
                }
            }
        }
        proof {
            lemma_bucket_view_empty();
            assert forall|g: TypeRootFilter| #[trigger] self.bucket(g) == merge_buckets(
                old(self).bucket(g),
                other_map.bucket(g),
            ) by {
                assert(find_bucket(obs@, g) == Seq::<TraitEntry>::empty());
                lemma_merge_empty(self.bucket(g));
            }
        }
    }
}

} // verus!
