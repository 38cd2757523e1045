//! The order that keeps each bucket sorted: keys are compared by a flat
//! encoding of trait path, trait name, trait arguments, implementing type
//! and generic slots, lexicographically.
use vstd::prelude::*;
use crate::trait_map::{ord_key, OrdKey, TraitKey};
use crate::types::TypeId;
use vstd::utf8::encode_utf8;

verus! {

/// Negative, zero or positive as `a` orders before, with or after `b`.
pub open spec fn lex_cmp(a: Seq<int>, b: Seq<int>) -> int
    decreases a.len(),
{
    if a.len() == 0 && b.len() == 0 {
        0
    } else if a.len() == 0 {
        -1
    } else if b.len() == 0 {
        1
    } else if a[0] < b[0] {
        -1
    } else if a[0] > b[0] {
        1
    } else {
        lex_cmp(a.drop_first(), b.drop_first())
    }
}

pub proof fn lemma_lex_antisym(a: Seq<int>, b: Seq<int>)
    ensures
        lex_cmp(a, b) == -lex_cmp(b, a),
        -1 <= lex_cmp(a, b) <= 1,
    decreases a.len(),
{
    if a.len() > 0 && b.len() > 0 && a[0] == b[0] {
        lemma_lex_antisym(a.drop_first(), b.drop_first());
    }
}

pub proof fn lemma_lex_refl(a: Seq<int>)
    ensures
        lex_cmp(a, a) == 0,
    decreases a.len(),
{
    if a.len() > 0 {
        lemma_lex_refl(a.drop_first());
    }
}

pub proof fn lemma_lex_trans(a: Seq<int>, b: Seq<int>, c: Seq<int>)
    requires
        lex_cmp(a, b) <= 0,
        lex_cmp(b, c) <= 0,
    ensures
        lex_cmp(a, c) <= 0,
    decreases a.len(),
{
    if a.len() > 0 && b.len() > 0 && c.len() > 0 && a[0] == b[0] && b[0] == c[0] {
        lemma_lex_trans(a.drop_first(), b.drop_first(), c.drop_first());
    }
}

pub open spec fn enc_bytes(b: Seq<u8>) -> Seq<int> {
    seq![b.len() as int] + b.map_values(|x: u8| x as int)
}

pub open spec fn enc_str(s: Seq<char>) -> Seq<int> {
    enc_bytes(encode_utf8(s))
}

pub open spec fn concat_strs(v: Seq<Seq<char>>) -> Seq<int>
    decreases v.len(),
{
    if v.len() == 0 {
        Seq::empty()
    } else {
        concat_strs(v.drop_last()) + enc_str(v.last())
    }
}

pub open spec fn enc_ids(v: Seq<TypeId>) -> Seq<int> {
    seq![v.len() as int] + v.map_values(|x: TypeId| x as int)
}

/// The flat encoding that keys are ordered by.
pub open spec fn key_enc(k: OrdKey) -> Seq<int> {
    seq![k.0.len() as int] + concat_strs(k.0) + enc_str(k.1) + enc_ids(k.2) + seq![k.3 as int] + enc_ids(k.4)
}

pub open spec fn ints(v: Seq<u64>) -> Seq<int> {
    v.map_values(|x: u64| x as int)
}

fn push_str(out: &mut Vec<u64>, s: &String)
    ensures
        ints(final(out)@) == ints(old(out)@) + enc_str(s@),
{
    let b = s.as_str().as_bytes();
    let ghost start = ints(out@);
    out.push(b.len() as u64);
    let mut i: usize = 0;
    assert(ints(out@) =~= start + seq![b@.len() as int] + b@.take(0).map_values(|x: u8| x as int));
    while i < b.len()
        invariant
            i <= b@.len(),
            ints(out@) == start + seq![b@.len() as int] + b@.take(i as int).map_values(|x: u8| x as int),
        decreases b@.len() - i,
    {
        let ghost prev = out@;
        out.push(b[i] as u64);
        assert(ints(out@) =~= ints(prev).push(b@[i as int] as int));
        assert(b@.take(i as int + 1).map_values(|x: u8| x as int) =~= b@.take(i as int).map_values(|x: u8| x as int).push(
            b@[i as int] as int,
        ));
        i += 1;
    }
    assert(b@.take(b@.len() as int) =~= b@);
    assert(ints(out@) =~= start + enc_str(s@));
}

fn push_ids(out: &mut Vec<u64>, v: &Vec<TypeId>)
    ensures
        ints(final(out)@) == ints(old(out)@) + enc_ids(v@),
{
    let ghost start = ints(out@);
    out.push(v.len() as u64);
    let mut i: usize = 0;
    assert(ints(out@) =~= start + seq![v@.len() as int] + v@.take(0).map_values(|x: TypeId| x as int));
    while i < v.len()
        invariant
            i <= v@.len(),
            ints(out@) == start + seq![v@.len() as int] + v@.take(i as int).map_values(|x: TypeId| x as int),
        decreases v@.len() - i,
    {
        let ghost prev = out@;
        out.push(v[i] as u64);
        assert(ints(out@) =~= ints(prev).push(v@[i as int] as int));
        assert(v@.take(i as int + 1).map_values(|x: TypeId| x as int) =~= v@.take(i as int).map_values(|x: TypeId| x as int).push(
            v@[i as int] as int,
        ));
        i += 1;
    }
    assert(v@.take(v@.len() as int) =~= v@);
    assert(ints(out@) =~= start + enc_ids(v@));
}

/// The encoding of a key.
fn key_encoding(k: &TraitKey) -> (r: Vec<u64>)
    ensures
        ints(r@) == key_enc(ord_key(*k)),
{
    let mut out: Vec<u64> = Vec::new();
    let pre = &k.name.prefixes;
    let ghost sv = crate::trait_map::strs_view(pre@);
    out.push(pre.len() as u64);
    let mut i: usize = 0;
    assert(ints(out@) =~= seq![sv.len() as int] + concat_strs(sv.take(0)));
    while i < pre.len()
        invariant
            i <= pre@.len(),
            sv == crate::trait_map::strs_view(pre@),
            ints(out@) == seq![sv.len() as int] + concat_strs(sv.take(i as int)),
        decreases pre@.len() - i,
    {
        push_str(&mut out, &pre[i]);
        assert(sv.take(i as int + 1).drop_last() =~= sv.take(i as int));
        assert(sv.take(i as int + 1).last() == pre@[i as int]@);
        i += 1;
        assert(ints(out@) =~= seq![sv.len() as int] + concat_strs(sv.take(i as int)));
    }
    assert(sv.take(sv.len() as int) =~= sv);
    push_str(&mut out, &k.name.name);
    push_ids(&mut out, &k.name.args);
    let ghost before = ints(out@);
    out.push(k.type_id as u64);
    assert(ints(out@) =~= before + seq![k.type_id as int]);
    let ps = &k.type_id_type_parameters;
    let mut ids: Vec<TypeId> = Vec::new();
    let mut j: usize = 0;
    while j < ps.len()
        invariant
            j <= ps@.len(),
            ids@ == crate::trait_map::param_ids(ps@).take(j as int),
        decreases ps@.len() - j,
    {
        ids.push(ps[j].type_id);
        j += 1;
        assert(ids@ =~= crate::trait_map::param_ids(ps@).take(j as int));
    }
    assert(crate::trait_map::param_ids(ps@).take(ps@.len() as int) =~= crate::trait_map::param_ids(ps@));
    push_ids(&mut out, &ids);
    assert(ints(out@) =~= key_enc(ord_key(*k)));
    out
}

fn lex_cmp_exec(a: &Vec<u64>, b: &Vec<u64>) -> (r: i8)
    ensures
        r as int == lex_cmp(ints(a@), ints(b@)),
{
    let mut i: usize = 0;
    assert(ints(a@).skip(0) =~= ints(a@));
    assert(ints(b@).skip(0) =~= ints(b@));
    while i < a.len() && i < b.len() && a[i] == b[i]
        invariant
            i <= a@.len(),
            i <= b@.len(),
            lex_cmp(ints(a@), ints(b@)) == lex_cmp(ints(a@).skip(i as int), ints(b@).skip(i as int)),
        decreases a@.len() - i,
    {
        assert(ints(a@).skip(i as int).drop_first() =~= ints(a@).skip(i as int + 1));
        assert(ints(b@).skip(i as int).drop_first() =~= ints(b@).skip(i as int + 1));
        i += 1;
    }
    if i == a.len() && i == b.len() {
        0
    } else if i == a.len() {
        -1
    } else if i == b.len() {
        1
    } else if a[i] < b[i] {
        -1
    } else {
        1
    }
}

/// Compares two keys in bucket order.
pub fn key_cmp(a: &TraitKey, b: &TraitKey) -> (r: i8)
    ensures
        r as int == lex_cmp(key_enc(ord_key(*a)), key_enc(ord_key(*b))),
{
    let x = key_encoding(a);
    let y = key_encoding(b);
    lex_cmp_exec(&x, &y)
}

} // verus!
