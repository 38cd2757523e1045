//! Association lists: sequences of key/value pairs read as maps, the later
//! pair winning on a repeated key.
use vstd::prelude::*;

verus! {

/// The map that an association list stands for.
pub open spec fn assoc_view<K, V>(s: Seq<(K, V)>) -> Map<K, V>
    decreases s.len(),
{
    if s.len() == 0 {
        Map::empty()
    } else {
        assoc_view(s.drop_last()).insert(s.last().0, s.last().1)
    }
}

pub open spec fn keys_unique<K, V>(s: Seq<(K, V)>) -> bool {
    forall|i: int, j: int| 0 <= i < s.len() && 0 <= j < s.len() && i != j ==> s[i].0 != s[j].0
}

pub open spec fn has_key<K, V>(s: Seq<(K, V)>, k: K) -> bool {
    exists|i: int| 0 <= i < s.len() && s[i].0 == k
}

pub proof fn lemma_assoc_dom<K, V>(s: Seq<(K, V)>, k: K)
    ensures
        assoc_view(s).contains_key(k) == has_key(s, k),
    decreases s.len(),
{
    if s.len() > 0 {
        lemma_assoc_dom(s.drop_last(), k);
        if has_key(s.drop_last(), k) {
            let i = choose|i: int| 0 <= i < s.drop_last().len() && s.drop_last()[i].0 == k;
            assert(s[i].0 == k);
        }
        if has_key(s, k) && s.last().0 != k {
            let i = choose|i: int| 0 <= i < s.len() && s[i].0 == k;
            assert(s.drop_last()[i].0 == k);
        }
    }
}

pub proof fn lemma_assoc_index<K, V>(s: Seq<(K, V)>, i: int)
    requires
        keys_unique(s),
        0 <= i < s.len(),
    ensures
        assoc_view(s).contains_key(s[i].0),
        assoc_view(s)[s[i].0] == s[i].1,
    decreases s.len(),
{
    if i < s.len() - 1 {
        assert(s.drop_last()[i] == s[i]);
        lemma_assoc_index(s.drop_last(), i);
    }
}

pub proof fn lemma_assoc_update<K, V>(s: Seq<(K, V)>, j: int, v: V)
    requires
        keys_unique(s),
        0 <= j < s.len(),
    ensures
        assoc_view(s.update(j, (s[j].0, v))) == assoc_view(s).insert(s[j].0, v),
        keys_unique(s.update(j, (s[j].0, v))),
    decreases s.len(),
{
    let t = s.update(j, (s[j].0, v));
    if j == s.len() - 1 {
        assert(t.drop_last() =~= s.drop_last());
        assert(assoc_view(t) =~= assoc_view(s).insert(s[j].0, v));
    } else {
        assert(t.drop_last() =~= s.drop_last().update(j, (s[j].0, v)));
        lemma_assoc_update(s.drop_last(), j, v);
        assert(s.last().0 != s[j].0);
        assert(assoc_view(t) =~= assoc_view(s).insert(s[j].0, v));
    }
}

pub proof fn lemma_assoc_insert<K, V>(s: Seq<(K, V)>, pos: int, kv: (K, V))
    requires
        keys_unique(s),
        !has_key(s, kv.0),
        0 <= pos <= s.len(),
    ensures
        assoc_view(s.insert(pos, kv)) == assoc_view(s).insert(kv.0, kv.1),
        keys_unique(s.insert(pos, kv)),
    decreases s.len(),
{
    let t = s.insert(pos, kv);
    assert forall|i: int, j: int| 0 <= i < t.len() && 0 <= j < t.len() && i != j implies t[i].0
        != t[j].0 by {
        if i == pos {
            assert(s[if j < pos { j } else { j - 1 }].0 == t[j].0);
        } else if j == pos {
            assert(s[if i < pos { i } else { i - 1 }].0 == t[i].0);
        }
    }
    if pos == s.len() {
        assert(t.drop_last() =~= s);
    } else {
        assert(t.drop_last() =~= s.drop_last().insert(pos, kv));
        assert(!has_key(s.drop_last(), kv.0)) by {
            if has_key(s.drop_last(), kv.0) {
                let i = choose|i: int| 0 <= i < s.drop_last().len() && s.drop_last()[i].0 == kv.0;
                assert(s[i].0 == kv.0);
            }
        }
        lemma_assoc_insert(s.drop_last(), pos, kv);
        assert(t.last() == s.last());
        assert(s.last().0 != kv.0);
        assert(assoc_view(t) =~= assoc_view(s).insert(kv.0, kv.1));
    }
}

pub proof fn lemma_assoc_push<K, V>(s: Seq<(K, V)>, kv: (K, V))
    requires
        keys_unique(s),
        !has_key(s, kv.0),
    ensures
        assoc_view(s.push(kv)) == assoc_view(s).insert(kv.0, kv.1),
        keys_unique(s.push(kv)),
{
    assert(s.push(kv) == s.insert(s.len() as int, kv));
    lemma_assoc_insert(s, s.len() as int, kv);
}

} // verus!
