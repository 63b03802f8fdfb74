//! A mathematical map view for association lists: vectors of
//! `(String, value)` pairs with pairwise distinct keys.

use vstd::prelude::*;

verus! {

/// The map that an association list denotes. A later pair with the same key
/// overwrites an earlier one.
pub open spec fn kv_map<V: View>(s: Seq<(String, V)>) -> Map<Seq<char>, V::V>
    decreases s.len(),
{
    if s.len() == 0 {
        Map::empty()
    } else {
        kv_map(s.drop_last()).insert(s.last().0@, s.last().1@)
    }
}

/// Whether the keys of an association list are pairwise distinct.
pub open spec fn distinct_keys<V>(s: Seq<(String, V)>) -> bool {
    forall|i: int, j: int| 0 <= i < j < s.len() ==> s[i].0@ != s[j].0@
}

/// A key is in the map exactly when some pair of the list holds it.
pub proof fn lemma_kv_map_contains<V: View>(s: Seq<(String, V)>, k: Seq<char>)
    ensures
        kv_map(s).contains_key(k) <==> exists|i: int| 0 <= i < s.len() && s[i].0@ == k,
    decreases s.len(),
{
    if s.len() > 0 {
        lemma_kv_map_contains(s.drop_last(), k);
        let head = s.drop_last();
        if kv_map(s).contains_key(k) {
            if s.last().0@ != k {
                let i = choose|i: int| 0 <= i < head.len() && head[i].0@ == k;
                assert(s[i].0@ == k);
            } else {
                assert(s[s.len() - 1].0@ == k);
            }
        }
        if exists|i: int| 0 <= i < s.len() && s[i].0@ == k {
            let i = choose|i: int| 0 <= i < s.len() && s[i].0@ == k;
            if i < s.len() - 1 {
                assert(head[i].0@ == k);
            }
        }
    }
}

/// With distinct keys, the map sends each pair's key to that pair's value.
pub proof fn lemma_kv_map_index<V: View>(s: Seq<(String, V)>, i: int)
    requires
        distinct_keys(s),
        0 <= i < s.len(),
    ensures
        kv_map(s).contains_key(s[i].0@),
        kv_map(s)[s[i].0@] == s[i].1@,
    decreases s.len(),
{
    let head = s.drop_last();
    if i < s.len() - 1 {
        lemma_kv_map_index(head, i);
        assert(s[i].0@ != s.last().0@);
    }
}

/// With distinct keys, dropping the pair at `idx` removes exactly its key
/// from the map.
pub proof fn lemma_kv_map_remove<V: View>(s: Seq<(String, V)>, idx: int)
    requires
        distinct_keys(s),
        0 <= idx < s.len(),
    ensures
        kv_map(s.remove(idx)) == kv_map(s).remove(s[idx].0@),
        distinct_keys(s.remove(idx)),
    decreases s.len(),
{
    let head = s.drop_last();
    let k = s[idx].0@;
    if idx == s.len() - 1 {
        assert(s.remove(idx) =~= head);
        lemma_kv_map_contains(head, k);
        assert(kv_map(head) =~= kv_map(head).insert(k, s.last().1@).remove(k));
    } else {
        lemma_kv_map_remove(head, idx);
        assert(s.remove(idx).drop_last() =~= head.remove(idx));
        assert(s.remove(idx).last() == s.last());
        assert(k != s.last().0@);
        assert(kv_map(head).remove(k).insert(s.last().0@, s.last().1@) =~= kv_map(head).insert(
            s.last().0@,
            s.last().1@,
        ).remove(k));
    }
}

/// With distinct keys, the map has as many entries as the list has pairs.
pub proof fn lemma_kv_map_len<V: View>(s: Seq<(String, V)>)
    requires
        distinct_keys(s),
    ensures
        kv_map(s).dom().finite(),
        kv_map(s).len() == s.len(),
    decreases s.len(),
{
    if s.len() == 0 {
        assert(kv_map(s).dom() =~= Set::<Seq<char>>::empty());
    } else {
        let head = s.drop_last();
        lemma_kv_map_len(head);
        lemma_kv_map_contains(head, s.last().0@);
        assert(!kv_map(head).contains_key(s.last().0@));
        assert(kv_map(s).dom() =~= kv_map(head).dom().insert(s.last().0@));
        vstd::set::axiom_set_insert_len(kv_map(head).dom(), s.last().0@);
    }
}

} // verus!
