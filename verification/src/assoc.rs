//! String-keyed association sequences and the mappings they stand for.
//!
//! The store and the registry both hold their entries as vectors of
//! `(String, value)` pairs with pairwise-distinct keys; their contracts
//! speak of the finite `Map` such a sequence denotes.

use vstd::prelude::*;

verus! {

/// The mapping an entry sequence stands for, later entries overriding
/// earlier ones.
pub open spec fn map_of<V: View>(s: Seq<(String, V)>) -> Map<Seq<char>, V::V>
    decreases s,
{
    if s.len() == 0 {
        Map::empty()
    } else {
        map_of(s.drop_last()).insert(s.last().0@, s.last().1@)
    }
}

/// No two entries share a key.
pub open spec fn unique_keys<V>(s: Seq<(String, V)>) -> bool {
    forall|i: int, j: int| 0 <= i < j < s.len() ==> s[i].0@ != s[j].0@
}

/// A key is in the mapping exactly when some entry holds it.
pub proof fn lemma_map_of_contains<V: View>(s: Seq<(String, V)>, k: Seq<char>)
    ensures
        map_of(s).dom().contains(k) <==> exists|i: int| 0 <= i < s.len() && s[i].0@ == k,
    decreases s.len(),
{
    if s.len() > 0 {
        lemma_map_of_contains(s.drop_last(), k);
        if s.last().0@ != k && map_of(s).dom().contains(k) {
            let i = choose|i: int| 0 <= i < s.drop_last().len() && s.drop_last()[i].0@ == k;
            assert(s[i].0@ == k);
        }
        if exists|i: int| 0 <= i < s.len() && s[i].0@ == k && s.last().0@ != k {
            let i = choose|i: int| 0 <= i < s.len() && s[i].0@ == k;
            if i < s.len() - 1 {
                assert(s.drop_last()[i].0@ == k);
            }
        }
    }
}

/// With unique keys, each entry is the one the mapping returns for its key.
pub proof fn lemma_map_of_index<V: View>(s: Seq<(String, V)>, i: int)
    requires
        unique_keys(s),
        0 <= i < s.len(),
    ensures
        map_of(s).dom().contains(s[i].0@),
        map_of(s)[s[i].0@] == s[i].1@,
    decreases s.len(),
{
    lemma_map_of_contains(s, s[i].0@);
    if i < s.len() - 1 {
        assert(s.drop_last()[i] == s[i]);
        lemma_map_of_index(s.drop_last(), i);
        assert(s.last().0@ != s[i].0@);
    }
}

/// With unique keys, the mapping has exactly one key per entry.
pub proof fn lemma_map_of_len<V: View>(s: Seq<(String, V)>)
    requires
        unique_keys(s),
    ensures
        map_of(s).dom().finite(),
        map_of(s).dom().len() == s.len(),
    decreases s.len(),
{
    if s.len() > 0 {
        lemma_map_of_len(s.drop_last());
        lemma_map_of_contains(s.drop_last(), s.last().0@);
    }
}

/// Replacing the entry at `i` with one holding the same key updates the
/// mapping at that key alone.
pub proof fn lemma_set_entry<V: View>(s: Seq<(String, V)>, i: int, t: Seq<(String, V)>)
    requires
        unique_keys(s),
        0 <= i < s.len(),
        t.len() == s.len(),
        t[i].0@ == s[i].0@,
        forall|j: int| 0 <= j < s.len() && j != i ==> t[j] == s[j],
    ensures
        unique_keys(t),
        map_of(t) == map_of(s).insert(t[i].0@, t[i].1@),
{
    let m1 = map_of(t);
    let m2 = map_of(s).insert(t[i].0@, t[i].1@);
    assert forall|k: Seq<char>| m1.dom().contains(k) implies m2.dom().contains(k) by {
        lemma_map_of_contains(t, k);
        let j = choose|j: int| 0 <= j < t.len() && t[j].0@ == k;
        if j != i {
            assert(s[j].0@ == k);
        }
        lemma_map_of_contains(s, k);
    }
    assert forall|k: Seq<char>| m2.dom().contains(k) implies m1.dom().contains(k) by {
        if k != t[i].0@ {
            lemma_map_of_contains(s, k);
            let j = choose|j: int| 0 <= j < s.len() && s[j].0@ == k;
            assert(t[j].0@ == k);
        }
        lemma_map_of_contains(t, k);
    }
    assert forall|k: Seq<char>| m1.dom().contains(k) implies m1[k] == m2[k] by {
        lemma_map_of_contains(t, k);
        let j = choose|j: int| 0 <= j < t.len() && t[j].0@ == k;
        lemma_map_of_index(t, j);
        if j == i {
        } else {
            lemma_map_of_index(s, j);
            assert(k != t[i].0@);
        }
    }
    assert(m1 =~= m2);
}

/// Removing the entry at `i` removes its key from the mapping and
/// nothing else.
pub proof fn lemma_remove_entry<V: View>(s: Seq<(String, V)>, i: int)
    requires
        unique_keys(s),
        0 <= i < s.len(),
    ensures
        unique_keys(s.remove(i)),
        map_of(s.remove(i)) == map_of(s).remove(s[i].0@),
{
    let t = s.remove(i);
    s.remove_ensures(i);
    let m1 = map_of(t);
    let m2 = map_of(s).remove(s[i].0@);
    assert forall|a: int, b: int| 0 <= a < b < t.len() implies t[a].0@ != t[b].0@ by {
        let a0 = if a < i { a } else { a + 1 };
        let b0 = if b < i { b } else { b + 1 };
        assert(t[a] == s[a0] && t[b] == s[b0]);
    }
    assert forall|k: Seq<char>|
        #![trigger m1.dom().contains(k)]
        #![trigger m2.dom().contains(k)]
        (m1.dom().contains(k) <==> m2.dom().contains(k)) && (m1.dom().contains(k) ==> m1[k]
            == m2[k]) by {
        lemma_map_of_contains(t, k);
        lemma_map_of_contains(s, k);
        if m1.dom().contains(k) {
            let j = choose|j: int| 0 <= j < t.len() && t[j].0@ == k;
            lemma_map_of_index(t, j);
            let j0 = if j < i { j } else { j + 1 };
            assert(t[j] == s[j0]);
            if j0 < i {
                assert(s[j0].0@ != s[i].0@);
            } else {
                assert(s[i].0@ != s[j0].0@);
            }
            lemma_map_of_index(s, j0);
        }
        if m2.dom().contains(k) {
            let j0 = choose|j0: int| 0 <= j0 < s.len() && s[j0].0@ == k;
            assert(k != s[i].0@);
            assert(j0 != i);
            let j = if j0 < i { j0 } else { j0 - 1 };
            assert(t[j] == s[j0]);
        }
    }
    assert(m1.dom() =~= m2.dom());
    assert(m1 =~= m2);
}

} // verus!
