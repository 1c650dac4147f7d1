use vstd::prelude::*;

verus! {

/// No key occurs twice in `s`.
pub open spec fn distinct_keys<K, V>(s: Seq<(K, V)>) -> bool {
    forall|i: int, j: int| 0 <= i < j < s.len() ==> s[i].0 != s[j].0
}

/// Some entry of `s` has the key `k`.
pub open spec fn has_key<K, V>(s: Seq<(K, V)>, k: K) -> bool {
    exists|i: int| 0 <= i < s.len() && #[trigger] s[i].0 == k
}

/// The place of an entry with key `k` in `s`, where there is one.
pub open spec fn index_of<K, V>(s: Seq<(K, V)>, k: K) -> int {
    choose|i: int| 0 <= i < s.len() && #[trigger] s[i].0 == k
}

/// The mapping that a sequence of keyed entries stands for.
pub open spec fn as_map<K, V>(s: Seq<(K, V)>) -> Map<K, V> {
    Map::new(|k: K| has_key(s, k), |k: K| s[index_of(s, k)].1)
}

/// Every entry of a sequence without repeated keys is found under its key.
pub proof fn lemma_entry<K, V>(s: Seq<(K, V)>, i: int)
    requires
        distinct_keys(s),
        0 <= i < s.len(),
    ensures
        has_key(s, s[i].0),
        index_of(s, s[i].0) == i,
        as_map(s).contains_key(s[i].0),
        as_map(s)[s[i].0] == s[i].1,
{
    assert(s[i].0 == s[i].0);
    let j = index_of(s, s[i].0);
    if j < i {
        assert(s[j].0 != s[i].0);
    } else if i < j {
        assert(s[i].0 != s[j].0);
    }
}

/// A key that no entry has is not in the mapping.
pub proof fn lemma_absent<K, V>(s: Seq<(K, V)>, k: K)
    requires
        forall|i: int| 0 <= i < s.len() ==> (#[trigger] s[i]).0 != k,
    ensures
        !has_key(s, k),
        !as_map(s).contains_key(k),
{
}

/// The empty sequence stands for the empty mapping.
pub proof fn lemma_empty<K, V>()
    ensures
        as_map(Seq::<(K, V)>::empty()) == Map::<K, V>::empty(),
        distinct_keys(Seq::<(K, V)>::empty()),
{
    assert(as_map(Seq::<(K, V)>::empty()) =~= Map::<K, V>::empty());
}

/// Appending an entry under a fresh key inserts it into the mapping.
pub proof fn lemma_push<K, V>(s: Seq<(K, V)>, e: (K, V))
    requires
        distinct_keys(s),
        !has_key(s, e.0),
    ensures
        distinct_keys(s.push(e)),
        as_map(s.push(e)) == as_map(s).insert(e.0, e.1),
{
    let t = s.push(e);
    assert forall|i: int, j: int| 0 <= i < j < t.len() implies t[i].0 != t[j].0 by {
        if j == s.len() {
            assert(s[i].0 == t[i].0);
        }
    }
    assert forall|k: K| #[trigger] as_map(t).contains_key(k) <==> as_map(s).insert(
        e.0,
        e.1,
    ).contains_key(k) by {
        if has_key(t, k) {
            let i = index_of(t, k);
            if i < s.len() {
                assert(s[i].0 == k);
            }
        }
        if has_key(s, k) {
            let i = index_of(s, k);
            assert(t[i].0 == k);
        }
        if k == e.0 {
            assert(t[s.len() as int].0 == k);
        }
    }
    assert forall|k: K| as_map(t).contains_key(k) implies #[trigger] as_map(t)[k] == as_map(
        s,
    ).insert(e.0, e.1)[k] by {
        let i = index_of(t, k);
        lemma_entry(t, i);
        if i < s.len() {
            assert(s[i].0 == k);
            lemma_entry(s, i);
        }
    }
    assert(as_map(t) =~= as_map(s).insert(e.0, e.1));
}

/// Replacing an entry by another under the same key replaces its value in
/// the mapping.
pub proof fn lemma_update<K, V>(s: Seq<(K, V)>, i: int, e: (K, V))
    requires
        distinct_keys(s),
        0 <= i < s.len(),
        s[i].0 == e.0,
    ensures
        distinct_keys(s.update(i, e)),
        as_map(s.update(i, e)) == as_map(s).insert(e.0, e.1),
{
    let t = s.update(i, e);
    assert forall|a: int, b: int| 0 <= a < b < t.len() implies t[a].0 != t[b].0 by {
        assert(s[a].0 != s[b].0);
    }
    assert forall|k: K| #[trigger] as_map(t).contains_key(k) <==> as_map(s).insert(
        e.0,
        e.1,
    ).contains_key(k) by {
        if has_key(t, k) {
            let j = index_of(t, k);
            assert(s[j].0 == k);
        }
        if has_key(s, k) {
            let j = index_of(s, k);
            assert(t[j].0 == k);
        }
        if k == e.0 {
            assert(t[i].0 == k);
        }
    }
    assert forall|k: K| as_map(t).contains_key(k) implies #[trigger] as_map(t)[k] == as_map(
        s,
    ).insert(e.0, e.1)[k] by {
        let j = index_of(t, k);
        lemma_entry(t, j);
        if j != i {
            assert(s[j].0 == k);
            lemma_entry(s, j);
        }
    }
    assert(as_map(t) =~= as_map(s).insert(e.0, e.1));
}

/// Taking an entry out takes its key out of the mapping.
pub proof fn lemma_remove<K, V>(s: Seq<(K, V)>, i: int)
    requires
        distinct_keys(s),
        0 <= i < s.len(),
    ensures
        distinct_keys(s.remove(i)),
        as_map(s.remove(i)) == as_map(s).remove(s[i].0),
{
    let t = s.remove(i);
    let gone = s[i].0;
    assert forall|a: int, b: int| 0 <= a < b < t.len() implies t[a].0 != t[b].0 by {
        let a0 = if a < i { a } else { a + 1 };
        let b0 = if b < i { b } else { b + 1 };
        assert(t[a] == s[a0] && t[b] == s[b0]);
        assert(s[a0].0 != s[b0].0);
    }
    assert forall|k: K| #[trigger] as_map(t).contains_key(k) <==> as_map(s).remove(
        gone,
    ).contains_key(k) by {
        if has_key(t, k) {
            let j = index_of(t, k);
            let j0 = if j < i { j } else { j + 1 };
            assert(t[j] == s[j0]);
            assert(s[j0].0 == k);
            if k == gone {
                if j0 < i {
                    assert(s[j0].0 != s[i].0);
                } else {
                    assert(s[i].0 != s[j0].0);
                }
            }
        }
        if has_key(s, k) && k != gone {
            let j = index_of(s, k);
            let j1 = if j < i { j } else { j - 1 };
            assert(t[j1] == s[j]);
            assert(t[j1].0 == k);
        }
    }
    assert forall|k: K| as_map(t).contains_key(k) implies #[trigger] as_map(t)[k] == as_map(
        s,
    ).remove(gone)[k] by {
        let j = index_of(t, k);
        lemma_entry(t, j);
        let j0 = if j < i { j } else { j + 1 };
        assert(t[j] == s[j0]);
        lemma_entry(s, j0);
    }
    assert(as_map(t) =~= as_map(s).remove(gone));
}

/// A sequence without repeated keys stands for a finite mapping with as many
/// keys as the sequence has entries.
pub proof fn lemma_len<K, V>(s: Seq<(K, V)>)
    requires
        distinct_keys(s),
    ensures
        as_map(s).dom().finite(),
        as_map(s).dom().len() == s.len(),
    decreases s.len(),
{
    if s.len() == 0 {
        assert(as_map(s) =~= Map::<K, V>::empty());
    } else {
        let head = s.drop_last();
        let e = s.last();
        assert(s == head.push(e));
        assert forall|i: int, j: int| 0 <= i < j < head.len() implies head[i].0 != head[j].0 by {
            assert(head[i] == s[i] && head[j] == s[j]);
        }
        assert(!has_key(head, e.0)) by {
            if has_key(head, e.0) {
                let i = index_of(head, e.0);
                assert(head[i] == s[i]);
                assert(s[i].0 != s[s.len() - 1].0);
            }
        }
        lemma_len(head);
        lemma_push(head, e);
        assert(as_map(s).dom() =~= as_map(head).dom().insert(e.0));
    }
}

} // verus!
