use vstd::prelude::*;

verus! {

/// `s` holds an entry whose key is `k`.
pub open spec fn has_key<V>(s: Seq<(Seq<char>, V)>, k: Seq<char>) -> bool {
    exists|i: int| 0 <= i < s.len() && (#[trigger] s[i]).0 == k
}

/// No two entries of `s` share a key.
pub open spec fn unique_keys<V>(s: Seq<(Seq<char>, V)>) -> bool {
    forall|i: int, j: int| 0 <= i < j < s.len() ==> (#[trigger] s[i]).0 != (#[trigger] s[j]).0
}

/// Position of the last entry keyed `k`, or -1 when there is none.
pub open spec fn key_pos<V>(s: Seq<(Seq<char>, V)>, k: Seq<char>) -> int
    decreases s.len(),
{
    if s.len() == 0 {
        -1
    } else if s.last().0 == k {
        s.len() - 1
    } else {
        key_pos(s.drop_last(), k)
    }
}

/// The value stored under `k`, if any.
pub open spec fn lookup<V>(s: Seq<(Seq<char>, V)>, k: Seq<char>) -> Option<V> {
    if key_pos(s, k) >= 0 {
        Some(s[key_pos(s, k)].1)
    } else {
        None
    }
}

/// Sets the value under `k`: an existing entry keeps its place and takes the
/// new value, otherwise a new entry is appended.
pub open spec fn upsert<V>(s: Seq<(Seq<char>, V)>, k: Seq<char>, v: V) -> Seq<(Seq<char>, V)> {
    if key_pos(s, k) >= 0 {
        s.update(key_pos(s, k), (k, v))
    } else {
        s.push((k, v))
    }
}

pub proof fn lemma_key_pos<V>(s: Seq<(Seq<char>, V)>, k: Seq<char>)
    ensures
        -1 <= key_pos(s, k) < s.len(),
        key_pos(s, k) >= 0 <==> has_key(s, k),
        key_pos(s, k) >= 0 ==> s[key_pos(s, k)].0 == k,
        unique_keys(s) ==> forall|i: int| 0 <= i < s.len() && (#[trigger] s[i]).0 == k ==> i == key_pos(s, k),
    decreases s.len(),
{
    if s.len() > 0 {
        lemma_key_pos(s.drop_last(), k);
        let d = s.drop_last();
        if s.last().0 != k {
            if has_key(s, k) {
                let i = choose|i: int| 0 <= i < s.len() && (#[trigger] s[i]).0 == k;
                assert(d[i].0 == k);
            }
            if has_key(d, k) {
                let i = choose|i: int| 0 <= i < d.len() && (#[trigger] d[i]).0 == k;
                assert(s[i].0 == k);
            }
        } else {
            assert(s[s.len() - 1].0 == k);
        }
    }
}

pub proof fn lemma_upsert<V>(s: Seq<(Seq<char>, V)>, k: Seq<char>, v: V)
    requires
        unique_keys(s),
    ensures
        unique_keys(upsert(s, k, v)),
        lookup(upsert(s, k, v), k) == Some(v),
        forall|j: Seq<char>| j != k ==> lookup(#[trigger] upsert(s, k, v), j) == lookup(s, j),
        forall|j: Seq<char>| has_key(#[trigger] upsert(s, k, v), j) <==> (has_key(s, j) || j == k),
{
    let u = upsert(s, k, v);
    lemma_key_pos(s, k);
    assert(unique_keys(u));
    lemma_key_pos(u, k);
    if key_pos(s, k) < 0 {
        assert(u[s.len() as int].0 == k);
    } else {
        assert(u[key_pos(s, k)].0 == k);
    }
    assert forall|j: Seq<char>| has_key(u, j) <==> (has_key(s, j) || j == k) by {
        if has_key(u, j) && j != k {
            let i = choose|i: int| 0 <= i < u.len() && (#[trigger] u[i]).0 == j;
            assert(s[i].0 == j);
        }
        if has_key(s, j) {
            let i = choose|i: int| 0 <= i < s.len() && (#[trigger] s[i]).0 == j;
            assert(u[i].0 == j);
        }
        if j == k {
            assert(u[key_pos(u, k)].0 == k);
        }
    }
    assert forall|j: Seq<char>| j != k implies lookup(#[trigger] upsert(s, k, v), j) == lookup(s, j) by {
        lemma_key_pos(s, j);
        lemma_key_pos(u, j);
        if has_key(s, j) {
            assert(u[key_pos(s, j)].0 == j);
        }
    }
}

} // verus!
