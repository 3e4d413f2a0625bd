//! Association lists as finite maps: a list of pairs, each a key and its
//! value.

use vstd::prelude::*;

verus! {

/// Whether some pair of `t` has the key `k`.
pub open spec fn has_key<K, V>(t: Seq<(K, V)>, k: K) -> bool {
    exists|i: int| 0 <= i < t.len() && (#[trigger] t[i]).0 == k
}

/// The place of a pair with the key `k`, where there is one.
pub open spec fn key_index<K, V>(t: Seq<(K, V)>, k: K) -> int {
    choose|i: int| 0 <= i < t.len() && (#[trigger] t[i]).0 == k
}

/// The value that `t` gives to the key `k`.
pub open spec fn lookup<K, V>(t: Seq<(K, V)>, k: K) -> V {
    t[key_index(t, k)].1
}

/// The keys of `t`, in order.
pub open spec fn keys<K, V>(t: Seq<(K, V)>) -> Seq<K> {
    Seq::new(t.len(), |i: int| t[i].0)
}

/// Whether no key stands twice in `t`.
pub open spec fn distinct_keys<K, V>(t: Seq<(K, V)>) -> bool {
    forall|i: int, j: int| 0 <= i < j < t.len() ==> (#[trigger] t[i]).0 != (#[trigger] t[j]).0
}

/// `t` with the value `v` under the key `k`: in the place of the key where
/// `t` has it, at the end where not.
pub open spec fn put<K, V>(t: Seq<(K, V)>, k: K, v: V) -> Seq<(K, V)> {
    if has_key(t, k) {
        t.update(key_index(t, k), (k, v))
    } else {
        t.push((k, v))
    }
}

/// The finite map that a list of pairs gives when they are put one after
/// the other: a key stands where it came first, with the value that came
/// last.
pub open spec fn collected<K, V>(t: Seq<(K, V)>) -> Seq<(K, V)>
    decreases t.len(),
{
    if t.len() == 0 {
        t
    } else {
        put(collected(t.drop_last()), t.last().0, t.last().1)
    }
}

/// The members of `v`, each where it came first.
pub open spec fn distinct<A>(v: Seq<A>) -> Seq<A>
    decreases v.len(),
{
    if v.len() == 0 {
        v
    } else if distinct(v.drop_last()).contains(v.last()) {
        distinct(v.drop_last())
    } else {
        distinct(v.drop_last()).push(v.last())
    }
}

/// In a list without a repeated key, a key is found in its own place.
pub proof fn lemma_key_index<K, V>(t: Seq<(K, V)>, i: int)
    requires
        distinct_keys(t),
        0 <= i < t.len(),
    ensures
        has_key(t, t[i].0),
        key_index(t, t[i].0) == i,
        lookup(t, t[i].0) == t[i].1,
{
    let j = key_index(t, t[i].0);
    assert(0 <= j < t.len() && t[j].0 == t[i].0);
    if j < i {
        assert(t[j].0 != t[i].0);
    } else if i < j {
        assert(t[i].0 != t[j].0);
    }
}

/// Putting keeps the keys apart, keeps the other keys' values and gives
/// the key its value.
pub proof fn lemma_put<K, V>(t: Seq<(K, V)>, k: K, v: V)
    requires
        distinct_keys(t),
    ensures
        distinct_keys(put(t, k, v)),
        has_key(put(t, k, v), k),
        lookup(put(t, k, v), k) == v,
        forall|o: K| o != k ==> has_key(put(t, k, v), o) == has_key(t, o),
        forall|o: K| o != k && has_key(t, o) ==> lookup(put(t, k, v), o) == lookup(t, o),
{
    let p = put(t, k, v);
    if has_key(t, k) {
        let at = key_index(t, k);
        assert(p[at].0 == k);
        assert forall|i: int, j: int| 0 <= i < j < p.len() implies (#[trigger] p[i]).0 != (
        #[trigger] p[j]).0 by {
            assert(t[i].0 != t[j].0);
        }
        assert forall|o: K| o != k implies has_key(p, o) == has_key(t, o) by {
            if has_key(t, o) {
                let i = key_index(t, o);
                assert(p[i].0 == o);
            }
            if has_key(p, o) {
                let i = key_index(p, o);
                assert(t[i].0 == o);
            }
        }
        lemma_key_index(p, at);
        assert forall|o: K| o != k && has_key(t, o) implies lookup(p, o) == lookup(t, o) by {
            let i = key_index(t, o);
            assert(p[i] == t[i]);
            lemma_key_index(p, i);
        }
    } else {
        let at = t.len() as int;
        assert(p[at].0 == k);
        assert forall|i: int, j: int| 0 <= i < j < p.len() implies (#[trigger] p[i]).0 != (
        #[trigger] p[j]).0 by {
            if j < t.len() {
                assert(t[i].0 != t[j].0);
            } else {
                assert(t[i].0 != k);
            }
        }
        assert forall|o: K| o != k implies has_key(p, o) == has_key(t, o) by {
            if has_key(t, o) {
                let i = key_index(t, o);
                assert(p[i].0 == o);
            }
            if has_key(p, o) {
                let i = key_index(p, o);
                assert(t[i].0 == o);
            }
        }
        lemma_key_index(p, at);
        assert forall|o: K| o != k && has_key(t, o) implies lookup(p, o) == lookup(t, o) by {
            let i = key_index(t, o);
            assert(p[i] == t[i]);
            lemma_key_index(p, i);
        }
    }
}

/// A collected list has no repeated key.
pub proof fn lemma_collected_distinct<K, V>(t: Seq<(K, V)>)
    ensures
        distinct_keys(collected(t)),
    decreases t.len(),
{
    if t.len() > 0 {
        lemma_collected_distinct(t.drop_last());
        lemma_put(collected(t.drop_last()), t.last().0, t.last().1);
    }
}

/// The distinct members of a list are its members, none twice.
pub proof fn lemma_distinct<A>(v: Seq<A>)
    ensures
        distinct(v).no_duplicates(),
        forall|a: A| distinct(v).contains(a) <==> v.contains(a),
    decreases v.len(),
{
    if v.len() > 0 {
        let d = distinct(v.drop_last());
        lemma_distinct(v.drop_last());
        assert forall|a: A| distinct(v).contains(a) <==> v.contains(a) by {
            if v.contains(a) {
                let i = choose|i: int| 0 <= i < v.len() && v[i] == a;
                if i < v.len() - 1 {
                    assert(v.drop_last()[i] == a);
                    assert(v.drop_last().contains(a));
                    assert(d.contains(a));
                    let j = choose|j: int| 0 <= j < d.len() && d[j] == a;
                    assert(distinct(v)[j] == a);
                } else {
                    if !d.contains(a) {
                        assert(distinct(v)[d.len() as int] == a);
                    }
                }
            }
            if distinct(v).contains(a) {
                let j = choose|j: int| 0 <= j < distinct(v).len() && distinct(v)[j] == a;
                if j < d.len() {
                    assert(d[j] == a);
                    assert(d.contains(a));
                    assert(v.drop_last().contains(a));
                    let i = choose|i: int| 0 <= i < v.drop_last().len() && v.drop_last()[i] == a;
                    assert(v[i] == a);
                } else {
                    assert(v[v.len() - 1] == a);
                }
            }
        }
    }
}

/// The keys of a list hold exactly the keys that the list has.
pub proof fn lemma_keys<K, V>(t: Seq<(K, V)>, k: K)
    ensures
        keys(t).contains(k) <==> has_key(t, k),
{
    if keys(t).contains(k) {
        let p = choose|p: int| 0 <= p < keys(t).len() && keys(t)[p] == k;
        assert(t[p].0 == k);
    }
    if has_key(t, k) {
        let p = key_index(t, k);
        assert(keys(t)[p] == k);
    }
}

} // verus!
