//! Small unordered arrays, searched linearly: the first `sz` slots hold
//! distinct valid keys, and a parallel array may hold their values.
use vstd::prelude::*;
use crate::robin::same_val;

verus! {

/// The keys held by the first `sz` slots.
pub open spec fn small_set<K>(keys: Seq<K>, sz: int) -> Set<K> {
    Set::new(|k: K| exists|i: int| 0 <= i < sz && keys[i] == k)
}

/// The slot of `k` among the first `sz` slots.
pub open spec fn small_index<K>(keys: Seq<K>, sz: int, k: K) -> int {
    choose|i: int| 0 <= i < sz && keys[i] == k
}

/// The map held by the first `sz` slots of parallel key and value arrays.
pub open spec fn small_map<K, V>(keys: Seq<K>, vals: Seq<V>, sz: int) -> Map<K, V> {
    Map::new(|k: K| small_set(keys, sz).contains(k), |k: K| vals[small_index(keys, sz, k)])
}

/// The first `sz` slots hold distinct keys.
pub open spec fn small_ok<K>(keys: Seq<K>, sz: int) -> bool {
    &&& 0 <= sz <= keys.len()
    &&& forall|i: int, j: int| 0 <= i < sz && 0 <= j < sz && i != j ==> keys[i] != keys[j]
}

/// No key of the first `sz` slots is `inv`.
pub open spec fn small_avoids<K>(keys: Seq<K>, sz: int, inv: K) -> bool {
    forall|i: int| 0 <= i < sz ==> keys[i] != inv
}

pub proof fn lemma_small_index<K>(keys: Seq<K>, sz: int, i: int)
    requires
        small_ok(keys, sz),
        0 <= i < sz,
    ensures
        small_index(keys, sz, keys[i]) == i,
        small_set(keys, sz).contains(keys[i]),
{
    let j = small_index(keys, sz, keys[i]);
    assert(0 <= i < sz && keys[i] == keys[i]);
    if j != i {
        assert(keys[i] != keys[j]);
    }
}

pub proof fn lemma_small_empty<K, V>(keys: Seq<K>, vals: Seq<V>)
    ensures
        small_set(keys, 0) == Set::<K>::empty(),
        small_map(keys, vals, 0) == Map::<K, V>::empty(),
{
    assert(small_set(keys, 0) =~= Set::<K>::empty());
    assert(small_map(keys, vals, 0) =~= Map::<K, V>::empty());
}

/// The keys of the first `sz` slots are finite, `sz` in number.
pub proof fn lemma_small_len<K>(keys: Seq<K>, sz: int, inv: K)
    requires
        small_ok(keys, sz),
    ensures
        small_set(keys, sz).finite(),
        small_set(keys, sz).len() == sz,
        small_avoids(keys, sz, inv) ==> !small_set(keys, sz).contains(inv),
    decreases sz,
{
    if sz == 0 {
        assert(small_set(keys, 0) =~= Set::<K>::empty());
    } else {
        lemma_small_len(keys, sz - 1, inv);
        assert(small_set(keys, sz) =~= small_set(keys, sz - 1).insert(keys[sz - 1]));
        if small_set(keys, sz - 1).contains(keys[sz - 1]) {
            let i = choose|i: int| 0 <= i < sz - 1 && #[trigger] keys[i] == keys[sz - 1];
            assert(keys[i] != keys[sz - 1]);
        }
    }
}

/// Writing a new key and value into slot `sz` adds them.
pub proof fn lemma_small_push<K, V>(keys: Seq<K>, vals: Seq<V>, sz: int, inv: K, k: K, v: V)
    requires
        small_ok(keys, sz),
        sz < keys.len(),
        sz < vals.len(),
        !small_set(keys, sz).contains(k),
    ensures
        small_ok(keys.update(sz, k), sz + 1),
        small_avoids(keys, sz, inv) && k != inv ==> small_avoids(keys.update(sz, k), sz + 1, inv),
        small_set(keys.update(sz, k), sz + 1) == small_set(keys, sz).insert(k),
        small_map(keys.update(sz, k), vals.update(sz, v), sz + 1) == small_map(keys, vals, sz).insert(k, v),
{
    let nk = keys.update(sz, k);
    let nv = vals.update(sz, v);
    assert forall|i: int, j: int| 0 <= i < sz + 1 && 0 <= j < sz + 1 && i != j implies nk[i] != nk[j] by {
        if i == sz {
            assert(keys[j] != k) by {
                if keys[j] == k {
                    assert(small_set(keys, sz).contains(k));
                }
            }
        }
        if j == sz {
            assert(keys[i] != k) by {
                if keys[i] == k {
                    assert(small_set(keys, sz).contains(k));
                }
            }
        }
    }
    assert(small_set(nk, sz + 1) =~= small_set(keys, sz).insert(k)) by {
        assert forall|x: K| #[trigger] small_set(nk, sz + 1).contains(x) implies small_set(keys, sz).insert(k).contains(x) by {
            let i = choose|i: int| 0 <= i < sz + 1 && nk[i] == x;
            if i < sz {
                assert(0 <= i < sz && keys[i] == x);
            }
        }
        assert forall|x: K| #[trigger] small_set(keys, sz).insert(k).contains(x) implies small_set(nk, sz + 1).contains(x) by {
            if x == k {
                assert(0 <= sz < sz + 1 && nk[sz] == x);
            } else {
                let i = choose|i: int| 0 <= i < sz && keys[i] == x;
                assert(0 <= i < sz + 1 && nk[i] == x);
            }
        }
    }
    let a = small_map(nk, nv, sz + 1);
    let b = small_map(keys, vals, sz).insert(k, v);
    assert forall|x: K| #[trigger] a.contains_key(x) implies a[x] == b[x] by {
        let i = small_index(nk, sz + 1, x);
        lemma_small_index(nk, sz + 1, i);
        if i < sz {
            lemma_small_index(keys, sz, i);
        }
    }
    assert(a =~= b);
}

/// Writing a value into the slot of a present key replaces its value.
pub proof fn lemma_small_set_value<K, V>(keys: Seq<K>, vals: Seq<V>, sz: int, i: int, v: V)
    requires
        small_ok(keys, sz),
        0 <= i < sz,
        sz <= vals.len(),
    ensures
        small_map(keys, vals.update(i, v), sz) == small_map(keys, vals, sz).insert(keys[i], v),
{
    let a = small_map(keys, vals.update(i, v), sz);
    let b = small_map(keys, vals, sz).insert(keys[i], v);
    lemma_small_index(keys, sz, i);
    assert forall|x: K| #[trigger] a.contains_key(x) implies a[x] == b[x] by {
        let j = small_index(keys, sz, x);
        lemma_small_index(keys, sz, j);
    }
    assert(a =~= b);
}

/// The map of the first `sz` slots reads no value beyond them.
pub proof fn lemma_small_map_frame<K, V>(keys: Seq<K>, v1: Seq<V>, v2: Seq<V>, sz: int)
    requires
        forall|j: int| 0 <= j < sz ==> v1[j] == v2[j],
    ensures
        small_map(keys, v1, sz) == small_map(keys, v2, sz),
{
    assert forall|k: K| #[trigger] small_map(keys, v1, sz).contains_key(k) implies small_map(keys, v1, sz)[k]
        == small_map(keys, v2, sz)[k] by {
        let j = small_index(keys, sz, k);
        assert(0 <= j < sz);
    }
    assert(small_map(keys, v1, sz) =~= small_map(keys, v2, sz));
}

/// Moving the last entry into slot `i` removes the key of slot `i`.
pub proof fn lemma_small_swap_remove<K, V>(keys: Seq<K>, vals: Seq<V>, sz: int, inv: K, i: int)
    requires
        small_ok(keys, sz),
        0 <= i < sz,
        sz <= vals.len(),
    ensures
        small_ok(keys.update(i, keys[sz - 1]), sz - 1),
        small_avoids(keys, sz, inv) ==> small_avoids(keys.update(i, keys[sz - 1]), sz - 1, inv),
        small_set(keys.update(i, keys[sz - 1]), sz - 1) == small_set(keys, sz).remove(keys[i]),
        small_map(keys.update(i, keys[sz - 1]), vals.update(i, vals[sz - 1]), sz - 1) == small_map(
            keys,
            vals,
            sz,
        ).remove(keys[i]),
{
    let last = sz - 1;
    let nk = keys.update(i, keys[last]);
    let nv = vals.update(i, vals[last]);
    assert forall|a: int, b: int| 0 <= a < sz - 1 && 0 <= b < sz - 1 && a != b implies nk[a] != nk[b] by {
        if a == i {
            assert(keys[last] != keys[b]);
        } else if b == i {
            assert(keys[a] != keys[last]);
        } else {
            assert(keys[a] != keys[b]);
        }
    }
    assert(small_set(nk, sz - 1) =~= small_set(keys, sz).remove(keys[i])) by {
        assert forall|x: K| #[trigger] small_set(nk, sz - 1).contains(x) implies small_set(keys, sz).remove(keys[i]).contains(x) by {
            let a = choose|a: int| 0 <= a < sz - 1 && nk[a] == x;
            if a == i {
                assert(0 <= last < sz && keys[last] == x);
                assert(keys[last] != keys[i]);
            } else {
                assert(0 <= a < sz && keys[a] == x);
                assert(keys[a] != keys[i]);
            }
        }
        assert forall|x: K| #[trigger] small_set(keys, sz).remove(keys[i]).contains(x) implies small_set(nk, sz - 1).contains(x) by {
            let a = choose|a: int| 0 <= a < sz && keys[a] == x;
            if a == last {
                if i == last {
                    assert(false);
                }
                assert(0 <= i < sz - 1 && nk[i] == x);
            } else {
                assert(a != i);
                assert(0 <= a < sz - 1 && nk[a] == x);
            }
        }
    }
    let m1 = small_map(nk, nv, sz - 1);
    let m2 = small_map(keys, vals, sz).remove(keys[i]);
    assert forall|x: K| #[trigger] m1.contains_key(x) implies m1[x] == m2[x] by {
        let a = small_index(nk, sz - 1, x);
        lemma_small_index(nk, sz - 1, a);
        if a == i {
            lemma_small_index(keys, sz, last);
        } else {
            lemma_small_index(keys, sz, a);
        }
    }
    assert(m1 =~= m2);
}

/// Finds `k` among the first `sz` slots.
pub fn small_find<K: Copy + PartialEq>(keys: &[K], sz: usize, k: K) -> (r: Option<usize>)
    requires
        vstd::laws_eq::obeys_concrete_eq::<K>(),
        sz <= keys@.len(),
    ensures
        r matches Some(i) ==> i < sz && keys@[i as int] == k,
        r is None ==> !small_set(keys@, sz as int).contains(k),
{
    let mut i: usize = 0;
    while i < sz
        invariant
            vstd::laws_eq::obeys_concrete_eq::<K>(),
            i <= sz <= keys@.len(),
            forall|j: int| 0 <= j < i ==> keys@[j] != k,
        decreases sz - i,
    {
        if same_val(&keys[i], &k) {
            return Some(i);
        }
        i += 1;
    }
    None
}

} // verus!
