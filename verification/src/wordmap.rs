//! Maps from `u64` to `u64` kept in arrays of words: the operations on one
//! storage layout, small arrays searched linearly or Robin Hood tables,
//! stated over the `u64` map that the layout holds.
use vstd::prelude::*;
use crate::robin::{contents, is_table_len, lemma_contents_finite, empty_table, lemma_empty_table};
use crate::robin_map::map_view;
use crate::small::{
    small_map, small_set, small_ok, small_avoids, small_find, lemma_small_index, lemma_small_push,
    lemma_small_set_value, lemma_small_swap_remove, lemma_small_len,
};
use crate::table::{tab_ok, tab_get, tab_insert, tab_remove, lemma_map_view_dom, fresh_marker, relabel, relabeled, lemma_relabel};
use crate::tinyset::FnvHash;
use crate::word::{
    Word, limit, widen_map, word_limit, lemma_widen_map_at, lemma_widen_map_insert,
    lemma_widen_map_remove, lemma_widen_map_empty, lemma_widen_set_len, lemma_word_set_bound,
};

verus! {

/// The `u64` map of the first `sz` entries of small parallel arrays.
pub open spec fn small_view<K: Word, V: Word>(keys: Seq<K>, vals: Seq<V>, sz: int) -> Map<u64, u64> {
    widen_map(small_map(keys, vals, sz))
}

/// The `u64` map of a table whose empty slots hold `inv`.
pub open spec fn tab_view<K: Word, V: Word>(keys: Seq<K>, vals: Seq<V>, inv: K) -> Map<u64, u64> {
    widen_map(map_view(keys, vals, inv))
}

/// The small map holds `sz` entries.
pub proof fn lemma_small_view_len<K: Word, V: Word>(keys: Seq<K>, vals: Seq<V>, sz: int)
    requires
        small_ok(keys, sz),
    ensures
        small_view(keys, vals, sz).dom().finite(),
        small_view(keys, vals, sz).len() == sz,
{
    lemma_small_len(keys, sz, K::spec_invalid());
    assert(small_map(keys, vals, sz).dom() =~= small_set(keys, sz));
    lemma_widen_map_at(small_map(keys, vals, sz), K::spec_invalid(), 0);
    lemma_widen_set_len(small_set(keys, sz));
}

/// The table map holds as many entries as the table holds keys.
pub proof fn lemma_tab_view_len<K: Word, V: Word>(keys: Seq<K>, vals: Seq<V>, inv: K)
    requires
        tab_ok(keys, vals, inv),
    ensures
        tab_view(keys, vals, inv).dom().finite(),
        tab_view(keys, vals, inv).len() == contents(keys, inv).len(),
        contents(keys, inv).len() <= keys.len(),
        inv == K::spec_invalid() ==> contents(keys, inv).len() <= limit::<K>(),
{
    lemma_contents_finite(keys, inv);
    lemma_map_view_dom(keys, vals, inv);
    lemma_widen_map_at(map_view(keys, vals, inv), inv, 0);
    lemma_widen_set_len(contents(keys, inv));
    if inv == K::spec_invalid() {
        lemma_word_set_bound(contents(keys, inv));
    }
}

/// The value of `k` in a small map.
pub fn small_get<K: Word, V: Word>(keys: &[K], vals: &[V], sz: usize, k: u64) -> (r: Option<u64>)
    requires
        small_ok(keys@, sz as int),
        sz <= vals@.len(),
    ensures
        r == small_view(keys@, vals@, sz as int).get(k),
{
    proof {
        K::lemma_word();
    }
    let ghost m = small_map(keys@, vals@, sz as int);
    if k > word_limit::<K>() {
        proof {
            lemma_widen_map_at(m, K::spec_invalid(), k);
        }
        return None;
    }
    let kk = K::narrow(k);
    proof {
        lemma_widen_map_at(m, kk, k);
    }
    match small_find(keys, sz, kk) {
        Some(i) => {
            proof {
                lemma_small_index(keys@, sz as int, i as int);
            }
            Some(vals[i].widen())
        },
        None => None,
    }
}

/// Sets the value of `k` in a small map that has a free slot.
pub fn small_put<K: Word, V: Word>(keys: &mut [K], vals: &mut [V], sz: usize, k: u64, v: u64) -> (r: Option<u64>)
    requires
        small_ok(old(keys)@, sz as int),
        old(vals)@.len() == old(keys)@.len(),
        sz < old(keys)@.len(),
        k <= limit::<K>(),
        v <= limit::<V>(),
    ensures
        final(keys)@.len() == old(keys)@.len(),
        final(vals)@.len() == old(vals)@.len(),
        r == small_view(old(keys)@, old(vals)@, sz as int).get(k),
        small_ok(final(keys)@, sz + (if r is None { 1int } else { 0 })),
        small_avoids(old(keys)@, sz as int, K::spec_invalid()) && k != limit::<K>() ==> small_avoids(
            final(keys)@,
            sz + (if r is None { 1int } else { 0 }),
            K::spec_invalid(),
        ),
        small_view(final(keys)@, final(vals)@, sz + (if r is None { 1int } else { 0 })) == small_view(
            old(keys)@,
            old(vals)@,
            sz as int,
        ).insert(k, v),
{
    proof {
        K::lemma_word();
        V::lemma_word();
    }
    let ghost m = small_map(keys@, vals@, sz as int);
    let kk = K::narrow(k);
    let vv = V::narrow(v);
    proof {
        lemma_widen_map_at(m, kk, k);
        lemma_widen_map_insert(m, kk, vv);
        assert(kk.spec_widen() == k);
        assert(vv.spec_widen() == v);
        if k != limit::<K>() {
            assert(kk != K::spec_invalid()) by {
                assert(K::spec_narrow(K::spec_invalid().spec_widen()) == K::spec_invalid());
            }
        }
    }
    match small_find(keys, sz, kk) {
        Some(i) => {
            proof {
                lemma_small_index(keys@, sz as int, i as int);
                lemma_small_set_value(keys@, vals@, sz as int, i as int, vv);
            }
            let o = vals[i];
            vals[i] = vv;
            Some(o.widen())
        },
        None => {
            proof {
                lemma_small_push(keys@, vals@, sz as int, K::spec_invalid(), kk, vv);
            }
            keys[sz] = kk;
            vals[sz] = vv;
            None
        },
    }
}

/// Removes `k` from a small map, moving the last entry into its slot.
pub fn small_take<K: Word, V: Word>(keys: &mut [K], vals: &mut [V], sz: usize, k: u64) -> (r: Option<u64>)
    requires
        small_ok(old(keys)@, sz as int),
        old(vals)@.len() == old(keys)@.len(),
    ensures
        final(keys)@.len() == old(keys)@.len(),
        final(vals)@.len() == old(vals)@.len(),
        r == small_view(old(keys)@, old(vals)@, sz as int).get(k),
        small_ok(final(keys)@, sz - (if r is Some { 1int } else { 0 })),
        small_avoids(old(keys)@, sz as int, K::spec_invalid()) ==> small_avoids(
            final(keys)@,
            sz - (if r is Some { 1int } else { 0 }),
            K::spec_invalid(),
        ),
        small_view(final(keys)@, final(vals)@, sz - (if r is Some { 1int } else { 0 })) == small_view(
            old(keys)@,
            old(vals)@,
            sz as int,
        ).remove(k),
{
    proof {
        K::lemma_word();
    }
    let ghost m = small_map(keys@, vals@, sz as int);
    if k > word_limit::<K>() {
        proof {
            lemma_widen_map_at(m, K::spec_invalid(), k);
            assert(small_view(keys@, vals@, sz as int).remove(k) =~= small_view(keys@, vals@, sz as int));
        }
        return None;
    }
    let kk = K::narrow(k);
    proof {
        lemma_widen_map_at(m, kk, k);
        lemma_widen_map_remove(m, kk);
    }
    match small_find(keys, sz, kk) {
        Some(i) => {
            proof {
                lemma_small_index(keys@, sz as int, i as int);
                lemma_small_swap_remove(keys@, vals@, sz as int, K::spec_invalid(), i as int);
            }
            let o = vals[i];
            let lk = keys[sz - 1];
            let lv = vals[sz - 1];
            keys[i] = lk;
            vals[i] = lv;
            Some(o.widen())
        },
        None => {
            proof {
                assert(m.remove(kk) =~= m);
            }
            None
        },
    }
}

/// The value of `k` in a table whose empty slots hold the invalid word.
pub fn wide_get<K: Word, V: Word>(keys: &[K], vals: &[V], k: u64) -> (r: Option<u64>)
    requires
        tab_ok(keys@, vals@, K::spec_invalid()),
    ensures
        r == tab_view(keys@, vals@, K::spec_invalid()).get(k),
{
    proof {
        K::lemma_word();
    }
    let ghost m = map_view(keys@, vals@, K::spec_invalid());
    if k >= word_limit::<K>() {
        proof {
            lemma_widen_map_at(m, K::spec_invalid(), k);
            lemma_map_view_dom(keys@, vals@, K::spec_invalid());
            assert(K::spec_narrow(K::spec_invalid().spec_widen()) == K::spec_invalid());
        }
        return None;
    }
    let kk = K::narrow(k);
    proof {
        lemma_widen_map_at(m, kk, k);
        assert(kk != K::spec_invalid());
    }
    match tab_get(keys, vals, kk, K::invalid()) {
        Some(x) => Some(x.widen()),
        None => None,
    }
}

/// Sets the value of `k` in a table whose empty slots hold the invalid
/// word; the table must have an empty slot.
pub fn wide_put<K: Word, V: Word>(keys: &mut [K], vals: &mut [V], k: u64, v: u64) -> (r: Option<u64>)
    requires
        tab_ok(old(keys)@, old(vals)@, K::spec_invalid()),
        contents(old(keys)@, K::spec_invalid()).len() < old(keys)@.len(),
        k < limit::<K>(),
        v <= limit::<V>(),
    ensures
        tab_ok(final(keys)@, final(vals)@, K::spec_invalid()),
        final(keys)@.len() == old(keys)@.len(),
        r == tab_view(old(keys)@, old(vals)@, K::spec_invalid()).get(k),
        tab_view(final(keys)@, final(vals)@, K::spec_invalid()) == tab_view(
            old(keys)@,
            old(vals)@,
            K::spec_invalid(),
        ).insert(k, v),
        contents(final(keys)@, K::spec_invalid()).len() == contents(old(keys)@, K::spec_invalid()).len()
            + (if r is None { 1int } else { 0 }),
{
    proof {
        K::lemma_word();
        V::lemma_word();
        lemma_contents_finite(keys@, K::spec_invalid());
    }
    let ghost m = map_view(keys@, vals@, K::spec_invalid());
    let kk = K::narrow(k);
    let vv = V::narrow(v);
    proof {
        lemma_widen_map_at(m, kk, k);
        lemma_widen_map_insert(m, kk, vv);
        assert(kk != K::spec_invalid()) by {
            assert(K::spec_narrow(K::spec_invalid().spec_widen()) == K::spec_invalid());
        }
        lemma_map_view_dom(keys@, vals@, K::spec_invalid());
    }
    let r = tab_insert(keys, vals, kk, vv, K::invalid());
    match r {
        Some(x) => Some(x.widen()),
        None => None,
    }
}

/// Removes `k` from a table whose empty slots hold the invalid word.
pub fn wide_take<K: Word, V: Word>(keys: &mut [K], vals: &mut [V], k: u64) -> (r: Option<u64>)
    requires
        tab_ok(old(keys)@, old(vals)@, K::spec_invalid()),
    ensures
        tab_ok(final(keys)@, final(vals)@, K::spec_invalid()),
        final(keys)@.len() == old(keys)@.len(),
        r == tab_view(old(keys)@, old(vals)@, K::spec_invalid()).get(k),
        tab_view(final(keys)@, final(vals)@, K::spec_invalid()) == tab_view(
            old(keys)@,
            old(vals)@,
            K::spec_invalid(),
        ).remove(k),
        contents(final(keys)@, K::spec_invalid()).len() == contents(old(keys)@, K::spec_invalid()).len()
            - (if r is Some { 1int } else { 0 }),
{
    proof {
        K::lemma_word();
        lemma_contents_finite(keys@, K::spec_invalid());
    }
    let ghost m = map_view(keys@, vals@, K::spec_invalid());
    if k >= word_limit::<K>() {
        proof {
            lemma_widen_map_at(m, K::spec_invalid(), k);
            lemma_map_view_dom(keys@, vals@, K::spec_invalid());
            assert(K::spec_narrow(K::spec_invalid().spec_widen()) == K::spec_invalid());
            assert(tab_view(keys@, vals@, K::spec_invalid()).remove(k) =~= tab_view(keys@, vals@, K::spec_invalid()));
        }
        return None;
    }
    let kk = K::narrow(k);
    proof {
        lemma_widen_map_at(m, kk, k);
        lemma_widen_map_remove(m, kk);
        assert(kk != K::spec_invalid());
        lemma_map_view_dom(keys@, vals@, K::spec_invalid());
    }
    let r = tab_remove(keys, vals, kk, K::invalid(), V::invalid());
    match r {
        Some(x) => Some(x.widen()),
        None => None,
    }
}

/// An empty table of `n` slots, with values `fill`.
pub fn wide_empty<K: Word, V: Word>(n: usize, fill: V) -> (r: (Vec<K>, Vec<V>))
    requires
        is_table_len(n as int),
    ensures
        tab_ok(r.0@, r.1@, K::spec_invalid()),
        r.0@.len() == n,
        tab_view(r.0@, r.1@, K::spec_invalid()) == Map::<u64, u64>::empty(),
        contents(r.0@, K::spec_invalid()).len() == 0,
{
    let keys = empty_table(K::invalid(), n);
    let vals = empty_table(fill, n);
    proof {
        lemma_empty_table::<K, FnvHash>(keys@, K::spec_invalid());
        lemma_map_view_dom(keys@, vals@, K::spec_invalid());
        assert(map_view(keys@, vals@, K::spec_invalid()) =~= Map::<K, V>::empty());
        lemma_widen_map_empty::<K, V>();
    }
    (keys, vals)
}

/// A table of `u64` keys whose last slot is not part of the table but
/// holds the marker of its empty slots, which may be any value that no key
/// takes.
pub open spec fn marked_ok(keys: Seq<u64>, vals: Seq<u64>) -> bool {
    &&& keys.len() >= 1
    &&& tab_ok(keys.drop_last(), vals, keys.last())
}

/// The map of a marked table.
pub open spec fn marked_view(keys: Seq<u64>, vals: Seq<u64>) -> Map<u64, u64> {
    tab_view(keys.drop_last(), vals, keys.last())
}

/// The number of keys of a marked table.
pub open spec fn marked_count(keys: Seq<u64>) -> nat {
    contents(keys.drop_last(), keys.last()).len()
}

/// The value of `k` in a marked table.
pub fn marked_get(keys: &[u64], vals: &[u64], k: u64) -> (r: Option<u64>)
    requires
        marked_ok(keys@, vals@),
    ensures
        r == marked_view(keys@, vals@).get(k),
{
    let n = keys.len() - 1;
    let inv = keys[n];
    let (t, _) = keys.split_at(n);
    assert(t@ == keys@.drop_last());
    let ghost m = map_view(t@, vals@, inv);
    proof {
        u64::lemma_word();
        lemma_widen_map_at(m, k, k);
    }
    if k == inv {
        proof {
            lemma_map_view_dom(t@, vals@, inv);
        }
        return None;
    }
    tab_get(t, vals, k, inv)
}

/// Sets the value of `k` in a marked table that has an empty slot.  A key
/// equal to the marker first moves the marker to a value that occurs
/// nowhere in the table.
pub fn marked_put(keys: &mut [u64], vals: &mut [u64], k: u64, v: u64) -> (r: Option<u64>)
    requires
        marked_ok(old(keys)@, old(vals)@),
        marked_count(old(keys)@) < old(vals)@.len(),
    ensures
        marked_ok(final(keys)@, final(vals)@),
        final(keys)@.len() == old(keys)@.len(),
        r == marked_view(old(keys)@, old(vals)@).get(k),
        marked_view(final(keys)@, final(vals)@) == marked_view(old(keys)@, old(vals)@).insert(k, v),
        marked_count(final(keys)@) == marked_count(old(keys)@) + (if r is None { 1int } else { 0 }),
{
    proof {
        u64::lemma_word();
    }
    let n = keys.len() - 1;
    let inv = keys[n];
    let ghost s0 = keys@.drop_last();
    if k == inv {
        let fresh = {
            let (t, _) = keys.split_at(n);
            assert(t@ == s0);
            fresh_marker(t, inv)
        };
        relabel(keys, inv, fresh);
        proof {
            lemma_relabel(s0, vals@, inv, fresh);
            assert(keys@.drop_last() =~= relabeled(s0, inv, fresh));
            assert(keys@.last() == fresh);
        }
    }
    let ghost mid = keys@;
    assert(marked_view(mid, vals@) == marked_view(old(keys)@, old(vals)@));
    let inv2 = keys[n];
    proof {
        lemma_contents_finite(mid.drop_last(), inv2);
        lemma_map_view_dom(mid.drop_last(), vals@, inv2);
        lemma_widen_map_at(map_view(mid.drop_last(), vals@, inv2), k, k);
        lemma_widen_map_insert(map_view(mid.drop_last(), vals@, inv2), k, v);
    }
    let (t, last) = keys.split_at_mut(n);
    assert(t@ == mid.drop_last());
    let r = tab_insert(t, vals, k, v, inv2);
    proof {
        lemma_map_view_dom(t@, vals@, inv2);
    }
    assert(keys@ =~= t@ + last@);
    assert(keys@.drop_last() =~= t@);
    r
}

/// Removes `k` from a marked table.
pub fn marked_take(keys: &mut [u64], vals: &mut [u64], k: u64) -> (r: Option<u64>)
    requires
        marked_ok(old(keys)@, old(vals)@),
    ensures
        marked_ok(final(keys)@, final(vals)@),
        final(keys)@.len() == old(keys)@.len(),
        r == marked_view(old(keys)@, old(vals)@).get(k),
        marked_view(final(keys)@, final(vals)@) == marked_view(old(keys)@, old(vals)@).remove(k),
        marked_count(final(keys)@) == marked_count(old(keys)@) - (if r is Some { 1int } else { 0 }),
{
    proof {
        u64::lemma_word();
    }
    let n = keys.len() - 1;
    let inv = keys[n];
    let ghost s0 = keys@.drop_last();
    proof {
        lemma_map_view_dom(s0, vals@, inv);
        lemma_widen_map_at(map_view(s0, vals@, inv), k, k);
        lemma_widen_map_remove(map_view(s0, vals@, inv), k);
        lemma_contents_finite(s0, inv);
    }
    if k == inv {
        proof {
            assert(marked_view(keys@, vals@).remove(k) =~= marked_view(keys@, vals@));
        }
        return None;
    }
    let (t, last) = keys.split_at_mut(n);
    assert(t@ == s0);
    let r = tab_remove(t, vals, k, inv, 0);
    proof {
        lemma_map_view_dom(t@, vals@, inv);
    }
    assert(keys@ =~= t@ + last@);
    assert(keys@.drop_last() =~= t@);
    r
}

/// An empty marked table of `n` slots.
pub fn marked_empty(n: usize, fill: u64) -> (r: (Vec<u64>, Vec<u64>))
    requires
        is_table_len(n as int),
        n < usize::MAX,
    ensures
        marked_ok(r.0@, r.1@),
        r.1@.len() == n,
        r.0@.len() == n + 1,
        marked_view(r.0@, r.1@) == Map::<u64, u64>::empty(),
        marked_count(r.0@) == 0,
{
    let (mut keys, vals) = wide_empty::<u64, u64>(n, fill);
    let ghost k0 = keys@;
    keys.push(u64::MAX);
    assert(keys@.drop_last() =~= k0);
    (keys, vals)
}

/// No two pairs share a key.
pub open spec fn distinct_keys<K, V>(s: Seq<(K, V)>) -> bool {
    forall|i: int, j: int| 0 <= i < s.len() && 0 <= j < s.len() && i != j ==> #[trigger] s[i].0 != #[trigger] s[j].0
}

/// The map of a sequence of pairs.
pub open spec fn pairs_map<K, V>(s: Seq<(K, V)>) -> Map<K, V> {
    Map::new(
        |k: K| exists|i: int| 0 <= i < s.len() && #[trigger] s[i].0 == k,
        |k: K| s[choose|i: int| 0 <= i < s.len() && #[trigger] s[i].0 == k].1,
    )
}

pub proof fn lemma_pairs_empty<K, V>()
    ensures
        pairs_map(Seq::<(K, V)>::empty()) == Map::<K, V>::empty(),
        distinct_keys(Seq::<(K, V)>::empty()),
{
    assert(pairs_map(Seq::<(K, V)>::empty()) =~= Map::<K, V>::empty());
}

/// The pair in slot `i` is in the map.
pub proof fn lemma_pairs_at<K, V>(s: Seq<(K, V)>, i: int)
    requires
        distinct_keys(s),
        0 <= i < s.len(),
    ensures
        pairs_map(s).contains_key(s[i].0),
        pairs_map(s)[s[i].0] == s[i].1,
{
    assert(s[i].0 == s[i].0);
    let j = choose|j: int| 0 <= j < s.len() && #[trigger] s[j].0 == s[i].0;
    if j != i {
        assert(s[i].0 != s[j].0);
    }
}

/// Appending a pair with a new key adds it to the map.
pub proof fn lemma_pairs_push<K, V>(s: Seq<(K, V)>, p: (K, V))
    requires
        distinct_keys(s),
        !pairs_map(s).contains_key(p.0),
    ensures
        distinct_keys(s.push(p)),
        pairs_map(s.push(p)) == pairs_map(s).insert(p.0, p.1),
{
    let t = s.push(p);
    assert forall|i: int, j: int| 0 <= i < t.len() && 0 <= j < t.len() && i != j implies #[trigger] t[i].0 != #[trigger] t[j].0 by {
        if i == s.len() {
            assert(s[j].0 == s[j].0);
        } else if j == s.len() {
            assert(s[i].0 == s[i].0);
        } else {
            assert(s[i].0 != s[j].0);
        }
    }
    assert forall|k: K| #[trigger] pairs_map(t).contains_key(k) <==> pairs_map(s).insert(p.0, p.1).contains_key(k) by {
        if pairs_map(t).contains_key(k) {
            let i = choose|i: int| 0 <= i < t.len() && #[trigger] t[i].0 == k;
            if i < s.len() {
                assert(s[i].0 == k);
            }
        }
        if pairs_map(s).contains_key(k) {
            let i = choose|i: int| 0 <= i < s.len() && #[trigger] s[i].0 == k;
            assert(t[i].0 == k);
        }
        if k == p.0 {
            assert(t[s.len() as int].0 == k);
        }
    }
    assert forall|k: K| #[trigger] pairs_map(t).contains_key(k) implies pairs_map(t)[k] == pairs_map(s).insert(p.0, p.1)[k] by {
        let i = choose|i: int| 0 <= i < t.len() && #[trigger] t[i].0 == k;
        lemma_pairs_at(t, i);
        if i < s.len() {
            assert(s[i] == t[i]);
            lemma_pairs_at(s, i);
        }
    }
    assert(pairs_map(t) =~= pairs_map(s).insert(p.0, p.1));
}

/// The map of distinct pairs has as many keys as there are pairs.
pub proof fn lemma_pairs_len<K, V>(s: Seq<(K, V)>)
    requires
        distinct_keys(s),
    ensures
        pairs_map(s).dom().finite(),
        pairs_map(s).len() == s.len(),
    decreases s.len(),
{
    if s.len() == 0 {
        assert(s =~= Seq::<(K, V)>::empty());
        lemma_pairs_empty::<K, V>();
    } else {
        let t = s.drop_last();
        assert(t.push(s.last()) =~= s);
        assert(distinct_keys(t)) by {
            assert forall|i: int, j: int| 0 <= i < t.len() && 0 <= j < t.len() && i != j implies #[trigger] t[i].0 != #[trigger] t[j].0 by {
                assert(s[i].0 != s[j].0);
            }
        }
        lemma_pairs_len(t);
        if pairs_map(t).contains_key(s.last().0) {
            let i = choose|i: int| 0 <= i < t.len() && #[trigger] t[i].0 == s.last().0;
            assert(s[i].0 != s[s.len() - 1].0);
        }
        lemma_pairs_push(t, s.last());
        assert(pairs_map(s).dom() =~= pairs_map(t).dom().insert(s.last().0));
    }
}

/// The entries of a small map, widened.
pub fn small_pairs<K: Word, V: Word>(keys: &[K], vals: &[V], sz: usize) -> (r: Vec<(u64, u64)>)
    requires
        small_ok(keys@, sz as int),
        sz <= vals@.len(),
    ensures
        distinct_keys(r@),
        pairs_map(r@) == small_view(keys@, vals@, sz as int),
{
    let mut r: Vec<(u64, u64)> = Vec::new();
    let mut i: usize = 0;
    proof {
        lemma_pairs_empty::<u64, u64>();
        lemma_small_empty_view::<K, V>(keys@, vals@);
    }
    while i < sz
        invariant
            small_ok(keys@, sz as int),
            sz <= vals@.len(),
            i <= sz,
            distinct_keys(r@),
            pairs_map(r@) == small_view(keys@, vals@, i as int),
        decreases sz - i,
    {
        proof {
            assert(small_ok(keys@, i as int));
            assert(!small_set(keys@, i as int).contains(keys@[i as int])) by {
                if small_set(keys@, i as int).contains(keys@[i as int]) {
                    let j = choose|j: int| 0 <= j < i && keys@[j] == keys@[i as int];
                    assert(keys@[j] != keys@[i as int]);
                }
            }
            lemma_small_push(keys@, vals@, i as int, K::spec_invalid(), keys@[i as int], vals@[i as int]);
            assert(keys@.update(i as int, keys@[i as int]) =~= keys@);
            assert(vals@.update(i as int, vals@[i as int]) =~= vals@);
            lemma_widen_map_insert(small_map(keys@, vals@, i as int), keys@[i as int], vals@[i as int]);
            lemma_widen_map_at(small_map(keys@, vals@, i as int), keys@[i as int], 0);
        }
        let p = (keys[i].widen(), vals[i].widen());
        proof {
            lemma_pairs_push(r@, p);
        }
        r.push(p);
        i += 1;
    }
    r
}

pub proof fn lemma_small_empty_view<K: Word, V: Word>(keys: Seq<K>, vals: Seq<V>)
    ensures
        small_view(keys, vals, 0) == Map::<u64, u64>::empty(),
{
    crate::small::lemma_small_empty(keys, vals);
    lemma_widen_map_empty::<K, V>();
}

/// The entries of a table, widened.
pub fn tab_pairs<K: Word, V: Word>(keys: &[K], vals: &[V], inv: K) -> (r: Vec<(u64, u64)>)
    requires
        tab_ok(keys@, vals@, inv),
    ensures
        distinct_keys(r@),
        pairs_map(r@) == tab_view(keys@, vals@, inv),
{
    proof {
        K::lemma_word();
    }
    let ghost m = map_view(keys@, vals@, inv);
    let mut r: Vec<(u64, u64)> = Vec::new();
    let mut i: usize = 0;
    proof {
        lemma_pairs_empty::<u64, u64>();
        assert(m.restrict(crate::robin::contents_upto(keys@, inv, 0)) =~= Map::<K, V>::empty());
        lemma_widen_map_empty::<K, V>();
    }
    while i < keys.len()
        invariant
            vstd::laws_eq::obeys_concrete_eq::<K>(),
            tab_ok(keys@, vals@, inv),
            m == map_view(keys@, vals@, inv),
            i <= keys@.len(),
            distinct_keys(r@),
            pairs_map(r@) == widen_map(m.restrict(crate::robin::contents_upto(keys@, inv, i as int))),
        decreases keys@.len() - i,
    {
        proof {
            crate::robin::lemma_contents_upto_step(keys@, inv, i as int);
        }
        let ghost before = m.restrict(crate::robin::contents_upto(keys@, inv, i as int));
        if !crate::robin::same_val(&keys[i], &inv) {
            proof {
                crate::table::lemma_map_view_at(keys@, vals@, inv, i as int);
                if crate::robin::contents_upto(keys@, inv, i as int).contains(keys@[i as int]) {
                    let a = choose|a: int| 0 <= a < i && keys@[a] == keys@[i as int];
                    assert(keys@[a] != keys@[i as int]);
                }
                assert(m.restrict(crate::robin::contents_upto(keys@, inv, i + 1)) =~= before.insert(
                    keys@[i as int],
                    vals@[i as int],
                ));
                lemma_widen_map_insert(before, keys@[i as int], vals@[i as int]);
                lemma_widen_map_at(before, keys@[i as int], 0);
            }
            let p = (keys[i].widen(), vals[i].widen());
            proof {
                lemma_pairs_push(r@, p);
            }
            r.push(p);
        } else {
            proof {
                assert(m.restrict(crate::robin::contents_upto(keys@, inv, i + 1)) =~= before);
            }
        }
        i += 1;
    }
    proof {
        crate::robin::lemma_table_len_pos(keys@.len() as int);
        crate::robin::lemma_contents_upto_step(keys@, inv, 0);
        lemma_map_view_dom(keys@, vals@, inv);
        assert(m.restrict(contents(keys@, inv)) =~= m);
    }
    r
}

/// A new table of `newcap` slots holding the map of a table whose empty
/// slots hold the invalid word.
pub fn wide_rehash<K: Word, V: Word>(keys: &[K], vals: &[V], newcap: usize) -> (r: (Vec<K>, Vec<V>))
    requires
        tab_ok(keys@, vals@, K::spec_invalid()),
        is_table_len(newcap as int),
        contents(keys@, K::spec_invalid()).len() <= newcap,
    ensures
        tab_ok(r.0@, r.1@, K::spec_invalid()),
        r.0@.len() == newcap,
        tab_view(r.0@, r.1@, K::spec_invalid()) == tab_view(keys@, vals@, K::spec_invalid()),
        contents(r.0@, K::spec_invalid()) == contents(keys@, K::spec_invalid()),
{
    crate::table::tab_rehash(keys, vals, K::invalid(), newcap, V::narrow(0))
}

/// A new marked table of `newcap` slots holding the map of a marked table.
pub fn marked_rehash(keys: &[u64], vals: &[u64], newcap: usize) -> (r: (Vec<u64>, Vec<u64>))
    requires
        marked_ok(keys@, vals@),
        is_table_len(newcap as int),
        newcap < usize::MAX,
        marked_count(keys@) <= newcap,
    ensures
        marked_ok(r.0@, r.1@),
        r.0@.len() == newcap + 1,
        r.1@.len() == newcap,
        marked_view(r.0@, r.1@) == marked_view(keys@, vals@),
        marked_count(r.0@) == marked_count(keys@),
{
    let n = keys.len() - 1;
    let inv = keys[n];
    let (t, _) = keys.split_at(n);
    assert(t@ == keys@.drop_last());
    let (mut nk, nv) = crate::table::tab_rehash(t, vals, inv, newcap, 0u64);
    let ghost k0 = nk@;
    nk.push(inv);
    assert(nk@.drop_last() =~= k0);
    (nk, nv)
}

} // verus!
