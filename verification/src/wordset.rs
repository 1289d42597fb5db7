//! Sets of `u64` kept in arrays of words, optionally with a parallel array
//! of values: the operations on one storage layout, small arrays searched
//! linearly or Robin Hood tables, stated over the `u64` set (or map) that
//! the layout holds.
use vstd::prelude::*;
use crate::robin::{
    contents, is_table_len, lemma_contents_finite, empty_table, lemma_empty_table,
    table_wf, collect_valid,
};
use crate::robin_map::{map_view, slot_replace};
use crate::small::{
    small_map, small_set, small_ok, small_avoids, small_find, lemma_small_index, lemma_small_push,
    lemma_small_set_value, lemma_small_swap_remove, lemma_small_len,
};
use crate::table::{
    tab_ok, tab_find, tab_insert, tab_remove, tab_rehash, set_remove, lemma_map_view_dom,
    lemma_map_view_at, fresh_marker, relabel, relabeled, lemma_relabel,
};
use crate::tinyset::FnvHash;
use crate::word::{
    Word, limit, widen_set, word_limit, lemma_widen_set_contains, lemma_widen_set_insert,
    lemma_widen_set_remove, lemma_widen_set_empty, lemma_widen_set_len, lemma_word_set_bound,
};

verus! {

/// The `u64` set of the first `sz` slots of a small array.
pub open spec fn small_view_set<K: Word>(keys: Seq<K>, sz: int) -> Set<u64> {
    widen_set(small_set(keys, sz))
}

/// The `u64` set of a table whose empty slots hold `inv`.
pub open spec fn tab_view_set<K: Word>(keys: Seq<K>, inv: K) -> Set<u64> {
    widen_set(contents(keys, inv))
}

/// A table of `u64` values whose last slot holds the marker of its empty
/// slots.
pub open spec fn marked_set_ok(keys: Seq<u64>) -> bool {
    &&& keys.len() >= 1
    &&& table_wf::<u64, FnvHash>(keys.drop_last(), keys.last())
}

/// The set of a marked table.
pub open spec fn marked_set_view(keys: Seq<u64>) -> Set<u64> {
    tab_view_set::<u64>(keys.drop_last(), keys.last())
}

/// The number of values of a marked table.
pub open spec fn marked_set_count(keys: Seq<u64>) -> nat {
    contents(keys.drop_last(), keys.last()).len()
}

pub proof fn lemma_small_view_set_len<K: Word>(keys: Seq<K>, sz: int)
    requires
        small_ok(keys, sz),
    ensures
        small_view_set(keys, sz).finite(),
        small_view_set(keys, sz).len() == sz,
{
    lemma_small_len(keys, sz, K::spec_invalid());
    lemma_widen_set_len(small_set(keys, sz));
}

pub proof fn lemma_tab_view_set_len<K: Word>(keys: Seq<K>, inv: K)
    requires
        table_wf::<K, FnvHash>(keys, inv),
    ensures
        tab_view_set(keys, inv).finite(),
        tab_view_set(keys, inv).len() == contents(keys, inv).len(),
        contents(keys, inv).len() <= keys.len(),
        inv == K::spec_invalid() ==> contents(keys, inv).len() <= limit::<K>(),
{
    lemma_contents_finite(keys, inv);
    lemma_widen_set_len(contents(keys, inv));
    if inv == K::spec_invalid() {
        lemma_word_set_bound(contents(keys, inv));
    }
}

/// The slot of `k` in a small array, if it is there.
pub fn set_small_has<K: Word>(keys: &[K], sz: usize, k: u64) -> (r: Option<usize>)
    requires
        small_ok(keys@, sz as int),
    ensures
        r is Some <==> small_view_set(keys@, sz as int).contains(k),
        r matches Some(i) ==> i < sz && keys@[i as int].spec_widen() == k,
{
    proof {
        K::lemma_word();
    }
    if k > word_limit::<K>() {
        proof {
            lemma_widen_set_contains(small_set(keys@, sz as int), K::spec_invalid(), k);
        }
        return None;
    }
    let kk = K::narrow(k);
    proof {
        lemma_widen_set_contains(small_set(keys@, sz as int), kk, k);
    }
    let r = small_find(keys, sz, kk);
    proof {
        if let Some(i) = r {
            assert(small_set(keys@, sz as int).contains(kk));
        }
    }
    r
}

/// Adds `k` to a small array that has a free slot.
pub fn set_small_add<K: Word>(keys: &mut [K], sz: usize, k: u64) -> (added: bool)
    requires
        small_ok(old(keys)@, sz as int),
        sz < old(keys)@.len(),
        k <= limit::<K>(),
    ensures
        final(keys)@.len() == old(keys)@.len(),
        added == !small_view_set(old(keys)@, sz as int).contains(k),
        small_ok(final(keys)@, sz + (if added { 1int } else { 0 })),
        small_avoids(old(keys)@, sz as int, K::spec_invalid()) && k != limit::<K>() ==> small_avoids(
            final(keys)@,
            sz + (if added { 1int } else { 0 }),
            K::spec_invalid(),
        ),
        small_view_set(final(keys)@, sz + (if added { 1int } else { 0 })) == small_view_set(
            old(keys)@,
            sz as int,
        ).insert(k),
{
    proof {
        K::lemma_word();
    }
    let kk = K::narrow(k);
    proof {
        lemma_widen_set_contains(small_set(keys@, sz as int), kk, k);
        lemma_widen_set_insert(small_set(keys@, sz as int), kk);
        assert(kk.spec_widen() == k);
        if k != limit::<K>() {
            assert(kk != K::spec_invalid()) by {
                assert(K::spec_narrow(K::spec_invalid().spec_widen()) == K::spec_invalid());
            }
        }
    }
    match small_find(keys, sz, kk) {
        Some(i) => {
            proof {
                assert(small_set(keys@, sz as int).contains(kk));
                assert(small_set(keys@, sz as int).insert(kk) =~= small_set(keys@, sz as int));
            }
            false
        },
        None => {
            proof {
                lemma_small_push(keys@, keys@, sz as int, K::spec_invalid(), kk, kk);
            }
            keys[sz] = kk;
            true
        },
    }
}

/// Removes `k` from a small array, moving the last value into its slot.
pub fn set_small_del<K: Word>(keys: &mut [K], sz: usize, k: u64) -> (removed: bool)
    requires
        small_ok(old(keys)@, sz as int),
    ensures
        final(keys)@.len() == old(keys)@.len(),
        removed == small_view_set(old(keys)@, sz as int).contains(k),
        small_ok(final(keys)@, sz - (if removed { 1int } else { 0 })),
        small_avoids(old(keys)@, sz as int, K::spec_invalid()) ==> small_avoids(
            final(keys)@,
            sz - (if removed { 1int } else { 0 }),
            K::spec_invalid(),
        ),
        small_view_set(final(keys)@, sz - (if removed { 1int } else { 0 })) == small_view_set(
            old(keys)@,
            sz as int,
        ).remove(k),
{
    proof {
        K::lemma_word();
    }
    if k > word_limit::<K>() {
        proof {
            lemma_widen_set_contains(small_set(keys@, sz as int), K::spec_invalid(), k);
            assert(small_view_set(keys@, sz as int).remove(k) =~= small_view_set(keys@, sz as int));
        }
        return false;
    }
    let kk = K::narrow(k);
    proof {
        lemma_widen_set_contains(small_set(keys@, sz as int), kk, k);
        lemma_widen_set_remove(small_set(keys@, sz as int), kk);
    }
    match small_find(keys, sz, kk) {
        Some(i) => {
            proof {
                lemma_small_index(keys@, sz as int, i as int);
                lemma_small_swap_remove(keys@, keys@, sz as int, K::spec_invalid(), i as int);
            }
            let lk = keys[sz - 1];
            keys[i] = lk;
            true
        },
        None => {
            proof {
                assert(small_set(keys@, sz as int).remove(kk) =~= small_set(keys@, sz as int));
            }
            false
        },
    }
}

/// The slot of `k` in a table whose empty slots hold the invalid word.
pub fn set_wide_has<K: Word>(keys: &[K], k: u64) -> (r: Option<usize>)
    requires
        table_wf::<K, FnvHash>(keys@, K::spec_invalid()),
    ensures
        r is Some <==> tab_view_set(keys@, K::spec_invalid()).contains(k),
        r matches Some(i) ==> i < keys@.len() && keys@[i as int].spec_widen() == k && keys@[i as int]
            != K::spec_invalid(),
{
    proof {
        K::lemma_word();
    }
    if k >= word_limit::<K>() {
        proof {
            lemma_widen_set_contains(contents(keys@, K::spec_invalid()), K::spec_invalid(), k);
            assert(K::spec_narrow(K::spec_invalid().spec_widen()) == K::spec_invalid());
        }
        return None;
    }
    let kk = K::narrow(k);
    proof {
        lemma_widen_set_contains(contents(keys@, K::spec_invalid()), kk, k);
        assert(kk != K::spec_invalid());
    }
    let r = tab_find(keys, kk, K::invalid());
    proof {
        if let Some(i) = r {
            assert(keys@.contains(kk));
        }
    }
    r
}

/// Adds `k` to a table whose empty slots hold the invalid word; the table
/// must have an empty slot.
pub fn set_wide_add<K: Word>(keys: &mut [K], k: u64) -> (added: bool)
    requires
        table_wf::<K, FnvHash>(old(keys)@, K::spec_invalid()),
        contents(old(keys)@, K::spec_invalid()).len() < old(keys)@.len(),
        k < limit::<K>(),
    ensures
        table_wf::<K, FnvHash>(final(keys)@, K::spec_invalid()),
        final(keys)@.len() == old(keys)@.len(),
        added == !tab_view_set(old(keys)@, K::spec_invalid()).contains(k),
        tab_view_set(final(keys)@, K::spec_invalid()) == tab_view_set(old(keys)@, K::spec_invalid()).insert(k),
        contents(final(keys)@, K::spec_invalid()).len() == contents(old(keys)@, K::spec_invalid()).len()
            + (if added { 1int } else { 0 }),
{
    proof {
        K::lemma_word();
        lemma_contents_finite(keys@, K::spec_invalid());
    }
    let kk = K::narrow(k);
    proof {
        lemma_widen_set_contains(contents(keys@, K::spec_invalid()), kk, k);
        lemma_widen_set_insert(contents(keys@, K::spec_invalid()), kk);
        assert(kk != K::spec_invalid()) by {
            assert(K::spec_narrow(K::spec_invalid().spec_widen()) == K::spec_invalid());
        }
    }
    crate::robin::insert::<K, FnvHash>(keys, kk, K::invalid())
}

/// Removes `k` from a table whose empty slots hold the invalid word.
pub fn set_wide_del<K: Word>(keys: &mut [K], k: u64) -> (removed: bool)
    requires
        table_wf::<K, FnvHash>(old(keys)@, K::spec_invalid()),
    ensures
        table_wf::<K, FnvHash>(final(keys)@, K::spec_invalid()),
        final(keys)@.len() == old(keys)@.len(),
        removed == tab_view_set(old(keys)@, K::spec_invalid()).contains(k),
        tab_view_set(final(keys)@, K::spec_invalid()) == tab_view_set(old(keys)@, K::spec_invalid()).remove(k),
        contents(final(keys)@, K::spec_invalid()).len() == contents(old(keys)@, K::spec_invalid()).len()
            - (if removed { 1int } else { 0 }),
{
    proof {
        K::lemma_word();
        lemma_contents_finite(keys@, K::spec_invalid());
    }
    if k >= word_limit::<K>() {
        proof {
            lemma_widen_set_contains(contents(keys@, K::spec_invalid()), K::spec_invalid(), k);
            assert(K::spec_narrow(K::spec_invalid().spec_widen()) == K::spec_invalid());
            assert(tab_view_set(keys@, K::spec_invalid()).remove(k) =~= tab_view_set(keys@, K::spec_invalid()));
        }
        return false;
    }
    let kk = K::narrow(k);
    proof {
        lemma_widen_set_contains(contents(keys@, K::spec_invalid()), kk, k);
        lemma_widen_set_remove(contents(keys@, K::spec_invalid()), kk);
        assert(kk != K::spec_invalid());
    }
    set_remove(keys, kk, K::invalid())
}

/// An empty table of `n` slots.
pub fn set_wide_empty<K: Word>(n: usize) -> (r: Vec<K>)
    requires
        is_table_len(n as int),
    ensures
        table_wf::<K, FnvHash>(r@, K::spec_invalid()),
        r@.len() == n,
        tab_view_set(r@, K::spec_invalid()) == Set::<u64>::empty(),
        contents(r@, K::spec_invalid()).len() == 0,
{
    let keys = empty_table(K::invalid(), n);
    proof {
        lemma_empty_table::<K, FnvHash>(keys@, K::spec_invalid());
        lemma_widen_set_empty::<K>();
    }
    keys
}

/// A new table of `newcap` slots holding the values of a table whose empty
/// slots hold `inv`.
pub fn set_rehash<K: Word>(keys: &[K], inv: K, newcap: usize) -> (r: Vec<K>)
    requires
        table_wf::<K, FnvHash>(keys@, inv),
        is_table_len(newcap as int),
        contents(keys@, inv).len() <= newcap,
    ensures
        table_wf::<K, FnvHash>(r@, inv),
        r@.len() == newcap,
        contents(r@, inv) == contents(keys@, inv),
{
    let (r, _) = tab_rehash(keys, keys, inv, newcap, inv);
    r
}

/// The slot of `k` in a marked table, if it is there.
pub fn set_marked_has(keys: &[u64], k: u64) -> (r: Option<usize>)
    requires
        marked_set_ok(keys@),
    ensures
        r is Some <==> marked_set_view(keys@).contains(k),
        r matches Some(i) ==> i < keys@.len() - 1 && keys@[i as int] == k && k != keys@.last(),
{
    proof {
        u64::lemma_word();
        lemma_widen_set_contains(contents(keys@.drop_last(), keys@.last()), k, k);
    }
    let n = keys.len() - 1;
    let inv = keys[n];
    if k == inv {
        return None;
    }
    let (t, _) = keys.split_at(n);
    assert(t@ == keys@.drop_last());
    let r = tab_find(t, k, inv);
    proof {
        if let Some(i) = r {
            assert(t@.contains(k));
        }
    }
    r
}

/// Adds `k` to a marked table that has an empty slot.  A value equal to the
/// marker first moves the marker to a value that occurs nowhere in the
/// table.
pub fn set_marked_add(keys: &mut [u64], k: u64) -> (added: bool)
    requires
        marked_set_ok(old(keys)@),
        marked_set_count(old(keys)@) < old(keys)@.len() - 1,
    ensures
        marked_set_ok(final(keys)@),
        final(keys)@.len() == old(keys)@.len(),
        added == !marked_set_view(old(keys)@).contains(k),
        marked_set_view(final(keys)@) == marked_set_view(old(keys)@).insert(k),
        marked_set_count(final(keys)@) == marked_set_count(old(keys)@) + (if added { 1int } else { 0 }),
{
    proof {
        u64::lemma_word();
    }
    let n = keys.len() - 1;
    let inv = keys[n];
    let ghost s0 = keys@.drop_last();
    if k == inv {
        let fresh = {
            let (t, _) = keys.split_at(n);
            assert(t@ == s0);
            fresh_marker(t, inv)
        };
        relabel(keys, inv, fresh);
        proof {
            lemma_relabel(s0, s0, inv, fresh);
            assert(keys@.drop_last() =~= relabeled(s0, inv, fresh));
            assert(keys@.last() == fresh);
        }
    }
    let ghost mid = keys@;
    let inv2 = keys[n];
    proof {
        lemma_contents_finite(mid.drop_last(), inv2);
        lemma_widen_set_contains(contents(mid.drop_last(), inv2), k, k);
        lemma_widen_set_insert(contents(mid.drop_last(), inv2), k);
    }
    let (t, last) = keys.split_at_mut(n);
    assert(t@ == mid.drop_last());
    let added = crate::robin::insert::<u64, FnvHash>(t, k, inv2);
    proof {
        lemma_contents_finite(t@, inv2);
    }
    assert(keys@ =~= t@ + last@);
    assert(keys@.drop_last() =~= t@);
    added
}

/// Removes `k` from a marked table.
pub fn set_marked_del(keys: &mut [u64], k: u64) -> (removed: bool)
    requires
        marked_set_ok(old(keys)@),
    ensures
        marked_set_ok(final(keys)@),
        final(keys)@.len() == old(keys)@.len(),
        removed == marked_set_view(old(keys)@).contains(k),
        marked_set_view(final(keys)@) == marked_set_view(old(keys)@).remove(k),
        marked_set_count(final(keys)@) == marked_set_count(old(keys)@) - (if removed { 1int } else { 0 }),
{
    proof {
        u64::lemma_word();
    }
    let n = keys.len() - 1;
    let inv = keys[n];
    let ghost s0 = keys@.drop_last();
    proof {
        lemma_contents_finite(s0, inv);
        lemma_widen_set_contains(contents(s0, inv), k, k);
        lemma_widen_set_remove(contents(s0, inv), k);
    }
    if k == inv {
        proof {
            assert(marked_set_view(keys@).remove(k) =~= marked_set_view(keys@));
        }
        return false;
    }
    let (t, last) = keys.split_at_mut(n);
    assert(t@ == s0);
    let removed = set_remove(t, k, inv);
    assert(keys@ =~= t@ + last@);
    assert(keys@.drop_last() =~= t@);
    removed
}

/// An empty marked table of `n` slots.
pub fn set_marked_empty(n: usize) -> (r: Vec<u64>)
    requires
        is_table_len(n as int),
        n < usize::MAX,
    ensures
        marked_set_ok(r@),
        r@.len() == n + 1,
        marked_set_view(r@) == Set::<u64>::empty(),
        marked_set_count(r@) == 0,
{
    let mut keys = set_wide_empty::<u64>(n);
    let ghost k0 = keys@;
    keys.push(u64::MAX);
    assert(keys@.drop_last() =~= k0);
    keys
}

/// A new marked table of `newcap` slots holding the values of a marked
/// table.
pub fn set_marked_rehash(keys: &[u64], newcap: usize) -> (r: Vec<u64>)
    requires
        marked_set_ok(keys@),
        is_table_len(newcap as int),
        newcap < usize::MAX,
        marked_set_count(keys@) <= newcap,
    ensures
        marked_set_ok(r@),
        r@.len() == newcap + 1,
        marked_set_view(r@) == marked_set_view(keys@),
        marked_set_count(r@) == marked_set_count(keys@),
{
    let n = keys.len() - 1;
    let inv = keys[n];
    let (t, _) = keys.split_at(n);
    assert(t@ == keys@.drop_last());
    let mut nk = set_rehash(t, inv, newcap);
    let ghost k0 = nk@;
    nk.push(inv);
    assert(nk@.drop_last() =~= k0);
    nk
}

/// The values of a small array, widened.
pub fn small_elems<K: Word>(keys: &[K], sz: usize) -> (r: Vec<u64>)
    requires
        small_ok(keys@, sz as int),
    ensures
        r@.to_set() == small_view_set(keys@, sz as int),
        r@.no_duplicates(),
{
    proof {
        K::lemma_word();
    }
    let mut r: Vec<u64> = Vec::new();
    let mut i: usize = 0;
    proof {
        crate::small::lemma_small_empty(keys@, keys@);
        lemma_widen_set_empty::<K>();
        assert(r@.to_set() =~= Set::<u64>::empty());
    }
    while i < sz
        invariant
            small_ok(keys@, sz as int),
            i <= sz,
            r@.to_set() == small_view_set(keys@, i as int),
            r@.no_duplicates(),
        decreases sz - i,
    {
        proof {
            assert(small_ok(keys@, i as int));
            assert(!small_set(keys@, i as int).contains(keys@[i as int])) by {
                if small_set(keys@, i as int).contains(keys@[i as int]) {
                    let j = choose|j: int| 0 <= j < i && keys@[j] == keys@[i as int];
                    assert(keys@[j] != keys@[i as int]);
                }
            }
            lemma_small_push(keys@, keys@, i as int, K::spec_invalid(), keys@[i as int], keys@[i as int]);
            assert(keys@.update(i as int, keys@[i as int]) =~= keys@);
            lemma_widen_set_insert(small_set(keys@, i as int), keys@[i as int]);
            lemma_widen_set_contains(small_set(keys@, i as int), keys@[i as int], 0);
            r@.lemma_push_to_set_commute(keys@[i as int].spec_widen());
            assert(!r@.contains(keys@[i as int].spec_widen())) by {
                if r@.contains(keys@[i as int].spec_widen()) {
                    assert(r@.to_set().contains(keys@[i as int].spec_widen()));
                }
            }
        }
        r.push(keys[i].widen());
        i += 1;
    }
    r
}

/// The values of a table whose empty slots hold `inv`, widened.
pub fn tab_elems<K: Word>(keys: &[K], inv: K) -> (r: Vec<u64>)
    requires
        table_wf::<K, FnvHash>(keys@, inv),
    ensures
        r@.to_set() == tab_view_set(keys@, inv),
        r@.no_duplicates(),
{
    proof {
        K::lemma_word();
    }
    let vs = collect_valid(keys, inv);
    let mut r: Vec<u64> = Vec::new();
    let mut i: usize = 0;
    proof {
        lemma_widen_set_empty::<K>();
        assert(vs@.take(0).to_set() =~= Set::<K>::empty());
        assert(r@.to_set() =~= Set::<u64>::empty());
    }
    while i < vs.len()
        invariant
            vs@.no_duplicates(),
            i <= vs@.len(),
            r@.to_set() == widen_set(vs@.take(i as int).to_set()),
            r@.no_duplicates(),
        decreases vs@.len() - i,
    {
        let x = vs[i];
        proof {
            let t = vs@.take(i as int);
            assert(vs@.take(i + 1) =~= t.push(x));
            t.lemma_push_to_set_commute(x);
            lemma_widen_set_insert(t.to_set(), x);
            assert(!t.to_set().contains(x)) by {
                if t.contains(x) {
                    let j = choose|j: int| 0 <= j < t.len() && t[j] == x;
                    assert(vs@[j] != vs@[i as int]);
                }
            }
            lemma_widen_set_contains(t.to_set(), x, 0);
            r@.lemma_push_to_set_commute(x.spec_widen());
            assert(!r@.contains(x.spec_widen())) by {
                if r@.contains(x.spec_widen()) {
                    assert(r@.to_set().contains(x.spec_widen()));
                }
            }
        }
        r.push(x.widen());
        i += 1;
    }
    proof {
        assert(vs@.take(vs@.len() as int) =~= vs@);
    }
    r
}

/// The map from the `u64` values of the keys of `m`.
pub open spec fn widen_keys<K: Word, V>(m: Map<K, V>) -> Map<u64, V> {
    Map::new(
        |x: u64| m.contains_key(K::spec_narrow(x)) && K::spec_narrow(x).spec_widen() == x,
        |x: u64| m[K::spec_narrow(x)],
    )
}

pub proof fn lemma_widen_keys_at<K: Word, V>(m: Map<K, V>, k: K, x: u64)
    ensures
        widen_keys(m).dom() == widen_set(m.dom()),
        m.contains_key(k) <==> widen_keys(m).contains_key(k.spec_widen()),
        m.contains_key(k) ==> widen_keys(m)[k.spec_widen()] == m[k],
        x > limit::<K>() ==> !widen_keys(m).contains_key(x),
        widen_keys(m).contains_key(x) ==> K::spec_narrow(x).spec_widen() == x,
{
    K::lemma_word();
    assert(K::spec_narrow(k.spec_widen()) == k);
    assert(K::spec_narrow(x).spec_widen() <= limit::<K>());
    assert(widen_keys(m).dom() =~= widen_set(m.dom()));
}

pub proof fn lemma_widen_keys_insert<K: Word, V>(m: Map<K, V>, k: K, v: V)
    ensures
        widen_keys(m.insert(k, v)) == widen_keys(m).insert(k.spec_widen(), v),
{
    K::lemma_word();
    assert(K::spec_narrow(k.spec_widen()) == k);
    let a = widen_keys(m.insert(k, v));
    let b = widen_keys(m).insert(k.spec_widen(), v);
    assert forall|x: u64| #[trigger] a.contains_key(x) <==> b.contains_key(x) by {
        if K::spec_narrow(x) == k && K::spec_narrow(x).spec_widen() == x {
            assert(x == k.spec_widen());
        }
    }
    assert forall|x: u64| #[trigger] a.contains_key(x) implies a[x] == b[x] by {
        if K::spec_narrow(x) == k {
            assert(x == k.spec_widen());
        }
    }
    assert(a =~= b);
}

pub proof fn lemma_widen_keys_remove<K: Word, V>(m: Map<K, V>, k: K)
    ensures
        widen_keys(m.remove(k)) == widen_keys(m).remove(k.spec_widen()),
{
    K::lemma_word();
    assert(K::spec_narrow(k.spec_widen()) == k);
    let a = widen_keys(m.remove(k));
    let b = widen_keys(m).remove(k.spec_widen());
    assert forall|x: u64| #[trigger] a.contains_key(x) <==> b.contains_key(x) by {
        if K::spec_narrow(x) == k && K::spec_narrow(x).spec_widen() == x {
            assert(x == k.spec_widen());
        }
    }
    assert(a =~= b);
}

/// Sets the value of `k` in the small array map that has a free slot.
pub fn co_small_put<K: Word, V>(keys: &mut [K], vals: &mut [V], sz: usize, k: u64, v: V) -> (r: Option<V>)
    requires
        small_ok(old(keys)@, sz as int),
        sz < old(keys)@.len(),
        sz < old(vals)@.len(),
        k <= limit::<K>(),
    ensures
        final(keys)@.len() == old(keys)@.len(),
        final(vals)@.len() == old(vals)@.len(),
        r == widen_keys(small_map(old(keys)@, old(vals)@, sz as int)).get(k),
        r is None == !small_view_set(old(keys)@, sz as int).contains(k),
        small_ok(final(keys)@, sz + (if r is None { 1int } else { 0 })),
        small_avoids(old(keys)@, sz as int, K::spec_invalid()) && k != limit::<K>() ==> small_avoids(
            final(keys)@,
            sz + (if r is None { 1int } else { 0 }),
            K::spec_invalid(),
        ),
        small_view_set(final(keys)@, sz + (if r is None { 1int } else { 0 })) == small_view_set(
            old(keys)@,
            sz as int,
        ).insert(k),
        widen_keys(small_map(final(keys)@, final(vals)@, sz + (if r is None { 1int } else { 0 })))
            == widen_keys(small_map(old(keys)@, old(vals)@, sz as int)).insert(k, v),
{
    proof {
        K::lemma_word();
    }
    let ghost m = small_map(keys@, vals@, sz as int);
    let kk = K::narrow(k);
    proof {
        lemma_widen_keys_at(m, kk, k);
        lemma_widen_keys_insert(m, kk, v);
        lemma_widen_set_contains(small_set(keys@, sz as int), kk, k);
        lemma_widen_set_insert(small_set(keys@, sz as int), kk);
        assert(m.dom() =~= small_set(keys@, sz as int));
        assert(kk.spec_widen() == k);
        if k != limit::<K>() {
            assert(kk != K::spec_invalid()) by {
                assert(K::spec_narrow(K::spec_invalid().spec_widen()) == K::spec_invalid());
            }
        }
    }
    match small_find(keys, sz, kk) {
        Some(i) => {
            proof {
                lemma_small_index(keys@, sz as int, i as int);
                lemma_small_set_value(keys@, vals@, sz as int, i as int, v);
                assert(small_set(keys@, sz as int).insert(kk) =~= small_set(keys@, sz as int));
            }
            let o = slot_replace(vals, i, v);
            Some(o)
        },
        None => {
            proof {
                lemma_small_push(keys@, vals@, sz as int, K::spec_invalid(), kk, v);
            }
            keys[sz] = kk;
            let _ = slot_replace(vals, sz, v);
            None
        },
    }
}

/// Removes `k` from the small array map, moving the last entry into its
/// slot; `filler` takes the place of the value in the slot left free.
pub fn co_small_take<K: Word, V>(keys: &mut [K], vals: &mut [V], sz: usize, k: u64, filler: V) -> (r: Option<V>)
    requires
        small_ok(old(keys)@, sz as int),
        sz <= old(vals)@.len(),
    ensures
        final(keys)@.len() == old(keys)@.len(),
        final(vals)@.len() == old(vals)@.len(),
        r == widen_keys(small_map(old(keys)@, old(vals)@, sz as int)).get(k),
        r is Some == small_view_set(old(keys)@, sz as int).contains(k),
        small_ok(final(keys)@, sz - (if r is Some { 1int } else { 0 })),
        small_avoids(old(keys)@, sz as int, K::spec_invalid()) ==> small_avoids(
            final(keys)@,
            sz - (if r is Some { 1int } else { 0 }),
            K::spec_invalid(),
        ),
        small_view_set(final(keys)@, sz - (if r is Some { 1int } else { 0 })) == small_view_set(
            old(keys)@,
            sz as int,
        ).remove(k),
        widen_keys(small_map(final(keys)@, final(vals)@, sz - (if r is Some { 1int } else { 0 })))
            == widen_keys(small_map(old(keys)@, old(vals)@, sz as int)).remove(k),
{
    proof {
        K::lemma_word();
    }
    let ghost m = small_map(keys@, vals@, sz as int);
    proof {
        assert(m.dom() =~= small_set(keys@, sz as int));
    }
    if k > word_limit::<K>() {
        proof {
            lemma_widen_keys_at(m, K::spec_invalid(), k);
            lemma_widen_set_contains(small_set(keys@, sz as int), K::spec_invalid(), k);
            assert(widen_keys(m).remove(k) =~= widen_keys(m));
            assert(small_view_set(keys@, sz as int).remove(k) =~= small_view_set(keys@, sz as int));
        }
        return None;
    }
    let kk = K::narrow(k);
    proof {
        lemma_widen_keys_at(m, kk, k);
        lemma_widen_keys_remove(m, kk);
        lemma_widen_set_contains(small_set(keys@, sz as int), kk, k);
        lemma_widen_set_remove(small_set(keys@, sz as int), kk);
    }
    match small_find(keys, sz, kk) {
        Some(i) => {
            proof {
                lemma_small_index(keys@, sz as int, i as int);
                lemma_small_swap_remove(keys@, vals@, sz as int, K::spec_invalid(), i as int);
            }
            let ghost v0 = vals@;
            let lk = keys[sz - 1];
            keys[i] = lk;
            let last = slot_replace(vals, sz - 1, filler);
            let o = if i + 1 == sz {
                last
            } else {
                slot_replace(vals, i, last)
            };
            proof {
                crate::small::lemma_small_map_frame(keys@, vals@, v0.update(i as int, v0[sz - 1]), sz - 1);
            }
            Some(o)
        },
        None => {
            proof {
                assert(m.remove(kk) =~= m);
                assert(small_set(keys@, sz as int).remove(kk) =~= small_set(keys@, sz as int));
            }
            None
        },
    }
}

/// Sets the value of `k` in a table map whose empty key slots hold `inv`;
/// the table must have an empty slot.
pub fn co_tab_put<K: Word, V>(keys: &mut [K], vals: &mut [V], k: u64, v: V, inv: K) -> (r: Option<V>)
    requires
        tab_ok(old(keys)@, old(vals)@, inv),
        contents(old(keys)@, inv).len() < old(keys)@.len(),
        K::spec_narrow(k).spec_widen() == k,
        K::spec_narrow(k) != inv,
    ensures
        tab_ok(final(keys)@, final(vals)@, inv),
        final(keys)@.len() == old(keys)@.len(),
        r == widen_keys(map_view(old(keys)@, old(vals)@, inv)).get(k),
        r is None == !tab_view_set(old(keys)@, inv).contains(k),
        tab_view_set(final(keys)@, inv) == tab_view_set(old(keys)@, inv).insert(k),
        widen_keys(map_view(final(keys)@, final(vals)@, inv)) == widen_keys(
            map_view(old(keys)@, old(vals)@, inv),
        ).insert(k, v),
        contents(final(keys)@, inv).len() == contents(old(keys)@, inv).len() + (if r is None {
            1int
        } else {
            0
        }),
{
    proof {
        K::lemma_word();
        lemma_contents_finite(keys@, inv);
    }
    let ghost m = map_view(keys@, vals@, inv);
    let kk = K::narrow(k);
    proof {
        lemma_widen_keys_at(m, kk, k);
        lemma_widen_keys_insert(m, kk, v);
        lemma_map_view_dom(keys@, vals@, inv);
        lemma_widen_set_contains(contents(keys@, inv), kk, k);
        lemma_widen_set_insert(contents(keys@, inv), kk);
    }
    tab_insert(keys, vals, kk, v, inv)
}

/// Removes `k` from a table map whose empty key slots hold `inv`;
/// `filler` takes the place of the value in the slot left empty.
pub fn co_tab_take<K: Word, V>(keys: &mut [K], vals: &mut [V], k: u64, inv: K, filler: V) -> (r: Option<V>)
    requires
        tab_ok(old(keys)@, old(vals)@, inv),
    ensures
        tab_ok(final(keys)@, final(vals)@, inv),
        final(keys)@.len() == old(keys)@.len(),
        r == widen_keys(map_view(old(keys)@, old(vals)@, inv)).get(k),
        r is Some == tab_view_set(old(keys)@, inv).contains(k),
        tab_view_set(final(keys)@, inv) == tab_view_set(old(keys)@, inv).remove(k),
        widen_keys(map_view(final(keys)@, final(vals)@, inv)) == widen_keys(
            map_view(old(keys)@, old(vals)@, inv),
        ).remove(k),
        contents(final(keys)@, inv).len() == contents(old(keys)@, inv).len() - (if r is Some {
            1int
        } else {
            0
        }),
{
    proof {
        K::lemma_word();
        lemma_contents_finite(keys@, inv);
        lemma_map_view_dom(keys@, vals@, inv);
    }
    let ghost m = map_view(keys@, vals@, inv);
    if k > word_limit::<K>() {
        proof {
            lemma_widen_keys_at(m, inv, k);
            lemma_widen_set_contains(contents(keys@, inv), inv, k);
            assert(widen_keys(m).remove(k) =~= widen_keys(m));
            assert(tab_view_set(keys@, inv).remove(k) =~= tab_view_set(keys@, inv));
        }
        return None;
    }
    let kk = K::narrow(k);
    if crate::robin::same_val(&kk, &inv) {
        proof {
            lemma_widen_keys_at(m, kk, k);
            lemma_widen_set_contains(contents(keys@, inv), kk, k);
            assert(!m.contains_key(kk));
            assert(!widen_keys(m).contains_key(k));
            assert(widen_keys(m).remove(k) =~= widen_keys(m));
            assert(tab_view_set(keys@, inv).remove(k) =~= tab_view_set(keys@, inv));
        }
        return None;
    }
    proof {
        lemma_widen_keys_at(m, kk, k);
        lemma_widen_keys_remove(m, kk);
        lemma_widen_set_contains(contents(keys@, inv), kk, k);
        lemma_widen_set_remove(contents(keys@, inv), kk);
    }
    tab_remove(keys, vals, kk, inv, filler)
}

/// The entries of the small array map, keys widened.
pub fn co_small_pairs<K: Word, V: Copy>(keys: &[K], vals: &[V], sz: usize) -> (r: Vec<(u64, V)>)
    requires
        small_ok(keys@, sz as int),
        sz <= vals@.len(),
    ensures
        crate::wordmap::distinct_keys(r@),
        crate::wordmap::pairs_map(r@) == widen_keys(small_map(keys@, vals@, sz as int)),
{
    let mut r: Vec<(u64, V)> = Vec::new();
    let mut i: usize = 0;
    proof {
        crate::wordmap::lemma_pairs_empty::<u64, V>();
        crate::small::lemma_small_empty(keys@, vals@);
        assert(widen_keys(Map::<K, V>::empty()) =~= Map::<u64, V>::empty());
    }
    while i < sz
        invariant
            small_ok(keys@, sz as int),
            sz <= vals@.len(),
            i <= sz,
            crate::wordmap::distinct_keys(r@),
            crate::wordmap::pairs_map(r@) == widen_keys(small_map(keys@, vals@, i as int)),
        decreases sz - i,
    {
        proof {
            assert(small_ok(keys@, i as int));
            assert(!small_set(keys@, i as int).contains(keys@[i as int])) by {
                if small_set(keys@, i as int).contains(keys@[i as int]) {
                    let j = choose|j: int| 0 <= j < i && keys@[j] == keys@[i as int];
                    assert(keys@[j] != keys@[i as int]);
                }
            }
            lemma_small_push(keys@, vals@, i as int, K::spec_invalid(), keys@[i as int], vals@[i as int]);
            assert(keys@.update(i as int, keys@[i as int]) =~= keys@);
            assert(vals@.update(i as int, vals@[i as int]) =~= vals@);
            lemma_widen_keys_insert(small_map(keys@, vals@, i as int), keys@[i as int], vals@[i as int]);
            lemma_widen_keys_at(small_map(keys@, vals@, i as int), keys@[i as int], 0);
        }
        let p = (keys[i].widen(), vals[i]);
        proof {
            crate::wordmap::lemma_pairs_push(r@, p);
        }
        r.push(p);
        i += 1;
    }
    r
}

/// The entries of a table map, keys widened.
pub fn co_tab_pairs<K: Word, V: Copy>(keys: &[K], vals: &[V], inv: K) -> (r: Vec<(u64, V)>)
    requires
        tab_ok(keys@, vals@, inv),
    ensures
        crate::wordmap::distinct_keys(r@),
        crate::wordmap::pairs_map(r@) == widen_keys(map_view(keys@, vals@, inv)),
{
    proof {
        K::lemma_word();
    }
    let ghost m = map_view(keys@, vals@, inv);
    let mut r: Vec<(u64, V)> = Vec::new();
    let mut i: usize = 0;
    proof {
        crate::wordmap::lemma_pairs_empty::<u64, V>();
        assert(m.restrict(crate::robin::contents_upto(keys@, inv, 0)) =~= Map::<K, V>::empty());
        assert(widen_keys(Map::<K, V>::empty()) =~= Map::<u64, V>::empty());
    }
    while i < keys.len()
        invariant
            vstd::laws_eq::obeys_concrete_eq::<K>(),
            tab_ok(keys@, vals@, inv),
            m == map_view(keys@, vals@, inv),
            i <= keys@.len(),
            crate::wordmap::distinct_keys(r@),
            crate::wordmap::pairs_map(r@) == widen_keys(m.restrict(crate::robin::contents_upto(keys@, inv, i as int))),
        decreases keys@.len() - i,
    {
        proof {
            crate::robin::lemma_contents_upto_step(keys@, inv, i as int);
        }
        let ghost before = m.restrict(crate::robin::contents_upto(keys@, inv, i as int));
        if !crate::robin::same_val(&keys[i], &inv) {
            proof {
                lemma_map_view_at(keys@, vals@, inv, i as int);
                if crate::robin::contents_upto(keys@, inv, i as int).contains(keys@[i as int]) {
                    let a = choose|a: int| 0 <= a < i && keys@[a] == keys@[i as int];
                    assert(keys@[a] != keys@[i as int]);
                }
                assert(m.restrict(crate::robin::contents_upto(keys@, inv, i + 1)) =~= before.insert(
                    keys@[i as int],
                    vals@[i as int],
                ));
                lemma_widen_keys_insert(before, keys@[i as int], vals@[i as int]);
                lemma_widen_keys_at(before, keys@[i as int], 0);
            }
            let p = (keys[i].widen(), vals[i]);
            proof {
                crate::wordmap::lemma_pairs_push(r@, p);
            }
            r.push(p);
        } else {
            proof {
                assert(m.restrict(crate::robin::contents_upto(keys@, inv, i + 1)) =~= before);
            }
        }
        i += 1;
    }
    proof {
        crate::robin::lemma_table_len_pos(keys@.len() as int);
        crate::robin::lemma_contents_upto_step(keys@, inv, 0);
        lemma_map_view_dom(keys@, vals@, inv);
        assert(m.restrict(contents(keys@, inv)) =~= m);
    }
    r
}

/// A marked table map: keys with the marker in a last extra slot, and
/// values for the table's slots.
pub open spec fn co_marked_ok<V>(keys: Seq<u64>, vals: Seq<V>) -> bool {
    &&& marked_set_ok(keys)
    &&& vals.len() == keys.len() - 1
}

/// The map of a marked table map.
pub open spec fn co_marked_view<V>(keys: Seq<u64>, vals: Seq<V>) -> Map<u64, V> {
    widen_keys::<u64, V>(map_view(keys.drop_last(), vals, keys.last()))
}

/// Sets the value of `k` in a marked table map that has an empty slot.  A
/// key equal to the marker first moves the marker to a value that occurs
/// nowhere in the table.
pub fn co_marked_put<V>(keys: &mut [u64], vals: &mut [V], k: u64, v: V) -> (r: Option<V>)
    requires
        co_marked_ok(old(keys)@, old(vals)@),
        marked_set_count(old(keys)@) < old(keys)@.len() - 1,
    ensures
        co_marked_ok(final(keys)@, final(vals)@),
        final(keys)@.len() == old(keys)@.len(),
        r == co_marked_view(old(keys)@, old(vals)@).get(k),
        r is None == !marked_set_view(old(keys)@).contains(k),
        marked_set_view(final(keys)@) == marked_set_view(old(keys)@).insert(k),
        co_marked_view(final(keys)@, final(vals)@) == co_marked_view(old(keys)@, old(vals)@).insert(k, v),
        marked_set_count(final(keys)@) == marked_set_count(old(keys)@) + (if r is None { 1int } else { 0 }),
{
    proof {
        u64::lemma_word();
    }
    let n = keys.len() - 1;
    let inv = keys[n];
    let ghost s0 = keys@.drop_last();
    if k == inv {
        let fresh = {
            let (t, _) = keys.split_at(n);
            assert(t@ == s0);
            fresh_marker(t, inv)
        };
        relabel(keys, inv, fresh);
        proof {
            lemma_relabel(s0, vals@, inv, fresh);
            assert(keys@.drop_last() =~= relabeled(s0, inv, fresh));
            assert(keys@.last() == fresh);
        }
    }
    let ghost mid = keys@;
    let inv2 = keys[n];
    proof {
        lemma_contents_finite(mid.drop_last(), inv2);
    }
    let (t, last) = keys.split_at_mut(n);
    assert(t@ == mid.drop_last());
    let r = co_tab_put(t, vals, k, v, inv2);
    assert(keys@ =~= t@ + last@);
    assert(keys@.drop_last() =~= t@);
    r
}

/// Removes `k` from a marked table map; `filler` takes the place of the
/// value in the slot left empty.
pub fn co_marked_take<V>(keys: &mut [u64], vals: &mut [V], k: u64, filler: V) -> (r: Option<V>)
    requires
        co_marked_ok(old(keys)@, old(vals)@),
    ensures
        co_marked_ok(final(keys)@, final(vals)@),
        final(keys)@.len() == old(keys)@.len(),
        r == co_marked_view(old(keys)@, old(vals)@).get(k),
        r is Some == marked_set_view(old(keys)@).contains(k),
        marked_set_view(final(keys)@) == marked_set_view(old(keys)@).remove(k),
        co_marked_view(final(keys)@, final(vals)@) == co_marked_view(old(keys)@, old(vals)@).remove(k),
        marked_set_count(final(keys)@) == marked_set_count(old(keys)@) - (if r is Some { 1int } else { 0 }),
{
    let n = keys.len() - 1;
    let (t, last) = keys.split_at_mut(n);
    let inv = last[0];
    assert(t@ == old(keys)@.drop_last());
    let r = co_tab_take(t, vals, k, inv, filler);
    assert(keys@ =~= t@ + last@);
    assert(keys@.drop_last() =~= t@);
    r
}

} // verus!
