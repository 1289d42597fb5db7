//! Robin Hood tables of words hashed with FNV-1a, holding a set of keys
//! or, with a parallel array of values, a map.
use vstd::prelude::*;
use crate::robin::{
    table_wf, contents, contents_upto, is_table_len, search, SearchResult, remove_at, empty_table,
    lemma_empty_table, lemma_contents_finite, lemma_contents_upto_step, no_dup, same_val,
};
use crate::robin_map::{map_view, map_insert, map_remove_at, lemma_key_index};
use crate::tinyset::FnvHash;
use crate::word::Word;
use crate::robin::{rh_at, disp};
use vstd::set_lib::{lemma_map_size, lemma_len_subset, set_int_range, lemma_int_range};
use vstd::relations::injective_on;

verus! {

/// Parallel key and value tables of one length, the keys a well-formed
/// Robin Hood table with `inv` marking the empty slots.
pub open spec fn tab_ok<K: Word, V>(keys: Seq<K>, vals: Seq<V>, inv: K) -> bool {
    &&& table_wf::<K, FnvHash>(keys, inv)
    &&& vals.len() == keys.len()
}

/// The keys of a map table are the values of its key table.
pub proof fn lemma_map_view_dom<K, V>(keys: Seq<K>, vals: Seq<V>, inv: K)
    ensures
        map_view(keys, vals, inv).dom() == contents(keys, inv),
{
    assert(map_view(keys, vals, inv).dom() =~= contents(keys, inv));
}

/// The key in slot `i` maps to the value in slot `i`.
pub proof fn lemma_map_view_at<K, V>(keys: Seq<K>, vals: Seq<V>, inv: K, i: int)
    requires
        no_dup(keys, inv),
        0 <= i < keys.len(),
        keys[i] != inv,
    ensures
        map_view(keys, vals, inv).contains_key(keys[i]),
        map_view(keys, vals, inv)[keys[i]] == vals[i],
{
    lemma_key_index(keys, inv, i);
    assert(keys.contains(keys[i]));
}

/// Finds the slot of `k`.
pub fn tab_find<K: Word>(keys: &[K], k: K, inv: K) -> (r: Option<usize>)
    requires
        table_wf::<K, FnvHash>(keys@, inv),
        k != inv,
    ensures
        r matches Some(i) ==> i < keys@.len() && keys@[i as int] == k,
        r is None ==> !contents(keys@, inv).contains(k),
{
    proof {
        K::lemma_word();
    }
    match search::<K, FnvHash>(keys, k, inv) {
        SearchResult::Present(i) => Some(i),
        SearchResult::Empty(_) => None,
        SearchResult::Richer(_) => None,
    }
}

/// The value of `k`, if it is a key.
pub fn tab_get<K: Word, V: Copy>(keys: &[K], vals: &[V], k: K, inv: K) -> (r: Option<V>)
    requires
        tab_ok(keys@, vals@, inv),
        k != inv,
    ensures
        r == map_view(keys@, vals@, inv).get(k),
{
    match tab_find(keys, k, inv) {
        Some(i) => {
            proof {
                lemma_map_view_at(keys@, vals@, inv, i as int);
            }
            Some(vals[i])
        },
        None => None,
    }
}

/// Sets the value of `k`; the key table must have an empty slot.
pub fn tab_insert<K: Word, V>(keys: &mut [K], vals: &mut [V], k: K, v: V, inv: K) -> (r: Option<V>)
    requires
        tab_ok(old(keys)@, old(vals)@, inv),
        k != inv,
        contents(old(keys)@, inv).len() < old(keys)@.len(),
    ensures
        tab_ok(final(keys)@, final(vals)@, inv),
        final(keys)@.len() == old(keys)@.len(),
        map_view(final(keys)@, final(vals)@, inv) == map_view(old(keys)@, old(vals)@, inv).insert(k, v),
        r == map_view(old(keys)@, old(vals)@, inv).get(k),
        contents(final(keys)@, inv) == contents(old(keys)@, inv).insert(k),
{
    proof {
        K::lemma_word();
        lemma_contents_finite(keys@, inv);
    }
    let r = map_insert::<K, V, FnvHash>(keys, vals, k, v, inv);
    proof {
        lemma_map_view_dom(keys@, vals@, inv);
        lemma_map_view_dom(old(keys)@, old(vals)@, inv);
        assert(map_view(keys@, vals@, inv).dom() == map_view(old(keys)@, old(vals)@, inv).insert(k, v).dom());
    }
    r
}

/// Removes `k` and its value, returning the value; `filler` takes the
/// place of the value in the slot that is left empty.
pub fn tab_remove<K: Word, V>(keys: &mut [K], vals: &mut [V], k: K, inv: K, filler: V) -> (r: Option<V>)
    requires
        tab_ok(old(keys)@, old(vals)@, inv),
        k != inv,
    ensures
        tab_ok(final(keys)@, final(vals)@, inv),
        final(keys)@.len() == old(keys)@.len(),
        map_view(final(keys)@, final(vals)@, inv) == map_view(old(keys)@, old(vals)@, inv).remove(k),
        r == map_view(old(keys)@, old(vals)@, inv).get(k),
        contents(final(keys)@, inv) == contents(old(keys)@, inv).remove(k),
{
    proof {
        K::lemma_word();
    }
    match tab_find(keys, k, inv) {
        Some(i) => {
            proof {
                lemma_map_view_at(keys@, vals@, inv, i as int);
            }
            let o = map_remove_at::<K, V, FnvHash>(keys, vals, i, inv, filler);
            proof {
                lemma_map_view_dom(keys@, vals@, inv);
                lemma_map_view_dom(old(keys)@, old(vals)@, inv);
                assert(map_view(keys@, vals@, inv).dom() == map_view(old(keys)@, old(vals)@, inv).remove(k).dom());
            }
            Some(o)
        },
        None => {
            proof {
                lemma_map_view_dom(keys@, vals@, inv);
                assert(map_view(keys@, vals@, inv).remove(k) =~= map_view(keys@, vals@, inv));
                assert(contents(keys@, inv).remove(k) =~= contents(keys@, inv));
            }
            None
        },
    }
}

/// Removes `k` from a key table, telling whether it was there.
pub fn set_remove<K: Word>(keys: &mut [K], k: K, inv: K) -> (r: bool)
    requires
        table_wf::<K, FnvHash>(old(keys)@, inv),
        k != inv,
    ensures
        table_wf::<K, FnvHash>(final(keys)@, inv),
        final(keys)@.len() == old(keys)@.len(),
        contents(final(keys)@, inv) == contents(old(keys)@, inv).remove(k),
        r == contents(old(keys)@, inv).contains(k),
{
    proof {
        K::lemma_word();
    }
    match tab_find(keys, k, inv) {
        Some(i) => {
            remove_at::<K, FnvHash>(keys, i, inv);
            true
        },
        None => {
            proof {
                assert(contents(keys@, inv).remove(k) =~= contents(keys@, inv));
            }
            false
        },
    }
}

/// A new key table of `newcap` slots and value table, holding the map of
/// the old ones.
pub fn tab_rehash<K: Word, V: Copy>(keys: &[K], vals: &[V], inv: K, newcap: usize, fill: V) -> (r: (
    Vec<K>,
    Vec<V>,
))
    requires
        tab_ok(keys@, vals@, inv),
        is_table_len(newcap as int),
        contents(keys@, inv).len() <= newcap,
    ensures
        tab_ok(r.0@, r.1@, inv),
        r.0@.len() == newcap,
        map_view(r.0@, r.1@, inv) == map_view(keys@, vals@, inv),
        contents(r.0@, inv) == contents(keys@, inv),
{
    proof {
        K::lemma_word();
        lemma_contents_finite(keys@, inv);
    }
    let mut nk = empty_table(inv, newcap);
    let mut nv = empty_table(fill, newcap);
    proof {
        lemma_empty_table::<K, FnvHash>(nk@, inv);
        assert(map_view(nk@, nv@, inv) =~= map_view(keys@, vals@, inv).restrict(Set::empty()));
        if keys@.len() > 0 {
            lemma_contents_upto_step(keys@, inv, 0);
        }
        assert(contents_upto(keys@, inv, 0) =~= Set::<K>::empty());
    }
    let mut k: usize = 0;
    while k < keys.len()
        invariant
            vstd::laws_eq::obeys_concrete_eq::<K>(),
            tab_ok(keys@, vals@, inv),
            contents(keys@, inv).finite(),
            contents(keys@, inv).len() <= newcap,
            k <= keys@.len(),
            tab_ok(nk@, nv@, inv),
            nk@.len() == newcap,
            contents(nk@, inv) == contents_upto(keys@, inv, k as int),
            map_view(nk@, nv@, inv) == map_view(keys@, vals@, inv).restrict(contents_upto(keys@, inv, k as int)),
        decreases keys@.len() - k,
    {
        proof {
            lemma_contents_upto_step(keys@, inv, k as int);
            vstd::set_lib::lemma_len_subset(contents_upto(keys@, inv, k as int), contents(keys@, inv));
            lemma_contents_finite(nk@, inv);
        }
        let e = keys[k];
        if !same_val(&e, &inv) {
            proof {
                if contents_upto(keys@, inv, k as int).contains(e) {
                    let a = choose|a: int| 0 <= a < k && keys@[a] == e;
                    assert(keys@[k as int] != keys@[a]);
                }
                vstd::set_lib::lemma_len_subset(contents_upto(keys@, inv, k + 1), contents(keys@, inv));
                lemma_map_view_at(keys@, vals@, inv, k as int);
            }
            let ev = vals[k];
            let ghost before = map_view(nk@, nv@, inv);
            tab_insert(nk.as_mut_slice(), nv.as_mut_slice(), e, ev, inv);
            proof {
                let full = map_view(keys@, vals@, inv);
                assert(full.restrict(contents_upto(keys@, inv, k + 1)) =~= before.insert(e, ev));
            }
        } else {
            proof {
                assert(map_view(keys@, vals@, inv).restrict(contents_upto(keys@, inv, k + 1)) =~= map_view(
                    keys@,
                    vals@,
                    inv,
                ).restrict(contents_upto(keys@, inv, k as int)));
            }
        }
        k += 1;
    }
    proof {
        if keys@.len() > 0 {
            lemma_contents_upto_step(keys@, inv, (keys@.len() - 1) as int);
        } else {
            assert(contents(keys@, inv) =~= Set::<K>::empty());
            assert(contents_upto(keys@, inv, 0) =~= Set::<K>::empty());
        }
        lemma_map_view_dom(keys@, vals@, inv);
        assert(map_view(keys@, vals@, inv).restrict(contents(keys@, inv)) =~= map_view(keys@, vals@, inv));
    }
    (nk, nv)
}

/// `a - j`, wrapping around the `u64` values, for `0 <= j <= 2^64`.
pub open spec fn back(a: u64, j: int) -> int {
    if j <= a {
        a - j
    } else {
        a - j + 0x1_0000_0000_0000_0000
    }
}

/// If the `m` values below `a` (wrapping) are all in `s`, then `s` has at
/// least `m` elements.
pub proof fn lemma_back_count(s: Set<u64>, a: u64, m: int)
    requires
        s.finite(),
        0 <= m < 0x1_0000_0000_0000_0000,
        forall|j: int| 1 <= j <= m ==> s.contains(#[trigger] back(a, j) as u64),
    ensures
        m <= s.len(),
{
    let f = |j: int| back(a, j) as u64;
    let r = set_int_range(1, m + 1);
    assert(injective_on(f, r)) by {
        assert forall|x: int, y: int| r.contains(x) && r.contains(y) && #[trigger] f(x) == #[trigger] f(y) implies x == y by {
            assert(0 <= back(a, x) < 0x1_0000_0000_0000_0000);
            assert(0 <= back(a, y) < 0x1_0000_0000_0000_0000);
        }
    }
    lemma_int_range(1, m + 1);
    lemma_map_size(r, r.map(f), f);
    assert(r.map(f).subset_of(s)) by {
        assert forall|x: u64| #[trigger] r.map(f).contains(x) implies s.contains(x) by {
            let j = choose|j: int| r.contains(j) && x == f(j);
            assert(s.contains(back(a, j) as u64));
        }
    }
    lemma_len_subset(r.map(f), s);
}

/// A value that occurs nowhere in the table: neither stored nor `inv`.
/// The values below `inv` are tried in turn, wrapping around.
pub fn fresh_marker(keys: &[u64], inv: u64) -> (r: u64)
    requires
        table_wf::<u64, FnvHash>(keys@, inv),
    ensures
        r != inv,
        !keys@.contains(r),
{
    let ghost c = contents(keys@, inv);
    proof {
        lemma_contents_finite(keys@, inv);
        let p = choose|p: nat| p < usize::BITS && keys@.len() == vstd::arithmetic::power2::pow2(p);
        vstd::arithmetic::power2::lemma2_to64();
        vstd::arithmetic::power2::lemma2_to64_rest();
        assert(p <= 63);
        if p < 63 {
            vstd::arithmetic::power2::lemma_pow2_strictly_increases(p, 63);
        }
        assert(keys@.len() <= 0x8000_0000_0000_0000);
    }
    let mut cand = inv.wrapping_sub(1);
    let ghost mut steps: int = 0;
    loop
        invariant
            table_wf::<u64, FnvHash>(keys@, inv),
            c == contents(keys@, inv),
            c.finite(),
            c.len() <= keys@.len() <= 0x8000_0000_0000_0000,
            0 <= steps <= c.len(),
            cand == back(inv, steps + 1),
            forall|j: int| 1 <= j <= steps ==> c.contains(#[trigger] back(inv, j) as u64),
        decreases c.len() - steps,
    {
        match tab_find(keys, cand, inv) {
            None => {
                proof {
                    if keys@.contains(cand) {
                        let e = choose|e: int| 0 <= e < keys@.len() && keys@[e] == cand;
                        assert(c.contains(cand));
                    }
                }
                return cand;
            },
            Some(_) => {
                proof {
                    assert(c.contains(back(inv, steps + 1) as u64));
                    lemma_back_count(c, inv, steps + 1);
                }
                cand = cand.wrapping_sub(1);
                proof {
                    steps = steps + 1;
                }
            },
        }
    }
}

/// `s` with every `a` replaced by `b`.
pub open spec fn relabeled(s: Seq<u64>, a: u64, b: u64) -> Seq<u64> {
    Seq::new(s.len(), |j: int| if s[j] == a { b } else { s[j] })
}

/// Replaces every occurrence of `a` by `b`.
pub fn relabel(keys: &mut [u64], a: u64, b: u64)
    ensures
        final(keys)@ == relabeled(old(keys)@, a, b),
{
    let mut j: usize = 0;
    while j < keys.len()
        invariant
            j <= keys@.len(),
            keys@.len() == old(keys)@.len(),
            forall|i: int| 0 <= i < j ==> keys@[i] == relabeled(old(keys)@, a, b)[i],
            forall|i: int| j <= i < keys@.len() ==> keys@[i] == old(keys)@[i],
        decreases keys@.len() - j,
    {
        if keys[j] == a {
            keys[j] = b;
        }
        j += 1;
    }
    assert(keys@ =~= relabeled(old(keys)@, a, b));
}

/// Marking the empty slots with a value that occurs nowhere else keeps the
/// table and what it holds.
pub proof fn lemma_relabel<V>(s: Seq<u64>, vals: Seq<V>, a: u64, b: u64)
    requires
        table_wf::<u64, FnvHash>(s, a),
        !s.contains(b),
        a != b,
    ensures
        table_wf::<u64, FnvHash>(relabeled(s, a, b), b),
        contents(relabeled(s, a, b), b) == contents(s, a),
        map_view(relabeled(s, a, b), vals, b) == map_view(s, vals, a),
{
    let t = relabeled(s, a, b);
    let n = s.len() as int;
    assert forall|j: int| 0 <= j < n implies (t[j] != b <==> s[j] != a) && (s[j] != a ==> t[j] == s[j]) by {
        if s[j] == b {
            assert(s.contains(b));
        }
    }
    assert forall|j: int| 0 <= j < n implies #[trigger] rh_at::<u64, FnvHash>(t, b, j) by {
        assert(rh_at::<u64, FnvHash>(s, a, j));
        let p = crate::robin::prv(j, n);
        if s[j] != a {
            assert(disp::<u64, FnvHash>(t, j) == disp::<u64, FnvHash>(s, j));
            if 0 <= p < n && s[p] != a {
                assert(disp::<u64, FnvHash>(t, p) == disp::<u64, FnvHash>(s, p));
            }
        }
    }
    assert forall|i: int, j: int| 0 <= i < n && 0 <= j < n && i != j && t[i] != b implies #[trigger] t[i] != #[trigger] t[j] by {
        assert(s[i] != s[j]);
    }
    assert(contents(t, b) =~= contents(s, a)) by {
        assert forall|x: u64| contents(t, b).contains(x) implies contents(s, a).contains(x) by {
            let e = choose|e: int| 0 <= e < n && t[e] == x;
            assert(s[e] == x);
        }
        assert forall|x: u64| contents(s, a).contains(x) implies contents(t, b).contains(x) by {
            let e = choose|e: int| 0 <= e < n && s[e] == x;
            assert(t[e] == x);
        }
    }
    assert(map_view(t, vals, b) =~= map_view(s, vals, a)) by {
        assert forall|k: u64| #[trigger] map_view(t, vals, b).contains_key(k) <==> map_view(s, vals, a).contains_key(k) by {
            assert(contents(t, b).contains(k) <==> contents(s, a).contains(k));
        }
        assert forall|k: u64| #[trigger] map_view(t, vals, b).contains_key(k) implies map_view(t, vals, b)[k] == map_view(s, vals, a)[k] by {
            let e = choose|e: int| 0 <= e < n && t[e] == k;
            assert(s[e] == k);
            lemma_key_index(t, b, e);
            lemma_key_index(s, a, e);
        }
    }
}

} // verus!
