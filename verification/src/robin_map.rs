//! Robin Hood maps: a key table as in `robin`, with a value table of the
//! same length whose slots move together with the keys.
use vstd::prelude::*;
use crate::robin::{
    KeyHash, SearchResult, search, search_from, table_wf, no_dup, probe_clear, passes,
    pdist, home, disp, nxt, is_table_len, holed_wf, lemma_place, lemma_clear_all,
    lemma_home_bound, lemma_probe_slot_of, lemma_mask_is_mod, lemma_wrapping_sub_mask,
    lemma_open_hole, lemma_shift_back, lemma_close_hole, lemma_dsum_nonneg, dsum, same_val,
};

verus! {

/// The slot holding key `k`.
pub open spec fn key_index<K>(keys: Seq<K>, k: K) -> int {
    choose|i: int| 0 <= i < keys.len() && keys[i] == k
}

/// The map that parallel key and value tables hold.
pub open spec fn map_view<K, V>(keys: Seq<K>, vals: Seq<V>, inv: K) -> Map<K, V> {
    Map::new(|k: K| k != inv && keys.contains(k), |k: K| vals[key_index(keys, k)])
}

pub proof fn lemma_key_index<K>(keys: Seq<K>, inv: K, a: int)
    requires
        no_dup(keys, inv),
        0 <= a < keys.len(),
        keys[a] != inv,
    ensures
        key_index(keys, keys[a]) == a,
{
    let b = key_index(keys, keys[a]);
    assert(keys[a] == keys[a]);
    if b != a {
        assert(keys[a] != keys[b]);
    }
}

/// Two pairs of tables that agree on every stored key and its value hold the same map.
pub proof fn lemma_map_view_same<K, V>(k1: Seq<K>, v1: Seq<V>, k2: Seq<K>, v2: Seq<V>, inv: K)
    requires
        no_dup(k1, inv),
        no_dup(k2, inv),
        forall|k: K| k != inv ==> (k1.contains(k) <==> k2.contains(k)),
        forall|a: int, b: int|
            0 <= a < k1.len() && 0 <= b < k2.len() && k1[a] != inv && k1[a] == k2[b] ==> v1[a] == v2[b],
    ensures
        map_view(k1, v1, inv) == map_view(k2, v2, inv),
{
    assert(map_view(k1, v1, inv) =~= map_view(k2, v2, inv)) by {
        assert forall|k: K| #[trigger] map_view(k1, v1, inv).contains_key(k) implies map_view(k1, v1, inv)[k] == map_view(k2, v2, inv)[k] by {
            let a = choose|a: int| 0 <= a < k1.len() && k1[a] == k;
            let b = choose|b: int| 0 <= b < k2.len() && k2[b] == k;
            lemma_key_index(k1, inv, a);
            lemma_key_index(k2, inv, b);
        }
    }
}

/// Storing `k` and `v` where the search for `k` stopped.
pub proof fn lemma_map_place<K, V, H: KeyHash<K>>(keys: Seq<K>, vals: Seq<V>, inv: K, k: K, v: V, j: int)
    requires
        table_wf::<K, H>(keys, inv),
        vals.len() == keys.len(),
        k != inv,
        !keys.contains(k),
        0 <= j < keys.len(),
        probe_clear::<K, H>(keys, inv, k, pdist(j, home::<K, H>(k, keys.len() as int), keys.len() as int)),
        keys[j] == inv || disp::<K, H>(keys, j) < pdist(j, home::<K, H>(k, keys.len() as int), keys.len() as int),
    ensures
        table_wf::<K, H>(keys.update(j, k), inv),
        keys[j] == inv ==> map_view(keys.update(j, k), vals.update(j, v), inv) == map_view(keys, vals, inv).insert(k, v),
        keys[j] != inv ==> {
            &&& map_view(keys.update(j, k), vals.update(j, v), inv).insert(keys[j], vals[j])
                == map_view(keys, vals, inv).insert(k, v)
            &&& !keys.update(j, k).contains(keys[j])
            &&& probe_clear::<K, H>(keys.update(j, k), inv, keys[j], disp::<K, H>(keys, j) + 1)
        },
{
    lemma_place::<K, H>(keys, inv, k, j);
    let k2 = keys.update(j, k);
    let v2 = vals.update(j, v);
    let n = keys.len() as int;
    let lhs = if keys[j] == inv { map_view(k2, v2, inv) } else { map_view(k2, v2, inv).insert(keys[j], vals[j]) };
    let rhs = map_view(keys, vals, inv).insert(k, v);
    assert(lhs =~= rhs) by {
        assert forall|z: K| lhs.contains_key(z) <==> rhs.contains_key(z) by {
            if z != inv && z != k && keys.contains(z) {
                let a = choose|a: int| 0 <= a < n && keys[a] == z;
                if a != j {
                    assert(k2[a] == z);
                }
            }
            if z != inv && k2.contains(z) && z != k {
                let a = choose|a: int| 0 <= a < n && k2[a] == z;
                assert(keys[a] == z);
            }
            if z == k {
                assert(k2[j] == k);
            }
            if keys[j] != inv && z == keys[j] {
                assert(keys[j] == z);
            }
        }
        assert forall|z: K| #[trigger] lhs.contains_key(z) implies lhs[z] == rhs[z] by {
            if z == k {
                assert(k2[j] == k);
                lemma_key_index(k2, inv, j);
            } else if keys[j] != inv && z == keys[j] {
                lemma_key_index(keys, inv, j);
            } else {
                let a = choose|a: int| 0 <= a < n && k2[a] == z;
                assert(a != j);
                assert(keys[a] == z);
                lemma_key_index(k2, inv, a);
                lemma_key_index(keys, inv, a);
            }
        }
    }
}

/// Puts `v` into slot `i` and hands back what the slot held.
pub fn slot_replace<V>(vals: &mut [V], i: usize, v: V) -> (r: V)
    requires
        i < old(vals)@.len(),
    ensures
        final(vals)@ == old(vals)@.update(i as int, v),
        r == old(vals)@[i as int],
{
    let mut x = v;
    std::mem::swap(&mut vals[i], &mut x);
    x
}

/// Carries the pair `(k, v)` forward from slot `i`, where it was
/// displaced, until it finds a slot of its own.
pub fn mapsteal<K: Copy + PartialEq, V, H: KeyHash<K>>(
    keys: &mut [K],
    vals: &mut [V],
    i: usize,
    k: K,
    v: V,
    invalid: K,
)
    requires
        vstd::laws_eq::obeys_concrete_eq::<K>(),
        table_wf::<K, H>(old(keys)@, invalid),
        old(vals)@.len() == old(keys)@.len(),
        k != invalid,
        !old(keys)@.contains(k),
        i < old(keys)@.len(),
        old(keys)@[i as int] != invalid,
        probe_clear::<K, H>(
            old(keys)@,
            invalid,
            k,
            pdist(i as int, home::<K, H>(k, old(keys)@.len() as int), old(keys)@.len() as int) + 1,
        ),
        exists|e: int| 0 <= e < old(keys)@.len() && old(keys)@[e] == invalid,
    ensures
        final(keys)@.len() == old(keys)@.len(),
        final(vals)@.len() == old(vals)@.len(),
        table_wf::<K, H>(final(keys)@, invalid),
        map_view(final(keys)@, final(vals)@, invalid) == map_view(old(keys)@, old(vals)@, invalid).insert(k, v),
{
    let ghost n = keys@.len() as int;
    let ghost target = map_view(keys@, vals@, invalid).insert(k, v);
    let ghost e = choose|e: int| 0 <= e < n && keys@[e] == invalid;
    let mut i = i;
    let mut ck = k;
    let mut cv = v;
    loop
        invariant
            vstd::laws_eq::obeys_concrete_eq::<K>(),
            keys@.len() == n,
            vals@.len() == n,
            n == old(keys)@.len(),
            n == old(vals)@.len(),
            target == map_view(old(keys)@, old(vals)@, invalid).insert(k, v),
            table_wf::<K, H>(keys@, invalid),
            ck != invalid,
            !keys@.contains(ck),
            i < n,
            keys@[i as int] != invalid,
            probe_clear::<K, H>(keys@, invalid, ck, pdist(i as int, home::<K, H>(ck, n), n) + 1),
            map_view(keys@, vals@, invalid).insert(ck, cv) == target,
            0 <= e < n,
            keys@[e] == invalid,
        decreases pdist(e, i as int, n),
    {
        let ghost s = keys@;
        let ghost vs = vals@;
        let ghost d0 = pdist(i as int, home::<K, H>(ck, n), n);
        proof {
            lemma_home_bound::<K, H>(ck, n);
            lemma_probe_slot_of::<K, H>(ck, e, n);
            let de = pdist(e, home::<K, H>(ck, n), n);
            if de < d0 + 1 {
                assert(passes::<K, H>(s, invalid, ck, de));
            }
        }
        match search_from::<K, H>(keys, i, ck, invalid) {
            SearchResult::Present(j) => {
                proof {
                    assert(s[j as int] == ck);
                }
                let _ = slot_replace(vals, j, cv);
                return;
            },
            SearchResult::Empty(j) => {
                proof {
                    lemma_map_place::<K, V, H>(s, vs, invalid, ck, cv, j as int);
                }
                keys[j] = ck;
                let _ = slot_replace(vals, j, cv);
                return;
            },
            SearchResult::Richer(inew) => {
                proof {
                    if probe_clear::<K, H>(s, invalid, ck, n) && inew == home::<K, H>(ck, n) {
                        lemma_clear_all::<K, H>(s, invalid, ck);
                        assert(false);
                    }
                    let dj = pdist(inew as int, home::<K, H>(ck, n), n);
                    let de = pdist(e, home::<K, H>(ck, n), n);
                    if dj == d0 {
                        assert(passes::<K, H>(s, invalid, ck, d0));
                        assert(inew == i);
                    }
                    if de < dj {
                        assert(passes::<K, H>(s, invalid, ck, de));
                    }
                    lemma_map_place::<K, V, H>(s, vs, invalid, ck, cv, inew as int);
                }
                let dk = keys[inew];
                keys[inew] = ck;
                cv = slot_replace(vals, inew, cv);
                ck = dk;
                i = inew;
            },
        }
    }
}

/// Inserts the pair `(k, v)`; the key table must have an empty slot.
/// Returns the value `k` had before, if any.
pub fn map_insert<K: Copy + PartialEq, V, H: KeyHash<K>>(
    keys: &mut [K],
    vals: &mut [V],
    k: K,
    v: V,
    invalid: K,
) -> (old_v: Option<V>)
    requires
        vstd::laws_eq::obeys_concrete_eq::<K>(),
        table_wf::<K, H>(old(keys)@, invalid),
        old(vals)@.len() == old(keys)@.len(),
        k != invalid,
        exists|e: int| 0 <= e < old(keys)@.len() && old(keys)@[e] == invalid,
    ensures
        final(keys)@.len() == old(keys)@.len(),
        final(vals)@.len() == old(vals)@.len(),
        table_wf::<K, H>(final(keys)@, invalid),
        map_view(final(keys)@, final(vals)@, invalid) == map_view(old(keys)@, old(vals)@, invalid).insert(k, v),
        old_v == (if map_view(old(keys)@, old(vals)@, invalid).contains_key(k) {
            Some(map_view(old(keys)@, old(vals)@, invalid)[k])
        } else {
            None
        }),
{
    let ghost s = keys@;
    let ghost vs = vals@;
    let ghost n = keys@.len() as int;
    match search::<K, H>(keys, k, invalid) {
        SearchResult::Present(i) => {
            let o = slot_replace(vals, i, v);
            proof {
                lemma_key_index(s, invalid, i as int);
                lemma_map_view_same(keys@, vals@, s, vs.update(i as int, v), invalid);
                assert(map_view(s, vs.update(i as int, v), invalid) =~= map_view(s, vs, invalid).insert(k, v)) by {
                    assert forall|z: K| #[trigger] map_view(s, vs.update(i as int, v), invalid).contains_key(z)
                        implies map_view(s, vs.update(i as int, v), invalid)[z] == map_view(s, vs, invalid).insert(k, v)[z] by {
                        let a = choose|a: int| 0 <= a < n && s[a] == z;
                        lemma_key_index(s, invalid, a);
                    }
                }
            }
            Some(o)
        },
        SearchResult::Empty(i) => {
            proof {
                lemma_map_place::<K, V, H>(s, vs, invalid, k, v, i as int);
            }
            keys[i] = k;
            let _ = slot_replace(vals, i, v);
            None
        },
        SearchResult::Richer(i) => {
            proof {
                if probe_clear::<K, H>(s, invalid, k, n) && i == home::<K, H>(k, n) {
                    lemma_clear_all::<K, H>(s, invalid, k);
                    assert(false);
                }
                lemma_map_place::<K, V, H>(s, vs, invalid, k, v, i as int);
            }
            let dk = keys[i];
            keys[i] = k;
            let dv = slot_replace(vals, i, v);
            proof {
                let e = choose|e: int| 0 <= e < n && s[e] == invalid;
                assert(keys@[e] == invalid);
            }
            mapsteal::<K, V, H>(keys, vals, i, dk, dv, invalid);
            None
        },
    }
}

/// Removes the pair in slot `i`, moving back the pairs after it whose keys
/// are not at home, and hands back its value; `filler` takes the place of
/// the value in the slot that is left empty.
pub fn map_remove_at<K: Copy + PartialEq, V, H: KeyHash<K>>(
    keys: &mut [K],
    vals: &mut [V],
    i: usize,
    invalid: K,
    filler: V,
) -> (r: V)
    requires
        vstd::laws_eq::obeys_concrete_eq::<K>(),
        table_wf::<K, H>(old(keys)@, invalid),
        old(vals)@.len() == old(keys)@.len(),
        i < old(keys)@.len(),
        old(keys)@[i as int] != invalid,
    ensures
        r == old(vals)@[i as int],
        final(keys)@.len() == old(keys)@.len(),
        final(vals)@.len() == old(vals)@.len(),
        table_wf::<K, H>(final(keys)@, invalid),
        map_view(final(keys)@, final(vals)@, invalid) == map_view(old(keys)@, old(vals)@, invalid).remove(
            old(keys)@[i as int],
        ),
{
    let ghost n = keys@.len() as int;
    let ghost target = map_view(keys@, vals@, invalid).remove(keys@[i as int]);
    proof {
        lemma_mask_is_mod(0, keys.len());
        lemma_open_hole::<K, H>(keys@, invalid, i as int);
        let s = keys@;
        let t = s.update(i as int, invalid);
        assert(map_view(t, vals@, invalid) =~= target) by {
            assert forall|z: K| map_view(t, vals@, invalid).contains_key(z) <==> target.contains_key(z) by {
                if z != invalid && s.contains(z) && z != s[i as int] {
                    let a = choose|a: int| 0 <= a < n && s[a] == z;
                    assert(t[a] == z);
                }
                if z != invalid && t.contains(z) {
                    let a = choose|a: int| 0 <= a < n && t[a] == z;
                    assert(s[a] == z);
                    assert(a != i);
                }
            }
            assert forall|z: K| #[trigger] map_view(t, vals@, invalid).contains_key(z) implies map_view(t, vals@, invalid)[z] == target[z] by {
                let a = choose|a: int| 0 <= a < n && t[a] == z;
                assert(s[a] == z);
                lemma_key_index(t, invalid, a);
                lemma_key_index(s, invalid, a);
            }
        }
    }
    let mask = keys.len() - 1;
    let mut hole = i;
    let mut filler = filler;
    let ghost mut t = keys@.update(hole as int, invalid);
    loop
        invariant
            vstd::laws_eq::obeys_concrete_eq::<K>(),
            n == keys@.len(),
            n == vals@.len(),
            n == old(keys)@.len(),
            n == old(vals)@.len(),
            target == map_view(old(keys)@, old(vals)@, invalid).remove(old(keys)@[i as int]),
            mask == n - 1,
            is_table_len(n),
            hole < n,
            t == keys@.update(hole as int, invalid),
            holed_wf::<K, H>(t, invalid, hole as int),
            map_view(t, vals@, invalid) == target,
            vals@[hole as int] == old(vals)@[i as int],
            dsum::<K, H>(t, invalid, n) >= 0,
        decreases dsum::<K, H>(t, invalid, n),
    {
        proof {
            lemma_mask_is_mod((hole + 1) as usize, keys.len());
            if hole + 1 < n {
                vstd::arithmetic::div_mod::lemma_small_mod((hole + 1) as nat, n as nat);
            } else {
                vstd::arithmetic::div_mod::lemma_mod_self_0(n);
            }
        }
        let iplus1 = (hole + 1) & mask;
        assert(iplus1 == nxt(hole as int, n));
        let stop = if same_val(&keys[iplus1], &invalid) {
            true
        } else {
            let hq = H::hash(keys[iplus1]);
            proof {
                lemma_wrapping_sub_mask(hq, iplus1, keys.len());
                vstd::arithmetic::div_mod::lemma_small_mod(iplus1 as nat, keys.len() as nat);
                lemma_home_bound::<K, H>(keys@[iplus1 as int], n);
            }
            (hq.wrapping_sub(iplus1) & mask) == 0
        };
        if stop {
            proof {
                if iplus1 != hole {
                    assert(t[iplus1 as int] == keys@[iplus1 as int]);
                } else {
                    lemma_home_bound::<K, H>(keys@[iplus1 as int], n);
                }
                lemma_close_hole::<K, H>(t, invalid, hole as int);
            }
            keys[hole] = invalid;
            assert(keys@ == t);
            let ghost vs = vals@;
            let r = slot_replace(vals, hole, filler);
            proof {
                lemma_map_view_same(t, vals@, t, vs, invalid);
            }
            return r;
        }
        let ghost vs = vals@;
        proof {
            assert(iplus1 != hole);
            assert(t[iplus1 as int] == keys@[iplus1 as int]);
            lemma_shift_back::<K, H>(t, invalid, hole as int);
            let t1 = t.update(hole as int, t[iplus1 as int]).update(iplus1 as int, invalid);
            lemma_dsum_nonneg::<K, H>(t1, invalid, n);
            let v1 = vs.update(hole as int, vs[iplus1 as int]).update(iplus1 as int, vs[hole as int]);
            assert forall|a: int, b: int|
                0 <= a < n && 0 <= b < n && t1[a] != invalid && t1[a] == t[b] implies v1[a] == vs[b] by {
                if a == hole {
                    if b != iplus1 {
                        assert(t[iplus1 as int] != t[b]);
                    }
                } else {
                    assert(t1[a] == t[a]);
                    if b != a {
                        assert(t[a] != t[b]);
                    }
                }
            }
            assert forall|z: K| z != invalid implies (t1.contains(z) <==> t.contains(z)) by {
                if t.contains(z) {
                    let a = choose|a: int| 0 <= a < n && t[a] == z;
                    if a == iplus1 {
                        assert(t1[hole as int] == z);
                    } else {
                        assert(t1[a] == z);
                    }
                }
                if t1.contains(z) {
                    let a = choose|a: int| 0 <= a < n && t1[a] == z;
                    if a == hole {
                        assert(t[iplus1 as int] == z);
                    } else {
                        assert(t[a] == z);
                    }
                }
            }
            lemma_map_view_same(t1, v1, t, vs, invalid);
        }
        let moved = keys[iplus1];
        keys[hole] = moved;
        let moved_v = slot_replace(vals, iplus1, filler);
        let removed = slot_replace(vals, hole, moved_v);
        filler = slot_replace(vals, iplus1, removed);
        let ghost t1 = t.update(hole as int, moved).update(iplus1 as int, invalid);
        hole = iplus1;
        proof {
            t = t1;
            assert(t == keys@.update(hole as int, invalid));
        }
    }
}

} // verus!
