//! A Robin Hood table of values themselves, for sets of large values.
//! A free slot is zero, so the value zero is stored as a marker: a
//! number above 64 that stands for zero and is itself kept out of the set.
use vstd::prelude::*;
use crate::setu64::{
    keys_of, wtable_wf, has_key, words, has_room, p_lookfor, p_insert, p_remove, LookedUp,
    lemma_word_unique, law_place_word, word_of,
};
use crate::ktable::{ktable_wf, lemma_kplace};
use crate::heap::HeapAdd;
use crate::wtable::{lemma_words_len, lemma_room, lemma_room_count};

verus! {

/// The values of a table with marker `m`: zero if the marker is stored,
/// and the other stored values but the marker.
pub open spec fn big_view(a: Seq<u64>, m: u64) -> Set<u64> {
    Set::new(|e: u64| if e == 0 { words(a).contains(m) } else { e != m && words(a).contains(e) })
}

/// A table in Robin Hood order, keyed by the values themselves, with a
/// free slot and a marker above 64.
pub open spec fn big_ok(a: Seq<u64>, m: u64) -> bool {
    &&& m > 64
    &&& wtable_wf(a, 0)
    &&& has_room(a)
    &&& a.len() * 2 <= usize::MAX
}

proof fn lemma_shr0(w: u64)
    ensures
        w >> 0u64 == w,
{
    assert(w >> 0u64 == w) by (bit_vector);
}

/// The value that stands for `e` in a table with marker `m`.
pub open spec fn slot_value(e: u64, m: u64) -> u64 {
    if e == 0 {
        m
    } else {
        e
    }
}

/// A table with marker `m` holds `e` when it stores the value that
/// stands for `e`.
proof fn lemma_big_has(a: Seq<u64>, m: u64, e: u64)
    requires
        m > 64,
        e != m,
    ensures
        big_view(a, m).contains(e) == words(a).contains(slot_value(e, m)),
{
}

/// Looking for the value that stands for `e` finds it exactly when it is stored.
proof fn lemma_found(a: Seq<u64>, k: u64, i: int)
    requires
        0 <= i < a.len(),
        a[i] != 0,
        a[i] >> 0u64 == k,
    ensures
        words(a).contains(k),
{
    lemma_shr0(a[i]);
}

proof fn lemma_not_found(a: Seq<u64>, k: u64)
    requires
        !has_key(a, 0, k),
    ensures
        !words(a).contains(k),
{
    if words(a).contains(k) {
        let j = choose|j: int| 0 <= j < a.len() && a[j] == k;
        lemma_shr0(k);
        assert(keys_of(a, 0)[j] == Some(k as int));
    }
}

/// Whether the table holds `e`.
pub fn big_contains(a: &[u64], m: u64, e: u64) -> (r: bool)
    requires
        big_ok(a@, m),
    ensures
        r == big_view(a@, m).contains(e),
{
    if e == m {
        return false;
    }
    let v = if e == 0 {
        m
    } else {
        e
    };
    proof {
        lemma_big_has(a@, m, e);
    }
    match p_lookfor(v, a, 0) {
        LookedUp::KeyFound(i) => {
            proof {
                lemma_found(a@, v, i as int);
            }
            true
        },
        _ => {
            proof {
                lemma_not_found(a@, v);
            }
            false
        },
    }
}

/// A table holds as many values as it stores.
pub proof fn lemma_big_len(a: Seq<u64>, m: u64)
    requires
        big_ok(a, m),
    ensures
        words(a).finite(),
        big_view(a, m).finite(),
        big_view(a, m).len() == words(a).len(),
{
    lemma_words_len(a, 0);
    let f = |w: u64| if w == m { 0u64 } else { w };
    assert(vstd::relations::injective_on(f, words(a))) by {
        assert forall|w1: u64, w2: u64| words(a).contains(w1) && words(a).contains(w2) && #[trigger] f(w1) == #[trigger] f(w2) implies w1 == w2 by {
        }
    }
    assert(words(a).map(f) =~= big_view(a, m)) by {
        assert forall|e: u64| words(a).map(f).contains(e) <==> big_view(a, m).contains(e) by {
            if big_view(a, m).contains(e) {
                let w = if e == 0 { m } else { e };
                assert(f(w) == e);
                assert(words(a).contains(w));
            }
        }
    }
    vstd::set_lib::lemma_map_size(words(a), big_view(a, m), f);
}

/// Stores `v`, which is absent, in the free slot `idx`, where it keeps
/// the table in order.
fn big_place(a: &mut [u64], idx: usize, v: u64, Ghost(m): Ghost<u64>)
    requires
        m > 64,
        old(a)@.len() * 2 <= usize::MAX,
        idx < old(a)@.len(),
        old(a)@[idx as int] == 0,
        v != 0,
        !has_key(old(a)@, 0, v),
        ktable_wf(keys_of(old(a)@, 0).update(idx as int, Some(v as int))),
        words(old(a)@).finite(),
        words(old(a)@).len() + 2 <= old(a)@.len(),
    ensures
        final(a)@.len() == old(a)@.len(),
        big_ok(final(a)@, m),
        words(final(a)@) == words(old(a)@).insert(v),
        words(final(a)@).len() == words(old(a)@).len() + 1,
        !words(old(a)@).contains(v),
{
    let ghost a0 = a@;
    proof {
        lemma_shr0(v);
        law_place_word(a0, 0, idx as int, v);
        lemma_not_found(a0, v);
        let ks = keys_of(a0, 0);
        let t = ks.update(idx as int, Some(v as int));
        assert forall|i: int, j: int|
            0 <= i < ks.len() && 0 <= j < ks.len() && i != j && ks[i] is Some implies #[trigger] ks[i]
                != #[trigger] ks[j] by {
            if i != idx && j != idx {
                assert(t[i] != t[j]);
            }
        }
    }
    a[idx] = v;
    proof {
        lemma_words_len(a@, 0);
        lemma_room(a@);
    }
}

/// Adds `e`, which must not be the marker, unless that takes the last
/// free slot.
pub fn big_add(a: &mut [u64], m: u64, e: u64, used: usize) -> (r: HeapAdd)
    requires
        big_ok(old(a)@, m),
        e != m,
        used == words(old(a)@).len(),
    ensures
        final(a)@.len() == old(a)@.len(),
        big_ok(final(a)@, m),
        words(old(a)@).finite(),
        words(final(a)@).finite(),
        !(r is NewBit),
        r is Present <==> big_view(old(a)@, m).contains(e),
        r is Full ==> words(old(a)@).len() + 2 > old(a)@.len(),
        r is Full || r is Present ==> final(a)@ == old(a)@,
        !(r is Full) ==> big_view(final(a)@, m) == big_view(old(a)@, m).insert(e),
        words(final(a)@).len() == words(old(a)@).len() + if r is NewWord {
            1int
        } else {
            0
        },
{
    let ghost a0 = a@;
    proof {
        lemma_words_len(a0, 0);
        lemma_big_has(a0, m, e);
    }
    let v = if e == 0 {
        m
    } else {
        e
    };
    match p_lookfor(v, a, 0) {
        LookedUp::KeyFound(i) => {
            proof {
                lemma_found(a0, v, i as int);
            }
            HeapAdd::Present
        },
        LookedUp::EmptySpot(idx) => {
            proof {
                lemma_not_found(a0, v);
            }
            if used + 2 > a.len() {
                return HeapAdd::Full;
            }
            proof {
                lemma_kplace(keys_of(a0, 0), v as int, idx as int);
            }
            big_place(a, idx, v, Ghost(m));
            proof {
                assert(big_view(a@, m) =~= big_view(a0, m).insert(e));
            }
            HeapAdd::NewWord
        },
        LookedUp::NeedInsert => {
            proof {
                lemma_not_found(a0, v);
            }
            if used + 2 > a.len() {
                return HeapAdd::Full;
            }
            let idx = p_insert(v, a, 0);
            proof {
                if has_key(a@, 0, v) {
                    let j = choose|j: int| 0 <= j < a@.len() && keys_of(a@, 0)[j] == Some(v as int);
                    assert(words(a@).contains(a@[j]));
                    lemma_shr0(a@[j]);
                }
            }
            big_place(a, idx, v, Ghost(m));
            proof {
                assert(big_view(a@, m) =~= big_view(a0, m).insert(e));
            }
            HeapAdd::NewWord
        },
    }
}

/// Removes `e`; returns whether it was there.
pub fn big_del(a: &mut [u64], m: u64, e: u64) -> (r: bool)
    requires
        big_ok(old(a)@, m),
    ensures
        final(a)@.len() == old(a)@.len(),
        big_ok(final(a)@, m),
        words(old(a)@).finite(),
        words(final(a)@).finite(),
        r == big_view(old(a)@, m).contains(e),
        !r ==> final(a)@ == old(a)@,
        big_view(final(a)@, m) == big_view(old(a)@, m).remove(e),
        words(final(a)@).len() == words(old(a)@).len() - if r {
            1int
        } else {
            0
        },
{
    let ghost a0 = a@;
    proof {
        lemma_words_len(a0, 0);
    }
    if e == m {
        proof {
            assert(big_view(a0, m).remove(e) =~= big_view(a0, m));
        }
        return false;
    }
    let v = if e == 0 {
        m
    } else {
        e
    };
    proof {
        lemma_big_has(a0, m, e);
    }
    let had = p_remove(v, a, 0);
    proof {
        if had {
            let j = choose|j: int| 0 <= j < a0.len() && a0[j] != 0 && a0[j] >> 0u64 == v;
            lemma_shr0(a0[j]);
            assert(word_of(a0, 0, v) == v);
            assert(words(a0).contains(v));
            assert(big_view(a@, m) =~= big_view(a0, m).remove(e));
        } else {
            lemma_not_found(a0, v);
            assert(big_view(a0, m).remove(e) =~= big_view(a0, m));
        }
        lemma_words_len(a@, 0);
    }
    had
}

/// The values of the table, each once.
pub fn big_items(a: &[u64], m: u64) -> (r: Vec<u64>)
    requires
        big_ok(a@, m),
    ensures
        r@.to_set() == big_view(a@, m),
        r@.no_duplicates(),
{
    let mut out: Vec<u64> = Vec::new();
    let mut i: usize = 0;
    while i < a.len()
        invariant
            big_ok(a@, m),
            i <= a@.len(),
            out@.no_duplicates(),
            forall|x: u64|
                out@.contains(x) <==> exists|j: int|
                    0 <= j < i && a@[j] != 0 && #[trigger] slot_value(x, m) == a@[j] && x != m,
        decreases a@.len() - i,
    {
        let w = a[i];
        let ghost before = out@;
        if w != 0 {
            let x = if w == m {
                0
            } else {
                w
            };
            proof {
                if out@.contains(x) {
                    let j = choose|j: int|
                        0 <= j < i && a@[j] != 0 && #[trigger] slot_value(x, m) == a@[j] && x != m;
                    lemma_shr0(a@[j]);
                    lemma_shr0(w);
                    lemma_word_unique(a@, 0, i as int, j);
                }
            }
            out.push(x);
            proof {
                assert(out@[out@.len() - 1] == x);
            }
        }
        proof {
            assert forall|y: u64|
                out@.contains(y) <==> exists|j: int|
                    0 <= j < i + 1 && a@[j] != 0 && #[trigger] slot_value(y, m) == a@[j] && y != m by {
                if before.contains(y) {
                    let k = choose|k: int| 0 <= k < before.len() && before[k] == y;
                    assert(out@[k] == y);
                }
                if out@.contains(y) && !before.contains(y) {
                    let k = choose|k: int| 0 <= k < out@.len() && out@[k] == y;
                    assert(k == before.len());
                    assert(slot_value(y, m) == a@[i as int]);
                }
                if exists|j: int| 0 <= j < i + 1 && a@[j] != 0 && #[trigger] slot_value(y, m) == a@[j] && y != m {
                    let j = choose|j: int| 0 <= j < i + 1 && a@[j] != 0 && #[trigger] slot_value(y, m) == a@[j] && y != m;
                    if j == i {
                        assert(out@[out@.len() - 1] == y);
                    }
                }
            }
        }
        i += 1;
    }
    proof {
        assert(out@.to_set() =~= big_view(a@, m)) by {
            assert forall|y: u64| out@.to_set().contains(y) <==> big_view(a@, m).contains(y) by {
                if big_view(a@, m).contains(y) {
                    let v = slot_value(y, m);
                    let j = choose|j: int| 0 <= j < a@.len() && a@[j] == v;
                    assert(slot_value(y, m) == a@[j]);
                }
                if out@.contains(y) {
                    let j = choose|j: int| 0 <= j < a@.len() && a@[j] != 0 && #[trigger] slot_value(y, m) == a@[j] && y != m;
                    assert(words(a@).contains(a@[j]));
                }
            }
        }
    }
    out
}

/// The values from `lo` up to `hi`, not including `hi`.
pub open spec fn u64_range(lo: u64, hi: u64) -> Set<u64> {
    Set::new(|c: u64| lo <= c < hi)
}

proof fn lemma_range_len(lo: u64, hi: u64)
    requires
        lo <= hi,
    ensures
        u64_range(lo, hi).finite(),
        u64_range(lo, hi).len() == hi - lo,
    decreases hi - lo,
{
    if hi == lo {
        assert(u64_range(lo, hi) =~= Set::<u64>::empty());
    } else {
        let h = (hi - 1) as u64;
        lemma_range_len(lo, h);
        assert(u64_range(lo, hi) =~= u64_range(lo, h).insert(h));
    }
}

/// The least value above 64 that is neither `m` nor stored.
fn free_marker(a: &[u64], m: u64) -> (r: u64)
    requires
        wtable_wf(a@, 0),
        a@.len() * 2 <= usize::MAX,
    ensures
        r > 64,
        r != m,
        !words(a@).contains(r),
{
    proof {
        lemma_words_len(a@, 0);
    }
    let mut cand: u64 = 65;
    loop
        invariant
            wtable_wf(a@, 0),
            a@.len() * 2 <= usize::MAX,
            words(a@).finite(),
            words(a@).len() <= a@.len(),
            65 <= cand,
            cand - 65 <= words(a@).len() + 1,
            forall|c: u64| 65 <= c < cand ==> c == m || #[trigger] words(a@).contains(c),
        decreases a@.len() + 67 - cand,
    {
        let present = if cand == m {
            true
        } else {
            match p_lookfor(cand, a, 0) {
                LookedUp::KeyFound(i) => {
                    proof {
                        lemma_found(a@, cand, i as int);
                    }
                    true
                },
                _ => {
                    proof {
                        lemma_not_found(a@, cand);
                    }
                    false
                },
            }
        };
        if !present {
            return cand;
        }
        proof {
            lemma_range_len(65, (cand + 1) as u64);
            let w1 = words(a@).insert(m);
            assert(u64_range(65, (cand + 1) as u64).subset_of(w1));
            vstd::set_lib::lemma_len_subset(u64_range(65, (cand + 1) as u64), w1);
        }
        cand = cand + 1;
    }
}

/// Moves the marker to another value, which is then neither stored nor
/// the old marker, keeping what the table holds.
pub fn big_remark(a: &mut [u64], m: u64) -> (m2: u64)
    requires
        big_ok(old(a)@, m),
    ensures
        final(a)@.len() == old(a)@.len(),
        big_ok(final(a)@, m2),
        m2 != m,
        big_view(final(a)@, m2) == big_view(old(a)@, m),
        words(old(a)@).finite(),
        words(final(a)@).finite(),
        words(final(a)@).len() == words(old(a)@).len(),
{
    let ghost a0 = a@;
    proof {
        lemma_words_len(a0, 0);
    }
    let had_zero = p_remove(m, a, 0);
    let ghost a1 = a@;
    proof {
        if had_zero {
            let j = choose|j: int| 0 <= j < a0.len() && a0[j] != 0 && a0[j] >> 0u64 == m;
            lemma_shr0(a0[j]);
            assert(word_of(a0, 0, m) == m);
            assert(words(a0).contains(m));
        } else {
            lemma_not_found(a0, m);
        }
        lemma_words_len(a1, 0);
    }
    let m2 = free_marker(a, m);
    if had_zero {
        proof {
            if has_key(a1, 0, m2) {
                let j = choose|j: int| 0 <= j < a1.len() && keys_of(a1, 0)[j] == Some(m2 as int);
                assert(words(a1).contains(a1[j]));
                lemma_shr0(a1[j]);
            }
            lemma_room_count(a0);
            assert(words(a1).len() + 2 <= a1.len());
        }
        let idx = p_insert(m2, a, 0);
        proof {
            if has_key(a@, 0, m2) {
                let j = choose|j: int| 0 <= j < a@.len() && keys_of(a@, 0)[j] == Some(m2 as int);
                assert(words(a@).contains(a@[j]));
                lemma_shr0(a@[j]);
            }
        }
        big_place(a, idx, m2, Ghost(m2));
    }
    proof {
        assert(big_view(a@, m2) =~= big_view(a0, m));
        lemma_words_len(a@, 0);
    }
    m2
}

} // verus!
