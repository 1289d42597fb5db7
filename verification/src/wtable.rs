//! Tables of nonzero words in Robin Hood order: how many words a table
//! holds, when it has a free slot, and building a table.
use vstd::prelude::*;
use crate::ktable::{k_no_dup, lemma_kempty};
use crate::setu64::{keys_of, wtable_wf, has_key, words, has_room, p_insert, law_place_word, lemma_word_unique};
use crate::word::into_boxed;

verus! {

/// The number of nonzero slots of `a`.
pub open spec fn nzcount(a: Seq<u64>) -> nat
    decreases a.len(),
{
    if a.len() == 0 {
        0
    } else {
        nzcount(a.drop_last()) + if a.last() != 0 {
            1nat
        } else {
            0nat
        }
    }
}

/// A table without repeated keys holds as many words as it has nonzero
/// slots, and at most as many as it has slots.
pub proof fn lemma_words_len(a: Seq<u64>, off: u64)
    requires
        k_no_dup(keys_of(a, off)),
    ensures
        words(a).finite(),
        words(a).len() == nzcount(a),
        nzcount(a) <= a.len(),
    decreases a.len(),
{
    if a.len() == 0 {
        assert(words(a) =~= Set::<u64>::empty());
    } else {
        let t = a.drop_last();
        assert(keys_of(t, off) =~= keys_of(a, off).drop_last());
        lemma_words_len(t, off);
        let w = a.last();
        if w != 0 {
            assert(words(a) =~= words(t).insert(w)) by {
                assert forall|x: u64| words(a).contains(x) <==> words(t).insert(w).contains(x) by {
                    if x != 0 && a.contains(x) && x != w {
                        let i = choose|i: int| 0 <= i < a.len() && a[i] == x;
                        assert(t[i] == x);
                    }
                    if x != 0 && t.contains(x) {
                        let i = choose|i: int| 0 <= i < t.len() && t[i] == x;
                        assert(a[i] == x);
                    }
                    if x == w {
                        assert(a[a.len() - 1] == x);
                    }
                }
            }
            if t.contains(w) {
                let i = choose|i: int| 0 <= i < t.len() && t[i] == w;
                lemma_word_unique(a, off, i, a.len() - 1);
            }
        } else {
            assert(words(a) =~= words(t)) by {
                assert forall|x: u64| words(a).contains(x) <==> words(t).contains(x) by {
                    if x != 0 && a.contains(x) {
                        let i = choose|i: int| 0 <= i < a.len() && a[i] == x;
                        assert(i < t.len());
                        assert(t[i] == x);
                    }
                    if x != 0 && t.contains(x) {
                        let i = choose|i: int| 0 <= i < t.len() && t[i] == x;
                        assert(a[i] == x);
                    }
                }
            }
        }
    }
}

/// A table with fewer nonzero slots than slots has a free slot.
pub proof fn lemma_room(a: Seq<u64>)
    requires
        nzcount(a) < a.len(),
    ensures
        has_room(a),
    decreases a.len(),
{
    let t = a.drop_last();
    if a.last() == 0 {
        assert(a[a.len() - 1] == 0);
    } else {
        lemma_room(t);
        let e = choose|e: int| 0 <= e < t.len() && t[e] == 0;
        assert(a[e] == 0);
    }
}

/// A table with a free slot has fewer nonzero slots than slots.
pub proof fn lemma_room_count(a: Seq<u64>)
    requires
        has_room(a),
    ensures
        nzcount(a) < a.len(),
    decreases a.len(),
{
    let t = a.drop_last();
    let e = choose|e: int| 0 <= e < a.len() && a[e] == 0;
    lemma_count_le(t);
    if e < a.len() - 1 {
        assert(t[e] == 0);
        lemma_room_count(t);
    }
}

/// A table has at most as many nonzero slots as slots.
pub proof fn lemma_count_le(a: Seq<u64>)
    ensures
        nzcount(a) <= a.len(),
    decreases a.len(),
{
    if a.len() > 0 {
        lemma_count_le(a.drop_last());
    }
}

/// A table of `n` free slots, which holds no words.
pub fn wt_zeros(n: usize, Ghost(off): Ghost<u64>) -> (r: Box<[u64]>)
    requires
        n > 0,
    ensures
        r@.len() == n,
        wtable_wf(r@, off),
        words(r@) == Set::<u64>::empty(),
        forall|i: int| 0 <= i < n ==> r@[i] == 0,
{
    let mut v: Vec<u64> = Vec::with_capacity(n);
    let mut i: usize = 0;
    while i < n
        invariant
            i <= n,
            v@.len() == i,
            forall|j: int| 0 <= j < i ==> v@[j] == 0,
        decreases n - i,
    {
        v.push(0);
        i += 1;
    }
    proof {
        lemma_kempty(keys_of(v@, off));
        assert(words(v@) =~= Set::<u64>::empty());
    }
    into_boxed(v)
}

/// A table of `n` slots holding the words of `a`.
pub fn wt_copy(a: &[u64], off: u64, n: usize) -> (r: Box<[u64]>)
    requires
        wtable_wf(a@, off),
        off < 64,
        words(a@).len() < n,
        n * 2 <= usize::MAX,
    ensures
        r@.len() == n,
        wtable_wf(r@, off),
        words(r@) == words(a@),
        has_room(r@),
{
    proof {
        lemma_words_len(a@, off);
    }
    let mut r = wt_zeros(n, Ghost(off));
    let mut i: usize = 0;
    while i < a.len()
        invariant
            wtable_wf(a@, off),
            off < 64,
            words(a@).len() < n,
            words(a@).finite(),
            n * 2 <= usize::MAX,
            r@.len() == n,
            i <= a@.len(),
            wtable_wf(r@, off),
            words(r@) == words(a@.take(i as int)),
            words(r@).subset_of(words(a@)),
        decreases a@.len() - i,
    {
        let w = a[i];
        if w != 0 {
            let k = w >> off;
            proof {
                lemma_words_len(r@, off);
                vstd::set_lib::lemma_len_subset(words(r@), words(a@));
                lemma_room(r@);
                if has_key(r@, off, k) {
                    let j = choose|j: int| 0 <= j < r@.len() && keys_of(r@, off)[j] == Some(k as int);
                    assert(words(r@).contains(r@[j]));
                    assert(words(a@.take(i as int)).contains(r@[j]));
                    let m = choose|m: int| 0 <= m < a@.take(i as int).len() && a@.take(i as int)[m] == r@[j];
                    assert(a@[m] == r@[j]);
                    lemma_word_unique(a@, off, m, i as int);
                }
            }
            let j = p_insert(k, &mut r, off);
            proof {
                law_place_word(r@, off, j as int, w);
            }
            r[j] = w;
        }
        proof {
            assert(words(r@) =~= words(a@.take(i + 1))) by {
                assert forall|x: u64| words(r@).contains(x) <==> words(a@.take(i + 1)).contains(x) by {
                    let t = a@.take(i as int);
                    let t1 = a@.take(i + 1);
                    if x != 0 && t.contains(x) {
                        let m = choose|m: int| 0 <= m < t.len() && t[m] == x;
                        assert(t1[m] == x);
                    }
                    if x != 0 && t1.contains(x) && x != w {
                        let m = choose|m: int| 0 <= m < t1.len() && t1[m] == x;
                        assert(t[m] == x);
                    }
                    if x == w && w != 0 {
                        assert(t1[i as int] == x);
                    }
                }
            }
            assert(words(r@).subset_of(words(a@))) by {
                assert forall|x: u64| words(r@).contains(x) implies words(a@).contains(x) by {
                    let t1 = a@.take(i + 1);
                    let m = choose|m: int| 0 <= m < t1.len() && t1[m] == x;
                    assert(a@[m] == x);
                }
            }
        }
        i += 1;
    }
    proof {
        assert(a@.take(a@.len() as int) =~= a@);
        lemma_words_len(r@, off);
        lemma_room(r@);
    }
    r
}

} // verus!
