//! Robin Hood order on tables of any length, stated over the keys of the
//! slots: `None` for an empty slot, `Some(k)` for a slot whose key is `k`.
//! A key's home is the key modulo the table length.
use vstd::prelude::*;
use crate::robin::{wrap, pdist, nxt, prv};
use vstd::arithmetic::div_mod::lemma_mod_bound;

verus! {

/// The home slot of key `k` in a table of length `n`.
pub open spec fn khome(k: int, n: int) -> int {
    k % n
}

/// How far the key in slot `i` is stored after its home slot.
pub open spec fn kdisp(ks: Seq<Option<int>>, i: int) -> int {
    pdist(i, khome(ks[i]->0, ks.len() as int), ks.len() as int)
}

/// The key in slot `j`, if any, is at home or directly follows an
/// occupied slot that is at most one step less displaced.
pub open spec fn k_rh_at(ks: Seq<Option<int>>, j: int) -> bool {
    ks[j] is Some ==> (kdisp(ks, j) == 0 || (ks[prv(j, ks.len() as int)] is Some && kdisp(ks, j)
        <= kdisp(ks, prv(j, ks.len() as int)) + 1))
}

/// No key is stored twice.
pub open spec fn k_no_dup(ks: Seq<Option<int>>) -> bool {
    forall|i: int, j: int|
        0 <= i < ks.len() && 0 <= j < ks.len() && i != j && ks[i] is Some ==> #[trigger] ks[i]
            != #[trigger] ks[j]
}

/// Keys are natural numbers.
pub open spec fn k_nat(ks: Seq<Option<int>>) -> bool {
    forall|i: int| 0 <= i < ks.len() && #[trigger] ks[i] is Some ==> ks[i]->0 >= 0
}

/// A non-empty table in Robin Hood order with distinct natural keys.
pub open spec fn ktable_wf(ks: Seq<Option<int>>) -> bool {
    &&& ks.len() > 0
    &&& forall|j: int| 0 <= j < ks.len() ==> #[trigger] k_rh_at(ks, j)
    &&& k_no_dup(ks)
    &&& k_nat(ks)
}

/// The slot `m` steps after the home of key `k`.
pub open spec fn kprobe(k: int, m: int, n: int) -> int {
    wrap(khome(k, n) + m, n)
}

/// A search for key `k` walks on past the slot `m` steps after its home.
pub open spec fn kpasses(ks: Seq<Option<int>>, k: int, m: int) -> bool {
    let j = kprobe(k, m, ks.len() as int);
    &&& ks[j] is Some
    &&& ks[j] != Some(k)
    &&& kdisp(ks, j) >= m
}

/// A search for key `k` walks on past the first `d` slots from its home.
pub open spec fn kclear(ks: Seq<Option<int>>, k: int, d: int) -> bool {
    forall|m: int| 0 <= m < d ==> #[trigger] kpasses(ks, k, m)
}

pub proof fn lemma_khome_bound(k: int, n: int)
    requires
        n > 0,
    ensures
        0 <= khome(k, n) < n,
{
    lemma_mod_bound(k, n);
}

/// Every slot lies `pdist` steps after any home.
pub proof fn lemma_kprobe_of(k: int, j: int, n: int)
    requires
        n > 0,
        0 <= j < n,
    ensures
        0 <= pdist(j, khome(k, n), n) < n,
        kprobe(k, pdist(j, khome(k, n), n), n) == j,
{
    lemma_khome_bound(k, n);
}

/// Every slot from the home of a stored key up to the key itself is
/// occupied, and the slot `m` steps after the home holds a key displaced
/// at least `m` steps.
pub proof fn lemma_krun(ks: Seq<Option<int>>, p: int, m: int)
    requires
        ktable_wf(ks),
        0 <= p < ks.len(),
        ks[p] is Some,
        0 <= m <= kdisp(ks, p),
    ensures
        ks[kprobe(ks[p]->0, m, ks.len() as int)] is Some,
        kdisp(ks, kprobe(ks[p]->0, m, ks.len() as int)) >= m,
    decreases kdisp(ks, p) - m,
{
    let n = ks.len() as int;
    lemma_khome_bound(ks[p]->0, n);
    if m < kdisp(ks, p) {
        lemma_krun(ks, p, m + 1);
        let j1 = kprobe(ks[p]->0, m + 1, n);
        assert(k_rh_at(ks, j1));
        assert(prv(j1, n) == kprobe(ks[p]->0, m, n));
    }
}

/// A search for `k` that stops at distance `d` on an empty slot, or on a
/// key less displaced than `d`, shows that `k` is not stored.
pub proof fn lemma_kabsent(ks: Seq<Option<int>>, k: int, d: int)
    requires
        ktable_wf(ks),
        0 <= d < ks.len(),
        kclear(ks, k, d),
        ks[kprobe(k, d, ks.len() as int)] is None || (ks[kprobe(k, d, ks.len() as int)] != Some(k)
            && kdisp(ks, kprobe(k, d, ks.len() as int)) < d),
    ensures
        !ks.contains(Some(k)),
{
    let n = ks.len() as int;
    lemma_khome_bound(k, n);
    if ks.contains(Some(k)) {
        let p = choose|p: int| 0 <= p < n && ks[p] == Some(k);
        let dp = kdisp(ks, p);
        lemma_kprobe_of(k, p, n);
        assert(kprobe(k, dp, n) == p);
        if dp < d {
            assert(kpasses(ks, k, dp));
        } else if dp > d {
            lemma_krun(ks, p, d);
        }
    }
}

/// A search that walked past every slot has seen every slot occupied by
/// other keys.
pub proof fn lemma_kclear_all(ks: Seq<Option<int>>, k: int)
    requires
        ks.len() > 0,
        kclear(ks, k, ks.len() as int),
    ensures
        !ks.contains(Some(k)),
        forall|j: int| 0 <= j < ks.len() ==> ks[j] is Some,
{
    let n = ks.len() as int;
    assert forall|j: int| 0 <= j < n implies ks[j] is Some && ks[j] != Some(k) by {
        lemma_kprobe_of(k, j, n);
        assert(kpasses(ks, k, pdist(j, khome(k, n), n)));
    }
}

/// Storing key `k` where its search stopped keeps the table in order; the
/// key it displaces is no longer stored, and its search passes every slot
/// up to where it was.
pub proof fn lemma_kplace(ks: Seq<Option<int>>, k: int, j: int)
    requires
        ktable_wf(ks),
        k >= 0,
        !ks.contains(Some(k)),
        0 <= j < ks.len(),
        kclear(ks, k, pdist(j, khome(k, ks.len() as int), ks.len() as int)),
        ks[j] is None || kdisp(ks, j) < pdist(j, khome(k, ks.len() as int), ks.len() as int),
    ensures
        ktable_wf(ks.update(j, Some(k))),
        ks[j] is Some ==> {
            &&& !ks.update(j, Some(k)).contains(ks[j])
            &&& kclear(ks.update(j, Some(k)), ks[j]->0, kdisp(ks, j) + 1)
        },
{
    let n = ks.len() as int;
    let t = ks.update(j, Some(k));
    let dx = pdist(j, khome(k, n), n);
    lemma_khome_bound(k, n);
    assert forall|q: int| 0 <= q < n implies #[trigger] k_rh_at(t, q) by {
        assert(k_rh_at(ks, q));
        if q == j {
            if dx != 0 {
                assert(kpasses(ks, k, dx - 1));
                assert(kprobe(k, dx - 1, n) == prv(j, n));
            }
        } else if q == nxt(j, n) {
            assert(prv(q, n) == j);
        } else {
            assert(prv(q, n) != j);
        }
    }
    assert(k_no_dup(t)) by {
        assert forall|a: int, b: int|
            0 <= a < n && 0 <= b < n && a != b && t[a] is Some implies #[trigger] t[a] != #[trigger] t[b] by {
            if a != j && b != j {
                assert(ks[a] != ks[b]);
            } else if a == j {
                assert(ks[b] != Some(k));
            } else {
                assert(ks[a] != Some(k));
            }
        }
    }
    assert(k_nat(t)) by {
        assert forall|a: int| 0 <= a < n && #[trigger] t[a] is Some implies t[a]->0 >= 0 by {
            if a != j {
                assert(ks[a] is Some);
            }
        }
    }
    if ks[j] is Some {
        let y = ks[j]->0;
        let dy = kdisp(ks, j);
        lemma_khome_bound(y, n);
        assert(!t.contains(Some(y))) by {
            if t.contains(Some(y)) {
                let a = choose|a: int| 0 <= a < n && t[a] == Some(y);
                if a != j {
                    assert(ks[a] == ks[j]);
                }
            }
        }
        assert forall|m: int| 0 <= m < dy + 1 implies #[trigger] kpasses(t, y, m) by {
            let q = kprobe(y, m, n);
            if m < dy {
                lemma_krun(ks, j, m);
                assert(q != j) by {
                    lemma_kprobe_of(y, j, n);
                }
                assert(ks[q] != ks[j]);
            } else {
                lemma_kprobe_of(y, j, n);
                assert(q == j);
            }
        }
    }
}

/// The table with a hole at `hole`: in Robin Hood order everywhere but
/// right after the hole, where moving the key back into the hole would
/// restore the order.
pub open spec fn k_holed(t: Seq<Option<int>>, hole: int) -> bool {
    let n = t.len() as int;
    let q = nxt(hole, n);
    &&& n > 0
    &&& 0 <= hole < n
    &&& t[hole] is None
    &&& k_no_dup(t)
    &&& k_nat(t)
    &&& forall|j: int| 0 <= j < n && j != q ==> #[trigger] k_rh_at(t, j)
    &&& (t[q] is Some && kdisp(t, q) >= 1) ==> (kdisp(t, q) - 1 == 0 || (t[prv(hole, n)] is Some
        && kdisp(t, q) - 1 <= kdisp(t, prv(hole, n)) + 1))
}

/// Emptying a slot of a table in order leaves a hole.
pub proof fn lemma_kopen_hole(ks: Seq<Option<int>>, i: int)
    requires
        ktable_wf(ks),
        0 <= i < ks.len(),
        ks[i] is Some,
    ensures
        k_holed(ks.update(i, None), i),
{
    let n = ks.len() as int;
    let t = ks.update(i, None);
    assert forall|a: int, b: int|
        0 <= a < n && 0 <= b < n && a != b && t[a] is Some implies #[trigger] t[a] != #[trigger] t[b] by {
        assert(ks[a] != ks[b]);
    }
    assert forall|a: int| 0 <= a < n && #[trigger] t[a] is Some implies t[a]->0 >= 0 by {
        assert(ks[a] is Some);
    }
    assert forall|j: int| 0 <= j < n && j != nxt(i, n) implies #[trigger] k_rh_at(t, j) by {
        assert(k_rh_at(ks, j));
        if j != i {
            assert(prv(j, n) != i);
        }
    }
    let q = nxt(i, n);
    assert(k_rh_at(ks, q));
    assert(k_rh_at(ks, i));
    if q != i {
        assert(prv(q, n) == i);
    }
}

/// Moving the key after the hole back into it moves the hole forward.
pub proof fn lemma_kshift_back(t: Seq<Option<int>>, hole: int)
    requires
        k_holed(t, hole),
        nxt(hole, t.len() as int) != hole,
        t[nxt(hole, t.len() as int)] is Some,
        kdisp(t, nxt(hole, t.len() as int)) >= 1,
    ensures
        k_holed(
            t.update(hole, t[nxt(hole, t.len() as int)]).update(nxt(hole, t.len() as int), None),
            nxt(hole, t.len() as int),
        ),
{
    let n = t.len() as int;
    let q = nxt(hole, n);
    let w = t[q];
    let tm = t.update(hole, w);
    let t1 = tm.update(q, None);
    let d = kdisp(t, q);
    lemma_khome_bound(w->0, n);
    assert(kdisp(t1, hole) == d - 1);
    assert forall|j: int| 0 <= j < n && j != nxt(q, n) implies #[trigger] k_rh_at(t1, j) by {
        if j == hole {
            if prv(hole, n) == q {
                assert(d - 1 == 0);
            }
        } else if j == q {
        } else {
            assert(prv(j, n) != hole);
            assert(prv(j, n) != q);
            assert(k_rh_at(t, j));
        }
    }
    let q2 = nxt(q, n);
    if q2 == hole {
        assert(t1[q2] == w);
    } else {
        assert(k_rh_at(t, q2));
        assert(prv(q2, n) == q);
    }
    assert forall|a: int, b: int|
        0 <= a < n && 0 <= b < n && a != b && t1[a] is Some implies #[trigger] t1[a] != #[trigger] t1[b] by {
        let a0 = if a == hole { q } else { a };
        let b0 = if b == hole { q } else { b };
        assert(t1[a] == t[a0]);
        if t1[b] is Some {
            assert(t1[b] == t[b0]);
        }
    }
    assert forall|a: int| 0 <= a < n && #[trigger] t1[a] is Some implies t1[a]->0 >= 0 by {
        if a == hole {
            assert(t[q] is Some);
        } else {
            assert(t[a] is Some);
        }
    }
}

/// A hole followed by an empty slot or a key at home can simply stay empty.
pub proof fn lemma_kclose_hole(t: Seq<Option<int>>, hole: int)
    requires
        k_holed(t, hole),
        t[nxt(hole, t.len() as int)] is None || kdisp(t, nxt(hole, t.len() as int)) == 0,
    ensures
        ktable_wf(t),
{
    let n = t.len() as int;
    assert(k_rh_at(t, nxt(hole, n)));
    assert forall|j: int| 0 <= j < n implies #[trigger] k_rh_at(t, j) by {
        if j != nxt(hole, n) {
            assert(k_rh_at(t, j));
        }
    }
}

/// A table of empty slots is in order.
pub proof fn lemma_kempty(ks: Seq<Option<int>>)
    requires
        ks.len() > 0,
        forall|i: int| 0 <= i < ks.len() ==> ks[i] is None,
    ensures
        ktable_wf(ks),
{
    assert forall|j: int| 0 <= j < ks.len() implies #[trigger] k_rh_at(ks, j) by {}
}

} // verus!
