//! Laws that relate several operations of the collections.  Every set
//! type of the crate (`TinySet`, `CastSet`, `OptCastSet`, `VecSet`,
//! `U64Set`, `Set64`, `USizeSet`, `SetU64`) states `insert`, `remove` and `contains`
//! over a `Set` view, and every map type (`U64Map`, `Map6464`, the two
//! `Map64`s) states `insert`, `remove` and `get` over a `Map` view; these
//! laws are stated over those views.
use vstd::prelude::*;
use crate::tiny::increasing;

verus! {

/// Removing a value that an insertion added restores the set: `insert`
/// then `remove` of a value that was absent is no change.
pub proof fn law_set_remove_undoes_insert<A>(s: Set<A>, e: A)
    requires
        !s.contains(e),
    ensures
        s.insert(e).remove(e) == s,
{
    assert(s.insert(e).remove(e) =~= s);
}

/// After `insert(e)`, `contains(e)` holds, a second `insert(e)` reports
/// that nothing was added and changes nothing, and the length grew by one
/// exactly when `e` was absent.
pub proof fn law_set_insert(s: Set<u64>, e: u64)
    requires
        s.finite(),
    ensures
        s.insert(e).contains(e),
        s.insert(e).insert(e) == s.insert(e),
        s.insert(e).len() == if s.contains(e) {
            s.len()
        } else {
            s.len() + 1
        },
{
    assert(s.insert(e).insert(e) =~= s.insert(e));
    if s.contains(e) {
        assert(s.insert(e) =~= s);
    }
}

/// After `remove(e)`, `contains(e)` fails, a second `remove(e)` reports
/// that nothing was there, and the length shrank by one exactly when `e`
/// was present.
pub proof fn law_set_remove(s: Set<u64>, e: u64)
    requires
        s.finite(),
    ensures
        !s.remove(e).contains(e),
        s.remove(e).remove(e) == s.remove(e),
        s.remove(e).len() == if s.contains(e) {
            s.len() - 1
        } else {
            s.len() as int
        },
{
    assert(s.remove(e).remove(e) =~= s.remove(e));
    if !s.contains(e) {
        assert(s.remove(e) =~= s);
    }
}

/// A map gives back what was last inserted for a key, and keeps the
/// other keys: `get(k)` after `insert(k, v)` is `v`, and `get(j)` for
/// another key `j` is as before.
pub proof fn law_map_get_after_insert<K, V>(m: Map<K, V>, k: K, v: V, j: K)
    ensures
        m.insert(k, v).contains_key(k),
        m.insert(k, v)[k] == v,
        j != k ==> (m.insert(k, v).contains_key(j) == m.contains_key(j)),
        j != k && m.contains_key(j) ==> m.insert(k, v)[j] == m[j],
{
}

/// Removing a key that an insertion added restores the map.
pub proof fn law_map_remove_undoes_insert<K, V>(m: Map<K, V>, k: K, v: V)
    requires
        !m.contains_key(k),
    ensures
        m.insert(k, v).remove(k) == m,
{
    assert(m.insert(k, v).remove(k) =~= m);
}

/// Two increasing sequences with the same values are the same sequence:
/// `Set64::sorted_codes` of two sets with the same elements agree, so
/// `Set64::hash` feeds a hasher alike for equal sets.
pub proof fn law_sorted_unique(a: Seq<u64>, b: Seq<u64>)
    requires
        increasing(a),
        increasing(b),
        forall|x: u64| a.contains(x) <==> b.contains(x),
    ensures
        a == b,
    decreases a.len() + b.len(),
{
    if a.len() == 0 || b.len() == 0 {
        if a.len() > 0 {
            assert(a.contains(a[0]));
        }
        if b.len() > 0 {
            assert(b.contains(b[0]));
        }
        assert(a =~= b);
    } else {
        assert(a.contains(a[0]) && b.contains(b[0]));
        let i = choose|i: int| 0 <= i < b.len() && b[i] == a[0];
        let j = choose|j: int| 0 <= j < a.len() && a[j] == b[0];
        if i > 0 {
            assert(b[0] < b[i]);
            if j > 0 {
                assert(a[0] < a[j]);
            }
        }
        assert(a[0] == b[0]);
        let a1 = a.drop_first();
        let b1 = b.drop_first();
        assert forall|x: u64| a1.contains(x) <==> b1.contains(x) by {
            if a1.contains(x) {
                let p = choose|p: int| 0 <= p < a1.len() && a1[p] == x;
                assert(a[p + 1] == x && a[0] < a[p + 1]);
                assert(b.contains(x));
                let q = choose|q: int| 0 <= q < b.len() && b[q] == x;
                assert(q != 0);
                assert(b1[q - 1] == x);
            }
            if b1.contains(x) {
                let q = choose|q: int| 0 <= q < b1.len() && b1[q] == x;
                assert(b[q + 1] == x && b[0] < b[q + 1]);
                assert(a.contains(x));
                let p = choose|p: int| 0 <= p < a.len() && a[p] == x;
                assert(p != 0);
                assert(a1[p - 1] == x);
            }
        }
        law_sorted_unique(a1, b1);
        assert(a =~= b) by {
            assert forall|k: int| 0 <= k < a.len() implies a[k] == b[k] by {
                if k > 0 {
                    assert(a[k] == a1[k - 1]);
                    assert(b[k] == b1[k - 1]);
                }
            }
        }
    }
}

} // verus!
