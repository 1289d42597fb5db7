//! A dense bitset of `u64`: word `i` holds, in bit `j`, whether
//! `64 * i + j` is in the set.
use vstd::prelude::*;

verus! {

/// The bitset `a` holds `e`: the word of `e` exists and has the bit of `e`.
pub open spec fn dense_has(a: Seq<u64>, e: u64) -> bool {
    &&& (e >> 6u64) < a.len()
    &&& (a[(e >> 6u64) as int] >> (e & 63u64)) & 1u64 == 1u64
}

/// The values that the bitset `a` holds.
pub open spec fn dense_view(a: Seq<u64>) -> Set<u64> {
    Set::new(|e: u64| dense_has(a, e))
}

/// Setting the bit of `e` in its word, or clearing it, changes whether
/// the word holds `e` and no other value.
proof fn lemma_bit_of(w: u64, e: u64, x: u64)
    ensures
        (x >> 6u64) == (e >> 6u64) ==> ((((w | (1u64 << (e & 63u64))) >> (x & 63u64)) & 1u64 == 1u64)
            <==> (((w >> (x & 63u64)) & 1u64 == 1u64) || x == e)),
        (x >> 6u64) == (e >> 6u64) ==> ((((w & !(1u64 << (e & 63u64))) >> (x & 63u64)) & 1u64 == 1u64)
            <==> (((w >> (x & 63u64)) & 1u64 == 1u64) && x != e)),
        ((w >> (e & 63u64)) & 1u64 == 1u64) <==> (w & (1u64 << (e & 63u64)) != 0),
        ((0u64 >> (x & 63u64)) & 1u64) != 1u64,
        (x >> 6u64) == (e >> 6u64) ==> ((((1u64 << (e & 63u64)) >> (x & 63u64)) & 1u64 == 1u64) <==> x
            == e),
        (e & 63u64) < 64u64,
{
    assert((e & 63u64) < 64u64) by (bit_vector);
    assert((x >> 6u64) == (e >> 6u64) ==> ((((w | (1u64 << (e & 63u64))) >> (x & 63u64)) & 1u64 == 1u64)
        <==> (((w >> (x & 63u64)) & 1u64 == 1u64) || x == e))) by (bit_vector);
    assert((x >> 6u64) == (e >> 6u64) ==> ((((w & !(1u64 << (e & 63u64))) >> (x & 63u64)) & 1u64
        == 1u64) <==> (((w >> (x & 63u64)) & 1u64 == 1u64) && x != e))) by (bit_vector);
    assert(((w >> (e & 63u64)) & 1u64 == 1u64) <==> (w & (1u64 << (e & 63u64)) != 0)) by (bit_vector);
    assert(((0u64 >> (x & 63u64)) & 1u64) != 1u64) by (bit_vector);
    assert((x >> 6u64) == (e >> 6u64) ==> ((((1u64 << (e & 63u64)) >> (x & 63u64)) & 1u64 == 1u64)
        <==> x == e)) by (bit_vector);
}

/// Whether the bitset `a` holds `e`.
pub fn dense_contains(a: &[u64], e: u64) -> (r: bool)
    ensures
        r == dense_has(a@, e),
{
    let key = e >> 6;
    if key < a.len() as u64 {
        proof {
            lemma_bit_of(a@[key as int], e, e);
        }
        a[key as usize] & (1u64 << (e & 63)) != 0
    } else {
        false
    }
}

/// Adds `e`, whose word must be in the bitset; returns whether it was
/// absent.
pub fn dense_add(a: &mut [u64], e: u64) -> (r: bool)
    requires
        (e >> 6u64) < old(a)@.len(),
    ensures
        final(a)@.len() == old(a)@.len(),
        dense_view(final(a)@) == dense_view(old(a)@).insert(e),
        r == !dense_has(old(a)@, e),
{
    let key = (e >> 6) as usize;
    let bits = a[key];
    proof {
        lemma_bit_of(bits, e, e);
    }
    let whichbit = 1u64 << (e & 63);
    let present = bits & whichbit != 0;
    a[key] = bits | whichbit;
    proof {
        lemma_bit_of(bits, e, e);
        let a0 = old(a)@;
        assert(dense_view(a@) =~= dense_view(a0).insert(e)) by {
            assert forall|x: u64| dense_has(a@, x) <==> dense_has(a0, x) || x == e by {
                lemma_bit_of(bits, e, x);
                if (x >> 6u64) != (e >> 6u64) && (x >> 6u64) < a0.len() {
                    assert(a@[(x >> 6u64) as int] == a0[(x >> 6u64) as int]);
                }
            }
        }
    }
    !present
}

/// Removes `e`; returns whether it was present.
pub fn dense_del(a: &mut [u64], e: u64) -> (r: bool)
    ensures
        final(a)@.len() == old(a)@.len(),
        dense_view(final(a)@) == dense_view(old(a)@).remove(e),
        r == dense_has(old(a)@, e),
{
    let key = e >> 6;
    if key < a.len() as u64 {
        let bits = a[key as usize];
        proof {
            lemma_bit_of(bits, e, e);
        }
        let whichbit = 1u64 << (e & 63);
        let present = bits & whichbit != 0;
        a[key as usize] = bits & !whichbit;
        proof {
            lemma_bit_of(bits, e, e);
            let a0 = old(a)@;
            assert(dense_view(a@) =~= dense_view(a0).remove(e)) by {
                assert forall|x: u64| dense_has(a@, x) <==> dense_has(a0, x) && x != e by {
                    lemma_bit_of(bits, e, x);
                    if (x >> 6u64) != (e >> 6u64) && (x >> 6u64) < a0.len() {
                        assert(a@[(x >> 6u64) as int] == a0[(x >> 6u64) as int]);
                    }
                }
            }
        }
        present
    } else {
        proof {
            assert(dense_view(a@) =~= dense_view(a@).remove(e));
        }
        false
    }
}

/// A bitset of `n` zero words, which holds nothing.
pub fn dense_zeros(n: usize) -> (r: Vec<u64>)
    ensures
        r@.len() == n,
        dense_view(r@) == Set::<u64>::empty(),
{
    let mut r: Vec<u64> = Vec::with_capacity(n);
    let mut i: usize = 0;
    while i < n
        invariant
            i <= n,
            r@.len() == i,
            forall|j: int| 0 <= j < i ==> r@[j] == 0,
        decreases n - i,
    {
        r.push(0);
        i += 1;
    }
    proof {
        assert(dense_view(r@) =~= Set::<u64>::empty()) by {
            assert forall|x: u64| !dense_has(r@, x) by {
                lemma_bit_of(0, x, x);
            }
        }
    }
    r
}

/// The words of `a` followed by zero words up to `n` in all, holding the
/// same values, with `e` added, whose word is among the new ones.
pub fn dense_widened(a: &[u64], n: usize, e: u64) -> (r: Vec<u64>)
    requires
        a@.len() <= (e >> 6u64) < n,
    ensures
        r@.len() == n,
        dense_view(r@) == dense_view(a@).insert(e),
        !dense_has(a@, e),
{
    let mut r: Vec<u64> = Vec::with_capacity(n);
    let mut i: usize = 0;
    while i < n
        invariant
            i <= n,
            r@.len() == i,
            forall|j: int| 0 <= j < i ==> r@[j] == if j < a@.len() { a@[j] } else { 0 },
        decreases n - i,
    {
        if i < a.len() {
            r.push(a[i]);
        } else {
            r.push(0);
        }
        i += 1;
    }
    let key = (e >> 6) as usize;
    proof {
        lemma_bit_of(0, e, e);
    }
    r.set(key, 1u64 << (e & 63));
    proof {
        assert(dense_view(r@) =~= dense_view(a@).insert(e)) by {
            assert forall|x: u64| dense_has(r@, x) <==> dense_has(a@, x) || x == e by {
                lemma_bit_of(0, e, x);
                if (x >> 6u64) != (e >> 6u64) && (x >> 6u64) < n {
                    if (x >> 6u64) >= a@.len() {
                        lemma_bit_of(0, x, x);
                    }
                }
            }
        }
    }
    r
}

/// The values of the bitset, each once.
pub fn dense_items(a: &[u64]) -> (r: Vec<u64>)
    requires
        a@.len() * 64 <= u64::MAX + 1,
    ensures
        r@.to_set() == dense_view(a@),
        r@.no_duplicates(),
{
    let mut out: Vec<u64> = Vec::new();
    let mut i: usize = 0;
    while i < a.len()
        invariant
            i <= a@.len(),
            a@.len() * 64 <= u64::MAX + 1,
            out@.no_duplicates(),
            forall|x: u64| out@.contains(x) <==> dense_has(a@, x) && (x >> 6u64) < i,
        decreases a@.len() - i,
    {
        let w = a[i];
        let mut j: u64 = 0;
        while j < 64
            invariant
                i < a@.len(),
                a@.len() * 64 <= u64::MAX + 1,
                w == a@[i as int],
                j <= 64,
                out@.no_duplicates(),
                forall|x: u64|
                    out@.contains(x) <==> dense_has(a@, x) && ((x >> 6u64) < i || ((x >> 6u64) == i
                        && (x & 63u64) < j)),
            decreases 64 - j,
        {
            let x: u64 = (i as u64) * 64 + j;
            proof {
                let iu = i as u64;
                assert((x >> 6u64) == iu && (x & 63u64) == j) by (bit_vector)
                    requires
                        x == iu * 64 + j,
                        j < 64,
                        iu * 64 + j <= u64::MAX,
                ;
                lemma_bit_of(w, x, x);
                assert(dense_has(a@, x) <==> w & (1u64 << j) != 0);
            }
            let ghost before = out@;
            if w & (1u64 << j) != 0 {
                proof {
                    assert(!out@.contains(x));
                }
                out.push(x);
                proof {
                    assert(out@[out@.len() - 1] == x);
                }
            }
            proof {
                if before.contains(x) {
                    assert((x >> 6u64) < i || ((x >> 6u64) == i && (x & 63u64) < j));
                }
                assert(out@.contains(x) <==> dense_has(a@, x));
                assert forall|y: u64|
                    out@.contains(y) <==> dense_has(a@, y) && ((y >> 6u64) < i || ((y >> 6u64) == i
                        && (y & 63u64) < j + 1)) by {
                    if (y >> 6u64) == i && (y & 63u64) == j {
                        let iu = i as u64;
                        assert(y == x) by (bit_vector)
                            requires
                                (y >> 6u64) == iu,
                                (y & 63u64) == j,
                                x == iu * 64 + j,
                                j < 64,
                                iu * 64 + j <= u64::MAX,
                        ;
                    }
                    if before.contains(y) {
                        let k = choose|k: int| 0 <= k < before.len() && before[k] == y;
                        assert(out@[k] == y);
                    }
                    if out@.contains(y) && y != x {
                        let k = choose|k: int| 0 <= k < out@.len() && out@[k] == y;
                        assert(k < before.len());
                        assert(before[k] == y);
                    }
                }
            }
            j += 1;
        }
        proof {
            assert forall|y: u64|
                out@.contains(y) <==> dense_has(a@, y) && (y >> 6u64) < i + 1 by {
                assert((y & 63u64) < 64) by (bit_vector);
            }
        }
        i += 1;
    }
    proof {
        assert(out@.to_set() =~= dense_view(a@));
    }
    out
}

} // verus!
