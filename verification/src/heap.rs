//! A Robin Hood table of words, each holding a key in its high bits and
//! a bitmap in its `bits` low bits: the word with key `k` holds the value
//! `k * bits + o` for each bit `o` of its bitmap that is set.
use vstd::prelude::*;
use vstd::arithmetic::power2::{pow2, lemma_pow2_strictly_increases};
use crate::setu64::{
    keys_of, wtable_wf, has_key, words, has_room, p_lookfor, p_insert, p_remove, LookedUp, split_u64,
    spec_split_u64, lemma_word_unique, lemma_split_unsplit, spec_unsplit_u64, array_bits, bits_needed,
    lemma_bits_needed, lemma_keys_update, lemma_words_swap, law_place_word, word_of,
};
use crate::ktable::{k_no_dup, ktable_wf, lemma_kplace};
use crate::wtable::{lemma_words_len, lemma_room};

verus! {

/// Bit `o` of `w` is set.
pub open spec fn hbit(w: u64, o: u64) -> bool {
    (w >> o) & 1u64 == 1u64
}

/// The low `b` bits of `w`.
pub open spec fn lowbits(w: u64, b: u64) -> u64 {
    w & !(0xffff_ffff_ffff_ffffu64 << b)
}

/// Word `w` holds value `e`: its key is the quotient of `e` by `bits`,
/// and its bit at the remainder is set.
pub open spec fn hword_has(w: u64, bits: u64, e: u64) -> bool {
    &&& w >> bits == e / bits
    &&& hbit(w, e % bits)
}

/// The values that the words of table `a` hold.
pub open spec fn heap_view(a: Seq<u64>, bits: u64) -> Set<u64> {
    Set::new(|e: u64| exists|w: u64| #[trigger] words(a).contains(w) && hword_has(w, bits, e))
}

/// A word with a bitmap that is not empty, each of whose bits stands for
/// a value that a `u64` holds.
pub open spec fn hword_ok(w: u64, bits: u64) -> bool {
    &&& lowbits(w, bits) != 0
    &&& forall|o: u64| o < bits && #[trigger] hbit(w, o) ==> (w >> bits) * bits + o <= u64::MAX
}

/// A table of such words in Robin Hood order, with a free slot.
pub open spec fn heap_ok(a: Seq<u64>, bits: u64) -> bool {
    &&& 2 <= bits <= 62
    &&& wtable_wf(a, bits)
    &&& has_room(a)
    &&& a.len() * 2 <= usize::MAX
    &&& forall|w: u64| #[trigger] words(a).contains(w) ==> hword_ok(w, bits)
}

/// Setting or clearing a bit of the bitmap keeps the key, and changes
/// that bit alone.
proof fn lemma_bit_ops(w: u64, o: u64, o2: u64, b: u64)
    requires
        o < b,
        o2 < b,
        b < 64,
    ensures
        (w | (1u64 << o)) >> b == w >> b,
        hbit(w | (1u64 << o), o2) <==> hbit(w, o2) || o2 == o,
        lowbits(w | (1u64 << o), b) != 0,
        (w | (1u64 << o)) != 0,
        (w & (1u64 << o) != 0) <==> hbit(w, o),
        (w & !(1u64 << o)) >> b == w >> b,
        hbit(w & !(1u64 << o), o2) <==> hbit(w, o2) && o2 != o,
        ((w & !(1u64 << o)) == ((w >> b) << b)) <==> lowbits(w & !(1u64 << o), b) == 0,
        lowbits(w, b) == 0 ==> !hbit(w, o2),
        lowbits(w & !(1u64 << o), b) != 0 ==> (w & !(1u64 << o)) != 0,
        w & !(1u64 << o) == 0 ==> (w & !(1u64 << o)) == ((w >> b) << b),
{
    assert((w | (1u64 << o)) >> b == w >> b) by (bit_vector)
        requires
            o < b,
            b < 64,
    ;
    assert(hbit(w | (1u64 << o), o2) <==> hbit(w, o2) || o2 == o) by (bit_vector)
        requires
            o < 64,
            o2 < 64,
    ;
    assert(lowbits(w | (1u64 << o), b) != 0 && (w | (1u64 << o)) != 0) by (bit_vector)
        requires
            o < b,
            b < 64,
    ;
    assert((w & (1u64 << o) != 0) <==> hbit(w, o)) by (bit_vector)
        requires
            o < 64,
    ;
    assert((w & !(1u64 << o)) >> b == w >> b) by (bit_vector)
        requires
            o < b,
            b < 64,
    ;
    assert(hbit(w & !(1u64 << o), o2) <==> hbit(w, o2) && o2 != o) by (bit_vector)
        requires
            o < 64,
            o2 < 64,
    ;
    assert(((w & !(1u64 << o)) == ((w >> b) << b)) <==> lowbits(w & !(1u64 << o), b) == 0) by (bit_vector)
        requires
            o < b,
            b < 64,
    ;
    assert(lowbits(w & !(1u64 << o), b) != 0 ==> (w & !(1u64 << o)) != 0) by (bit_vector);
    assert(lowbits(w, b) == 0 ==> !hbit(w, o2)) by (bit_vector)
        requires
            o2 < b,
            b < 64,
    ;
    assert(w & !(1u64 << o) == 0 ==> (w & !(1u64 << o)) == ((w >> b) << b)) by (bit_vector)
        requires
            o < b,
            b < 64,
    ;
}

/// The word of key `k`, small enough, with bit `o` alone set.
proof fn lemma_new_word(k: u64, o: u64, o2: u64, b: u64)
    requires
        2 <= b <= 62,
        o < b,
        o2 < b,
        k >> ((64 - b) as u64) == 0,
    ensures
        ((k << b) | (1u64 << o)) >> b == k,
        hbit((k << b) | (1u64 << o), o2) <==> o2 == o,
        lowbits((k << b) | (1u64 << o), b) != 0,
        (k << b) | (1u64 << o) != 0,
{
    assert(((k << b) | (1u64 << o)) >> b == k) by (bit_vector)
        requires
            2 <= b <= 62,
            o < b,
            k >> ((64 - b) as u64) == 0,
    ;
    assert(hbit((k << b) | (1u64 << o), o2) <==> o2 == o) by (bit_vector)
        requires
            2 <= b <= 62,
            o < b,
            o2 < b,
    ;
    assert(lowbits((k << b) | (1u64 << o), b) != 0 && (k << b) | (1u64 << o) != 0) by (bit_vector)
        requires
            2 <= b <= 62,
            o < b,
    ;
}

/// A bitmap that is not empty has a set bit.
proof fn lemma_low_exists(w: u64, b: u64)
    requires
        1 <= b <= 63,
        lowbits(w, b) != 0,
    ensures
        exists|o: u64| o < b && #[trigger] hbit(w, o),
    decreases b,
{
    if hbit(w, (b - 1) as u64) {
        assert(hbit(w, (b - 1) as u64));
    } else {
        let c = (b - 1) as u64;
        assert(lowbits(w, c) != 0 && c >= 1) by (bit_vector)
            requires
                1 <= b <= 63,
                c == b - 1,
                lowbits(w, b) != 0,
                !hbit(w, c),
        ;
        lemma_low_exists(w, c);
        let o = choose|o: u64| o < c && #[trigger] hbit(w, o);
        assert(o < b && hbit(w, o));
    }
}

/// A value that a word holds is its key times `bits` plus the bit.
proof fn lemma_elem(w: u64, bits: u64, e: u64)
    requires
        bits > 0,
        hword_has(w, bits, e),
    ensures
        e == (w >> bits) * bits + e % bits,
        e % bits < bits,
{
    vstd::arithmetic::div_mod::lemma_fundamental_div_mod(e as int, bits as int);
    vstd::arithmetic::mul::lemma_mul_is_commutative(bits as int, (e / bits) as int);
}

/// Each set bit of a word stands for a value that the word holds.
proof fn lemma_elem_of(w: u64, bits: u64, o: u64)
    requires
        bits > 0,
        o < bits,
        hbit(w, o),
        (w >> bits) * bits + o <= u64::MAX,
    ensures
        hword_has(w, bits, ((w >> bits) * bits + o) as u64),
{
    lemma_split_unsplit(w >> bits, o, bits);
    let x = ((w >> bits) * bits + o) as u64;
    assert(spec_unsplit_u64(w >> bits, o, bits) == (w >> bits) * bits + o);
    assert(spec_split_u64(x, bits) == (x / bits, x % bits));
}

/// In a table without repeated keys, a word with the key of slot `i` is
/// the word in slot `i`.
proof fn lemma_word_at(a: Seq<u64>, off: u64, i: int, w: u64)
    requires
        k_no_dup(keys_of(a, off)),
        0 <= i < a.len(),
        a[i] != 0,
        words(a).contains(w),
        w >> off == a[i] >> off,
    ensures
        w == a[i],
{
    let j = choose|j: int| 0 <= j < a.len() && a[j] == w;
    lemma_word_unique(a, off, i, j);
}

/// No word of a table lacking key `k` has that key.
proof fn lemma_no_word(a: Seq<u64>, off: u64, k: u64, w: u64)
    requires
        !has_key(a, off, k),
        words(a).contains(w),
    ensures
        w >> off != k,
{
    let j = choose|j: int| 0 <= j < a.len() && a[j] == w;
    assert(keys_of(a, off)[j] == Some((w >> off) as int));
}

/// Whether the table holds `e`.
pub fn heap_contains(a: &[u64], bits: u64, e: u64) -> (r: bool)
    requires
        heap_ok(a@, bits),
    ensures
        r == heap_view(a@, bits).contains(e),
{
    let (key, off) = split_u64(e, bits);
    match p_lookfor(key, a, bits) {
        LookedUp::KeyFound(i) => {
            proof {
                lemma_bit_ops(a@[i as int], off, off, bits);
                if heap_view(a@, bits).contains(e) {
                    let w = choose|w: u64| #[trigger] words(a@).contains(w) && hword_has(w, bits, e);
                    lemma_word_at(a@, bits, i as int, w);
                }
                assert(words(a@).contains(a@[i as int]));
            }
            a[i] & (1u64 << off) != 0
        },
        _ => {
            proof {
                if heap_view(a@, bits).contains(e) {
                    let w = choose|w: u64| #[trigger] words(a@).contains(w) && hword_has(w, bits, e);
                    lemma_no_word(a@, bits, key, w);
                }
            }
            false
        },
    }
}

/// The key of a value small enough for the table leaves room for the
/// bitmap above it.
proof fn lemma_key_small(e: u64, bits: u64)
    requires
        2 <= bits <= 62,
        array_bits(e) >= bits,
    ensures
        (e / bits) >> ((64 - bits) as u64) == 0,
{
    let k = e / bits;
    let b = bits_needed(e as nat);
    lemma_bits_needed(e as nat);
    vstd::bits::lemma_u64_shr_is_div(k, (64 - bits) as u64);
    vstd::arithmetic::div_mod::lemma_div_is_ordered_by_denominator(e as int, 1, bits as int);
    if b < 2 {
        vstd::arithmetic::power2::lemma2_to64();
        if b == 1 {
            assert(e < 2);
        }
        lemma_pow2_strictly_increases(1, (64 - bits) as nat);
    } else {
        assert(b <= 64 - bits);
        if b < 64 - bits {
            lemma_pow2_strictly_increases(b, (64 - bits) as nat);
        }
    }
    vstd::arithmetic::div_mod::lemma_basic_div(k as int, pow2((64 - bits) as nat) as int);
}

/// What adding a value to a table did.
#[derive(Debug, PartialEq, Eq, Structural, Clone, Copy)]
pub enum HeapAdd {
    /// The value was there already.
    Present,
    /// The value's bit was set in the word of its key.
    NewBit,
    /// A word for the value's key was stored.
    NewWord,
    /// A word for the value's key would leave no free slot: nothing changed.
    Full,
}

/// Adds `e`, which must be small enough for the table, unless that takes
/// a new word and the table has no slot to spare for it.
pub fn heap_add(a: &mut [u64], bits: u64, e: u64, used: usize) -> (r: HeapAdd)
    requires
        heap_ok(old(a)@, bits),
        array_bits(e) >= bits,
        used == words(old(a)@).len(),
    ensures
        final(a)@.len() == old(a)@.len(),
        heap_ok(final(a)@, bits),
        words(old(a)@).finite(),
        words(final(a)@).finite(),
        r is Present <==> heap_view(old(a)@, bits).contains(e),
        r is Full ==> words(old(a)@).len() + 2 > old(a)@.len(),
        r is Full || r is Present ==> final(a)@ == old(a)@,
        !(r is Full) ==> heap_view(final(a)@, bits) == heap_view(old(a)@, bits).insert(e),
        words(final(a)@).len() == words(old(a)@).len() + if r is NewWord {
            1int
        } else {
            0
        },
{
    let ghost a0 = a@;
    proof {
        lemma_words_len(a0, bits);
    }
    let (key, off) = split_u64(e, bits);
    let found = p_lookfor(key, a, bits);
    match found {
        LookedUp::KeyFound(i) => {
            let w = a[i];
            proof {
                lemma_bit_ops(w, off, off, bits);
                assert(words(a0).contains(w));
                if heap_view(a0, bits).contains(e) {
                    let u = choose|u: u64| #[trigger] words(a0).contains(u) && hword_has(u, bits, e);
                    lemma_word_at(a0, bits, i as int, u);
                }
            }
            if w & (1u64 << off) != 0 {
                return HeapAdd::Present;
            }
            let w2 = w | (1u64 << off);
            proof {
                if a0.contains(w2) {
                    let j = choose|j: int| 0 <= j < a0.len() && a0[j] == w2;
                    lemma_bit_ops(w, off, off, bits);
                    lemma_word_unique(a0, bits, i as int, j);
                }
                lemma_words_swap(a0, bits, i as int, w2);
                lemma_keys_update(a0, bits, i as int, w2);
                assert(keys_of(a0.update(i as int, w2), bits) =~= keys_of(a0, bits));
            }
            a[i] = w2;
            proof {
                let a1 = a@;
                assert(a1 == a0.update(i as int, w2));
                assert(words(a1) =~= words(a0).insert(w2).remove(w)) by {
                    assert forall|x: u64| #[trigger] words(a1).contains(x) <==> words(a0).insert(w2).remove(w).contains(x) by {
                        if x == w {
                            assert(!a1.contains(w));
                        } else {
                            assert(words(a1).insert(w).contains(x) == words(a0).insert(w2).contains(x));
                        }
                    }
                }
                let ez = choose|z: int| 0 <= z < a0.len() && a0[z] == 0;
                assert(a1[ez] == 0);
                assert forall|u: u64| #[trigger] words(a1).contains(u) implies hword_ok(u, bits) by {
                    if u == w2 {
                        assert(hword_ok(w, bits));
                        assert forall|o: u64| o < bits && #[trigger] hbit(u, o) implies (u >> bits) * bits + o <= u64::MAX by {
                            lemma_bit_ops(w, off, o, bits);
                            if o == off {
                                assert(hword_has(u, bits, e));
                                lemma_elem(u, bits, e);
                            }
                        }
                        lemma_bit_ops(w, off, off, bits);
                    }
                }
                assert(heap_view(a1, bits) =~= heap_view(a0, bits).insert(e)) by {
                    assert forall|x: u64| heap_view(a1, bits).contains(x) <==> heap_view(a0, bits).insert(e).contains(x) by {
                        lemma_bit_ops(w, off, x % bits, bits);
                        if x / bits == e / bits && x % bits == off {
                            vstd::arithmetic::div_mod::lemma_fundamental_div_mod(x as int, bits as int);
                            vstd::arithmetic::div_mod::lemma_fundamental_div_mod(e as int, bits as int);
                        }
                        if heap_view(a1, bits).contains(x) {
                            let u = choose|u: u64| #[trigger] words(a1).contains(u) && hword_has(u, bits, x);
                            if u != w2 {
                                assert(words(a0).contains(u));
                            }
                        }
                        if heap_view(a0, bits).contains(x) {
                            let u = choose|u: u64| #[trigger] words(a0).contains(u) && hword_has(u, bits, x);
                            if u != w {
                                assert(words(a1).contains(u));
                            } else {
                                assert(words(a1).contains(w2));
                            }
                        }
                        if x == e {
                            assert(words(a1).contains(w2));
                            assert(hword_has(w2, bits, e));
                        }
                    }
                }
                lemma_words_len(a1, bits);
                assert(!words(a0).contains(w2));
            }
            HeapAdd::NewBit
        },
        LookedUp::EmptySpot(idx) => {
            proof {
                if heap_view(a0, bits).contains(e) {
                    let u = choose|u: u64| #[trigger] words(a0).contains(u) && hword_has(u, bits, e);
                    lemma_no_word(a0, bits, key, u);
                }
            }
            if used + 2 > a.len() {
                return HeapAdd::Full;
            }
            proof {
                lemma_kplace(keys_of(a0, bits), key as int, idx as int);
            }
            heap_place(a, bits, idx, e, key, off);
            HeapAdd::NewWord
        },
        LookedUp::NeedInsert => {
            proof {
                if heap_view(a0, bits).contains(e) {
                    let u = choose|u: u64| #[trigger] words(a0).contains(u) && hword_has(u, bits, e);
                    lemma_no_word(a0, bits, key, u);
                }
            }
            if used + 2 > a.len() {
                return HeapAdd::Full;
            }
            let idx = p_insert(key, a, bits);
            proof {
                if has_key(a@, bits, key) {
                    let j = choose|j: int| 0 <= j < a@.len() && keys_of(a@, bits)[j] == Some(key as int);
                    assert(words(a@).contains(a@[j]));
                    lemma_no_word(a0, bits, key, a@[j]);
                }
            }
            heap_place(a, bits, idx, e, key, off);
            HeapAdd::NewWord
        },
    }
}

/// Taking a free slot out of a table keeps its keys distinct.
proof fn lemma_no_dup_sub(ks: Seq<Option<int>>, j: int, k: int)
    requires
        0 <= j < ks.len(),
        ks[j] is None,
        k_no_dup(ks.update(j, Some(k))),
    ensures
        k_no_dup(ks),
{
    let t = ks.update(j, Some(k));
    assert forall|i: int, m: int|
        0 <= i < ks.len() && 0 <= m < ks.len() && i != m && ks[i] is Some implies #[trigger] ks[i]
            != #[trigger] ks[m] by {
        if i != j && m != j {
            assert(t[i] != t[m]);
        }
    }
}

/// Stores the word of `e`, alone in its key, in the free slot `idx`,
/// where the key of `e` keeps the table in order.
fn heap_place(a: &mut [u64], bits: u64, idx: usize, e: u64, key: u64, off: u64)
    requires
        2 <= bits <= 62,
        old(a)@.len() * 2 <= usize::MAX,
        idx < old(a)@.len(),
        old(a)@[idx as int] == 0,
        key == e / bits,
        off == e % bits,
        array_bits(e) >= bits,
        !has_key(old(a)@, bits, key),
        ktable_wf(keys_of(old(a)@, bits).update(idx as int, Some(key as int))),
        words(old(a)@).finite(),
        words(old(a)@).len() + 2 <= old(a)@.len(),
        forall|w: u64| #[trigger] words(old(a)@).contains(w) ==> hword_ok(w, bits),
    ensures
        final(a)@.len() == old(a)@.len(),
        heap_ok(final(a)@, bits),
        heap_view(final(a)@, bits) == heap_view(old(a)@, bits).insert(e),
        words(final(a)@).finite(),
        words(final(a)@).len() == words(old(a)@).len() + 1,
{
    let ghost a0 = a@;
    proof {
        lemma_key_small(e, bits);
        vstd::arithmetic::div_mod::lemma_mod_bound(e as int, bits as int);
        lemma_new_word(key, off, off, bits);
    }
    let w = (key << bits) | (1u64 << off);
    proof {
        law_place_word(a0, bits, idx as int, w);
        lemma_no_dup_sub(keys_of(a0, bits), idx as int, key as int);
        if words(a0).contains(w) {
            lemma_no_word(a0, bits, key, w);
        }
    }
    a[idx] = w;
    proof {
        let a1 = a@;
        lemma_words_len(a1, bits);
        lemma_room(a1);
        assert(hword_has(w, bits, e));
        assert forall|u: u64| #[trigger] words(a1).contains(u) implies hword_ok(u, bits) by {
            if u == w {
                assert forall|o: u64| o < bits && #[trigger] hbit(u, o) implies (u >> bits) * bits + o <= u64::MAX by {
                    lemma_new_word(key, off, o, bits);
                    lemma_elem(u, bits, e);
                }
            }
        }
        assert(heap_view(a1, bits) =~= heap_view(a0, bits).insert(e)) by {
            assert forall|x: u64| heap_view(a1, bits).contains(x) <==> heap_view(a0, bits).insert(e).contains(x) by {
                if heap_view(a1, bits).contains(x) {
                    let u = choose|u: u64| #[trigger] words(a1).contains(u) && hword_has(u, bits, x);
                    if u == w {
                        vstd::arithmetic::div_mod::lemma_mod_bound(x as int, bits as int);
                        lemma_new_word(key, off, x % bits, bits);
                        vstd::arithmetic::div_mod::lemma_fundamental_div_mod(x as int, bits as int);
                        vstd::arithmetic::div_mod::lemma_fundamental_div_mod(e as int, bits as int);
                    }
                }
                if heap_view(a0, bits).contains(x) {
                    let u = choose|u: u64| #[trigger] words(a0).contains(u) && hword_has(u, bits, x);
                    assert(words(a1).contains(u));
                }
                if x == e {
                    assert(words(a1).contains(w));
                }
            }
        }
    }
}

/// What removing a value from a table did.
#[derive(Debug, PartialEq, Eq, Structural, Clone, Copy)]
pub enum HeapDel {
    /// The value was not there.
    Absent,
    /// The value's bit was cleared in the word of its key.
    ClearedBit,
    /// The value was the last of its key, whose word was taken out.
    DroppedWord,
}

/// Removes `e`.
pub fn heap_del(a: &mut [u64], bits: u64, e: u64) -> (r: HeapDel)
    requires
        heap_ok(old(a)@, bits),
    ensures
        final(a)@.len() == old(a)@.len(),
        heap_ok(final(a)@, bits),
        words(old(a)@).finite(),
        words(final(a)@).finite(),
        r is Absent <==> !heap_view(old(a)@, bits).contains(e),
        r is Absent ==> final(a)@ == old(a)@,
        heap_view(final(a)@, bits) == heap_view(old(a)@, bits).remove(e),
        words(final(a)@).len() == words(old(a)@).len() - if r is DroppedWord {
            1int
        } else {
            0
        },
{
    let ghost a0 = a@;
    proof {
        lemma_words_len(a0, bits);
    }
    let (key, off) = split_u64(e, bits);
    let found = p_lookfor(key, a, bits);
    if let LookedUp::KeyFound(idx) = found {
        let w = a[idx];
        proof {
            lemma_bit_ops(w, off, off, bits);
            assert(words(a0).contains(w));
            if heap_view(a0, bits).contains(e) {
                let u = choose|u: u64| #[trigger] words(a0).contains(u) && hword_has(u, bits, e);
                lemma_word_at(a0, bits, idx as int, u);
            }
        }
        if w & (1u64 << off) != 0 {
            let newa = w & !(1u64 << off);
            proof {
                assert(hword_has(w, bits, e));
                assert(heap_view(a0, bits).contains(e));
            }
            if newa == key << bits {
                let ghost j = choose|j: int| 0 <= j < a0.len() && a0[j] != 0 && a0[j] >> bits == key;
                proof {
                    assert(a0[idx as int] != 0 && a0[idx as int] >> bits == key);
                    lemma_word_unique(a0, bits, idx as int, j);
                    assert(word_of(a0, bits, key) == w);
                    assert(keys_of(a0, bits)[idx as int] == Some(key as int));
                }
                p_remove(key, a, bits);
                proof {
                    let a1 = a@;
                    assert(words(a1) == words(a0).remove(w));
                    lemma_words_len(a1, bits);
                    assert(heap_view(a1, bits) =~= heap_view(a0, bits).remove(e)) by {
                        assert forall|x: u64| heap_view(a1, bits).contains(x) <==> heap_view(a0, bits).remove(e).contains(x) by {
                            if heap_view(a1, bits).contains(x) {
                                let u = choose|u: u64| #[trigger] words(a1).contains(u) && hword_has(u, bits, x);
                                assert(words(a0).contains(u));
                                if x == e {
                                    lemma_word_at(a0, bits, idx as int, u);
                                }
                            }
                            if heap_view(a0, bits).contains(x) && x != e {
                                let u = choose|u: u64| #[trigger] words(a0).contains(u) && hword_has(u, bits, x);
                                if u == w {
                                    vstd::arithmetic::div_mod::lemma_mod_bound(x as int, bits as int);
                                    lemma_bit_ops(w, off, x % bits, bits);
                                    vstd::arithmetic::div_mod::lemma_fundamental_div_mod(x as int, bits as int);
                                    vstd::arithmetic::div_mod::lemma_fundamental_div_mod(e as int, bits as int);
                                    assert(x % bits != off);
                                    assert(newa == (w >> bits) << bits);
                                    assert(lowbits(newa, bits) == 0);
                                    lemma_bit_ops(newa, off, x % bits, bits);
                                    assert(false);
                                }
                                assert(words(a1).contains(u));
                            }
                        }
                    }
                }
                HeapDel::DroppedWord
            } else {
                proof {
                    if a0.contains(newa) {
                        let j = choose|j: int| 0 <= j < a0.len() && a0[j] == newa;
                        lemma_word_unique(a0, bits, idx as int, j);
                    }
                    lemma_words_swap(a0, bits, idx as int, newa);
                    lemma_keys_update(a0, bits, idx as int, newa);
                    assert(keys_of(a0.update(idx as int, newa), bits) =~= keys_of(a0, bits));
                }
                a[idx] = newa;
                proof {
                    let a1 = a@;
                    assert(words(a1) =~= words(a0).insert(newa).remove(w)) by {
                        assert forall|x: u64| #[trigger] words(a1).contains(x) <==> words(a0).insert(newa).remove(w).contains(x) by {
                            if x == w {
                                assert(!a1.contains(w));
                            } else {
                                assert(words(a1).insert(w).contains(x) == words(a0).insert(newa).contains(x));
                            }
                        }
                    }
                    let ez = choose|z: int| 0 <= z < a0.len() && a0[z] == 0;
                    assert(a1[ez] == 0);
                    assert forall|u: u64| #[trigger] words(a1).contains(u) implies hword_ok(u, bits) by {
                        if u == newa {
                            assert(hword_ok(w, bits));
                            assert forall|o: u64| o < bits && #[trigger] hbit(u, o) implies (u >> bits) * bits + o <= u64::MAX by {
                                lemma_bit_ops(w, off, o, bits);
                            }
                        }
                    }
                    assert(heap_view(a1, bits) =~= heap_view(a0, bits).remove(e)) by {
                        assert forall|x: u64| heap_view(a1, bits).contains(x) <==> heap_view(a0, bits).remove(e).contains(x) by {
                            vstd::arithmetic::div_mod::lemma_mod_bound(x as int, bits as int);
                            lemma_bit_ops(w, off, x % bits, bits);
                            if x / bits == e / bits && x % bits == off {
                                vstd::arithmetic::div_mod::lemma_fundamental_div_mod(x as int, bits as int);
                                vstd::arithmetic::div_mod::lemma_fundamental_div_mod(e as int, bits as int);
                            }
                            if heap_view(a1, bits).contains(x) {
                                let u = choose|u: u64| #[trigger] words(a1).contains(u) && hword_has(u, bits, x);
                                if u != newa {
                                    assert(words(a0).contains(u));
                                    if x == e {
                                        lemma_word_at(a0, bits, idx as int, u);
                                    }
                                }
                            }
                            if heap_view(a0, bits).contains(x) && x != e {
                                let u = choose|u: u64| #[trigger] words(a0).contains(u) && hword_has(u, bits, x);
                                if u != w {
                                    assert(words(a1).contains(u));
                                } else {
                                    assert(words(a1).contains(newa));
                                }
                            }
                        }
                    }
                    lemma_words_len(a1, bits);
                    assert(!words(a0).contains(newa));
                }
                HeapDel::ClearedBit
            }
        } else {
            proof {
                assert(heap_view(a0, bits).remove(e) =~= heap_view(a0, bits));
            }
            HeapDel::Absent
        }
    } else {
        proof {
            if heap_view(a0, bits).contains(e) {
                let u = choose|u: u64| #[trigger] words(a0).contains(u) && hword_has(u, bits, e);
                lemma_no_word(a0, bits, key, u);
            }
            assert(heap_view(a0, bits).remove(e) =~= heap_view(a0, bits));
        }
        HeapDel::Absent
    }
}

/// A number is less than two to its power.
proof fn lemma_lt_pow2(b: nat)
    ensures
        b < pow2(b),
    decreases b,
{
    vstd::arithmetic::power2::lemma_pow2_pos(b);
    if b > 0 {
        lemma_lt_pow2((b - 1) as nat);
        vstd::arithmetic::power2::lemma_pow2_unfold(b);
        vstd::arithmetic::power2::lemma_pow2_pos((b - 1) as nat);
    }
}

/// The key of any word, times `b`, plus `b`, fits a `u64`.
proof fn lemma_key_room(w: u64, b: u64)
    requires
        2 <= b <= 62,
    ensures
        (w >> b) * b + b <= u64::MAX,
{
    let k = w >> b;
    let p = pow2(b as nat);
    let q = pow2((64 - b) as nat);
    vstd::bits::lemma_u64_shr_is_div(w, b);
    vstd::arithmetic::power2::lemma_pow2_pos(b as nat);
    vstd::arithmetic::power2::lemma_pow2_pos((64 - b) as nat);
    vstd::arithmetic::power2::lemma_pow2_adds((64 - b) as nat, b as nat);
    vstd::arithmetic::power2::lemma2_to64();
    assert(p * q == pow2(64)) by {
        vstd::arithmetic::mul::lemma_mul_is_commutative(p as int, q as int);
    }
    // k < q, since k * p <= w < pow2(64) == q * p.
    vstd::arithmetic::div_mod::lemma_fundamental_div_mod(w as int, p as int);
    assert(k * p <= w) by {
        vstd::arithmetic::div_mod::lemma_mod_bound(w as int, p as int);
        vstd::arithmetic::mul::lemma_mul_is_commutative(p as int, k as int);
    }
    if k >= q {
        vstd::arithmetic::mul::lemma_mul_inequality(q as int, k as int, p as int);
        vstd::arithmetic::mul::lemma_mul_is_commutative(p as int, q as int);
        assert(false);
    }
    lemma_lt_pow2(b as nat);
    vstd::arithmetic::mul::lemma_mul_inequality((k + 1) as int, q as int, b as int);
    vstd::arithmetic::mul::lemma_mul_strict_inequality(b as int, p as int, q as int);
    vstd::arithmetic::mul::lemma_mul_is_commutative(b as int, q as int);
    vstd::arithmetic::mul::lemma_mul_is_distributive_add_other_way(b as int, k as int, 1);
}

/// The largest, over all slots, of the slot's key times `bits` plus
/// `bits`: a bound on the values the table holds.
pub open spec fn hmax(a: Seq<u64>, bits: u64) -> int
    decreases a.len(),
{
    if a.len() == 0 {
        0
    } else {
        let m = hmax(a.drop_last(), bits);
        let x = (a.last() >> bits) * bits + bits;
        if x > m {
            x
        } else {
            m
        }
    }
}

proof fn lemma_hmax(a: Seq<u64>, bits: u64, i: int)
    requires
        2 <= bits <= 62,
        0 <= i < a.len(),
    ensures
        (a[i] >> bits) * bits + bits <= hmax(a, bits),
        0 <= hmax(a, bits) <= u64::MAX,
    decreases a.len(),
{
    lemma_key_room(a.last(), bits);
    if i < a.len() - 1 {
        lemma_hmax(a.drop_last(), bits, i);
    } else if a.len() > 1 {
        lemma_hmax(a.drop_last(), bits, 0);
    }
}

/// A bound on the values of the table: the largest key times `bits`,
/// plus `bits`, over all slots.
pub fn heap_max(a: &[u64], bits: u64) -> (r: u64)
    requires
        heap_ok(a@, bits),
    ensures
        r == hmax(a@, bits),
        forall|x: u64| heap_view(a@, bits).contains(x) ==> x < r,
{
    let mut m: u64 = 0;
    let mut i: usize = 0;
    while i < a.len()
        invariant
            2 <= bits <= 62,
            i <= a@.len(),
            m == hmax(a@.take(i as int), bits),
        decreases a@.len() - i,
    {
        proof {
            lemma_key_room(a@[i as int], bits);
            assert(a@.take(i + 1).drop_last() =~= a@.take(i as int));
        }
        let x = (a[i] >> bits) * bits + bits;
        if x > m {
            m = x;
        }
        i += 1;
    }
    proof {
        assert(a@.take(a@.len() as int) =~= a@);
        assert forall|x: u64| heap_view(a@, bits).contains(x) implies x < m by {
            let u = choose|u: u64| #[trigger] words(a@).contains(u) && hword_has(u, bits, x);
            let j = choose|j: int| 0 <= j < a@.len() && a@[j] == u;
            lemma_hmax(a@, bits, j);
            lemma_elem(u, bits, x);
        }
    }
    m
}

/// The values of the table, each once.
pub fn heap_items(a: &[u64], bits: u64) -> (r: Vec<u64>)
    requires
        heap_ok(a@, bits),
    ensures
        r@.to_set() == heap_view(a@, bits),
        r@.no_duplicates(),
{
    let mut out: Vec<u64> = Vec::new();
    let mut i: usize = 0;
    while i < a.len()
        invariant
            heap_ok(a@, bits),
            i <= a@.len(),
            out@.no_duplicates(),
            forall|x: u64|
                out@.contains(x) <==> exists|j: int| 0 <= j < i && a@[j] != 0 && #[trigger] hword_has(a@[j], bits, x),
        decreases a@.len() - i,
    {
        let w = a[i];
        if w != 0 {
            proof {
                assert(words(a@).contains(w));
            }
            let k = w >> bits;
            let mut o: u64 = 0;
            while o < bits
                invariant
                    heap_ok(a@, bits),
                    i < a@.len(),
                    w == a@[i as int],
                    w != 0,
                    k == w >> bits,
                    hword_ok(w, bits),
                    o <= bits,
                    out@.no_duplicates(),
                    forall|x: u64|
                        out@.contains(x) <==> (exists|j: int| 0 <= j < i && a@[j] != 0 && #[trigger] hword_has(a@[j], bits, x))
                            || (hword_has(w, bits, x) && x % bits < o),
                decreases bits - o,
            {
                proof {
                    lemma_bit_ops(w, o, o, bits);
                }
                let ghost before = out@;
                if w & (1u64 << o) != 0 {
                    let x = k * bits + o;
                    proof {
                        lemma_elem_of(w, bits, o);
                        vstd::arithmetic::div_mod::lemma_fundamental_div_mod(x as int, bits as int);
                        lemma_split_unsplit(k, o, bits);
                        if out@.contains(x) {
                            if exists|j: int| 0 <= j < i && a@[j] != 0 && #[trigger] hword_has(a@[j], bits, x) {
                                let j = choose|j: int| 0 <= j < i && a@[j] != 0 && #[trigger] hword_has(a@[j], bits, x);
                                lemma_word_unique(a@, bits, i as int, j);
                            }
                        }
                    }
                    out.push(x);
                    proof {
                        assert(out@[out@.len() - 1] == x);
                    }
                }
                proof {
                    assert forall|y: u64|
                        out@.contains(y) <==> (exists|j: int| 0 <= j < i && a@[j] != 0 && #[trigger] hword_has(a@[j], bits, y))
                            || (hword_has(w, bits, y) && y % bits < o + 1) by {
                        if before.contains(y) {
                            let m = choose|m: int| 0 <= m < before.len() && before[m] == y;
                            assert(out@[m] == y);
                        }
                        if out@.contains(y) && !before.contains(y) {
                            let m = choose|m: int| 0 <= m < out@.len() && out@[m] == y;
                            assert(m == before.len());
                        }
                        if hword_has(w, bits, y) && y % bits == o {
                            lemma_elem(w, bits, y);
                            lemma_bit_ops(w, o, o, bits);
                        }
                    }
                }
                o += 1;
            }
            proof {
                assert forall|y: u64|
                    out@.contains(y) <==> exists|j: int| 0 <= j < i + 1 && a@[j] != 0 && #[trigger] hword_has(a@[j], bits, y) by {
                    if hword_has(w, bits, y) {
                        vstd::arithmetic::div_mod::lemma_mod_bound(y as int, bits as int);
                    }
                    if exists|j: int| 0 <= j < i + 1 && a@[j] != 0 && #[trigger] hword_has(a@[j], bits, y) {
                        let j = choose|j: int| 0 <= j < i + 1 && a@[j] != 0 && #[trigger] hword_has(a@[j], bits, y);
                        if j == i {
                            vstd::arithmetic::div_mod::lemma_mod_bound(y as int, bits as int);
                        }
                    }
                }
            }
        } else {
            proof {
                assert forall|y: u64|
                    out@.contains(y) <==> exists|j: int| 0 <= j < i + 1 && a@[j] != 0 && #[trigger] hword_has(a@[j], bits, y) by {
                    if exists|j: int| 0 <= j < i + 1 && a@[j] != 0 && #[trigger] hword_has(a@[j], bits, y) {
                        let j = choose|j: int| 0 <= j < i + 1 && a@[j] != 0 && #[trigger] hword_has(a@[j], bits, y);
                        assert(j < i);
                    }
                }
            }
        }
        i += 1;
    }
    proof {
        assert(out@.to_set() =~= heap_view(a@, bits)) by {
            assert forall|y: u64| out@.to_set().contains(y) <==> heap_view(a@, bits).contains(y) by {
                if heap_view(a@, bits).contains(y) {
                    let u = choose|u: u64| #[trigger] words(a@).contains(u) && hword_has(u, bits, y);
                    let j = choose|j: int| 0 <= j < a@.len() && a@[j] == u;
                    assert(hword_has(a@[j], bits, y));
                }
                if out@.contains(y) {
                    let j = choose|j: int| 0 <= j < a@.len() && a@[j] != 0 && #[trigger] hword_has(a@[j], bits, y);
                    assert(words(a@).contains(a@[j]));
                }
            }
        }
    }
    out
}

/// A table holds at least as many values as words.
pub proof fn lemma_words_le_view(a: Seq<u64>, bits: u64)
    requires
        heap_ok(a, bits),
        heap_view(a, bits).finite(),
    ensures
        words(a).finite(),
        words(a).len() <= heap_view(a, bits).len(),
{
    lemma_words_len(a, bits);
    let f = |w: u64| choose|e: u64| hword_has(w, bits, e);
    assert forall|w: u64| #[trigger] words(a).contains(w) implies hword_has(w, bits, f(w)) by {
        lemma_low_exists(w, bits);
        let o = choose|o: u64| o < bits && #[trigger] hbit(w, o);
        lemma_elem_of(w, bits, o);
    }
    let img = words(a).map(f);
    assert(vstd::relations::injective_on(f, words(a))) by {
        assert forall|w1: u64, w2: u64| words(a).contains(w1) && words(a).contains(w2) && #[trigger] f(w1) == #[trigger] f(w2) implies w1 == w2 by {
            let i = choose|i: int| 0 <= i < a.len() && a[i] == w1;
            lemma_word_at(a, bits, i, w2);
        }
    }
    vstd::set_lib::lemma_map_size(words(a), img, f);
    assert(img.subset_of(heap_view(a, bits))) by {
        assert forall|e: u64| img.contains(e) implies heap_view(a, bits).contains(e) by {
            let w = choose|w: u64| words(a).contains(w) && f(w) == e;
        }
    }
    vstd::set_lib::lemma_len_subset(img, heap_view(a, bits));
}

} // verus!
