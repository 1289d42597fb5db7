//! Unsigned words that hold small `u64` values, with the largest word
//! value set aside as the invalid marker of a table.
use vstd::prelude::*;
use vstd::arithmetic::power2::{pow2, lemma_pow2_pos, lemma_pow2_adds};
use vstd::set_lib::{lemma_map_size, lemma_len_subset, set_int_range, lemma_int_range};
use vstd::relations::injective_on;
use crate::tinyset::HasInvalid;
use crate::robin::is_table_len;

verus! {

/// An unsigned word: `u8`, `u16`, `u32` or `u64`.
pub trait Word: HasInvalid {
    /// The word as a `u64`.
    spec fn spec_widen(self) -> u64;

    /// The low bits of `x` as a word.
    spec fn spec_narrow(x: u64) -> Self;

    /// Converts to a `u64`, without loss.
    fn widen(self) -> (r: u64)
        ensures
            r == self.spec_widen(),
    ;

    /// Converts a `u64` that fits to a word.
    fn narrow(x: u64) -> (r: Self)
        requires
            x <= Self::spec_invalid().spec_widen(),
        ensures
            r == Self::spec_narrow(x),
    ;

    /// Words are equal when `==` says so; widening is lossless; the
    /// invalid marker is the largest word.
    proof fn lemma_word()
        ensures
            vstd::laws_eq::obeys_concrete_eq::<Self>(),
            forall|w: Self| #[trigger] Self::spec_narrow(w.spec_widen()) == w,
            forall|w: Self| #[trigger] w.spec_widen() <= Self::spec_invalid().spec_widen(),
            forall|x: u64| x <= Self::spec_invalid().spec_widen() ==> #[trigger] Self::spec_narrow(x).spec_widen() == x,
    ;
}

/// The widened invalid marker of `W`: the largest word, which no stored
/// value may take.
pub open spec fn limit<W: Word>() -> u64 {
    W::spec_invalid().spec_widen()
}

impl Word for u8 {
    open spec fn spec_widen(self) -> u64 {
        self as u64
    }

    open spec fn spec_narrow(x: u64) -> u8 {
        x as u8
    }

    fn widen(self) -> u64 {
        self as u64
    }

    fn narrow(x: u64) -> u8 {
        x as u8
    }

    proof fn lemma_word() {
        reveal(vstd::laws_eq::obeys_concrete_eq);
        assert forall|x: u64| x <= 255 implies #[trigger] ((x as u8) as u64) == x by {
            assert(x <= 255 ==> ((x as u8) as u64) == x) by (bit_vector);
        }
        assert forall|w: u8| #[trigger] ((w as u64) as u8) == w by {
            assert(((w as u64) as u8) == w) by (bit_vector);
        }
    }
}

impl Word for u16 {
    open spec fn spec_widen(self) -> u64 {
        self as u64
    }

    open spec fn spec_narrow(x: u64) -> u16 {
        x as u16
    }

    fn widen(self) -> u64 {
        self as u64
    }

    fn narrow(x: u64) -> u16 {
        x as u16
    }

    proof fn lemma_word() {
        reveal(vstd::laws_eq::obeys_concrete_eq);
        assert forall|x: u64| x <= 0xffff implies #[trigger] ((x as u16) as u64) == x by {
            assert(x <= 0xffff ==> ((x as u16) as u64) == x) by (bit_vector);
        }
        assert forall|w: u16| #[trigger] ((w as u64) as u16) == w by {
            assert(((w as u64) as u16) == w) by (bit_vector);
        }
    }
}

impl Word for u32 {
    open spec fn spec_widen(self) -> u64 {
        self as u64
    }

    open spec fn spec_narrow(x: u64) -> u32 {
        x as u32
    }

    fn widen(self) -> u64 {
        self as u64
    }

    fn narrow(x: u64) -> u32 {
        x as u32
    }

    proof fn lemma_word() {
        reveal(vstd::laws_eq::obeys_concrete_eq);
        assert forall|x: u64| x <= 0xffff_ffff implies #[trigger] ((x as u32) as u64) == x by {
            assert(x <= 0xffff_ffff ==> ((x as u32) as u64) == x) by (bit_vector);
        }
        assert forall|w: u32| #[trigger] ((w as u64) as u32) == w by {
            assert(((w as u64) as u32) == w) by (bit_vector);
        }
    }
}

impl Word for u64 {
    open spec fn spec_widen(self) -> u64 {
        self
    }

    open spec fn spec_narrow(x: u64) -> u64 {
        x
    }

    fn widen(self) -> u64 {
        self
    }

    fn narrow(x: u64) -> u64 {
        x
    }

    proof fn lemma_word() {
        reveal(vstd::laws_eq::obeys_concrete_eq);
    }
}

/// The widened invalid marker of `W`.
pub fn word_limit<W: Word>() -> (r: u64)
    ensures
        r == limit::<W>(),
{
    W::invalid().widen()
}

/// The `u64` values of a set of words.
pub open spec fn widen_set<W: Word>(s: Set<W>) -> Set<u64> {
    Set::new(|x: u64| s.contains(W::spec_narrow(x)) && W::spec_narrow(x).spec_widen() == x)
}

/// A word is in the set exactly when its widened value is in the widened
/// set; a `u64` too large for the word is in no widened set.
pub proof fn lemma_widen_set_contains<W: Word>(s: Set<W>, w: W, x: u64)
    ensures
        s.contains(w) <==> widen_set(s).contains(w.spec_widen()),
        x > limit::<W>() ==> !widen_set(s).contains(x),
        w != W::spec_invalid() ==> w.spec_widen() < limit::<W>(),
{
    W::lemma_word();
    assert(W::spec_narrow(w.spec_widen()) == w);
    assert(W::spec_narrow(W::spec_invalid().spec_widen()) == W::spec_invalid());
    assert(W::spec_narrow(x).spec_widen() <= limit::<W>());
}

pub proof fn lemma_widen_set_insert<W: Word>(s: Set<W>, w: W)
    ensures
        widen_set(s.insert(w)) == widen_set(s).insert(w.spec_widen()),
{
    W::lemma_word();
    assert(W::spec_narrow(w.spec_widen()) == w);
    assert forall|x: u64| #[trigger] widen_set(s.insert(w)).contains(x) <==> widen_set(s).insert(
        w.spec_widen(),
    ).contains(x) by {
        if W::spec_narrow(x) == w && W::spec_narrow(x).spec_widen() == x {
            assert(x == w.spec_widen());
        }
    }
    assert(widen_set(s.insert(w)) =~= widen_set(s).insert(w.spec_widen()));
}

pub proof fn lemma_widen_set_remove<W: Word>(s: Set<W>, w: W)
    ensures
        widen_set(s.remove(w)) == widen_set(s).remove(w.spec_widen()),
{
    W::lemma_word();
    assert(W::spec_narrow(w.spec_widen()) == w);
    assert forall|x: u64| #[trigger] widen_set(s.remove(w)).contains(x) <==> widen_set(s).remove(
        w.spec_widen(),
    ).contains(x) by {
        if W::spec_narrow(x) == w && W::spec_narrow(x).spec_widen() == x {
            assert(x == w.spec_widen());
        }
    }
    assert(widen_set(s.remove(w)) =~= widen_set(s).remove(w.spec_widen()));
}

pub proof fn lemma_widen_set_empty<W: Word>()
    ensures
        widen_set(Set::<W>::empty()) == Set::<u64>::empty(),
{
    assert(widen_set(Set::<W>::empty()) =~= Set::<u64>::empty());
}

/// Widening keeps the number of elements.
pub proof fn lemma_widen_set_len<W: Word>(s: Set<W>)
    requires
        s.finite(),
    ensures
        widen_set(s).finite(),
        widen_set(s).len() == s.len(),
{
    W::lemma_word();
    let f = |w: W| w.spec_widen();
    assert(injective_on(f, s)) by {
        assert forall|a: W, b: W| s.contains(a) && s.contains(b) && #[trigger] f(a) == #[trigger] f(b) implies a == b by {
            assert(W::spec_narrow(a.spec_widen()) == a);
            assert(W::spec_narrow(b.spec_widen()) == b);
        }
    }
    assert(s.map(f) =~= widen_set(s)) by {
        assert forall|x: u64| #[trigger] widen_set(s).contains(x) implies s.map(f).contains(x) by {
            assert(s.contains(W::spec_narrow(x)) && x == f(W::spec_narrow(x)));
        }
        assert forall|x: u64| #[trigger] s.map(f).contains(x) implies widen_set(s).contains(x) by {
            let w = choose|w: W| s.contains(w) && x == f(w);
            assert(W::spec_narrow(w.spec_widen()) == w);
        }
    }
    lemma_map_size(s, widen_set(s), f);
}

/// A set of words without the invalid marker has at most `limit` elements.
pub proof fn lemma_word_set_bound<W: Word>(s: Set<W>)
    requires
        s.finite(),
        !s.contains(W::spec_invalid()),
    ensures
        s.len() <= limit::<W>(),
{
    W::lemma_word();
    let f = |w: W| w.spec_widen() as int;
    assert(injective_on(f, s)) by {
        assert forall|a: W, b: W| s.contains(a) && s.contains(b) && #[trigger] f(a) == #[trigger] f(b) implies a == b by {
            assert(W::spec_narrow(a.spec_widen()) == a);
            assert(W::spec_narrow(b.spec_widen()) == b);
        }
    }
    let y = s.map(f);
    lemma_map_size(s, y, f);
    assert(y.subset_of(set_int_range(0, limit::<W>() as int))) by {
        assert forall|x: int| #[trigger] y.contains(x) implies set_int_range(0, limit::<W>() as int).contains(x) by {
            let w = choose|w: W| s.contains(w) && x == f(w);
            assert(W::spec_narrow(w.spec_widen()) == w);
            assert(W::spec_narrow(W::spec_invalid().spec_widen()) == W::spec_invalid());
            assert(w.spec_widen() <= limit::<W>());
        }
    }
    lemma_int_range(0, limit::<W>() as int);
    lemma_len_subset(y, set_int_range(0, limit::<W>() as int));
}

/// The `u64` map of a map between words.
pub open spec fn widen_map<K: Word, V: Word>(m: Map<K, V>) -> Map<u64, u64> {
    Map::new(
        |x: u64| m.contains_key(K::spec_narrow(x)) && K::spec_narrow(x).spec_widen() == x,
        |x: u64| m[K::spec_narrow(x)].spec_widen(),
    )
}

/// The keys of the widened map are the widened keys; a key maps to the
/// widened value of its word.
pub proof fn lemma_widen_map_at<K: Word, V: Word>(m: Map<K, V>, k: K, x: u64)
    ensures
        widen_map(m).dom() == widen_set(m.dom()),
        m.contains_key(k) <==> widen_map(m).contains_key(k.spec_widen()),
        m.contains_key(k) ==> widen_map(m)[k.spec_widen()] == m[k].spec_widen(),
        x > limit::<K>() ==> !widen_map(m).contains_key(x),
        widen_map(m).contains_key(x) ==> K::spec_narrow(x).spec_widen() == x,
{
    K::lemma_word();
    assert(K::spec_narrow(k.spec_widen()) == k);
    assert(K::spec_narrow(x).spec_widen() <= limit::<K>());
    assert(widen_map(m).dom() =~= widen_set(m.dom()));
}

pub proof fn lemma_widen_map_insert<K: Word, V: Word>(m: Map<K, V>, k: K, v: V)
    ensures
        widen_map(m.insert(k, v)) == widen_map(m).insert(k.spec_widen(), v.spec_widen()),
{
    K::lemma_word();
    assert(K::spec_narrow(k.spec_widen()) == k);
    let a = widen_map(m.insert(k, v));
    let b = widen_map(m).insert(k.spec_widen(), v.spec_widen());
    assert forall|x: u64| #[trigger] a.contains_key(x) <==> b.contains_key(x) by {
        if K::spec_narrow(x) == k && K::spec_narrow(x).spec_widen() == x {
            assert(x == k.spec_widen());
        }
    }
    assert forall|x: u64| #[trigger] a.contains_key(x) implies a[x] == b[x] by {
        if K::spec_narrow(x) == k {
            assert(x == k.spec_widen());
        }
    }
    assert(a =~= b);
}

pub proof fn lemma_widen_map_remove<K: Word, V: Word>(m: Map<K, V>, k: K)
    ensures
        widen_map(m.remove(k)) == widen_map(m).remove(k.spec_widen()),
{
    K::lemma_word();
    assert(K::spec_narrow(k.spec_widen()) == k);
    let a = widen_map(m.remove(k));
    let b = widen_map(m).remove(k.spec_widen());
    assert forall|x: u64| #[trigger] a.contains_key(x) <==> b.contains_key(x) by {
        if K::spec_narrow(x) == k && K::spec_narrow(x).spec_widen() == x {
            assert(x == k.spec_widen());
        }
    }
    assert(a =~= b);
}

pub proof fn lemma_widen_map_empty<K: Word, V: Word>()
    ensures
        widen_map(Map::<K, V>::empty()) == Map::<u64, u64>::empty(),
{
    assert(widen_map(Map::<K, V>::empty()) =~= Map::<u64, u64>::empty());
}

/// The smallest power of two that is at least `x`.
pub open spec fn is_next_pow2(x: int, r: int) -> bool {
    &&& is_table_len(r)
    &&& x <= r
    &&& (r == 1 || r / 2 < x)
}

/// The smallest power of two at least `x`, for `x` at least one, is
/// below `2 * x`.
pub proof fn lemma_next_pow2_below_double(x: int, p: int)
    requires
        x >= 1,
        is_next_pow2(x, p),
    ensures
        p < 2 * x,
{
    let a = choose|a: nat| a < usize::BITS && p == pow2(a);
    if a > 0 {
        vstd::arithmetic::power2::lemma_pow2_unfold(a);
    }
}

/// The smallest power of two that is at least `x`.
pub fn next_power_of_two(x: usize) -> (r: usize)
    requires
        x <= pow2((usize::BITS - 1) as nat),
    ensures
        is_next_pow2(x as int, r as int),
{
    let mut r: usize = 1;
    let ghost mut p: nat = 0;
    proof {
        vstd::arithmetic::power2::lemma2_to64();
        vstd::layout::unsigned_int_max_values();
        lemma_pow2_adds((usize::BITS - 1) as nat, 1);
    }
    while r < x
        invariant
            r == pow2(p),
            p < usize::BITS,
            x <= pow2((usize::BITS - 1) as nat),
            r == 1 || r / 2 < x,
            pow2((usize::BITS - 1) as nat) * 2 == pow2(usize::BITS as nat),
            usize::MAX + 1 == pow2(usize::BITS as nat),
        decreases usize::BITS - p,
    {
        proof {
            lemma_pow2_adds(p, 1);
            vstd::arithmetic::power2::lemma2_to64();
            if p + 1 >= usize::BITS {
                assert(p == usize::BITS - 1);
                assert(false);
            }
            lemma_pow2_pos(p);
        }
        r = r * 2;
        proof {
            p = p + 1;
            assert(r / 2 == pow2((p - 1) as nat));
        }
    }
    proof {
        assert(is_table_len(r as int)) by {
            assert(p < usize::BITS && r == pow2(p));
        }
    }
    r
}

/// Calls std's `Vec::into_boxed_slice`.  The contract claims what its
/// documentation says: the boxed slice holds the vector's elements, in
/// order.
#[verifier::external_body]
pub(crate) fn into_boxed<T>(v: Vec<T>) -> (b: Box<[T]>)
    ensures
        b@ == v@,
{
    v.into_boxed_slice()
}

/// A table length fits a `usize`, and is at most `2^63`.
pub proof fn lemma_table_len_max(n: int)
    requires
        is_table_len(n),
    ensures
        1 <= n <= usize::MAX,
        n <= 0x8000_0000_0000_0000,
{
    let p = choose|p: nat| p < usize::BITS && n == pow2(p);
    vstd::arithmetic::power2::lemma2_to64();
    vstd::arithmetic::power2::lemma2_to64_rest();
    vstd::layout::unsigned_int_max_values();
    lemma_pow2_pos(p);
    assert(p <= 63);
    if p < 63 {
        vstd::arithmetic::power2::lemma_pow2_strictly_increases(p, 63);
    }
    if usize::BITS == 32 {
        if p < 31 {
            vstd::arithmetic::power2::lemma_pow2_strictly_increases(p, 31);
        }
    }
}

} // verus!
