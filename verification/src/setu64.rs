//! `SetU64`, a set of `u64` that picks its storage by its contents, with
//! the bit arithmetic it uses and Robin Hood probing on tables of words
//! whose key is the word's high bits.
use vstd::prelude::*;
use vstd::arithmetic::power2::{pow2, lemma_pow2_strictly_increases, lemma_pow2_unfold};
use crate::robin::{lemma_bit_length, pdist, wrap, nxt};
use crate::ktable::{
    khome, kdisp, ktable_wf, k_no_dup, kprobe, kpasses, kclear, k_holed, lemma_khome_bound, lemma_kprobe_of,
    lemma_kabsent, lemma_kclear_all, lemma_kplace, lemma_kopen_hole, lemma_kshift_back,
    lemma_kclose_hole,
};
use crate::tiny::{Tiny, increasing};
use crate::dense::{dense_view, dense_contains, dense_add, dense_del, dense_zeros, dense_widened, dense_items};
use crate::heap::{heap_ok, heap_view, heap_contains, heap_add, heap_del, heap_items, heap_max, HeapAdd, HeapDel, lemma_words_le_view};
use crate::big::{big_ok, big_view, big_contains, big_add, big_del, big_items, big_remark, lemma_big_len};
use crate::wtable::{wt_zeros, wt_copy};
use crate::word::into_boxed;

verus! {

/// The number of binary digits of `x`; zero is written with one digit.
pub open spec fn bits_needed(x: nat) -> nat
    decreases x,
{
    if x < 2 {
        1
    } else {
        1 + bits_needed(x / 2)
    }
}

/// `bits_needed(x)` is the least `b >= 1` with `x < 2^b`.
pub proof fn lemma_bits_needed(x: nat)
    ensures
        bits_needed(x) >= 1,
        x < pow2(bits_needed(x)),
        bits_needed(x) == 1 || pow2((bits_needed(x) - 1) as nat) <= x,
    decreases x,
{
    lemma_pow2_unfold(1);
    vstd::arithmetic::power2::lemma2_to64();
    if x >= 2 {
        lemma_bits_needed(x / 2);
        lemma_pow2_unfold(bits_needed(x));
        lemma_pow2_unfold((bits_needed(x) - 1) as nat);
        if bits_needed(x / 2) > 1 {
            lemma_pow2_unfold((bits_needed(x / 2)) as nat);
        }
    }
}

/// A `b >= 1` with `x < 2^b`, and `b == 1` or `2^(b-1) <= x`, is `bits_needed(x)`.
pub proof fn lemma_bits_needed_unique(x: nat, b: nat)
    requires
        b >= 1,
        x < pow2(b),
        b == 1 || pow2((b - 1) as nat) <= x,
    ensures
        b == bits_needed(x),
{
    lemma_bits_needed(x);
    let c = bits_needed(x);
    if b < c {
        if b <= c - 1 {
            if b < c - 1 {
                lemma_pow2_strictly_increases(b, (c - 1) as nat);
            }
        }
    } else if c < b {
        if c <= b - 1 {
            if c < b - 1 {
                lemma_pow2_strictly_increases(c, (b - 1) as nat);
            }
        }
    }
}

/// The number of bits in a value of type `T`.
pub fn num_bits<T>() -> (r: u64)
    requires
        vstd::layout::size_of::<T>() * 8 <= u64::MAX,
    ensures
        r == vstd::layout::size_of::<T>() * 8,
{
    let sz = std::mem::size_of::<T>();
    (sz as u64) * 8
}

/// The number of binary digits of `x`, with one digit for zero.
pub fn log_2(x: u64) -> (r: u64)
    ensures
        r == bits_needed(x as nat),
        1 <= r <= 64,
{
    let r: u64 = if x == 0 {
        1
    } else {
        let lz = x.leading_zeros();
        proof {
            lemma_bit_length(x);
        }
        64 - lz as u64
    };
    proof {
        lemma_pow2_unfold(1);
        vstd::arithmetic::power2::lemma2_to64();
        if x == 0 {
            lemma_bits_needed_unique(0, 1);
        } else {
            lemma_bits_needed_unique(x as nat, r as nat);
        }
    }
    r
}

/// The number of low bits of each table word that a set of values up to
/// `mx` uses as a bitmap: 62 for values under two, none for values that
/// need more than 62 bits, and otherwise the bits that the value leaves
/// free in a word.
pub open spec fn array_bits(mx: u64) -> u64 {
    let b = bits_needed(mx as nat);
    if b < 2 {
        62
    } else if b > 62 {
        0
    } else {
        (64 - b) as u64
    }
}

/// The bitmap width for a table of values up to `mx`; see `array_bits`.
pub fn compute_array_bits(mx: u64) -> (r: u64)
    ensures
        r == array_bits(mx),
{
    if log_2(mx) < 2 {
        return 62;
    } else if log_2(mx) > 62 {
        return 0;
    }
    let mut bits = 64 - log_2(mx);
    while 64 - log_2(mx) < bits
        invariant
            bits == 64 - bits_needed(mx as nat),
        decreases 64 - bits,
    {
        bits += 1;
    }
    bits
}

/// What `split_u64` gives: quotient and remainder by `bits`, or `x`
/// itself and zero when `bits` is zero.
pub open spec fn spec_split_u64(x: u64, bits: u64) -> (u64, u64) {
    if bits > 0 {
        (x / bits, x % bits)
    } else {
        (x, 0)
    }
}

/// What `unsplit_u64` gives: `k * bits + offset`, or `k` when `bits` is zero.
pub open spec fn spec_unsplit_u64(k: u64, offset: u64, bits: u64) -> int {
    if bits > 0 {
        k * bits + offset
    } else {
        k as int
    }
}

/// Splits `x` into a key and an offset below `bits`.
pub fn split_u64(x: u64, bits: u64) -> (r: (u64, u64))
    ensures
        r == spec_split_u64(x, bits),
{
    if bits > 0 {
        (x / bits, (x % bits))
    } else {
        (x, 0)
    }
}

/// Joins a key and an offset back into a value.
pub fn unsplit_u64(k: u64, offset: u64, bits: u64) -> (r: u64)
    requires
        spec_unsplit_u64(k, offset, bits) <= u64::MAX,
    ensures
        r == spec_unsplit_u64(k, offset, bits),
{
    if bits > 0 {
        k * bits + offset
    } else {
        k
    }
}

/// Joining the two parts of a split gives back the value.
pub proof fn lemma_unsplit_split(x: u64, bits: u64)
    ensures
        spec_unsplit_u64(spec_split_u64(x, bits).0, spec_split_u64(x, bits).1, bits) == x,
{
    if bits > 0 {
        vstd::arithmetic::div_mod::lemma_fundamental_div_mod(x as int, bits as int);
        vstd::arithmetic::mul::lemma_mul_is_commutative(bits as int, (x / bits) as int);
    }
}

/// Splitting a value that was joined from a key and an offset below
/// `bits` gives back the key and the offset.
pub proof fn lemma_split_unsplit(k: u64, offset: u64, bits: u64)
    requires
        bits > 0 ==> offset < bits,
        bits == 0 ==> offset == 0,
        spec_unsplit_u64(k, offset, bits) <= u64::MAX,
    ensures
        spec_split_u64(spec_unsplit_u64(k, offset, bits) as u64, bits) == (k, offset),
{
    if bits > 0 {
        let x = spec_unsplit_u64(k, offset, bits);
        vstd::arithmetic::div_mod::lemma_fundamental_div_mod_converse(
            x,
            bits as int,
            k as int,
            offset as int,
        );
        let xu = x as u64;
        assert(xu as int == x);
        assert(xu / bits == k);
        assert(xu % bits == offset);
    }
}

/// A word whose low `bits` bits are set.
pub fn mask(bits: usize) -> (r: u64)
    requires
        bits < 64,
    ensures
        r == pow2(bits as nat) - 1,
{
    proof {
        vstd::bits::lemma_u64_pow2_no_overflow(bits as nat);
        vstd::bits::lemma_u64_shl_is_mul(1, bits as u64);
    }
    (1u64 << (bits as u64)) - 1
}

/// How far slot `idx` lies after the home slot `k % n` of key `k`, going
/// forward around a table of `n` slots.
pub open spec fn poverty(k: int, idx: int, n: int) -> int {
    (idx - k) % n
}

/// How far slot `idx` lies after the home slot of key `k` in a table of
/// `n` slots.
pub fn p_poverty(k: u64, idx: usize, n: usize) -> (r: usize)
    requires
        0 < n,
        n as int * 2 <= usize::MAX,
    ensures
        r == poverty(k as int, idx as int, n as int),
        r < n,
{
    proof {
        vstd::layout::unsigned_int_max_values();
        vstd::arithmetic::div_mod::lemma_mod_bound(k as int, n as int);
        vstd::arithmetic::div_mod::lemma_mod_bound(idx as int, n as int);
    }
    let h = (k % n as u64) as usize;
    let r = ((idx % n) + n - h) % n;
    proof {
        let a = idx as int;
        let b = k as int;
        let m = n as int;
        vstd::arithmetic::div_mod::lemma_add_mod_noop(a % m + m, -(b % m), m);
        vstd::arithmetic::div_mod::lemma_add_mod_noop(a, m, m);
        vstd::arithmetic::div_mod::lemma_mod_self_0(m);
        vstd::arithmetic::div_mod::lemma_mod_twice(a, m);
        vstd::arithmetic::div_mod::lemma_sub_mod_noop(a, b, m);
        vstd::arithmetic::div_mod::lemma_mod_bound((a % m + m - b % m), m);
        vstd::arithmetic::div_mod::lemma_add_mod_noop(a % m, m, m);
        vstd::arithmetic::div_mod::lemma_mod_twice(b, m);
        vstd::arithmetic::div_mod::lemma_sub_mod_noop(a % m + m, b % m, m);
        vstd::arithmetic::div_mod::lemma_sub_mod_noop(a % m, b % m, m);
    }
    r
}

/// The distance `poverty` gives is the forward distance from the home slot.
pub proof fn lemma_poverty_pdist(k: int, i: int, n: int)
    requires
        k >= 0,
        0 <= i < n,
    ensures
        poverty(k, i, n) == pdist(i, khome(k, n), n),
{
    lemma_khome_bound(k, n);
    vstd::arithmetic::div_mod::lemma_sub_mod_noop(i, k, n);
    vstd::arithmetic::div_mod::lemma_small_mod(i as nat, n as nat);
    let d = i - k % n;
    if d >= 0 {
        vstd::arithmetic::div_mod::lemma_small_mod(d as nat, n as nat);
    } else {
        vstd::arithmetic::div_mod::lemma_add_mod_noop(d, n, n);
        vstd::arithmetic::div_mod::lemma_mod_self_0(n);
        vstd::arithmetic::div_mod::lemma_small_mod((d + n) as nat, n as nat);
        vstd::arithmetic::div_mod::lemma_mod_twice(d, n);
    }
}

/// The keys of the words of a table: `None` for a zero word, and the bits
/// above the low `off` otherwise.
pub open spec fn keys_of(a: Seq<u64>, off: u64) -> Seq<Option<int>> {
    Seq::new(a.len(), |i: int| if a[i] == 0 { None } else { Some((a[i] >> off) as int) })
}

/// A table of words whose keys are in Robin Hood order.
pub open spec fn wtable_wf(a: Seq<u64>, off: u64) -> bool {
    ktable_wf(keys_of(a, off))
}

/// Some word of the table has key `k`.
pub open spec fn has_key(a: Seq<u64>, off: u64, k: u64) -> bool {
    keys_of(a, off).contains(Some(k as int))
}

/// The words that a table holds.
pub open spec fn words(a: Seq<u64>) -> Set<u64> {
    Set::new(|w: u64| w != 0 && a.contains(w))
}

/// The word with key `k`.
pub open spec fn word_of(a: Seq<u64>, off: u64, k: u64) -> u64 {
    a[choose|i: int| 0 <= i < a.len() && a[i] != 0 && a[i] >> off == k]
}

/// The slot `m` steps after slot `r` in a table of `n` slots.
pub open spec fn step_from(r: int, m: int, n: int) -> int {
    wrap(r + m, n)
}

/// The slots from `r` on, up to but not including `q`, all hold words.
pub open spec fn in_run(a: Seq<u64>, r: int, q: int) -> bool {
    forall|m: int| 0 <= m < pdist(q, r, a.len() as int) ==> a[#[trigger] step_from(r, m, a.len() as int)] != 0
}

/// The slot of the word with key `k`.
pub open spec fn key_slot(a: Seq<u64>, off: u64, k: u64) -> int {
    choose|i: int| 0 <= i < a.len() && a[i] != 0 && a[i] >> off == k
}

/// The table has a free slot.
pub open spec fn has_room(a: Seq<u64>) -> bool {
    exists|e: int| 0 <= e < a.len() && a[e] == 0
}

/// What a search for a key finds.
#[derive(Debug, PartialEq, Eq, Structural, Clone, Copy)]
pub enum LookedUp {
    /// The key is absent, and this free slot is where it belongs.
    EmptySpot(usize),
    /// The key is in this slot.
    KeyFound(usize),
    /// The key is absent, and storing it would move other words.
    NeedInsert,
}

impl LookedUp {
    /// Whether the key was found.
    pub fn key_found(self) -> (r: bool)
        ensures
            r == self is KeyFound,
    {
        if let LookedUp::KeyFound(_) = self {
            true
        } else {
            false
        }
    }

    /// Whether the search stopped on a free slot.
    pub fn empty_spot(self) -> (r: bool)
        ensures
            r == self is EmptySpot,
    {
        if let LookedUp::EmptySpot(_) = self {
            true
        } else {
            false
        }
    }

    /// The slot where the key was found.
    pub fn unwrap(self) -> (r: usize)
        requires
            self is KeyFound,
        ensures
            r == self->KeyFound_0,
    {
        match self {
            LookedUp::KeyFound(idx) => idx,
            _ => 0,
        }
    }
}

/// Two slots holding the same nonzero word are the same slot.
pub proof fn lemma_word_unique(a: Seq<u64>, off: u64, i: int, j: int)
    requires
        k_no_dup(keys_of(a, off)),
        0 <= i < a.len(),
        0 <= j < a.len(),
        a[i] != 0,
        a[i] >> off == a[j] >> off,
        a[j] != 0,
    ensures
        i == j,
{
    let ks = keys_of(a, off);
    if i != j {
        assert(ks[i] != ks[j]);
    }
}

/// The slot `pov` steps after home slot `h`.
fn probe(h: usize, pov: usize, n: usize) -> (r: usize)
    requires
        h < n,
        pov < n,
        n as int * 2 <= usize::MAX,
    ensures
        r == wrap(h + pov, n as int),
        r < n,
{
    let s = h + pov;
    if s >= n {
        s - n
    } else {
        s
    }
}

/// The home slot of key `k` in a table of `n` slots.
fn home_of(k: u64, n: usize) -> (r: usize)
    requires
        n > 0,
    ensures
        r == khome(k as int, n as int),
        r < n,
{
    proof {
        lemma_khome_bound(k as int, n as int);
    }
    (k % (n as u64)) as usize
}

/// Looks for key `k` in the table `a`, whose keys are the words' bits
/// above the low `offset`.
pub fn p_lookfor(k: u64, a: &[u64], offset: u64) -> (r: LookedUp)
    requires
        wtable_wf(a@, offset),
        offset < 64,
        a@.len() * 2 <= usize::MAX,
    ensures
        r matches LookedUp::KeyFound(i) ==> i < a@.len() && a@[i as int] != 0 && a@[i as int] >> offset
            == k,
        r matches LookedUp::EmptySpot(i) ==> {
            &&& i < a@.len()
            &&& a@[i as int] == 0
            &&& !has_key(a@, offset, k)
            &&& kclear(
                keys_of(a@, offset),
                k as int,
                pdist(i as int, khome(k as int, a@.len() as int), a@.len() as int),
            )
        },
        r is NeedInsert ==> {
            &&& !has_key(a@, offset, k)
            &&& (kclear(keys_of(a@, offset), k as int, a@.len() as int) || exists|d: int|
                0 <= d < a@.len() && kclear(keys_of(a@, offset), k as int, d) && #[trigger] keys_of(
                    a@,
                    offset,
                )[kprobe(k as int, d, a@.len() as int)] is Some && kdisp(
                    keys_of(a@, offset),
                    kprobe(k as int, d, a@.len() as int),
                ) < d)
        },
{
    let ghost ks = keys_of(a@, offset);
    let n = a.len();
    let h = home_of(k, n);
    let mut pov: usize = 0;
    while pov < n
        invariant
            ks == keys_of(a@, offset),
            ktable_wf(ks),
            n == a@.len(),
            n * 2 <= usize::MAX,
            offset < 64,
            h == khome(k as int, n as int),
            pov <= n,
            kclear(ks, k as int, pov as int),
        decreases n - pov,
    {
        let ii = probe(h, pov, n);
        assert(ii == kprobe(k as int, pov as int, n as int));
        if a[ii] == 0 {
            proof {
                lemma_kabsent(ks, k as int, pov as int);
                lemma_kprobe_of(k as int, ii as int, n as int);
            }
            return LookedUp::EmptySpot(ii);
        }
        let ki = a[ii] >> offset;
        let pov_ki = p_poverty(ki, ii, n);
        proof {
            lemma_poverty_pdist(ki as int, ii as int, n as int);
        }
        if ki == k {
            return LookedUp::KeyFound(ii);
        } else if pov_ki < pov {
            proof {
                lemma_kabsent(ks, k as int, pov as int);
            }
            return LookedUp::NeedInsert;
        }
        assert(kpasses(ks, k as int, pov as int));
        pov += 1;
    }
    proof {
        lemma_kclear_all(ks, k as int);
    }
    LookedUp::NeedInsert
}

/// Writing word `w` into slot `j` changes the keys at `j` alone.
pub proof fn lemma_keys_update(a: Seq<u64>, off: u64, j: int, w: u64)
    requires
        0 <= j < a.len(),
    ensures
        keys_of(a.update(j, w), off) == keys_of(a, off).update(
            j,
            if w == 0 {
                None
            } else {
                Some((w >> off) as int)
            },
        ),
{
    assert(keys_of(a.update(j, w), off) =~= keys_of(a, off).update(
        j,
        if w == 0 {
            None
        } else {
            Some((w >> off) as int)
        },
    ));
}

/// Storing a word in a free slot adds it to the table.
pub proof fn lemma_words_put(a: Seq<u64>, j: int, w: u64)
    requires
        0 <= j < a.len(),
        a[j] == 0,
        w != 0,
    ensures
        words(a.update(j, w)) == words(a).insert(w),
{
    let t = a.update(j, w);
    assert(words(t) =~= words(a).insert(w)) by {
        assert forall|x: u64| words(t).contains(x) <==> words(a).insert(w).contains(x) by {
            if x != 0 && a.contains(x) {
                let i = choose|i: int| 0 <= i < a.len() && a[i] == x;
                assert(i != j);
                assert(t[i] == x);
            }
            if x != 0 && t.contains(x) && x != w {
                let i = choose|i: int| 0 <= i < t.len() && t[i] == x;
                assert(a[i] == x);
            }
            if x == w {
                assert(t[j] == w);
            }
        }
    }
}

/// Emptying slot `j` takes its word out of the table.
pub proof fn lemma_words_take(a: Seq<u64>, off: u64, j: int)
    requires
        k_no_dup(keys_of(a, off)),
        0 <= j < a.len(),
        a[j] != 0,
    ensures
        words(a.update(j, 0)).insert(a[j]) == words(a),
        !a.update(j, 0).contains(a[j]),
{
    let t = a.update(j, 0);
    assert(words(t).insert(a[j]) =~= words(a)) by {
        assert forall|x: u64| words(t).insert(a[j]).contains(x) <==> words(a).contains(x) by {
            if x != 0 && a.contains(x) && x != a[j] {
                let i = choose|i: int| 0 <= i < a.len() && a[i] == x;
                assert(t[i] == x);
            }
            if x != 0 && t.contains(x) {
                let i = choose|i: int| 0 <= i < t.len() && t[i] == x;
                assert(a[i] == x);
            }
            if x == a[j] {
                assert(a[j] == x);
            }
        }
    }
    if t.contains(a[j]) {
        let i = choose|i: int| 0 <= i < t.len() && t[i] == a[j];
        if i != j {
            lemma_word_unique(a, off, i, j);
        }
    }
}

/// Moving word `w` into slot `j`, and the word there out, keeps the words
/// together with the one carried.
pub proof fn lemma_words_swap(a: Seq<u64>, off: u64, j: int, w: u64)
    requires
        k_no_dup(keys_of(a, off)),
        0 <= j < a.len(),
        a[j] != 0,
        w != 0,
        !a.contains(w),
    ensures
        words(a.update(j, w)).insert(a[j]) == words(a).insert(w),
        !a.update(j, w).contains(a[j]),
{
    let t = a.update(j, w);
    assert(words(t).insert(a[j]) =~= words(a).insert(w)) by {
        assert forall|x: u64| words(t).insert(a[j]).contains(x) <==> words(a).insert(w).contains(x) by {
            if x != 0 && x != w && a.contains(x) && x != a[j] {
                let i = choose|i: int| 0 <= i < a.len() && a[i] == x;
                assert(t[i] == x);
            }
            if x != 0 && t.contains(x) && x != w {
                let i = choose|i: int| 0 <= i < t.len() && t[i] == x;
                assert(a[i] == x);
            }
            if x == w {
                assert(t[j] == w);
            }
            if x == a[j] {
                assert(a[j] == x);
            }
        }
    }
    if t.contains(a[j]) {
        let i = choose|i: int| 0 <= i < t.len() && t[i] == a[j];
        if i != j {
            lemma_word_unique(a, off, i, j);
        }
    }
}

/// Finds the slot where key `k` belongs in the table `a`, which must have
/// room for one more word.  If a word with key `k` is present, its slot
/// is given and nothing changes.  Otherwise the words at and after the
/// slot where the search for `k` stopped are moved on, in Robin Hood
/// order, to free that slot, which is given.
pub fn p_insert(k: u64, a: &mut [u64], offset: u64) -> (r: usize)
    requires
        wtable_wf(old(a)@, offset),
        offset < 64,
        old(a)@.len() * 2 <= usize::MAX,
        has_room(old(a)@),
    ensures
        r < final(a)@.len(),
        final(a)@.len() == old(a)@.len(),
        forall|q: int|
            0 <= q < old(a)@.len() && #[trigger] final(a)@[q] != old(a)@[q] ==> in_run(old(a)@, r as int, q),
        has_key(old(a)@, offset, k) ==> {
            &&& final(a)@ == old(a)@
            &&& old(a)@[r as int] != 0
            &&& old(a)@[r as int] >> offset == k
        },
        !has_key(old(a)@, offset, k) ==> {
            &&& final(a)@[r as int] == 0
            &&& words(final(a)@) == words(old(a)@)
            &&& ktable_wf(keys_of(final(a)@, offset).update(r as int, Some(k as int)))
            &&& kclear(
                keys_of(old(a)@, offset),
                k as int,
                pdist(r as int, khome(k as int, old(a)@.len() as int), old(a)@.len() as int),
            )
            &&& (old(a)@[r as int] == 0 || kdisp(keys_of(old(a)@, offset), r as int) < pdist(
                r as int,
                khome(k as int, old(a)@.len() as int),
                old(a)@.len() as int,
            ))
        },
{
    let ghost a0 = a@;
    let ghost ks = keys_of(a@, offset);
    let ghost e = choose|e: int| 0 <= e < a0.len() && a0[e] == 0;
    let n = a.len();
    let h = home_of(k, n);
    let mut pov: usize = 0;
    while pov < n
        invariant
            a@ == a0,
            a0 == old(a)@,
            ks == keys_of(a0, offset),
            ktable_wf(ks),
            n == a0.len(),
            n * 2 <= usize::MAX,
            offset < 64,
            h == khome(k as int, n as int),
            pov <= n,
            kclear(ks, k as int, pov as int),
            0 <= e < n,
            a0[e] == 0,
        decreases n - pov,
    {
        let ii = probe(h, pov, n);
        assert(ii == kprobe(k as int, pov as int, n as int));
        let ki = a[ii] >> offset;
        let pov_ki = p_poverty(ki, ii, n);
        proof {
            lemma_poverty_pdist(ki as int, ii as int, n as int);
            lemma_kprobe_of(k as int, ii as int, n as int);
        }
        if a[ii] == 0 || ki == k {
            proof {
                if a0[ii as int] == 0 {
                    lemma_kabsent(ks, k as int, pov as int);
                    lemma_kplace(ks, k as int, ii as int);
                    assert(ks[ii as int] is None);
                } else {
                    assert(ks[ii as int] == Some(k as int));
                }
            }
            return ii;
        } else if pov_ki < pov {
            let ghost y = ki as int;
            proof {
                lemma_kabsent(ks, k as int, pov as int);
                lemma_kplace(ks, k as int, ii as int);
                assert(ks[ii as int] == Some(y));
            }
            let stolen = ii;
            let mut displaced = a[ii];
            let mut pov_displaced = pov_ki;
            proof {
                lemma_keys_update(a@, offset, stolen as int, 0);
                lemma_words_take(a@, offset, stolen as int);
                assert(keys_of(a@.update(stolen as int, 0), offset).update(stolen as int, Some(k as int))
                    =~= ks.update(stolen as int, Some(k as int)));
            }
            a[stolen] = 0;
            let mut j: usize = 1;
            while j < n
                invariant
                    n == a@.len(),
                    n == a0.len(),
                    a0 == old(a)@,
                    n * 2 <= usize::MAX,
                    offset < 64,
                    stolen < n,
                    a@[stolen as int] == 0,
                    0 <= e < n,
                    e != stolen,
                    a@[e] == 0,
                    1 <= j <= pdist(e, stolen as int, n as int),
                    ktable_wf(keys_of(a@, offset).update(stolen as int, Some(k as int))),
                    displaced != 0,
                    !keys_of(a@, offset).update(stolen as int, Some(k as int)).contains(
                        Some((displaced >> offset) as int),
                    ),
                    pov_displaced == pdist(
                        wrap(stolen + j - 1, n as int),
                        khome((displaced >> offset) as int, n as int),
                        n as int,
                    ),
                    kclear(
                        keys_of(a@, offset).update(stolen as int, Some(k as int)),
                        (displaced >> offset) as int,
                        pov_displaced + 1,
                    ),
                    words(a@).insert(displaced) == words(a0),
                    !a@.contains(displaced),
                    !has_key(a0, offset, k),
                    kclear(ks, k as int, pdist(stolen as int, khome(k as int, n as int), n as int)),
                    ks == keys_of(a0, offset),
                    a0[stolen as int] != 0,
                    kdisp(ks, stolen as int) < pdist(stolen as int, khome(k as int, n as int), n as int),
                    forall|q: int| 0 <= q < n && pdist(q, stolen as int, n as int) >= j ==> a@[q] == a0[q],
                    forall|m: int| 0 <= m < j ==> a0[#[trigger] step_from(stolen as int, m, n as int)] != 0,
                    forall|q: int|
                        0 <= q < n && #[trigger] a@[q] != a0[q] ==> pdist(q, stolen as int, n as int) < j,
                decreases n - j,
            {
                let ghost t = keys_of(a@, offset).update(stolen as int, Some(k as int));
                let ghost y = (displaced >> offset) as int;
                proof {
                    if pov_displaced + 1 >= n {
                        lemma_kclear_all(t, y);
                        assert(t[e] is Some);
                    }
                    lemma_khome_bound(y, n as int);
                }
                pov_displaced += 1;
                let jj = probe(stolen, j, n);
                assert(jj != stolen);
                assert(pdist(jj as int, khome(y, n as int), n as int) == pov_displaced);
                let kj = a[jj] >> offset;
                let pov_kj = p_poverty(kj, jj, n);
                proof {
                    lemma_poverty_pdist(kj as int, jj as int, n as int);
                    assert(k_no_dup(keys_of(a@, offset))) by {
                        let ka = keys_of(a@, offset);
                        assert forall|p: int, q: int| 0 <= p < n && 0 <= q < n && p != q && ka[p] is Some implies #[trigger] ka[p] != #[trigger] ka[q] by {
                            assert(p != stolen as int);
                            if q != stolen as int {
                                assert(t[p] != t[q]);
                            }
                        }
                    }
                }
                if a[jj] == 0 {
                    proof {
                        lemma_kplace(t, y, jj as int);
                        lemma_keys_update(a@, offset, jj as int, displaced);
                        assert(keys_of(a@.update(jj as int, displaced), offset).update(stolen as int, Some(k as int))
                            =~= t.update(jj as int, Some(y)));
                        lemma_words_put(a@, jj as int, displaced);
                    }
                    a[jj] = displaced;
                    return stolen;
                }
                if pov_kj < pov_displaced {
                    proof {
                        assert(t[jj as int] == Some(kj as int));
                        lemma_kplace(t, y, jj as int);
                        lemma_keys_update(a@, offset, jj as int, displaced);
                        assert(keys_of(a@.update(jj as int, displaced), offset).update(stolen as int, Some(k as int))
                            =~= t.update(jj as int, Some(y)));
                        lemma_words_swap(a@, offset, jj as int, displaced);
                    }
                    let tmp = a[jj];
                    a[jj] = displaced;
                    displaced = tmp;
                    pov_displaced = pov_kj;
                } else {
                    proof {
                        assert(t[jj as int] == Some(kj as int));
                        assert(kprobe(y, (pov_displaced - 1) as int, n as int) + 0 == kprobe(y, (pov_displaced - 1) as int, n as int));
                        lemma_kprobe_of(y, jj as int, n as int);
                        assert(kpasses(t, y, pov_displaced as int));
                    }
                }
                j += 1;
            }
            return stolen;
        }
        assert(kpasses(ks, k as int, pov as int));
        pov += 1;
    }
    proof {
        lemma_kclear_all(ks, k as int);
        assert(ks[e] is Some);
    }
    0
}

/// Moving the word of slot `q` into the free slot `p` keeps the words.
pub proof fn lemma_words_move(a: Seq<u64>, p: int, q: int)
    requires
        0 <= p < a.len(),
        0 <= q < a.len(),
        p != q,
        a[p] == 0,
    ensures
        words(a.update(p, a[q]).update(q, 0)) == words(a),
{
    let t = a.update(p, a[q]).update(q, 0);
    assert(words(t) =~= words(a)) by {
        assert forall|x: u64| words(t).contains(x) <==> words(a).contains(x) by {
            if x != 0 && a.contains(x) {
                let i = choose|i: int| 0 <= i < a.len() && a[i] == x;
                if i == q {
                    assert(t[p] == x);
                } else {
                    assert(i != p);
                    assert(t[i] == x);
                }
            }
            if x != 0 && t.contains(x) {
                let i = choose|i: int| 0 <= i < t.len() && t[i] == x;
                if i == p {
                    assert(a[q] == x);
                } else {
                    assert(a[i] == x);
                }
            }
        }
    }
}

/// Removes the word with key `k` from the table `a`, which must have a
/// free slot, moving back the words after it that are not at home.
/// Returns whether the key was present.
pub fn p_remove(k: u64, a: &mut [u64], offset: u64) -> (r: bool)
    requires
        wtable_wf(old(a)@, offset),
        offset < 64,
        old(a)@.len() * 2 <= usize::MAX,
        has_room(old(a)@),
    ensures
        final(a)@.len() == old(a)@.len(),
        wtable_wf(final(a)@, offset),
        has_room(final(a)@),
        r == has_key(old(a)@, offset, k),
        r ==> words(final(a)@) == words(old(a)@).remove(word_of(old(a)@, offset, k)),
        !r ==> final(a)@ == old(a)@,
        r ==> forall|q: int|
            0 <= q < old(a)@.len() && #[trigger] final(a)@[q] != old(a)@[q] ==> {
                &&& in_run(old(a)@, key_slot(old(a)@, offset, k), q)
                &&& (final(a)@[q] == 0 || final(a)@[q] == old(a)@[nxt(q, old(a)@.len() as int)])
            },
{
    let ghost a0 = a@;
    let ghost ks = keys_of(a@, offset);
    let ghost e = choose|e: int| 0 <= e < a0.len() && a0[e] == 0;
    let n = a.len();
    let h = home_of(k, n);
    let mut i: usize = 0;
    while i < n
        invariant
            a@ == a0,
            a0 == old(a)@,
            ks == keys_of(a0, offset),
            ktable_wf(ks),
            n == a0.len(),
            n * 2 <= usize::MAX,
            offset < 64,
            h == khome(k as int, n as int),
            i <= n,
            kclear(ks, k as int, i as int),
            0 <= e < n,
            a0[e] == 0,
        decreases n - i,
    {
        let ii = probe(h, i, n);
        assert(ii == kprobe(k as int, i as int, n as int));
        proof {
            lemma_kprobe_of(k as int, ii as int, n as int);
        }
        if a[ii] == 0 {
            proof {
                lemma_kabsent(ks, k as int, i as int);
            }
            return false;
        }
        let ki = a[ii] >> offset;
        let iki = p_poverty(ki, ii, n);
        proof {
            lemma_poverty_pdist(ki as int, ii as int, n as int);
            assert(ks[ii as int] == Some(ki as int));
        }
        if i > iki {
            proof {
                lemma_kabsent(ks, k as int, i as int);
            }
            return false;
        } else if ki == k {
            let ghost w = a0[ii as int];
            proof {
                assert(has_key(a0, offset, k));
                let c = choose|c: int| 0 <= c < a0.len() && a0[c] != 0 && a0[c] >> offset == k;
                lemma_word_unique(a0, offset, c, ii as int);
                assert(a0[ii as int] != 0 && a0[ii as int] >> offset == k);
                let ks_ = key_slot(a0, offset, k);
                lemma_word_unique(a0, offset, ks_, ii as int);
                lemma_words_take(a0, offset, ii as int);
                lemma_kopen_hole(ks, ii as int);
                lemma_keys_update(a0, offset, ii as int, 0);
                assert(words(a0.update(ii as int, 0)) =~= words(a0).remove(w));
            }
            a[ii] = 0;
            let mut previous = ii;
            let mut j: usize = 1;
            while j < n
                invariant
                    n == a@.len(),
                    n == a0.len(),
                    a0 == old(a)@,
                    n * 2 <= usize::MAX,
                    offset < 64,
                    ii < n,
                    a0[e] == 0,
                    0 <= e < n,
                    e != ii,
                    1 <= j <= pdist(e, ii as int, n as int),
                    previous == wrap(ii + j - 1, n as int),
                    a@[e] == 0,
                    k_holed(keys_of(a@, offset), previous as int),
                    words(a@) == words(a0).remove(w),
                    w == word_of(a0, offset, k),
                    has_key(a0, offset, k),
                    key_slot(a0, offset, k) == ii,
                    forall|q: int| 0 <= q < n && pdist(q, ii as int, n as int) >= j ==> a@[q] == a0[q],
                    forall|m: int| 0 <= m < j ==> a0[#[trigger] step_from(ii as int, m, n as int)] != 0,
                    forall|q: int|
                        0 <= q < n && #[trigger] a@[q] != a0[q] ==> pdist(q, ii as int, n as int) < j && (a@[q]
                            == 0 || a@[q] == a0[nxt(q, n as int)]),
                decreases n - j,
            {
                let jj = probe(ii, j, n);
                assert(jj == nxt(previous as int, n as int));
                let ghost t = keys_of(a@, offset);
                let kj = a[jj] >> offset;
                let pov_kj = p_poverty(kj, jj, n);
                proof {
                    lemma_poverty_pdist(kj as int, jj as int, n as int);
                }
                if a[jj] == 0 || pov_kj == 0 {
                    proof {
                        lemma_kclose_hole(t, previous as int);
                    }
                    return true;
                }
                proof {
                    assert(t[jj as int] == Some(kj as int));
                    assert(jj != previous);
                    lemma_kshift_back(t, previous as int);
                    lemma_keys_update(a@, offset, previous as int, a@[jj as int]);
                    lemma_keys_update(a@.update(previous as int, a@[jj as int]), offset, jj as int, 0);
                    assert(keys_of(a@.update(previous as int, a@[jj as int]).update(jj as int, 0), offset)
                        =~= t.update(previous as int, t[jj as int]).update(jj as int, None));
                    lemma_words_move(a@, previous as int, jj as int);
                    assert(jj != e);
                }
                let moved = a[jj];
                a[previous] = moved;
                a[jj] = 0;
                previous = jj;
                j += 1;
            }
            proof {
                assert(false);
            }
            return true;
        }
        assert(kpasses(ks, k as int, i as int));
        i += 1;
    }
    proof {
        lemma_kclear_all(ks, k as int);
        assert(ks[e] is Some);
    }
    false
}

/// Writing a word with key `k` into the slot that `p_insert` freed for
/// `k` gives a well-formed table that holds the old words and the new one,
/// in which `p_lookfor` then finds `k`.
pub proof fn law_place_word(a: Seq<u64>, off: u64, r: int, w: u64)
    requires
        0 <= r < a.len(),
        a[r] == 0,
        w != 0,
        ktable_wf(keys_of(a, off).update(r, Some((w >> off) as int))),
    ensures
        wtable_wf(a.update(r, w), off),
        words(a.update(r, w)) == words(a).insert(w),
        has_key(a.update(r, w), off, w >> off),
{
    lemma_keys_update(a, off, r, w);
    lemma_words_put(a, r, w);
    assert(keys_of(a.update(r, w), off)[r] == Some((w >> off) as int));
}

/// The most slots that a table of a `SetU64` has.
pub open spec fn table_max() -> int {
    usize::MAX as int / 8
}

/// The most words that a dense bitset of a `SetU64` has: enough for
/// every `u64`.
pub open spec fn dense_max() -> int {
    0x0400_0000_0000_0000
}

/// A bound on the number of elements of a `SetU64`, well below what its
/// tables can hold.
pub open spec fn setu64_limit() -> int {
    usize::MAX as int / 32
}

/// How a `SetU64` stores its elements.
#[derive(Debug)]
enum Rep {
    /// No elements.
    Empty,
    /// One to seven elements packed in a word.
    Stack(Tiny),
    /// A table of words, each a key and a bitmap of `bits` values.
    Heap { sz: usize, used: usize, bits: u64, a: Box<[u64]> },
    /// A table of the values themselves, zero stored as `marker`.
    Big { sz: usize, marker: u64, a: Box<[u64]> },
    /// A bitset.
    Dense { sz: usize, a: Box<[u64]> },
}

/// A set of `u64` that picks its storage by its contents: a few small
/// values packed in one word, a dense bitset, a hash table of bitmaps of
/// nearby values, or a hash table of the values themselves.
#[derive(Debug)]
pub struct SetU64 {
    rep: Rep,
}

impl View for SetU64 {
    type V = Set<u64>;

    closed spec fn view(&self) -> Set<u64> {
        match self.rep {
            Rep::Empty => Set::empty(),
            Rep::Stack(t) => t@,
            Rep::Heap { bits, a, .. } => heap_view(a@, bits),
            Rep::Big { marker, a, .. } => big_view(a@, marker),
            Rep::Dense { a, .. } => dense_view(a@),
        }
    }
}

/// The largest table size at most `c`, and at least `need`.
fn clamp_cap(c: usize, need: usize) -> (r: usize)
    requires
        need <= table_max(),
    ensures
        need <= r <= table_max(),
        r == c || r == need || r == table_max(),
{
    let tmax = usize::MAX / 8;
    if c > tmax {
        tmax
    } else if c < need {
        need
    } else {
        c
    }
}

/// The words of a bitset for values up to `mx`: one for each 64 values
/// and a quarter more, at most `dense_max()`.
pub open spec fn spec_dense_len(mx: u64) -> int {
    let l = 1 + mx / 64 + mx / 256;
    if l > dense_max() {
        dense_max()
    } else {
        l
    }
}

/// The words of a dense bitset for values up to `mx`: one for each 64
/// values and a quarter more, if that fits a `usize`.
fn dense_len(mx: u64) -> (r: Option<usize>)
    ensures
        spec_dense_len(mx) <= usize::MAX ==> r == Some(spec_dense_len(mx) as usize),
        spec_dense_len(mx) > usize::MAX ==> r is None,
        r matches Some(l) ==> (mx >> 6u64) < l <= dense_max(),
{
    let l = 1 + mx / 64 + mx / 256;
    let l = if l > 0x0400_0000_0000_0000 {
        0x0400_0000_0000_0000
    } else {
        l
    };
    proof {
        assert(mx >> 6u64 == mx / 64) by (bit_vector);
    }
    if l as u128 <= usize::MAX as u128 {
        Some(l as usize)
    } else {
        None
    }
}

impl SetU64 {
    /// The storage is consistent and counts the elements.
    pub closed spec fn wf(&self) -> bool {
        &&& self@.finite()
        &&& match self.rep {
            Rep::Empty => true,
            Rep::Stack(t) => t.wf(),
            Rep::Heap { sz, used, bits, a } => {
                &&& heap_ok(a@, bits)
                &&& used == words(a@).len()
                &&& sz == self@.len()
                &&& a@.len() <= table_max()
                &&& forall|e: u64| self@.contains(e) ==> array_bits(e) >= bits
            },
            Rep::Big { sz, marker, a } => {
                &&& big_ok(a@, marker)
                &&& sz == self@.len()
                &&& a@.len() <= table_max()
            },
            Rep::Dense { sz, a } => {
                &&& sz == self@.len()
                &&& a@.len() <= dense_max()
            },
        }
    }

    /// The set is stored in a table or a bitset.
    pub closed spec fn is_table(&self) -> bool {
        ||| self.rep is Heap
        ||| self.rep is Big
        ||| self.rep is Dense
    }

    /// How many more values the table can take without growing: the free
    /// slots but one, or any number for a bitset.
    pub closed spec fn room_for(&self) -> int {
        match self.rep {
            Rep::Heap { used, a, .. } => a@.len() - used - 1,
            Rep::Big { sz, a, .. } => a@.len() - sz - 1,
            Rep::Dense { .. } => usize::MAX as int,
            _ => 0,
        }
    }

    /// The table takes `x` without growing: the bitset has its word, or
    /// the bitmaps are narrow enough for it.
    pub closed spec fn accepts(&self, x: u64) -> bool {
        match self.rep {
            Rep::Heap { bits, .. } => array_bits(x) >= bits,
            Rep::Big { .. } => true,
            Rep::Dense { a, .. } => (x >> 6u64) < a@.len(),
            _ => false,
        }
    }

    /// The number of slots or words of the storage.
    pub closed spec fn slots(&self) -> nat {
        match self.rep {
            Rep::Heap { a, .. } => a@.len(),
            Rep::Big { a, .. } => a@.len(),
            Rep::Dense { a, .. } => a@.len(),
            _ => 0,
        }
    }

    /// The numbers of stored words and of elements agree with the view.
    proof fn lemma_counts(&self)
        requires
            self.wf(),
        ensures
            self.rep matches Rep::Heap { used, sz, a, .. } ==> used <= sz && used < a@.len(),
            self.rep matches Rep::Big { sz, a, marker } ==> sz == words(a@).len() && sz < a@.len(),
    {
        match self.rep {
            Rep::Heap { bits, a, .. } => {
                lemma_words_le_view(a@, bits);
                crate::wtable::lemma_words_len(a@, bits);
                crate::wtable::lemma_room_count(a@);
            },
            Rep::Big { marker, a, .. } => {
                lemma_big_len(a@, marker);
                crate::wtable::lemma_words_len(a@, 0);
                crate::wtable::lemma_room_count(a@);
            },
            _ => {},
        }
    }

    /// An empty set.
    pub fn new() -> (s: SetU64)
        ensures
            s.wf(),
            s@ == Set::<u64>::empty(),
    {
        SetU64 { rep: Rep::Empty }
    }

    /// An empty set.
    pub fn default() -> (s: SetU64)
        ensures
            s.wf(),
            s@ == Set::<u64>::empty(),
    {
        SetU64::new()
    }

    /// The number of elements.
    pub fn len(&self) -> (r: usize)
        requires
            self.wf(),
        ensures
            r == self@.len(),
    {
        match &self.rep {
            Rep::Empty => 0,
            Rep::Stack(t) => t.count(),
            Rep::Heap { sz, .. } => *sz,
            Rep::Big { sz, .. } => *sz,
            Rep::Dense { sz, .. } => *sz,
        }
    }

    /// The number of slots or words of the storage: zero for a set of a
    /// few small values.
    pub fn capacity(&self) -> (r: usize)
        ensures
            r == self.slots(),
    {
        match &self.rep {
            Rep::Heap { a, .. } => a.len(),
            Rep::Big { a, .. } => a.len(),
            Rep::Dense { a, .. } => a.len(),
            _ => 0,
        }
    }

    /// An empty set of `cap` slots: with `bits` between 2 and 62 a table
    /// of bitmaps of that width, with `bits` 64 a bitset, and otherwise a
    /// table of values whose marker is `bits`, or a number picked from the
    /// size when `bits` is zero.  With no slots, the set has no storage.
    pub fn with_capacity_and_bits(cap: usize, bits: u64) -> (s: SetU64)
        requires
            bits != 64 ==> cap <= table_max(),
            bits == 0 || 2 <= bits <= 62 || bits >= 64,
            bits == 64 ==> cap <= dense_max(),
        ensures
            s.wf(),
            s@ == Set::<u64>::empty(),
            s.slots() == cap,
            cap > 0 <==> s.is_table(),
            cap > 0 && 2 <= bits <= 62 ==> s.room_for() == cap - 1 && forall|x: u64|
                s.accepts(x) == (array_bits(x) >= bits),
            cap > 0 && (bits == 0 || bits > 64) ==> s.room_for() == cap - 1 && forall|x: u64|
                s.accepts(x),
            cap > 0 && bits == 64 ==> s.room_for() == usize::MAX && forall|x: u64|
                s.accepts(x) == ((x >> 6u64) < cap),
    {
        if cap == 0 {
            return SetU64 { rep: Rep::Empty };
        }
        if bits == 64 {
            let a = dense_zeros(cap);
            return SetU64 { rep: Rep::Dense { sz: 0, a: into_boxed(a) } };
        }
        if 2 <= bits && bits <= 62 {
            let a = wt_zeros(cap, Ghost(bits));
            let s = SetU64 { rep: Rep::Heap { sz: 0, used: 0, bits, a } };
            proof {
                assert(heap_view(a@, bits) =~= Set::<u64>::empty());
                assert(a@[0] == 0);
            }
            return s;
        }
        let mut marker = bits;
        if bits == 0 {
            marker = crate::rand::rand64(cap, bits);
            if marker <= 64 {
                marker = marker + 65;
            }
        }
        let a = wt_zeros(cap, Ghost(0u64));
        proof {
            assert(big_view(a@, marker) =~= Set::<u64>::empty());
            assert(a@[0] == 0);
        }
        SetU64 { rep: Rep::Big { sz: 0, marker, a } }
    }

    /// An empty set for `cap` values up to `mx`: a bitset when they are
    /// dense enough, else a table of bitmaps as wide as such values allow.
    pub fn with_capacity_and_max(cap: usize, mx: u64) -> (s: SetU64)
        requires
            1 <= cap <= table_max(),
        ensures
            s.wf(),
            s@ == Set::<u64>::empty(),
            s.is_table(),
    {
        if cap as u64 > mx >> 7 {
            if let Some(l) = dense_len(mx) {
                let a = dense_zeros(l);
                return SetU64 { rep: Rep::Dense { sz: 0, a: into_boxed(a) } };
            }
        }
        let b = compute_array_bits(mx);
        proof {
            lemma_bits_needed(mx as nat);
        }
        SetU64::with_capacity_and_bits(cap, b)
    }

    /// Whether the set holds `e`.
    pub fn contains(&self, e: u64) -> (r: bool)
        requires
            self.wf(),
        ensures
            r == self@.contains(e),
    {
        match &self.rep {
            Rep::Empty => false,
            Rep::Stack(t) => t.contains(e),
            Rep::Dense { a, .. } => dense_contains(a, e),
            Rep::Heap { bits, a, .. } => {
                if compute_array_bits(e) < *bits {
                    false
                } else {
                    heap_contains(a, *bits, e)
                }
            },
            Rep::Big { marker, a, .. } => big_contains(a, *marker, e),
        }
    }

    /// The elements, each once.
    pub fn iter(&self) -> (r: Vec<u64>)
        requires
            self.wf(),
        ensures
            r@.to_set() == self@,
            r@.no_duplicates(),
    {
        match &self.rep {
            Rep::Empty => {
                let v: Vec<u64> = Vec::new();
                proof {
                    assert(v@.to_set() =~= Set::<u64>::empty());
                }
                v
            },
            Rep::Stack(t) => {
                let v = t.elements();
                proof {
                    assert forall|i: int, j: int| 0 <= i < v@.len() && 0 <= j < v@.len() && i != j implies v@[i] != v@[j] by {
                        if i < j {
                            assert(v@[i] < v@[j]);
                        } else {
                            assert(v@[j] < v@[i]);
                        }
                    }
                }
                v
            },
            Rep::Dense { a, .. } => dense_items(a),
            Rep::Heap { bits, a, .. } => heap_items(a, *bits),
            Rep::Big { marker, a, .. } => big_items(a, *marker),
        }
    }
    /// Adds `x`, which the table takes without growing.
    fn insert_fitting(&mut self, x: u64) -> (r: bool)
        requires
            old(self).wf(),
            old(self).is_table(),
            old(self).room_for() >= 1,
            old(self).accepts(x),
            old(self)@.len() + 1 < setu64_limit(),
        ensures
            final(self).wf(),
            final(self).is_table(),
            final(self)@ == old(self)@.insert(x),
            r == !old(self)@.contains(x),
            final(self).room_for() >= old(self).room_for() - 1,
            forall|y: u64| final(self).accepts(y) == old(self).accepts(y),
            final(self).slots() == old(self).slots(),
    {
        proof {
            self.lemma_counts();
        }
        let remark = match &self.rep {
            Rep::Big { marker, .. } => x == *marker,
            _ => false,
        };
        if remark {
            match &mut self.rep {
                Rep::Big { marker, a, .. } => {
                    let m2 = big_remark(a, *marker);
                    *marker = m2;
                },
                _ => {},
            }
            proof {
                self.lemma_counts();
            }
        }
        match &mut self.rep {
            Rep::Dense { sz, a } => {
                let added = dense_add(a, x);
                if added {
                    *sz = *sz + 1;
                }
                added
            },
            Rep::Heap { sz, used, bits, a } => {
                match heap_add(a, *bits, x, *used) {
                    HeapAdd::Present => false,
                    HeapAdd::NewBit => {
                        *sz = *sz + 1;
                        true
                    },
                    HeapAdd::NewWord => {
                        *sz = *sz + 1;
                        *used = *used + 1;
                        true
                    },
                    HeapAdd::Full => {
                        proof {
                            assert(false);
                        }
                        false
                    },
                }
            },
            Rep::Big { sz, marker, a } => {
                match big_add(a, *marker, x, *sz) {
                    HeapAdd::NewWord => {
                        *sz = *sz + 1;
                        true
                    },
                    HeapAdd::Present => false,
                    _ => {
                        proof {
                            assert(false);
                        }
                        false
                    },
                }
            },
            _ => false,
        }
    }
    /// Adds `items` and then `e` to the empty table, which takes them all
    /// without growing.
    fn fill(&mut self, items: &Vec<u64>, e: u64)
        requires
            old(self).wf(),
            old(self).is_table(),
            old(self)@ == Set::<u64>::empty(),
            old(self).room_for() >= items@.len() + 1,
            forall|j: int| 0 <= j < items@.len() ==> old(self).accepts(#[trigger] items@[j]),
            old(self).accepts(e),
            items@.len() + 2 < setu64_limit(),
        ensures
            final(self).wf(),
            final(self).is_table(),
            final(self)@ == items@.to_set().insert(e),
    {
        let mut i: usize = 0;
        proof {
            assert(items@.take(0).to_set() =~= Set::<u64>::empty());
        }
        while i < items.len()
            invariant
                self.wf(),
                self.is_table(),
                i <= items@.len(),
                self@ == items@.take(i as int).to_set(),
                self@.len() <= i,
                self.room_for() >= items@.len() - i + 1,
                forall|j: int| 0 <= j < items@.len() ==> self.accepts(#[trigger] items@[j]),
                self.accepts(e),
                items@.len() + 2 < setu64_limit(),
            decreases items@.len() - i,
        {
            proof {
                assert(items@.take(i + 1) =~= items@.take(i as int).push(items@[i as int]));
                items@.take(i as int).lemma_push_to_set_commute(items@[i as int]);
                items@.take(i + 1).lemma_cardinality_of_set();
            }
            self.insert_fitting(items[i]);
            i += 1;
        }
        proof {
            assert(items@.take(items@.len() as int) =~= items@);
        }
        self.insert_fitting(e);
    }

    /// Adds `e`, whose word lies past the end of the bitset: to a longer
    /// bitset, or to a table of values when the set is sparse.
    fn grow_dense(&mut self, e: u64)
        requires
            old(self).wf(),
            old(self).rep is Dense,
            !old(self).accepts(e),
            old(self)@.len() + 2 < setu64_limit(),
        ensures
            final(self).wf(),
            final(self).is_table(),
            final(self)@ == old(self)@.insert(e),
            !old(self)@.contains(e),
    {
        let key = e >> 6;
        let (sz, alen) = match &self.rep {
            Rep::Dense { sz, a } => (*sz, a.len()),
            _ => (0, 0),
        };
        proof {
            assert(key < 0x0400_0000_0000_0000) by (bit_vector)
                requires
                    key == e >> 6u64,
            ;
        }
        let newlen = if key < 0x0400_0000_0000_0000 - 1 - key / 4 {
            1 + key + key / 4
        } else {
            0x0400_0000_0000_0000
        };
        if (key as u128) > 128 * (sz as u128) || newlen as u128 > usize::MAX as u128 {
            let items = self.iter();
            proof {
                items@.unique_seq_to_set();
            }
            let mut s = SetU64::with_capacity_and_bits(2 * (sz + 1), 0);
            s.fill(&items, e);
            *self = s;
        } else {
            let na = match &self.rep {
                Rep::Dense { a, .. } => dense_widened(a, newlen as usize, e),
                _ => Vec::new(),
            };
            proof {
                assert((e >> 6u64) == key);
            }
            self.rep = Rep::Dense { sz: sz + 1, a: into_boxed(na) };
        }
    }
    /// Adds `e`, which takes a new word that the table of bitmaps has no
    /// slot to spare for: to a bitset when the values are dense enough
    /// for one, else to a larger table of the same words.
    fn grow_heap(&mut self, e: u64)
        requires
            old(self).wf(),
            old(self).rep matches Rep::Heap { used, a, bits, .. } && used + 2 > a@.len() && array_bits(e)
                >= bits,
            !old(self)@.contains(e),
            old(self)@.len() + 2 < setu64_limit(),
        ensures
            final(self).wf(),
            final(self).is_table(),
            final(self)@ == old(self)@.insert(e),
    {
        proof {
            self.lemma_counts();
        }
        let (sz, used, bits, cap) = match &self.rep {
            Rep::Heap { sz, used, bits, a } => (*sz, *used, *bits, a.len()),
            _ => (0, 0, 0, 1),
        };
        let mut mx = match &self.rep {
            Rep::Heap { bits, a, .. } => heap_max(a, *bits),
            _ => 0,
        };
        if e > mx {
            mx = e;
        }
        if cap as u64 > mx >> 6 {
            if let Some(l) = dense_len(mx) {
                let items = self.iter();
                proof {
                    items@.unique_seq_to_set();
                    assert forall|j: int| 0 <= j < items@.len() implies (#[trigger] items@[j] >> 6u64) < l by {
                        assert(items@.to_set().contains(items@[j]));
                        let x = items@[j];
                        assert(x <= mx);
                        assert(x >> 6u64 <= mx >> 6u64) by (bit_vector)
                            requires
                                x <= mx,
                        ;
                    }
                    assert(e >> 6u64 <= mx >> 6u64) by (bit_vector)
                        requires
                            e <= mx,
                    ;
                }
                let mut s = SetU64::with_capacity_and_bits(l, 64);
                s.fill(&items, e);
                *self = s;
                return;
            }
        }
        let newcap = clamp_cap(cap + 1 + crate::rand::rand_usize(cap, bits) % cap, used + 2);
        let na = match &self.rep {
            Rep::Heap { bits, a, .. } => wt_copy(a, *bits, newcap),
            _ => wt_zeros(1, Ghost(0u64)),
        };
        let ghost old_view = self@;
        proof {
            crate::wtable::lemma_words_len(na@, bits);
        }
        let mut s = SetU64 { rep: Rep::Heap { sz, used, bits, a: na } };
        proof {
            assert(s@ == old_view);
        }
        s.insert_fitting(e);
        *self = s;
    }

    /// Adds `e`, which is too large for the width of the bitmaps: all the
    /// values go to a new table with bitmaps as wide as `e` allows, or to a
    /// table of values when it allows none.
    fn rebits(&mut self, e: u64)
        requires
            old(self).wf(),
            old(self).rep matches Rep::Heap { bits, .. } && array_bits(e) < bits,
            old(self)@.len() + 2 < setu64_limit(),
        ensures
            final(self).wf(),
            final(self).is_table(),
            final(self)@ == old(self)@.insert(e),
            !old(self)@.contains(e),
    {
        proof {
            self.lemma_counts();
        }
        let (sz, bits, cap) = match &self.rep {
            Rep::Heap { sz, bits, a, .. } => (*sz, *bits, a.len()),
            _ => (0, 0, 1),
        };
        let nb = compute_array_bits(e);
        proof {
            lemma_bits_needed(e as nat);
        }
        let newcap = clamp_cap(cap + 1 + 2 * (crate::rand::rand_usize(cap, bits) % cap), sz + 2);
        let items = self.iter();
        proof {
            items@.unique_seq_to_set();
            assert forall|j: int| 0 <= j < items@.len() implies array_bits(#[trigger] items@[j]) >= nb by {
                assert(items@.to_set().contains(items@[j]));
            }
        }
        let mut s = SetU64::with_capacity_and_bits(newcap, nb);
        s.fill(&items, e);
        *self = s;
    }

    /// Adds `e`, which the table of values has no slot to spare for, to a
    /// larger table of the same values.
    fn grow_big(&mut self, e: u64)
        requires
            old(self).wf(),
            old(self).rep matches Rep::Big { sz, a, marker } && sz + 2 > a@.len() && e != marker,
            !old(self)@.contains(e),
            old(self)@.len() + 2 < setu64_limit(),
        ensures
            final(self).wf(),
            final(self).is_table(),
            final(self)@ == old(self)@.insert(e),
    {
        proof {
            self.lemma_counts();
        }
        let (sz, marker, cap) = match &self.rep {
            Rep::Big { sz, marker, a } => (*sz, *marker, a.len()),
            _ => (0, 65, 1),
        };
        let newcap = clamp_cap(cap + 1 + crate::rand::rand_usize(cap, marker) % (2 * cap), sz + 2);
        let na = match &self.rep {
            Rep::Big { a, .. } => wt_copy(a, 0, newcap),
            _ => wt_zeros(1, Ghost(0u64)),
        };
        let ghost old_view = self@;
        proof {
            lemma_big_len(na@, marker);
        }
        let mut s = SetU64 { rep: Rep::Big { sz, marker, a: na } };
        proof {
            assert(s@ == old_view);
        }
        s.insert_fitting(e);
        *self = s;
    }

    /// Adds `e` to the table, growing or converting it when it has no
    /// room for it.
    fn insert_table(&mut self, e: u64) -> (r: bool)
        requires
            old(self).wf(),
            old(self).is_table(),
            old(self)@.len() + 2 < setu64_limit(),
        ensures
            final(self).wf(),
            final(self).is_table(),
            final(self)@ == old(self)@.insert(e),
            r == !old(self)@.contains(e),
    {
        proof {
            self.lemma_counts();
        }
        let rebit = match &self.rep {
            Rep::Heap { bits, .. } => compute_array_bits(e) < *bits,
            _ => false,
        };
        if rebit {
            self.rebits(e);
            return true;
        }
        let remark = match &self.rep {
            Rep::Big { marker, .. } => e == *marker,
            _ => false,
        };
        if remark {
            match &mut self.rep {
                Rep::Big { marker, a, .. } => {
                    let m2 = big_remark(a, *marker);
                    *marker = m2;
                },
                _ => {},
            }
            proof {
                self.lemma_counts();
            }
        }
        let outcome: Option<bool> = match &mut self.rep {
            Rep::Dense { sz, a } => {
                if (e >> 6) < a.len() as u64 {
                    let added = dense_add(a, e);
                    if added {
                        *sz = *sz + 1;
                    }
                    Some(added)
                } else {
                    None
                }
            },
            Rep::Heap { sz, used, bits, a } => {
                match heap_add(a, *bits, e, *used) {
                    HeapAdd::Present => Some(false),
                    HeapAdd::NewBit => {
                        *sz = *sz + 1;
                        Some(true)
                    },
                    HeapAdd::NewWord => {
                        *sz = *sz + 1;
                        *used = *used + 1;
                        Some(true)
                    },
                    HeapAdd::Full => None,
                }
            },
            Rep::Big { sz, marker, a } => {
                match big_add(a, *marker, e, *sz) {
                    HeapAdd::NewWord => {
                        *sz = *sz + 1;
                        Some(true)
                    },
                    HeapAdd::Present => Some(false),
                    _ => None,
                }
            },
            _ => Some(false),
        };
        match outcome {
            Some(added) => added,
            None => {
                proof {
                    self.lemma_counts();
                }
                let kind: u8 = match &self.rep {
                    Rep::Dense { .. } => 0,
                    Rep::Heap { .. } => 1,
                    _ => 2,
                };
                if kind == 0 {
                    self.grow_dense(e);
                } else if kind == 1 {
                    self.grow_heap(e);
                } else {
                    self.grow_big(e);
                }
                true
            },
        }
    }
    /// Adds `e`; returns whether it was absent.
    pub fn insert(&mut self, e: u64) -> (r: bool)
        requires
            old(self).wf(),
            old(self)@.len() + 2 < setu64_limit(),
        ensures
            final(self).wf(),
            final(self)@ == old(self)@.insert(e),
            r == !old(self)@.contains(e),
    {
        let empty = match &self.rep {
            Rep::Empty => true,
            _ => false,
        };
        let tiny: Option<Tiny> = match &self.rep {
            Rep::Stack(t) => Some(*t),
            _ => None,
        };
        if empty {
            match Tiny::from_singleton(e) {
                Some(t) => {
                    self.rep = Rep::Stack(t);
                    proof {
                        t.lemma_view();
                        assert(self@ =~= Set::<u64>::empty().insert(e));
                    }
                    return true;
                },
                None => {
                    *self = SetU64::with_capacity_and_max(1, e);
                },
            }
        } else if let Some(t) = tiny {
            proof {
                t.lemma_view();
                t.lemma_size();
            }
            match t.insert(e) {
                Some(nt) => {
                    proof {
                        nt.lemma_view();
                    }
                    let added = nt.count() != t.count();
                    self.rep = Rep::Stack(nt);
                    proof {
                        if t@.contains(e) {
                            assert(t@.insert(e) =~= t@);
                        }
                    }
                    return added;
                },
                None => {
                    let items = t.elements();
                    let last = items[items.len() - 1];
                    let mx = if e > last {
                        e
                    } else {
                        last
                    };
                    let mut s = SetU64::with_capacity_and_max(t.count() + 1, mx);
                    let mut i: usize = 0;
                    proof {
                        assert(items@.take(0).to_set() =~= Set::<u64>::empty());
                    }
                    while i < items.len()
                        invariant
                            s.wf(),
                            s.is_table(),
                            i <= items@.len(),
                            items@.len() <= 7,
                            s@ == items@.take(i as int).to_set(),
                            s@.len() <= i,
                        decreases items@.len() - i,
                    {
                        proof {
                            assert(items@.take(i + 1) =~= items@.take(i as int).push(items@[i as int]));
                            items@.take(i as int).lemma_push_to_set_commute(items@[i as int]);
                            items@.take(i + 1).lemma_cardinality_of_set();
                        }
                        s.insert_table(items[i]);
                        i += 1;
                    }
                    proof {
                        assert(items@.take(items@.len() as int) =~= items@);
                    }
                    s.insert_table(e);
                    *self = s;
                    return true;
                },
            }
        }
        self.insert_table(e)
    }

    /// The set of the increasing values `v`: packed in a word when they
    /// fit, else in a bitset when they are dense, else in a table.
    fn from_sorted(v: Vec<u64>) -> (s: SetU64)
        requires
            increasing(v@),
            1 <= v@.len(),
            v@.len() + 2 < setu64_limit(),
        ensures
            s.wf(),
            s@ == v@.to_set(),
    {
        let n = v.len();
        let mx = v[n - 1];
        if let Some(t) = Tiny::new_sorted_deduped(v.as_slice()) {
            proof {
                t.lemma_view();
            }
            return SetU64 { rep: Rep::Stack(t) };
        }
        let mut s = if n as u64 > mx >> 4 {
            SetU64::with_capacity_and_max(n, mx)
        } else {
            let bits = compute_array_bits(mx);
            proof {
                lemma_bits_needed(mx as nat);
            }
            if bits == 0 {
                SetU64::with_capacity_and_bits(n, bits)
            } else {
                let mut keys: usize = 0;
                let mut i: usize = 0;
                while i < n
                    invariant
                        n == v@.len(),
                        i <= n,
                        keys <= i,
                        bits > 0,
                    decreases n - i,
                {
                    if i == 0 || v[i] / bits != v[i - 1] / bits {
                        keys = keys + 1;
                    }
                    i += 1;
                }
                let sz = (keys + 1) * 11 / 10;
                SetU64::with_capacity_and_bits(sz, bits)
            }
        };
        let mut i: usize = 0;
        proof {
            assert(v@.take(0).to_set() =~= Set::<u64>::empty());
        }
        while i < n
            invariant
                n == v@.len(),
                n + 2 < setu64_limit(),
                s.wf(),
                i <= n,
                s@ == v@.take(i as int).to_set(),
                s@.len() <= i,
            decreases n - i,
        {
            proof {
                assert(v@.take(i + 1) =~= v@.take(i as int).push(v@[i as int]));
                v@.take(i as int).lemma_push_to_set_commute(v@[i as int]);
                v@.take(i + 1).lemma_cardinality_of_set();
            }
            s.insert(v[i]);
            i += 1;
        }
        proof {
            assert(v@.take(n as int) =~= v@);
        }
        s
    }

    /// Removes `e`; returns whether it was present.
    pub fn remove(&mut self, e: u64) -> (r: bool)
        requires
            old(self).wf(),
        ensures
            final(self).wf(),
            final(self)@ == old(self)@.remove(e),
            r == old(self)@.contains(e),
    {
        let tiny: Option<Tiny> = match &self.rep {
            Rep::Stack(t) => Some(*t),
            _ => None,
        };
        if let Some(t) = tiny {
            proof {
                t.lemma_view();
                t.lemma_size();
            }
            if !t.contains(e) {
                proof {
                    assert(self@.remove(e) =~= self@);
                }
                return false;
            }
            let items = t.elements();
            let mut kept: Vec<u64> = Vec::new();
            let mut i: usize = 0;
            while i < items.len()
                invariant
                    increasing(items@),
                    i <= items@.len(),
                    items@.len() <= 7,
                    increasing(kept@),
                    kept@.len() <= i,
                    forall|x: u64| kept@.contains(x) <==> items@.take(i as int).contains(x) && x != e,
                    forall|j: int| 0 <= j < kept@.len() ==> exists|q: int| 0 <= q < i && #[trigger] kept@[j] == items@[q],
                decreases items@.len() - i,
            {
                let x = items[i];
                let ghost before = kept@;
                if x != e {
                    kept.push(x);
                }
                proof {
                    assert forall|y: u64| kept@.contains(y) <==> items@.take(i + 1).contains(y) && y != e by {
                        if before.contains(y) {
                            let m = choose|m: int| 0 <= m < before.len() && before[m] == y;
                            assert(kept@[m] == y);
                        }
                        if kept@.contains(y) && !before.contains(y) {
                            let m = choose|m: int| 0 <= m < kept@.len() && kept@[m] == y;
                            assert(m == before.len());
                            assert(items@.take(i + 1)[i as int] == y);
                        }
                        if items@.take(i + 1).contains(y) && y != e {
                            let m = choose|m: int| 0 <= m < i + 1 && #[trigger] items@.take(i + 1)[m] == y;
                            if m < i {
                                assert(items@.take(i as int)[m] == y);
                            } else {
                                assert(kept@[kept@.len() - 1] == y);
                            }
                        }
                        if items@.take(i as int).contains(y) {
                            let m = choose|m: int| 0 <= m < i && #[trigger] items@.take(i as int)[m] == y;
                            assert(items@.take(i + 1)[m] == y);
                        }
                    }
                    assert forall|j: int| 0 <= j < kept@.len() implies exists|q: int| 0 <= q < i + 1 && #[trigger] kept@[j] == items@[q] by {
                        if j < before.len() {
                            let q = choose|q: int| 0 <= q < i && #[trigger] before[j] == items@[q];
                            assert(kept@[j] == items@[q]);
                        } else {
                            assert(kept@[j] == items@[i as int]);
                        }
                    }
                    assert forall|p: int, q: int| 0 <= p < q < kept@.len() implies kept@[p] < kept@[q] by {
                        if q == kept@.len() - 1 && kept@.len() > before.len() {
                            let pp = choose|pp: int| 0 <= pp < i && #[trigger] before[p] == items@[pp];
                            assert(kept@[p] == before[p]);
                        } else {
                            assert(kept@[p] == before[p] && kept@[q] == before[q]);
                        }
                    }
                }
                i += 1;
            }
            proof {
                assert(items@.take(items@.len() as int) =~= items@);
                assert(kept@.to_set() =~= t@.remove(e)) by {
                    assert forall|y: u64| kept@.to_set().contains(y) <==> t@.remove(e).contains(y) by {
                        assert(items@.to_set().contains(y) <==> items@.contains(y));
                    }
                }
                kept@.lemma_cardinality_of_set();
            }
            if kept.len() == 0 {
                self.rep = Rep::Empty;
                proof {
                    assert(t@.remove(e) =~= Set::<u64>::empty()) by {
                        assert forall|y: u64| !t@.remove(e).contains(y) by {
                            if t@.remove(e).contains(y) {
                                assert(kept@.to_set().contains(y));
                            }
                        }
                    }
                }
            } else {
                *self = SetU64::from_sorted(kept);
            }
            return true;
        }
        match &mut self.rep {
            Rep::Dense { sz, a } => {
                let present = dense_del(a, e);
                if present {
                    *sz = *sz - 1;
                }
                present
            },
            Rep::Heap { sz, used, bits, a } => {
                if compute_array_bits(e) < *bits {
                    proof {
                        assert(heap_view(a@, *bits).remove(e) =~= heap_view(a@, *bits));
                    }
                    false
                } else {
                    match heap_del(a, *bits, e) {
                        HeapDel::Absent => false,
                        HeapDel::ClearedBit => {
                            *sz = *sz - 1;
                            true
                        },
                        HeapDel::DroppedWord => {
                            *sz = *sz - 1;
                            *used = *used - 1;
                            true
                        },
                    }
                }
            },
            Rep::Big { sz, marker, a } => {
                let present = big_del(a, *marker, e);
                if present {
                    *sz = *sz - 1;
                }
                present
            },
            _ => {
                proof {
                    assert(Set::<u64>::empty().remove(e) =~= Set::<u64>::empty());
                }
                false
            },
        }
    }

    /// Empties the set, returning its elements, each once.
    pub fn drain(&mut self) -> (r: Vec<u64>)
        requires
            old(self).wf(),
        ensures
            final(self).wf(),
            final(self)@ == Set::<u64>::empty(),
            r@.to_set() == old(self)@,
            r@.no_duplicates(),
    {
        let items = self.iter();
        *self = SetU64::new();
        items
    }
    /// The set of the given values, in any order and with repeats.
    pub fn from_items(items: Vec<u64>) -> (s: SetU64)
        requires
            items@.len() + 2 < setu64_limit(),
        ensures
            s.wf(),
            s@ == items@.to_set(),
    {
        let v = sorted_dedup(&items);
        if v.len() == 0 {
            proof {
                assert(items@.to_set() =~= Set::<u64>::empty()) by {
                    assert forall|x: u64| !items@.to_set().contains(x) by {
                        if items@.to_set().contains(x) {
                            assert(v@.to_set().contains(x));
                        }
                    }
                }
            }
            SetU64::new()
        } else {
            SetU64::from_sorted(v)
        }
    }
}

/// The values of `items` in increasing order, each once.
pub(crate) fn sorted_dedup(items: &Vec<u64>) -> (r: Vec<u64>)
    ensures
        increasing(r@),
        r@.to_set() == items@.to_set(),
        r@.len() <= items@.len(),
{
    let mut out: Vec<u64> = Vec::new();
    let mut i: usize = 0;
    proof {
        assert(items@.take(0).to_set() =~= Set::<u64>::empty());
        assert(out@.to_set() =~= Set::<u64>::empty());
    }
    while i < items.len()
        invariant
            i <= items@.len(),
            increasing(out@),
            out@.to_set() == items@.take(i as int).to_set(),
            out@.len() <= i,
        decreases items@.len() - i,
    {
        let x = items[i];
        let mut j: usize = 0;
        while j < out.len() && out[j] < x
            invariant
                j <= out@.len(),
                forall|q: int| 0 <= q < j ==> out@[q] < x,
            decreases out@.len() - j,
        {
            j += 1;
        }
        let ghost before = out@;
        proof {
            assert(items@.take(i + 1) =~= items@.take(i as int).push(x));
            items@.take(i as int).lemma_push_to_set_commute(x);
        }
        if j < out.len() && out[j] == x {
            proof {
                assert(before.to_set().contains(x));
                assert(before.to_set().insert(x) =~= before.to_set());
            }
        } else {
            out.insert(j, x);
            proof {
                assert(out@ == before.insert(j as int, x));
                assert forall|p: int, q: int| 0 <= p < q < out@.len() implies out@[p] < out@[q] by {
                    if q < j {
                        assert(out@[p] == before[p] && out@[q] == before[q]);
                    } else if q == j {
                        assert(out@[p] == before[p]);
                    } else if p < j {
                        assert(out@[p] == before[p] && out@[q] == before[q - 1]);
                        assert(before[j as int] >= x);
                        if q - 1 > j {
                            assert(before[j as int] < before[q - 1]);
                        }
                    } else if p == j {
                        assert(out@[q] == before[q - 1]);
                        if q - 1 > j {
                            assert(before[j as int] < before[q - 1]);
                        }
                    } else {
                        assert(out@[p] == before[p - 1] && out@[q] == before[q - 1]);
                    }
                }
                assert(out@.to_set() =~= before.to_set().insert(x)) by {
                    assert forall|y: u64| out@.to_set().contains(y) <==> before.to_set().insert(x).contains(y) by {
                        if out@.contains(y) {
                            let m = choose|m: int| 0 <= m < out@.len() && out@[m] == y;
                            if m < j {
                                assert(before[m] == y);
                            } else if m > j {
                                assert(before[m - 1] == y);
                            }
                        }
                        if before.contains(y) {
                            let m = choose|m: int| 0 <= m < before.len() && before[m] == y;
                            if m < j {
                                assert(out@[m] == y);
                            } else {
                                assert(out@[m + 1] == y);
                            }
                        }
                        if y == x {
                            assert(out@[j as int] == x);
                        }
                    }
                }
            }
        }
        proof {
            out@.lemma_cardinality_of_set();
            items@.take(i + 1).lemma_cardinality_of_set();
        }
        i += 1;
    }
    proof {
        assert(items@.take(items@.len() as int) =~= items@);
        out@.lemma_cardinality_of_set();
    }
    out
}

/// A copy of the words of `a`.
fn copy_words(a: &[u64]) -> (r: Box<[u64]>)
    ensures
        r@ == a@,
{
    let mut v: Vec<u64> = Vec::with_capacity(a.len());
    let mut i: usize = 0;
    while i < a.len()
        invariant
            i <= a@.len(),
            v@ == a@.take(i as int),
        decreases a@.len() - i,
    {
        v.push(a[i]);
        i += 1;
        proof {
            assert(v@ =~= a@.take(i as int));
        }
    }
    proof {
        assert(a@.take(a@.len() as int) =~= a@);
    }
    into_boxed(v)
}

impl Clone for SetU64 {
    /// A set of the same elements, stored alike.
    fn clone(&self) -> (r: Self)
        ensures
            r@ == self@,
            self.wf() ==> r.wf(),
    {
        let rep = match &self.rep {
            Rep::Empty => Rep::Empty,
            Rep::Stack(t) => Rep::Stack(*t),
            Rep::Heap { sz, used, bits, a } => Rep::Heap { sz: *sz, used: *used, bits: *bits, a: copy_words(a) },
            Rep::Big { sz, marker, a } => Rep::Big { sz: *sz, marker: *marker, a: copy_words(a) },
            Rep::Dense { sz, a } => Rep::Dense { sz: *sz, a: copy_words(a) },
        };
        SetU64 { rep }
    }
}

} // verus!
