//! A map from `Fits64` keys to values of any type, whose index is a
//! list of packed words: a key in the low bits of each word, and one more
//! than the value's index in the bits above.
use vstd::prelude::*;
use vstd::arithmetic::power2::{pow2, lemma_pow2_pos, lemma_pow2_adds, lemma_pow2_strictly_increases};
use std::marker::PhantomData;
use crate::fits::{Fits64, is_code, lemma_code_of};
use crate::setu64::{bits_needed, lemma_bits_needed};
use crate::word::into_boxed;

verus! {

/// `2^b`.
pub open spec fn p2(b: u8) -> int {
    pow2(b as nat) as int
}

/// The key that word `x` holds: its low `kb` bits.
pub open spec fn wkey(x: u64, kb: u8) -> int {
    x as int % p2(kb)
}

/// The value that word `x` holds: one less than its bits above the low `kb`.
pub open spec fn wval(x: u64, kb: u8) -> int {
    x as int / p2(kb) - 1
}

/// Slot `i` of `s` holds an entry for key `k`.
pub open spec fn holds(s: Seq<u64>, kb: u8, i: int, k: int) -> bool {
    0 <= i < s.len() && s[i] != 0 && wkey(s[i], kb) == k
}

/// The slot that holds key `k`.
pub open spec fn slot_of(s: Seq<u64>, kb: u8, k: int) -> int {
    choose|i: int| holds(s, kb, i, k)
}

/// The map from keys to values that the words of `s` hold.
pub open spec fn packed_view(s: Seq<u64>, kb: u8) -> Map<u64, usize> {
    Map::new(
        |k: u64| exists|i: int| holds(s, kb, i, k as int),
        |k: u64| wval(s[slot_of(s, kb, k as int)], kb) as usize,
    )
}

/// Every word of `s` is zero, or holds a key of `kb` bits and a value
/// whose successor has at most `eb` bits and fits a `usize`; no key is
/// held twice.
pub open spec fn packed_ok(s: Seq<u64>, kb: u8, eb: u8) -> bool {
    &&& kb + eb <= 63
    &&& forall|i: int|
        0 <= i < s.len() && s[i] != 0 ==> 1 <= #[trigger] (s[i] as int / p2(kb)) && s[i] as int
            / p2(kb) < p2(eb) && s[i] as int / p2(kb) <= usize::MAX
    &&& forall|i: int, j: int|
        0 <= i < s.len() && 0 <= j < s.len() && i != j && s[i] != 0 && s[j] != 0 ==> wkey(
            #[trigger] s[i],
            kb,
        ) != wkey(#[trigger] s[j], kb)
}

/// The values of `m` are pairwise different.
pub open spec fn injective(m: Map<u64, usize>) -> bool {
    forall|a: u64, b: u64|
        m.contains_key(a) && m.contains_key(b) && a != b ==> #[trigger] m[a] != #[trigger] m[b]
}

/// `m` with the value `from` replaced by `to`.
pub open spec fn relabel(m: Map<u64, usize>, from: usize, to: usize) -> Map<u64, usize> {
    Map::new(|k: u64| m.contains_key(k), |k: u64| if m[k] == from { to } else { m[k] })
}

pub proof fn lemma_p2(b: u8)
    requires
        b <= 63,
    ensures
        0 < p2(b) <= 0x8000_0000_0000_0000,
{
    lemma_pow2_pos(b as nat);
    vstd::arithmetic::power2::lemma2_to64();
    vstd::arithmetic::power2::lemma2_to64_rest();
    if b < 63 {
        lemma_pow2_strictly_increases(b as nat, 63);
    }
}

/// A word with key `k` below `2^kb` and value `v` decodes to them.
pub proof fn lemma_decode(k: int, m: int, kb: u8)
    requires
        kb <= 63,
        0 <= k < p2(kb),
        0 <= m,
    ensures
        (k + m * p2(kb)) % p2(kb) == k,
        (k + m * p2(kb)) / p2(kb) == m,
{
    lemma_p2(kb);
    vstd::arithmetic::mul::lemma_mul_is_commutative(m, p2(kb));
    vstd::arithmetic::div_mod::lemma_fundamental_div_mod_converse(k + m * p2(kb), p2(kb), m, k);
}

/// A slot that holds an entry gives the view's key and value.
pub proof fn lemma_holds_view(s: Seq<u64>, kb: u8, eb: u8, i: int)
    requires
        packed_ok(s, kb, eb),
        0 <= i < s.len(),
        s[i] != 0,
    ensures
        0 <= wkey(s[i], kb) < p2(kb),
        packed_view(s, kb).contains_key(wkey(s[i], kb) as u64),
        packed_view(s, kb)[wkey(s[i], kb) as u64] == wval(s[i], kb) as usize,
        0 <= wval(s[i], kb) < usize::MAX,
{
    lemma_p2(kb);
    vstd::arithmetic::div_mod::lemma_mod_bound(s[i] as int, p2(kb));
    let k = wkey(s[i], kb);
    assert(holds(s, kb, i, (k as u64) as int));
    let j = slot_of(s, kb, k);
    assert(holds(s, kb, j, k));
    if j != i {
        assert(wkey(s[i], kb) != wkey(s[j], kb));
    }
}

/// A view of a slot sequence with key `k` held nowhere lacks `k`.
pub proof fn lemma_view_lacks(s: Seq<u64>, kb: u8, k: u64)
    requires
        forall|i: int| 0 <= i < s.len() && s[i] != 0 ==> wkey(s[i], kb) != k,
    ensures
        !packed_view(s, kb).contains_key(k),
{
}

/// Writing `y` into slot `j` removes the entry that the slot held and
/// adds the entry of `y`.
pub proof fn lemma_view_set(s: Seq<u64>, kb: u8, eb: u8, j: int, y: u64)
    requires
        packed_ok(s, kb, eb),
        packed_ok(s.update(j, y), kb, eb),
        0 <= j < s.len(),
    ensures
        packed_view(s.update(j, y), kb) == ({
            let m = if s[j] != 0 {
                packed_view(s, kb).remove(wkey(s[j], kb) as u64)
            } else {
                packed_view(s, kb)
            };
            if y != 0 {
                m.insert(wkey(y, kb) as u64, wval(y, kb) as usize)
            } else {
                m
            }
        }),
{
    let t = s.update(j, y);
    let a = packed_view(t, kb);
    let m0 = if s[j] != 0 {
        packed_view(s, kb).remove(wkey(s[j], kb) as u64)
    } else {
        packed_view(s, kb)
    };
    let b = if y != 0 {
        m0.insert(wkey(y, kb) as u64, wval(y, kb) as usize)
    } else {
        m0
    };
    lemma_p2(kb);
    if s[j] != 0 {
        lemma_holds_view(s, kb, eb, j);
    }
    if y != 0 {
        assert(t[j] == y);
        lemma_holds_view(t, kb, eb, j);
    }
    assert forall|k: u64| #[trigger] a.contains_key(k) <==> b.contains_key(k) by {
        if a.contains_key(k) {
            let i = choose|i: int| holds(t, kb, i, k as int);
            if i != j {
                assert(holds(s, kb, i, k as int));
                lemma_holds_view(s, kb, eb, i);
                if s[j] != 0 {
                    assert(wkey(s[i], kb) != wkey(s[j], kb));
                }
            }
        }
        if b.contains_key(k) && !(y != 0 && k == wkey(y, kb) as u64) {
            let i = choose|i: int| holds(s, kb, i, k as int);
            assert(i != j);
            assert(holds(t, kb, i, k as int));
        }
    }
    assert forall|k: u64| #[trigger] a.contains_key(k) implies a[k] == b[k] by {
        let i = choose|i: int| holds(t, kb, i, k as int);
        lemma_holds_view(t, kb, eb, i);
        if i != j {
            assert(t[i] == s[i]);
            lemma_holds_view(s, kb, eb, i);
            if s[j] != 0 {
                assert(wkey(s[i], kb) != wkey(s[j], kb));
            }
            if y != 0 {
                assert(wkey(t[i], kb) != wkey(t[j], kb));
            }
        }
    }
    assert(a =~= b);
}

/// The view of `s` is finite, has at most as many entries as `s` has
/// slots, and as many when no slot is zero.
pub proof fn lemma_view_len(s: Seq<u64>, kb: u8, eb: u8)
    requires
        packed_ok(s, kb, eb),
    ensures
        packed_view(s, kb).dom().finite(),
        packed_view(s, kb).len() <= s.len(),
        (forall|i: int| 0 <= i < s.len() ==> s[i] != 0) ==> packed_view(s, kb).len() == s.len(),
{
    let ks = s.map_values(|x: u64| wkey(x, kb) as u64);
    let d = packed_view(s, kb).dom();
    lemma_p2(kb);
    assert(d.subset_of(ks.to_set())) by {
        assert forall|k: u64| d.contains(k) implies ks.to_set().contains(k) by {
            let i = choose|i: int| holds(s, kb, i, k as int);
            assert(ks[i] == k);
        }
    }
    ks.lemma_cardinality_of_set();
    vstd::set_lib::lemma_len_subset(d, ks.to_set());
    if forall|i: int| 0 <= i < s.len() ==> s[i] != 0 {
        assert(ks.to_set() =~= d) by {
            assert forall|k: u64| ks.to_set().contains(k) implies d.contains(k) by {
                let i = choose|i: int| 0 <= i < ks.len() && ks[i] == k;
                vstd::arithmetic::div_mod::lemma_mod_bound(s[i] as int, p2(kb));
                assert(holds(s, kb, i, k as int));
            }
        }
        assert(ks.no_duplicates()) by {
            assert forall|i: int, j: int| 0 <= i < ks.len() && 0 <= j < ks.len() && i != j implies ks[i] != ks[j] by {
                vstd::arithmetic::div_mod::lemma_mod_bound(s[i] as int, p2(kb));
                vstd::arithmetic::div_mod::lemma_mod_bound(s[j] as int, p2(kb));
                assert(wkey(s[i], kb) != wkey(s[j], kb));
            }
        }
        ks.unique_seq_to_set();
    }
}

/// A sequence of zero words holds nothing.
pub proof fn lemma_view_zeros(s: Seq<u64>, kb: u8, eb: u8)
    requires
        kb + eb <= 63,
        forall|i: int| 0 <= i < s.len() ==> s[i] == 0,
    ensures
        packed_ok(s, kb, eb),
        packed_view(s, kb) == Map::<u64, usize>::empty(),
{
    assert(packed_view(s, kb) =~= Map::<u64, usize>::empty());
}

/// Zero words after the slots change nothing.
pub proof fn lemma_view_extend(s: Seq<u64>, kb: u8, eb: u8, z: Seq<u64>)
    requires
        packed_ok(s, kb, eb),
        forall|i: int| 0 <= i < z.len() ==> z[i] == 0,
    ensures
        packed_ok(s + z, kb, eb),
        packed_view(s + z, kb) == packed_view(s, kb),
{
    let t = s + z;
    assert forall|i: int| 0 <= i < t.len() && t[i] != 0 implies i < s.len() && t[i] == s[i] by {
        if i >= s.len() {
            assert(t[i] == z[i - s.len()]);
        }
    }
    assert(packed_ok(t, kb, eb));
    let a = packed_view(t, kb);
    let b = packed_view(s, kb);
    assert forall|k: u64| #[trigger] a.contains_key(k) <==> b.contains_key(k) by {
        if a.contains_key(k) {
            let i = choose|i: int| holds(t, kb, i, k as int);
            assert(holds(s, kb, i, k as int));
        }
        if b.contains_key(k) {
            let i = choose|i: int| holds(s, kb, i, k as int);
            assert(holds(t, kb, i, k as int));
        }
    }
    assert forall|k: u64| #[trigger] a.contains_key(k) implies a[k] == b[k] by {
        let i = choose|i: int| holds(t, kb, i, k as int);
        lemma_holds_view(t, kb, eb, i);
        lemma_holds_view(s, kb, eb, i);
    }
    assert(a =~= b);
}

/// Appending a word adds its entry.
pub proof fn lemma_view_push(s: Seq<u64>, kb: u8, eb: u8, y: u64)
    requires
        packed_ok(s, kb, eb),
        packed_ok(s.push(y), kb, eb),
    ensures
        packed_view(s.push(y), kb) == (if y != 0 {
            packed_view(s, kb).insert(wkey(y, kb) as u64, wval(y, kb) as usize)
        } else {
            packed_view(s, kb)
        }),
{
    let z = seq![0u64];
    lemma_view_extend(s, kb, eb, z);
    assert((s + z).update(s.len() as int, y) =~= s.push(y));
    lemma_view_set(s + z, kb, eb, s.len() as int, y);
}

/// A prefix of well-formed words is well formed.
pub proof fn lemma_packed_take(s: Seq<u64>, kb: u8, eb: u8, i: int)
    requires
        packed_ok(s, kb, eb),
        0 <= i <= s.len(),
    ensures
        packed_ok(s.take(i), kb, eb),
{
    let t = s.take(i);
    assert forall|a: int, b: int|
        0 <= a < t.len() && 0 <= b < t.len() && a != b && t[a] != 0 && t[b] != 0 implies wkey(
        #[trigger] t[a],
        kb,
    ) != wkey(#[trigger] t[b], kb) by {
        assert(t[a] == s[a] && t[b] == s[b]);
    }
    assert forall|a: int| 0 <= a < t.len() && t[a] != 0 implies 1 <= #[trigger] (t[a] as int / p2(kb)) && t[a] as int / p2(kb) < p2(eb) && t[a] as int / p2(kb) <= usize::MAX by {
        assert(t[a] == s[a]);
    }
}

/// A `u64` has at most 64 binary digits.
pub proof fn lemma_bits_needed_u64(x: u64)
    ensures
        1 <= bits_needed(x as nat) <= 64,
{
    lemma_bits_needed(x as nat);
    let b = bits_needed(x as nat);
    vstd::arithmetic::power2::lemma2_to64_rest();
    if b > 64 {
        if b - 1 > 64 {
            lemma_pow2_strictly_increases(64, (b - 1) as nat);
        }
    }
}

/// `2^a <= 2^b` for `a <= b`.
pub proof fn lemma_p2_mono(a: u8, b: u8)
    requires
        a <= b,
    ensures
        p2(a) <= p2(b),
{
    if a < b {
        lemma_pow2_strictly_increases(a as nat, b as nat);
    }
}

/// Replace the word in slot `i` of `s` by `w`.
fn set_slot(s: &mut [u64], i: usize, w: u64)
    requires
        i < old(s)@.len(),
    ensures
        final(s)@ == old(s)@.update(i as int, w),
{
    s[i] = w;
}

/// The bit widths of a packed word: the keys in the low `key_bits`, the
/// values' successors in the `elem_bits` above.
#[derive(Clone, Copy, Debug)]
pub struct Lay {
    pub elem_bits: u8,
    pub key_bits: u8,
}

impl Lay {
    /// The mask of the key bits.
    pub fn keymask(&self) -> (r: u64)
        requires
            self.key_bits < 64,
        ensures
            r == p2(self.key_bits) - 1,
    {
        proof {
            vstd::bits::lemma_u64_pow2_no_overflow(self.key_bits as nat);
            vstd::bits::lemma_u64_shl_is_mul(1, self.key_bits as u64);
        }
        (1u64 << self.key_bits) - 1
    }

    /// The value that word `x` holds.
    pub fn getvalue(&self, x: u64) -> (r: usize)
        requires
            self.key_bits < 64,
            1 <= x as int / p2(self.key_bits) <= usize::MAX,
        ensures
            r == wval(x, self.key_bits),
    {
        proof {
            vstd::bits::lemma_u64_shr_is_div(x, self.key_bits as u64);
        }
        (x >> self.key_bits) as usize - 1
    }

    /// The value bits of a word that holds value `v`.
    pub fn putvalue(&self, v: usize) -> (r: u64)
        requires
            self.key_bits < 64,
            (v + 1) * p2(self.key_bits) <= u64::MAX,
        ensures
            r == (v + 1) * p2(self.key_bits),
    {
        proof {
            lemma_pow2_pos(self.key_bits as nat);
            assert((v + 1) <= (v + 1) * p2(self.key_bits)) by (nonlinear_arith)
                requires
                    p2(self.key_bits) >= 1,
            ;
            vstd::bits::lemma_u64_shl_is_mul((v + 1) as u64, self.key_bits as u64);
        }
        (v as u64 + 1) << self.key_bits
    }

    /// The widths that key `k` and value `v` need, when they need more
    /// than these, or when `len` equals `v`.
    pub fn update(&self, k: u64, v: usize, len: usize) -> (r: Option<Lay>)
        requires
            v < u64::MAX,
        ensures
            r == (if bits_needed((v + 1) as nat) > self.elem_bits || bits_needed(k as nat) > self.key_bits
                || len == v {
                Some(
                    Lay {
                        elem_bits: max_bits(bits_needed((v + 1) as nat), self.elem_bits),
                        key_bits: max_bits(bits_needed(k as nat), self.key_bits),
                    },
                )
            } else {
                None
            }),
    {
        let vb = log_2(v as u64 + 1);
        let kb = log_2(k);
        if vb > self.elem_bits || kb > self.key_bits || len == v {
            Some(
                Lay {
                    elem_bits: if vb > self.elem_bits {
                        vb
                    } else {
                        self.elem_bits
                    },
                    key_bits: if kb > self.key_bits {
                        kb
                    } else {
                        self.key_bits
                    },
                },
            )
        } else {
            None
        }
    }
}

/// `k | (m << kb)` adds the two when `k` lies below `2^kb`.
proof fn lemma_or_is_add(k: u64, m: u64, kb: u64)
    requires
        kb < 64,
        k < (1u64 << kb),
    ensures
        (k | (m << kb)) == k + (m << kb),
{
    assert((k | (m << kb)) == k + (m << kb)) by (bit_vector)
        requires
            kb < 64,
            k < (1u64 << kb),
    ;
}

/// A word that holds key `k` and value `v` under the key width `kb`.
fn pack(k: u64, v: usize, lay: Lay) -> (r: u64)
    requires
        lay.key_bits < 64,
        k < p2(lay.key_bits),
        (v + 1) * p2(lay.key_bits) <= u64::MAX,
    ensures
        r == k + (v + 1) * p2(lay.key_bits),
        r != 0,
        wkey(r, lay.key_bits) == k,
        r as int / p2(lay.key_bits) == v + 1,
{
    let y = lay.putvalue(v);
    proof {
        lemma_pow2_pos(lay.key_bits as nat);
        assert((v + 1) <= (v + 1) * p2(lay.key_bits)) by (nonlinear_arith)
            requires
                p2(lay.key_bits) >= 1,
        ;
        vstd::bits::lemma_u64_pow2_no_overflow(lay.key_bits as nat);
        vstd::bits::lemma_u64_shl_is_mul(1, lay.key_bits as u64);
        vstd::bits::lemma_u64_shl_is_mul((v + 1) as u64, lay.key_bits as u64);
        lemma_or_is_add(k, (v + 1) as u64, lay.key_bits as u64);
        lemma_decode(k as int, v + 1, lay.key_bits);
        lemma_pow2_pos(lay.key_bits as nat);
    }
    k | y
}

/// A value with at most `b` binary digits lies below `2^b`.
pub proof fn lemma_fits_bits(x: nat, b: u8)
    requires
        bits_needed(x) <= b,
    ensures
        x < p2(b),
{
    lemma_bits_needed(x);
    let c = bits_needed(x);
    if c < b {
        lemma_pow2_strictly_increases(c, b as nat);
    }
}

/// The index of a map: packed words in a list that is scanned in order.
#[derive(Debug)]
struct Map64U {
    lay: Lay,
    data: Box<[u64]>,
}

impl Map64U {
    spec fn view(&self) -> Map<u64, usize> {
        packed_view(self.data@, self.lay.key_bits)
    }

    spec fn wf(&self) -> bool {
        packed_ok(self.data@, self.lay.key_bits, self.lay.elem_bits)
    }

    /// Key `k` and value `v` fit in the widths that an insertion would choose.
    spec fn fits(&self, k: u64, v: usize) -> bool {
        &&& max_bits(bits_needed(k as nat), self.lay.key_bits) + max_bits(
            bits_needed((v + 1) as nat),
            self.lay.elem_bits,
        ) <= 63
        &&& (v + 1) * 2 <= usize::MAX
    }

    fn new() -> (r: Map64U)
        ensures
            r.wf(),
            r.view() == Map::<u64, usize>::empty(),
            r.lay.key_bits == 0,
            r.lay.elem_bits == 0,
    {
        let r = Map64U { lay: Lay { elem_bits: 0, key_bits: 0 }, data: into_boxed(Vec::new()) };
        proof {
            lemma_view_zeros(r.data@, 0, 0);
        }
        r
    }

    /// The slot that holds key `k`, if any.
    fn find(&self, k: u64) -> (r: Option<usize>)
        requires
            self.wf(),
        ensures
            r matches Some(i) ==> holds(self.data@, self.lay.key_bits, i as int, k as int),
            r is None ==> forall|i: int|
                0 <= i < self.data@.len() ==> !holds(self.data@, self.lay.key_bits, i, k as int),
    {
        let mask = self.lay.keymask();
        let mut i: usize = 0;
        while i < self.data.len()
            invariant
                self.wf(),
                mask == p2(self.lay.key_bits) - 1,
                i <= self.data@.len(),
                forall|j: int| 0 <= j < i ==> !holds(self.data@, self.lay.key_bits, j, k as int),
            decreases self.data@.len() - i,
        {
            let x = self.data[i];
            proof {
                vstd::bits::lemma_u64_low_bits_mask_is_mod(x, self.lay.key_bits as nat);
                lemma_p2(self.lay.key_bits);
            }
            if x != 0 && x & mask == k {
                return Some(i);
            }
            i += 1;
        }
        None
    }

    /// Stores key `k` with value `v` in the first free slot, unless `k`
    /// is present, in which case its value is given and nothing changes.
    fn place(&mut self, k: u64, v: usize) -> (r: Option<usize>)
        requires
            old(self).wf(),
            k < p2(old(self).lay.key_bits),
            v + 1 < p2(old(self).lay.elem_bits),
            v + 1 <= usize::MAX,
            old(self).view().contains_key(k) || old(self).view().len() < old(self).data@.len(),
        ensures
            final(self).wf(),
            final(self).lay == old(self).lay,
            final(self).data@.len() == old(self).data@.len(),
            old(self).view().contains_key(k) ==> r == Some(old(self).view()[k]) && final(self).view()
                == old(self).view(),
            !old(self).view().contains_key(k) ==> r is None && final(self).view() == old(self).view().insert(
                k,
                v,
            ),
    {
        proof {
            lemma_p2(self.lay.key_bits);
            lemma_p2(self.lay.elem_bits);
            lemma_pow2_adds(self.lay.key_bits as nat, self.lay.elem_bits as nat);
            vstd::arithmetic::power2::lemma2_to64();
            vstd::arithmetic::power2::lemma2_to64_rest();
            lemma_p2_mono((self.lay.key_bits + self.lay.elem_bits) as u8, 63);
            assert((v + 1) * p2(self.lay.key_bits) <= p2(self.lay.elem_bits) * p2(self.lay.key_bits))
                by (nonlinear_arith)
                requires
                    v + 1 < p2(self.lay.elem_bits),
                    p2(self.lay.key_bits) > 0,
            ;
            assert(p2(self.lay.elem_bits) * p2(self.lay.key_bits) == pow2(
                (self.lay.key_bits + self.lay.elem_bits) as nat,
            ));
            assert(pow2((self.lay.key_bits + self.lay.elem_bits) as nat) == p2(
                (self.lay.key_bits + self.lay.elem_bits) as u8,
            ));
        }
        match self.find(k) {
            Some(i) => {
                proof {
                    lemma_holds_view(self.data@, self.lay.key_bits, self.lay.elem_bits, i as int);
                }
                Some(self.lay.getvalue(self.data[i]))
            },
            None => {
                proof {
                    assert forall|i: int| 0 <= i < self.data@.len() && self.data@[i] != 0 implies wkey(self.data@[i], self.lay.key_bits) != k by {
                        assert(!holds(self.data@, self.lay.key_bits, i, k as int));
                    }
                    lemma_view_lacks(self.data@, self.lay.key_bits, k);
                }
                let mut j: usize = 0;
                while j < self.data.len()
                    invariant
                        self.wf(),
                        self.data@ == old(self).data@,
                        self.lay == old(self).lay,
                        k < p2(self.lay.key_bits),
                        v + 1 < p2(self.lay.elem_bits),
                        v + 1 <= usize::MAX,
                        (v + 1) * p2(self.lay.key_bits) <= u64::MAX,
                        self.lay.key_bits + self.lay.elem_bits <= 63,
                        !self.view().contains_key(k),
                        self.view().len() < self.data@.len(),
                        forall|i: int| 0 <= i < self.data@.len() && self.data@[i] != 0 ==> wkey(self.data@[i], self.lay.key_bits) != k,
                        j <= self.data@.len(),
                        forall|i: int| 0 <= i < j ==> self.data@[i] != 0,
                    decreases self.data@.len() - j,
                {
                    if self.data[j] == 0 {
                        let w = pack(k, v, self.lay);
                        proof {
                            let t = self.data@.update(j as int, w);
                            assert forall|a: int, b: int|
                                0 <= a < t.len() && 0 <= b < t.len() && a != b && t[a] != 0
                                    && t[b] != 0 implies wkey(#[trigger] t[a], self.lay.key_bits)
                                != wkey(#[trigger] t[b], self.lay.key_bits) by {
                                if a != j as int && b != j as int {
                                    assert(t[a] == self.data@[a] && t[b] == self.data@[b]);
                                } else if a == j as int {
                                    assert(t[b] == self.data@[b]);
                                } else {
                                    assert(t[a] == self.data@[a]);
                                }
                            }
                            assert(packed_ok(t, self.lay.key_bits, self.lay.elem_bits));
                            lemma_view_set(self.data@, self.lay.key_bits, self.lay.elem_bits, j as int, w);
                        }
                        set_slot(&mut self.data, j, w);
                        return None;
                    }
                    j += 1;
                }
                proof {
                    lemma_view_len(self.data@, self.lay.key_bits, self.lay.elem_bits);
                }
                None
            },
        }
    }

    /// Lengthens the list to `n` words, the new ones free.
    fn grow(&mut self, n: usize)
        requires
            old(self).wf(),
            n >= old(self).data@.len(),
        ensures
            final(self).wf(),
            final(self).lay == old(self).lay,
            final(self).view() == old(self).view(),
            final(self).data@.len() == n,
    {
        let len = self.data.len();
        let mut nd: Vec<u64> = Vec::with_capacity(n);
        let mut i: usize = 0;
        while i < n
            invariant
                len == self.data@.len(),
                len <= n,
                i <= n,
                nd@.len() == i,
                forall|j: int| 0 <= j < i ==> nd@[j] == (if j < len { self.data@[j] } else { 0 }),
            decreases n - i,
        {
            if i < len {
                nd.push(self.data[i]);
            } else {
                nd.push(0);
            }
            i += 1;
        }
        proof {
            let z = nd@.subrange(len as int, n as int);
            assert(nd@ =~= self.data@ + z);
            lemma_view_extend(self.data@, self.lay.key_bits, self.lay.elem_bits, z);
        }
        self.data = into_boxed(nd);
    }

    /// Rewrites every entry in the widths of `newl`.
    fn relayout(&mut self, newl: Lay)
        requires
            old(self).wf(),
            newl.key_bits >= old(self).lay.key_bits,
            newl.elem_bits >= old(self).lay.elem_bits,
            newl.key_bits + newl.elem_bits <= 63,
        ensures
            final(self).wf(),
            final(self).lay == newl,
            final(self).view() == old(self).view(),
            final(self).data@.len() == old(self).data@.len(),
    {
        let len = self.data.len();
        let mut zeros: Vec<u64> = Vec::with_capacity(len);
        let mut i: usize = 0;
        while i < len
            invariant
                i <= len,
                zeros@.len() == i,
                forall|j: int| 0 <= j < i ==> zeros@[j] == 0,
            decreases len - i,
        {
            zeros.push(0);
            i += 1;
        }
        let mut t = Map64U { lay: newl, data: into_boxed(zeros) };
        proof {
            lemma_view_zeros(t.data@, newl.key_bits, newl.elem_bits);
            assert(self.data@.take(0) =~= Seq::<u64>::empty());
            lemma_view_zeros(self.data@.take(0), self.lay.key_bits, self.lay.elem_bits);
        }
        let mask = self.lay.keymask();
        let mut i: usize = 0;
        while i < len
            invariant
                self.wf(),
                len == self.data@.len(),
                mask == p2(self.lay.key_bits) - 1,
                newl.key_bits >= self.lay.key_bits,
                newl.elem_bits >= self.lay.elem_bits,
                newl.key_bits + newl.elem_bits <= 63,
                i <= len,
                t.wf(),
                t.lay == newl,
                t.data@.len() == len,
                t.view() == packed_view(self.data@.take(i as int), self.lay.key_bits),
                packed_ok(self.data@.take(i as int), self.lay.key_bits, self.lay.elem_bits),
            decreases len - i,
        {
            let x = self.data[i];
            proof {
                lemma_packed_take(self.data@, self.lay.key_bits, self.lay.elem_bits, i + 1);
                assert(self.data@.take(i + 1) =~= self.data@.take(i as int).push(x));
                lemma_view_push(self.data@.take(i as int), self.lay.key_bits, self.lay.elem_bits, x);
                lemma_view_len(self.data@.take(i as int), self.lay.key_bits, self.lay.elem_bits);
            }
            if x != 0 {
                proof {
                    vstd::bits::lemma_u64_low_bits_mask_is_mod(x, self.lay.key_bits as nat);
                    lemma_p2(self.lay.key_bits);
                    lemma_p2(newl.key_bits);
                    lemma_p2_mono(self.lay.key_bits, newl.key_bits);
                    lemma_p2_mono(self.lay.elem_bits, newl.elem_bits);
                    vstd::arithmetic::div_mod::lemma_mod_bound(x as int, p2(self.lay.key_bits));
                    let pre = self.data@.take(i as int);
                    assert forall|j: int| 0 <= j < pre.len() && pre[j] != 0 implies wkey(pre[j], self.lay.key_bits) != wkey(x, self.lay.key_bits) by {
                        assert(pre[j] == self.data@[j]);
                        assert(self.data@[i as int] == x);
                    }
                    lemma_view_lacks(pre, self.lay.key_bits, wkey(x, self.lay.key_bits) as u64);
                }
                let k = x & mask;
                let v = self.lay.getvalue(x);
                t.place(k, v);
            }
            i += 1;
        }
        proof {
            assert(self.data@.take(len as int) =~= self.data@);
        }
        *self = t;
    }

    /// Inserts key `k` with value `v`, which must be the number of
    /// entries, unless `k` is present, in which case its value is given
    /// and nothing changes.  The widths grow to what `k` and `v` need.
    fn insert(&mut self, k: u64, v: usize) -> (r: Option<usize>)
        requires
            old(self).wf(),
            v == old(self).view().len(),
            old(self).fits(k, v),
        ensures
            final(self).wf(),
            final(self).lay == (Lay {
                elem_bits: max_bits(bits_needed((v + 1) as nat), old(self).lay.elem_bits),
                key_bits: max_bits(bits_needed(k as nat), old(self).lay.key_bits),
            }),
            old(self).view().contains_key(k) ==> r == Some(old(self).view()[k]) && final(self).view()
                == old(self).view(),
            !old(self).view().contains_key(k) ==> r is None && final(self).view() == old(self).view().insert(
                k,
                v,
            ),
    {
        proof {
            lemma_view_len(self.data@, self.lay.key_bits, self.lay.elem_bits);
            lemma_bits_needed_u64(k);
            lemma_bits_needed_u64((v + 1) as u64);
        }
        if self.data.len() == v {
            self.grow((v + 1) * 2);
        }
        if let Some(newl) = self.lay.update(k, v, self.data.len()) {
            self.relayout(newl);
        }
        proof {
            lemma_fits_bits(k as nat, self.lay.key_bits);
            lemma_fits_bits((v + 1) as nat, self.lay.elem_bits);
        }
        self.place(k, v)
    }

    /// Removes key `k`, and gives its value to the entry whose value is
    /// `sz`; returns the removed value.
    fn remove(&mut self, k: u64, sz: usize) -> (r: Option<usize>)
        requires
            old(self).wf(),
            injective(old(self).view()),
        ensures
            final(self).wf(),
            final(self).lay == old(self).lay,
            final(self).data@.len() == old(self).data@.len(),
            r == (if old(self).view().contains_key(k) {
                Some(old(self).view()[k])
            } else {
                None::<usize>
            }),
            final(self).view() == (if old(self).view().contains_key(k) {
                relabel(old(self).view().remove(k), sz, old(self).view()[k])
            } else {
                old(self).view()
            }),
    {
        match self.find(k) {
            None => {
                proof {
                    assert forall|i: int| 0 <= i < self.data@.len() && self.data@[i] != 0 implies wkey(self.data@[i], self.lay.key_bits) != k by {
                        assert(!holds(self.data@, self.lay.key_bits, i, k as int));
                    }
                    lemma_view_lacks(self.data@, self.lay.key_bits, k);
                }
                None
            },
            Some(i) => {
                proof {
                    lemma_holds_view(self.data@, self.lay.key_bits, self.lay.elem_bits, i as int);
                    lemma_p2(self.lay.key_bits);
                }
                let x = self.data[i];
                let oldval = self.lay.getvalue(x);
                proof {
                    let t = self.data@.update(i as int, 0);
                    assert forall|a: int, b: int|
                        0 <= a < t.len() && 0 <= b < t.len() && a != b && t[a] != 0 && t[b] != 0 implies wkey(
                        #[trigger] t[a],
                        self.lay.key_bits,
                    ) != wkey(#[trigger] t[b], self.lay.key_bits) by {
                        assert(t[a] == self.data@[a] && t[b] == self.data@[b]);
                    }
                    lemma_view_set(self.data@, self.lay.key_bits, self.lay.elem_bits, i as int, 0);
                }
                set_slot(&mut self.data, i, 0);
                let ghost m = self.view();
                assert(m == old(self).view().remove(k));
                let mask = self.lay.keymask();
                let mut j: usize = 0;
                while j < self.data.len()
                    invariant
                        self.wf(),
                        self.lay == old(self).lay,
                        self.view() == m,
                        m == old(self).view().remove(k),
                        injective(old(self).view()),
                        old(self).view().contains_key(k),
                        oldval == old(self).view()[k],
                        oldval + 1 < p2(self.lay.elem_bits),
                        oldval < usize::MAX,
                        mask == p2(self.lay.key_bits) - 1,
                        self.data@.len() == old(self).data@.len(),
                        j <= self.data@.len(),
                        forall|a: int| 0 <= a < j && self.data@[a] != 0 ==> wval(self.data@[a], self.lay.key_bits) != sz,
                    decreases self.data@.len() - j,
                {
                    let y = self.data[j];
                    proof {
                        if y != 0 {
                            lemma_holds_view(self.data@, self.lay.key_bits, self.lay.elem_bits, j as int);
                        }
                    }
                    if y != 0 && self.lay.getvalue(y) == sz {
                        proof {
                            vstd::bits::lemma_u64_low_bits_mask_is_mod(y, self.lay.key_bits as nat);
                            lemma_p2(self.lay.key_bits);
                            lemma_p2(self.lay.elem_bits);
                            vstd::arithmetic::div_mod::lemma_mod_bound(y as int, p2(self.lay.key_bits));
                            lemma_pow2_adds(self.lay.key_bits as nat, self.lay.elem_bits as nat);
                            vstd::arithmetic::power2::lemma2_to64();
                            vstd::arithmetic::power2::lemma2_to64_rest();
                            lemma_p2_mono((self.lay.key_bits + self.lay.elem_bits) as u8, 63);
                            assert((oldval + 1) * p2(self.lay.key_bits) <= p2(self.lay.elem_bits) * p2(self.lay.key_bits))
                                by (nonlinear_arith)
                                requires
                                    oldval + 1 < p2(self.lay.elem_bits),
                                    p2(self.lay.key_bits) > 0,
                            ;
                            assert(p2(self.lay.elem_bits) * p2(self.lay.key_bits) == pow2(
                                (self.lay.key_bits + self.lay.elem_bits) as nat,
                            ));
                            assert(pow2((self.lay.key_bits + self.lay.elem_bits) as nat) == p2(
                                (self.lay.key_bits + self.lay.elem_bits) as u8,
                            ));
                        }
                        let w = pack(y & mask, oldval, self.lay);
                        proof {
                            let old_data = self.data@;
                            let t = self.data@.update(j as int, w);
                            assert forall|a: int, b: int|
                                0 <= a < t.len() && 0 <= b < t.len() && a != b && t[a] != 0
                                    && t[b] != 0 implies wkey(#[trigger] t[a], self.lay.key_bits)
                                != wkey(#[trigger] t[b], self.lay.key_bits) by {
                                if a != j as int && b != j as int {
                                    assert(t[a] == self.data@[a] && t[b] == self.data@[b]);
                                } else if a == j as int {
                                    assert(t[b] == self.data@[b]);
                                    assert(wkey(self.data@[j as int], self.lay.key_bits) != wkey(self.data@[b], self.lay.key_bits));
                                } else {
                                    assert(t[a] == self.data@[a]);
                                    assert(wkey(self.data@[j as int], self.lay.key_bits) != wkey(self.data@[a], self.lay.key_bits));
                                }
                            }
                            assert(packed_ok(t, self.lay.key_bits, self.lay.elem_bits));
                            lemma_view_set(self.data@, self.lay.key_bits, self.lay.elem_bits, j as int, w);
                            let ky = wkey(y, self.lay.key_bits) as u64;
                            lemma_holds_view(old_data, self.lay.key_bits, self.lay.elem_bits, j as int);
                            assert(old_data[j as int] == y);
                            assert(m.contains_key(ky) && m[ky] == sz);
                            let a = m.remove(ky).insert(ky, oldval);
                            let b = relabel(m, sz, oldval);
                            assert forall|q: u64| #[trigger] b.contains_key(q) implies a.contains_key(q) && a[q] == b[q] by {
                                if q != ky {
                                    assert(old(self).view().contains_key(q) && old(self).view().contains_key(ky));
                                    assert(old(self).view()[q] != old(self).view()[ky]);
                                }
                            }
                            assert(a =~= b);
                        }
                        set_slot(&mut self.data, j, w);
                        return Some(oldval);
                    }
                    j += 1;
                }
                proof {
                    let b = relabel(m, sz, oldval);
                    assert forall|q: u64| #[trigger] m.contains_key(q) implies m[q] != sz by {
                        let a = choose|a: int| holds(self.data@, self.lay.key_bits, a, q as int);
                        lemma_holds_view(self.data@, self.lay.key_bits, self.lay.elem_bits, a);
                    }
                    assert(b =~= m);
                }
                Some(oldval)
            },
        }
    }

    /// The value of key `k`, if any.
    fn get(&self, k: u64) -> (r: Option<usize>)
        requires
            self.wf(),
        ensures
            r == (if self.view().contains_key(k) {
                Some(self.view()[k])
            } else {
                None
            }),
    {
        match self.find(k) {
            Some(i) => {
                proof {
                    lemma_holds_view(self.data@, self.lay.key_bits, self.lay.elem_bits, i as int);
                    lemma_p2(self.lay.key_bits);
                }
                Some(self.lay.getvalue(self.data[i]))
            },
            None => {
                proof {
                    assert forall|i: int| 0 <= i < self.data@.len() && self.data@[i] != 0 implies wkey(self.data@[i], self.lay.key_bits) != k by {
                        assert(!holds(self.data@, self.lay.key_bits, i, k as int));
                    }
                    lemma_view_lacks(self.data@, self.lay.key_bits, k);
                }
                None
            },
        }
    }
}

/// A value below `2^b` needs at most `b` binary digits.
pub proof fn lemma_bits_below(x: nat, b: u8)
    requires
        b >= 1,
        x < p2(b),
    ensures
        bits_needed(x) <= b,
{
    lemma_bits_needed(x);
    let c = bits_needed(x);
    if c > b && c - 1 > b {
        lemma_pow2_strictly_increases(b as nat, (c - 1) as nat);
    }
}

/// The larger of a bit count and a width.
pub open spec fn max_bits(b: nat, w: u8) -> u8 {
    if b > w {
        b as u8
    } else {
        w
    }
}

/// The number of binary digits of `x`, with one digit for zero.
pub fn log_2(x: u64) -> (r: u8)
    ensures
        r == bits_needed(x as nat),
{
    (crate::setu64::log_2(x)) as u8
}

} // verus!

verus! {

/// A map from a `Fits64` key to another type.  The values are kept in a
/// vector, and each key's code is packed with its value's index into a
/// word of a short list.
#[derive(Debug)]
pub struct Map64<K: Fits64, V> {
    map: Map64U,
    elems: Vec<V>,
    phantom: PhantomData<K>,
}

impl<K: Fits64, V> View for Map64<K, V> {
    type V = Map<K, V>;

    closed spec fn view(&self) -> Map<K, V> {
        Map::new(
            |k: K| k.spec_fits() && self.map.view().contains_key(k.spec_to_u64()),
            |k: K| self.elems@[self.map.view()[k.spec_to_u64()] as int],
        )
    }
}

impl<K: Fits64, V> Map64<K, V> {
    /// The index is well formed, and maps the codes of the keys one to one
    /// onto the positions of the values.
    pub closed spec fn wf(&self) -> bool {
        &&& self.map.wf()
        &&& self.map.view().dom().finite()
        &&& self.map.view().len() == self.elems@.len()
        &&& injective(self.map.view())
        &&& forall|c: u64| #[trigger]
            self.map.view().contains_key(c) ==> is_code::<K>(c) && self.map.view()[c]
                < self.elems@.len()
    }

    /// Inserting key `k` needs key and index widths that sum to at most
    /// 63 bits.
    pub closed spec fn insert_fits(&self, k: K) -> bool {
        k.spec_fits() && self.map.fits(k.spec_to_u64(), self.elems@.len() as usize)
    }

    /// The number of bits that each word of the index gives a key's code.
    pub closed spec fn key_width(&self) -> u8 {
        self.map.lay.key_bits
    }

    /// The number of bits that each word of the index gives one more than
    /// a value's position.
    pub closed spec fn index_width(&self) -> u8 {
        self.map.lay.elem_bits
    }

    /// Whether a key can be inserted depends on bit widths alone, never on
    /// how many entries the map holds: a key fits whenever the wider of its
    /// code's width and the key width, plus the wider of the next
    /// position's width and the index width, is at most 63 bits (and the
    /// next position, doubled, is a `usize`).
    pub proof fn law_insert_fits_by_widths(&self, k: K)
        requires
            self.wf(),
            k.spec_fits(),
            self@.len() < usize::MAX / 2,
            max_bits(bits_needed(k.spec_to_u64() as nat), self.key_width()) + max_bits(
                bits_needed((self@.len() + 1) as nat),
                self.index_width(),
            ) <= 63,
        ensures
            self.insert_fits(k),
    {
        self.lemma_view();
    }

    /// A map whose widths are at most 31 bits takes every key whose code
    /// is below `2^31` while it holds fewer than `2^31 - 1` entries.
    pub proof fn law_small_keys_fit(&self, k: K)
        requires
            self.wf(),
            k.spec_fits(),
            self.key_width() <= 31,
            self.index_width() <= 31,
            k.spec_to_u64() < 0x8000_0000,
            self@.len() + 1 < 0x8000_0000,
        ensures
            self.insert_fits(k),
    {
        self.lemma_view();
        vstd::arithmetic::power2::lemma2_to64();
        lemma_bits_below(k.spec_to_u64() as nat, 31);
        lemma_bits_below((self@.len() + 1) as nat, 31);
        assert(usize::MAX >= u32::MAX);
        self.law_insert_fits_by_widths(k);
    }

    proof fn lemma_view(&self)
        requires
            self.wf(),
        ensures
            self@.dom().finite(),
            self@.len() == self.elems@.len(),
    {
        let d = self.map.view().dom();
        assert(crate::u64set::all_codes_set::<K>(d));
        crate::u64set::lemma_decoded_set_len::<K>(d);
        assert(self@.dom() =~= crate::u64set::decoded_set::<K>(d));
    }

    /// Create an empty map
    pub fn new() -> (r: Map64<K, V>)
        ensures
            r.wf(),
            r@ == Map::<K, V>::empty(),
            r.key_width() == 0,
            r.index_width() == 0,
    {
        let r = Map64 { map: Map64U::new(), elems: Vec::new(), phantom: PhantomData };
        assert(r@ =~= Map::<K, V>::empty());
        r
    }

    /// Create an empty map
    pub fn default() -> (r: Map64<K, V>)
        ensures
            r.wf(),
            r@ == Map::<K, V>::empty(),
            r.key_width() == 0,
            r.index_width() == 0,
    {
        Map64::new()
    }

    /// How many elements
    pub fn len(&self) -> (r: usize)
        requires
            self.wf(),
        ensures
            r == self@.len(),
    {
        proof {
            self.lemma_view();
        }
        self.elems.len()
    }

    /// Whether key `k` can be inserted: the widths of its code and of
    /// the next index fit in 63 bits.
    pub fn fits(&self, k: K) -> (r: bool)
        requires
            self.wf(),
            k.spec_fits(),
        ensures
            r == self.insert_fits(k),
    {
        let c = k.to_u64();
        let n = self.elems.len();
        if n > (usize::MAX - 2) / 2 {
            return false;
        }
        let kb = log_2(c);
        let eb = log_2(n as u64 + 1);
        let kb = if kb > self.map.lay.key_bits {
            kb
        } else {
            self.map.lay.key_bits
        };
        let eb = if eb > self.map.lay.elem_bits {
            eb
        } else {
            self.map.lay.elem_bits
        };
        proof {
            lemma_bits_needed_u64(c);
            lemma_bits_needed_u64((n + 1) as u64);
        }
        (kb as u16) + (eb as u16) <= 63
    }

    /// Insert a value.
    pub fn insert(&mut self, k: K, v: V) -> (r: Option<V>)
        requires
            old(self).wf(),
            old(self).insert_fits(k),
        ensures
            final(self).wf(),
            final(self)@ == old(self)@.insert(k, v),
            final(self).key_width() == max_bits(bits_needed(k.spec_to_u64() as nat), old(self).key_width()),
            final(self).index_width() == max_bits(
                bits_needed((old(self)@.len() + 1) as nat),
                old(self).index_width(),
            ),
            r == (if old(self)@.contains_key(k) {
                Some(old(self)@[k])
            } else {
                None::<V>
            }),
    {
        let c = k.to_u64();
        let n = self.elems.len();
        proof {
            self.lemma_view();
            lemma_code_of(k, k);
        }
        match self.map.insert(c, n) {
            Some(i) => {
                self.elems.push(v);
                let prev = self.elems.swap_remove(i);
                proof {
                    let a = self@;
                    let b = old(self)@.insert(k, v);
                    assert forall|j: K| #[trigger] a.contains_key(j) <==> b.contains_key(j) by {
                        if j.spec_fits() {
                            lemma_code_of(j, k);
                        }
                    }
                    assert forall|j: K| #[trigger] a.contains_key(j) implies a[j] == b[j] by {
                        lemma_code_of(j, k);
                        if j != k {
                            assert(self.map.view()[j.spec_to_u64()] != self.map.view()[c]);
                        }
                    }
                    assert(a =~= b);
                }
                Some(prev)
            },
            None => {
                self.elems.push(v);
                proof {
                    let mv = self.map.view();
                    assert forall|c1: u64| #[trigger] mv.contains_key(c1) implies is_code::<K>(c1)
                        && mv[c1] < self.elems@.len() by {
                        if c1 != c {
                            assert(old(self).map.view().contains_key(c1));
                        }
                    }
                    assert forall|a: u64, b: u64| mv.contains_key(a) && mv.contains_key(b) && a != b implies #[trigger] mv[a] != #[trigger] mv[b] by {
                        if a != c && b != c {
                            assert(old(self).map.view()[a] != old(self).map.view()[b]);
                        } else if a == c {
                            assert(old(self).map.view().contains_key(b));
                        } else {
                            assert(old(self).map.view().contains_key(a));
                        }
                    }
                    let a = self@;
                    let b = old(self)@.insert(k, v);
                    assert forall|j: K| #[trigger] a.contains_key(j) <==> b.contains_key(j) by {
                        if j.spec_fits() {
                            lemma_code_of(j, k);
                        }
                    }
                    assert forall|j: K| #[trigger] a.contains_key(j) implies a[j] == b[j] by {
                        lemma_code_of(j, k);
                        if j != k {
                            assert(old(self).map.view().contains_key(j.spec_to_u64()));
                        }
                    }
                    assert(a =~= b);
                }
                None
            },
        }
    }

    /// Lookup a value
    pub fn get(&self, k: K) -> (r: Option<&V>)
        requires
            self.wf(),
            k.spec_fits(),
        ensures
            r == (if self@.contains_key(k) {
                Some(&self@[k])
            } else {
                None::<&V>
            }),
    {
        match self.map.get(k.to_u64()) {
            Some(i) => Some(&self.elems[i]),
            None => None,
        }
    }

    /// Does key exist
    pub fn contains_key(&self, k: K) -> (r: bool)
        requires
            self.wf(),
            k.spec_fits(),
        ensures
            r == self@.contains_key(k),
    {
        self.map.get(k.to_u64()).is_some()
    }

    /// remove element
    pub fn remove(&mut self, k: K) -> (r: Option<V>)
        requires
            old(self).wf(),
            k.spec_fits(),
        ensures
            final(self).wf(),
            final(self)@ == old(self)@.remove(k),
            final(self).key_width() == old(self).key_width(),
            final(self).index_width() == old(self).index_width(),
            r == (if old(self)@.contains_key(k) {
                Some(old(self)@[k])
            } else {
                None::<V>
            }),
    {
        let n = self.elems.len();
        if n == 0 {
            proof {
                assert(self.map.view() =~= Map::<u64, usize>::empty());
                assert(self@.remove(k) =~= self@);
            }
            return None;
        }
        let c = k.to_u64();
        proof {
            lemma_code_of(k, k);
        }
        match self.map.remove(c, n - 1) {
            Some(oldi) => {
                let prev = self.elems.swap_remove(oldi);
                proof {
                    let m0 = old(self).map.view();
                    let mv = self.map.view();
                    assert(mv == relabel(m0.remove(c), (n - 1) as usize, oldi));
                    m0.lemma_remove_key_len(c);
                    assert(mv.dom() =~= m0.remove(c).dom());
                    assert forall|c1: u64| #[trigger] mv.contains_key(c1) implies is_code::<K>(c1)
                        && mv[c1] < self.elems@.len() by {
                        assert(m0.contains_key(c1));
                        assert(m0[c1] != m0[c]);
                    }
                    assert forall|a: u64, b: u64| mv.contains_key(a) && mv.contains_key(b) && a != b implies #[trigger] mv[a] != #[trigger] mv[b] by {
                        assert(m0[a] != m0[b]);
                        assert(m0[a] != m0[c]);
                        assert(m0[b] != m0[c]);
                    }
                    let a = self@;
                    let b = old(self)@.remove(k);
                    assert forall|j: K| #[trigger] a.contains_key(j) <==> b.contains_key(j) by {
                        if j.spec_fits() {
                            lemma_code_of(j, k);
                        }
                    }
                    assert forall|j: K| #[trigger] a.contains_key(j) implies a[j] == b[j] by {
                        lemma_code_of(j, k);
                        let cj = j.spec_to_u64();
                        assert(m0[cj] != m0[c]);
                    }
                    assert(a =~= b);
                }
                Some(prev)
            },
            None => {
                proof {
                    assert(self@.remove(k) =~= self@) by {
                        if self@.contains_key(k) {
                            assert(false);
                        }
                    }
                    assert(old(self)@.remove(k) =~= old(self)@);
                }
                None
            },
        }
    }
}

} // verus!
