//! Values with an invalid marker, hashed with FNV-1a, and a set of them
//! in a Robin Hood table.
use vstd::prelude::*;
use crate::robin::{
    KeyHash, table_wf, contents, is_table_len, empty_table, lemma_empty_table, lemma_contents_finite,
    search, SearchResult, same_val, collect_valid, remove_at,
};
use crate::word::{next_power_of_two, is_next_pow2, into_boxed, lemma_table_len_max};
use fnv::FnvHasher;
use std::hash::Hasher;

verus! {

/// One step of FNV-1a: mix in a byte, then multiply by the FNV prime.
pub open spec fn fnv1a_step(h: u64, b: u8) -> u64 {
    (((h ^ (b as u64)) as int * 0x100000001b3int) % 0x1_0000_0000_0000_0000int) as u64
}

/// FNV-1a of `bytes`, starting from the state `h`.
pub open spec fn fnv1a_from(h: u64, bytes: Seq<u8>) -> u64
    decreases bytes.len(),
{
    if bytes.len() == 0 {
        h
    } else {
        fnv1a_from(fnv1a_step(h, bytes[0]), bytes.drop_first())
    }
}

/// The 64-bit FNV-1a hash of `bytes`.
pub open spec fn fnv1a(bytes: Seq<u8>) -> u64 {
    fnv1a_from(0xcbf29ce484222325u64, bytes)
}

/// Hashes `bytes` with a default `fnv::FnvHasher` (`Default::default`),
/// fed by `Hasher::write` and read by `Hasher::finish`.  The contract
/// claims what the crate's source shows: the hasher starts from the FNV
/// offset basis and each written byte is xored in and multiplied by the
/// FNV prime, wrapping.
#[verifier::external_body]
fn fnv_hash(bytes: &[u8]) -> (r: u64)
    ensures
        r == fnv1a(bytes@),
{
    let mut h: FnvHasher = Default::default();
    h.write(bytes);
    h.finish()
}

/// The little-endian bytes of the low `n` bytes of `x`.
pub open spec fn le_bytes(x: u64, n: nat) -> Seq<u8> {
    Seq::new(n, |i: int| ((x >> (8 * i) as u64) & 0xff) as u8)
}

/// Trait for any type that can be hashed to a `usize` and has an invalid
/// value.
pub trait HasInvalid: Copy + Eq {
    /// The hash that `hash_usize` gives.
    spec fn spec_hash_usize(self) -> usize;

    /// The value that `invalid` gives.
    spec fn spec_invalid() -> Self;

    /// Hash to a `usize`: FNV-1a of the value's bytes, as many as its
    /// type is wide, least significant first.
    fn hash_usize(self) -> (r: usize)
        ensures
            r == self.spec_hash_usize(),
    ;

    /// A unique invalid value for this type.  If you cannot identify
    /// an invalid value, then you don't get to use TinySet, since we
    /// would need to store an `Option<T>` which would probably double
    /// the size of the set.
    fn invalid() -> (r: Self)
        ensures
            r == Self::spec_invalid(),
    ;
}

/// Hashes the low `n` bytes of `x`, in little-endian order.
fn hash_low_bytes(x: u64, n: usize) -> (r: usize)
    requires
        n <= 8,
    ensures
        r == fnv1a(le_bytes(x, n as nat)) as usize,
{
    let mut bytes: Vec<u8> = Vec::with_capacity(n);
    let mut i: usize = 0;
    while i < n
        invariant
            i <= n <= 8,
            bytes@ == le_bytes(x, i as nat),
        decreases n - i,
    {
        let b = ((x >> (8 * i) as u64) & 0xff) as u8;
        bytes.push(b);
        i += 1;
        assert(bytes@ =~= le_bytes(x, i as nat));
    }
    fnv_hash(bytes.as_slice()) as usize
}

impl HasInvalid for usize {
    open spec fn spec_hash_usize(self) -> usize {
        fnv1a(le_bytes(self as u64, (usize::BITS / 8) as nat)) as usize
    }

    open spec fn spec_invalid() -> Self {
        usize::MAX
    }

    fn hash_usize(self) -> usize {
        proof {
            vstd::layout::unsigned_int_max_values();
        }
        hash_low_bytes(self as u64, (usize::BITS / 8) as usize)
    }

    fn invalid() -> Self {
        usize::MAX
    }
}

impl HasInvalid for u64 {
    open spec fn spec_hash_usize(self) -> usize {
        fnv1a(le_bytes(self, 8)) as usize
    }

    open spec fn spec_invalid() -> Self {
        u64::MAX
    }

    fn hash_usize(self) -> usize {
        hash_low_bytes(self, 8)
    }

    fn invalid() -> Self {
        u64::MAX
    }
}

impl HasInvalid for u32 {
    open spec fn spec_hash_usize(self) -> usize {
        fnv1a(le_bytes(self as u64, 4)) as usize
    }

    open spec fn spec_invalid() -> Self {
        u32::MAX
    }

    fn hash_usize(self) -> usize {
        hash_low_bytes(self as u64, 4)
    }

    fn invalid() -> Self {
        u32::MAX
    }
}

impl HasInvalid for u16 {
    open spec fn spec_hash_usize(self) -> usize {
        fnv1a(le_bytes(self as u64, 2)) as usize
    }

    open spec fn spec_invalid() -> Self {
        u16::MAX
    }

    fn hash_usize(self) -> usize {
        hash_low_bytes(self as u64, 2)
    }

    fn invalid() -> Self {
        u16::MAX
    }
}

impl HasInvalid for u8 {
    open spec fn spec_hash_usize(self) -> usize {
        fnv1a(le_bytes(self as u64, 1)) as usize
    }

    open spec fn spec_invalid() -> Self {
        u8::MAX
    }

    fn hash_usize(self) -> usize {
        hash_low_bytes(self as u64, 1)
    }

    fn invalid() -> Self {
        u8::MAX
    }
}

/// Hashing by `HasInvalid::hash_usize`.
pub struct FnvHash;

impl<T: HasInvalid> KeyHash<T> for FnvHash {
    open spec fn spec_hash(x: T) -> usize {
        x.spec_hash_usize()
    }

    fn hash(x: T) -> usize {
        x.hash_usize()
    }
}

/// The largest number of elements a `TinySet` sizes its table for.
pub open spec fn tiny_max_capacity() -> int {
    usize::MAX as int / 22
}

/// The table size for `cap` elements: the power of two at or above `cap`
/// for up to four elements, and at or above `cap * 22 / 10` beyond.
pub fn capacity_to_rawcapacity(cap: usize) -> (r: usize)
    requires
        cap <= tiny_max_capacity(),
    ensures
        cap <= 4 ==> is_next_pow2(cap as int, r as int),
        cap > 4 ==> is_next_pow2(cap * 22 / 10, r as int),
        cap <= r,
{
    proof {
        vstd::arithmetic::power2::lemma2_to64();
        vstd::arithmetic::power2::lemma2_to64_rest();
        vstd::layout::unsigned_int_max_values();
        assert(usize::BITS == 32 || usize::BITS == 64);
    }
    if cap <= 4 {
        next_power_of_two(cap)
    } else {
        next_power_of_two(cap * 22 / 10)
    }
}

#[derive(Debug)]
enum Data<T: HasInvalid> {
    Sm(u32, [T; 2]),
    V(u32, Box<[T]>),
}

/// A set implemented for types that have an invalid value: a Robin Hood
/// hash table, hashed with FNV-1a, whose smallest size is kept inline.
#[derive(Debug)]
pub struct TinySet<T: HasInvalid> {
    v: Data<T>,
}

impl<T: HasInvalid> TinySet<T> {
    /// The slots of the table.
    pub closed spec fn slots(&self) -> Seq<T> {
        match self.v {
            Data::Sm(_, a) => a@,
            Data::V(_, b) => b@,
        }
    }

    /// The number of elements the table records.
    pub closed spec fn count(&self) -> int {
        match self.v {
            Data::Sm(sz, _) => sz as int,
            Data::V(sz, _) => sz as int,
        }
    }
}

impl<T: HasInvalid> View for TinySet<T> {
    type V = Set<T>;

    closed spec fn view(&self) -> Set<T> {
        contents(self.slots(), T::spec_invalid())
    }
}

impl<T: HasInvalid> TinySet<T> {
    /// The table is a well-formed Robin Hood table that records how many
    /// elements it holds.
    pub closed spec fn wf(&self) -> bool {
        &&& vstd::laws_eq::obeys_concrete_eq::<T>()
        &&& table_wf::<T, FnvHash>(self.slots(), T::spec_invalid())
        &&& self.count() == contents(self.slots(), T::spec_invalid()).len()
    }

    proof fn lemma_len(&self)
        requires
            self.wf(),
        ensures
            self@.finite(),
            self@.len() == self.count(),
            self.count() <= self.slots().len(),
            self.slots().len() <= usize::MAX,
    {
        lemma_contents_finite(self.slots(), T::spec_invalid());
        lemma_table_len_max(self.slots().len() as int);
    }

    /// Creates an empty set..
    pub fn default() -> (s: TinySet<T>)
        requires
            vstd::laws_eq::obeys_concrete_eq::<T>(),
        ensures
            s.wf(),
            s@ == Set::<T>::empty(),
    {
        TinySet::with_capacity(0)
    }

    /// Creates an empty set..
    pub fn new() -> (s: TinySet<T>)
        requires
            vstd::laws_eq::obeys_concrete_eq::<T>(),
        ensures
            s.wf(),
            s@ == Set::<T>::empty(),
    {
        TinySet::with_capacity(0)
    }

    /// Creates an empty set with the specified capacity.
    pub fn with_capacity(cap: usize) -> (s: TinySet<T>)
        requires
            vstd::laws_eq::obeys_concrete_eq::<T>(),
            cap <= tiny_max_capacity(),
        ensures
            s.wf(),
            s@ == Set::<T>::empty(),
            s.slots().len() >= cap,
    {
        if cap <= 2 {
            let a = [T::invalid(); 2];
            let s = TinySet { v: Data::Sm(0, a) };
            proof {
                vstd::arithmetic::power2::lemma2_to64();
                assert(is_table_len(2)) by {
                    assert(1 < usize::BITS && 2 == vstd::arithmetic::power2::pow2(1));
                }
                lemma_empty_table::<T, FnvHash>(s.slots(), T::spec_invalid());
            }
            s
        } else {
            let cap = capacity_to_rawcapacity(cap);
            let b = empty_table(T::invalid(), cap);
            proof {
                lemma_empty_table::<T, FnvHash>(b@, T::spec_invalid());
            }
            TinySet { v: Data::V(0, into_boxed(b)) }
        }
    }

    /// Returns the number of elements in the set.
    pub fn len(&self) -> (r: usize)
        requires
            self.wf(),
        ensures
            r == self@.len(),
    {
        proof {
            self.lemma_len();
        }
        match &self.v {
            Data::Sm(sz, _) => *sz as usize,
            Data::V(sz, _) => *sz as usize,
        }
    }

    /// The number of slots of the table.
    fn rawlen(&self) -> (r: usize)
        ensures
            r == self.slots().len(),
    {
        match &self.v {
            Data::Sm(_, a) => 2,
            Data::V(_, b) => b.len(),
        }
    }

    /// Reserves capacity for at least `additional` more elements to be
    /// inserted in the set. The collection may reserve more space
    /// to avoid frequent reallocations.
    pub fn reserve(&mut self, additional: usize)
        requires
            old(self).wf(),
            old(self)@.len() + additional <= tiny_max_capacity(),
        ensures
            final(self).wf(),
            final(self)@ == old(self)@,
            final(self).slots().len() >= final(self)@.len() + additional,
    {
        proof {
            self.lemma_len();
        }
        let cap = capacity_to_rawcapacity(self.len() + additional);
        if cap > self.rawlen() {
            let items = self.iter();
            let invalid = T::invalid();
            let mut nv = empty_table(invalid, cap);
            proof {
                lemma_empty_table::<T, FnvHash>(nv@, invalid);
                assert(items@.take(0).to_set() =~= Set::<T>::empty());
            }
            let mut k: usize = 0;
            while k < items.len()
                invariant
                    vstd::laws_eq::obeys_concrete_eq::<T>(),
                    invalid == T::spec_invalid(),
                    items@.no_duplicates(),
                    items@.to_set() == old(self)@,
                    items@.len() == old(self)@.len(),
                    !old(self)@.contains(invalid),
                    cap >= old(self)@.len() + additional,
                    k <= items@.len(),
                    nv@.len() == cap,
                    table_wf::<T, FnvHash>(nv@, invalid),
                    contents(nv@, invalid) == items@.take(k as int).to_set(),
                    contents(nv@, invalid).len() == k,
                decreases items@.len() - k,
            {
                let e = items[k];
                proof {
                    let t = items@.take(k as int);
                    assert(items@.take(k + 1) =~= t.push(e));
                    t.lemma_push_to_set_commute(e);
                    assert(!t.contains(e)) by {
                        if t.contains(e) {
                            let j = choose|j: int| 0 <= j < t.len() && t[j] == e;
                            assert(items@[j] != items@[k as int]);
                        }
                    }
                    assert(items@.to_set().contains(e));
                    lemma_contents_finite(nv@, invalid);
                }
                crate::robin::insert::<T, FnvHash>(nv.as_mut_slice(), e, invalid);
                proof {
                    lemma_contents_finite(nv@, invalid);
                }
                k += 1;
            }
            proof {
                assert(items@.take(items@.len() as int) =~= items@);
                lemma_contents_finite(nv@, invalid);
            }
            let sz = self.len() as u32;
            self.v = Data::V(sz, into_boxed(nv));
        }
    }

    fn insert_unchecked(&mut self, elem: T) -> (added: bool)
        requires
            old(self).wf(),
            elem != T::spec_invalid(),
            old(self)@.len() < old(self).slots().len(),
            old(self)@.len() < u32::MAX,
        ensures
            final(self).wf(),
            final(self)@ == old(self)@.insert(elem),
            final(self).slots().len() == old(self).slots().len(),
            added == !old(self)@.contains(elem),
    {
        proof {
            self.lemma_len();
            lemma_contents_finite(self.slots(), T::spec_invalid());
        }
        let invalid = T::invalid();
        match &mut self.v {
            Data::Sm(sz, a) => {
                let added = crate::robin::insert::<T, FnvHash>(a, elem, invalid);
                if added {
                    *sz = *sz + 1;
                }
                proof {
                    lemma_contents_finite(a@, invalid);
                }
                added
            },
            Data::V(sz, b) => {
                let added = crate::robin::insert::<T, FnvHash>(b, elem, invalid);
                if added {
                    *sz = *sz + 1;
                }
                proof {
                    lemma_contents_finite(b@, invalid);
                }
                added
            },
        }
    }

    /// Adds a value to the set.
    ///
    /// If the set did not have this value present, `true` is returned.
    ///
    /// If the set did have this value present, `false` is returned.
    pub fn insert(&mut self, elem: T) -> (added: bool)
        requires
            old(self).wf(),
            elem != T::spec_invalid(),
            old(self)@.len() < tiny_max_capacity(),
            old(self)@.len() < u32::MAX,
        ensures
            final(self).wf(),
            final(self)@ == old(self)@.insert(elem),
            added == !old(self)@.contains(elem),
    {
        proof {
            vstd::layout::unsigned_int_max_values();
        }
        self.reserve(1);
        self.insert_unchecked(elem)
    }

    /// Returns true if the set contains a value.
    pub fn contains(&self, value: &T) -> (r: bool)
        requires
            self.wf(),
        ensures
            r == self@.contains(*value),
    {
        let invalid = T::invalid();
        if same_val(value, &invalid) {
            return false;
        }
        let found = match &self.v {
            Data::Sm(_, a) => search::<T, FnvHash>(a, *value, invalid),
            Data::V(_, b) => search::<T, FnvHash>(b, *value, invalid),
        };
        match found {
            SearchResult::Present(_) => true,
            SearchResult::Empty(_) => false,
            SearchResult::Richer(_) => false,
        }
    }

    /// Removes an element, and returns true if that element was present.
    pub fn remove(&mut self, value: &T) -> (r: bool)
        requires
            old(self).wf(),
        ensures
            final(self).wf(),
            final(self)@ == old(self)@.remove(*value),
            r == old(self)@.contains(*value),
    {
        let invalid = T::invalid();
        if same_val(value, &invalid) {
            proof {
                assert(self@.remove(*value) =~= self@);
            }
            return false;
        }
        proof {
            self.lemma_len();
        }
        match &mut self.v {
            Data::Sm(sz, a) => {
                match search::<T, FnvHash>(a, *value, invalid) {
                    SearchResult::Present(i) => {
                        proof {
                            assert(a@.contains(*value));
                        }
                        remove_at::<T, FnvHash>(a, i, invalid);
                        *sz = *sz - 1;
                        proof {
                            lemma_contents_finite(a@, invalid);
                        }
                        true
                    },
                    _ => {
                        proof {
                            assert(contents(a@, invalid).remove(*value) =~= contents(a@, invalid));
                        }
                        false
                    },
                }
            },
            Data::V(sz, b) => {
                match search::<T, FnvHash>(b, *value, invalid) {
                    SearchResult::Present(i) => {
                        proof {
                            assert(b@.contains(*value));
                        }
                        remove_at::<T, FnvHash>(b, i, invalid);
                        *sz = *sz - 1;
                        proof {
                            lemma_contents_finite(b@, invalid);
                        }
                        true
                    },
                    _ => {
                        proof {
                            assert(contents(b@, invalid).remove(*value) =~= contents(b@, invalid));
                        }
                        false
                    },
                }
            },
        }
    }

    /// Returns the elements of the set, in table order.
    pub fn iter(&self) -> (r: Vec<T>)
        requires
            self.wf(),
        ensures
            r@.to_set() == self@,
            r@.no_duplicates(),
            r@.len() == self@.len(),
    {
        match &self.v {
            Data::Sm(_, a) => collect_valid(a, T::invalid()),
            Data::V(_, b) => collect_valid(b, T::invalid()),
        }
    }

    /// Clears the set, returning all elements.
    pub fn drain(&mut self) -> (r: Vec<T>)
        requires
            old(self).wf(),
        ensures
            final(self).wf(),
            final(self)@ == Set::<T>::empty(),
            r@.to_set() == old(self)@,
            r@.no_duplicates(),
            r@.len() == old(self)@.len(),
    {
        let r = self.iter();
        *self = TinySet::new();
        r
    }
}

} // verus!
