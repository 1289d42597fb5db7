//! A set of values that convert cheaply to a `usize`, stored in a Robin
//! Hood hash table that uses the converted value as its hash.
use vstd::prelude::*;
use vstd::arithmetic::power2::pow2;
use crate::robin::{
    KeyHash, SearchResult, table_wf, contents, contents_upto, is_table_len, empty_table,
    lemma_empty_table, lemma_contents_finite, lemma_contents_upto_step, lemma_bit_length,
    lemma_shl_table_len,
    same_val, no_dup, lemma_place, lemma_clear_all, probe_clear, home, pdist, steal_state, lemma_steal_step, collect_valid,
};

verus! {

/// Trait for any type that can be converted to a `usize`.  This could
/// actually be a hash function, but we will assume that it is *fast*,
/// so it is not called `Hash`.
pub trait Cast: Copy + Eq {
    /// The `usize` that `cast` gives.
    spec fn spec_cast(self) -> usize;

    /// The value that `invalid` gives.
    spec fn spec_invalid() -> Self;

    /// Convert to a `usize`.
    fn cast(self) -> (r: usize)
        ensures
            r == self.spec_cast(),
    ;

    /// A unique invalid value for this type.  If you cannot identify
    /// an invalid value, then you don't get to use `CastSet`, since we
    /// would need to store an `Option<T>` which would probably double
    /// the size of the set.
    fn invalid() -> (r: Self)
        ensures
            r == Self::spec_invalid(),
    ;
}

impl Cast for usize {
    open spec fn spec_cast(self) -> usize {
        self
    }

    open spec fn spec_invalid() -> Self {
        usize::MAX
    }

    fn cast(self) -> usize {
        self
    }

    fn invalid() -> Self {
        usize::MAX
    }
}

impl Cast for u64 {
    open spec fn spec_cast(self) -> usize {
        self as usize
    }

    open spec fn spec_invalid() -> Self {
        u64::MAX
    }

    fn cast(self) -> usize {
        self as usize
    }

    fn invalid() -> Self {
        u64::MAX
    }
}

impl Cast for u32 {
    open spec fn spec_cast(self) -> usize {
        self as usize
    }

    open spec fn spec_invalid() -> Self {
        u32::MAX
    }

    fn cast(self) -> usize {
        self as usize
    }

    fn invalid() -> Self {
        u32::MAX
    }
}

impl Cast for u16 {
    open spec fn spec_cast(self) -> usize {
        self as usize
    }

    open spec fn spec_invalid() -> Self {
        u16::MAX
    }

    fn cast(self) -> usize {
        self as usize
    }

    fn invalid() -> Self {
        u16::MAX
    }
}

impl Cast for u8 {
    open spec fn spec_cast(self) -> usize {
        self as usize
    }

    open spec fn spec_invalid() -> Self {
        u8::MAX
    }

    fn cast(self) -> usize {
        self as usize
    }

    fn invalid() -> Self {
        u8::MAX
    }
}

/// Only the largest value of each unsigned type marks an empty slot of a
/// `CastSet` or an `OptCastSet`; every other value, zero included, is an
/// ordinary element.
pub proof fn law_cast_invalid_is_largest()
    ensures
        <usize as Cast>::spec_invalid() == usize::MAX,
        <u64 as Cast>::spec_invalid() == u64::MAX,
        <u32 as Cast>::spec_invalid() == u32::MAX,
        <u16 as Cast>::spec_invalid() == u16::MAX,
        <u8 as Cast>::spec_invalid() == u8::MAX,
{
}

/// Hashing by `Cast::cast`.
pub struct CastHash;

impl<T: Cast> KeyHash<T> for CastHash {
    open spec fn spec_hash(x: T) -> usize {
        x.spec_cast()
    }

    fn hash(x: T) -> usize {
        x.cast()
    }
}

/// The largest number of elements whose table size can be computed.
pub open spec fn max_capacity() -> int {
    usize::MAX as int / 11
}

/// The power of two of the table for `cap` elements: the number of
/// significant bits of `cap * 11 / 10`, which gives a bit of space.
pub open spec fn spec_capacity_to_power(cap: usize) -> int {
    64 - vstd::std_specs::bits::u64_leading_zeros(((cap as int * 11) / 10) as u64)
}

pub(crate) fn capacity_to_power(cap: usize) -> (pow: u8)
    requires
        cap <= max_capacity(),
    ensures
        pow == spec_capacity_to_power(cap),
        pow < usize::BITS,
        (cap as int * 11) / 10 < pow2(pow as nat),
        cap < pow2(pow as nat),
{
    let cap = cap * 11 / 10;
    let lz = (cap as u64).leading_zeros();
    proof {
        lemma_bit_length(cap as u64);
        vstd::layout::unsigned_int_max_values();
        vstd::arithmetic::power2::lemma_pow2_adds((usize::BITS - 1) as nat, 1);
        vstd::arithmetic::power2::lemma2_to64();
        if 64 - lz >= usize::BITS {
            vstd::arithmetic::power2::lemma_pow2_strictly_increases(
                (usize::BITS - 1) as nat,
                (63 - lz) as nat,
            );
            if 64 - lz == usize::BITS {
            }
        }
    }
    (64 - lz) as u8
}

/// A set implemented for types that can be cast to usize
#[derive(Debug)]
pub struct CastSet<T: Cast> {
    v: Vec<T>,
    poweroftwo: u8,
    sz: usize,
}

impl<T: Cast> View for CastSet<T> {
    type V = Set<T>;

    closed spec fn view(&self) -> Set<T> {
        contents(self.v@, T::spec_invalid())
    }
}

/// In a `CastSet<usize>`, every value below `usize::MAX`, zero included,
/// meets what `insert` asks of its element: inserting it into a set that
/// has room leaves a set that contains it beside all it held.  The largest
/// value is never an element.
pub proof fn law_castset_usize_elements(s: CastSet<usize>, x: usize)
    requires
        s.wf(),
        x < usize::MAX,
    ensures
        x != <usize as Cast>::spec_invalid(),
        !s@.contains(usize::MAX),
        forall|y: usize| s@.contains(y) ==> #[trigger] s@.insert(x).contains(y) && y < usize::MAX,
        s@.insert(x).contains(x),
{
}

impl<T: Cast> CastSet<T> {
    /// The set is well formed: a Robin Hood table of `2^poweroftwo`
    /// slots with at least one empty slot, holding `sz` values.
    pub closed spec fn wf(&self) -> bool {
        &&& vstd::laws_eq::obeys_concrete_eq::<T>()
        &&& self.poweroftwo < usize::BITS
        &&& self.v@.len() == pow2(self.poweroftwo as nat)
        &&& table_wf::<T, CastHash>(self.v@, T::spec_invalid())
        &&& self.sz == contents(self.v@, T::spec_invalid()).len()
        &&& self.sz < self.v@.len()
    }

    /// The number of slots of the table.
    pub closed spec fn slots(&self) -> nat {
        self.v@.len()
    }

    /// Creates an empty set..
    pub fn new() -> (s: CastSet<T>)
        requires
            vstd::laws_eq::obeys_concrete_eq::<T>(),
        ensures
            s.wf(),
            s@ == Set::<T>::empty(),
    {
        CastSet::with_capacity(0)
    }

    /// Creates an empty set with the specified capacity.
    pub fn with_capacity(cap: usize) -> (s: CastSet<T>)
        requires
            vstd::laws_eq::obeys_concrete_eq::<T>(),
            cap <= max_capacity(),
        ensures
            s.wf(),
            s@ == Set::<T>::empty(),
            s.slots() > cap,
    {
        let pow = capacity_to_power(cap);
        proof {
            lemma_shl_table_len(pow as usize);
            vstd::arithmetic::power2::lemma_pow2_pos(pow as nat);
        }
        let cap: usize = 1usize << (pow as usize);
        let v = empty_table(T::invalid(), cap);
        proof {
            assert(is_table_len(v@.len() as int));
            lemma_empty_table::<T, CastHash>(v@, T::spec_invalid());
        }
        CastSet { poweroftwo: pow, v, sz: 0 }
    }

    /// Returns the number of elements in the set.
    pub fn len(&self) -> (r: usize)
        requires
            self.wf(),
        ensures
            r == self@.len(),
    {
        self.sz
    }

    /// Reserves capacity for at least `additional` more elements to be
    /// inserted in the set. The collection may reserve more space
    /// to avoid frequent reallocations.
    pub fn reserve(&mut self, additional: usize)
        requires
            old(self).wf(),
            old(self)@.len() + additional <= max_capacity(),
        ensures
            final(self).wf(),
            final(self)@ == old(self)@,
            final(self).slots() > final(self)@.len() + additional,
    {
        let pow = capacity_to_power(self.sz + additional);
        if pow > self.poweroftwo {
            proof {
                lemma_shl_table_len(pow as usize);
                vstd::arithmetic::power2::lemma_pow2_pos(pow as nat);
            }
            let cap: usize = 1usize << (pow as usize);
            let invalid = T::invalid();
            let mut oldv = empty_table(invalid, cap);
            std::mem::swap(&mut self.v, &mut oldv);
            self.poweroftwo = pow;
            self.sz = 0;
            let ghost old_set = contents(oldv@, invalid);
            proof {
                assert(is_table_len(self.v@.len() as int));
                lemma_empty_table::<T, CastHash>(self.v@, invalid);
                lemma_contents_finite(oldv@, invalid);
                lemma_contents_upto_step(oldv@, invalid, 0);
            }
            let mut k: usize = 0;
            while k < oldv.len()
                invariant
                    vstd::laws_eq::obeys_concrete_eq::<T>(),
                    invalid == T::spec_invalid(),
                    k <= oldv@.len(),
                    self.poweroftwo == pow,
                    pow < usize::BITS,
                    self.v@.len() == pow2(pow as nat),
                    self.v@.len() == cap,
                    cap > old_set.len() + additional,
                    old_set == contents(oldv@, invalid),
                    old_set.finite(),
                    no_dup(oldv@, invalid),
                    table_wf::<T, CastHash>(self.v@, invalid),
                    contents(self.v@, invalid) == contents_upto(oldv@, invalid, k as int),
                    self.sz == contents(self.v@, invalid).len(),
                decreases oldv@.len() - k,
            {
                let e = oldv[k];
                proof {
                    lemma_contents_upto_step(oldv@, invalid, k as int);
                    vstd::set_lib::lemma_len_subset(contents_upto(oldv@, invalid, k as int), old_set);
                    lemma_contents_finite(self.v@, invalid);
                }
                if !same_val(&e, &invalid) {
                    proof {
                        if contents_upto(oldv@, invalid, k as int).contains(e) {
                            let a = choose|a: int| 0 <= a < k && oldv@[a] == e;
                            assert(oldv@[k as int] != oldv@[a]);
                        }
                    }
                    let added = crate::robin::insert::<T, CastHash>(self.v.as_mut_slice(), e, invalid);
                    assert(added);
                    self.sz += 1;
                }
                k += 1;
            }
            proof {
                lemma_contents_upto_step(oldv@, invalid, 0);
                if oldv@.len() > 0 {
                    lemma_contents_upto_step(oldv@, invalid, (oldv@.len() - 1) as int);
                }
            }
        }
        proof {
            lemma_contents_finite(self.v@, T::spec_invalid());
            if pow < self.poweroftwo {
                vstd::arithmetic::power2::lemma_pow2_strictly_increases(pow as nat, self.poweroftwo as nat);
            }
        }
    }

    /// Adds a value to the set.
    ///
    /// If the set did not have this value present, `true` is returned.
    ///
    /// If the set did have this value present, `false` is returned.
    pub fn insert(&mut self, elem: T) -> (added: bool)
        requires
            old(self).wf(),
            elem != T::spec_invalid(),
            old(self)@.len() < max_capacity(),
        ensures
            final(self).wf(),
            final(self)@ == old(self)@.insert(elem),
            added == !old(self)@.contains(elem),
    {
        self.reserve(1);
        let ghost s = self.v@;
        let ghost n = self.v@.len() as int;
        let ghost invalid = T::spec_invalid();
        proof {
            lemma_contents_finite(s, invalid);
        }
        match self.search(elem) {
            SearchResult::Present(i) => {
                proof {
                    assert(s[i as int] == elem);
                    assert(self@.insert(elem) =~= self@);
                }
                false
            },
            SearchResult::Empty(i) => {
                proof {
                    lemma_place::<T, CastHash>(s, invalid, elem, i as int);
                }
                self.v.set(i, elem);
                self.sz += 1;
                proof {
                    lemma_contents_finite(self.v@, invalid);
                }
                true
            },
            SearchResult::Richer(i) => {
                proof {
                    if probe_clear::<T, CastHash>(s, invalid, elem, n) && i == home::<T, CastHash>(elem, n) {
                        lemma_clear_all::<T, CastHash>(s, invalid, elem);
                    }
                    lemma_place::<T, CastHash>(s, invalid, elem, i as int);
                }
                let displaced = self.v[i];
                self.v.set(i, elem);
                proof {
                    let e = choose|e: int| 0 <= e < n && s[e] == invalid;
                    assert(self.v@[e] == invalid);
                    assert(steal_state::<T, CastHash>(self.v@, invalid, displaced, i as int, e));
                }
                self.steal(i, displaced);
                self.sz += 1;
                proof {
                    lemma_contents_finite(self.v@, invalid);
                }
                true
            },
        }
    }

    /// Returns true if the set contains a value.
    pub fn contains(&self, value: &T) -> (r: bool)
        requires
            self.wf(),
        ensures
            r == self@.contains(*value),
    {
        let invalid = T::invalid();
        if same_val(value, &invalid) {
            return false;
        }
        match self.search(*value) {
            SearchResult::Present(_) => true,
            SearchResult::Empty(_) => false,
            SearchResult::Richer(_) => false,
        }
    }

    /// Removes an element, and returns true if that element was present.
    pub fn remove(&mut self, value: &T) -> (r: bool)
        requires
            old(self).wf(),
        ensures
            final(self).wf(),
            final(self)@ == old(self)@.remove(*value),
            r == old(self)@.contains(*value),
    {
        let invalid = T::invalid();
        if same_val(value, &invalid) {
            proof {
                assert(self@.remove(*value) =~= self@);
            }
            return false;
        }
        match self.search(*value) {
            SearchResult::Present(i) => {
                proof {
                    lemma_contents_finite(self.v@, invalid);
                    assert(self.v@[i as int] == *value);
                    assert(self@.contains(*value));
                }
                self.sz -= 1;
                crate::robin::remove_at::<T, CastHash>(self.v.as_mut_slice(), i, invalid);
                proof {
                    lemma_contents_finite(self.v@, invalid);
                }
                true
            },
            SearchResult::Empty(_) => {
                proof {
                    assert(self@.remove(*value) =~= self@);
                }
                false
            },
            SearchResult::Richer(_) => {
                proof {
                    assert(self@.remove(*value) =~= self@);
                }
                false
            },
        }
    }

    /// Returns the elements of the set, in table order.
    pub fn iter(&self) -> (r: Vec<T>)
        requires
            self.wf(),
        ensures
            r@.to_set() == self@,
            r@.no_duplicates(),
            r@.len() == self@.len(),
    {
        collect_valid(self.v.as_slice(), T::invalid())
    }

    /// Clears the set, returning all elements.
    pub fn drain(&mut self) -> (r: Vec<T>)
        requires
            old(self).wf(),
        ensures
            final(self).wf(),
            final(self)@ == Set::<T>::empty(),
            r@.to_set() == old(self)@,
            r@.no_duplicates(),
            r@.len() == old(self)@.len(),
    {
        let mut set = CastSet::new();
        std::mem::swap(self, &mut set);
        collect_valid(set.v.as_slice(), T::invalid())
    }

    fn steal(&mut self, i: usize, elem: T)
        requires
            vstd::laws_eq::obeys_concrete_eq::<T>(),
            exists|e: int| steal_state::<T, CastHash>(old(self).v@, T::spec_invalid(), elem, i as int, e),
            old(self).poweroftwo < usize::BITS,
            old(self).v@.len() == pow2(old(self).poweroftwo as nat),
        ensures
            final(self).v@.len() == old(self).v@.len(),
            final(self).poweroftwo == old(self).poweroftwo,
            final(self).sz == old(self).sz,
            table_wf::<T, CastHash>(final(self).v@, T::spec_invalid()),
            contents(final(self).v@, T::spec_invalid()) == contents(old(self).v@, T::spec_invalid()).insert(elem),
    {
        let ghost invalid = T::spec_invalid();
        let ghost n = self.v@.len() as int;
        let ghost target = contents(self.v@, invalid).insert(elem);
        let ghost e = choose|e: int| steal_state::<T, CastHash>(self.v@, invalid, elem, i as int, e);
        let mut i = i;
        let mut cur = elem;
        loop
            invariant
                vstd::laws_eq::obeys_concrete_eq::<T>(),
                invalid == T::spec_invalid(),
                self.v@.len() == n,
                n == old(self).v@.len(),
                target == contents(old(self).v@, invalid).insert(elem),
                self.poweroftwo == old(self).poweroftwo,
                self.sz == old(self).sz,
                self.poweroftwo < usize::BITS,
                n == pow2(self.poweroftwo as nat),
                steal_state::<T, CastHash>(self.v@, invalid, cur, i as int, e),
                contents(self.v@, invalid).insert(cur) == target,
            decreases pdist(e, i as int, n),
        {
            let ghost s = self.v@;
            match self.search_from(i, cur) {
                SearchResult::Present(_) => return,
                SearchResult::Empty(j) => {
                    proof {
                        lemma_place::<T, CastHash>(s, invalid, cur, j as int);
                    }
                    self.v.set(j, cur);
                    return;
                },
                SearchResult::Richer(inew) => {
                    proof {
                        lemma_steal_step::<T, CastHash>(s, invalid, cur, i as int, inew, e);
                    }
                    let displaced = self.v[inew];
                    self.v.set(inew, cur);
                    cur = displaced;
                    i = inew;
                },
            }
        }
    }

    fn search(&self, elem: T) -> (r: SearchResult)
        requires
            self.wf(),
            elem != T::spec_invalid(),
        ensures
            crate::robin::search_ok::<T, CastHash>(self.v@, T::spec_invalid(), elem, 0, r),
    {
        crate::robin::search::<T, CastHash>(self.v.as_slice(), elem, T::invalid())
    }

    fn search_from(&self, i_start: usize, elem: T) -> (r: SearchResult)
        requires
            vstd::laws_eq::obeys_concrete_eq::<T>(),
            table_wf::<T, CastHash>(self.v@, T::spec_invalid()),
            elem != T::spec_invalid(),
            i_start < self.v@.len(),
            probe_clear::<T, CastHash>(
                self.v@,
                T::spec_invalid(),
                elem,
                pdist(i_start as int, home::<T, CastHash>(elem, self.v@.len() as int), self.v@.len() as int),
            ),
        ensures
            crate::robin::search_ok::<T, CastHash>(
                self.v@,
                T::spec_invalid(),
                elem,
                pdist(i_start as int, home::<T, CastHash>(elem, self.v@.len() as int), self.v@.len() as int),
                r,
            ),
    {
        crate::robin::search_from::<T, CastHash>(self.v.as_slice(), i_start, elem, T::invalid())
    }
}

} // verus!
