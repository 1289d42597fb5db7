//! A set of values that convert cheaply to a `usize`, which keeps tables
//! of two and four slots inline and larger tables on the heap.
use vstd::prelude::*;
use vstd::arithmetic::power2::pow2;
use crate::castset::{Cast, CastHash, max_capacity, spec_capacity_to_power};
use crate::robin::{
    SearchResult, table_wf, contents, is_table_len, empty_table, lemma_empty_table,
    lemma_contents_finite, lemma_bit_length, lemma_shl_table_len, same_val, collect_valid,
    search_ok, probe_clear, home, pdist, steal_state,
};

verus! {

/// A set implemented for types that can be cast to usize
#[derive(Debug)]
pub struct OptCastSet<T: Cast> {
    inner: OCS<T>,
}

#[derive(Debug)]
#[allow(inconsistent_fields)]
enum OCS<T: Cast> {
    Pow1 { sz: u8, v: [T; 2] },
    Pow2 { sz: u8, v: [T; 4] },
    Vec { v: Vec<T>, poweroftwo: u8, sz: usize },
}

fn capacity_to_power(cap: usize) -> (pow: u8)
    requires
        cap <= max_capacity(),
    ensures
        pow == spec_capacity_to_power(cap),
        pow < usize::BITS,
        (cap as int * 11) / 10 < pow2(pow as nat),
        cap < pow2(pow as nat),
{
    let bits: u32 = 64;
    let cap = cap * 11 / 10;
    let lz = (cap as u64).leading_zeros();
    proof {
        lemma_bit_length(cap as u64);
        vstd::layout::unsigned_int_max_values();
        vstd::arithmetic::power2::lemma_pow2_adds((usize::BITS - 1) as nat, 1);
        vstd::arithmetic::power2::lemma2_to64();
        if 64 - lz >= usize::BITS {
            vstd::arithmetic::power2::lemma_pow2_strictly_increases(
                (usize::BITS - 1) as nat,
                (63 - lz) as nat,
            );
        }
    }
    (bits - lz) as u8
}

fn search_from<T: Cast>(v: &[T], i_start: usize, elem: T) -> (r: SearchResult)
    requires
        vstd::laws_eq::obeys_concrete_eq::<T>(),
        table_wf::<T, CastHash>(v@, T::spec_invalid()),
        elem != T::spec_invalid(),
        i_start < v@.len(),
        probe_clear::<T, CastHash>(
            v@,
            T::spec_invalid(),
            elem,
            pdist(i_start as int, home::<T, CastHash>(elem, v@.len() as int), v@.len() as int),
        ),
    ensures
        search_ok::<T, CastHash>(
            v@,
            T::spec_invalid(),
            elem,
            pdist(i_start as int, home::<T, CastHash>(elem, v@.len() as int), v@.len() as int),
            r,
        ),
{
    crate::robin::search_from::<T, CastHash>(v, i_start, elem, T::invalid())
}

fn search<T: Cast>(v: &[T], elem: T) -> (r: SearchResult)
    requires
        vstd::laws_eq::obeys_concrete_eq::<T>(),
        table_wf::<T, CastHash>(v@, T::spec_invalid()),
        elem != T::spec_invalid(),
    ensures
        search_ok::<T, CastHash>(v@, T::spec_invalid(), elem, 0, r),
{
    crate::robin::search::<T, CastHash>(v, elem, T::invalid())
}

fn insert<T: Cast>(v: &mut [T], elem: T) -> (added: bool)
    requires
        vstd::laws_eq::obeys_concrete_eq::<T>(),
        table_wf::<T, CastHash>(old(v)@, T::spec_invalid()),
        elem != T::spec_invalid(),
        exists|e: int| 0 <= e < old(v)@.len() && old(v)@[e] == T::spec_invalid(),
    ensures
        final(v)@.len() == old(v)@.len(),
        table_wf::<T, CastHash>(final(v)@, T::spec_invalid()),
        contents(final(v)@, T::spec_invalid()) == contents(old(v)@, T::spec_invalid()).insert(elem),
        added == !contents(old(v)@, T::spec_invalid()).contains(elem),
{
    crate::robin::insert::<T, CastHash>(v, elem, T::invalid())
}

fn steal<T: Cast>(v: &mut [T], i: usize, elem: T)
    requires
        vstd::laws_eq::obeys_concrete_eq::<T>(),
        exists|e: int| steal_state::<T, CastHash>(old(v)@, T::spec_invalid(), elem, i as int, e),
    ensures
        final(v)@.len() == old(v)@.len(),
        table_wf::<T, CastHash>(final(v)@, T::spec_invalid()),
        contents(final(v)@, T::spec_invalid()) == contents(old(v)@, T::spec_invalid()).insert(elem),
{
    crate::robin::steal::<T, CastHash>(v, i, elem, T::invalid())
}

impl<T: Cast> View for OptCastSet<T> {
    type V = Set<T>;

    closed spec fn view(&self) -> Set<T> {
        contents(self.table(), T::spec_invalid())
    }
}

/// In an `OptCastSet<u64>`, every value below `u64::MAX`, zero included,
/// meets what `insert` asks of its element: inserting it into a set that
/// has room leaves a set that contains it beside all it held.  The largest
/// value is never an element.
pub proof fn law_optcastset_u64_elements(s: OptCastSet<u64>, x: u64)
    requires
        s.wf(),
        x < u64::MAX,
    ensures
        x != <u64 as Cast>::spec_invalid(),
        !s@.contains(u64::MAX),
        forall|y: u64| s@.contains(y) ==> #[trigger] s@.insert(x).contains(y) && y < u64::MAX,
        s@.insert(x).contains(x),
{
}

impl<T: Cast> OptCastSet<T> {
    /// The slots of the table.
    closed spec fn table(&self) -> Seq<T> {
        match self.inner {
            OCS::Pow1 { v, .. } => v@,
            OCS::Pow2 { v, .. } => v@,
            OCS::Vec { v, .. } => v@,
        }
    }

    closed spec fn size(&self) -> int {
        match self.inner {
            OCS::Pow1 { sz, .. } => sz as int,
            OCS::Pow2 { sz, .. } => sz as int,
            OCS::Vec { sz, .. } => sz as int,
        }
    }

    closed spec fn power(&self) -> int {
        match self.inner {
            OCS::Pow1 { .. } => 1,
            OCS::Pow2 { .. } => 2,
            OCS::Vec { poweroftwo, .. } => poweroftwo as int,
        }
    }

    /// The number of slots of the table.
    pub closed spec fn slots(&self) -> nat {
        self.table().len()
    }

    /// The set is well formed: a Robin Hood table of `2^power` slots with
    /// at least one empty slot, holding as many values as it counts.
    pub closed spec fn wf(&self) -> bool {
        &&& vstd::laws_eq::obeys_concrete_eq::<T>()
        &&& 0 <= self.power() < usize::BITS
        &&& self.table().len() == pow2(self.power() as nat)
        &&& table_wf::<T, CastHash>(self.table(), T::spec_invalid())
        &&& self.size() == contents(self.table(), T::spec_invalid()).len()
        &&& self.size() < self.table().len()
    }

    /// Creates an empty set..
    pub fn new() -> (s: OptCastSet<T>)
        requires
            vstd::laws_eq::obeys_concrete_eq::<T>(),
        ensures
            s.wf(),
            s@ == Set::<T>::empty(),
    {
        OptCastSet::with_capacity(0)
    }

    /// Creates an empty set with the specified capacity.
    pub fn with_capacity(cap: usize) -> (s: OptCastSet<T>)
        requires
            vstd::laws_eq::obeys_concrete_eq::<T>(),
            cap <= max_capacity(),
        ensures
            s.wf(),
            s@ == Set::<T>::empty(),
            s.slots() > cap,
    {
        OptCastSet::with_pow(capacity_to_power(cap))
    }

    /// Creates an empty set with the specified power of two size.
    fn with_pow(pow: u8) -> (s: OptCastSet<T>)
        requires
            vstd::laws_eq::obeys_concrete_eq::<T>(),
            pow < usize::BITS,
        ensures
            s.wf(),
            s@ == Set::<T>::empty(),
            s.power() == pow,
            s.slots() == pow2(pow as nat),
    {
        let inv = T::invalid();
        proof {
            vstd::arithmetic::power2::lemma2_to64();
            lemma_shl_table_len(pow as usize);
        }
        let ocs = match pow {
            1 => OCS::Pow1 { v: [inv, inv], sz: 0 },
            2 => OCS::Pow2 { v: [inv, inv, inv, inv], sz: 0 },
            pow => {
                let cap: usize = 1usize << (pow as usize);
                OCS::Vec { poweroftwo: pow, v: empty_table(inv, cap), sz: 0 }
            },
        };
        let s = OptCastSet { inner: ocs };
        proof {
            assert(s.table().len() == pow2(pow as nat));
            assert(s.power() == pow);
            assert(forall|i: int| 0 <= i < s.table().len() ==> s.table()[i] == inv);
            assert(is_table_len(s.table().len() as int));
            lemma_empty_table::<T, CastHash>(s.table(), inv);
            vstd::arithmetic::power2::lemma_pow2_pos(pow as nat);
            assert(s.size() == 0);
            assert(contents(s.table(), inv).len() == 0);
        }
        s
    }

    /// Returns the number of elements in the set.
    pub fn len(&self) -> (r: usize)
        requires
            self.wf(),
        ensures
            r == self@.len(),
    {
        match self.inner {
            OCS::Vec { v: _, sz, poweroftwo: _ } => sz,
            OCS::Pow1 { v: _, sz } => sz as usize,
            OCS::Pow2 { v: _, sz } => sz as usize,
        }
    }

    fn my_power(&self) -> (r: u8)
        requires
            self.wf(),
        ensures
            r == self.power(),
    {
        match self.inner {
            OCS::Vec { v: _, sz: _, poweroftwo } => poweroftwo,
            OCS::Pow1 { v: _, sz: _ } => 1,
            OCS::Pow2 { v: _, sz: _ } => 2,
        }
    }

    /// Reserves capacity for at least `additional` more elements to be
    /// inserted in the set. The collection may reserve more space
    /// to avoid frequent reallocations.
    pub fn reserve(&mut self, additional: usize)
        requires
            old(self).wf(),
            old(self)@.len() + additional <= max_capacity(),
        ensures
            final(self).wf(),
            final(self)@ == old(self)@,
            final(self).slots() > final(self)@.len() + additional,
    {
        let pow = capacity_to_power(self.len() + additional);
        if pow > self.my_power() {
            let mut set = OptCastSet::with_pow(pow);
            let items = self.iter();
            let mut k: usize = 0;
            proof {
                assert(items@.take(0).to_set() =~= Set::<T>::empty());
            }
            while k < items.len()
                invariant
                    set.wf(),
                    set.slots() == pow2(pow as nat),
                    pow2(pow as nat) > items@.len() + additional,
                    k <= items@.len(),
                    items@.no_duplicates(),
                    forall|a: int| 0 <= a < items@.len() ==> items@[a] != T::spec_invalid(),
                    set@ == items@.take(k as int).to_set(),
                    set@.len() == k,
                decreases items@.len() - k,
            {
                proof {
                    assert(items@.take(k as int + 1) == items@.take(k as int).push(items@[k as int]));
                    items@.take(k as int).lemma_push_to_set_commute(items@[k as int]);
                    if items@.take(k as int).to_set().contains(items@[k as int]) {
                        let a = choose|a: int| 0 <= a < k && items@.take(k as int)[a] == items@[k as int];
                        assert(items@[a] == items@[k as int]);
                    }
                }
                set.insert_unchecked(items[k]);
                k += 1;
            }
            proof {
                assert(items@.take(items@.len() as int) == items@);
            }
            *self = set;
        }
        proof {
            if pow < self.power() {
                vstd::arithmetic::power2::lemma_pow2_strictly_increases(pow as nat, self.power() as nat);
            }
        }
    }

    /// Adds a value to the set.
    ///
    /// If the set did not have this value present, `true` is returned.
    ///
    /// If the set did have this value present, `false` is returned.
    pub fn insert(&mut self, elem: T) -> (added: bool)
        requires
            old(self).wf(),
            elem != T::spec_invalid(),
            old(self)@.len() < max_capacity(),
        ensures
            final(self).wf(),
            final(self)@ == old(self)@.insert(elem),
            added == !old(self)@.contains(elem),
    {
        self.reserve(1);
        self.insert_unchecked(elem)
    }

    fn insert_unchecked(&mut self, elem: T) -> (added: bool)
        requires
            old(self).wf(),
            elem != T::spec_invalid(),
            old(self).slots() > old(self)@.len() + 1,
        ensures
            final(self).wf(),
            final(self)@ == old(self)@.insert(elem),
            added == !old(self)@.contains(elem),
            final(self).slots() == old(self).slots(),
            final(self).power() == old(self).power(),
    {
        proof {
            lemma_contents_finite(self.table(), T::spec_invalid());
            lemma_shl_table_len(self.power() as usize);
        }
        let added = match &mut self.inner {
            OCS::Vec { v, sz, poweroftwo: _ } => {
                if insert(v.as_mut_slice(), elem) {
                    *sz += 1;
                    true
                } else {
                    false
                }
            },
            OCS::Pow1 { v, sz } => {
                if insert(v, elem) {
                    *sz += 1;
                    true
                } else {
                    false
                }
            },
            OCS::Pow2 { v, sz } => {
                if insert(v, elem) {
                    *sz += 1;
                    true
                } else {
                    false
                }
            },
        };
        proof {
            lemma_contents_finite(self.table(), T::spec_invalid());
        }
        added
    }

    /// Returns true if the set contains a value.
    pub fn contains(&self, value: &T) -> (r: bool)
        requires
            self.wf(),
        ensures
            r == self@.contains(*value),
    {
        if same_val(value, &T::invalid()) {
            return false;
        }
        match search(self.slice(), *value) {
            SearchResult::Present(_) => true,
            SearchResult::Empty(_) => false,
            SearchResult::Richer(_) => false,
        }
    }

    fn slice(&self) -> (r: &[T])
        ensures
            r@ == self.table(),
    {
        match &self.inner {
            OCS::Vec { v, sz: _, poweroftwo: _ } => v.as_slice(),
            OCS::Pow1 { v, sz: _ } => v.as_slice(),
            OCS::Pow2 { v, sz: _ } => v.as_slice(),
        }
    }

    /// Returns the elements of the set, in table order.
    pub fn iter(&self) -> (r: Vec<T>)
        requires
            self.wf(),
        ensures
            r@.to_set() == self@,
            r@.no_duplicates(),
            r@.len() == self@.len(),
            forall|a: int| 0 <= a < r@.len() ==> r@[a] != T::spec_invalid(),
    {
        let r = collect_valid(self.slice(), T::invalid());
        proof {
            assert forall|a: int| 0 <= a < r@.len() implies r@[a] != T::spec_invalid() by {
                assert(r@.to_set().contains(r@[a]));
            }
        }
        r
    }
}

} // verus!
