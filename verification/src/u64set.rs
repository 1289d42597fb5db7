//! A set of `u64` that stores its elements in the narrowest words that
//! hold them: a few in a small array searched linearly, more in a Robin
//! Hood table.
use vstd::prelude::*;
use crate::castset::max_capacity;
use crate::fits::{Fits64, is_code, lemma_code_of, lemma_decode_code};
use std::marker::PhantomData;
use crate::robin::{contents, table_wf};
use crate::small::{small_ok, small_avoids};
use crate::tinyset::FnvHash;
use crate::u64map::{capacity_to_rawcapacity, NUM_U8, NUM_U16, NUM_U32, NUM_U64};
use crate::word::{Word, into_boxed, lemma_table_len_max, is_next_pow2};
use crate::wordset::{
    small_view_set, tab_view_set, marked_set_ok, marked_set_view, marked_set_count, set_small_has,
    set_small_add, set_small_del, set_wide_has, set_wide_add, set_wide_del, set_wide_empty,
    set_rehash, set_marked_has, set_marked_add, set_marked_del, set_marked_empty, set_marked_rehash,
    small_elems, tab_elems, lemma_small_view_set_len, lemma_tab_view_set_len, widen_keys,
    co_small_put, co_small_take, co_tab_put, co_tab_take, co_marked_put, co_marked_take,
    co_small_pairs, co_tab_pairs, lemma_widen_keys_at,
};
use crate::robin_map::map_view;
use crate::small::small_map;
use crate::wordmap::{pairs_map, distinct_keys};

verus! {

#[derive(Debug)]
enum Data {
    Su8(u8, [u8; NUM_U8]),
    Vu8(u8, Box<[u8]>),
    Su16(u8, [u16; NUM_U16]),
    Vu16(u16, Box<[u16]>),
    Su32(u8, [u32; NUM_U32]),
    Vu32(u32, Box<[u32]>),
    Su64(u32, [u64; NUM_U64]),
    Vu64(u32, Box<[u64]>),
    Badu64(u32, Box<[u64]>),
}

/// A set of `u64` elements.  Elements are stored in the narrowest words
/// that hold them all: up to a few in a small array, more in a Robin Hood
/// hash table on the heap.  The largest value of each word width marks the
/// empty slots of a table; a table that holds `u64::MAX` keeps the marker
/// in a last extra slot and moves it when an element takes its value.
#[derive(Debug)]
pub struct U64Set {
    v: Data,
}

impl View for U64Set {
    type V = Set<u64>;

    closed spec fn view(&self) -> Set<u64> {
        match self.v {
            Data::Su8(sz, a) => small_view_set::<u8>(a@, sz as int),
            Data::Vu8(sz, b) => tab_view_set::<u8>(b@, u8::MAX),
            Data::Su16(sz, a) => small_view_set::<u16>(a@, sz as int),
            Data::Vu16(sz, b) => tab_view_set::<u16>(b@, u16::MAX),
            Data::Su32(sz, a) => small_view_set::<u32>(a@, sz as int),
            Data::Vu32(sz, b) => tab_view_set::<u32>(b@, u32::MAX),
            Data::Su64(sz, a) => small_view_set::<u64>(a@, sz as int),
            Data::Vu64(sz, b) => tab_view_set::<u64>(b@, u64::MAX),
            Data::Badu64(sz, b) => marked_set_view(b@),
        }
    }
}

/// The slots of the inline array of a small set for elements up to
/// `max`: narrower elements fit more of them in the same bytes.
pub open spec fn small_slots(max: u64) -> int {
    if max < 255 {
        NUM_U8 as int
    } else if max < 0xffff {
        NUM_U16 as int
    } else if max < 0xffff_ffff {
        NUM_U32 as int
    } else {
        NUM_U64 as int
    }
}

/// The most elements a `U64Set` can count.
pub open spec fn set_limit() -> int {
    if max_capacity() < u32::MAX {
        max_capacity()
    } else {
        u32::MAX as int
    }
}

impl U64Set {
    /// The storage is consistent: the small arrays hold `sz` distinct
    /// values other than the marker, the tables are well-formed Robin Hood
    /// tables holding `sz` values.
    pub closed spec fn wf(&self) -> bool {
        match self.v {
            Data::Su8(sz, a) => small_ok(a@, sz as int) && small_avoids(a@, sz as int, u8::MAX),
            Data::Vu8(sz, b) => table_wf::<u8, FnvHash>(b@, u8::MAX) && sz == contents(b@, u8::MAX).len(),
            Data::Su16(sz, a) => small_ok(a@, sz as int) && small_avoids(a@, sz as int, u16::MAX),
            Data::Vu16(sz, b) => table_wf::<u16, FnvHash>(b@, u16::MAX) && sz == contents(b@, u16::MAX).len(),
            Data::Su32(sz, a) => small_ok(a@, sz as int) && small_avoids(a@, sz as int, u32::MAX),
            Data::Vu32(sz, b) => table_wf::<u32, FnvHash>(b@, u32::MAX) && sz == contents(b@, u32::MAX).len(),
            Data::Su64(sz, a) => small_ok(a@, sz as int) && small_avoids(a@, sz as int, u64::MAX),
            Data::Vu64(sz, b) => table_wf::<u64, FnvHash>(b@, u64::MAX) && sz == contents(b@, u64::MAX).len(),
            Data::Badu64(sz, b) => marked_set_ok(b@) && sz == marked_set_count(b@),
        }
    }

    /// The largest element the storage holds.
    pub closed spec fn cur_max(&self) -> u64 {
        match self.v {
            Data::Su8(..) => 254,
            Data::Vu8(..) => 254,
            Data::Su16(..) => 0xfffe,
            Data::Vu16(..) => 0xfffe,
            Data::Su32(..) => 0xffff_fffe,
            Data::Vu32(..) => 0xffff_fffe,
            Data::Su64(..) => 0xffff_ffff_ffff_fffe,
            Data::Vu64(..) => 0xffff_ffff_ffff_fffe,
            Data::Badu64(..) => u64::MAX,
        }
    }

    /// The number of slots.
    pub closed spec fn slots(&self) -> int {
        match self.v {
            Data::Su8(..) => NUM_U8 as int,
            Data::Vu8(_, b) => b@.len() as int,
            Data::Su16(..) => NUM_U16 as int,
            Data::Vu16(_, b) => b@.len() as int,
            Data::Su32(..) => NUM_U32 as int,
            Data::Vu32(_, b) => b@.len() as int,
            Data::Su64(..) => NUM_U64 as int,
            Data::Vu64(_, b) => b@.len() as int,
            Data::Badu64(_, b) => b@.len() - 1,
        }
    }

    /// The number of elements the storage holds.
    pub closed spec fn count(&self) -> int {
        match self.v {
            Data::Su8(sz, _) => sz as int,
            Data::Vu8(sz, _) => sz as int,
            Data::Su16(sz, _) => sz as int,
            Data::Vu16(sz, _) => sz as int,
            Data::Su32(sz, _) => sz as int,
            Data::Vu32(sz, _) => sz as int,
            Data::Su64(sz, _) => sz as int,
            Data::Vu64(sz, _) => sz as int,
            Data::Badu64(sz, _) => sz as int,
        }
    }

    /// How many more elements the storage holds.
    pub open spec fn room(&self) -> int {
        self.slots() - self.count()
    }

    /// The element in slot `i`, if any.
    pub closed spec fn key_at(&self, i: int) -> Option<u64> {
        match self.v {
            Data::Su8(sz, a) => if i < sz { Some(a@[i] as u64) } else { None },
            Data::Vu8(_, b) => if b@[i] != u8::MAX { Some(b@[i] as u64) } else { None },
            Data::Su16(sz, a) => if i < sz { Some(a@[i] as u64) } else { None },
            Data::Vu16(_, b) => if b@[i] != u16::MAX { Some(b@[i] as u64) } else { None },
            Data::Su32(sz, a) => if i < sz { Some(a@[i] as u64) } else { None },
            Data::Vu32(_, b) => if b@[i] != u32::MAX { Some(b@[i] as u64) } else { None },
            Data::Su64(sz, a) => if i < sz { Some(a@[i]) } else { None },
            Data::Vu64(_, b) => if b@[i] != u64::MAX { Some(b@[i]) } else { None },
            Data::Badu64(_, b) => if b@[i] != b@.last() { Some(b@[i]) } else { None },
        }
    }

    proof fn lemma_len(&self)
        requires
            self.wf(),
        ensures
            self@.finite(),
            self@.len() == self.count(),
            0 <= self.count() <= self.slots(),
            self.slots() <= usize::MAX,
            match self.v {
                Data::Vu8(sz, b) => sz <= 255,
                Data::Vu16(sz, b) => sz <= 0xffff,
                Data::Vu32(sz, b) => sz <= 0xffff_ffff,
                _ => true,
            },
    {
        vstd::layout::unsigned_int_max_values();
        match self.v {
            Data::Su8(sz, a) => lemma_small_view_set_len::<u8>(a@, sz as int),
            Data::Vu8(sz, b) => {
                lemma_tab_view_set_len::<u8>(b@, u8::MAX);
                lemma_table_len_max(b@.len() as int);
            },
            Data::Su16(sz, a) => lemma_small_view_set_len::<u16>(a@, sz as int),
            Data::Vu16(sz, b) => {
                lemma_tab_view_set_len::<u16>(b@, u16::MAX);
                lemma_table_len_max(b@.len() as int);
            },
            Data::Su32(sz, a) => lemma_small_view_set_len::<u32>(a@, sz as int),
            Data::Vu32(sz, b) => {
                lemma_tab_view_set_len::<u32>(b@, u32::MAX);
                lemma_table_len_max(b@.len() as int);
            },
            Data::Su64(sz, a) => lemma_small_view_set_len::<u64>(a@, sz as int),
            Data::Vu64(sz, b) => {
                lemma_tab_view_set_len::<u64>(b@, u64::MAX);
                lemma_table_len_max(b@.len() as int);
            },
            Data::Badu64(sz, b) => {
                lemma_tab_view_set_len::<u64>(b@.drop_last(), b@.last());
                lemma_table_len_max(b@.len() - 1);
            },
        }
    }

    /// Creates an empty set with the specified capacity.
    pub fn with_capacity(cap: usize) -> (s: U64Set)
        requires
            cap <= max_capacity(),
        ensures
            s.wf(),
            s@ == Set::<u64>::empty(),
            s.room() >= cap,
            s.count() == 0,
            s.cur_max() >= 254,
            cap <= NUM_U8 ==> s.slots() == NUM_U8,
            cap > NUM_U8 ==> is_next_pow2(cap * 11 / 10, s.slots()),
    {
        let nextcap = capacity_to_rawcapacity(cap);
        if cap <= NUM_U8 {
            let a = [255u8; NUM_U8];
            let s = U64Set { v: Data::Su8(0, a) };
            assert(s@ =~= Set::<u64>::empty());
            s
        } else if cap < 255 {
            U64Set { v: Data::Vu8(0, into_boxed(set_wide_empty::<u8>(nextcap))) }
        } else if cap < 0xffff {
            U64Set { v: Data::Vu16(0, into_boxed(set_wide_empty::<u16>(nextcap))) }
        } else if cap < 0xffff_ffff {
            U64Set { v: Data::Vu32(0, into_boxed(set_wide_empty::<u32>(nextcap))) }
        } else {
            U64Set { v: Data::Vu64(0, into_boxed(set_wide_empty::<u64>(nextcap))) }
        }
    }

    /// Creates an empty set with the specified capacity, for elements up
    /// to `max`.
    pub fn with_max_and_capacity(max: u64, cap: usize) -> (s: U64Set)
        requires
            cap < max_capacity(),
        ensures
            s.wf(),
            s@ == Set::<u64>::empty(),
            s.room() >= cap,
            s.cur_max() >= max,
            s.count() == 0,
            max < u64::MAX && cap <= small_slots(max) ==> s.slots() == small_slots(max),
            max < u64::MAX && cap > small_slots(max) ==> is_next_pow2(cap * 11 / 10, s.slots()),
            max == u64::MAX ==> is_next_pow2((cap + 1) * 11 / 10, s.slots()),
    {
        if max < 255 {
            if cap <= NUM_U8 {
                let s = U64Set { v: Data::Su8(0, [255u8; NUM_U8]) };
                assert(s@ =~= Set::<u64>::empty());
                s
            } else {
                U64Set { v: Data::Vu8(0, into_boxed(set_wide_empty::<u8>(capacity_to_rawcapacity(cap)))) }
            }
        } else if max < 0xffff {
            if cap <= NUM_U16 {
                let s = U64Set { v: Data::Su16(0, [0xffffu16; NUM_U16]) };
                assert(s@ =~= Set::<u64>::empty());
                s
            } else {
                U64Set { v: Data::Vu16(0, into_boxed(set_wide_empty::<u16>(capacity_to_rawcapacity(cap)))) }
            }
        } else if max < 0xffff_ffff {
            if cap <= NUM_U32 {
                let s = U64Set { v: Data::Su32(0, [0xffff_ffffu32; NUM_U32]) };
                assert(s@ =~= Set::<u64>::empty());
                s
            } else {
                U64Set { v: Data::Vu32(0, into_boxed(set_wide_empty::<u32>(capacity_to_rawcapacity(cap)))) }
            }
        } else if max < u64::MAX {
            if cap <= NUM_U64 {
                let s = U64Set { v: Data::Su64(0, [u64::MAX; NUM_U64]) };
                assert(s@ =~= Set::<u64>::empty());
                s
            } else {
                U64Set { v: Data::Vu64(0, into_boxed(set_wide_empty::<u64>(capacity_to_rawcapacity(cap)))) }
            }
        } else {
            let n = capacity_to_rawcapacity(cap + 1);
            U64Set { v: Data::Badu64(0, into_boxed(set_marked_empty(n))) }
        }
    }

    /// Returns the number of elements in the set.
    pub fn len(&self) -> (r: usize)
        requires
            self.wf(),
        ensures
            r == self@.len(),
    {
        proof {
            self.lemma_len();
        }
        match &self.v {
            Data::Su8(sz, _) => *sz as usize,
            Data::Vu8(sz, _) => *sz as usize,
            Data::Su16(sz, _) => *sz as usize,
            Data::Vu16(sz, _) => *sz as usize,
            Data::Su32(sz, _) => *sz as usize,
            Data::Vu32(sz, _) => *sz as usize,
            Data::Su64(sz, _) => *sz as usize,
            Data::Vu64(sz, _) => *sz as usize,
            Data::Badu64(sz, _) => *sz as usize,
        }
    }

    /// Returns the number of slots.
    pub fn rawcapacity(&self) -> (r: usize)
        requires
            self.wf(),
        ensures
            r == self.slots(),
    {
        proof {
            self.lemma_len();
        }
        match &self.v {
            Data::Su8(..) => NUM_U8,
            Data::Vu8(_, b) => b.len(),
            Data::Su16(..) => NUM_U16,
            Data::Vu16(_, b) => b.len(),
            Data::Su32(..) => NUM_U32,
            Data::Vu32(_, b) => b.len(),
            Data::Su64(..) => NUM_U64,
            Data::Vu64(_, b) => b.len(),
            Data::Badu64(_, b) => b.len() - 1,
        }
    }

    /// The largest element the storage holds.
    pub fn current_max(&self) -> (r: u64)
        ensures
            r == self.cur_max(),
    {
        match &self.v {
            Data::Su8(..) => 254,
            Data::Vu8(..) => 254,
            Data::Su16(..) => 0xfffe,
            Data::Vu16(..) => 0xfffe,
            Data::Su32(..) => 0xffff_fffe,
            Data::Vu32(..) => 0xffff_fffe,
            Data::Su64(..) => 0xffff_ffff_ffff_fffe,
            Data::Vu64(..) => 0xffff_ffff_ffff_fffe,
            Data::Badu64(..) => u64::MAX,
        }
    }

    /// Returns true if the set contains a value, as the slot that holds it.
    pub fn contains(&self, value: &u64) -> (r: Option<usize>)
        requires
            self.wf(),
        ensures
            r is Some <==> self@.contains(*value),
            r matches Some(i) ==> i < self.slots() && self.key_at(i as int) == Some(*value),
    {
        let value = *value;
        match &self.v {
            Data::Su8(sz, a) => set_small_has(a, *sz as usize, value),
            Data::Vu8(_, b) => set_wide_has(b, value),
            Data::Su16(sz, a) => set_small_has(a, *sz as usize, value),
            Data::Vu16(_, b) => set_wide_has(b, value),
            Data::Su32(sz, a) => set_small_has(a, *sz as usize, value),
            Data::Vu32(_, b) => set_wide_has(b, value),
            Data::Su64(sz, a) => set_small_has(a, *sz as usize, value),
            Data::Vu64(_, b) => set_wide_has(b, value),
            Data::Badu64(_, b) => set_marked_has(b, value),
        }
    }

    /// Adds a value that the storage has room for.  Returns true when the
    /// value is new.
    pub fn insert_unchecked(&mut self, value: u64) -> (added: bool)
        requires
            old(self).wf(),
            old(self).room() >= 1,
            old(self).count() < u32::MAX,
            value <= old(self).cur_max(),
        ensures
            final(self).wf(),
            final(self)@ == old(self)@.insert(value),
            added == !old(self)@.contains(value),
            final(self).cur_max() == old(self).cur_max(),
            final(self).slots() == old(self).slots(),
            final(self).count() == old(self).count() + (if added { 1int } else { 0 }),
    {
        proof {
            self.lemma_len();
        }
        match &mut self.v {
            Data::Su8(sz, a) => {
                let added = set_small_add(a, *sz as usize, value);
                if added {
                    *sz = *sz + 1;
                }
                added
            },
            Data::Vu8(sz, b) => {
                let added = set_wide_add(b, value);
                proof {
                    lemma_tab_view_set_len::<u8>(b@, u8::MAX);
                }
                if added {
                    *sz = *sz + 1;
                }
                added
            },
            Data::Su16(sz, a) => {
                let added = set_small_add(a, *sz as usize, value);
                if added {
                    *sz = *sz + 1;
                }
                added
            },
            Data::Vu16(sz, b) => {
                let added = set_wide_add(b, value);
                proof {
                    lemma_tab_view_set_len::<u16>(b@, u16::MAX);
                }
                if added {
                    *sz = *sz + 1;
                }
                added
            },
            Data::Su32(sz, a) => {
                let added = set_small_add(a, *sz as usize, value);
                if added {
                    *sz = *sz + 1;
                }
                added
            },
            Data::Vu32(sz, b) => {
                let added = set_wide_add(b, value);
                proof {
                    lemma_tab_view_set_len::<u32>(b@, u32::MAX);
                }
                if added {
                    *sz = *sz + 1;
                }
                added
            },
            Data::Su64(sz, a) => {
                let added = set_small_add(a, *sz as usize, value);
                if added {
                    *sz = *sz + 1;
                }
                added
            },
            Data::Vu64(sz, b) => {
                let added = set_wide_add(b, value);
                if added {
                    *sz = *sz + 1;
                }
                added
            },
            Data::Badu64(sz, b) => {
                let added = set_marked_add(b, value);
                if added {
                    *sz = *sz + 1;
                }
                added
            },
        }
    }

    /// Removes an element, and returns true if that element was present.
    pub fn remove(&mut self, value: &u64) -> (removed: bool)
        requires
            old(self).wf(),
        ensures
            final(self).wf(),
            final(self)@ == old(self)@.remove(*value),
            removed == old(self)@.contains(*value),
            final(self).cur_max() == old(self).cur_max(),
            final(self).slots() == old(self).slots(),
            final(self).count() == old(self).count() - (if removed { 1int } else { 0 }),
    {
        proof {
            self.lemma_len();
        }
        let value = *value;
        match &mut self.v {
            Data::Su8(sz, a) => {
                let removed = set_small_del(a, *sz as usize, value);
                if removed {
                    *sz = *sz - 1;
                }
                removed
            },
            Data::Vu8(sz, b) => {
                let removed = set_wide_del(b, value);
                if removed {
                    *sz = *sz - 1;
                }
                removed
            },
            Data::Su16(sz, a) => {
                let removed = set_small_del(a, *sz as usize, value);
                if removed {
                    *sz = *sz - 1;
                }
                removed
            },
            Data::Vu16(sz, b) => {
                let removed = set_wide_del(b, value);
                if removed {
                    *sz = *sz - 1;
                }
                removed
            },
            Data::Su32(sz, a) => {
                let removed = set_small_del(a, *sz as usize, value);
                if removed {
                    *sz = *sz - 1;
                }
                removed
            },
            Data::Vu32(sz, b) => {
                let removed = set_wide_del(b, value);
                if removed {
                    *sz = *sz - 1;
                }
                removed
            },
            Data::Su64(sz, a) => {
                let removed = set_small_del(a, *sz as usize, value);
                if removed {
                    *sz = *sz - 1;
                }
                removed
            },
            Data::Vu64(sz, b) => {
                let removed = set_wide_del(b, value);
                if removed {
                    *sz = *sz - 1;
                }
                removed
            },
            Data::Badu64(sz, b) => {
                let removed = set_marked_del(b, value);
                if removed {
                    *sz = *sz - 1;
                }
                removed
            },
        }
    }

    /// The elements, each once.
    pub fn iter(&self) -> (r: Vec<u64>)
        requires
            self.wf(),
        ensures
            r@.to_set() == self@,
            r@.no_duplicates(),
            r@.len() == self@.len(),
    {
        let r = match &self.v {
            Data::Su8(sz, a) => small_elems(a, *sz as usize),
            Data::Vu8(_, b) => tab_elems(b, 255u8),
            Data::Su16(sz, a) => small_elems(a, *sz as usize),
            Data::Vu16(_, b) => tab_elems(b, 0xffffu16),
            Data::Su32(sz, a) => small_elems(a, *sz as usize),
            Data::Vu32(_, b) => tab_elems(b, 0xffff_ffffu32),
            Data::Su64(sz, a) => small_elems(a, *sz as usize),
            Data::Vu64(_, b) => tab_elems(b, u64::MAX),
            Data::Badu64(_, b) => {
                let n = b.len() - 1;
                let inv = b[n];
                let (t, _) = b.split_at(n);
                assert(t@ == b@.drop_last());
                tab_elems(t, inv)
            },
        };
        proof {
            r@.unique_seq_to_set();
        }
        r
    }

    /// The element in slot `i`, if any.
    pub fn index(&self, i: usize) -> (r: Option<u64>)
        requires
            self.wf(),
            i < self.slots(),
        ensures
            r == self.key_at(i as int),
            r matches Some(x) ==> self@.contains(x),
    {
        proof {
            self.lemma_key_at(i as int);
        }
        match &self.v {
            Data::Su8(sz, a) => if i < *sz as usize { Some(a[i] as u64) } else { None },
            Data::Vu8(_, b) => if b[i] != 255 { Some(b[i] as u64) } else { None },
            Data::Su16(sz, a) => if i < *sz as usize { Some(a[i] as u64) } else { None },
            Data::Vu16(_, b) => if b[i] != 0xffff { Some(b[i] as u64) } else { None },
            Data::Su32(sz, a) => if i < *sz as usize { Some(a[i] as u64) } else { None },
            Data::Vu32(_, b) => if b[i] != 0xffff_ffff { Some(b[i] as u64) } else { None },
            Data::Su64(sz, a) => if i < *sz as usize { Some(a[i]) } else { None },
            Data::Vu64(_, b) => if b[i] != u64::MAX { Some(b[i]) } else { None },
            Data::Badu64(_, b) => {
                let inv = b[b.len() - 1];
                if b[i] != inv {
                    Some(b[i])
                } else {
                    None
                }
            },
        }
    }

    /// An element in a slot is in the set.
    proof fn lemma_key_at(&self, i: int)
        requires
            self.wf(),
            0 <= i < self.slots(),
        ensures
            self.key_at(i) matches Some(x) ==> self@.contains(x),
    {
        match self.v {
            Data::Su8(sz, a) => if i < sz {
                crate::word::lemma_widen_set_contains(crate::small::small_set(a@, sz as int), a@[i], 0);
                assert(crate::small::small_set(a@, sz as int).contains(a@[i]));
            },
            Data::Vu8(_, b) => {
                crate::word::lemma_widen_set_contains(contents(b@, u8::MAX), b@[i], 0);
                assert(b@.contains(b@[i]));
            },
            Data::Su16(sz, a) => if i < sz {
                crate::word::lemma_widen_set_contains(crate::small::small_set(a@, sz as int), a@[i], 0);
                assert(crate::small::small_set(a@, sz as int).contains(a@[i]));
            },
            Data::Vu16(_, b) => {
                crate::word::lemma_widen_set_contains(contents(b@, u16::MAX), b@[i], 0);
                assert(b@.contains(b@[i]));
            },
            Data::Su32(sz, a) => if i < sz {
                crate::word::lemma_widen_set_contains(crate::small::small_set(a@, sz as int), a@[i], 0);
                assert(crate::small::small_set(a@, sz as int).contains(a@[i]));
            },
            Data::Vu32(_, b) => {
                crate::word::lemma_widen_set_contains(contents(b@, u32::MAX), b@[i], 0);
                assert(b@.contains(b@[i]));
            },
            Data::Su64(sz, a) => if i < sz {
                crate::word::lemma_widen_set_contains(crate::small::small_set(a@, sz as int), a@[i], 0);
                assert(crate::small::small_set(a@, sz as int).contains(a@[i]));
            },
            Data::Vu64(_, b) => {
                crate::word::lemma_widen_set_contains(contents(b@, u64::MAX), b@[i], 0);
                assert(b@.contains(b@[i]));
            },
            Data::Badu64(_, b) => {
                let t = b@.drop_last();
                crate::word::lemma_widen_set_contains(contents(t, b@.last()), t[i], 0);
                assert(t.contains(t[i]));
            },
        }
    }

    /// A new set holding this one, with room for `cap` elements up to `max`.
    fn rebuilt(&self, max: u64, cap: usize) -> (n: U64Set)
        requires
            self.wf(),
            self@.len() <= cap < set_limit(),
        ensures
            n.wf(),
            n@ == self@,
            n.room() >= cap - self@.len(),
            n.cur_max() >= max,
            n.cur_max() >= self.cur_max(),
    {
        proof {
            self.lemma_len();
        }
        let cm = self.current_max();
        let m = if max > cm {
            max
        } else {
            cm
        };
        let items = self.iter();
        let mut n = U64Set::with_max_and_capacity(m, cap);
        let mut i: usize = 0;
        proof {
            assert(items@.take(0).to_set() =~= Set::<u64>::empty());
            assert(items@.to_set() == self@);
            n.lemma_len();
            assert forall|j: int| 0 <= j < items@.len() implies #[trigger] items@[j] <= cm by {
                assert(items@.to_set().contains(items@[j]));
                self.lemma_below_max(items@[j]);
            }
        }
        while i < items.len()
            invariant
                n.wf(),
                items@.no_duplicates(),
                items@.to_set() == self@,
                items@.len() == self@.len(),
                self@.len() <= cap < set_limit(),
                i <= items@.len(),
                n@ == items@.take(i as int).to_set(),
                n.count() == i,
                n.room() >= cap - i,
                n.cur_max() >= m,
                m >= cm,
                cm == self.cur_max(),
                forall|j: int| 0 <= j < items@.len() ==> #[trigger] items@[j] <= cm,
            decreases items@.len() - i,
        {
            let x = items[i];
            proof {
                let t = items@.take(i as int);
                assert(items@.take(i + 1) =~= t.push(x));
                t.lemma_push_to_set_commute(x);
                assert(!t.contains(x)) by {
                    if t.contains(x) {
                        let j = choose|j: int| 0 <= j < t.len() && t[j] == x;
                        assert(items@[j] != items@[i as int]);
                    }
                }
                assert(!t.to_set().contains(x));
            }
            n.insert_unchecked(x);
            i += 1;
        }
        proof {
            assert(items@.take(items@.len() as int) =~= items@);
        }
        n
    }

    /// Every element of a well-formed set is at most its storage's
    /// largest element.
    proof fn lemma_below_max(&self, x: u64)
        requires
            self.wf(),
            self@.contains(x),
        ensures
            x <= self.cur_max(),
    {
        match self.v {
            Data::Su8(sz, a) => {
                u8::lemma_word();
                let w = u8::spec_narrow(x);
                assert(crate::small::small_set(a@, sz as int).contains(w));
                let j = choose|j: int| 0 <= j < sz && a@[j] == w;
                assert(a@[j] != u8::MAX);
            },
            Data::Vu8(_, b) => {
                u8::lemma_word();
                assert(contents(b@, u8::MAX).contains(u8::spec_narrow(x)));
            },
            Data::Su16(sz, a) => {
                u16::lemma_word();
                let w = u16::spec_narrow(x);
                let j = choose|j: int| 0 <= j < sz && a@[j] == w;
                assert(a@[j] != u16::MAX);
            },
            Data::Vu16(_, b) => {
                u16::lemma_word();
                assert(contents(b@, u16::MAX).contains(u16::spec_narrow(x)));
            },
            Data::Su32(sz, a) => {
                u32::lemma_word();
                let w = u32::spec_narrow(x);
                let j = choose|j: int| 0 <= j < sz && a@[j] == w;
                assert(a@[j] != u32::MAX);
            },
            Data::Vu32(_, b) => {
                u32::lemma_word();
                assert(contents(b@, u32::MAX).contains(u32::spec_narrow(x)));
            },
            Data::Su64(sz, a) => {
                let j = choose|j: int| 0 <= j < sz && a@[j] == x;
                assert(a@[j] != u64::MAX);
            },
            Data::Vu64(_, b) => {
                assert(contents(b@, u64::MAX).contains(x));
            },
            Data::Badu64(_, b) => {
            },
        }
    }

    /// Reserves room for at least `additional` more elements, with
    /// maximum value of `max`.
    pub fn reserve_with_max(&mut self, max: u64, additional: usize)
        requires
            old(self).wf(),
            old(self)@.len() + additional < set_limit(),
        ensures
            final(self).wf(),
            final(self)@ == old(self)@,
            final(self).room() >= additional,
            final(self).cur_max() >= max,
            final(self).cur_max() >= old(self).cur_max(),
    {
        proof {
            self.lemma_len();
        }
        let len = self.len();
        let cap = len + additional;
        let cm = self.current_max();
        let small_full = match &self.v {
            Data::Su8(..) => cap > NUM_U8,
            Data::Su16(..) => cap > NUM_U16,
            Data::Su32(..) => cap > NUM_U32,
            Data::Su64(..) => cap > NUM_U64,
            _ => false,
        };
        if max > cm || small_full {
            let n = self.rebuilt(max, cap);
            *self = n;
            return;
        }
        match &mut self.v {
            Data::Vu8(_, b) => {
                if (cap as u128) * 11 > (b.len() as u128) * 10 {
                    let nb = set_rehash(b, 255u8, capacity_to_rawcapacity(cap));
                    *b = into_boxed(nb);
                }
            },
            Data::Vu16(_, b) => {
                if (cap as u128) * 11 > (b.len() as u128) * 10 {
                    let nb = set_rehash(b, 0xffffu16, capacity_to_rawcapacity(cap));
                    *b = into_boxed(nb);
                }
            },
            Data::Vu32(_, b) => {
                if (cap as u128) * 11 > (b.len() as u128) * 10 {
                    let nb = set_rehash(b, 0xffff_ffffu32, capacity_to_rawcapacity(cap));
                    *b = into_boxed(nb);
                }
            },
            Data::Vu64(_, b) => {
                if (cap as u128) * 11 > (b.len() as u128) * 10 {
                    let nb = set_rehash(b, u64::MAX, capacity_to_rawcapacity(cap));
                    *b = into_boxed(nb);
                }
            },
            Data::Badu64(_, b) => {
                if ((cap + 1) as u128) * 11 > (b.len() as u128) * 10 {
                    let nb = set_marked_rehash(b, capacity_to_rawcapacity(cap + 1));
                    *b = into_boxed(nb);
                }
            },
            _ => {},
        }
    }

    /// Reserves room for at least `additional` more elements.
    pub fn reserve(&mut self, additional: usize)
        requires
            old(self).wf(),
            old(self)@.len() + additional < set_limit(),
        ensures
            final(self).wf(),
            final(self)@ == old(self)@,
            final(self).room() >= additional,
    {
        self.reserve_with_max(0, additional)
    }

    /// Adds a value to the set.
    ///
    /// If the set did not have this value present, `true` is returned.
    ///
    /// If the set did have this value present, `false` is returned.
    pub fn insert(&mut self, elem: u64) -> (added: bool)
        requires
            old(self).wf(),
            old(self)@.len() + 1 < set_limit(),
        ensures
            final(self).wf(),
            final(self)@ == old(self)@.insert(elem),
            added == !old(self)@.contains(elem),
    {
        proof {
            self.lemma_len();
        }
        self.reserve_with_max(elem, 1);
        proof {
            self.lemma_len();
        }
        self.insert_unchecked(elem)
    }

    /// Clears the set, returning all elements.
    fn drain_items(&mut self) -> (r: Vec<u64>)
        requires
            old(self).wf(),
        ensures
            final(self).wf(),
            final(self)@ == Set::<u64>::empty(),
            r@.to_set() == old(self)@,
            r@.no_duplicates(),
            r@.len() == old(self)@.len(),
    {
        let items = self.iter();
        match &mut self.v {
            Data::Su8(sz, _) => {
                *sz = 0;
            },
            Data::Vu8(sz, b) => {
                *b = into_boxed(set_wide_empty::<u8>(b.len()));
                *sz = 0;
            },
            Data::Su16(sz, _) => {
                *sz = 0;
            },
            Data::Vu16(sz, b) => {
                *b = into_boxed(set_wide_empty::<u16>(b.len()));
                *sz = 0;
            },
            Data::Su32(sz, _) => {
                *sz = 0;
            },
            Data::Vu32(sz, b) => {
                *b = into_boxed(set_wide_empty::<u32>(b.len()));
                *sz = 0;
            },
            Data::Su64(sz, _) => {
                *sz = 0;
            },
            Data::Vu64(sz, b) => {
                *b = into_boxed(set_wide_empty::<u64>(b.len()));
                *sz = 0;
            },
            Data::Badu64(sz, b) => {
                proof {
                    lemma_table_len_max(b@.len() - 1);
                }
                *b = into_boxed(set_marked_empty(b.len() - 1));
                *sz = 0;
            },
        }
        proof {
            crate::small::lemma_small_empty(Seq::<u8>::empty(), Seq::<u8>::empty());
            assert(self@ =~= Set::<u64>::empty());
        }
        items
    }

    /// Clears the set, returning all elements.
    pub fn drain(&mut self) -> (r: Drain)
        requires
            old(self).wf(),
        ensures
            final(self).wf(),
            final(self)@ == Set::<u64>::empty(),
            r.remaining().to_set() == old(self)@,
            r.remaining().no_duplicates(),
            r.remaining().len() == old(self)@.len(),
    {
        let items = self.drain_items();
        let d = Drain { items, pos: 0 };
        assert(d.remaining() =~= items@);
        d
    }

    /// The set of the given elements.
    pub fn from_items(items: Vec<u64>) -> (s: U64Set)
        requires
            items@.len() + 1 < set_limit(),
        ensures
            s.wf(),
            s@ == items@.to_set(),
    {
        let mut c = U64Set::with_capacity(items.len());
        let mut i: usize = 0;
        proof {
            assert(items@.take(0).to_set() =~= Set::<u64>::empty());
        }
        while i < items.len()
            invariant
                c.wf(),
                items@.len() + 1 < set_limit(),
                i <= items@.len(),
                c@ == items@.take(i as int).to_set(),
                c@.len() <= i,
            decreases items@.len() - i,
        {
            proof {
                assert(items@.take(i + 1) =~= items@.take(i as int).push(items@[i as int]));
                items@.take(i as int).lemma_push_to_set_commute(items@[i as int]);
                items@.take(i + 1).lemma_cardinality_of_set();
            }
            c.insert(items[i]);
            i += 1;
        }
        proof {
            assert(items@.take(items@.len() as int) =~= items@);
        }
        c
    }
}

impl U64Set {
    /// The map from each element to the value of `vals` in its slot.
    pub closed spec fn co_view<V>(&self, vals: Seq<V>) -> Map<u64, V> {
        match self.v {
            Data::Su8(sz, a) => widen_keys::<u8, V>(small_map(a@, vals, sz as int)),
            Data::Vu8(_, b) => widen_keys::<u8, V>(map_view(b@, vals, u8::MAX)),
            Data::Su16(sz, a) => widen_keys::<u16, V>(small_map(a@, vals, sz as int)),
            Data::Vu16(_, b) => widen_keys::<u16, V>(map_view(b@, vals, u16::MAX)),
            Data::Su32(sz, a) => widen_keys::<u32, V>(small_map(a@, vals, sz as int)),
            Data::Vu32(_, b) => widen_keys::<u32, V>(map_view(b@, vals, u32::MAX)),
            Data::Su64(sz, a) => widen_keys::<u64, V>(small_map(a@, vals, sz as int)),
            Data::Vu64(_, b) => widen_keys::<u64, V>(map_view(b@, vals, u64::MAX)),
            Data::Badu64(_, b) => widen_keys::<u64, V>(map_view(b@.drop_last(), vals, b@.last())),
        }
    }

    /// The keys of the map are the elements of the set.
    pub proof fn lemma_co_view_dom<V>(&self, vals: Seq<V>)
        requires
            self.wf(),
        ensures
            self.co_view(vals).dom() == self@,
    {
        match self.v {
            Data::Su8(sz, a) => {
                assert(small_map(a@, vals, sz as int).dom() =~= crate::small::small_set(a@, sz as int));
                lemma_widen_keys_at(small_map(a@, vals, sz as int), 0u8, 0);
            },
            Data::Vu8(_, b) => {
                crate::table::lemma_map_view_dom(b@, vals, u8::MAX);
                lemma_widen_keys_at(map_view(b@, vals, u8::MAX), 0u8, 0);
            },
            Data::Su16(sz, a) => {
                assert(small_map(a@, vals, sz as int).dom() =~= crate::small::small_set(a@, sz as int));
                lemma_widen_keys_at(small_map(a@, vals, sz as int), 0u16, 0);
            },
            Data::Vu16(_, b) => {
                crate::table::lemma_map_view_dom(b@, vals, u16::MAX);
                lemma_widen_keys_at(map_view(b@, vals, u16::MAX), 0u16, 0);
            },
            Data::Su32(sz, a) => {
                assert(small_map(a@, vals, sz as int).dom() =~= crate::small::small_set(a@, sz as int));
                lemma_widen_keys_at(small_map(a@, vals, sz as int), 0u32, 0);
            },
            Data::Vu32(_, b) => {
                crate::table::lemma_map_view_dom(b@, vals, u32::MAX);
                lemma_widen_keys_at(map_view(b@, vals, u32::MAX), 0u32, 0);
            },
            Data::Su64(sz, a) => {
                assert(small_map(a@, vals, sz as int).dom() =~= crate::small::small_set(a@, sz as int));
                lemma_widen_keys_at(small_map(a@, vals, sz as int), 0u64, 0);
            },
            Data::Vu64(_, b) => {
                crate::table::lemma_map_view_dom(b@, vals, u64::MAX);
                lemma_widen_keys_at(map_view(b@, vals, u64::MAX), 0u64, 0);
            },
            Data::Badu64(_, b) => {
                crate::table::lemma_map_view_dom(b@.drop_last(), vals, b@.last());
                lemma_widen_keys_at(map_view(b@.drop_last(), vals, b@.last()), 0u64, 0);
            },
        }
    }

    /// The slot that `contains` finds for an element holds its value.
    pub proof fn lemma_co_view_at<V>(&self, vals: Seq<V>, i: int, x: u64)
        requires
            self.wf(),
            vals.len() == self.slots(),
            0 <= i < self.slots(),
            self.key_at(i) == Some(x),
        ensures
            self.co_view(vals).contains_key(x),
            self.co_view(vals)[x] == vals[i],
    {
        match self.v {
            Data::Su8(sz, a) => {
                crate::small::lemma_small_index(a@, sz as int, i);
                lemma_widen_keys_at(small_map(a@, vals, sz as int), a@[i], 0);
            },
            Data::Vu8(_, b) => {
                crate::table::lemma_map_view_at(b@, vals, u8::MAX, i);
                lemma_widen_keys_at(map_view(b@, vals, u8::MAX), b@[i], 0);
            },
            Data::Su16(sz, a) => {
                crate::small::lemma_small_index(a@, sz as int, i);
                lemma_widen_keys_at(small_map(a@, vals, sz as int), a@[i], 0);
            },
            Data::Vu16(_, b) => {
                crate::table::lemma_map_view_at(b@, vals, u16::MAX, i);
                lemma_widen_keys_at(map_view(b@, vals, u16::MAX), b@[i], 0);
            },
            Data::Su32(sz, a) => {
                crate::small::lemma_small_index(a@, sz as int, i);
                lemma_widen_keys_at(small_map(a@, vals, sz as int), a@[i], 0);
            },
            Data::Vu32(_, b) => {
                crate::table::lemma_map_view_at(b@, vals, u32::MAX, i);
                lemma_widen_keys_at(map_view(b@, vals, u32::MAX), b@[i], 0);
            },
            Data::Su64(sz, a) => {
                crate::small::lemma_small_index(a@, sz as int, i);
                lemma_widen_keys_at(small_map(a@, vals, sz as int), a@[i], 0);
            },
            Data::Vu64(_, b) => {
                crate::table::lemma_map_view_at(b@, vals, u64::MAX, i);
                lemma_widen_keys_at(map_view(b@, vals, u64::MAX), b@[i], 0);
            },
            Data::Badu64(_, b) => {
                crate::table::lemma_map_view_at(b@.drop_last(), vals, b@.last(), i);
                lemma_widen_keys_at(map_view(b@.drop_last(), vals, b@.last()), b@[i], 0);
            },
        }
    }

    /// Inserts `k` as `co_insert_unchecked` does, with a value slot for
    /// each slot of the storage and no more.
    fn co_insert_exact<V>(&mut self, vals: &mut [V], k: u64, v: V) -> (r: Option<V>)
        requires
            old(self).wf(),
            old(vals)@.len() == old(self).slots(),
            old(self).room() >= 1,
            old(self).count() < u32::MAX,
            k <= old(self).cur_max(),
        ensures
            final(self).wf(),
            final(vals)@.len() == old(vals)@.len(),
            final(self)@ == old(self)@.insert(k),
            final(self).co_view(final(vals)@) == old(self).co_view(old(vals)@).insert(k, v),
            r == old(self).co_view(old(vals)@).get(k),
            final(self).cur_max() == old(self).cur_max(),
            final(self).slots() == old(self).slots(),
            final(self).count() == old(self).count() + (if r is None { 1int } else { 0 }),
    {
        proof {
            self.lemma_len();
            u8::lemma_word();
            u16::lemma_word();
            u32::lemma_word();
            u64::lemma_word();
        }
        match &mut self.v {
            Data::Su8(sz, a) => {
                let r = co_small_put(a, vals, *sz as usize, k, v);
                if r.is_none() {
                    *sz = *sz + 1;
                }
                r
            },
            Data::Vu8(sz, b) => {
                let r = co_tab_put(b, vals, k, v, 255u8);
                proof {
                    lemma_tab_view_set_len::<u8>(b@, u8::MAX);
                }
                if r.is_none() {
                    *sz = *sz + 1;
                }
                r
            },
            Data::Su16(sz, a) => {
                let r = co_small_put(a, vals, *sz as usize, k, v);
                if r.is_none() {
                    *sz = *sz + 1;
                }
                r
            },
            Data::Vu16(sz, b) => {
                let r = co_tab_put(b, vals, k, v, 0xffffu16);
                proof {
                    lemma_tab_view_set_len::<u16>(b@, u16::MAX);
                }
                if r.is_none() {
                    *sz = *sz + 1;
                }
                r
            },
            Data::Su32(sz, a) => {
                let r = co_small_put(a, vals, *sz as usize, k, v);
                if r.is_none() {
                    *sz = *sz + 1;
                }
                r
            },
            Data::Vu32(sz, b) => {
                let r = co_tab_put(b, vals, k, v, 0xffff_ffffu32);
                proof {
                    lemma_tab_view_set_len::<u32>(b@, u32::MAX);
                }
                if r.is_none() {
                    *sz = *sz + 1;
                }
                r
            },
            Data::Su64(sz, a) => {
                let r = co_small_put(a, vals, *sz as usize, k, v);
                if r.is_none() {
                    *sz = *sz + 1;
                }
                r
            },
            Data::Vu64(sz, b) => {
                let r = co_tab_put(b, vals, k, v, u64::MAX);
                if r.is_none() {
                    *sz = *sz + 1;
                }
                r
            },
            Data::Badu64(sz, b) => {
                let r = co_marked_put(b, vals, k, v);
                if r.is_none() {
                    *sz = *sz + 1;
                }
                r
            },
        }
    }

    /// Removes `k` as `co_take` does, with a value slot for each slot
    /// of the storage and no more.
    fn co_remove_exact<V>(&mut self, vals: &mut [V], k: u64, filler: V) -> (r: Option<V>)
        requires
            old(self).wf(),
            old(vals)@.len() == old(self).slots(),
        ensures
            final(self).wf(),
            final(vals)@.len() == old(vals)@.len(),
            final(self)@ == old(self)@.remove(k),
            final(self).co_view(final(vals)@) == old(self).co_view(old(vals)@).remove(k),
            r == old(self).co_view(old(vals)@).get(k),
            final(self).cur_max() == old(self).cur_max(),
            final(self).slots() == old(self).slots(),
            final(self).count() == old(self).count() - (if r is Some { 1int } else { 0 }),
    {
        proof {
            self.lemma_len();
        }
        match &mut self.v {
            Data::Su8(sz, a) => {
                let r = co_small_take(a, vals, *sz as usize, k, filler);
                if r.is_some() {
                    *sz = *sz - 1;
                }
                r
            },
            Data::Vu8(sz, b) => {
                let r = co_tab_take(b, vals, k, 255u8, filler);
                if r.is_some() {
                    *sz = *sz - 1;
                }
                r
            },
            Data::Su16(sz, a) => {
                let r = co_small_take(a, vals, *sz as usize, k, filler);
                if r.is_some() {
                    *sz = *sz - 1;
                }
                r
            },
            Data::Vu16(sz, b) => {
                let r = co_tab_take(b, vals, k, 0xffffu16, filler);
                if r.is_some() {
                    *sz = *sz - 1;
                }
                r
            },
            Data::Su32(sz, a) => {
                let r = co_small_take(a, vals, *sz as usize, k, filler);
                if r.is_some() {
                    *sz = *sz - 1;
                }
                r
            },
            Data::Vu32(sz, b) => {
                let r = co_tab_take(b, vals, k, 0xffff_ffffu32, filler);
                if r.is_some() {
                    *sz = *sz - 1;
                }
                r
            },
            Data::Su64(sz, a) => {
                let r = co_small_take(a, vals, *sz as usize, k, filler);
                if r.is_some() {
                    *sz = *sz - 1;
                }
                r
            },
            Data::Vu64(sz, b) => {
                let r = co_tab_take(b, vals, k, u64::MAX, filler);
                if r.is_some() {
                    *sz = *sz - 1;
                }
                r
            },
            Data::Badu64(sz, b) => {
                let r = co_marked_take(b, vals, k, filler);
                if r.is_some() {
                    *sz = *sz - 1;
                }
                r
            },
        }
    }

    /// The entries as `co_entries` gives them, with a value slot for each
    /// slot of the storage and no more.
    fn co_entries_exact<V: Copy>(&self, vals: &[V]) -> (r: Vec<(u64, V)>)
        requires
            self.wf(),
            vals@.len() == self.slots(),
        ensures
            distinct_keys(r@),
            pairs_map(r@) == self.co_view(vals@),
    {
        match &self.v {
            Data::Su8(sz, a) => co_small_pairs(a, vals, *sz as usize),
            Data::Vu8(_, b) => co_tab_pairs(b, vals, 255u8),
            Data::Su16(sz, a) => co_small_pairs(a, vals, *sz as usize),
            Data::Vu16(_, b) => co_tab_pairs(b, vals, 0xffffu16),
            Data::Su32(sz, a) => co_small_pairs(a, vals, *sz as usize),
            Data::Vu32(_, b) => co_tab_pairs(b, vals, 0xffff_ffffu32),
            Data::Su64(sz, a) => co_small_pairs(a, vals, *sz as usize),
            Data::Vu64(_, b) => co_tab_pairs(b, vals, u64::MAX),
            Data::Badu64(_, b) => {
                let n = b.len() - 1;
                let inv = b[n];
                let (t, _) = b.split_at(n);
                assert(t@ == b@.drop_last());
                co_tab_pairs(t, vals, inv)
            },
        }
    }
    /// The map of the storage depends on the first `slots()` values only.
    pub proof fn lemma_co_view_take<V>(&self, vals: Seq<V>)
        requires
            self.wf(),
            vals.len() >= self.slots(),
        ensures
            self.co_view(vals) == self.co_view(vals.take(self.slots())),
    {
        let t = vals.take(self.slots());
        match self.v {
            Data::Su8(sz, a) => {
                lemma_small_map_take(a@, vals, sz as int, self.slots());
            },
            Data::Vu8(_, b) => {
                lemma_map_view_take(b@, vals, u8::MAX);
            },
            Data::Su16(sz, a) => {
                lemma_small_map_take(a@, vals, sz as int, self.slots());
            },
            Data::Vu16(_, b) => {
                lemma_map_view_take(b@, vals, u16::MAX);
            },
            Data::Su32(sz, a) => {
                lemma_small_map_take(a@, vals, sz as int, self.slots());
            },
            Data::Vu32(_, b) => {
                lemma_map_view_take(b@, vals, u32::MAX);
            },
            Data::Su64(sz, a) => {
                lemma_small_map_take(a@, vals, sz as int, self.slots());
            },
            Data::Vu64(_, b) => {
                lemma_map_view_take(b@, vals, u64::MAX);
            },
            Data::Badu64(_, b) => {
                lemma_map_view_take(b@.drop_last(), vals, b@.last());
            },
        }
    }

    /// Inserts `k`, which the storage must have room for, with the value
    /// `v` in its slot of `vals`, which has a value for each slot of the
    /// storage and may have more.  Returns the old value of `k`, if any.
    /// The values past the slots of the storage are left alone.
    pub fn co_insert_unchecked<V>(&mut self, vals: &mut [V], k: u64, v: V) -> (r: Option<V>)
        requires
            old(self).wf(),
            old(vals)@.len() >= old(self).slots(),
            old(self).room() >= 1,
            old(self).count() < u32::MAX,
            k <= old(self).cur_max(),
        ensures
            final(self).wf(),
            final(vals)@.len() == old(vals)@.len(),
            final(vals)@.skip(old(self).slots()) == old(vals)@.skip(old(self).slots()),
            final(self)@ == old(self)@.insert(k),
            final(self).co_view(final(vals)@) == old(self).co_view(old(vals)@).insert(k, v),
            r == old(self).co_view(old(vals)@).get(k),
            final(self).cur_max() == old(self).cur_max(),
            final(self).slots() == old(self).slots(),
            final(self).count() == old(self).count() + (if r is None { 1int } else { 0 }),
    {
        let n = self.rawcapacity();
        proof {
            self.lemma_co_view_take(vals@);
        }
        let (head, tail) = vals.split_at_mut(n);
        let r = self.co_insert_exact(head, k, v);
        proof {
            assert(vals@ =~= head@ + tail@);
            assert(vals@.skip(n as int) =~= tail@);
            assert(vals@.take(n as int) =~= head@);
            assert(old(vals)@.skip(n as int) =~= tail@);
            self.lemma_co_view_take(vals@);
        }
        r
    }

    /// Removes `k` and moves out the value in its slot of `vals`, which
    /// has a value for each slot of the storage and may have more, if `k`
    /// was an element; `filler` takes the place of the value in the slot
    /// left empty.  The values past the slots of the storage are left
    /// alone.
    fn co_take<V>(&mut self, vals: &mut [V], k: u64, filler: V) -> (r: Option<V>)
        requires
            old(self).wf(),
            old(vals)@.len() >= old(self).slots(),
        ensures
            final(self).wf(),
            final(vals)@.len() == old(vals)@.len(),
            final(vals)@.skip(old(self).slots()) == old(vals)@.skip(old(self).slots()),
            final(self)@ == old(self)@.remove(k),
            final(self).co_view(final(vals)@) == old(self).co_view(old(vals)@).remove(k),
            r == old(self).co_view(old(vals)@).get(k),
            final(self).cur_max() == old(self).cur_max(),
            final(self).slots() == old(self).slots(),
            final(self).count() == old(self).count() - (if r is Some { 1int } else { 0 }),
    {
        let n = self.rawcapacity();
        proof {
            self.lemma_co_view_take(vals@);
        }
        let (head, tail) = vals.split_at_mut(n);
        let r = self.co_remove_exact(head, k, filler);
        proof {
            assert(vals@ =~= head@ + tail@);
            assert(vals@.skip(n as int) =~= tail@);
            assert(vals@.take(n as int) =~= head@);
            assert(old(vals)@.skip(n as int) =~= tail@);
            self.lemma_co_view_take(vals@);
        }
        r
    }

    /// Removes `k` and returns the value in its slot of `vals`, which has
    /// a value for each slot of the storage and may have more, if `k` was
    /// an element.  The values past the slots of the storage are left
    /// alone.
    pub fn co_remove<V: Copy>(&mut self, vals: &mut [V], k: u64) -> (r: Option<V>)
        requires
            old(self).wf(),
            old(vals)@.len() >= old(self).slots(),
        ensures
            final(self).wf(),
            final(vals)@.len() == old(vals)@.len(),
            final(vals)@.skip(old(self).slots()) == old(vals)@.skip(old(self).slots()),
            final(self)@ == old(self)@.remove(k),
            final(self).co_view(final(vals)@) == old(self).co_view(old(vals)@).remove(k),
            r == old(self).co_view(old(vals)@).get(k),
            final(self).cur_max() == old(self).cur_max(),
            final(self).slots() == old(self).slots(),
            final(self).count() == old(self).count() - (if r is Some { 1int } else { 0 }),
    {
        match self.contains(&k) {
            Some(i) => {
                let f = vals[i];
                self.co_take(vals, k, f)
            },
            None => {
                proof {
                    self.lemma_co_view_dom(vals@);
                    assert(self@.remove(k) =~= self@);
                    assert(self.co_view(vals@).remove(k) =~= self.co_view(vals@));
                }
                None
            },
        }
    }

    /// The elements with the values of `vals` in their slots, each element
    /// once; `vals` has a value for each slot of the storage and may have
    /// more.
    pub fn co_entries<V: Copy>(&self, vals: &[V]) -> (r: Vec<(u64, V)>)
        requires
            self.wf(),
            vals@.len() >= self.slots(),
        ensures
            distinct_keys(r@),
            pairs_map(r@) == self.co_view(vals@),
    {
        let n = self.rawcapacity();
        let (head, _) = vals.split_at(n);
        proof {
            self.lemma_co_view_take(vals@);
            assert(vals@.take(n as int) =~= head@);
        }
        self.co_entries_exact(head)
    }

    /// The set is finite, and holds as many elements as the storage counts.
    pub proof fn lemma_view_finite(&self)
        requires
            self.wf(),
        ensures
            self@.finite(),
            self@.len() == self.count(),
            0 <= self.count() <= self.slots(),
    {
        self.lemma_len();
    }
}

/// The map of a table depends on the values of its slots only.
proof fn lemma_map_view_take<K, V>(keys: Seq<K>, vals: Seq<V>, inv: K)
    requires
        vals.len() >= keys.len(),
    ensures
        map_view(keys, vals, inv) == map_view(keys, vals.take(keys.len() as int), inv),
{
    let t = vals.take(keys.len() as int);
    assert(map_view(keys, vals, inv) =~= map_view(keys, t, inv)) by {
        assert forall|k: K| #[trigger] map_view(keys, vals, inv).contains_key(k) implies map_view(keys, vals, inv)[k]
            == map_view(keys, t, inv)[k] by {
            let i = crate::robin_map::key_index(keys, k);
            assert(0 <= i < keys.len() && keys[i] == k);
            assert(t[i] == vals[i]);
        }
    }
}

/// The map of a small array depends on the values of its first `n` slots
/// only, where `n` is at least its size.
proof fn lemma_small_map_take<K, V>(keys: Seq<K>, vals: Seq<V>, sz: int, n: int)
    requires
        0 <= sz <= n <= vals.len(),
    ensures
        small_map(keys, vals, sz) == small_map(keys, vals.take(n), sz),
{
    let t = vals.take(n);
    assert(small_map(keys, vals, sz) =~= small_map(keys, t, sz)) by {
        assert forall|k: K| #[trigger] small_map(keys, vals, sz).contains_key(k) implies small_map(keys, vals, sz)[k]
            == small_map(keys, t, sz)[k] by {
            let i = crate::small::small_index(keys, sz, k);
            assert(0 <= i < sz && keys[i] == k);
            assert(t[i] == vals[i]);
        }
    }
}

/// The elements a set held when it was drained.
pub struct Drain {
    items: Vec<u64>,
    pos: usize,
}

impl Drain {
    /// The elements still to come.
    pub closed spec fn remaining(&self) -> Seq<u64> {
        if self.pos <= self.items@.len() {
            self.items@.skip(self.pos as int)
        } else {
            Seq::empty()
        }
    }

    /// The next element, if any.
    pub fn next(&mut self) -> (r: Option<u64>)
        ensures
            old(self).remaining().len() == 0 ==> r is None
                && final(self).remaining() == old(self).remaining(),
            old(self).remaining().len() > 0 ==> r == Some(old(self).remaining()[0])
                && final(self).remaining() == old(self).remaining().drop_first(),
    {
        if self.pos < self.items.len() {
            let x = self.items[self.pos];
            self.pos = self.pos + 1;
            assert(self.items@.skip(self.pos as int) =~= old(self).remaining().drop_first());
            Some(x)
        } else {
            assert(old(self).remaining().len() == 0);
            None
        }
    }

    /// The number of elements still to come.
    pub fn size_hint(&self) -> (r: usize)
        ensures
            r == self.remaining().len(),
    {
        if self.pos < self.items.len() {
            self.items.len() - self.pos
        } else {
            0
        }
    }
}

/// The values whose codes are in `s`.
pub open spec fn decoded_set<T: Fits64>(s: Set<u64>) -> Set<T> {
    Set::new(|t: T| t.spec_fits() && s.contains(t.spec_to_u64()))
}

/// Every element of `s` is a code of `T`.
pub open spec fn all_codes_set<T: Fits64>(s: Set<u64>) -> bool {
    forall|x: u64| #[trigger] s.contains(x) ==> is_code::<T>(x)
}

pub proof fn lemma_decoded_set_insert<T: Fits64>(s: Set<u64>, t: T)
    requires
        t.spec_fits(),
    ensures
        decoded_set::<T>(s.insert(t.spec_to_u64())) == decoded_set::<T>(s).insert(t),
        all_codes_set::<T>(s) ==> all_codes_set::<T>(s.insert(t.spec_to_u64())),
{
    lemma_code_of(t, t);
    assert forall|u: T| #[trigger] decoded_set::<T>(s.insert(t.spec_to_u64())).contains(u) <==> decoded_set::<T>(s).insert(t).contains(u) by {
        if u.spec_fits() {
            lemma_code_of(u, t);
        }
    }
    assert(decoded_set::<T>(s.insert(t.spec_to_u64())) =~= decoded_set::<T>(s).insert(t));
}

pub proof fn lemma_decoded_set_remove<T: Fits64>(s: Set<u64>, t: T)
    requires
        t.spec_fits(),
    ensures
        decoded_set::<T>(s.remove(t.spec_to_u64())) == decoded_set::<T>(s).remove(t),
        all_codes_set::<T>(s) ==> all_codes_set::<T>(s.remove(t.spec_to_u64())),
{
    assert forall|u: T| #[trigger] decoded_set::<T>(s.remove(t.spec_to_u64())).contains(u) <==> decoded_set::<T>(s).remove(t).contains(u) by {
        if u.spec_fits() {
            lemma_code_of(u, t);
        }
    }
    assert(decoded_set::<T>(s.remove(t.spec_to_u64())) =~= decoded_set::<T>(s).remove(t));
}

/// The decoded set has as many elements as `s`.
pub proof fn lemma_decoded_set_len<T: Fits64>(s: Set<u64>)
    requires
        s.finite(),
        all_codes_set::<T>(s),
    ensures
        decoded_set::<T>(s).finite(),
        decoded_set::<T>(s).len() == s.len(),
{
    let f = |x: u64| T::spec_from_u64(x);
    let d = decoded_set::<T>(s);
    assert(vstd::relations::injective_on(f, s)) by {
        assert forall|x: u64, y: u64| s.contains(x) && s.contains(y) && #[trigger] f(x) == #[trigger] f(y) implies x == y by {
            lemma_decode_code::<T>(x);
            lemma_decode_code::<T>(y);
        }
    }
    assert(s.map(f) =~= d) by {
        assert forall|t: T| #[trigger] d.contains(t) implies s.map(f).contains(t) by {
            T::lemma_fits64(t, 0);
            assert(s.contains(t.spec_to_u64()) && t == f(t.spec_to_u64()));
        }
        assert forall|t: T| #[trigger] s.map(f).contains(t) implies d.contains(t) by {
            let x = choose|x: u64| s.contains(x) && t == f(x);
            lemma_decode_code::<T>(x);
        }
    }
    vstd::set_lib::lemma_map_size(s, d, f);
}

/// A set type that can store any type that fits in a `u64`.  This set
/// type is very space-efficient in storing small integers, while not
/// being bad at storing large integers.
#[derive(Debug)]
pub struct Set64<T: Fits64> {
    s: U64Set,
    ph: PhantomData<T>,
}

impl<T: Fits64> View for Set64<T> {
    type V = Set<T>;

    closed spec fn view(&self) -> Set<T> {
        decoded_set::<T>(self.s@)
    }
}

impl<T: Fits64> Set64<T> {
    /// The underlying set is well formed and holds codes only.
    pub closed spec fn wf(&self) -> bool {
        &&& self.s.wf()
        &&& all_codes_set::<T>(self.s@)
    }

    /// How many more elements the storage takes without growing.
    pub closed spec fn room(&self) -> int {
        self.s.room()
    }

    /// The largest code that the storage takes without being rebuilt in
    /// wider words.
    pub closed spec fn max_fit(&self) -> u64 {
        self.s.cur_max()
    }

    /// Creates an empty set..
    pub fn default() -> (s: Self)
        ensures
            s.wf(),
            s@ == Set::<T>::empty(),
            s.max_fit() >= 254,
    {
        Self::new()
    }

    /// Creates an empty set..
    pub fn new() -> (s: Self)
        ensures
            s.wf(),
            s@ == Set::<T>::empty(),
            s.max_fit() >= 254,
    {
        let s = Set64 { s: U64Set::with_capacity(0), ph: PhantomData };
        assert(s@ =~= Set::<T>::empty());
        s
    }

    /// Creates an empty set with the specified capacity.
    pub fn with_capacity(cap: usize) -> (s: Self)
        requires
            cap <= max_capacity(),
        ensures
            s.wf(),
            s@ == Set::<T>::empty(),
            s.room() >= cap,
            s.max_fit() >= 254,
    {
        let s = Set64 { s: U64Set::with_capacity(cap), ph: PhantomData };
        assert(s@ =~= Set::<T>::empty());
        s
    }

    /// Creates an empty set with the specified capacity, for elements up
    /// to `max`.
    pub fn with_max_and_capacity(max: T, cap: usize) -> (s: Self)
        requires
            max.spec_fits(),
            cap < max_capacity(),
        ensures
            s.wf(),
            s@ == Set::<T>::empty(),
            s.room() >= cap,
            s.max_fit() >= max.spec_to_u64(),
    {
        let s = Set64 { s: U64Set::with_max_and_capacity(max.to_u64(), cap), ph: PhantomData };
        assert(s@ =~= Set::<T>::empty());
        s
    }

    /// Reserves capacity for at least `additional` more elements to be
    /// inserted in the set. The collection may reserve more space
    /// to avoid frequent reallocations.
    pub fn reserve(&mut self, additional: usize)
        requires
            old(self).wf(),
            old(self)@.len() + additional < set_limit(),
        ensures
            final(self).wf(),
            final(self)@ == old(self)@,
            final(self).room() >= additional,
    {
        proof {
            self.s.lemma_len();
            lemma_decoded_set_len::<T>(self.s@);
        }
        self.s.reserve(additional);
    }

    /// Reserves capacity for at least `additional` more elements to
    /// be inserted in the set, with maximum value of `max`. The
    /// collection may reserve more space to avoid frequent
    /// reallocations.
    pub fn reserve_with_max(&mut self, max: T, additional: usize)
        requires
            old(self).wf(),
            max.spec_fits(),
            old(self)@.len() + additional < set_limit(),
        ensures
            final(self).wf(),
            final(self)@ == old(self)@,
            final(self).room() >= additional,
            final(self).max_fit() >= max.spec_to_u64(),
            final(self).max_fit() >= old(self).max_fit(),
    {
        proof {
            self.s.lemma_len();
            lemma_decoded_set_len::<T>(self.s@);
        }
        self.s.reserve_with_max(max.to_u64(), additional);
    }

    /// Adds a value to the set.
    ///
    /// If the set did not have this value present, `true` is returned.
    ///
    /// If the set did have this value present, `false` is returned.
    pub fn insert(&mut self, elem: T) -> (added: bool)
        requires
            old(self).wf(),
            elem.spec_fits(),
            old(self)@.len() + 1 < set_limit(),
        ensures
            final(self).wf(),
            final(self)@ == old(self)@.insert(elem),
            added == !old(self)@.contains(elem),
    {
        proof {
            self.s.lemma_len();
            lemma_decoded_set_len::<T>(self.s@);
            lemma_decoded_set_insert::<T>(self.s@, elem);
        }
        self.s.insert(elem.to_u64())
    }

    /// Returns the number of elements in the set.
    pub fn len(&self) -> (r: usize)
        requires
            self.wf(),
        ensures
            r == self@.len(),
    {
        proof {
            self.s.lemma_len();
            lemma_decoded_set_len::<T>(self.s@);
        }
        self.s.len()
    }

    /// Returns true if the set contains a value.
    pub fn contains(&self, value: &T) -> (r: bool)
        requires
            self.wf(),
            value.spec_fits(),
        ensures
            r == self@.contains(*value),
    {
        let x = value.to_u64();
        self.s.contains(&x).is_some()
    }

    /// Removes an element, and returns true if that element was present.
    pub fn remove(&mut self, value: &T) -> (removed: bool)
        requires
            old(self).wf(),
            value.spec_fits(),
        ensures
            final(self).wf(),
            final(self)@ == old(self)@.remove(*value),
            removed == old(self)@.contains(*value),
    {
        proof {
            lemma_decoded_set_remove::<T>(self.s@, *value);
        }
        let x = value.to_u64();
        self.s.remove(&x)
    }

    /// Decodes a vector of codes.
    fn decode_all(items: &Vec<u64>) -> (r: Vec<T>)
        requires
            items@.no_duplicates(),
            forall|j: int| 0 <= j < items@.len() ==> is_code::<T>(#[trigger] items@[j]),
        ensures
            r@.len() == items@.len(),
            r@.no_duplicates(),
            r@.to_set() == decoded_set::<T>(items@.to_set()),
    {
        let mut r: Vec<T> = Vec::new();
        let mut i: usize = 0;
        proof {
            assert(r@.to_set() =~= decoded_set::<T>(items@.take(0).to_set()));
        }
        while i < items.len()
            invariant
                items@.no_duplicates(),
                forall|j: int| 0 <= j < items@.len() ==> is_code::<T>(#[trigger] items@[j]),
                i <= items@.len(),
                r@.len() == i,
                r@.no_duplicates(),
                r@.to_set() == decoded_set::<T>(items@.take(i as int).to_set()),
            decreases items@.len() - i,
        {
            let x = items[i];
            proof {
                lemma_decode_code::<T>(x);
            }
            let t = T::from_u64(x);
            proof {
                let p = items@.take(i as int);
                assert(items@.take(i + 1) =~= p.push(x));
                p.lemma_push_to_set_commute(x);
                lemma_decoded_set_insert::<T>(p.to_set(), t);
                r@.lemma_push_to_set_commute(t);
                assert(!r@.contains(t)) by {
                    if r@.contains(t) {
                        assert(r@.to_set().contains(t));
                        assert(p.to_set().contains(x));
                        let j = choose|j: int| 0 <= j < p.len() && p[j] == x;
                        assert(items@[j] != items@[i as int]);
                    }
                }
            }
            r.push(t);
            i += 1;
        }
        proof {
            assert(items@.take(items@.len() as int) =~= items@);
        }
        r
    }

    /// The elements, each once.
    pub fn iter(&self) -> (r: Vec<T>)
        requires
            self.wf(),
        ensures
            r@.to_set() == self@,
            r@.no_duplicates(),
            r@.len() == self@.len(),
    {
        let items = self.s.iter();
        proof {
            assert forall|j: int| 0 <= j < items@.len() implies is_code::<T>(#[trigger] items@[j]) by {
                assert(items@.to_set().contains(items@[j]));
            }
            self.s.lemma_len();
            lemma_decoded_set_len::<T>(self.s@);
        }
        Self::decode_all(&items)
    }

    /// Clears the set, returning all elements.
    pub fn drain(&mut self) -> (r: Drain64<T>)
        requires
            old(self).wf(),
        ensures
            final(self).wf(),
            final(self)@ == Set::<T>::empty(),
            r.remaining().to_set() == old(self)@,
            r.remaining().no_duplicates(),
            r.remaining().len() == old(self)@.len(),
    {
        proof {
            self.s.lemma_len();
            lemma_decoded_set_len::<T>(self.s@);
        }
        let items = self.s.drain_items();
        proof {
            assert forall|j: int| 0 <= j < items@.len() implies is_code::<T>(#[trigger] items@[j]) by {
                assert(items@.to_set().contains(items@[j]));
            }
            assert(self@ =~= Set::<T>::empty());
        }
        let r = Self::decode_all(&items);
        let d = Drain64 { items: r, pos: 0 };
        assert(d.remaining() =~= r@);
        d
    }

    /// The set is finite.
    pub proof fn lemma_view_finite(&self)
        requires
            self.wf(),
        ensures
            self@.finite(),
    {
        self.s.lemma_len();
        lemma_decoded_set_len::<T>(self.s@);
    }

    /// Every element fits in a `u64`.
    pub proof fn lemma_fits(&self, v: T)
        requires
            self@.contains(v),
        ensures
            v.spec_fits(),
    {
    }

    /// The set of the given elements.
    pub fn from_items(items: Vec<T>) -> (s: Self)
        requires
            items@.len() + 1 < set_limit(),
            forall|j: int| 0 <= j < items@.len() ==> (#[trigger] items@[j]).spec_fits(),
        ensures
            s.wf(),
            s@ == items@.to_set(),
    {
        proof {
            vstd::layout::unsigned_int_max_values();
        }
        let mut c = Set64::with_capacity(items.len());
        let mut i: usize = 0;
        proof {
            assert(items@.take(0).to_set() =~= Set::<T>::empty());
        }
        while i < items.len()
            invariant
                c.wf(),
                items@.len() + 1 < set_limit(),
                forall|j: int| 0 <= j < items@.len() ==> (#[trigger] items@[j]).spec_fits(),
                i <= items@.len(),
                c@ == items@.take(i as int).to_set(),
                c@.len() <= i,
            decreases items@.len() - i,
        {
            proof {
                assert(items@.take(i + 1) =~= items@.take(i as int).push(items@[i as int]));
                items@.take(i as int).lemma_push_to_set_commute(items@[i as int]);
                items@.take(i as int).lemma_cardinality_of_set();
            }
            c.insert(items[i]);
            proof {
                c.lemma_view_finite();
            }
            i += 1;
        }
        proof {
            assert(items@.take(items@.len() as int) =~= items@);
        }
        c
    }

    /// Adds the given elements to the set.
    pub fn extend(&mut self, items: Vec<T>)
        requires
            old(self).wf(),
            old(self)@.len() + items@.len() + 1 < set_limit(),
            forall|j: int| 0 <= j < items@.len() ==> (#[trigger] items@[j]).spec_fits(),
        ensures
            final(self).wf(),
            final(self)@ == old(self)@.union(items@.to_set()),
    {
        proof {
            old(self).lemma_view_finite();
        }
        self.reserve(items.len());
        let mut i: usize = 0;
        proof {
            assert(items@.take(0).to_set() =~= Set::<T>::empty());
            assert(self@.union(Set::<T>::empty()) =~= self@);
        }
        while i < items.len()
            invariant
                self.wf(),
                old(self)@.len() + items@.len() + 1 < set_limit(),
                old(self)@.finite(),
                forall|j: int| 0 <= j < items@.len() ==> (#[trigger] items@[j]).spec_fits(),
                i <= items@.len(),
                self@ == old(self)@.union(items@.take(i as int).to_set()),
                self@.len() <= old(self)@.len() + i,
            decreases items@.len() - i,
        {
            proof {
                assert(items@.take(i + 1) =~= items@.take(i as int).push(items@[i as int]));
                items@.take(i as int).lemma_push_to_set_commute(items@[i as int]);
                assert(old(self)@.union(items@.take(i + 1).to_set()) =~= old(self)@.union(items@.take(i as int).to_set()).insert(items@[i as int]));
            }
            self.insert(items[i]);
            proof {
                self.lemma_view_finite();
            }
            i += 1;
        }
        proof {
            assert(items@.take(items@.len() as int) =~= items@);
        }
    }

    /// The elements of the set that are not in `rhs`.
    pub fn difference(&self, rhs: &Set64<T>) -> (s: Set64<T>)
        requires
            self.wf(),
            rhs.wf(),
            self@.len() + 1 < set_limit(),
        ensures
            s.wf(),
            s@ == self@.difference(rhs@),
    {
        let items = self.iter();
        let mut s = Set64::with_capacity(items.len());
        let mut i: usize = 0;
        proof {
            self.lemma_view_finite();
            assert(items@.take(0).to_set() =~= Set::<T>::empty());
            assert(Set::<T>::empty().difference(rhs@) =~= Set::<T>::empty());
        }
        while i < items.len()
            invariant
                s.wf(),
                rhs.wf(),
                self.wf(),
                items@.to_set() == self@,
                items@.len() == self@.len(),
                self@.len() + 1 < set_limit(),
                i <= items@.len(),
                s@ == items@.take(i as int).to_set().difference(rhs@),
                s@.len() <= i,
            decreases items@.len() - i,
        {
            let v = items[i];
            proof {
                assert(items@.take(i + 1) =~= items@.take(i as int).push(v));
                items@.take(i as int).lemma_push_to_set_commute(v);
                assert(self@.contains(v)) by {
                    assert(items@.to_set().contains(v));
                }
                self.lemma_fits(v);
            }
            if !rhs.contains(&v) {
                s.insert(v);
                proof {
                    assert(items@.take(i + 1).to_set().difference(rhs@) =~= items@.take(i as int).to_set().difference(rhs@).insert(v));
                }
            } else {
                proof {
                    assert(items@.take(i + 1).to_set().difference(rhs@) =~= items@.take(i as int).to_set().difference(rhs@));
                }
            }
            proof {
                s.lemma_view_finite();
            }
            i += 1;
        }
        proof {
            assert(items@.take(items@.len() as int) =~= items@);
        }
        s
    }

    /// The elements of either set.
    pub fn union(&self, rhs: &Set64<T>) -> (s: Set64<T>)
        requires
            self.wf(),
            rhs.wf(),
            self@.len() + rhs@.len() + 1 < set_limit(),
        ensures
            s.wf(),
            s@ == self@.union(rhs@),
    {
        let a = self.iter();
        let b = rhs.iter();
        proof {
            self.lemma_view_finite();
            rhs.lemma_view_finite();
            assert forall|j: int| 0 <= j < a@.len() implies (#[trigger] a@[j]).spec_fits() by {
                assert(a@.to_set().contains(a@[j]));
                self.lemma_fits(a@[j]);
            }
            assert forall|j: int| 0 <= j < b@.len() implies (#[trigger] b@[j]).spec_fits() by {
                assert(b@.to_set().contains(b@[j]));
                rhs.lemma_fits(b@[j]);
            }
        }
        let mut s = Set64::from_items(a);
        s.extend(b);
        s
    }

    /// Whether the two sets have the same elements.
    pub fn eq(&self, other: &Set64<T>) -> (r: bool)
        requires
            self.wf(),
            other.wf(),
        ensures
            r == (self@ == other@),
    {
        proof {
            self.s.lemma_len();
            lemma_decoded_set_len::<T>(self.s@);
            other.s.lemma_len();
            lemma_decoded_set_len::<T>(other.s@);
        }
        if self.len() != other.len() {
            return false;
        }
        let items = other.iter();
        let mut i: usize = 0;
        while i < items.len()
            invariant
                self.wf(),
                other.wf(),
                items@.to_set() == other@,
                items@.no_duplicates(),
                items@.len() == other@.len(),
                self@.len() == other@.len(),
                self@.finite(),
                i <= items@.len(),
                forall|j: int| 0 <= j < i ==> self@.contains(#[trigger] items@[j]),
            decreases items@.len() - i,
        {
            let x = items[i];
            proof {
                assert(items@.to_set().contains(x));
            }
            if !self.contains(&x) {
                proof {
                    assert(other@.contains(x));
                }
                return false;
            }
            i += 1;
        }
        proof {
            assert(other@.subset_of(self@)) by {
                assert forall|t: T| other@.contains(t) implies self@.contains(t) by {
                    let j = choose|j: int| 0 <= j < items@.len() && items@[j] == t;
                }
            }
            vstd::set_lib::lemma_subset_equality(other@, self@);
        }
        true
    }
}

/// The elements a `Set64` held when it was drained.
pub struct Drain64<T: Fits64> {
    items: Vec<T>,
    pos: usize,
}

impl<T: Fits64> Drain64<T> {
    /// The elements still to come.
    pub closed spec fn remaining(&self) -> Seq<T> {
        if self.pos <= self.items@.len() {
            self.items@.skip(self.pos as int)
        } else {
            Seq::empty()
        }
    }

    /// The next element, if any.
    pub fn next(&mut self) -> (r: Option<T>)
        ensures
            old(self).remaining().len() == 0 ==> r is None
                && final(self).remaining() == old(self).remaining(),
            old(self).remaining().len() > 0 ==> r == Some(old(self).remaining()[0])
                && final(self).remaining() == old(self).remaining().drop_first(),
    {
        if self.pos < self.items.len() {
            let x = self.items[self.pos];
            self.pos = self.pos + 1;
            assert(self.items@.skip(self.pos as int) =~= old(self).remaining().drop_first());
            Some(x)
        } else {
            assert(old(self).remaining().len() == 0);
            None
        }
    }

    /// The number of elements still to come.
    pub fn size_hint(&self) -> (r: usize)
        ensures
            r == self.remaining().len(),
    {
        if self.pos < self.items.len() {
            self.items.len() - self.pos
        } else {
            0
        }
    }
}

/// The map of keys whose codes `m` maps to present values.
pub open spec fn decoded_vals<K: Fits64, V>(m: Map<u64, Option<V>>) -> Map<K, V> {
    Map::new(
        |k: K| k.spec_fits() && m.contains_key(k.spec_to_u64()),
        |k: K| m[k.spec_to_u64()]->0,
    )
}

/// Every key of `m` is a code of `K` and maps to a present value.
pub open spec fn codes_present<K: Fits64, V>(m: Map<u64, Option<V>>) -> bool {
    forall|x: u64| #[trigger] m.contains_key(x) ==> is_code::<K>(x) && m[x] is Some
}

pub proof fn lemma_decoded_vals_insert<K: Fits64, V>(m: Map<u64, Option<V>>, k: K, v: V)
    requires
        k.spec_fits(),
    ensures
        decoded_vals::<K, V>(m.insert(k.spec_to_u64(), Some(v))) == decoded_vals::<K, V>(m).insert(k, v),
        codes_present::<K, V>(m) ==> codes_present::<K, V>(m.insert(k.spec_to_u64(), Some(v))),
{
    lemma_code_of(k, k);
    let a = decoded_vals::<K, V>(m.insert(k.spec_to_u64(), Some(v)));
    let b = decoded_vals::<K, V>(m).insert(k, v);
    assert forall|j: K| #[trigger] a.contains_key(j) <==> b.contains_key(j) by {
        if j.spec_fits() {
            lemma_code_of(j, k);
        }
    }
    assert forall|j: K| #[trigger] a.contains_key(j) implies a[j] == b[j] by {
        lemma_code_of(j, k);
    }
    assert(a =~= b);
}

pub proof fn lemma_decoded_vals_remove<K: Fits64, V>(m: Map<u64, Option<V>>, k: K)
    requires
        k.spec_fits(),
    ensures
        decoded_vals::<K, V>(m.remove(k.spec_to_u64())) == decoded_vals::<K, V>(m).remove(k),
        codes_present::<K, V>(m) ==> codes_present::<K, V>(m.remove(k.spec_to_u64())),
{
    let a = decoded_vals::<K, V>(m.remove(k.spec_to_u64()));
    let b = decoded_vals::<K, V>(m).remove(k);
    assert forall|j: K| #[trigger] a.contains_key(j) <==> b.contains_key(j) by {
        if j.spec_fits() {
            lemma_code_of(j, k);
        }
    }
    assert(a =~= b);
}

/// The decoded map has as many entries as `m`.
pub proof fn lemma_decoded_vals_len<K: Fits64, V>(m: Map<u64, Option<V>>)
    requires
        m.dom().finite(),
        codes_present::<K, V>(m),
    ensures
        decoded_vals::<K, V>(m).dom().finite(),
        decoded_vals::<K, V>(m).len() == m.len(),
{
    assert(all_codes_set::<K>(m.dom()));
    lemma_decoded_set_len::<K>(m.dom());
    assert(decoded_vals::<K, V>(m).dom() =~= decoded_set::<K>(m.dom()));
}

/// `ks` lists the keys of `m`, each once.
pub open spec fn lists_keys<K, V>(m: Map<K, V>, ks: Seq<K>) -> bool {
    &&& ks.len() == m.len()
    &&& ks.no_duplicates()
    &&& forall|k: K| m.contains_key(k) <==> ks.contains(k)
}

/// A map type that can use any key that fits in a `u64` (i.e. that
/// satisfies trait `Fits64`), to values of any type.  This map type is very
/// space-efficient for keys that are small integers, while not being bad
/// at storing large integers.
#[derive(Debug)]
pub struct Map64<K: Fits64, V> {
    set: U64Set,
    data: Box<[Option<V>]>,
    ph: PhantomData<K>,
}

impl<K: Fits64, V> View for Map64<K, V> {
    type V = Map<K, V>;

    closed spec fn view(&self) -> Map<K, V> {
        decoded_vals::<K, V>(self.set.co_view(self.data@))
    }
}

/// A table of `n` absent values.
fn absent_values<V>(n: usize) -> (r: Vec<Option<V>>)
    ensures
        r@.len() == n,
{
    let mut r: Vec<Option<V>> = Vec::with_capacity(n);
    let mut i: usize = 0;
    while i < n
        invariant
            i <= n,
            r@.len() == i,
        decreases n - i,
    {
        r.push(None);
        i += 1;
    }
    r
}

impl<K: Fits64, V> Map64<K, V> {
    /// The key set is well formed, a value slot for each of its slots, the
    /// keys codes and their values present.
    pub closed spec fn wf(&self) -> bool {
        &&& self.set.wf()
        &&& self.data@.len() == self.set.slots()
        &&& codes_present::<K, V>(self.set.co_view(self.data@))
    }

    proof fn lemma_len(&self)
        requires
            self.wf(),
        ensures
            self@.dom().finite(),
            self@.len() == self.set@.len(),
            self.set@.len() == self.set.count(),
            self.set.count() <= self.set.slots(),
            self.set.co_view(self.data@).dom() == self.set@,
    {
        self.set.lemma_len();
        self.set.lemma_co_view_dom(self.data@);
        lemma_decoded_vals_len::<K, V>(self.set.co_view(self.data@));
    }

    /// The map is finite.
    pub proof fn lemma_view_finite(&self)
        requires
            self.wf(),
        ensures
            self@.dom().finite(),
    {
        self.lemma_len();
    }

    /// Creates an empty `Map64`.
    pub fn new() -> (m: Map64<K, V>)
        ensures
            m.wf(),
            m@ == Map::<K, V>::empty(),
    {
        Map64::with_capacity(0)
    }

    /// Creates an empty `Map64` with the specified capacity.
    pub fn with_capacity(cap: usize) -> (m: Map64<K, V>)
        requires
            cap <= max_capacity(),
        ensures
            m.wf(),
            m@ == Map::<K, V>::empty(),
    {
        let set = U64Set::with_capacity(cap);
        let n = set.rawcapacity();
        let data = into_boxed(absent_values(n));
        let m = Map64 { set, data, ph: PhantomData };
        proof {
            m.set.lemma_co_view_dom(m.data@);
            assert(m.set.co_view(m.data@).dom() =~= Set::<u64>::empty());
            assert(m@ =~= Map::<K, V>::empty());
        }
        m
    }

    fn with_max_cap(max: u64, cap: usize) -> (m: Map64<K, V>)
        requires
            cap < max_capacity(),
        ensures
            m.wf(),
            m@ == Map::<K, V>::empty(),
            m.set@ == Set::<u64>::empty(),
            m.set.room() >= cap,
            m.set.cur_max() >= max,
    {
        let set = U64Set::with_max_and_capacity(max, cap);
        let n = set.rawcapacity();
        let data = into_boxed(absent_values(n));
        let m = Map64 { set, data, ph: PhantomData };
        proof {
            m.set.lemma_co_view_dom(m.data@);
            assert(m.set.co_view(m.data@).dom() =~= Set::<u64>::empty());
            assert(m@ =~= Map::<K, V>::empty());
        }
        m
    }

    /// Moves the entries of this map into a new one with room for `cap`
    /// entries and keys up to `max`.
    fn rebuilt(&mut self, max: u64, cap: usize) -> (n: Map64<K, V>)
        requires
            old(self).wf(),
            old(self)@.len() <= cap < set_limit(),
            max >= old(self).set.cur_max(),
        ensures
            n.wf(),
            n@ == old(self)@,
            n.set.room() >= cap - old(self)@.len(),
            n.set.cur_max() >= max,
    {
        proof {
            self.lemma_len();
        }
        let ks = self.set.iter();
        let mut n = Map64::<K, V>::with_max_cap(max, cap);
        let ghost cv = self.set.co_view(self.data@);
        let ghost len0 = self@.len();
        let ghost mut taken = Set::<u64>::empty();
        proof {
            n.set.lemma_len();
            n.set.lemma_co_view_dom(n.data@);
            assert(n.set.co_view(n.data@) =~= cv.restrict(taken));
            assert(self.set.co_view(self.data@) =~= cv.remove_keys(taken));
            assert forall|j: int| 0 <= j < ks@.len() implies #[trigger] ks@[j] <= max && cv.contains_key(ks@[j]) by {
                assert(ks@.contains(ks@[j]));
                assert(ks@.to_set().contains(ks@[j]));
                self.set.lemma_below_max(ks@[j]);
            }
        }
        let mut i: usize = 0;
        while i < ks.len()
            invariant
                self.set.wf(),
                self.data@.len() == self.set.slots(),
                n.set.wf(),
                n.data@.len() == n.set.slots(),
                codes_present::<K, V>(cv),
                ks@.no_duplicates(),
                ks@.len() == len0,
                len0 <= cap < set_limit(),
                forall|j: int| 0 <= j < ks@.len() ==> #[trigger] ks@[j] <= max && cv.contains_key(ks@[j]),
                i <= ks@.len(),
                forall|x: u64| taken.contains(x) <==> exists|j: int| 0 <= j < i && #[trigger] ks@[j] == x,
                self.set.co_view(self.data@) == cv.remove_keys(taken),
                n.set.co_view(n.data@) == cv.restrict(taken),
                n.set.count() == i,
                n.set.room() >= cap - i,
                n.set.cur_max() >= max,
            decreases ks@.len() - i,
        {
            let kk = ks[i];
            proof {
                if taken.contains(kk) {
                    let j = choose|j: int| 0 <= j < i && #[trigger] ks@[j] == kk;
                    assert(ks@[j] != ks@[i as int]);
                }
                assert(ks@[i as int] <= max && cv.contains_key(ks@[i as int]));
            }
            let v = self.set.co_take(&mut self.data, kk, None);
            let vv = match v {
                Some(x) => x,
                None => None,
            };
            n.set.co_insert_unchecked(&mut n.data, kk, vv);
            proof {
                let t0 = taken;
                taken = taken.insert(kk);
                assert(self.set.co_view(self.data@) =~= cv.remove_keys(taken));
                assert(n.set.co_view(n.data@) =~= cv.restrict(taken));
                assert forall|x: u64| taken.contains(x) <==> exists|j: int| 0 <= j < i + 1 && #[trigger] ks@[j] == x by {
                    if x == kk {
                        assert(ks@[i as int] == x);
                    }
                    if t0.contains(x) {
                        let j = choose|j: int| 0 <= j < i && #[trigger] ks@[j] == x;
                        assert(0 <= j < i + 1 && ks@[j] == x);
                    }
                    if exists|j: int| 0 <= j < i + 1 && #[trigger] ks@[j] == x {
                        let j = choose|j: int| 0 <= j < i + 1 && #[trigger] ks@[j] == x;
                        if j < i {
                            assert(t0.contains(x));
                        }
                    }
                }
            }
            i += 1;
        }
        proof {
            assert forall|x: u64| cv.contains_key(x) implies taken.contains(x) by {
                assert(ks@.to_set().contains(x));
                assert(ks@.contains(x));
                let j = choose|j: int| 0 <= j < ks@.len() && ks@[j] == x;
                assert(ks@[j] == x);
            }
            assert(n.set.co_view(n.data@) =~= cv);
        }
        n
    }

    /// Inserts a key-value pair into the map.
    ///
    /// If the map did not have this key present, None is returned.
    ///
    /// If the map did have this key present, the value is updated,
    /// and the old value is returned.
    pub fn insert(&mut self, k: K, v: V) -> (r: Option<V>)
        requires
            old(self).wf(),
            k.spec_fits(),
            2 * ((old(self)@.len() + 1) * 11 / 10) <= set_limit(),
        ensures
            final(self).wf(),
            final(self)@ == old(self)@.insert(k, v),
            r == old(self)@.get(k),
    {
        proof {
            self.lemma_len();
        }
        proof {
            vstd::layout::unsigned_int_max_values();
        }
        let nextcap = capacity_to_rawcapacity(self.set.len() + 1);
        proof {
            crate::word::lemma_next_pow2_below_double(((self@.len() + 1) * 11 / 10) as int, nextcap as int);
        }
        let kk = k.to_u64();
        let curmax = self.set.current_max();
        let curcap = self.set.rawcapacity();
        if kk > curmax || nextcap > curcap {
            let max = if kk > curmax {
                kk
            } else {
                curmax
            };
            let n = self.rebuilt(max, nextcap);
            *self = n;
        }
        proof {
            self.lemma_len();
            lemma_decoded_vals_insert::<K, V>(self.set.co_view(self.data@), k, v);
            lemma_code_of(k, k);
        }
        let r = self.set.co_insert_unchecked(&mut self.data, kk, Some(v));
        match r {
            Some(o) => o,
            None => None,
        }
    }

    /// Removes a key from the map, returning the value at the key if
    /// the key was previously in the map.
    pub fn remove(&mut self, k: &K) -> (r: Option<V>)
        requires
            old(self).wf(),
            k.spec_fits(),
        ensures
            final(self).wf(),
            final(self)@ == old(self)@.remove(*k),
            r == old(self)@.get(*k),
    {
        proof {
            lemma_decoded_vals_remove::<K, V>(self.set.co_view(self.data@), *k);
        }
        let r = self.set.co_take(&mut self.data, k.to_u64(), None);
        match r {
            Some(o) => o,
            None => None,
        }
    }

    /// Returns true if the key is in the map.
    pub fn contains_key(&self, k: &K) -> (r: bool)
        requires
            self.wf(),
            k.spec_fits(),
        ensures
            r == self@.contains_key(*k),
    {
        proof {
            self.set.lemma_co_view_dom(self.data@);
        }
        self.set.contains(&k.to_u64()).is_some()
    }

    /// Returns a reference to the value corresponding to the key.
    pub fn get(&self, k: &K) -> (r: Option<&V>)
        requires
            self.wf(),
            k.spec_fits(),
        ensures
            r is Some <==> self@.contains_key(*k),
            r matches Some(x) ==> *x == self@[*k],
    {
        proof {
            self.set.lemma_co_view_dom(self.data@);
        }
        match self.set.contains(&k.to_u64()) {
            Some(i) => {
                proof {
                    self.set.lemma_co_view_at(self.data@, i as int, k.spec_to_u64());
                }
                match &self.data[i] {
                    Some(x) => Some(x),
                    None => None,
                }
            },
            None => None,
        }
    }

    /// Returns the number of entries.
    pub fn len(&self) -> (r: usize)
        requires
            self.wf(),
        ensures
            r == self@.len(),
    {
        proof {
            self.lemma_len();
        }
        self.set.len()
    }

    /// The values, one for each key.
    pub fn values(&self) -> (r: Vec<&V>)
        requires
            self.wf(),
        ensures
            exists|ks: Seq<K>|
                lists_keys(self@, ks) && ks.len() == r@.len() && forall|j: int|
                    0 <= j < ks.len() ==> *r@[j] == self@[#[trigger] ks[j]],
    {
        let ps = self.iter();
        let ghost ks = ps@.map_values(|p: (K, &V)| p.0);
        let mut out: Vec<&V> = Vec::new();
        let mut i: usize = 0;
        while i < ps.len()
            invariant
                i <= ps@.len(),
                ks == ps@.map_values(|p: (K, &V)| p.0),
                out@.len() == i,
                forall|j: int| 0 <= j < ps@.len() ==> *ps@[j].1 == self@[#[trigger] ps@[j].0],
                forall|j: int| 0 <= j < i ==> *out@[j] == self@[#[trigger] ks[j]],
            decreases ps@.len() - i,
        {
            let (_, v) = ps[i];
            out.push(v);
            proof {
                assert(ks[i as int] == ps@[i as int].0);
            }
            i += 1;
        }
        out
    }

    /// The entries, each key once, with a reference to its value.
    pub fn iter(&self) -> (r: Vec<(K, &V)>)
        requires
            self.wf(),
        ensures
            lists_keys(self@, r@.map_values(|p: (K, &V)| p.0)),
            forall|j: int| 0 <= j < r@.len() ==> *r@[j].1 == self@[#[trigger] r@[j].0],
    {
        proof {
            self.lemma_len();
        }
        let ks = self.set.iter();
        let ghost cv = self.set.co_view(self.data@);
        let mut out: Vec<(K, &V)> = Vec::new();
        let mut i: usize = 0;
        while i < ks.len()
            invariant
                self.wf(),
                cv == self.set.co_view(self.data@),
                cv.dom() == self.set@,
                ks@.no_duplicates(),
                ks@.to_set() == self.set@,
                i <= ks@.len(),
                out@.len() == i,
                forall|j: int|
                    0 <= j < i ==> {
                        &&& (#[trigger] out@[j]).0 == K::spec_from_u64(ks@[j])
                        &&& K::spec_from_u64(ks@[j]).spec_to_u64() == ks@[j]
                        &&& self@.contains_key(out@[j].0)
                        &&& *out@[j].1 == self@[out@[j].0]
                    },
            decreases ks@.len() - i,
        {
            let kk = ks[i];
            proof {
                assert(ks@.contains(ks@[i as int]));
                assert(ks@.to_set().contains(kk));
            }
            match self.set.contains(&kk) {
                Some(slot) => {
                    proof {
                        self.set.lemma_co_view_at(self.data@, slot as int, kk);
                        lemma_decode_code::<K>(kk);
                    }
                    match &self.data[slot] {
                        Some(x) => {
                            let k = K::from_u64(kk);
                            proof {
                                assert(decoded_vals::<K, V>(cv).contains_key(k));
                            }
                            out.push((k, x));
                        },
                        None => {
                            proof {
                                assert(cv[kk] is Some);
                            }
                            return out;
                        },
                    }
                },
                None => {
                    return out;
                },
            }
            i += 1;
        }
        proof {
            let ps = out@.map_values(|p: (K, &V)| p.0);
            assert forall|j1: int, j2: int| 0 <= j1 < ps.len() && 0 <= j2 < ps.len() && j1 != j2 implies ps[j1]
                != ps[j2] by {
                assert(out@[j1].0 == K::spec_from_u64(ks@[j1]));
                assert(out@[j2].0 == K::spec_from_u64(ks@[j2]));
                assert(ks@[j1] != ks@[j2]);
            }
            assert forall|k: K| self@.contains_key(k) <==> ps.contains(k) by {
                if self@.contains_key(k) {
                    let c = k.spec_to_u64();
                    K::lemma_fits64(k, c);
                    assert(self.set@.contains(c));
                    assert(ks@.to_set().contains(c));
                    let j = choose|j: int| 0 <= j < ks@.len() && ks@[j] == c;
                    assert(out@[j].0 == K::spec_from_u64(ks@[j]));
                    assert(ps[j] == k);
                }
                if ps.contains(k) {
                    let j = choose|j: int| 0 <= j < ps.len() && ps[j] == k;
                    assert(out@[j].0 == k);
                }
            }
            assert(ks@.len() == self.set@.len());
        }
        out
    }
}

impl<K: Fits64, V: PartialEq> Map64<K, V> {
    /// Whether the two maps hold the same entries, the values compared
    /// with their `==`, which must be equality.
    pub fn eq(&self, other: &Map64<K, V>) -> (r: bool)
        requires
            self.wf(),
            other.wf(),
            vstd::laws_eq::obeys_concrete_eq::<V>(),
        ensures
            r == (self@ == other@),
    {
        proof {
            self.lemma_len();
            other.lemma_len();
            reveal(vstd::laws_eq::obeys_concrete_eq);
        }
        if self.len() != other.len() {
            return false;
        }
        let items = other.iter();
        let ghost ks = items@.map_values(|p: (K, &V)| p.0);
        let mut i: usize = 0;
        while i < items.len()
            invariant
                self.wf(),
                other.wf(),
                ks == items@.map_values(|p: (K, &V)| p.0),
                lists_keys(other@, ks),
                forall|j: int| 0 <= j < items@.len() ==> *items@[j].1 == other@[#[trigger] items@[j].0],
                i <= items@.len(),
                vstd::laws_eq::obeys_concrete_eq::<V>(),
                forall|j: int|
                    0 <= j < i ==> self@.contains_key(#[trigger] items@[j].0) && self@[items@[j].0]
                        == *items@[j].1,
            decreases items@.len() - i,
        {
            let (k, v) = items[i];
            proof {
                assert(ks[i as int] == k);
                assert(ks.contains(k));
                reveal(vstd::laws_eq::obeys_concrete_eq);
            }
            match self.get(&k) {
                Some(w) => {
                    if !(*w == *v) {
                        return false;
                    }
                },
                None => {
                    return false;
                },
            }
            i += 1;
        }
        proof {
            assert(other@.dom().subset_of(self@.dom())) by {
                assert forall|t: K| other@.dom().contains(t) implies self@.dom().contains(t) by {
                    assert(ks.contains(t));
                    let j = choose|j: int| 0 <= j < ks.len() && ks[j] == t;
                    assert(items@[j].0 == t);
                    assert(self@.contains_key(items@[j].0));
                }
            }
            vstd::set_lib::lemma_subset_equality(other@.dom(), self@.dom());
            assert forall|t: K| other@.dom().contains(t) implies self@[t] == other@[t] by {
                assert(ks.contains(t));
                let j = choose|j: int| 0 <= j < ks.len() && ks[j] == t;
                assert(items@[j].0 == t);
                assert(self@.contains_key(items@[j].0));
            }
            assert(self@ =~= other@);
        }
        true
    }
}

/// Feeds `x` to the hasher `state` with std's `Hash` for `u64`.  Nothing
/// is claimed of the hasher's state afterwards.
#[verifier::external_body]
fn hash_u64<H: std::hash::Hasher>(x: u64, state: &mut H) {
    std::hash::Hash::hash(&x, state)
}

impl<T: Fits64> Set64<T> {
    /// The codes of the elements, in increasing order.
    pub fn sorted_codes(&self) -> (r: Vec<u64>)
        requires
            self.wf(),
        ensures
            crate::tiny::increasing(r@),
            r@.len() == self@.len(),
            forall|j: int| 0 <= j < r@.len() ==> is_code::<T>(#[trigger] r@[j]),
            forall|t: T| t.spec_fits() ==> (self@.contains(t) <==> r@.contains(t.spec_to_u64())),
    {
        let items = self.s.iter();
        let v = crate::setu64::sorted_dedup(&items);
        proof {
            self.s.lemma_len();
            lemma_decoded_set_len::<T>(self.s@);
            items@.unique_seq_to_set();
            assert(v@.no_duplicates()) by {
                assert forall|i: int, j: int| 0 <= i < v@.len() && 0 <= j < v@.len() && i != j implies v@[i] != v@[j] by {
                    if i < j {
                        assert(v@[i] < v@[j]);
                    } else {
                        assert(v@[j] < v@[i]);
                    }
                }
            }
            v@.unique_seq_to_set();
            assert forall|j: int| 0 <= j < v@.len() implies is_code::<T>(#[trigger] v@[j]) by {
                assert(v@.to_set().contains(v@[j]));
            }
            assert forall|t: T| t.spec_fits() implies (self@.contains(t) <==> v@.contains(t.spec_to_u64())) by {
                assert(v@.to_set().contains(t.spec_to_u64()) == v@.contains(t.spec_to_u64()));
            }
        }
        v
    }

    /// Feeds the codes of the elements to `state`, in increasing order, so
    /// that sets with the same elements hash alike.
    pub fn hash<H: std::hash::Hasher>(&self, state: &mut H)
        requires
            self.wf(),
    {
        let v = self.sorted_codes();
        let mut i: usize = 0;
        while i < v.len()
            invariant
                i <= v@.len(),
            decreases v@.len() - i,
        {
            hash_u64(v[i], state);
            i += 1;
        }
    }
}

} // verus!
