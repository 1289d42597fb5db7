//! A map from `u64` to `u64` that stores its keys and values in the
//! narrowest words that hold them: a few entries in small arrays searched
//! linearly, more in a Robin Hood table.
use vstd::prelude::*;
use crate::castset::max_capacity;
use crate::fits::{Fits64, is_code, lemma_code_of, lemma_decode_code};
use std::marker::PhantomData;
use crate::robin::{contents};
use crate::small::{small_ok, small_avoids};
use crate::table::tab_ok;
use crate::word::{Word, into_boxed, next_power_of_two, is_next_pow2, lemma_table_len_max};
use crate::wordmap::{
    small_view, tab_view, marked_ok, marked_view, marked_count, small_get, small_put, small_take,
    wide_get, wide_put, wide_take, wide_empty, marked_get, marked_put, marked_take, marked_empty,
    wide_rehash, marked_rehash, small_pairs, tab_pairs, pairs_map, distinct_keys, lemma_small_view_len,
    lemma_tab_view_len, lemma_small_empty_view, lemma_pairs_at, lemma_pairs_len, lemma_pairs_push,
    lemma_pairs_empty,
};

verus! {

/// Entries of a small map with `u8` keys.
pub const MAP_NUM_U8: usize = 23;

/// Entries of a small map with `u16` keys.
pub const MAP_NUM_U16: usize = 15;

/// Entries of a small map with `u32` keys.
pub const MAP_NUM_U32: usize = 9;

/// Entries of a small map with `u64` keys.
pub const MAP_NUM_U64: usize = 4;

/// Elements of a small set of `u8`.
pub const NUM_U8: usize = 22;

/// Elements of a small set of `u16`.
pub const NUM_U16: usize = 11;

/// Elements of a small set of `u32`.
pub const NUM_U32: usize = 5;

/// Elements of a small set of `u64`.
pub const NUM_U64: usize = 2;

/// The table size for `cap` elements: the power of two at or above
/// `cap * 11 / 10`.
pub fn capacity_to_rawcapacity(cap: usize) -> (r: usize)
    requires
        cap <= max_capacity(),
    ensures
        is_next_pow2(cap * 11 / 10, r as int),
        cap <= r < usize::MAX,
{
    proof {
        vstd::arithmetic::power2::lemma2_to64();
        vstd::arithmetic::power2::lemma2_to64_rest();
        vstd::layout::unsigned_int_max_values();
        assert(usize::BITS == 32 || usize::BITS == 64);
    }
    let x = cap * 11 / 10;
    next_power_of_two(x)
}

#[derive(Debug)]
#[allow(inconsistent_fields)]
enum MapData {
    Su8 { sz: u8, keys: [u8; MAP_NUM_U8], vals: [u8; MAP_NUM_U8] },
    Vu8 { sz: u8, keys: Box<[u8]>, vals: Box<[u8]> },
    Su16 { sz: u8, keys: [u16; MAP_NUM_U16], vals: [u8; MAP_NUM_U16] },
    Vu16 { sz: u16, keys: Box<[u16]>, vals: Box<[u16]> },
    Su32 { sz: u8, keys: [u32; MAP_NUM_U32], vals: [u8; MAP_NUM_U32] },
    Vu32 { sz: u32, keys: Box<[u32]>, vals: Box<[u32]> },
    Su64 { sz: u64, keys: [u64; MAP_NUM_U64], vals: [u8; MAP_NUM_U64] },
    Vu64 { sz: u64, keys: Box<[u64]>, vals: Box<[u64]> },
}

/// A map from `u64` to `u64`.  Keys and values are stored in the
/// narrowest words that hold them all; up to a few entries are kept in
/// small arrays, with one byte per value, and more in a Robin Hood hash
/// table.
#[derive(Debug)]
pub struct U64Map {
    data: MapData,
}

impl View for U64Map {
    type V = Map<u64, u64>;

    closed spec fn view(&self) -> Map<u64, u64> {
        match self.data {
            MapData::Su8 { sz, keys, vals } => small_view::<u8, u8>(keys@, vals@, sz as int),
            MapData::Vu8 { sz, keys, vals } => tab_view::<u8, u8>(keys@, vals@, u8::MAX),
            MapData::Su16 { sz, keys, vals } => small_view::<u16, u8>(keys@, vals@, sz as int),
            MapData::Vu16 { sz, keys, vals } => tab_view::<u16, u16>(keys@, vals@, u16::MAX),
            MapData::Su32 { sz, keys, vals } => small_view::<u32, u8>(keys@, vals@, sz as int),
            MapData::Vu32 { sz, keys, vals } => tab_view::<u32, u32>(keys@, vals@, u32::MAX),
            MapData::Su64 { sz, keys, vals } => small_view::<u64, u8>(keys@, vals@, sz as int),
            MapData::Vu64 { sz, keys, vals } => marked_view(keys@, vals@),
        }
    }
}

impl U64Map {
    /// The storage is consistent: the small arrays hold `sz` distinct keys
    /// other than the invalid word, the tables are well-formed Robin Hood
    /// tables holding `sz` keys.
    pub closed spec fn wf(&self) -> bool {
        match self.data {
            MapData::Su8 { sz, keys, vals } => small_ok(keys@, sz as int) && small_avoids(
                keys@,
                sz as int,
                u8::MAX,
            ),
            MapData::Vu8 { sz, keys, vals } => tab_ok(keys@, vals@, u8::MAX) && sz == contents(
                keys@,
                u8::MAX,
            ).len(),
            MapData::Su16 { sz, keys, vals } => small_ok(keys@, sz as int) && small_avoids(
                keys@,
                sz as int,
                u16::MAX,
            ),
            MapData::Vu16 { sz, keys, vals } => tab_ok(keys@, vals@, u16::MAX) && sz == contents(
                keys@,
                u16::MAX,
            ).len(),
            MapData::Su32 { sz, keys, vals } => small_ok(keys@, sz as int) && small_avoids(
                keys@,
                sz as int,
                u32::MAX,
            ),
            MapData::Vu32 { sz, keys, vals } => tab_ok(keys@, vals@, u32::MAX) && sz == contents(
                keys@,
                u32::MAX,
            ).len(),
            MapData::Su64 { sz, keys, vals } => small_ok(keys@, sz as int),
            MapData::Vu64 { sz, keys, vals } => marked_ok(keys@, vals@) && sz == marked_count(keys@),
        }
    }

    /// The largest key the storage holds.
    pub closed spec fn key_max(&self) -> u64 {
        match self.data {
            MapData::Su8 { .. } => 254,
            MapData::Vu8 { .. } => 254,
            MapData::Su16 { .. } => 0xfffe,
            MapData::Vu16 { .. } => 0xfffe,
            MapData::Su32 { .. } => 0xffff_fffe,
            MapData::Vu32 { .. } => 0xffff_fffe,
            MapData::Su64 { .. } => u64::MAX,
            MapData::Vu64 { .. } => u64::MAX,
        }
    }

    /// The largest value the storage holds.
    pub closed spec fn val_max(&self) -> u64 {
        match self.data {
            MapData::Su8 { .. } => 255,
            MapData::Vu8 { .. } => 255,
            MapData::Su16 { .. } => 255,
            MapData::Vu16 { .. } => 0xffff,
            MapData::Su32 { .. } => 255,
            MapData::Vu32 { .. } => 0xffff_ffff,
            MapData::Su64 { .. } => 255,
            MapData::Vu64 { .. } => u64::MAX,
        }
    }

    /// How many more keys the storage holds.
    pub closed spec fn room(&self) -> int {
        match self.data {
            MapData::Su8 { sz, .. } => MAP_NUM_U8 - sz,
            MapData::Vu8 { sz, keys, .. } => keys@.len() - sz,
            MapData::Su16 { sz, .. } => MAP_NUM_U16 - sz,
            MapData::Vu16 { sz, keys, .. } => keys@.len() - sz,
            MapData::Su32 { sz, .. } => MAP_NUM_U32 - sz,
            MapData::Vu32 { sz, keys, .. } => keys@.len() - sz,
            MapData::Su64 { sz, .. } => MAP_NUM_U64 - sz,
            MapData::Vu64 { sz, vals, .. } => vals@.len() - sz,
        }
    }

    /// The map is finite.
    pub proof fn lemma_view_finite(&self)
        requires
            self.wf(),
        ensures
            self@.dom().finite(),
    {
        self.lemma_len();
    }

    proof fn lemma_len(&self)
        requires
            self.wf(),
        ensures
            self@.dom().finite(),
            self.room() >= 0,
            self@.len() + self.room() <= usize::MAX,
            self@.len() + self.room() <= match self.data {
                MapData::Su8 { .. } => MAP_NUM_U8 as int,
                MapData::Su16 { .. } => MAP_NUM_U16 as int,
                MapData::Su32 { .. } => MAP_NUM_U32 as int,
                MapData::Su64 { .. } => MAP_NUM_U64 as int,
                _ => usize::MAX as int,
            },
            match self.data {
                MapData::Su8 { sz, .. } => self@.len() == sz,
                MapData::Vu8 { sz, .. } => self@.len() == sz && sz <= 255,
                MapData::Su16 { sz, .. } => self@.len() == sz,
                MapData::Vu16 { sz, .. } => self@.len() == sz && sz <= 0xffff,
                MapData::Su32 { sz, .. } => self@.len() == sz,
                MapData::Vu32 { sz, .. } => self@.len() == sz && sz <= 0xffff_ffff,
                MapData::Su64 { sz, .. } => self@.len() == sz,
                MapData::Vu64 { sz, .. } => self@.len() == sz,
            },
    {
        match self.data {
            MapData::Su8 { sz, keys, vals } => lemma_small_view_len::<u8, u8>(keys@, vals@, sz as int),
            MapData::Vu8 { sz, keys, vals } => {
                lemma_tab_view_len::<u8, u8>(keys@, vals@, u8::MAX);
                lemma_table_len_max(keys@.len() as int);
            },
            MapData::Su16 { sz, keys, vals } => lemma_small_view_len::<u16, u8>(keys@, vals@, sz as int),
            MapData::Vu16 { sz, keys, vals } => {
                lemma_tab_view_len::<u16, u16>(keys@, vals@, u16::MAX);
                lemma_table_len_max(keys@.len() as int);
            },
            MapData::Su32 { sz, keys, vals } => lemma_small_view_len::<u32, u8>(keys@, vals@, sz as int),
            MapData::Vu32 { sz, keys, vals } => {
                lemma_tab_view_len::<u32, u32>(keys@, vals@, u32::MAX);
                lemma_table_len_max(keys@.len() as int);
            },
            MapData::Su64 { sz, keys, vals } => lemma_small_view_len::<u64, u8>(keys@, vals@, sz as int),
            MapData::Vu64 { sz, keys, vals } => {
                lemma_tab_view_len::<u64, u64>(keys@.drop_last(), vals@, keys@.last());
                lemma_table_len_max(vals@.len() as int);
            },
        }
    }

    /// Creates an empty map with room for `cap` entries.
    pub fn with_capacity(cap: usize) -> (m: U64Map)
        requires
            cap <= max_capacity(),
        ensures
            m.wf(),
            m@ == Map::<u64, u64>::empty(),
            m.room() >= cap,
    {
        if cap <= MAP_NUM_U8 {
            let keys = [0u8; MAP_NUM_U8];
            let vals = [0u8; MAP_NUM_U8];
            proof {
                lemma_small_empty_view::<u8, u8>(keys@, vals@);
            }
            return U64Map { data: MapData::Su8 { sz: 0, keys, vals } };
        }
        let nextcap = capacity_to_rawcapacity(cap);
        if cap < 255 {
            let (k, v) = wide_empty::<u8, u8>(nextcap, 255u8);
            U64Map { data: MapData::Vu8 { sz: 0, keys: into_boxed(k), vals: into_boxed(v) } }
        } else if cap < 0xffff {
            let (k, v) = wide_empty::<u16, u16>(nextcap, 0xffffu16);
            U64Map { data: MapData::Vu16 { sz: 0, keys: into_boxed(k), vals: into_boxed(v) } }
        } else if cap < 0xffff_ffff {
            let (k, v) = wide_empty::<u32, u32>(nextcap, 0xffff_ffffu32);
            U64Map { data: MapData::Vu32 { sz: 0, keys: into_boxed(k), vals: into_boxed(v) } }
        } else {
            let (k, v) = marked_empty(nextcap, u64::MAX);
            U64Map { data: MapData::Vu64 { sz: 0, keys: into_boxed(k), vals: into_boxed(v) } }
        }
    }

    /// Creates an empty map with room for `cap` entries whose keys and
    /// values are at most `max_k` and `max_v`.
    pub fn with_maxes_cap(max_k: u64, max_v: u64, cap: usize) -> (m: U64Map)
        requires
            cap <= max_capacity(),
        ensures
            m.wf(),
            m@ == Map::<u64, u64>::empty(),
            m.room() >= cap,
            m.key_max() >= max_k,
            m.key_max() >= max_v,
            m.val_max() >= max_v,
    {
        let max_k = if max_k > max_v {
            max_k
        } else {
            max_v
        };
        let nextcap = capacity_to_rawcapacity(cap);
        if max_k < 255 {
            if cap <= NUM_U8 && max_v < 256 {
                let keys = [0u8; MAP_NUM_U8];
                let vals = [0u8; MAP_NUM_U8];
                proof {
                    lemma_small_empty_view::<u8, u8>(keys@, vals@);
                }
                U64Map { data: MapData::Su8 { sz: 0, keys, vals } }
            } else {
                let (k, v) = wide_empty::<u8, u8>(nextcap, 255u8);
                U64Map { data: MapData::Vu8 { sz: 0, keys: into_boxed(k), vals: into_boxed(v) } }
            }
        } else if max_k < 0xffff {
            if cap <= NUM_U16 && max_v < 256 {
                let keys = [0xffffu16; MAP_NUM_U16];
                let vals = [0u8; MAP_NUM_U16];
                proof {
                    lemma_small_empty_view::<u16, u8>(keys@, vals@);
                }
                U64Map { data: MapData::Su16 { sz: 0, keys, vals } }
            } else {
                let (k, v) = wide_empty::<u16, u16>(nextcap, 0xffffu16);
                U64Map { data: MapData::Vu16 { sz: 0, keys: into_boxed(k), vals: into_boxed(v) } }
            }
        } else if max_k < 0xffff_ffff {
            if cap <= NUM_U32 && max_v < 256 {
                let keys = [0xffff_ffffu32; MAP_NUM_U32];
                let vals = [0u8; MAP_NUM_U32];
                proof {
                    lemma_small_empty_view::<u32, u8>(keys@, vals@);
                }
                U64Map { data: MapData::Su32 { sz: 0, keys, vals } }
            } else {
                let (k, v) = wide_empty::<u32, u32>(nextcap, 0xffff_ffffu32);
                U64Map { data: MapData::Vu32 { sz: 0, keys: into_boxed(k), vals: into_boxed(v) } }
            }
        } else {
            if cap <= NUM_U64 && max_v < 256 {
                let keys = [0u64; MAP_NUM_U64];
                let vals = [0u8; MAP_NUM_U64];
                proof {
                    lemma_small_empty_view::<u64, u8>(keys@, vals@);
                }
                U64Map { data: MapData::Su64 { sz: 0, keys, vals } }
            } else {
                let (k, v) = marked_empty(nextcap, 137);
                U64Map { data: MapData::Vu64 { sz: 0, keys: into_boxed(k), vals: into_boxed(v) } }
            }
        }
    }

    /// Returns the number of entries.
    pub fn len(&self) -> (r: usize)
        requires
            self.wf(),
        ensures
            r == self@.len(),
    {
        proof {
            self.lemma_len();
        }
        match &self.data {
            MapData::Su8 { sz, .. } => *sz as usize,
            MapData::Vu8 { sz, .. } => *sz as usize,
            MapData::Su16 { sz, .. } => *sz as usize,
            MapData::Vu16 { sz, .. } => *sz as usize,
            MapData::Su32 { sz, .. } => *sz as usize,
            MapData::Vu32 { sz, .. } => *sz as usize,
            MapData::Su64 { sz, .. } => *sz as usize,
            MapData::Vu64 { sz, .. } => *sz as usize,
        }
    }

    /// Returns the value of `k`, if it is a key.
    pub fn get(&self, k: u64) -> (r: Option<u64>)
        requires
            self.wf(),
        ensures
            r == self@.get(k),
    {
        match &self.data {
            MapData::Su8 { sz, keys, vals } => small_get(keys, vals, *sz as usize, k),
            MapData::Vu8 { sz, keys, vals } => wide_get(keys, vals, k),
            MapData::Su16 { sz, keys, vals } => small_get(keys, vals, *sz as usize, k),
            MapData::Vu16 { sz, keys, vals } => wide_get(keys, vals, k),
            MapData::Su32 { sz, keys, vals } => small_get(keys, vals, *sz as usize, k),
            MapData::Vu32 { sz, keys, vals } => wide_get(keys, vals, k),
            MapData::Su64 { sz, keys, vals } => small_get(keys, vals, *sz as usize, k),
            MapData::Vu64 { sz, keys, vals } => marked_get(keys, vals, k),
        }
    }

    /// The largest key the storage holds.
    pub fn key_max_of(&self) -> (r: u64)
        ensures
            r == self.key_max(),
    {
        match &self.data {
            MapData::Su8 { .. } => 254,
            MapData::Vu8 { .. } => 254,
            MapData::Su16 { .. } => 0xfffe,
            MapData::Vu16 { .. } => 0xfffe,
            MapData::Su32 { .. } => 0xffff_fffe,
            MapData::Vu32 { .. } => 0xffff_fffe,
            MapData::Su64 { .. } => u64::MAX,
            MapData::Vu64 { .. } => u64::MAX,
        }
    }

    /// The largest value the storage holds.
    pub fn val_max_of(&self) -> (r: u64)
        ensures
            r == self.val_max(),
    {
        match &self.data {
            MapData::Su8 { .. } => 255,
            MapData::Vu8 { .. } => 255,
            MapData::Su16 { .. } => 255,
            MapData::Vu16 { .. } => 0xffff,
            MapData::Su32 { .. } => 255,
            MapData::Vu32 { .. } => 0xffff_ffff,
            MapData::Su64 { .. } => 255,
            MapData::Vu64 { .. } => u64::MAX,
        }
    }

    /// Sets the value of `k`, which the storage must have room for, and
    /// returns its old value, if any.
    pub fn insert_unchecked(&mut self, k: u64, v: u64) -> (r: Option<u64>)
        requires
            old(self).wf(),
            old(self).room() >= 1,
            k <= old(self).key_max(),
            v <= old(self).val_max(),
        ensures
            final(self).wf(),
            final(self)@ == old(self)@.insert(k, v),
            r == old(self)@.get(k),
            final(self).key_max() == old(self).key_max(),
            final(self).val_max() == old(self).val_max(),
            final(self).room() == old(self).room() - (if r is None { 1int } else { 0 }),
    {
        proof {
            self.lemma_len();
        }
        match &mut self.data {
            MapData::Su8 { sz, keys, vals } => {
                let r = small_put(keys, vals, *sz as usize, k, v);
                if r.is_none() {
                    *sz = *sz + 1;
                }
                r
            },
            MapData::Vu8 { sz, keys, vals } => {
                let r = wide_put(keys, vals, k, v);
                proof {
                    lemma_tab_view_len::<u8, u8>(keys@, vals@, u8::MAX);
                }
                if r.is_none() {
                    *sz = *sz + 1;
                }
                r
            },
            MapData::Su16 { sz, keys, vals } => {
                let r = small_put(keys, vals, *sz as usize, k, v);
                if r.is_none() {
                    *sz = *sz + 1;
                }
                r
            },
            MapData::Vu16 { sz, keys, vals } => {
                let r = wide_put(keys, vals, k, v);
                proof {
                    lemma_tab_view_len::<u16, u16>(keys@, vals@, u16::MAX);
                }
                if r.is_none() {
                    *sz = *sz + 1;
                }
                r
            },
            MapData::Su32 { sz, keys, vals } => {
                let r = small_put(keys, vals, *sz as usize, k, v);
                if r.is_none() {
                    *sz = *sz + 1;
                }
                r
            },
            MapData::Vu32 { sz, keys, vals } => {
                let r = wide_put(keys, vals, k, v);
                proof {
                    lemma_tab_view_len::<u32, u32>(keys@, vals@, u32::MAX);
                }
                if r.is_none() {
                    *sz = *sz + 1;
                }
                r
            },
            MapData::Su64 { sz, keys, vals } => {
                let r = small_put(keys, vals, *sz as usize, k, v);
                if r.is_none() {
                    *sz = *sz + 1;
                }
                r
            },
            MapData::Vu64 { sz, keys, vals } => {
                let r = marked_put(keys, vals, k, v);
                proof {
                    lemma_tab_view_len::<u64, u64>(keys@.drop_last(), vals@, keys@.last());
                    lemma_table_len_max(vals@.len() as int);
                }
                if r.is_none() {
                    *sz = *sz + 1;
                }
                r
            },
        }
    }

    /// Removes `k`, returning its value if it was a key.
    pub fn remove(&mut self, k: u64) -> (r: Option<u64>)
        requires
            old(self).wf(),
        ensures
            final(self).wf(),
            final(self)@ == old(self)@.remove(k),
            r == old(self)@.get(k),
            final(self).key_max() == old(self).key_max(),
            final(self).val_max() == old(self).val_max(),
            final(self).room() == old(self).room() + (if r is Some { 1int } else { 0 }),
    {
        proof {
            self.lemma_len();
        }
        match &mut self.data {
            MapData::Su8 { sz, keys, vals } => {
                let r = small_take(keys, vals, *sz as usize, k);
                if r.is_some() {
                    *sz = *sz - 1;
                }
                r
            },
            MapData::Vu8 { sz, keys, vals } => {
                let r = wide_take(keys, vals, k);
                if r.is_some() {
                    *sz = *sz - 1;
                }
                r
            },
            MapData::Su16 { sz, keys, vals } => {
                let r = small_take(keys, vals, *sz as usize, k);
                if r.is_some() {
                    *sz = *sz - 1;
                }
                r
            },
            MapData::Vu16 { sz, keys, vals } => {
                let r = wide_take(keys, vals, k);
                if r.is_some() {
                    *sz = *sz - 1;
                }
                r
            },
            MapData::Su32 { sz, keys, vals } => {
                let r = small_take(keys, vals, *sz as usize, k);
                if r.is_some() {
                    *sz = *sz - 1;
                }
                r
            },
            MapData::Vu32 { sz, keys, vals } => {
                let r = wide_take(keys, vals, k);
                if r.is_some() {
                    *sz = *sz - 1;
                }
                r
            },
            MapData::Su64 { sz, keys, vals } => {
                let r = small_take(keys, vals, *sz as usize, k);
                if r.is_some() {
                    *sz = *sz - 1;
                }
                r
            },
            MapData::Vu64 { sz, keys, vals } => {
                let r = marked_take(keys, vals, k);
                if r.is_some() {
                    *sz = *sz - 1;
                }
                r
            },
        }
    }

    /// All entries, each key once.
    pub fn entries(&self) -> (r: Vec<(u64, u64)>)
        requires
            self.wf(),
        ensures
            distinct_keys(r@),
            pairs_map(r@) == self@,
            r@.len() == self@.len(),
    {
        let r = match &self.data {
            MapData::Su8 { sz, keys, vals } => small_pairs(keys, vals, *sz as usize),
            MapData::Vu8 { sz, keys, vals } => tab_pairs(keys, vals, 255u8),
            MapData::Su16 { sz, keys, vals } => small_pairs(keys, vals, *sz as usize),
            MapData::Vu16 { sz, keys, vals } => tab_pairs(keys, vals, 0xffffu16),
            MapData::Su32 { sz, keys, vals } => small_pairs(keys, vals, *sz as usize),
            MapData::Vu32 { sz, keys, vals } => tab_pairs(keys, vals, 0xffff_ffffu32),
            MapData::Su64 { sz, keys, vals } => small_pairs(keys, vals, *sz as usize),
            MapData::Vu64 { sz, keys, vals } => {
                let n = keys.len() - 1;
                let inv = keys[n];
                let (t, _) = keys.split_at(n);
                assert(t@ == keys@.drop_last());
                tab_pairs(t, vals, inv)
            },
        };
        proof {
            lemma_pairs_len(r@);
        }
        r
    }

    /// Inserts the entries of `es` into this empty map.
    fn absorb(&mut self, es: &Vec<(u64, u64)>)
        requires
            old(self).wf(),
            old(self)@ == Map::<u64, u64>::empty(),
            distinct_keys(es@),
            old(self).room() >= es@.len(),
            forall|i: int| 0 <= i < es@.len() ==> #[trigger] es@[i].0 <= old(self).key_max() && es@[i].1 <= old(self).val_max(),
        ensures
            final(self).wf(),
            final(self)@ == pairs_map(es@),
            final(self).key_max() == old(self).key_max(),
            final(self).val_max() == old(self).val_max(),
            final(self).room() == old(self).room() - es@.len(),
    {
        let mut i: usize = 0;
        proof {
            lemma_pairs_empty::<u64, u64>();
            assert(es@.take(0) =~= Seq::<(u64, u64)>::empty());
        }
        while i < es.len()
            invariant
                self.wf(),
                i <= es@.len(),
                distinct_keys(es@),
                distinct_keys(es@.take(i as int)),
                self@ == pairs_map(es@.take(i as int)),
                self.key_max() == old(self).key_max(),
                self.val_max() == old(self).val_max(),
                self.room() == old(self).room() - i,
                old(self).room() >= es@.len(),
                forall|j: int| 0 <= j < es@.len() ==> #[trigger] es@[j].0 <= old(self).key_max() && es@[j].1 <= old(self).val_max(),
            decreases es@.len() - i,
        {
            let (k, v) = es[i];
            proof {
                let t = es@.take(i as int);
                assert(es@.take(i + 1) =~= t.push(es@[i as int]));
                if pairs_map(t).contains_key(k) {
                    let j = choose|j: int| 0 <= j < t.len() && #[trigger] t[j].0 == k;
                    assert(es@[j].0 != es@[i as int].0);
                }
                lemma_pairs_push(t, es@[i as int]);
                assert(es@[i as int].0 <= old(self).key_max());
            }
            self.insert_unchecked(k, v);
            i += 1;
        }
        proof {
            assert(es@.take(es@.len() as int) =~= es@);
        }
    }

    /// A new map holding this one, with room for `cap` entries, keys up
    /// to `mk` and this map's largest key, and values up to `max_v`.
    fn rebuilt(&self, mk: u64, max_v: u64, cap: usize) -> (n: U64Map)
        requires
            self.wf(),
            self@.len() <= cap <= max_capacity(),
        ensures
            n.wf(),
            n@ == self@,
            n.room() >= cap - self@.len(),
            n.key_max() >= mk,
            n.key_max() >= max_v,
            n.val_max() >= max_v,
            n.key_max() >= self.key_max(),
    {
        let es = self.entries();
        let km = self.key_max_of();
        let mut kmax = if mk > km {
            mk
        } else {
            km
        };
        let mut vmax = max_v;
        let mut i: usize = 0;
        while i < es.len()
            invariant
                i <= es@.len(),
                kmax >= mk,
                kmax >= km,
                vmax >= max_v,
                forall|j: int| 0 <= j < i ==> #[trigger] es@[j].0 <= kmax && es@[j].1 <= vmax,
            decreases es@.len() - i,
        {
            if es[i].0 > kmax {
                kmax = es[i].0;
            }
            if es[i].1 > vmax {
                vmax = es[i].1;
            }
            i += 1;
        }
        let mut n = U64Map::with_maxes_cap(kmax, vmax, cap);
        n.absorb(&es);
        n
    }

    /// Makes room for `additional` more entries, with keys up to `max_k`
    /// and values up to `max_v`.
    pub fn reserve_with_maxes(&mut self, max_k: u64, max_v: u64, additional: usize)
        requires
            old(self).wf(),
            old(self)@.len() + additional <= max_capacity(),
        ensures
            final(self).wf(),
            final(self)@ == old(self)@,
            final(self).room() >= additional,
            final(self).key_max() >= max_k,
            final(self).key_max() >= max_v,
            final(self).val_max() >= max_v,
            final(self).key_max() >= old(self).key_max(),
    {
        proof {
            self.lemma_len();
        }
        let mk = if max_k > max_v {
            max_k
        } else {
            max_v
        };
        let len = self.len();
        let cap = len + additional;
        let small_full = match &self.data {
            MapData::Su8 { .. } => cap > MAP_NUM_U8,
            MapData::Su16 { .. } => cap > MAP_NUM_U16,
            MapData::Su32 { .. } => cap > MAP_NUM_U32,
            MapData::Su64 { .. } => cap > MAP_NUM_U64,
            _ => false,
        };
        if mk > self.key_max_of() || max_v > self.val_max_of() || small_full {
            let n = self.rebuilt(mk, max_v, cap);
            *self = n;
            return;
        }
        match &mut self.data {
            MapData::Vu8 { sz, keys, vals } => {
                if (cap as u128) * 11 > (keys.len() as u128) * 10 {
                    let newcap = capacity_to_rawcapacity(cap);
                    let (nk, nv) = wide_rehash(keys, vals, newcap);
                    *keys = into_boxed(nk);
                    *vals = into_boxed(nv);
                }
            },
            MapData::Vu16 { sz, keys, vals } => {
                if (cap as u128) * 11 > (keys.len() as u128) * 10 {
                    let newcap = capacity_to_rawcapacity(cap);
                    let (nk, nv) = wide_rehash(keys, vals, newcap);
                    *keys = into_boxed(nk);
                    *vals = into_boxed(nv);
                }
            },
            MapData::Vu32 { sz, keys, vals } => {
                if (cap as u128) * 11 > (keys.len() as u128) * 10 {
                    let newcap = capacity_to_rawcapacity(cap);
                    let (nk, nv) = wide_rehash(keys, vals, newcap);
                    *keys = into_boxed(nk);
                    *vals = into_boxed(nv);
                }
            },
            MapData::Vu64 { sz, keys, vals } => {
                if (cap as u128) * 11 > (keys.len() as u128) * 10 {
                    let newcap = capacity_to_rawcapacity(cap);
                    let (nk, nv) = marked_rehash(keys, vals, newcap);
                    *keys = into_boxed(nk);
                    *vals = into_boxed(nv);
                }
            },
            _ => {},
        }
    }

    /// Sets the value of `k`, returning its old value, if any.
    pub fn insert(&mut self, k: u64, v: u64) -> (r: Option<u64>)
        requires
            old(self).wf(),
            old(self)@.len() < max_capacity(),
        ensures
            final(self).wf(),
            final(self)@ == old(self)@.insert(k, v),
            r == old(self)@.get(k),
    {
        self.reserve_with_maxes(k, v, 1);
        self.insert_unchecked(k, v)
    }
}

/// Iterator over the entries of a `U64Map`.
pub struct U64MapIter {
    items: Vec<(u64, u64)>,
    pos: usize,
}

impl U64MapIter {
    /// The entries still to come.
    pub closed spec fn remaining(&self) -> Seq<(u64, u64)> {
        if self.pos <= self.items@.len() {
            self.items@.skip(self.pos as int)
        } else {
            Seq::empty()
        }
    }

    /// The next entry, if any.
    pub fn next(&mut self) -> (r: Option<(u64, u64)>)
        ensures
            old(self).remaining().len() == 0 ==> r is None
                && final(self).remaining() == old(self).remaining(),
            old(self).remaining().len() > 0 ==> r == Some(old(self).remaining()[0])
                && final(self).remaining() == old(self).remaining().drop_first(),
    {
        if self.pos < self.items.len() {
            let x = self.items[self.pos];
            self.pos = self.pos + 1;
            assert(self.items@.skip(self.pos as int) =~= old(self).remaining().drop_first());
            Some(x)
        } else {
            assert(old(self).remaining().len() == 0);
            None
        }
    }

    /// The number of entries still to come.
    pub fn size_hint(&self) -> (r: usize)
        ensures
            r == self.remaining().len(),
    {
        if self.pos < self.items.len() {
            self.items.len() - self.pos
        } else {
            0
        }
    }
}

impl U64Map {
    /// Iterate over the entries, each key once.
    pub fn iter(&self) -> (it: U64MapIter)
        requires
            self.wf(),
        ensures
            distinct_keys(it.remaining()),
            pairs_map(it.remaining()) == self@,
            it.remaining().len() == self@.len(),
    {
        let items = self.entries();
        let it = U64MapIter { items, pos: 0 };
        assert(it.remaining() =~= items@);
        it
    }

    /// Whether the two maps hold the same entries.
    pub fn eq(&self, other: &U64Map) -> (r: bool)
        requires
            self.wf(),
            other.wf(),
        ensures
            r == (self@ == other@),
    {
        proof {
            self.lemma_len();
            other.lemma_len();
        }
        if self.len() != other.len() {
            return false;
        }
        let items = other.entries();
        let mut i: usize = 0;
        while i < items.len()
            invariant
                self.wf(),
                other.wf(),
                distinct_keys(items@),
                pairs_map(items@) == other@,
                i <= items@.len(),
                forall|j: int|
                    0 <= j < i ==> #[trigger] self@.get(items@[j].0) == Some(items@[j].1),
            decreases items@.len() - i,
        {
            let (k, v) = items[i];
            proof {
                crate::wordmap::lemma_pairs_at(items@, i as int);
            }
            match self.get(k) {
                Some(w) => {
                    if w != v {
                        return false;
                    }
                },
                None => {
                    return false;
                },
            }
            i += 1;
        }
        proof {
            assert(other@.dom().subset_of(self@.dom())) by {
                assert forall|t: u64| other@.dom().contains(t) implies self@.dom().contains(t) by {
                    let j = choose|j: int| 0 <= j < items@.len() && #[trigger] items@[j].0 == t;
                    assert(self@.get(items@[j].0) == Some(items@[j].1));
                }
            }
            vstd::set_lib::lemma_subset_equality(other@.dom(), self@.dom());
            assert forall|t: u64| other@.dom().contains(t) implies self@[t] == other@[t] by {
                let j = choose|j: int| 0 <= j < items@.len() && #[trigger] items@[j].0 == t;
                crate::wordmap::lemma_pairs_at(items@, j);
                assert(self@.get(items@[j].0) == Some(items@[j].1));
            }
            assert(self@ =~= other@);
        }
        true
    }
}

/// A map type that can use any key that fits in a `u64` (i.e. that
/// satisfies trait `Fits64`), to values that also fit.  This is a very
/// space-efficient map with no heap storage when you have just a few small
/// keys and values.
#[derive(Debug)]
pub struct Map6464<K: Fits64, V: Fits64> {
    m: U64Map,
    phk: PhantomData<K>,
    phv: PhantomData<V>,
}

impl<K: Fits64, V: Fits64> View for Map6464<K, V> {
    type V = Map<K, V>;

    closed spec fn view(&self) -> Map<K, V> {
        decoded::<K, V>(self.m@)
    }
}

/// The map of keys and values whose codes `m` maps.
pub open spec fn decoded<K: Fits64, V: Fits64>(m: Map<u64, u64>) -> Map<K, V> {
    Map::new(
        |k: K| k.spec_fits() && m.contains_key(k.spec_to_u64()),
        |k: K| V::spec_from_u64(m[k.spec_to_u64()]),
    )
}

/// All keys and values of `m` are codes.
pub open spec fn all_codes<K: Fits64, V: Fits64>(m: Map<u64, u64>) -> bool {
    forall|x: u64| #[trigger] m.contains_key(x) ==> is_code::<K>(x) && is_code::<V>(m[x])
}

pub proof fn lemma_decoded_insert<K: Fits64, V: Fits64>(m: Map<u64, u64>, k: K, v: V)
    requires
        k.spec_fits(),
        v.spec_fits(),
        all_codes::<K, V>(m),
    ensures
        decoded::<K, V>(m.insert(k.spec_to_u64(), v.spec_to_u64())) == decoded::<K, V>(m).insert(k, v),
        all_codes::<K, V>(m.insert(k.spec_to_u64(), v.spec_to_u64())),
{
    lemma_code_of(k, k);
    lemma_code_of(v, v);
    let a = decoded::<K, V>(m.insert(k.spec_to_u64(), v.spec_to_u64()));
    let b = decoded::<K, V>(m).insert(k, v);
    assert forall|j: K| #[trigger] a.contains_key(j) <==> b.contains_key(j) by {
        if j.spec_fits() {
            lemma_code_of(j, k);
        }
    }
    assert forall|j: K| #[trigger] a.contains_key(j) implies a[j] == b[j] by {
        lemma_code_of(j, k);
        K::lemma_fits64(k, 0);
        V::lemma_fits64(v, 0);
    }
    assert(a =~= b);
}

pub proof fn lemma_decoded_remove<K: Fits64, V: Fits64>(m: Map<u64, u64>, k: K)
    requires
        k.spec_fits(),
    ensures
        decoded::<K, V>(m.remove(k.spec_to_u64())) == decoded::<K, V>(m).remove(k),
        all_codes::<K, V>(m) ==> all_codes::<K, V>(m.remove(k.spec_to_u64())),
{
    let a = decoded::<K, V>(m.remove(k.spec_to_u64()));
    let b = decoded::<K, V>(m).remove(k);
    assert forall|j: K| #[trigger] a.contains_key(j) <==> b.contains_key(j) by {
        if j.spec_fits() {
            lemma_code_of(j, k);
        }
    }
    assert(a =~= b);
}

/// The value of `k` is the decoded value of its code.
pub proof fn lemma_decoded_get<K: Fits64, V: Fits64>(m: Map<u64, u64>, k: K)
    requires
        k.spec_fits(),
        all_codes::<K, V>(m),
    ensures
        decoded::<K, V>(m).contains_key(k) <==> m.contains_key(k.spec_to_u64()),
        m.contains_key(k.spec_to_u64()) ==> V::spec_decodes(m[k.spec_to_u64()]),
        m.contains_key(k.spec_to_u64()) ==> decoded::<K, V>(m)[k] == V::spec_from_u64(m[k.spec_to_u64()]),
{
}

/// The decoded map has as many entries as `m`.
pub proof fn lemma_decoded_len<K: Fits64, V: Fits64>(m: Map<u64, u64>)
    requires
        all_codes::<K, V>(m),
        m.dom().finite(),
    ensures
        decoded::<K, V>(m).dom().finite(),
        decoded::<K, V>(m).len() == m.len(),
{
    let f = |x: u64| K::spec_from_u64(x);
    let d = decoded::<K, V>(m).dom();
    assert(vstd::relations::injective_on(f, m.dom())) by {
        assert forall|x: u64, y: u64| m.dom().contains(x) && m.dom().contains(y) && #[trigger] f(x) == #[trigger] f(y) implies x == y by {
            lemma_decode_code::<K>(x);
            lemma_decode_code::<K>(y);
        }
    }
    assert(m.dom().map(f) =~= d) by {
        assert forall|k: K| #[trigger] d.contains(k) implies m.dom().map(f).contains(k) by {
            K::lemma_fits64(k, 0);
            assert(m.dom().contains(k.spec_to_u64()) && k == f(k.spec_to_u64()));
        }
        assert forall|k: K| #[trigger] m.dom().map(f).contains(k) implies d.contains(k) by {
            let x = choose|x: u64| m.dom().contains(x) && k == f(x);
            lemma_decode_code::<K>(x);
        }
    }
    vstd::set_lib::lemma_map_size(m.dom(), d, f);
}

impl<K: Fits64, V: Fits64> Map6464<K, V> {
    /// The underlying map is well formed and holds codes only.
    pub closed spec fn wf(&self) -> bool {
        &&& self.m.wf()
        &&& all_codes::<K, V>(self.m@)
    }

    /// How many more entries the storage takes without growing.
    pub closed spec fn room(&self) -> int {
        self.m.room()
    }

    /// The map is finite.
    pub proof fn lemma_view_finite(&self)
        requires
            self.wf(),
        ensures
            self@.dom().finite(),
    {
        self.m.lemma_len();
        lemma_decoded_len::<K, V>(self.m@);
    }

    /// Creates an empty `Map6464`.
    pub fn new() -> (m: Self)
        ensures
            m.wf(),
            m@ == Map::<K, V>::empty(),
    {
        let m = Map6464 { m: U64Map::with_capacity(1), phk: PhantomData, phv: PhantomData };
        assert(m@ =~= Map::<K, V>::empty());
        m
    }

    /// Returns the number of elements in the map.
    pub fn len(&self) -> (r: usize)
        requires
            self.wf(),
        ensures
            r == self@.len(),
    {
        proof {
            self.m.lemma_len();
            lemma_decoded_len::<K, V>(self.m@);
        }
        self.m.len()
    }

    /// Inserts a key-value pair into the map.
    ///
    /// If the map did not have this key present, None is returned.
    ///
    /// If the map did have this key present, the value is updated,
    /// and the old value is returned.
    pub fn insert(&mut self, k: K, v: V) -> (r: Option<V>)
        requires
            old(self).wf(),
            k.spec_fits(),
            v.spec_fits(),
            old(self)@.len() < max_capacity(),
        ensures
            final(self).wf(),
            final(self)@ == old(self)@.insert(k, v),
            r == old(self)@.get(k),
    {
        proof {
            self.m.lemma_len();
            lemma_decoded_len::<K, V>(self.m@);
            lemma_decoded_insert::<K, V>(self.m@, k, v);
            lemma_decoded_get::<K, V>(self.m@, k);
        }
        let kk = k.to_u64();
        let vv = v.to_u64();
        self.m.reserve_with_maxes(kk, vv, 1);
        match self.m.insert_unchecked(kk, vv) {
            Some(i) => Some(V::from_u64(i)),
            None => None,
        }
    }

    /// Reserves capacity for at least `additional` more elements to
    /// be inserted in the `Map6464`. The collection may reserve more
    /// space to avoid frequent reallocations.
    pub fn reserve(&mut self, additional: usize)
        requires
            old(self).wf(),
            old(self)@.len() + additional <= max_capacity(),
        ensures
            final(self).wf(),
            final(self)@ == old(self)@,
            final(self).room() >= additional,
    {
        proof {
            self.m.lemma_len();
            lemma_decoded_len::<K, V>(self.m@);
        }
        self.m.reserve_with_maxes(0, 0, additional);
    }

    /// Removes a key from the map, returning the value at the key if
    /// the key was previously in the map.
    pub fn remove(&mut self, k: &K) -> (r: Option<V>)
        requires
            old(self).wf(),
            k.spec_fits(),
        ensures
            final(self).wf(),
            final(self)@ == old(self)@.remove(*k),
            r == old(self)@.get(*k),
    {
        proof {
            lemma_decoded_remove::<K, V>(self.m@, *k);
            lemma_decoded_get::<K, V>(self.m@, *k);
        }
        match self.m.remove(k.to_u64()) {
            Some(i) => Some(V::from_u64(i)),
            None => None,
        }
    }

    /// Returns the value corresponding to the key.
    pub fn get(&self, k: &K) -> (r: Option<V>)
        requires
            self.wf(),
            k.spec_fits(),
        ensures
            r == self@.get(*k),
    {
        proof {
            lemma_decoded_get::<K, V>(self.m@, *k);
        }
        match self.m.get(k.to_u64()) {
            Some(i) => Some(V::from_u64(i)),
            None => None,
        }
    }
}

/// Iterator over the entries of a `Map6464`.
pub struct Map6464Iter<K: Fits64, V: Fits64> {
    items: Vec<(K, V)>,
    pos: usize,
}

impl<K: Fits64, V: Fits64> Map6464Iter<K, V> {
    /// The entries still to come.
    pub closed spec fn remaining(&self) -> Seq<(K, V)> {
        if self.pos <= self.items@.len() {
            self.items@.skip(self.pos as int)
        } else {
            Seq::empty()
        }
    }

    /// The next entry, if any.
    pub fn next(&mut self) -> (r: Option<(K, V)>)
        ensures
            old(self).remaining().len() == 0 ==> r is None
                && final(self).remaining() == old(self).remaining(),
            old(self).remaining().len() > 0 ==> r == Some(old(self).remaining()[0])
                && final(self).remaining() == old(self).remaining().drop_first(),
    {
        if self.pos < self.items.len() {
            let x = self.items[self.pos];
            self.pos = self.pos + 1;
            assert(self.items@.skip(self.pos as int) =~= old(self).remaining().drop_first());
            Some(x)
        } else {
            assert(old(self).remaining().len() == 0);
            None
        }
    }

    /// The number of entries still to come.
    pub fn size_hint(&self) -> (r: usize)
        ensures
            r == self.remaining().len(),
    {
        if self.pos < self.items.len() {
            self.items.len() - self.pos
        } else {
            0
        }
    }
}

impl<K: Fits64, V: Fits64> Map6464<K, V> {
    /// An iterator visiting all key-value pairs in arbitrary order, each
    /// key once.
    pub fn iter(&self) -> (it: Map6464Iter<K, V>)
        requires
            self.wf(),
        ensures
            distinct_keys(it.remaining()),
            pairs_map(it.remaining()) == self@,
            it.remaining().len() == self@.len(),
    {
        let es = self.m.entries();
        let mut out: Vec<(K, V)> = Vec::new();
        let mut i: usize = 0;
        proof {
            lemma_pairs_empty::<K, V>();
            lemma_pairs_empty::<u64, u64>();
            assert(es@.take(0) =~= Seq::<(u64, u64)>::empty());
            assert(decoded::<K, V>(Map::<u64, u64>::empty()) =~= Map::<K, V>::empty());
        }
        while i < es.len()
            invariant
                self.wf(),
                distinct_keys(es@),
                pairs_map(es@) == self.m@,
                i <= es@.len(),
                out@.len() == i,
                distinct_keys(out@),
                distinct_keys(es@.take(i as int)),
                all_codes::<K, V>(pairs_map(es@.take(i as int))),
                pairs_map(out@) == decoded::<K, V>(pairs_map(es@.take(i as int))),
            decreases es@.len() - i,
        {
            let (a, b) = es[i];
            let ghost t = es@.take(i as int);
            proof {
                assert(es@.take(i + 1) =~= t.push(es@[i as int]));
                if pairs_map(t).contains_key(a) {
                    let j = choose|j: int| 0 <= j < t.len() && #[trigger] t[j].0 == a;
                    assert(es@[j].0 != es@[i as int].0);
                }
                lemma_pairs_push(t, es@[i as int]);
                lemma_pairs_at(es@, i as int);
                lemma_decode_code::<K>(a);
                lemma_decode_code::<V>(b);
            }
            let k = K::from_u64(a);
            let v = V::from_u64(b);
            proof {
                lemma_decoded_insert::<K, V>(pairs_map(t), k, v);
                lemma_decoded_get::<K, V>(pairs_map(t), k);
                lemma_pairs_push(out@, (k, v));
            }
            out.push((k, v));
            i += 1;
        }
        proof {
            assert(es@.take(es@.len() as int) =~= es@);
            lemma_pairs_len(out@);
        }
        let it = Map6464Iter { items: out, pos: 0 };
        assert(it.remaining() =~= out@);
        it
    }
}

} // verus!
