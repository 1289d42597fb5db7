//! Compact sets and maps of small values, with Robin Hood hash tables
//! whose behaviour is specified and proved.

pub mod robin;
pub mod robin_map;
pub mod castset;
pub mod optcastset;
pub mod tinyset;
pub mod word;
pub mod small;
pub mod table;
pub mod wordmap;
pub mod u64map;
pub mod fits;
pub mod vecset;
pub mod rand;
pub mod wordset;
pub mod u64set;
pub mod usizeset;
pub mod setu64;
pub mod map64;
pub mod ktable;
pub mod laws;
pub mod tiny;
pub mod dense;
pub mod wtable;
pub mod heap;
pub mod big;
