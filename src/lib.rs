//! Word-parallel bit vectors, a growable integer set built on them, and a
//! sparse map from small integers to values.

pub mod word;
pub mod bitv;
pub mod map;
pub mod vec;

pub use bitv::{BigBitv, BitvSet, BitvSetIterator, Op};
pub use word::{big_mask, count_ones};
pub use map::{SmallIntMap, SmallIntMapIterator};
pub use vec::VecUtils;
