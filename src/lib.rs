//! A two-ended bump allocator for early boot, and a small open-chaining hash map.

pub mod align;
pub mod early;
pub mod map;
