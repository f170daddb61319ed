//! A capacity-constrained storage network: byte-budgeted storage cells
//! organised into a priority-ordered grid with derived aggregate caches.

pub mod sums;
pub mod unit;
pub mod storage;
pub mod grid;
pub mod item;
pub mod fluid;
pub mod registry;
