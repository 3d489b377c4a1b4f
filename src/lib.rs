//! An allocator for a small, fixed linear memory arena: a fast pool of
//! uniform slots beside a buddy allocator, behind one facade that lays the
//! arena out once.

pub mod pow;
pub mod layout;
pub mod fast_pool;
pub mod tree;
pub mod buddy;
pub mod allocator;
pub mod options;

