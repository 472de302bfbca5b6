//! Early-boot memory management building blocks: a double-ended bump
//! allocator that serves byte- and page-granularity requests out of one
//! fixed address range, together with the address-alignment helpers it is
//! built on, and a small chained-bucket hash map.

pub mod align;
pub mod bump;
pub mod hash;
