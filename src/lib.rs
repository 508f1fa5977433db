//! A huge-page allocator that multiplexes a pool of physical frames onto a
//! larger virtual range, with occupancy maps, a buddy tower of virtual quanta
//! and a clean/dirty recycling protocol.

use vstd::prelude::*;

pub mod buddy;
pub mod count_map;
pub mod frame_list;
pub mod myalloc;
pub mod packed;
pub mod page_map;
pub mod quantum_address;
pub mod quantum_storage;
pub mod rng;
pub mod system;
pub mod util;
