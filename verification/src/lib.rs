//! Memoizing key-value stores built from three verified layers: a segmented
//! arena that hands out permanently stable slot indices, once-cells that run
//! an initializer at most once per slot, and open-addressing hash tables
//! (fixed-capacity and incrementally growing) that map keys to slots without
//! ever disturbing slots already handed out.

pub mod math;
pub mod index_arena;
pub mod once;
pub mod probing;
pub mod key;
pub mod load_factor;
pub mod concurrent_fixed;
pub mod concurrent;
pub mod stable_map;
pub mod once_map;
pub mod lazy_map;
pub mod sharded_stable_map;
pub mod cow_entry;
pub mod raw_map;
pub mod unbounded;
pub mod raw_mutex_cell;
pub mod raw_cell_mutex;
