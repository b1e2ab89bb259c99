//! An embedded ordered key-value store organized as a log-structured merge
//! tree: an in-memory memtable absorbs writes, `sync` freezes it into an
//! immutable sorted-string-table image, and reads merge the memtable stack
//! with the flushed tables, newest first, with empty values acting as
//! deletion tombstones.
pub mod block;
pub mod iterators;
pub mod lsm_iterator;
pub mod lsm_storage;
pub mod mem_table;
pub mod table;
pub mod wire;

use vstd::prelude::*;

verus! {

} // verus!
