//! Files and the cache in front of them.

pub mod cache;
pub mod cache_laws;
pub mod cached_storage;
pub mod hash_trie;
pub mod key;
pub mod mem_storage;
pub mod page_laws;
pub mod paging;
pub mod tree_list;
