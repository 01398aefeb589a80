use std::collections::BTreeMap;

use obsidian::storage::cache::{Cache, CacheStripe};
use obsidian::storage::cached_storage::CachedStorage;
use obsidian::storage::hash_trie::{HashTrie, HashTrieNode, HASH_TRIE_LEAF_MAX};
use obsidian::storage::key::{hash_key, random_seed};
use obsidian::storage::mem_storage::{MemStorage, StorageError};
use obsidian::storage::paging::{PageReader, PageWriter, UnexpectedEof, WantedPage};
use obsidian::storage::tree_list::{TreeList, TREE_LIST_NODE_SIZE};

fn make_test_file(len: usize) -> Vec<u8> {
    let mut content = vec![0u8; len];
    for i in 0..len {
        content[i] = (i % 7) as u8;
    }
    content
}

#[test]
fn test_cached_storage() {
    const PAGE_SIZE: usize = 16;
    const STRIPE_SIZE_PAGES: usize = 8;
    const N_STRIPES: usize = 2;
    const CAPACITY_PAGES: usize = STRIPE_SIZE_PAGES * N_STRIPES;

    // How many pages are evicted depends on how they fall on the stripes. With this seed they fall
    // unevenly; where they fall evenly, only one is evicted.
    let seed = vec![2];
    let mut storage =
        CachedStorage::with_seed(seed, PAGE_SIZE, STRIPE_SIZE_PAGES, N_STRIPES);

    let test_files = BTreeMap::from([
        ("foo", make_test_file(55)),
        ("bar", make_test_file(127)),
        ("baz", make_test_file(74)),
    ]);

    for (name, content) in &test_files {
        storage.put(name.to_string(), content.clone());
    }

    let n_pages = test_files
        .values()
        .map(|v| v.len().div_ceil(PAGE_SIZE))
        .sum::<usize>();

    // We might end up with _more_ evictions than this because of striping.
    assert!(storage.evictions() > n_pages - CAPACITY_PAGES);

    let mut check = |name: &str, offset: usize, size: usize| {
        println!("reading {} [{}..{}]", name, offset, offset + size);
        let expected = &test_files[name][offset..offset + size];
        let file = storage.get(&name.to_string()).unwrap();
        let actual = storage.read_exact_at(&file, offset as u64, size).unwrap();

        assert_eq!(&actual[..], expected);
    };

    check("foo", 0, 16);
    check("bar", 16, 5);
    check("bar", 125, 2);
    check("bar", 0, 16);
    check("bar", 5, 2);
    check("foo", 54, 1);
    check("foo", 0, 32);
    check("foo", 4, 15);
    check("bar", 100, 11);
    check("bar", 59, 55);
}

#[test]
fn cached_storage_reads_whole_files_back() {
    let mut storage = CachedStorage::new(16, 3, 1);
    storage.put("a".to_string(), make_test_file(100));
    storage.put("empty".to_string(), vec![]);
    let a = storage.get(&"a".to_string()).unwrap();
    assert_eq!(a.len(), 100);
    assert_eq!(storage.read_exact_at(&a, 0, 100), Ok(make_test_file(100)));
    assert_eq!(storage.read_exact_at(&a, 16, 16), Ok(make_test_file(100)[16..32].to_vec()));
    assert_eq!(storage.read_exact_at(&a, 90, 11), Err(StorageError::UnexpectedEof));
    assert_eq!(storage.read_exact_at(&a, 500, 1), Err(StorageError::UnexpectedEof));
    assert_eq!(storage.read_exact_at(&a, 500, 0), Ok(vec![]));
    let empty = storage.get(&"empty".to_string()).unwrap();
    assert_eq!(storage.read_exact_at(&empty, 0, 0), Ok(vec![]));
    assert_eq!(storage.read_exact_at(&empty, 0, 1), Err(StorageError::UnexpectedEof));
    assert!(matches!(storage.get(&"b".to_string()), Err(StorageError::NotFound)));
}

#[test]
fn each_stripe_has_room_for_as_many_pages_as_asked() {
    for _ in 0..20 {
        let mut storage = CachedStorage::new(16, 8, 2);
        storage.put("a".to_string(), make_test_file(8 * 16));
        // So many pages fit in one stripe, wherever they fall.
        assert_eq!(storage.evictions(), 0);
        storage.put("b".to_string(), make_test_file(9 * 16));
        // One page more than there is room for in all.
        assert!(storage.evictions() >= 1);
    }
}

#[test]
fn the_cache_holds_as_many_pages_as_it_has_room_for() {
    let mut storage = CachedStorage::new(16, 4, 1);
    storage.put("a".to_string(), make_test_file(64));
    assert_eq!(storage.evictions(), 0);
    let a = storage.get(&"a".to_string()).unwrap();
    storage.delete(&"a".to_string());
    // All four pages were cached when the file was put.
    assert_eq!(storage.read_exact_at(&a, 0, 64), Ok(make_test_file(64)));
    storage.put("b".to_string(), make_test_file(17));
    assert_eq!(storage.evictions(), 2);
    assert_eq!(storage.read_exact_at(&a, 0, 64), Err(StorageError::Deleted));
    // A page that was read is cached.
    let b = storage.get(&"b".to_string()).unwrap();
    storage.put("c".to_string(), make_test_file(64));
    assert_eq!(storage.evictions(), 6);
    assert_eq!(storage.read_exact_at(&b, 16, 1), Ok(make_test_file(17)[16..].to_vec()));
    storage.delete(&"b".to_string());
    assert_eq!(storage.read_exact_at(&b, 16, 1), Ok(make_test_file(17)[16..].to_vec()));
}

#[test]
fn cached_pages_outlive_their_file() {
    let mut storage = CachedStorage::new(16, 1, 1);
    storage.put("a".to_string(), make_test_file(64));
    let a = storage.get(&"a".to_string()).unwrap();
    storage.delete(&"a".to_string());
    assert_eq!(storage.read_exact_at(&a, 48, 16), Ok(make_test_file(64)[48..].to_vec()));
    assert_eq!(storage.read_exact_at(&a, 0, 16), Err(StorageError::Deleted));
    assert!(matches!(storage.get(&"a".to_string()), Err(StorageError::NotFound)));
}

#[test]
fn test_cache_insert_remove() {
    let mut c: Cache<&str, usize> = Cache::new(10 /*capacity*/, 1 /*n_stripes*/);

    c.insert("hello", 5);
    assert_eq!(c.get(&"hello"), Some(5));
    c.remove(&"hello");
    assert_eq!(c.get(&"hello"), None);
}

#[test]
fn test_cache_put_put() {
    let mut c: Cache<&str, usize> = Cache::new(10 /*capacity*/, 1 /*n_stripes*/);

    c.insert("hello", 5);
    assert_eq!(c.get(&"hello"), Some(5));
    c.insert("hello", 6);
    assert_eq!(c.get(&"hello"), Some(6));
}

#[test]
fn test_cache_evict() {
    let mut c: Cache<&str, usize> = Cache::new(4 /*capacity*/, 1 /*n_stripes*/);

    c.insert("foo", 1);
    c.insert("bar", 2);
    c.insert("baz", 3);
    c.insert("qux", 4);

    c.insert("quux", 5);
    // "foo" got evicted because it's the oldest.
    assert_eq!(c.get(&"foo"), None);
    assert_eq!(c.get(&"bar"), Some(2));
    // Deliberately leaving this one out so that it stays touched=false.
    // assert_eq!(c.get(&"baz"), Some(3));
    assert_eq!(c.get(&"qux"), Some(4));
    assert_eq!(c.get(&"quux"), Some(5));

    c.insert("garply", 6);
    // baz was the only one we didn't get() above.
    assert_eq!(c.get(&"baz"), None);
    assert_eq!(c.get(&"garply"), Some(6));
    assert_eq!(c.evictions(), 2);
}

#[test]
fn test_stripes() {
    let mut c: Cache<usize, usize> = Cache::new(8 /*capacity*/, 2 /*n_stripes*/);

    for i in 0..24 {
        c.insert(i, i);
    }

    let mut n_present = 0;
    for i in 0..24 {
        let result = c.get(&i);
        if let Some(v) = result {
            assert_eq!(i, v);
            n_present += 1;
        }
    }

    assert_eq!(n_present, 8);
}

#[test]
fn stripes_are_never_more_than_the_capacity() {
    let mut c: Cache<usize, usize> = Cache::new(2, 8);
    for i in 0..16 {
        c.insert(i, i);
    }
    assert_eq!((0..16).filter(|i| c.get(i).is_some()).count(), 2);
    assert!(c.stripe_for(&5) < 2);
}

#[test]
fn a_stripe_never_holds_more_than_its_capacity() {
    let mut s: CacheStripe<&str, usize> = CacheStripe::new(2);
    s.insert("a", 1);
    s.insert("b", 2);
    s.remove(&"a");
    s.insert("c", 3);
    s.insert("d", 4);
    assert_eq!(s.get(&"d"), Some(4));
    let present = ["a", "b", "c", "d"].iter().filter(|k| s.get(k).is_some()).count();
    assert_eq!(present, 2);

    // As many keys are lost as are evicted, and none where a place is vacant.
    let mut c: Cache<usize, usize> = Cache::new(3, 1);
    for i in 0..3 {
        c.insert(i, i);
    }
    c.remove(&0);
    c.remove(&2);
    c.insert(7, 7);
    c.insert(8, 8);
    assert_eq!(c.evictions(), 0);
    assert_eq!([1, 7, 8].map(|k| c.get(&k)), [Some(1), Some(7), Some(8)]);
    c.insert(9, 9);
    assert_eq!(c.evictions(), 1);
    assert_eq!([1, 7, 8, 9].iter().filter(|k| c.get(k).is_some()).count(), 3);
}

#[test]
fn seeds_differ_and_hashes_depend_on_them() {
    let (a, b) = (random_seed(), random_seed());
    assert_eq!(a.len(), 8);
    assert_ne!(a, b);
    assert_eq!(hash_key(&a, &5usize), hash_key(&a, &5usize));
    assert_ne!(hash_key(&a, &5usize), hash_key(&b, &5usize));
    assert_ne!(hash_key(&a, &5usize), hash_key(&a, &6usize));
    assert_eq!(hash_key(&a, &"x"), hash_key(&a, &"x".to_string()));
}

#[test]
fn test_tree_list() {
    let mut list = TreeList::new();

    let n = TREE_LIST_NODE_SIZE * 2;

    for i in 0..n {
        list.push(i);
    }

    for i in 0..n {
        assert_eq!(*list.index(i), i);
    }

    for i in 0..n {
        list.replace(i, i * 5);
    }

    for i in 0..n {
        assert_eq!(*list.index(i), i * 5);
    }
    assert_eq!(list.len(), n);
}

#[test]
fn test_hash_trie_small() {
    let mut m = HashTrie::new();

    for i in 0..HASH_TRIE_LEAF_MAX {
        m.insert(i, i * 2);
    }

    assert_eq!(m.len(), HASH_TRIE_LEAF_MAX);

    for i in 0..HASH_TRIE_LEAF_MAX {
        assert_eq!(m.get(&i), Some(&(i * 2)));
    }
}

#[test]
fn test_hash_trie_split_small() {
    let mut m = HashTrie::new();

    let n = HASH_TRIE_LEAF_MAX + 1;

    for i in 0..n {
        m.insert(i, i * 2);
    }

    assert_eq!(m.len(), n);

    for i in 0..n {
        assert_eq!(m.get(&i), Some(&(i * 2)));
    }
}

#[test]
fn test_hash_trie_split_large() {
    let mut m = HashTrie::new();

    let n = HASH_TRIE_LEAF_MAX * 12;

    for i in 0..n {
        m.insert(i, i * 2);
    }

    assert_eq!(m.len(), n);

    for i in 0..n {
        assert_eq!(m.get(&i), Some(&(i * 2)));
    }
}

#[test]
fn test_hash_trie_merge_large() {
    let mut m = HashTrie::new();

    let n = HASH_TRIE_LEAF_MAX * 12;

    for i in 0..n {
        m.insert(i, i * 2);
    }

    assert_eq!(m.len(), n);

    for i in 12..n {
        m.remove(&i);
    }

    assert_eq!(m.len(), 12);

    for i in 0..12 {
        assert_eq!(m.get(&i), Some(&(i * 2)));
    }

    assert_eq!(m.get(&13), None);

    match m.root {
        HashTrieNode::Leaf(_) => {}
        _ => {
            panic!("HashTrie didn't shrink as expected")
        }
    }
}

#[test]
fn test_hash_trie_child_idx() {
    for (depth, digit) in [
        0x1, 0x2, 0x3, 0x4, 0x5, 0x6, 0x7, 0x8, 0x9, 0xa, 0xb, 0xc, 0xd, 0xe, 0xf, 0x5,
    ]
    .into_iter()
    .enumerate()
    {
        assert_eq!(HashTrie::<bool, bool>::child_idx(0x123456789abcdef5, depth), digit);
    }

    assert_eq!(HashTrie::<bool, bool>::child_idx(0xf000000000000000, 0), 0xf);
    assert_eq!(HashTrie::<bool, bool>::child_idx(0x0f00000000000000, 1), 0xf);
    assert_eq!(HashTrie::<bool, bool>::child_idx(0x00f0000000000000, 2), 0xf);
    assert_eq!(HashTrie::<bool, bool>::child_idx(0x000f000000000000, 3), 0xf);
    assert_eq!(HashTrie::<bool, bool>::child_idx(0x0000f00000000000, 4), 0xf);
    assert_eq!(HashTrie::<bool, bool>::child_idx(0x00000f0000000000, 5), 0xf);
    assert_eq!(HashTrie::<bool, bool>::child_idx(0x000000f000000000, 6), 0xf);
    assert_eq!(HashTrie::<bool, bool>::child_idx(0x0000000f00000000, 7), 0xf);
    assert_eq!(HashTrie::<bool, bool>::child_idx(0x00000000f0000000, 8), 0xf);
    assert_eq!(HashTrie::<bool, bool>::child_idx(0x000000000f000000, 9), 0xf);
    assert_eq!(HashTrie::<bool, bool>::child_idx(0x0000000000f00000, 10), 0xf);
    assert_eq!(HashTrie::<bool, bool>::child_idx(0x00000000000f0000, 11), 0xf);
    assert_eq!(HashTrie::<bool, bool>::child_idx(0x000000000000f000, 12), 0xf);
    assert_eq!(HashTrie::<bool, bool>::child_idx(0x0000000000000f00, 13), 0xf);
    assert_eq!(HashTrie::<bool, bool>::child_idx(0x00000000000000f0, 14), 0xf);
    assert_eq!(HashTrie::<bool, bool>::child_idx(0x000000000000000f, 15), 0xf);
}

#[test]
fn hash_trie_insert_replaces_and_remove_returns() {
    let mut m: HashTrie<String, u32> = HashTrie::with_seed(vec![1, 2, 3]);
    m.insert("a".to_string(), 1);
    m.insert("a".to_string(), 2);
    assert_eq!(m.len(), 1);
    assert_eq!(m.get(&"a".to_string()), Some(&2));
    assert_eq!(m.remove(&"a".to_string()), Some(2));
    assert_eq!(m.remove(&"a".to_string()), None);
    assert_eq!(m.len(), 0);
}

#[test]
fn mem_files_are_told_apart_by_put() {
    let mut storage = MemStorage::new();
    storage.put("a".to_string(), b"hello".to_vec());
    let first = storage.get(&"a".to_string()).unwrap();
    assert_eq!(first.read_exact_at(&storage, 1, 3), Ok(b"ell".to_vec()));
    assert_eq!(first.read_exact_at(&storage, 3, 3), Err(StorageError::UnexpectedEof));
    storage.put("a".to_string(), b"other".to_vec());
    assert_eq!(first.read_exact_at(&storage, 0, 1), Err(StorageError::Deleted));
    let second = storage.get(&"a".to_string()).unwrap();
    assert_eq!(second.read_exact_at(&storage, 0, 5), Ok(b"other".to_vec()));
    storage.delete(&"a".to_string());
    assert!(matches!(storage.get(&"a".to_string()), Err(StorageError::NotFound)));
    assert_eq!(second.content_or(&storage), Err(StorageError::Deleted));
}

#[test]
fn a_page_reader_asks_for_each_page_once() {
    let content = make_test_file(100);
    let mut reader = PageReader::new(16, 100, 10, 30);
    let mut offsets = vec![];
    while let Some(WantedPage { offset, len }) = reader.wanted() {
        offsets.push((offset, len));
        let page = content[offset as usize..(offset + len) as usize].to_vec();
        assert_eq!(reader.supply(&page), Ok(()));
    }
    assert_eq!(offsets, vec![(0, 16), (16, 16), (32, 16)]);
    assert_eq!(reader.finish(), content[10..40].to_vec());

    let mut past_end = PageReader::new(16, 100, 98, 5);
    assert_eq!(past_end.wanted(), Some(WantedPage { offset: 96, len: 4 }));
    assert_eq!(past_end.supply(&content[96..].to_vec()), Err(UnexpectedEof));
}

#[test]
fn a_page_writer_gives_pages_while_it_hands_on() {
    let mut writer = PageWriter::new(4);
    assert_eq!(writer.room(), 4);
    writer.receive(&[1, 2, 3]);
    let (bytes, page) = writer.give(2);
    assert_eq!(bytes, vec![1, 2]);
    assert!(page.is_none());
    writer.receive(&[4]);
    let (bytes, page) = writer.give(10);
    assert_eq!(bytes, vec![3, 4]);
    let page = page.unwrap();
    assert_eq!((page.offset, page.content), (0, vec![1, 2, 3, 4]));
    writer.receive(&[5]);
    let (bytes, page) = writer.give(10);
    assert_eq!(bytes, vec![5]);
    assert!(page.is_none());
    let last = writer.finish().unwrap();
    assert_eq!((last.offset, last.content), (4, vec![5]));
}
