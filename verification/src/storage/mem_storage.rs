//! Files in memory.

use vstd::prelude::*;

use super::hash_trie::HashTrie;
use crate::util::bytes::sub_bytes;

verus! {

/// Why a file in memory cannot be read.
#[derive(Clone, Copy, Debug, PartialEq, Eq, Structural)]
pub enum StorageError {
    /// There is no file of that name.
    NotFound,
    /// The file was deleted or replaced after it was opened.
    Deleted,
    /// The read ran past the end of the file.
    UnexpectedEof,
}

/// Files in memory, by name. Each put makes a new file, told apart by a number.
pub struct MemStorage {
    files: HashTrie<String, (u64, Vec<u8>)>,
    next_id: u64,
}

/// A file that was opened.
#[derive(Debug)]
pub struct MemFile {
    name: String,
    id: u64,
    len: u64,
}

impl View for MemStorage {
    type V = Map<Seq<char>, (u64, Seq<u8>)>;

    closed spec fn view(&self) -> Map<Seq<char>, (u64, Seq<u8>)> {
        Map::new(
            |name: Seq<char>| self.files@.contains_key(name),
            |name: Seq<char>| (self.files@[name].0, self.files@[name].1@),
        )
    }
}

impl MemFile {
    /// The name that the file was opened by.
    pub closed spec fn name(&self) -> Seq<char> {
        self.name@
    }

    /// The number of the file.
    pub closed spec fn id(&self) -> u64 {
        self.id
    }

    /// The length that the file had when it was opened.
    pub closed spec fn size(&self) -> u64 {
        self.len
    }

    /// Whether the file is still there.
    pub open spec fn live(&self, storage: &MemStorage) -> bool {
        storage@.contains_key(self.name()) && storage@[self.name()].0 == self.id()
    }

    /// Whether the file is one of a storage, there or not any more.
    pub open spec fn opened_from(&self, storage: &MemStorage) -> bool {
        self.live(storage) ==> self.size() == storage@[self.name()].1.len()
    }

    /// The content of the file.
    pub fn content_or<'a>(&self, storage: &'a MemStorage) -> (r: Result<&'a Vec<u8>, StorageError>)
        requires
            storage.wf(),
        ensures
            match r {
                Ok(content) => self.live(storage) && content@ == storage@[self.name()].1,
                Err(e) => !self.live(storage) && e == StorageError::Deleted,
            },
    {
        match storage.files.get(&self.name) {
            Some(file) => if file.0 == self.id {
                Ok(&file.1)
            } else {
                Err(StorageError::Deleted)
            },
            None => Err(StorageError::Deleted),
        }
    }

    /// The `n` bytes of the file from an offset.
    pub fn read_exact_at(&self, storage: &MemStorage, offset: u64, n: usize) -> (r: Result<
        Vec<u8>,
        StorageError,
    >)
        requires
            storage.wf(),
            self.opened_from(storage),
        ensures
            match r {
                Ok(bytes) => self.live(storage) && offset + n <= self.size() && bytes@
                    == storage@[self.name()].1.subrange(offset as int, offset + n),
                Err(StorageError::Deleted) => !self.live(storage),
                Err(StorageError::UnexpectedEof) => self.live(storage) && offset + n > self.size(),
                Err(StorageError::NotFound) => false,
            },
    {
        let content = match self.content_or(storage) {
            Ok(content) => content,
            Err(e) => return Err(e),
        };
        if offset > self.len || n as u64 > self.len - offset {
            return Err(StorageError::UnexpectedEof);
        }
        assert(self.len == content.len());
        Ok(sub_bytes(content.as_slice(), offset as usize, offset as usize + n))
    }

    /// The name that the file was opened by.
    pub fn copied_name(&self) -> (r: String)
        ensures
            r@ == self.name(),
    {
        self.name.clone()
    }

    pub fn len(&self) -> (r: u64)
        ensures
            r == self.size(),
    {
        self.len
    }
}

impl MemStorage {
    /// The numbers of the files are below the next one.
    pub closed spec fn wf(&self) -> bool {
        &&& self.files.wf()
        &&& forall|name: Seq<char>| #[trigger]
            self.files@.contains_key(name) ==> self.files@[name].0 < self.next_id
    }

    /// The number that the next file gets.
    pub closed spec fn next(&self) -> u64 {
        self.next_id
    }

    pub fn new() -> (r: Self)
        ensures
            r.wf(),
            r@ == Map::<Seq<char>, (u64, Seq<u8>)>::empty(),
            r.next() == 0,
    {
        let r = MemStorage { files: HashTrie::new(), next_id: 0 };
        assert(r@ =~= Map::<Seq<char>, (u64, Seq<u8>)>::empty());
        r
    }

    /// Stores a file in place of any other of that name.
    pub fn put(&mut self, name: String, content: Vec<u8>)
        requires
            old(self).wf(),
            old(self).next() < u64::MAX,
            old(self)@.dom().len() < usize::MAX,
        ensures
            final(self).wf(),
            final(self).next() == old(self).next() + 1,
            final(self)@ == old(self)@.insert(name@, (old(self).next(), content@)),
    {
        assert(self@.dom() =~= self.files@.dom());
        self.files.insert(name, (self.next_id, content));
        self.next_id = self.next_id + 1;
        assert(self@ =~= old(self)@.insert(name@, (old(self).next(), content@)));
    }

    /// Opens a file.
    pub fn get(&self, name: &String) -> (r: Result<MemFile, StorageError>)
        requires
            self.wf(),
        ensures
            match r {
                Ok(file) => self@.contains_key(name@) && file.name() == name@ && file.id()
                    == self@[name@].0 && file.size() == self@[name@].1.len(),
                Err(e) => !self@.contains_key(name@) && e == StorageError::NotFound,
            },
    {
        match self.files.get(name) {
            Some(file) => Ok(MemFile { name: name.clone(), id: file.0, len: file.1.len() as u64 }),
            None => Err(StorageError::NotFound),
        }
    }

    /// Deletes a file, where there is one of that name.
    pub fn delete(&mut self, name: &String)
        requires
            old(self).wf(),
        ensures
            final(self).wf(),
            final(self).next() == old(self).next(),
            final(self)@ == old(self)@.remove(name@),
    {
        self.files.remove(name);
        assert(self@ =~= old(self)@.remove(name@));
    }
}

/// A file that is put gets a number that no file of the storage has, so files of that name that
/// were opened before are not there any more.
pub proof fn law_numbers_are_fresh(storage: &MemStorage, name: Seq<char>)
    requires
        storage.wf(),
        storage@.contains_key(name),
    ensures
        storage@[name].0 < storage.next(),
{
}

} // verus!
