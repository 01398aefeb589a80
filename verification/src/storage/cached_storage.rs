//! Files with a cache of pages in front of them.

use std::sync::Arc;

use vstd::prelude::*;

use super::cache::{
    capacities, coherent, inserted, law_cache_coherent, law_even_stripe_sizes, law_insert,
    law_stripe_sizes, law_total_capacity, law_use_changes_no_value, law_values_have_no_say,
    lemma_evictions_update, mapped, stripe_of, stripe_sizes, sum, total_evictions, total_taken,
    touched, value_of, Cache, StripeState,
};
use super::key::{hash_of, random_seed};
use super::mem_storage::{MemFile, MemStorage, StorageError};
use super::paging::{
    law_pages_give_content, page_of, page_start, FinishedPage, PageReader, PageWriter,
};
use crate::util::bytes::sub_bytes;

verus! {

/// The bytes of a file from an offset up to another. There are none where these are the same,
/// wherever they are.
pub open spec fn bytes_between(content: Seq<u8>, from: int, to: int) -> Seq<u8> {
    if from == to {
        Seq::empty()
    } else {
        content.subrange(from, to)
    }
}

/// A page of a file, which copies share.
pub struct Page(pub Arc<Vec<u8>>);

impl View for Page {
    type V = Seq<u8>;

    open spec fn view(&self) -> Seq<u8> {
        self.0@
    }
}

impl Clone for Page {
    fn clone(&self) -> (r: Self)
        ensures
            r == *self,
    {
        Page(self.0.clone())
    }
}

/// Files, and a cache of their pages, which approximately holds the pages that were used last.
///
/// Pages are cached by the name of their file and the offset of the start of the page. Names are
/// never used again, so that nothing has to be taken out of the cache when files come and go.
pub struct CachedStorage {
    pub inner: MemStorage,
    pub page_size: usize,
    pub cache: Cache<(Arc<String>, u64), Page>,
    /// The content of every file that there ever was, by name.
    pub contents: Ghost<Map<Seq<char>, Seq<u8>>>,
}

/// A stripe of a cache of pages.
pub type PageStripe = StripeState<(Seq<char>, u64), Seq<u8>>;

/// The stripe that a page of a file is in.
pub open spec fn page_stripe(seed: Seq<u8>, n: int, name: Seq<char>, offset: u64) -> int {
    stripe_of::<(Arc<String>, u64)>(seed, (name, offset), n)
}

/// The page of a file that is cached.
pub open spec fn found(
    seed: Seq<u8>,
    stripes: Seq<PageStripe>,
    name: Seq<char>,
    offset: u64,
) -> Option<Seq<u8>> {
    value_of(stripes[page_stripe(seed, stripes.len() as int, name, offset)], (name, offset))
}

/// The stripes once a page of a file was cached.
pub open spec fn with_page(
    seed: Seq<u8>,
    stripes: Seq<PageStripe>,
    name: Seq<char>,
    offset: u64,
    page: Seq<u8>,
) -> Seq<PageStripe> {
    let at = page_stripe(seed, stripes.len() as int, name, offset);
    stripes.update(at, inserted(stripes[at], (name, offset), page))
}

/// The stripes once a page of a file was used.
pub open spec fn with_use(
    seed: Seq<u8>,
    stripes: Seq<PageStripe>,
    name: Seq<char>,
    offset: u64,
) -> Seq<PageStripe> {
    let at = page_stripe(seed, stripes.len() as int, name, offset);
    stripes.update(at, touched(stripes[at], (name, offset)))
}

/// How many pages a file has.
pub open spec fn n_pages(len: int, size: int) -> int {
    len / size + if len % size > 0 {
        1int
    } else {
        0
    }
}

/// The stripes once the first pages of a file were cached, one after the other.
pub open spec fn with_pages(
    seed: Seq<u8>,
    stripes: Seq<PageStripe>,
    name: Seq<char>,
    content: Seq<u8>,
    size: int,
    n: int,
) -> Seq<PageStripe>
    decreases n,
{
    if n <= 0 {
        stripes
    } else {
        with_page(
            seed,
            with_pages(seed, stripes, name, content, size, n - 1),
            name,
            ((n - 1) * size) as u64,
            page_of(content, (n - 1) * size, size),
        )
    }
}

/// The stripes once a file was read from a position up to another, page by page, and what went
/// wrong, if anything. Pages that are cached are used, and the others are cached where the file is
/// still there.
#[verifier::opaque]
pub open spec fn with_read(
    seed: Seq<u8>,
    stripes: Seq<PageStripe>,
    live: bool,
    name: Seq<char>,
    content: Seq<u8>,
    size: int,
    at: int,
    stop: int,
) -> (Seq<PageStripe>, Option<StorageError>)
    decreases stop - at,
{
    if !(0 <= at < stop) || size <= 0 {
        (stripes, None)
    } else {
        let first = page_start(at, size);
        let to = if first + size < stop {
            first + size
        } else {
            stop
        };
        let cached = found(seed, stripes, name, first as u64) is Some;
        let next = if cached {
            with_use(seed, stripes, name, first as u64)
        } else {
            with_page(seed, stripes, name, first as u64, page_of(content, first, size))
        };
        proof {
            vstd::arithmetic::div_mod::lemma_mod_bound(at, size);
        }
        if !cached && !live {
            (stripes, Some(StorageError::Deleted))
        } else if !cached && first > content.len() {
            (stripes, Some(StorageError::UnexpectedEof))
        } else if to > content.len() {
            (next, Some(StorageError::UnexpectedEof))
        } else {
            with_read(seed, next, live, name, content, size, to, stop)
        }
    }
}

/// A read takes one page after the other.
pub proof fn lemma_read_step(
    seed: Seq<u8>,
    stripes: Seq<PageStripe>,
    live: bool,
    name: Seq<char>,
    content: Seq<u8>,
    size: int,
    at: int,
    stop: int,
)
    requires
        size > 0,
        0 <= at,
    ensures
        at >= stop ==> with_read(seed, stripes, live, name, content, size, at, stop) == (
            stripes,
            None::<StorageError>,
        ),
        at < stop ==> ({
            let first = page_start(at, size);
            let to = if first + size < stop {
                first + size
            } else {
                stop
            };
            let cached = found(seed, stripes, name, first as u64) is Some;
            let next = if cached {
                with_use(seed, stripes, name, first as u64)
            } else {
                with_page(seed, stripes, name, first as u64, page_of(content, first, size))
            };
            &&& 0 <= first <= at < to
            &&& first % size == 0
            &&& with_read(seed, stripes, live, name, content, size, at, stop) == if !cached
                && !live {
                (stripes, Some(StorageError::Deleted))
            } else if !cached && first > content.len() {
                (stripes, Some(StorageError::UnexpectedEof))
            } else if to > content.len() {
                (next, Some(StorageError::UnexpectedEof))
            } else {
                with_read(seed, next, live, name, content, size, to, stop)
            }
        }),
{
    reveal(with_read);
    if at < stop {
        vstd::arithmetic::div_mod::lemma_mod_bound(at, size);
        vstd::arithmetic::div_mod::lemma_mod_decreases(at as nat, size as nat);
        vstd::arithmetic::div_mod::lemma_sub_mod_noop(at, at % size, size);
        vstd::arithmetic::div_mod::lemma_mod_twice(at, size);
        vstd::arithmetic::div_mod::lemma_small_mod(0, size as nat);
    }
}

/// The content of pages.
pub open spec fn page_content() -> spec_fn(Page) -> Seq<u8> {
    |page: Page| page@
}

impl CachedStorage {
    /// The cached pages, in stripes.
    pub open spec fn pages(&self) -> Seq<PageStripe> {
        Seq::new(self.cache@.len(), |i: int| mapped(self.cache@[i], page_content()))
    }

    /// The page that is cached of a file.
    pub open spec fn cached(&self, name: Seq<char>, offset: u64) -> Option<Seq<u8>> {
        found(self.cache.seed(), self.pages(), name, offset)
    }

    /// How many pages were evicted.
    pub open spec fn evicted(&self) -> nat {
        total_evictions(self.pages())
    }

    /// Every file has the content that was put, and every cached page is a page of its file.
    pub open spec fn wf(&self) -> bool {
        &&& self.page_size > 0
        &&& self.inner.wf()
        &&& self.cache.wf()
        &&& forall|name: Seq<char>| #[trigger]
            self.inner@.contains_key(name) ==> self.contents@.contains_key(name)
                && self.inner@[name].1 == self.contents@[name]
        &&& forall|name: Seq<char>, offset: u64| #[trigger]
            self.cached(name, offset) is Some ==> self.contents@.contains_key(name) && self.cached(
                name,
                offset,
            )->0 == page_of(self.contents@[name], offset as int, self.page_size as int)
    }

    /// Whether two storages are the same but for what is cached.
    pub open spec fn same_but_cached(&self, other: &CachedStorage) -> bool {
        self.inner == other.inner && self.page_size == other.page_size && self.contents
            == other.contents && self.cache.seed() == other.cache.seed()
    }

    /// Whether a file was opened here.
    pub open spec fn opened(&self, file: &MemFile) -> bool {
        &&& self.contents@.contains_key(file.name())
        &&& file.size() == self.contents@[file.name()].len()
        &&& self.inner@.contains_key(file.name()) ==> self.inner@[file.name()].0 == file.id()
    }

    /// `page_size` is the size of the cached pages.
    ///
    /// The cache can hold up to `stripe_size_pages * n_stripes` pages.
    ///
    /// `n_stripes` determines how many stripes to split the cache into. With more stripes the cache
    /// is slightly less accurate in its eviction.
    pub fn new(page_size: usize, stripe_size_pages: usize, n_stripes: usize) -> (r: Self)
        requires
            page_size > 0,
            stripe_size_pages > 0,
            n_stripes > 0,
            stripe_size_pages * n_stripes <= usize::MAX,
        ensures
            r.starts_empty(page_size, stripe_size_pages, n_stripes),
    {
        CachedStorage::with_seed(random_seed(), page_size, stripe_size_pages, n_stripes)
    }

    /// Whether a storage has no files, and a cache of so many stripes, each with room for so many
    /// pages, that is empty.
    pub open spec fn starts_empty(
        &self,
        page_size: usize,
        stripe_size_pages: usize,
        n_stripes: usize,
    ) -> bool {
        &&& self.wf()
        &&& self.page_size == page_size
        &&& self.inner@ == Map::<Seq<char>, (u64, Seq<u8>)>::empty()
        &&& self.inner.next() == 0
        &&& self.contents@ == Map::<Seq<char>, Seq<u8>>::empty()
        &&& self.evicted() == 0
        &&& forall|name: Seq<char>, offset: u64| #[trigger] self.cached(name, offset) is None
        &&& self.pages().len() == n_stripes
        &&& forall|i: int|
            0 <= i < n_stripes ==> (#[trigger] self.pages()[i]).capacity == stripe_size_pages
                && self.pages()[i].slots.len() == 0 && self.pages()[i].hand == 0
        &&& sum(capacities(self.pages())) == stripe_size_pages * n_stripes
    }

    /// A storage as of `new` whose cache finds stripes with a given seed.
    pub fn with_seed(
        seed: Vec<u8>,
        page_size: usize,
        stripe_size_pages: usize,
        n_stripes: usize,
    ) -> (r: Self)
        requires
            page_size > 0,
            stripe_size_pages > 0,
            n_stripes > 0,
            stripe_size_pages * n_stripes <= usize::MAX,
        ensures
            r.starts_empty(page_size, stripe_size_pages, n_stripes),
            r.cache.seed() == seed@,
    {
        proof {
            law_even_stripe_sizes(stripe_size_pages as int, n_stripes as int);
        }
        let r = CachedStorage {
            inner: MemStorage::new(),
            page_size,
            cache: Cache::with_seed(seed, stripe_size_pages * n_stripes, n_stripes),
            contents: Ghost(Map::empty()),
        };
        proof {
            let (size, n) = (stripe_size_pages as int, n_stripes as int);
            assert(size * n == n * size) by (nonlinear_arith);
            law_stripe_sizes(size * n, n, size);
            assert(capacities(r.cache@) == stripe_sizes(size * n, n, size));
            assert(capacities(r.pages()) =~= capacities(r.cache@));
            assert forall|i: int| 0 <= i < n implies (#[trigger] r.pages()[i]).capacity == size
                && r.pages()[i].slots.len() == 0 && r.pages()[i].hand == 0 by {
                assert(capacities(r.cache@)[i] == size);
                assert(r.cache@[i].slots.len() == 0);
            }
            assert forall|name: Seq<char>, offset: u64| #[trigger] r.cached(name, offset) is None by {
                law_cache_coherent(r.cache, 0, (name, offset));
                let at = page_stripe(r.cache.seed(), r.pages().len() as int, name, offset);
                assert(r.pages()[at].slots.len() == 0);
            }
            assert forall|i: int| 0 <= i < n implies (#[trigger] r.pages()[i]).evictions == 0 by {
                assert(r.cache@[i].evictions == 0);
            }
            lemma_no_evictions(r.pages());
        }
        r
    }

    /// The pages of a cache, where one stripe of it changed.
    proof fn lemma_stripe_changed(&self, before: &CachedStorage, i: int)
        requires
            0 <= i < before.cache@.len(),
            self.cache@ == before.cache@.update(i, self.cache@[i]),
        ensures
            self.pages() == before.pages().update(i, mapped(self.cache@[i], page_content())),
    {
        assert(self.pages() =~= before.pages().update(
            i,
            mapped(self.cache@[i], page_content()),
        ));
    }

    /// Caches a page of a file.
    fn cache_page(&mut self, name: &Arc<String>, offset: u64, page: Page)
        requires
            old(self).wf(),
            old(self).contents@.contains_key(name@),
            page@ == page_of(
                old(self).contents@[name@],
                offset as int,
                old(self).page_size as int,
            ),
            old(self).evicted() < usize::MAX,
        ensures
            final(self).wf(),
            final(self).same_but_cached(old(self)),
            final(self).pages() == with_page(
                old(self).cache.seed(),
                old(self).pages(),
                name@,
                offset,
                page@,
            ),
            final(self).cached(name@, offset) == Some(page@),
            final(self).evicted() <= old(self).evicted() + 1,
    {
        let ghost k = (name@, offset);
        let ghost at = self.cache.stripe(k);
        proof {
            law_cache_coherent(self.cache, at, k);
            law_values_have_no_say(self.cache@[at], page_content(), k, page);
            lemma_evictions_update(
                self.pages(),
                at,
                inserted(self.pages()[at], k, page@),
            );
        }
        self.cache.insert((name.clone(), offset), page);
        proof {
            self.lemma_stripe_changed(old(self), at);
            assert(self.pages() == with_page(
                old(self).cache.seed(),
                old(self).pages(),
                name@,
                offset,
                page@,
            ));
            law_insert(old(self).pages()[at], k, page@, k);
            assert forall|n: Seq<char>, o: u64| #[trigger]
                self.cached(n, o) is Some implies self.contents@.contains_key(n) && self.cached(
                n,
                o,
            )->0 == page_of(self.contents@[n], o as int, self.page_size as int) by {
                let x = (n, o);
                law_cache_coherent(old(self).cache, old(self).cache.stripe(x), x);
                if old(self).cache.stripe(x) == at {
                    law_insert(old(self).pages()[at], k, page@, x);
                }
                if x != k {
                    assert(old(self).cached(n, o) is Some);
                }
            }
        }
    }

    /// The page that is cached of a file, which counts as a use.
    fn cached_page(&mut self, name: &Arc<String>, offset: u64) -> (r: Option<Page>)
        requires
            old(self).wf(),
        ensures
            final(self).wf(),
            final(self).same_but_cached(old(self)),
            final(self).pages() == with_use(
                old(self).cache.seed(),
                old(self).pages(),
                name@,
                offset,
            ),
            final(self).cached(name@, offset) == old(self).cached(name@, offset),
            final(self).evicted() == old(self).evicted(),
            match r {
                Some(page) => old(self).cached(name@, offset) == Some(page@),
                None => old(self).cached(name@, offset) is None && final(self).pages()
                    == old(self).pages(),
            },
    {
        let ghost k = (name@, offset);
        let ghost at = self.cache.stripe(k);
        let r = self.cache.get(&(name.clone(), offset));
        proof {
            law_cache_coherent(old(self).cache, at, k);
            let any = arbitrary::<Page>();
            law_values_have_no_say(old(self).cache@[at], page_content(), k, any);
            self.lemma_stripe_changed(old(self), at);
            law_use_changes_no_value(old(self).pages()[at], k, k);
            lemma_evictions_update(
                old(self).pages(),
                at,
                touched(old(self).pages()[at], k),
            );
            if r is None {
                assert(self.pages() =~= old(self).pages());
            }
            assert forall|n: Seq<char>, o: u64| #[trigger]
                self.cached(n, o) is Some implies self.contents@.contains_key(n) && self.cached(
                n,
                o,
            )->0 == page_of(self.contents@[n], o as int, self.page_size as int) by {
                let x = (n, o);
                law_cache_coherent(old(self).cache, old(self).cache.stripe(x), x);
                if old(self).cache.stripe(x) == at {
                    law_use_changes_no_value(old(self).pages()[at], k, x);
                }
                assert(old(self).cached(n, o) == self.cached(n, o));
            }
        }
        r
    }

    /// Caches a page of a file, where one is finished.
    fn cache_finished(&mut self, name: &Arc<String>, page: Option<FinishedPage>)
        requires
            old(self).wf(),
            page matches Some(p) ==> old(self).contents@.contains_key(name@) && p.content@
                == page_of(
                old(self).contents@[name@],
                p.offset as int,
                old(self).page_size as int,
            ) && old(self).evicted() < usize::MAX,
        ensures
            final(self).wf(),
            final(self).same_but_cached(old(self)),
            match page {
                Some(p) => final(self).pages() == with_page(
                    old(self).cache.seed(),
                    old(self).pages(),
                    name@,
                    p.offset,
                    p.content@,
                ) && final(self).cached(name@, p.offset) == Some(p.content@),
                None => *final(self) == *old(self),
            },
            final(self).evicted() <= old(self).evicted() + 1,
    {
        if let Some(page) = page {
            self.cache_page(name, page.offset, Page(Arc::new(page.content)));
        }
    }

    /// Stores a file under a name that was never used, and caches its pages.
    pub fn put(&mut self, name: String, content: Vec<u8>)
        requires
            old(self).wf(),
            !old(self).contents@.contains_key(name@),
            old(self).inner.next() < u64::MAX,
            old(self).inner@.dom().len() < usize::MAX,
            content@.len() + old(self).page_size <= u64::MAX,
            old(self).evicted() + content@.len() + 1 < usize::MAX,
        ensures
            final(self).wf(),
            final(self).page_size == old(self).page_size,
            final(self).inner.next() == old(self).inner.next() + 1,
            final(self).inner@ == old(self).inner@.insert(
                name@,
                (old(self).inner.next(), content@),
            ),
            final(self).contents@ == old(self).contents@.insert(name@, content@),
            final(self).cache.seed() == old(self).cache.seed(),
            ({
                let size = old(self).page_size as int;
                final(self).pages() == with_pages(
                    old(self).cache.seed(),
                    old(self).pages(),
                    name@,
                    content@,
                    size,
                    n_pages(content@.len() as int, size),
                )
            }),
            content@.len() > 0 ==> ({
                let last = page_start(content@.len() - 1, old(self).page_size as int);
                final(self).cached(name@, last as u64) == Some(
                    content@.subrange(last, content@.len() as int),
                )
            }),
            final(self).evicted() <= old(self).evicted() + content@.len() + 1,
    {
        let ghost size = self.page_size as int;
        let ghost seed = self.cache.seed();
        let shared = Arc::new(name.clone());
        self.contents = Ghost(self.contents@.insert(name@, content@));
        proof {
            assert(!old(self).inner@.contains_key(name@));
            assert forall|n: Seq<char>, o: u64| #[trigger]
                self.cached(n, o) is Some implies self.contents@.contains_key(n) && self.cached(
                n,
                o,
            )->0 == page_of(self.contents@[n], o as int, size) by {
                assert(old(self).cached(n, o) == self.cached(n, o));
            }
        }
        let mut writer = PageWriter::new(self.page_size);
        let mut handed: Vec<u8> = Vec::new();
        let ghost given = self.contents@;
        assert(content@.subrange(0, 0) =~= Seq::empty());
        proof {
            vstd::arithmetic::div_mod::lemma_small_mod(0, size as nat);
            vstd::arithmetic::div_mod::lemma_basic_div(0, size);
            assert(self.pages() =~= old(self).pages());
        }
        while handed.len() < content.len()
            invariant
                self.wf(),
                self.page_size == size,
                self.inner == old(self).inner,
                self.contents@ == given,
                self.cache.seed() == seed,
                seed == old(self).cache.seed(),
                self.pages() == with_pages(
                    seed,
                    old(self).pages(),
                    name@,
                    content@,
                    size,
                    handed@.len() as int / size,
                ),
                handed@.len() > 0 && handed@.len() as int % size == 0 ==> self.cached(
                    name@,
                    (handed@.len() - size) as u64,
                ) == Some(content@.subrange(handed@.len() - size, handed@.len() as int)),
                given == old(self).contents@.insert(name@, content@),
                shared@ == name@,
                writer.wf(),
                writer.page_len() == size,
                writer.content() == handed@,
                writer.position() == handed@.len(),
                writer.filled() < size,
                handed@.len() <= content@.len(),
                handed@ == content@.subrange(0, handed@.len() as int),
                content@.len() + size <= u64::MAX,
                self.evicted() <= old(self).evicted() + handed@.len(),
                old(self).evicted() + content@.len() + 1 < usize::MAX,
            decreases content@.len() - handed@.len(),
        {
            let start: usize = handed.len();
            proof {
                writer.lemma_filled_since();
            }
            let ghost filled = writer.filled();
            let room: usize = writer.room();
            let left: usize = content.len() - start;
            let n: usize = if left < room {
                left
            } else {
                room
            };
            let chunk = sub_bytes(content.as_slice(), start, start + n);
            writer.receive(chunk.as_slice());
            proof {
                assert(writer.content() =~= content@.subrange(0, start + n));
            }
            let (mut bytes, page) = writer.give(n);
            assert(bytes@ =~= content@.subrange(start as int, start + n));
            handed.append(&mut bytes);
            assert(handed@ =~= content@.subrange(0, start + n));
            proof {
                lemma_pages_passed(start as int, n as int, filled, size);
                if page is Some {
                    let p = page->0;
                    assert(p.content@ =~= page_of(content@, p.offset as int, size));
                    assert(p.offset == start - filled);
                }
            }
            self.cache_finished(&shared, page);
        }
        assert(handed@ =~= content@);
        proof {
            writer.lemma_filled_since();
        }
        let ghost total = content@.len() as int;
        let ghost filled = writer.filled();
        let last = writer.finish();
        proof {
            vstd::arithmetic::div_mod::lemma_fundamental_div_mod(total, size);
            assert(size * (total / size) == (total / size) * size) by (nonlinear_arith);
            if last is Some {
                assert(last->0.offset == (total / size) * size);
            }
            if total > 0 {
                lemma_last_page(total, size);
            }
        }
        self.cache_finished(&shared, last);
        proof {
            if total > 0 {
                let first = page_start(total - 1, size);
                if last is Some {
                    assert(last->0.content@ =~= content@.subrange(first, total));
                }
                assert(self.cached(name@, first as u64) == Some(content@.subrange(first, total)));
            }
        }
        let ghost before = *self;
        self.inner.put(name, handed);
        proof {
            assert(self.pages() =~= before.pages());
            assert forall|n: Seq<char>, o: u64| #[trigger]
                self.cached(n, o) is Some implies self.contents@.contains_key(n) && self.cached(
                n,
                o,
            )->0 == page_of(self.contents@[n], o as int, size) by {
                assert(before.cached(n, o) == self.cached(n, o));
            }
        }
    }

    /// Opens a file.
    pub fn get(&self, name: &String) -> (r: Result<MemFile, StorageError>)
        requires
            self.wf(),
        ensures
            match r {
                Ok(file) => self.inner@.contains_key(name@) && file.name() == name@ && self.opened(
                    &file,
                ) && file.id() == self.inner@[name@].0,
                Err(e) => !self.inner@.contains_key(name@) && e == StorageError::NotFound,
            },
    {
        self.inner.get(name)
    }

    /// Deletes a file, where there is one of that name.
    pub fn delete(&mut self, name: &String)
        requires
            old(self).wf(),
        ensures
            final(self).wf(),
            final(self).page_size == old(self).page_size,
            final(self).contents == old(self).contents,
            final(self).inner.next() == old(self).inner.next(),
            final(self).inner@ == old(self).inner@.remove(name@),
            final(self).cache == old(self).cache,
            final(self).evicted() == old(self).evicted(),
    {
        self.inner.delete(name);
        proof {
            assert(self.pages() =~= old(self).pages());
            assert forall|n: Seq<char>, o: u64| #[trigger]
                self.cached(n, o) is Some implies self.contents@.contains_key(n) && self.cached(
                n,
                o,
            )->0 == page_of(self.contents@[n], o as int, self.page_size as int) by {
                assert(old(self).cached(n, o) == self.cached(n, o));
            }
        }
    }

    /// The `n` bytes of a file from an offset, from the cache as far as it has them. Of a file that
    /// was deleted since it was opened, what is cached can still be read.
    pub fn read_exact_at(&mut self, file: &MemFile, offset: u64, n: usize) -> (r: Result<
        Vec<u8>,
        StorageError,
    >)
        requires
            old(self).wf(),
            old(self).opened(file),
            offset + n <= u64::MAX,
            old(self).evicted() + n < usize::MAX,
        ensures
            final(self).wf(),
            final(self).same_but_cached(old(self)),
            ({
                let (pages, e) = with_read(
                    old(self).cache.seed(),
                    old(self).pages(),
                    old(self).inner@.contains_key(file.name()),
                    file.name(),
                    old(self).contents@[file.name()],
                    old(self).page_size as int,
                    offset as int,
                    offset + n,
                );
                &&& final(self).pages() == pages
                &&& match e {
                    Some(e) => r == Err::<Vec<u8>, StorageError>(e),
                    None => r is Ok,
                }
            }),
            r is Ok && n > 0 ==> ({
                let last = page_start(offset + n - 1, old(self).page_size as int);
                final(self).cached(file.name(), last as u64) == Some(
                    page_of(old(self).contents@[file.name()], last, old(self).page_size as int),
                )
            }),
            match r {
                Ok(bytes) => bytes@ == bytes_between(
                    old(self).contents@[file.name()],
                    offset as int,
                    offset + n,
                ) && (n > 0 ==> offset + n <= file.size()),
                Err(StorageError::UnexpectedEof) => offset + n > file.size() && n > 0,
                Err(StorageError::Deleted) => !old(self).inner@.contains_key(file.name()) && n > 0,
                Err(StorageError::NotFound) => false,
            },
            n == 0 || (old(self).inner@.contains_key(file.name()) && offset + n <= file.size())
                ==> r is Ok,
    {
        let ghost content = self.contents@[file.name()];
        let ghost size = self.page_size as int;
        let ghost seed = self.cache.seed();
        let ghost live = self.inner@.contains_key(file.name());
        let ghost goal = with_read(
            seed,
            self.pages(),
            live,
            file.name(),
            content,
            size,
            offset as int,
            offset + n,
        );
        let name = Arc::new(file.copied_name());
        let mut reader = PageReader::new(self.page_size, file.len(), offset, n);
        loop
            invariant
                self.wf(),
                self.same_but_cached(old(self)),
                old(self).wf(),
                old(self).opened(file),
                name@ == file.name(),
                content == old(self).contents@[file.name()],
                size == self.page_size,
                seed == self.cache.seed(),
                live == self.inner@.contains_key(file.name()),
                goal == with_read(
                    old(self).cache.seed(),
                    old(self).pages(),
                    old(self).inner@.contains_key(file.name()),
                    file.name(),
                    old(self).contents@[file.name()],
                    old(self).page_size as int,
                    offset as int,
                    offset + n,
                ),
                goal == with_read(
                    seed,
                    self.pages(),
                    live,
                    file.name(),
                    content,
                    size,
                    reader.position(),
                    reader.stop(),
                ),
                reader.position() > offset ==> self.cached(
                    file.name(),
                    page_start(reader.position() - 1, size) as u64,
                ) == Some(page_of(content, page_start(reader.position() - 1, size), size)),
                reader.wf(),
                reader.start() == offset,
                reader.stop() == offset + n,
                reader.page_len() == size,
                reader.file_size() == file.size(),
                offset + n <= u64::MAX,
                reader.bytes() == bytes_between(content, offset as int, reader.position()),
                reader.bytes().len() > 0 ==> reader.position() <= content.len(),
                self.evicted() + (reader.stop() - reader.position()) < usize::MAX,
                reader.position() <= reader.stop(),
            decreases reader.stop() - reader.position(),
        {
            proof {
                lemma_read_step(
                    seed,
                    self.pages(),
                    live,
                    file.name(),
                    content,
                    size,
                    reader.position(),
                    reader.stop(),
                );
            }
            let wanted = match reader.wanted() {
                Some(wanted) => wanted,
                None => {
                    return Ok(reader.finish());
                },
            };
            let ghost at = reader.position();
            let ghost first = page_start(at, size);
            let page = match self.cached_page(&name, wanted.offset) {
                Some(page) => page,
                None => {
                    match file.read_exact_at(&self.inner, wanted.offset, wanted.len as usize) {
                        Ok(bytes) => {
                            assert(bytes@ =~= page_of(content, first, size));
                            let page = Page(Arc::new(bytes));
                            self.cache_page(&name, wanted.offset, page.clone());
                            page
                        },
                        Err(e) => {
                            return Err(e);
                        },
                    }
                },
            };
            assert(page@ == page_of(content, first, size));
            proof {
                if reader.stop() <= content.len() {
                    law_pages_give_content(
                        content,
                        offset as int,
                        at,
                        reader.stop(),
                        size,
                    );
                }
            }
            if let Err(_) = reader.supply(&page.0) {
                return Err(StorageError::UnexpectedEof);
            }
            proof {
                let to = if first + size < reader.stop() {
                    size
                } else {
                    reader.stop() - first
                };
                assert(to <= page@.len());
                assert(first + to <= content.len());
                lemma_same_page(first, first + to - 1, size);
                law_pages_give_content(content, offset as int, at, first + to, size);
                assert(content.subrange(offset as int, offset as int) =~= Seq::empty());
            }
        }
    }

    /// How many pages were evicted.
    pub fn evictions(&self) -> (r: usize)
        requires
            self.evicted() <= usize::MAX,
        ensures
            r == self.evicted(),
    {
        proof {
            lemma_mapped_evictions(self.cache@);
            assert(self.pages() =~= mapped_all(self.cache@));
        }
        self.cache.evictions()
    }
}

/// A read gives back what was put, whatever is put later under another name.
pub proof fn law_read_gives_back_put(
    before: Map<Seq<char>, Seq<u8>>,
    name: Seq<char>,
    content: Seq<u8>,
    other: Seq<char>,
    other_content: Seq<u8>,
    from: int,
    to: int,
)
    requires
        other != name,
        0 <= from <= to <= content.len(),
    ensures
        bytes_between(
            before.insert(name, content).insert(other, other_content)[name],
            from,
            to,
        ) == content.subrange(from, to),
        bytes_between(before.insert(name, content)[name], 0, content.len() as int) == content,
{
    assert(content.subrange(0, content.len() as int) =~= content);
    if from == to {
        assert(content.subrange(from, to) =~= Seq::empty());
    }
}

/// The cache holds no more pages than it has capacity for.
pub proof fn law_cache_within_capacity(storage: &CachedStorage)
    requires
        storage.wf(),
    ensures
        total_taken(storage.pages()) <= sum(capacities(storage.pages())),
{
    lemma_pages_coherent(storage);
    law_total_capacity(storage.pages());
}

/// Neither a put nor a read changes how many pages the stripes have capacity for.
pub proof fn law_capacity_stays(
    seed: Seq<u8>,
    stripes: Seq<PageStripe>,
    live: bool,
    name: Seq<char>,
    content: Seq<u8>,
    size: int,
    at: int,
    stop: int,
)
    requires
        stripes.len() > 0,
    ensures
        capacities(with_pages(seed, stripes, name, content, size, at)) == capacities(stripes),
        capacities(with_read(seed, stripes, live, name, content, size, at, stop).0) == capacities(
            stripes,
        ),
{
    lemma_put_capacity(seed, stripes, name, content, size, at);
    lemma_read_capacity(seed, stripes, live, name, content, size, at, stop);
}

proof fn lemma_put_capacity(
    seed: Seq<u8>,
    stripes: Seq<PageStripe>,
    name: Seq<char>,
    content: Seq<u8>,
    size: int,
    n: int,
)
    requires
        stripes.len() > 0,
    ensures
        capacities(with_pages(seed, stripes, name, content, size, n)) == capacities(stripes),
    decreases n,
{
    if n > 0 {
        lemma_put_capacity(seed, stripes, name, content, size, n - 1);
        let prior = with_pages(seed, stripes, name, content, size, n - 1);
        assert(prior.len() == capacities(prior).len());
        lemma_step_capacity(
            seed,
            prior,
            name,
            ((n - 1) * size) as u64,
            page_of(content, (n - 1) * size, size),
        );
    }
}

proof fn lemma_step_capacity(
    seed: Seq<u8>,
    stripes: Seq<PageStripe>,
    name: Seq<char>,
    offset: u64,
    page: Seq<u8>,
)
    requires
        stripes.len() > 0,
    ensures
        capacities(with_use(seed, stripes, name, offset)) == capacities(stripes),
        capacities(with_page(seed, stripes, name, offset, page)) == capacities(stripes),
{
    let n = stripes.len() as int;
    let hash = hash_of::<(Arc<String>, u64)>(seed, (name, offset)) as int;
    vstd::arithmetic::div_mod::lemma_mod_bound(hash, n);
    assert(capacities(with_use(seed, stripes, name, offset)) =~= capacities(stripes));
    assert(capacities(with_page(seed, stripes, name, offset, page)) =~= capacities(stripes));
}

proof fn lemma_read_capacity(
    seed: Seq<u8>,
    stripes: Seq<PageStripe>,
    live: bool,
    name: Seq<char>,
    content: Seq<u8>,
    size: int,
    at: int,
    stop: int,
)
    requires
        stripes.len() > 0,
    ensures
        capacities(with_read(seed, stripes, live, name, content, size, at, stop).0) == capacities(
            stripes,
        ),
    decreases stop - at,
{
    reveal(with_read);
    if 0 <= at < stop && size > 0 {
        let first = page_start(at, size);
        let to = if first + size < stop {
            first + size
        } else {
            stop
        };
        vstd::arithmetic::div_mod::lemma_mod_bound(at, size);
        let used = with_use(seed, stripes, name, first as u64);
        let cached = with_page(seed, stripes, name, first as u64, page_of(content, first, size));
        lemma_step_capacity(
            seed,
            stripes,
            name,
            first as u64,
            page_of(content, first, size),
        );
        assert(used.len() == stripes.len() && cached.len() == stripes.len());
        lemma_read_capacity(seed, used, live, name, content, size, to, stop);
        lemma_read_capacity(seed, cached, live, name, content, size, to, stop);
    }
}

proof fn lemma_pages_coherent(storage: &CachedStorage)
    requires
        storage.wf(),
    ensures
        forall|i: int| 0 <= i < storage.pages().len() ==> coherent(#[trigger] storage.pages()[i]),
{
    assert forall|i: int| 0 <= i < storage.pages().len() implies coherent(
        #[trigger] storage.pages()[i],
    ) by {
        let k = arbitrary::<(Seq<char>, u64)>();
        law_cache_coherent(storage.cache, i, k);
        law_values_have_no_say(storage.cache@[i], page_content(), k, arbitrary::<Page>());
    }
}

spec fn mapped_all(s: Seq<StripeState<(Seq<char>, u64), Page>>) -> Seq<PageStripe> {
    Seq::new(s.len(), |i: int| mapped(s[i], page_content()))
}

proof fn lemma_mapped_evictions(s: Seq<StripeState<(Seq<char>, u64), Page>>)
    ensures
        total_evictions(mapped_all(s)) == total_evictions(s),
    decreases s.len(),
{
    if s.len() > 0 {
        lemma_mapped_evictions(s.drop_last());
        assert(mapped_all(s).drop_last() =~= mapped_all(s.drop_last()));
    }
}

/// Whether `n` more bytes are the end of a page, where the current page has some.
proof fn lemma_pages_passed(start: int, n: int, filled: int, size: int)
    requires
        size > 0,
        start >= 0,
        filled == start % size,
        0 < n <= size - filled,
    ensures
        (start + n) % size == if n == size - filled {
            0
        } else {
            filled + n
        },
        (start + n) / size == start / size + if n == size - filled {
            1int
        } else {
            0
        },
        start - filled == (start / size) * size,
{
    let q = start / size;
    vstd::arithmetic::div_mod::lemma_fundamental_div_mod(start, size);
    assert(size * q == q * size) by (nonlinear_arith);
    if n == size - filled {
        assert(q * size + size == (q + 1) * size) by (nonlinear_arith);
        vstd::arithmetic::div_mod::lemma_fundamental_div_mod_converse(start + n, size, q + 1, 0);
    } else {
        vstd::arithmetic::div_mod::lemma_mod_bound(start, size);
        vstd::arithmetic::div_mod::lemma_fundamental_div_mod_converse(
            start + n,
            size,
            q,
            filled + n,
        );
    }
}

/// Where the last page of a file starts.
proof fn lemma_last_page(total: int, size: int)
    requires
        size > 0,
        total > 0,
    ensures
        page_start(total - 1, size) == if total % size == 0 {
            total - size
        } else {
            total - total % size
        },
        page_start(total - 1, size) >= 0,
{
    let q = total / size;
    vstd::arithmetic::div_mod::lemma_fundamental_div_mod(total, size);
    vstd::arithmetic::div_mod::lemma_mod_bound(total, size);
    assert(size * q == q * size) by (nonlinear_arith);
    if total % size == 0 {
        assert((q - 1) * size == q * size - size) by (nonlinear_arith);
        vstd::arithmetic::div_mod::lemma_fundamental_div_mod_converse(
            total - 1,
            size,
            q - 1,
            size - 1,
        );
        assert(q >= 1) by (nonlinear_arith)
            requires
                q * size > 0,
                size > 0,
        ;
        assert((q - 1) * size >= 0) by (nonlinear_arith)
            requires
                q >= 1,
                size > 0,
        ;
    } else {
        vstd::arithmetic::div_mod::lemma_fundamental_div_mod_converse(
            total - 1,
            size,
            q,
            total % size - 1,
        );
        assert(q * size >= 0) by (nonlinear_arith)
            requires
                q >= 0,
                size > 0,
        ;
    }
}

/// A position within a page is in the page.
proof fn lemma_same_page(first: int, at: int, size: int)
    requires
        size > 0,
        first >= 0,
        first % size == 0,
        first <= at < first + size,
    ensures
        page_start(at, size) == first,
{
    vstd::arithmetic::div_mod::lemma_add_mod_noop(first, at - first, size);
    vstd::arithmetic::div_mod::lemma_small_mod((at - first) as nat, size as nat);
}

proof fn lemma_no_evictions<A, V>(s: Seq<StripeState<A, V>>)
    requires
        forall|i: int| 0 <= i < s.len() ==> (#[trigger] s[i]).evictions == 0,
    ensures
        total_evictions(s) == 0,
    decreases s.len(),
{
    if s.len() > 0 {
        lemma_no_evictions(s.drop_last());
    }
}

} // verus!
