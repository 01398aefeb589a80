//! What puts and reads leave in the cache of pages.

use vstd::prelude::*;

use super::cache::{
    coherent, held, holds, inserted, is_touched, law_evictions_are_the_lost, law_insert,
    law_use_changes_no_value, lemma_evictions_update, lost, place_of, total_evictions, touched,
    value_of,
};
use super::cache_laws::law_use_is_noted;
use super::cached_storage::{
    found, lemma_read_step, n_pages, page_stripe, with_page, with_pages, with_read, with_use,
    PageStripe,
};
use super::mem_storage::{MemFile, MemStorage, StorageError};
use super::paging::{page_of, page_start};

verus! {

/// Whether all stripes are coherent.
pub open spec fn all_coherent(stripes: Seq<PageStripe>) -> bool {
    stripes.len() > 0 && forall|i: int| 0 <= i < stripes.len() ==> coherent(#[trigger] stripes[i])
}

/// Whether a page is cached, and noted as used.
pub open spec fn noted(
    seed: Seq<u8>,
    stripes: Seq<PageStripe>,
    name: Seq<char>,
    offset: u64,
) -> bool {
    let slots = stripes[page_stripe(seed, stripes.len() as int, name, offset)].slots;
    exists|i: int|
        0 <= i < slots.len() && holds(#[trigger] slots[i], (name, offset)) && is_touched(slots[i])
}

/// A page that is cached is found, and noted as used. Others are still found, unless one was
/// evicted.
proof fn lemma_page_cached(
    seed: Seq<u8>,
    stripes: Seq<PageStripe>,
    name: Seq<char>,
    offset: u64,
    page: Seq<u8>,
)
    requires
        all_coherent(stripes),
    ensures
        ({
            let next = with_page(seed, stripes, name, offset, page);
            &&& next.len() == stripes.len()
            &&& all_coherent(next)
            &&& found(seed, next, name, offset) == Some(page)
            &&& noted(seed, next, name, offset)
            &&& total_evictions(next) >= total_evictions(stripes)
            &&& total_evictions(next) == total_evictions(stripes) ==> forall|
                other: Seq<char>,
                o: u64,
            |
                (other, o) != (name, offset) ==> #[trigger] found(seed, next, other, o) == found(
                    seed,
                    stripes,
                    other,
                    o,
                )
        }),
{
    let n = stripes.len() as int;
    let at = page_stripe(seed, n, name, offset);
    vstd::arithmetic::div_mod::lemma_mod_bound(
        super::key::hash_of::<(std::sync::Arc<String>, u64)>(seed, (name, offset)) as int,
        n,
    );
    let s = stripes[at];
    let k = (name, offset);
    let after = inserted(s, k, page);
    let next = with_page(seed, stripes, name, offset, page);
    assert(coherent(s));
    law_insert(s, k, page, k);
    law_evictions_are_the_lost(s, k, page);
    lemma_evictions_update(stripes, at, after);
    assert(held(after.slots, k));
    let i = place_of(after.slots, k);
    assert(holds(after.slots[i], k));
    assert(is_touched(after.slots[i])) by {
        lemma_put_is_noted(s, k, page, i);
    }
    assert(next[at] == after);
    if total_evictions(next) == total_evictions(stripes) {
        assert(lost(s, after).len() == 0);
        assert forall|other: Seq<char>, o: u64| (other, o) != k implies #[trigger] found(
            seed,
            next,
            other,
            o,
        ) == found(seed, stripes, other, o) by {
            let x = (other, o);
            if page_stripe(seed, n, other, o) == at {
                law_insert(s, k, page, x);
                if value_of(s, x) is Some && value_of(after, x) is None {
                    assert(lost(s, after).contains(x));
                    lost(s, after).lemma_len0_is_empty();
                }
            }
        }
    }
}

/// A key that was inserted counts as used.
proof fn lemma_put_is_noted(
    s: PageStripe,
    k: (Seq<char>, u64),
    page: Seq<u8>,
    i: int,
)
    requires
        coherent(s),
        0 <= i < inserted(s, k, page).slots.len(),
        holds(inserted(s, k, page).slots[i], k),
    ensures
        is_touched(inserted(s, k, page).slots[i]),
{
    let after = inserted(s, k, page);
    law_insert(s, k, page, k);
    let n = s.slots.len() as int;
    if held(s.slots, k) {
        let at = place_of(s.slots, k);
        assert(holds(s.slots[at], k));
        assert(holds(after.slots[at], k));
    } else if s.vacant.len() > 0 {
        let at = s.vacant.last() as int;
        assert(s.vacant[s.vacant.len() - 1] < s.slots.len());
        assert(holds(after.slots[at], k));
    } else if n < s.capacity {
        assert(holds(after.slots[n], k));
    } else {
        super::cache::lemma_sweep(s.slots, s.hand as int, n);
        let at = super::cache::sweep(s.slots, s.hand as int, n).1;
        assert(holds(after.slots[at], k));
    }
}

/// A use of a page is noted, and changes nothing that is found.
proof fn lemma_page_used(seed: Seq<u8>, stripes: Seq<PageStripe>, name: Seq<char>, offset: u64)
    requires
        all_coherent(stripes),
    ensures
        ({
            let next = with_use(seed, stripes, name, offset);
            &&& next.len() == stripes.len()
            &&& all_coherent(next)
            &&& found(seed, stripes, name, offset) is Some ==> noted(seed, next, name, offset)
            &&& total_evictions(next) == total_evictions(stripes)
            &&& forall|other: Seq<char>, o: u64| #[trigger]
                found(seed, next, other, o) == found(seed, stripes, other, o)
        }),
{
    let n = stripes.len() as int;
    let at = page_stripe(seed, n, name, offset);
    vstd::arithmetic::div_mod::lemma_mod_bound(
        super::key::hash_of::<(std::sync::Arc<String>, u64)>(seed, (name, offset)) as int,
        n,
    );
    let s = stripes[at];
    let k = (name, offset);
    let after = touched(s, k);
    let next = with_use(seed, stripes, name, offset);
    assert(coherent(s));
    law_use_changes_no_value(s, k, k);
    law_use_is_noted(s, k, 0);
    lemma_evictions_update(stripes, at, after);
    assert(next[at] == after);
    if held(s.slots, k) {
        let i = place_of(s.slots, k);
        assert(holds(s.slots[i], k));
        law_use_is_noted(s, k, i);
        assert(holds(after.slots[i], k) && is_touched(after.slots[i]));
    }
    assert forall|other: Seq<char>, o: u64| #[trigger] found(seed, next, other, o) == found(
        seed,
        stripes,
        other,
        o,
    ) by {
        law_use_changes_no_value(s, k, (other, o));
    }
}

proof fn lemma_pages_put(
    seed: Seq<u8>,
    stripes: Seq<PageStripe>,
    name: Seq<char>,
    content: Seq<u8>,
    size: int,
    n: int,
)
    requires
        all_coherent(stripes),
        size > 0,
        0 <= n,
        n * size <= u64::MAX,
    ensures
        all_coherent(with_pages(seed, stripes, name, content, size, n)),
        total_evictions(with_pages(seed, stripes, name, content, size, n)) >= total_evictions(
            stripes,
        ),
        total_evictions(with_pages(seed, stripes, name, content, size, n)) == total_evictions(
            stripes,
        ) ==> forall|i: int|
            0 <= i < n ==> found(
                seed,
                with_pages(seed, stripes, name, content, size, n),
                name,
                (#[trigger] (i * size)) as u64,
            ) == Some(page_of(content, i * size, size)),
    decreases n,
{
    if n > 0 {
        let m = n - 1;
        assert(0 <= m * size <= n * size) by (nonlinear_arith)
            requires
                m == n - 1,
                n > 0,
                size > 0,
        ;
        lemma_pages_put(seed, stripes, name, content, size, m);
        let before = with_pages(seed, stripes, name, content, size, m);
        let now = with_pages(seed, stripes, name, content, size, n);
        lemma_page_cached(
            seed,
            before,
            name,
            (m * size) as u64,
            page_of(content, m * size, size),
        );
        if total_evictions(now) == total_evictions(stripes) {
            assert forall|i: int| 0 <= i < n implies found(
                seed,
                now,
                name,
                (#[trigger] (i * size)) as u64,
            ) == Some(page_of(content, i * size, size)) by {
                if i < m {
                    assert(0 <= i * size < m * size) by (nonlinear_arith)
                        requires
                            0 <= i < m,
                            size > 0,
                    ;
                    assert(found(seed, before, name, (i * size) as u64) == Some(
                        page_of(content, i * size, size),
                    ));
                }
            }
        }
    }
}

/// Where nothing had to be evicted, every byte of a file that was put is cached, in the page that
/// its position is in.
pub proof fn law_put_is_cached(
    seed: Seq<u8>,
    stripes: Seq<PageStripe>,
    name: Seq<char>,
    content: Seq<u8>,
    size: int,
    b: int,
)
    requires
        all_coherent(stripes),
        size > 0,
        content.len() + size <= u64::MAX,
        total_evictions(
            with_pages(
                seed,
                stripes,
                name,
                content,
                size,
                n_pages(content.len() as int, size),
            ),
        ) == total_evictions(stripes),
        0 <= b < content.len(),
    ensures
        ({
            let after = with_pages(
                seed,
                stripes,
                name,
                content,
                size,
                n_pages(content.len() as int, size),
            );
            let page = found(seed, after, name, (b - b % size) as u64);
            page is Some && b % size < page->0.len() <= size && page->0[b % size] == content[b]
        }),
{
    let n = n_pages(content.len() as int, size);
    let len = content.len() as int;
    let i = b / size;
    vstd::arithmetic::div_mod::lemma_fundamental_div_mod(len, size);
    vstd::arithmetic::div_mod::lemma_fundamental_div_mod(b, size);
    vstd::arithmetic::div_mod::lemma_mod_bound(len, size);
    vstd::arithmetic::div_mod::lemma_mod_bound(b, size);
    let q = len / size;
    let r = len % size;
    assert(n * size <= len + size && 0 <= n) by (nonlinear_arith)
        requires
            len == size * q + r,
            0 <= r < size,
            len >= 0,
            size > 0,
            n == q + (if r > 0 {
                1int
            } else {
                0
            }),
    ;
    assert(0 <= i < n && i * size == b - b % size) by (nonlinear_arith)
        requires
            len == size * q + r,
            0 <= r < size,
            b == size * i + b % size,
            0 <= b % size < size,
            0 <= b < len,
            size > 0,
            n == q + (if r > 0 {
                1int
            } else {
                0
            }),
    ;
    lemma_pages_put(seed, stripes, name, content, size, n);
    let first = i * size;
    assert(found(
        seed,
        with_pages(seed, stripes, name, content, size, n),
        name,
        (i * size) as u64,
    ) == Some(page_of(content, i * size, size)));
    assert(page_of(content, first, size)[b - first] == content[b]);
}

/// Whether all pages of a part of a file are cached.
pub open spec fn all_found(
    seed: Seq<u8>,
    stripes: Seq<PageStripe>,
    name: Seq<char>,
    size: int,
    at: int,
    stop: int,
) -> bool {
    forall|b: int|
        at <= b < stop ==> found(seed, stripes, name, #[trigger] page_start(b, size) as u64) is Some
}

/// A position between one and the end of its page is in the same page.
proof fn lemma_in_page(at: int, b: int, size: int)
    requires
        size > 0,
        0 <= at <= b < page_start(at, size) + size,
    ensures
        page_start(b, size) == page_start(at, size),
        0 <= page_start(at, size) <= at,
{
    vstd::arithmetic::div_mod::lemma_mod_bound(at, size);
    vstd::arithmetic::div_mod::lemma_fundamental_div_mod(at, size);
    vstd::arithmetic::div_mod::lemma_fundamental_div_mod(b, size);
    vstd::arithmetic::div_mod::lemma_mod_bound(b, size);
    let (x, y) = (at / size, b / size);
    let (r, q) = (at % size, b % size);
    assert(x == y && 0 <= at - r) by (nonlinear_arith)
        requires
            at == size * x + r,
            b == size * y + q,
            0 <= r < size,
            0 <= q < size,
            0 <= at <= b < at - r + size,
            size > 0,
    ;
}

/// Of a file that is gone, exactly what is cached can be read, and reading it caches and evicts
/// nothing.
pub proof fn law_read_of_deleted(
    seed: Seq<u8>,
    stripes: Seq<PageStripe>,
    name: Seq<char>,
    content: Seq<u8>,
    size: int,
    at: int,
    stop: int,
)
    requires
        all_coherent(stripes),
        size > 0,
        0 <= at <= stop <= content.len(),
    ensures
        ({
            let (after, e) = with_read(seed, stripes, false, name, content, size, at, stop);
            &&& e is None <==> all_found(seed, stripes, name, size, at, stop)
            &&& e is Some ==> e == Some(StorageError::Deleted)
            &&& total_evictions(after) == total_evictions(stripes)
            &&& forall|other: Seq<char>, o: u64| #[trigger]
                found(seed, after, other, o) == found(seed, stripes, other, o)
        }),
    decreases stop - at,
{
    lemma_read_step(seed, stripes, false, name, content, size, at, stop);
    if at < stop {
        let first = page_start(at, size);
        let to = if first + size < stop {
            first + size
        } else {
            stop
        };
        lemma_in_page(at, at, size);
        if found(seed, stripes, name, first as u64) is Some {
            let next = with_use(seed, stripes, name, first as u64);
            lemma_page_used(seed, stripes, name, first as u64);
            law_read_of_deleted(seed, next, name, content, size, to, stop);
            assert(all_found(seed, next, name, size, to, stop) ==> all_found(
                seed,
                stripes,
                name,
                size,
                at,
                stop,
            )) by {
                assert forall|b: int|
                    all_found(seed, next, name, size, to, stop) && at <= b < stop implies found(
                    seed,
                    stripes,
                    name,
                    #[trigger] page_start(b, size) as u64,
                ) is Some by {
                    if b < to {
                        lemma_in_page(at, b, size);
                    } else {
                        assert(found(seed, next, name, page_start(b, size) as u64) is Some);
                    }
                }
            }
            if all_found(seed, stripes, name, size, at, stop) {
                assert forall|b: int| to <= b < stop implies found(
                    seed,
                    next,
                    name,
                    #[trigger] page_start(b, size) as u64,
                ) is Some by {
                    assert(found(seed, stripes, name, page_start(b, size) as u64) is Some);
                }
            }
        } else {
            assert(found(seed, stripes, name, page_start(at, size) as u64) is None);
        }
    }
}

/// What is cached is not read again: a read of what is all cached evicts nothing and changes nothing
/// that is found, whether or not the file is still there.
pub proof fn law_cached_read(
    seed: Seq<u8>,
    stripes: Seq<PageStripe>,
    live: bool,
    name: Seq<char>,
    content: Seq<u8>,
    size: int,
    at: int,
    stop: int,
)
    requires
        all_coherent(stripes),
        size > 0,
        0 <= at <= stop <= content.len(),
        all_found(seed, stripes, name, size, at, stop),
    ensures
        ({
            let (after, e) = with_read(seed, stripes, live, name, content, size, at, stop);
            &&& e is None
            &&& total_evictions(after) == total_evictions(stripes)
            &&& forall|other: Seq<char>, o: u64| #[trigger]
                found(seed, after, other, o) == found(seed, stripes, other, o)
        }),
    decreases stop - at,
{
    lemma_read_step(seed, stripes, live, name, content, size, at, stop);
    if at < stop {
        let first = page_start(at, size);
        let to = if first + size < stop {
            first + size
        } else {
            stop
        };
        lemma_in_page(at, at, size);
        assert(found(seed, stripes, name, page_start(at, size) as u64) is Some);
        let next = with_use(seed, stripes, name, first as u64);
        lemma_page_used(seed, stripes, name, first as u64);
        assert forall|b: int| to <= b < stop implies found(
            seed,
            next,
            name,
            #[trigger] page_start(b, size) as u64,
        ) is Some by {
            assert(found(seed, stripes, name, page_start(b, size) as u64) is Some);
        }
        law_cached_read(seed, next, live, name, content, size, to, stop);
    }
}

/// A read of a file that is there leaves the page with the last byte noted as used. Where nothing
/// had to be evicted, every page that was cached before still is, and every page that was read is
/// cached.
pub proof fn law_read_is_cached(
    seed: Seq<u8>,
    stripes: Seq<PageStripe>,
    name: Seq<char>,
    content: Seq<u8>,
    size: int,
    at: int,
    stop: int,
)
    requires
        all_coherent(stripes),
        size > 0,
        0 <= at <= stop <= content.len(),
        content.len() <= u64::MAX,
    ensures
        ({
            let (after, e) = with_read(seed, stripes, true, name, content, size, at, stop);
            &&& e is None
            &&& after.len() == stripes.len()
            &&& at < stop ==> noted(seed, after, name, page_start(stop - 1, size) as u64)
            &&& total_evictions(after) >= total_evictions(stripes)
            &&& total_evictions(after) == total_evictions(stripes) ==> all_found(
                seed,
                after,
                name,
                size,
                at,
                stop,
            ) && forall|other: Seq<char>, o: u64|
                found(seed, stripes, other, o) is Some ==> (#[trigger] found(seed, after, other, o))
                    is Some
        }),
    decreases stop - at,
{
    lemma_read_step(seed, stripes, true, name, content, size, at, stop);
    if at < stop {
        let first = page_start(at, size);
        let to = if first + size < stop {
            first + size
        } else {
            stop
        };
        lemma_in_page(at, at, size);
        let cached = found(seed, stripes, name, first as u64) is Some;
        let next = if cached {
            with_use(seed, stripes, name, first as u64)
        } else {
            with_page(seed, stripes, name, first as u64, page_of(content, first, size))
        };
        lemma_page_used(seed, stripes, name, first as u64);
        lemma_page_cached(seed, stripes, name, first as u64, page_of(content, first, size));
        law_read_is_cached(seed, next, name, content, size, to, stop);
        let after = with_read(seed, stripes, true, name, content, size, at, stop).0;
        if to == stop {
            lemma_read_step(seed, next, true, name, content, size, to, stop);
            lemma_in_page(at, stop - 1, size);
            assert(after == next);
        }
        if total_evictions(after) == total_evictions(stripes) {
            assert(found(seed, next, name, first as u64) is Some);
            assert(found(seed, after, name, first as u64) is Some);
            assert forall|b: int| at <= b < stop implies found(
                seed,
                after,
                name,
                #[trigger] page_start(b, size) as u64,
            ) is Some by {
                if b < to {
                    lemma_in_page(at, b, size);
                }
            }
            assert forall|other: Seq<char>, o: u64| found(seed, stripes, other, o) is Some implies (
            #[trigger] found(seed, after, other, o)) is Some by {
                assert(found(seed, next, other, o) is Some);
            }
        }
    }
}

/// A file that was opened is there as long as the storage has the file of its name and number: not
/// once it is deleted, and not where another is put under its name.
pub proof fn law_file_is_live(file: &MemFile, storage: &MemStorage)
    ensures
        !storage@.contains_key(file.name()) ==> !file.live(storage),
        storage@.contains_key(file.name()) ==> file.live(storage) == (storage@[file.name()].0
            == file.id()),
{
}

} // verus!
