//! Reading and writing files page by page.

use vstd::prelude::*;

use crate::util::bytes::{append_bytes, sub_bytes};

verus! {

/// A read ran past the end of a file.
#[derive(Clone, Copy, Debug, PartialEq, Eq, Structural)]
pub struct UnexpectedEof;

/// Where the page starts that an offset is in.
pub open spec fn page_start(offset: int, page_size: int) -> int {
    offset - offset % page_size
}

/// The page of a file that starts at an offset. The last page may be shorter than the others.
pub open spec fn page_of(content: Seq<u8>, start: int, page_size: int) -> Seq<u8> {
    if start >= content.len() {
        Seq::empty()
    } else if start + page_size <= content.len() {
        content.subrange(start, start + page_size)
    } else {
        content.subrange(start, content.len() as int)
    }
}

/// A page that a read needs next.
#[derive(Clone, Copy, Debug, PartialEq, Eq, Structural)]
pub struct WantedPage {
    /// Where the page starts in the file.
    pub offset: u64,
    /// How many bytes of the file are in the page.
    pub len: u64,
}

/// A read of a range of a file, page by page.
///
/// The range may start and end within pages:
///
/// ```text
///   pages | page_0        | page_4096     | page_8192     | page_12288    |
///   read          |                             |
/// ```
pub struct PageReader {
    page_size: u64,
    file_len: u64,
    offset: u64,
    end: u64,
    buf: Vec<u8>,
}

impl PageReader {
    pub closed spec fn wf(&self) -> bool {
        &&& self.page_size > 0
        &&& self.offset + self.buf@.len() <= self.end
    }

    /// Where the read starts.
    pub closed spec fn start(&self) -> int {
        self.offset as int
    }

    /// Where the read ends.
    pub closed spec fn stop(&self) -> int {
        self.end as int
    }

    pub closed spec fn page_len(&self) -> int {
        self.page_size as int
    }

    pub closed spec fn file_size(&self) -> int {
        self.file_len as int
    }

    /// What was read so far.
    pub closed spec fn bytes(&self) -> Seq<u8> {
        self.buf@
    }

    /// Where the next byte is read from.
    pub open spec fn position(&self) -> int {
        self.start() + self.bytes().len()
    }

    /// Reads `n` bytes from an offset of a file.
    pub fn new(page_size: usize, file_len: u64, offset: u64, n: usize) -> (r: Self)
        requires
            page_size > 0,
            offset + n <= u64::MAX,
        ensures
            r.wf(),
            r.start() == offset,
            r.stop() == offset + n,
            r.page_len() == page_size,
            r.file_size() == file_len,
            r.bytes() == Seq::<u8>::empty(),
    {
        PageReader {
            page_size: page_size as u64,
            file_len,
            offset,
            end: offset + n as u64,
            buf: Vec::new(),
        }
    }

    /// The page that is needed next, unless the read is done.
    pub fn wanted(&self) -> (r: Option<WantedPage>)
        requires
            self.wf(),
        ensures
            match r {
                Some(page) => {
                    let start = page_start(self.position(), self.page_len());
                    let left = if start >= self.file_size() {
                        0
                    } else {
                        self.file_size() - start
                    };
                    &&& self.position() < self.stop()
                    &&& page.offset == start
                    &&& page.len == if left < self.page_len() {
                        left
                    } else {
                        self.page_len()
                    }
                },
                None => self.position() == self.stop(),
            },
    {
        let at: u64 = self.offset + self.buf.len() as u64;
        if at < self.end {
            proof {
                vstd::arithmetic::div_mod::lemma_mod_decreases(at as nat, self.page_size as nat);
            }
            let start: u64 = at - at % self.page_size;
            let left: u64 = if start >= self.file_len {
                0
            } else {
                self.file_len - start
            };
            Some(
                WantedPage {
                    offset: start,
                    len: if left < self.page_size {
                        left
                    } else {
                        self.page_size
                    },
                },
            )
        } else {
            None
        }
    }

    /// Takes what the read needs from the page that was wanted.
    pub fn supply(&mut self, page: &Vec<u8>) -> (r: Result<(), UnexpectedEof>)
        requires
            old(self).wf(),
            old(self).position() < old(self).stop(),
        ensures
            final(self).wf(),
            final(self).start() == old(self).start(),
            final(self).stop() == old(self).stop(),
            final(self).page_len() == old(self).page_len(),
            final(self).file_size() == old(self).file_size(),
            ({
                let start = page_start(old(self).position(), old(self).page_len());
                let from = old(self).position() - start;
                let to = if start + old(self).page_len() < old(self).stop() {
                    old(self).page_len()
                } else {
                    old(self).stop() - start
                };
                &&& r is Ok <==> to <= page@.len()
                &&& r is Ok ==> from < to && final(self).bytes() == old(self).bytes()
                    + page@.subrange(from, to)
                &&& r is Err ==> final(self).bytes() == old(self).bytes()
            }),
    {
        let at: u64 = self.offset + self.buf.len() as u64;
        let from: u64 = at % self.page_size;
        proof {
            vstd::arithmetic::div_mod::lemma_mod_decreases(at as nat, self.page_size as nat);
        }
        let start: u64 = at - from;
        let to: u64 = if self.end - start <= self.page_size {
            self.end - start
        } else {
            self.page_size
        };
        proof {
            vstd::arithmetic::div_mod::lemma_mod_bound(at as int, self.page_size as int);
        }
        if to > page.len() as u64 {
            return Err(UnexpectedEof);
        }
        let part = sub_bytes(page.as_slice(), from as usize, to as usize);
        append_bytes(&mut self.buf, part.as_slice());
        Ok(())
    }

    /// What was read, once the read is done.
    pub fn finish(self) -> (r: Vec<u8>)
        ensures
            r@ == self.bytes(),
    {
        self.buf
    }
}

/// A read that is given the pages of a file gives back the bytes of the file.
pub proof fn law_pages_give_content(
    content: Seq<u8>,
    start: int,
    position: int,
    stop: int,
    page_size: int,
)
    requires
        0 <= start <= position < stop <= content.len(),
        page_size > 0,
    ensures
        ({
            let first = page_start(position, page_size);
            let page = page_of(content, first, page_size);
            let to = if first + page_size < stop {
                page_size
            } else {
                stop - first
            };
            &&& 0 <= first <= position
            &&& position - first < to <= page.len()
            &&& content.subrange(start, position) + page.subrange(position - first, to)
                == content.subrange(start, first + to)
        }),
{
    vstd::arithmetic::div_mod::lemma_mod_bound(position, page_size);
    vstd::arithmetic::div_mod::lemma_mod_decreases(position as nat, page_size as nat);
    let first = page_start(position, page_size);
    let page = page_of(content, first, page_size);
    let to = if first + page_size < stop {
        page_size
    } else {
        stop - first
    };
    assert(content.subrange(start, position) + page.subrange(position - first, to)
        =~= content.subrange(start, first + to));
}

/// A stream that is handed on while its bytes are gathered into pages.
pub struct PageWriter {
    page_size: usize,
    page: Vec<u8>,
    page_offset: u64,
    // How much of the page was handed on.
    cursor: usize,
    received: Ghost<Seq<u8>>,
}

/// A page that is complete, with where it starts in the file.
pub struct FinishedPage {
    pub offset: u64,
    pub content: Vec<u8>,
}

/// Whether a page is what a file holds there.
pub open spec fn is_page_of(page: FinishedPage, content: Seq<u8>, page_size: int) -> bool {
    &&& page.offset as int % page_size == 0
    &&& page.content@ == page_of(content, page.offset as int, page_size)
    &&& page.content@.len() > 0
}

impl PageWriter {
    pub closed spec fn wf(&self) -> bool {
        &&& self.page_size > 0
        &&& self.cursor <= self.page@.len() <= self.page_size
        &&& self.cursor < self.page_size
        &&& self.page_offset as int % self.page_size as int == 0
        &&& self.page_offset + self.page@.len() == self.received@.len()
        &&& self.page@ == self.received@.subrange(
            self.page_offset as int,
            self.received@.len() as int,
        )
    }

    pub closed spec fn page_len(&self) -> int {
        self.page_size as int
    }

    /// All bytes that came in.
    pub closed spec fn content(&self) -> Seq<u8> {
        self.received@
    }

    /// How many bytes were handed on.
    pub closed spec fn position(&self) -> int {
        self.page_offset + self.cursor
    }

    /// How many bytes of the current page came in.
    pub closed spec fn filled(&self) -> int {
        self.page@.len() as int
    }

    pub fn new(page_size: usize) -> (r: Self)
        requires
            page_size > 0,
        ensures
            r.wf(),
            r.page_len() == page_size,
            r.content() == Seq::<u8>::empty(),
            r.position() == 0,
            r.filled() == 0,
    {
        let r = PageWriter {
            page_size,
            page: Vec::new(),
            page_offset: 0,
            cursor: 0,
            received: Ghost(Seq::empty()),
        };
        proof {
            assert(r.page@ =~= r.received@.subrange(0, 0));
            vstd::arithmetic::div_mod::lemma_small_mod(0, page_size as nat);
        }
        r
    }

    /// How many bytes the current page has room for.
    pub fn room(&self) -> (r: usize)
        requires
            self.wf(),
        ensures
            r == self.page_len() - self.filled(),
    {
        self.page_size - self.page.len()
    }

    /// Takes in bytes of the stream.
    pub fn receive(&mut self, bytes: &[u8])
        requires
            old(self).wf(),
            bytes@.len() <= old(self).page_len() - old(self).filled(),
        ensures
            final(self).wf(),
            final(self).page_len() == old(self).page_len(),
            final(self).content() == old(self).content() + bytes@,
            final(self).position() == old(self).position(),
            final(self).filled() == old(self).filled() + bytes@.len(),
    {
        append_bytes(&mut self.page, bytes);
        self.received = Ghost(self.received@ + bytes@);
        assert(self.page@ =~= self.received@.subrange(
            self.page_offset as int,
            self.received@.len() as int,
        ));
    }

    /// Hands on up to `max` bytes that came in, and the page, where that is the end of it. Where
    /// there are none, more have to come in first.
    pub fn give(&mut self, max: usize) -> (r: (Vec<u8>, Option<FinishedPage>))
        requires
            old(self).wf(),
            old(self).content().len() + old(self).page_len() <= u64::MAX,
        ensures
            final(self).wf(),
            final(self).page_len() == old(self).page_len(),
            final(self).content() == old(self).content(),
            ({
                let left = old(self).content().len() - old(self).position();
                let n = if left < max {
                    left
                } else {
                    max as int
                };
                &&& r.0@ == old(self).content().subrange(
                    old(self).position(),
                    old(self).position() + n,
                )
                &&& final(self).position() == old(self).position() + n
                &&& n == left ==> final(self).filled() < final(self).page_len()
                &&& r.1 is Some <==> n > 0 && final(self).position() % old(self).page_len() == 0
            }),
            match r.1 {
                Some(page) => is_page_of(page, old(self).content(), old(self).page_len())
                    && page.content@.len() == old(self).page_len() && page.offset
                    + old(self).page_len() == final(self).position() && final(self).filled() == 0,
                None => final(self).filled() == old(self).filled(),
            },
    {
        let left: usize = self.page.len() - self.cursor;
        let n: usize = if left < max {
            left
        } else {
            max
        };
        let bytes = sub_bytes(self.page.as_slice(), self.cursor, self.cursor + n);
        assert(bytes@ =~= self.received@.subrange(
            self.page_offset + self.cursor,
            self.page_offset + self.cursor + n,
        ));
        let ghost at = self.page_offset as int;
        let ghost size = self.page_size as int;
        if n == 0 {
            return (bytes, None);
        }
        self.cursor = self.cursor + n;
        proof {
            lemma_offset_in_page(at, self.cursor as int, size);
        }
        if self.cursor == self.page_size {
            let page = self.flush_page();
            (bytes, page)
        } else {
            (bytes, None)
        }
    }

    /// Ends the current page.
    fn flush_page(&mut self) -> (r: Option<FinishedPage>)
        requires
            old(self).page_size > 0,
            old(self).cursor == old(self).page@.len(),
            old(self).page@.len() <= old(self).page_size,
            old(self).page_offset as int % old(self).page_size as int == 0,
            old(self).page_offset + old(self).page@.len() == old(self).received@.len(),
            old(self).page@ == old(self).received@.subrange(
                old(self).page_offset as int,
                old(self).received@.len() as int,
            ),
            old(self).received@.len() + old(self).page_size <= u64::MAX,
        ensures
            final(self).page_size == old(self).page_size,
            final(self).received == old(self).received,
            match r {
                Some(page) => is_page_of(page, old(self).received@, old(self).page_size as int)
                    && page.offset == old(self).page_offset && page.content@ == old(self).page@
                    && final(self).page@.len() == 0 && final(self).cursor == 0
                    && final(self).page_offset == old(self).page_offset + old(self).page_size
                    && final(self).page_offset as int % old(self).page_size as int == 0,
                None => old(self).page@.len() == 0 && *final(self) == *old(self),
            },
            old(self).page@.len() == old(self).page_size ==> final(self).wf(),
    {
        if self.page.len() == 0 {
            return None;
        }
        let mut content: Vec<u8> = Vec::new();
        std::mem::swap(&mut content, &mut self.page);
        let offset: u64 = self.page_offset;
        self.page_offset = self.page_offset + self.page_size as u64;
        self.cursor = 0;
        proof {
            lemma_offset_in_page(offset as int, self.page_size as int, self.page_size as int);
            if content@.len() == self.page_size {
                assert(self.page@ =~= self.received@.subrange(
                    self.page_offset as int,
                    self.received@.len() as int,
                ));
            }
        }
        Some(FinishedPage { offset, content })
    }

    /// Ends the stream, where all that came in was handed on, with the last page.
    pub fn finish(self) -> (r: Option<FinishedPage>)
        requires
            self.wf(),
            self.position() == self.content().len(),
            self.content().len() + self.page_len() <= u64::MAX,
        ensures
            match r {
                Some(page) => is_page_of(page, self.content(), self.page_len()) && page.offset
                    + page.content@.len() == self.content().len() && page.content@.len()
                    == self.filled(),
                None => self.filled() == 0,
            },
    {
        let mut last = self;
        last.flush_page()
    }
}

impl PageWriter {
    /// The current page has what came in since the last whole page.
    pub proof fn lemma_filled_since(&self)
        requires
            self.wf(),
            self.filled() < self.page_len(),
        ensures
            self.filled() == self.content().len() as int % self.page_len(),
    {
        lemma_offset_in_page(self.page_offset as int, self.page@.len() as int, self.page_len());
    }
}

proof fn lemma_offset_in_page(at: int, cursor: int, size: int)
    requires
        size > 0,
        at >= 0,
        at % size == 0,
        0 <= cursor <= size,
    ensures
        (at + cursor) % size == if cursor == size {
            0
        } else {
            cursor
        },
{
    if cursor == size {
        vstd::arithmetic::div_mod::lemma_mod_add_multiples_vanish(at, size);
    } else {
        vstd::arithmetic::div_mod::lemma_add_mod_noop(at, cursor, size);
        vstd::arithmetic::div_mod::lemma_small_mod(cursor as nat, size as nat);
    }
}

} // verus!
