//! Reading from the store as a whole.

use vstd::prelude::*;

use crate::range::{Bound, Range};
use crate::tablet::tablet_inner::{law_scan_covers, next_cursor, scanned_part};
use crate::types::data::{Key, Record};
use crate::types::Direction;
use crate::util::ordmap::OrdMap;

verus! {

/// How many records a page of a scan has at most.
pub const SCAN_PAGE_SIZE: usize = 1000;

/// The record of a key among records that were read.
pub fn get_one<'a>(records: &'a OrdMap<Key, Record>, key: &Key) -> (r: Option<&'a Record>)
    requires
        records.wf(),
    ensures
        r == if records@.contains_key(key@) {
            Some(&records@[key@])
        } else {
            None
        },
{
    records.get(key)
}

/// A scan of a range, page by page.
pub struct Scan {
    /// What is left to scan.
    pub cursor: Option<Range<Vec<u8>>>,
}

impl Scan {
    pub fn new(range: Range<Vec<u8>>) -> (r: Self)
        ensures
            r.cursor == Some(range),
    {
        Scan { cursor: Some(range) }
    }

    /// The range to read the next page of, unless the scan is at its end.
    pub fn next_range(&self) -> (r: Option<&Range<Vec<u8>>>)
        ensures
            match self.cursor {
                Some(range) => r matches Some(x) && *x == range,
                None => r is None,
            },
    {
        self.cursor.as_ref()
    }

    /// Goes on where a page says that the scan goes on.
    pub fn advance(&mut self, rest: Option<Range<Vec<u8>>>)
        ensures
            final(self).cursor == rest,
    {
        self.cursor = rest;
    }
}

/// Whether a page takes its part out of a range: each key of the range either lies in the part that
/// was scanned or in the part where the scan goes on.
pub open spec fn page_step(
    range: Range<Seq<u8>>,
    scanned: Range<Seq<u8>>,
    rest: Option<Range<Seq<u8>>>,
) -> bool {
    forall|k: Seq<u8>| #[trigger]
        range.has(k) == (scanned.has(k) || (rest is Some && (rest->0).has(k))) && !(scanned.has(k)
            && rest is Some && (rest->0).has(k))
}

/// A page that a tablet answers with takes its part out of the range that was asked for, where what
/// the tablet scanned starts at the end of the range that comes first.
pub proof fn law_tablet_page_is_step(
    range: Range<Seq<u8>>,
    scan: Range<Seq<u8>>,
    cursor: Option<Range<Seq<u8>>>,
    direction: Direction,
)
    requires
        scan.lower.at_most(scan.upper),
        direction == Direction::Asc ==> scan.lower == range.lower && scan.upper.at_most(
            range.upper,
        ),
        direction == Direction::Desc ==> scan.upper == range.upper && range.lower.at_most(
            scan.lower,
        ),
        cursor matches Some(c) ==> (direction == Direction::Asc ==> scan.lower.at_most(c.lower)
            && c.lower.at_most(scan.upper)),
        cursor matches Some(c) ==> (direction == Direction::Desc ==> c.upper.at_most(scan.upper)
            && scan.lower.at_most(c.upper)),
    ensures
        ({
            let scanned = scanned_part(scan, cursor, direction);
            page_step(range, scanned, next_cursor(range, scanned, direction))
        }),
{
    let scanned = scanned_part(scan, cursor, direction);
    let rest = next_cursor(range, scanned, direction);
    assert forall|k: Seq<u8>| #[trigger]
        range.has(k) == (scanned.has(k) || (rest is Some && (rest->0).has(k))) && !(scanned.has(k)
            && rest is Some && (rest->0).has(k)) by {
        law_scan_covers(range, scan, cursor, direction, k);
    }
}

/// Whether pages make up a scan of a range: each goes on where the one before it says, up to one
/// that says that nothing is left.
pub open spec fn makes_scan(
    range: Range<Seq<u8>>,
    pages: Seq<(Range<Seq<u8>>, Option<Range<Seq<u8>>>)>,
) -> bool
    decreases pages.len(),
{
    &&& pages.len() > 0
    &&& page_step(range, pages[0].0, pages[0].1)
    &&& match pages[0].1 {
        None => pages.len() == 1,
        Some(rest) => makes_scan(rest, pages.skip(1)),
    }
}

/// A scan shows each key of its range on exactly one page, and no other key on any.
pub proof fn law_scan_shows_each_key_once(
    range: Range<Seq<u8>>,
    pages: Seq<(Range<Seq<u8>>, Option<Range<Seq<u8>>>)>,
    k: Seq<u8>,
)
    requires
        makes_scan(range, pages),
    ensures
        range.has(k) <==> exists|i: int| 0 <= i < pages.len() && (#[trigger] pages[i]).0.has(k),
        forall|i: int, j: int|
            0 <= i < j < pages.len() ==> !((#[trigger] pages[i]).0.has(k) && (
            #[trigger] pages[j]).0.has(k)),
    decreases pages.len(),
{
    assert(range.has(k) == (pages[0].0.has(k) || (pages[0].1 is Some && (pages[0].1->0).has(k))));
    match pages[0].1 {
        None => {
            assert(pages[0].0.has(k) ==> range.has(k));
        },
        Some(rest) => {
            let later = pages.skip(1);
            law_scan_shows_each_key_once(rest, later, k);
            if exists|i: int| 0 <= i < later.len() && (#[trigger] later[i]).0.has(k) {
                let i = choose|i: int| 0 <= i < later.len() && (#[trigger] later[i]).0.has(k);
                assert(pages[i + 1].0.has(k));
            }
            assert forall|i: int, j: int| 0 <= i < j < pages.len() implies !((
            #[trigger] pages[i]).0.has(k) && (#[trigger] pages[j]).0.has(k)) by {
                assert(later[j - 1] == pages[j]);
                if i > 0 {
                    assert(later[i - 1] == pages[i]);
                }
            }
            if exists|i: int| 0 <= i < pages.len() && (#[trigger] pages[i]).0.has(k) {
                let i = choose|i: int| 0 <= i < pages.len() && (#[trigger] pages[i]).0.has(k);
                if i > 0 {
                    assert(later[i - 1].0.has(k));
                }
            }
            if range.has(k) && pages[0].0.has(k) {
                assert(pages[0].0.has(k));
            }
        },
    }
}

/// Bounds before the keys of one byte, from the least on: they split the keys into as many parts
/// and one more.
pub fn single_byte_splits(n: usize) -> (r: Vec<Bound<Vec<u8>>>)
    requires
        n <= 255,
    ensures
        r@.len() == n,
        forall|i: int| 0 <= i < n ==> (#[trigger] r@[i])@ == Bound::Before(seq![i as u8]),
{
    let mut out: Vec<Bound<Vec<u8>>> = Vec::new();
    let mut i: usize = 0;
    while i < n
        invariant
            i <= n,
            n <= 255,
            out@.len() == i,
            forall|j: int| 0 <= j < i ==> (#[trigger] out@[j])@ == Bound::Before(seq![j as u8]),
        decreases n - i,
    {
        let key: Vec<u8> = vec![i as u8];
        assert(key@ =~= seq![i as u8]);
        out.push(Bound::Before(key));
        i += 1;
    }
    out
}

} // verus!
