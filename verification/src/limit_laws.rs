//! How long and how much.

use vstd::prelude::*;

use crate::node::META_REPLICAS;
use crate::obsidian::SCAN_PAGE_SIZE;
use crate::sequencer::{MAX_AHEAD_NANOS, MAX_SKEW_NANOS};
use crate::supervisor::gc::{GC_PARTS, GC_PRUNE_WAIT_NANOS, RUN_ID_LEN};
use crate::supervisor::transfer::CATCHUP_TIMEOUT_NANOS;
use crate::tablet::active_tablet::MAX_PRECOND_VALUE_LEN;
use crate::tablet::hydrating_tablet::ROUNDS_UNTIL_MOSTLY;
use crate::tablet::tablet_inner::MAX_PAGE_LEN;
use crate::tablet::waiters::WAIT_ABORT_TIMEOUT_NANOS;
use crate::types::data::TXID_LEN;
use crate::types::{PENDING_MARK, PRECOND_MARK, SHARD_ID_LEN, TABLET_ID_LEN};
use crate::util::varint::MAX_VARINT_LEN;

verus! {

/// A read may be a tenth of a second ahead to be waited for, and a hundredth to be made safe at
/// once. A wait for a transaction ends after a second, a transfer catches up within half a minute,
/// and a run that may be in use is kept for a quarter of an hour.
pub proof fn law_times()
    ensures
        MAX_AHEAD_NANOS == 100 * 1_000_000,
        MAX_SKEW_NANOS == 10 * 1_000_000,
        WAIT_ABORT_TIMEOUT_NANOS == 1_000 * 1_000_000,
        CATCHUP_TIMEOUT_NANOS == 30 * 1_000 * 1_000_000,
        GC_PRUNE_WAIT_NANOS == 15 * 60 * 1_000 * 1_000_000,
{
}

/// A shard is four bytes, a tablet eight more, a run sixteen, and a transaction that of a shard and
/// a run. A number of eight bytes takes at most one byte for each seven bits.
pub proof fn law_lengths()
    ensures
        SHARD_ID_LEN == 4,
        TABLET_ID_LEN == SHARD_ID_LEN + 8,
        RUN_ID_LEN == 16,
        TXID_LEN == SHARD_ID_LEN + RUN_ID_LEN,
        (MAX_VARINT_LEN - 1) * 7 < 64 <= MAX_VARINT_LEN * 7,
{
}

/// A page has up to a thousand records, and a scan of pages asks for as many. The locks of a key take
/// up to 256 bytes. The metadata has three replicas, the garbage collection a part for each byte,
/// and a tablet most of its data after three whole rounds.
pub proof fn law_counts()
    ensures
        MAX_PAGE_LEN == 1000,
        SCAN_PAGE_SIZE == MAX_PAGE_LEN,
        MAX_PRECOND_VALUE_LEN == 256,
        META_REPLICAS == 3,
        GC_PARTS == u8::MAX + 1,
        ROUNDS_UNTIL_MOSTLY == 3,
{
}

/// The upper two bits of the number of a keyspace tell what it holds: neither of them is set for
/// values, the lower one for pending mutations, and the upper one for locks.
pub proof fn law_marks(number: u32)
    requires
        number < PENDING_MARK,
    ensures
        number & 0xc000_0000 == 0,
        (number | PENDING_MARK) & 0xc000_0000 == 0x4000_0000,
        (number | PRECOND_MARK) & 0xc000_0000 == 0x8000_0000,
        PENDING_MARK == 0x4000_0000u32,
        PRECOND_MARK == 0x8000_0000u32,
{
    assert(number & 0xc000_0000 == 0) by (bit_vector)
        requires
            number < 0x4000_0000u32,
    ;
    assert((number | 0x4000_0000) & 0xc000_0000 == 0x4000_0000) by (bit_vector)
        requires
            number < 0x4000_0000u32,
    ;
    assert((number | 0x8000_0000) & 0xc000_0000 == 0x8000_0000) by (bit_vector)
        requires
            number < 0x4000_0000u32,
    ;
}

} // verus!
