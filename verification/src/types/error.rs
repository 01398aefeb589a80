//! Why a request fails.

use vstd::prelude::*;

use super::data::Txid;
use super::{ColoGroupId, KeyspaceId, TabletId};
use crate::meta::TabletState;
use crate::router::RouteError;
use crate::tablet::hydrating_tablet::HydrationState;
use crate::tablet::pending::DecodeError;

verus! {

/// Why a request to a tablet fails.
#[derive(Clone, Copy, Debug, PartialEq, Eq, Structural)]
pub enum InternalError {
    /// A transaction that is not decided yet stands in the way.
    Conflict(Txid),
    /// A key was written after the point in time up to which it must not have changed.
    PreconditionFailed,
    /// The outcome of the transaction was cleaned up already.
    TxOutcomeMissing,
    /// The replica does not lead the tablet's shard.
    NotLeader(TabletId),
    TabletNotReadable(TabletId),
    TabletNotWriteable(TabletId),
    TabletNotHydrating(TabletId),
    /// The tablet does not own the key.
    NotOwned(ColoGroupId),
    /// The tablet owns nothing of the colo group.
    NoRanges(ColoGroupId),
    /// A key is too short to start with a tablet.
    KeyTooShort,
    /// The tablet owns nothing of the range of a scan.
    Misroute(TabletId),
    /// The tablet owns a part of the range of a scan, but not the part that is next.
    NotNext(TabletId),
    /// A page without records was asked for.
    LimitZero,
    /// The keyspace cannot hold what undecided transactions leave.
    NotData(KeyspaceId),
    /// The keyspace belongs to another colo group than the tablet.
    WrongGroup(KeyspaceId),
    /// Too many undecided transactions depend on a key.
    TooMuchContention,
    /// A transaction was committed no later than it was prepared.
    CommitBeforePrepare,
    /// A point in time lies too far ahead.
    FutureTimestamp,
    /// The tablet does not take this request.
    NotAllowed,
    /// The tablet is in a state in which it does not take this request.
    WrongState(TabletId, TabletState),
    /// The tablet's hydration is not at the point that was waited for.
    WrongHydration(HydrationState),
    /// The tablet could not copy the data of its sources.
    HydrationFailed(TabletId),
    /// Stored bytes cannot be read.
    Decode(DecodeError),
    /// No tablet is known for a key.
    Route(RouteError),
}

} // verus!
