//! Shards: the tablets that live and fail together, and how they follow the metadata.

pub mod journal_live_runs;
pub mod shard_laws;

use vstd::prelude::*;

use crate::meta::{copy_ids, MetaKey, MetaSnapshot, MetaState, SyncType, TabletState, TransferId};
use crate::range::span::law_full_range;
use crate::range::{Bound, Range};
use crate::tablet::data_tablet::{can_become, DataState, DataTablet};
use crate::tablet::hydrating_tablet::{all_keyspaces_of, HydratingTablet};
use crate::tablet::meta_tablet::MetaTablet;
use crate::tablet::shard_meta_tablet::{law_owns_outcome, ShardMetaTablet};
use crate::tablet::tablet_inner::owns;
use crate::types::data::Txid;
use crate::types::error::InternalError;
use crate::types::{ColoGroupId, KeyspaceId, ShardId, TabletId};
use crate::util::ordmap::OrdMap;

verus! {

/// Why a shard cannot do what is asked.
#[derive(Clone, Copy, Debug, PartialEq, Eq, Structural)]
pub enum ShardError {
    /// The tablet belongs to another shard.
    WrongShard(TabletId, ShardId),
    /// The shard's own tablet always exists and never changes its state.
    ShardMeta(TabletId),
    /// The tablet should copy the data of others, but has left that state.
    CannotHydrate(TabletId),
    /// The tablet should copy the data of others, but there is no transfer to it.
    NoSources(TabletId),
    /// The tablet of the metadata is not in this shard.
    NotMember(TabletId, ShardId),
    /// The shard has no such tablet.
    NotFound(TabletId),
    /// The metadata do not describe the tablet.
    UnknownTablet(TabletId),
    /// The metadata do not describe the transfer.
    UnknownTransfer(TransferId),
    /// The tablet is marked with a transfer in which it is neither source nor destination.
    NotInTransfer(TabletId, TransferId),
    /// The ranges of a transfer's destinations do not follow one another.
    NotContiguous,
    /// The tablet itself refuses.
    Tablet(InternalError),
}

/// What a tablet's transfer means to it.
#[derive(Debug)]
pub enum TabletTransfer {
    /// Its data is copied, and kept apart at bounds.
    Src { splits: Vec<Bound<Vec<u8>>> },
    /// It copies the data of tablets.
    Dst { srcs: Vec<TabletId> },
}

/// What a tablet's transfer means to it, with keys and lists as sequences.
pub enum TabletTransferView {
    Src(Seq<Bound<Seq<u8>>>),
    Dst(Seq<TabletId>),
}

/// The views of bounds.
pub open spec fn bound_views(s: Seq<Bound<Vec<u8>>>) -> Seq<Bound<Seq<u8>>> {
    Seq::new(s.len(), |i: int| s[i]@)
}

impl View for TabletTransfer {
    type V = TabletTransferView;

    open spec fn view(&self) -> TabletTransferView {
        match self {
            TabletTransfer::Src { splits } => TabletTransferView::Src(bound_views(splits@)),
            TabletTransfer::Dst { srcs } => TabletTransferView::Dst(srcs@),
        }
    }
}

/// What a shard has to know of one of its tablets.
#[derive(Debug)]
pub struct ShardTabletMetadata {
    pub colo_group_id: ColoGroupId,
    pub range: Range<Vec<u8>>,
    /// The state to go to.
    pub state: TabletState,
    pub transfer: Option<TabletTransfer>,
}

/// What a shard has to know of one of its tablets, with keys and lists as sequences.
pub struct ShardTabletMetadataView {
    pub colo_group_id: ColoGroupId,
    pub range: Range<Seq<u8>>,
    pub state: TabletState,
    pub transfer: Option<TabletTransferView>,
}

impl View for ShardTabletMetadata {
    type V = ShardTabletMetadataView;

    open spec fn view(&self) -> ShardTabletMetadataView {
        ShardTabletMetadataView {
            colo_group_id: self.colo_group_id,
            range: self.range@,
            state: self.state,
            transfer: match self.transfer {
                Some(t) => Some(t@),
                None => None,
            },
        }
    }
}

/// Whether each range starts where the one before it ends.
pub open spec fn contiguous(ranges: Seq<Range<Seq<u8>>>) -> bool {
    forall|i: int| #![trigger ranges[i]] 0 < i < ranges.len() ==> ranges[i - 1].upper == ranges[i].lower
}

/// The bounds between ranges that follow one another.
pub open spec fn inner_bounds(ranges: Seq<Range<Seq<u8>>>) -> Seq<Bound<Seq<u8>>> {
    Seq::new((ranges.len() - 1) as nat, |i: int| ranges[i + 1].lower)
}

/// The views of ranges.
pub open spec fn range_views(s: Seq<Range<Vec<u8>>>) -> Seq<Range<Seq<u8>>> {
    Seq::new(s.len(), |i: int| s[i]@)
}

/// The bounds between ranges that have to follow one another.
pub fn ranges_to_splits(ranges: &Vec<Range<Vec<u8>>>) -> (r: Result<
    Vec<Bound<Vec<u8>>>,
    ShardError,
>)
    ensures
        match r {
            Ok(splits) => contiguous(range_views(ranges@)) && bound_views(splits@)
                == if ranges@.len() == 0 {
                Seq::empty()
            } else {
                inner_bounds(range_views(ranges@))
            },
            Err(e) => !contiguous(range_views(ranges@)) && e == ShardError::NotContiguous,
        },
{
    let ghost rs = range_views(ranges@);
    let mut splits: Vec<Bound<Vec<u8>>> = Vec::new();
    let mut i: usize = 1;
    while i < ranges.len()
        invariant
            1 <= i,
            rs == range_views(ranges@),
            ranges@.len() > 0 ==> i <= ranges@.len(),
            ranges@.len() == 0 ==> i == 1,
            splits@.len() == i - 1,
            forall|j: int| #![trigger rs[j]] 0 < j < i && j < rs.len() ==> rs[j - 1].upper == rs[j].lower,
            forall|j: int| 0 <= j < splits@.len() ==> (#[trigger] splits@[j])@ == rs[j + 1].lower,
        decreases ranges@.len() - i,
    {
        if !ranges[i - 1].upper.same(&ranges[i].lower) {
            assert(rs[i - 1].upper != rs[i as int].lower);
            return Err(ShardError::NotContiguous);
        }
        splits.push(ranges[i].lower.clone());
        i += 1;
    }
    proof {
        if ranges@.len() == 0 {
            assert(bound_views(splits@) =~= Seq::empty());
        } else {
            assert(bound_views(splits@) =~= inner_bounds(rs));
        }
    }
    Ok(splits)
}

/// Where ranges follow one another, each key between their ends lies in one of them.
pub proof fn law_splits_cover(ranges: Seq<Range<Seq<u8>>>, k: Seq<u8>)
    requires
        ranges.len() > 0,
        contiguous(ranges),
    ensures
        (Range { lower: ranges[0].lower, upper: ranges.last().upper }).has(k) ==> exists|i: int|
            0 <= i < ranges.len() && (#[trigger] ranges[i]).has(k),
    decreases ranges.len(),
{
    if ranges.len() > 1 {
        let front = ranges.drop_last();
        assert forall|i: int| #![trigger front[i]] 0 < i < front.len() implies front[i - 1].upper
            == front[i].lower by {
            assert(ranges[i - 1].upper == ranges[i].lower);
        }
        law_splits_cover(front, k);
        let n = ranges.len() - 1;
        assert(ranges[n - 1].upper == ranges[n].lower);
        if (Range { lower: ranges[0].lower, upper: ranges.last().upper }).has(k)
            && !ranges[n].has(k) {
            assert(front.last().upper == ranges[n].lower);
            assert((Range { lower: front[0].lower, upper: front.last().upper }).has(k));
            let i = choose|i: int| 0 <= i < front.len() && (#[trigger] front[i]).has(k);
            assert(ranges[i].has(k));
        }
    } else {
        assert(ranges[0].has(k) == (Range {
            lower: ranges[0].lower,
            upper: ranges.last().upper,
        }).has(k));
    }
}

/// The ranges of tablets, up to the first that the metadata do not describe.
pub open spec fn ranges_of(snapshot: MetaSnapshot, ids: Seq<TabletId>) -> Result<
    Seq<Range<Seq<u8>>>,
    ShardError,
>
    decreases ids.len(),
{
    if ids.len() == 0 {
        Ok(Seq::empty())
    } else {
        match ranges_of(snapshot, ids.drop_last()) {
            Err(e) => Err(e),
            Ok(ranges) => if snapshot.tablets@.contains_key(ids.last()) {
                Ok(ranges.push(snapshot.tablets@[ids.last()].range@))
            } else {
                Err(ShardError::UnknownTablet(ids.last()))
            },
        }
    }
}

proof fn lemma_ranges_err(snapshot: MetaSnapshot, ids: Seq<TabletId>, n: int)
    requires
        0 <= n <= ids.len(),
        ranges_of(snapshot, ids.take(n)) is Err,
    ensures
        ranges_of(snapshot, ids) == ranges_of(snapshot, ids.take(n)),
    decreases ids.len(),
{
    if n == ids.len() {
        assert(ids.take(n) =~= ids);
    } else {
        assert(ids.drop_last().take(n) =~= ids.take(n));
        lemma_ranges_err(snapshot, ids.drop_last(), n);
    }
}

fn tablet_ranges(snapshot: &MetaSnapshot, ids: &Vec<TabletId>) -> (r: Result<
    Vec<Range<Vec<u8>>>,
    ShardError,
>)
    requires
        snapshot.wf(),
    ensures
        match r {
            Ok(ranges) => ranges_of(*snapshot, ids@) == Ok::<Seq<Range<Seq<u8>>>, ShardError>(
                range_views(ranges@),
            ),
            Err(e) => ranges_of(*snapshot, ids@) == Err::<Seq<Range<Seq<u8>>>, ShardError>(e),
        },
{
    let mut ranges: Vec<Range<Vec<u8>>> = Vec::new();
    let mut i: usize = 0;
    proof {
        assert(ids@.take(0) =~= Seq::empty());
        assert(range_views(ranges@) =~= Seq::empty());
    }
    while i < ids.len()
        invariant
            i <= ids@.len(),
            snapshot.wf(),
            ranges_of(*snapshot, ids@.take(i as int)) == Ok::<Seq<Range<Seq<u8>>>, ShardError>(
                range_views(ranges@),
            ),
        decreases ids@.len() - i,
    {
        let id = ids[i];
        proof {
            assert(ids@.take(i + 1).drop_last() =~= ids@.take(i as int));
            assert(ids@.take(i + 1).last() == id);
        }
        match snapshot.tablets.get(&id) {
            Some(metadata) => {
                let ghost before = ranges@;
                ranges.push(metadata.range.clone());
                assert(range_views(ranges@) =~= range_views(before).push(metadata.range@));
            },
            None => {
                proof {
                    lemma_ranges_err(*snapshot, ids@, i + 1);
                }
                return Err(ShardError::UnknownTablet(id));
            },
        }
        i += 1;
    }
    assert(ids@.take(i as int) =~= ids@);
    Ok(ranges)
}

/// What a transfer means to a tablet.
pub open spec fn transfer_for(snapshot: MetaSnapshot, id: TabletId, transfer: TransferId) -> Result<
    TabletTransferView,
    ShardError,
> {
    if !snapshot.transfers@.contains_key(transfer) {
        Err(ShardError::UnknownTransfer(transfer))
    } else {
        let t = snapshot.transfers@[transfer];
        if t.dsts@.contains(id) {
            Ok(TabletTransferView::Dst(t.srcs@))
        } else if t.srcs@.contains(id) {
            match ranges_of(snapshot, t.dsts@) {
                Err(e) => Err(e),
                Ok(ranges) => if !contiguous(ranges) {
                    Err(ShardError::NotContiguous)
                } else if ranges.len() == 0 {
                    Ok(TabletTransferView::Src(Seq::empty()))
                } else {
                    Ok(TabletTransferView::Src(inner_bounds(ranges)))
                },
            }
        } else {
            Err(ShardError::NotInTransfer(id, transfer))
        }
    }
}

/// What a shard has to know of a tablet: the state that the tablet is in or on the way to, and
/// what its transfer means to it.
pub open spec fn metadata_for(snapshot: MetaSnapshot, id: TabletId) -> Result<
    ShardTabletMetadataView,
    ShardError,
> {
    if !snapshot.tablets@.contains_key(id) {
        Err(ShardError::UnknownTablet(id))
    } else {
        let m = snapshot.tablets@[id];
        let state = match m.state {
            MetaState::Stable(s) => s,
            MetaState::Transitioning(_, s) => s,
        };
        match m.transfer_id {
            None => Ok(
                ShardTabletMetadataView {
                    colo_group_id: m.colo_group_id,
                    range: m.range@,
                    state,
                    transfer: None,
                },
            ),
            Some(transfer) => match transfer_for(snapshot, id, transfer) {
                Err(e) => Err(e),
                Ok(t) => Ok(
                    ShardTabletMetadataView {
                        colo_group_id: m.colo_group_id,
                        range: m.range@,
                        state,
                        transfer: Some(t),
                    },
                ),
            },
        }
    }
}

fn contains_id(ids: &Vec<TabletId>, id: TabletId) -> (r: bool)
    ensures
        r == ids@.contains(id),
{
    let mut i: usize = 0;
    while i < ids.len()
        invariant
            i <= ids@.len(),
            forall|j: int| 0 <= j < i ==> #[trigger] ids@[j] != id,
        decreases ids@.len() - i,
    {
        if ids[i] == id {
            return true;
        }
        i += 1;
    }
    false
}

/// What a shard has to know of a tablet.
pub fn shard_tablet_metadata(tablet_id: TabletId, snapshot: &MetaSnapshot) -> (r: Result<
    ShardTabletMetadata,
    ShardError,
>)
    requires
        snapshot.wf(),
    ensures
        match r {
            Ok(m) => metadata_for(*snapshot, tablet_id) == Ok::<
                ShardTabletMetadataView,
                ShardError,
            >(m@),
            Err(e) => metadata_for(*snapshot, tablet_id) == Err::<
                ShardTabletMetadataView,
                ShardError,
            >(e),
        },
{
    let metadata = match snapshot.tablets.get(&tablet_id) {
        Some(metadata) => metadata,
        None => {
            return Err(ShardError::UnknownTablet(tablet_id));
        },
    };
    let state = match metadata.state {
        MetaState::Stable(state) => state,
        MetaState::Transitioning(_, next) => next,
    };
    let transfer = match metadata.transfer_id {
        None => None,
        Some(transfer_id) => {
            let transfer_metadata = match snapshot.transfers.get(&transfer_id) {
                Some(transfer_metadata) => transfer_metadata,
                None => {
                    return Err(ShardError::UnknownTransfer(transfer_id));
                },
            };
            if contains_id(&transfer_metadata.dsts, tablet_id) {
                Some(TabletTransfer::Dst { srcs: copy_ids(&transfer_metadata.srcs) })
            } else if contains_id(&transfer_metadata.srcs, tablet_id) {
                let ranges = match tablet_ranges(snapshot, &transfer_metadata.dsts) {
                    Ok(ranges) => ranges,
                    Err(e) => {
                        return Err(e);
                    },
                };
                match ranges_to_splits(&ranges) {
                    Ok(splits) => Some(TabletTransfer::Src { splits }),
                    Err(e) => {
                        return Err(e);
                    },
                }
            } else {
                return Err(ShardError::NotInTransfer(tablet_id, transfer_id));
            }
        },
    };
    Ok(
        ShardTabletMetadata {
            colo_group_id: metadata.colo_group_id,
            range: metadata.range.clone(),
            state,
            transfer,
        },
    )
}

/// Whether a tablet can be made from its metadata: it is either new or copies the data of others.
pub open spec fn can_make(m: ShardTabletMetadataView) -> bool {
    m.state is Active || m.state is Hydrating
}

/// Whether the metadata name the tablets to copy from, where it is to copy.
pub open spec fn has_sources(m: ShardTabletMetadataView) -> bool {
    m.state is Hydrating ==> (m.transfer matches Some(t) && t is Dst)
}

/// Whether a tablet is as it is made from its metadata.
pub open spec fn as_made(t: DataTablet, id: TabletId, m: ShardTabletMetadataView) -> bool {
    &&& t.wf()
    &&& t.tablet_id == id
    &&& t.colo_group_id == m.colo_group_id
    &&& t.range@ == m.range
    &&& t.kind() == m.state
    &&& match t.state {
        DataState::Active(splits) => splits@.len() == 0,
        DataState::Hydrating(h) => m.transfer matches Some(TabletTransferView::Dst(srcs))
            && h.tablet_id == id && h.colo_group_id == m.colo_group_id && h.srcs@ == srcs
            && h.range@ == m.range && h.state is Started && h.rounds_with_completed == 0
            && h.extra_keyspaces@ == Map::<KeyspaceId, ()>::empty(),
        _ => true,
    }
}

/// Makes a tablet.
pub fn new_data_tablet(tablet_id: TabletId, metadata: ShardTabletMetadata) -> (r: Result<
    DataTablet,
    ShardError,
>)
    requires
        can_make(metadata@),
    ensures
        match r {
            Ok(t) => has_sources(metadata@) && as_made(t, tablet_id, metadata@),
            Err(e) => !has_sources(metadata@) && e == ShardError::NoSources(tablet_id),
        },
{
    match metadata.state {
        TabletState::Hydrating => match metadata.transfer {
            Some(TabletTransfer::Dst { srcs }) => Ok(
                DataTablet::new_hydrating(
                    tablet_id,
                    metadata.colo_group_id,
                    metadata.range,
                    srcs,
                ),
            ),
            _ => Err(ShardError::NoSources(tablet_id)),
        },
        _ => Ok(DataTablet::new_active(tablet_id, metadata.colo_group_id, metadata.range)),
    }
}

/// A tablet of a shard.
pub enum TabletRef<'a> {
    Meta(&'a MetaTablet),
    ShardMeta(&'a ShardMetaTablet),
    Data(&'a DataTablet),
}

/// A shard.
pub struct Shard {
    pub id: ShardId,
    pub shard_meta_tablet: ShardMetaTablet,
    /// The tablet of the metadata, which is in one shard only.
    pub meta_tablet: Option<MetaTablet>,
    pub tablets: OrdMap<TabletId, DataTablet>,
}

/// Whether a tablet that is there goes to the state that it should be in. A tablet that copies can
/// only stop where it has copied everything.
pub open spec fn can_follow(t: DataTablet, to: TabletState, hydrated: bool) -> bool {
    can_become(t.kind(), to) && (t.state is Hydrating && to is Frozen ==> hydrated)
}

/// Why a tablet that is there does not go to the state that it should be in.
pub open spec fn refusal(t: DataTablet, to: TabletState) -> ShardError {
    if to is Hydrating {
        ShardError::CannotHydrate(t.tablet_id)
    } else if t.state is Hydrating && to is Frozen {
        ShardError::Tablet(InternalError::HydrationFailed(t.tablet_id))
    } else {
        ShardError::Tablet(InternalError::WrongState(t.tablet_id, t.kind()))
    }
}

/// The bounds at which a tablet should keep its data apart.
pub open spec fn wanted_splits(m: ShardTabletMetadataView) -> Seq<Bound<Seq<u8>>> {
    match m.transfer {
        Some(TabletTransferView::Src(splits)) => splits,
        _ => Seq::empty(),
    }
}

/// Whether a tablet has gone to the state that it should be in.
pub open spec fn has_followed(
    before: DataTablet,
    after: DataTablet,
    m: ShardTabletMetadataView,
) -> bool {
    &&& after.wf()
    &&& after.same_but_state(before)
    &&& after.kind() == m.state
    &&& match after.state {
        DataState::Active(splits) => bound_views(splits@) == wanted_splits(m),
        DataState::Hydrating(_) => after.state == before.state,
        _ => true,
    }
}

/// The keyspaces to create in a tablet that stops copying.
pub open spec fn keyspaces_due(before: DataTablet, to: TabletState) -> Seq<KeyspaceId> {
    match before.state {
        DataState::Hydrating(h) => if to is Frozen {
            all_keyspaces_of(h.extra_keyspaces.keys())
        } else {
            Seq::empty()
        },
        _ => Seq::empty(),
    }
}

/// Takes a tablet to the state that it should be in.
fn follow(tablet: &mut DataTablet, metadata: ShardTabletMetadata, hydrated: bool) -> (r: Result<
    Vec<KeyspaceId>,
    ShardError,
>)
    requires
        old(tablet).wf(),
    ensures
        final(tablet).wf(),
        if can_follow(*old(tablet), metadata.state, hydrated) {
            &&& has_followed(*old(tablet), *final(tablet), metadata@)
            &&& r matches Ok(ids)
            &&& ids@ == keyspaces_due(*old(tablet), metadata.state)
        } else {
            &&& r == Err::<Vec<KeyspaceId>, ShardError>(refusal(*old(tablet), metadata.state))
            &&& if old(tablet).state is Hydrating && metadata.state is Frozen {
                final(tablet).state is Defunct && final(tablet).same_but_state(*old(tablet))
            } else {
                *final(tablet) == *old(tablet)
            }
        },
{
    let mut due: Vec<KeyspaceId> = Vec::new();
    match metadata.state {
        TabletState::Defunct => {
            if let Err(e) = tablet.transition_defunct() {
                return Err(ShardError::Tablet(e));
            }
        },
        TabletState::Hydrating => {
            if !tablet.is_hydrating() {
                return Err(ShardError::CannotHydrate(tablet.tablet_id));
            }
        },
        TabletState::Active => {
            if let Err(e) = tablet.transition_active() {
                return Err(ShardError::Tablet(e));
            }
        },
        TabletState::Frozen => match tablet.transition_frozen(hydrated) {
            Ok(ids) => {
                due = ids;
            },
            Err(e) => {
                return Err(ShardError::Tablet(e));
            },
        },
    }
    assert(due@ =~= keyspaces_due(*old(tablet), metadata.state));
    match metadata.transfer {
        Some(TabletTransfer::Src { splits }) => {
            tablet.set_splits(splits);
        },
        _ => {
            let none: Vec<Bound<Vec<u8>>> = Vec::new();
            assert(bound_views(none@) =~= Seq::empty());
            tablet.set_splits(none);
        },
    }
    Ok(due)
}

/// Whether two tablets are the same but for the keyspaces that one of them remembers.
pub open spec fn remembers(before: DataTablet, after: DataTablet, id: KeyspaceId) -> bool {
    &&& after.same_but_state(before)
    &&& match before.state {
        DataState::Hydrating(h) => {
            &&& after.state matches DataState::Hydrating(g)
            &&& g.extra_keyspaces@ == h.extra_keyspaces@.insert(id, ())
            &&& g == (HydratingTablet { extra_keyspaces: g.extra_keyspaces, ..h })
        },
        _ => after.state == before.state,
    }
}

/// Whether a tablet stands in the way of a keyspace.
pub open spec fn blocks(t: DataTablet, id: KeyspaceId) -> bool {
    t.colo_group_id == id.0 && t.state is Frozen
}

/// The first tablet that stands in the way of a keyspace.
pub open spec fn first_blocking(
    tablets: Seq<(TabletId, DataTablet)>,
    id: KeyspaceId,
) -> Option<TabletId>
    decreases tablets.len(),
{
    if tablets.len() == 0 {
        None
    } else {
        match first_blocking(tablets.drop_last(), id) {
            Some(t) => Some(t),
            None => if blocks(tablets.last().1, id) {
                Some(tablets.last().0)
            } else {
                None
            },
        }
    }
}

proof fn lemma_first_blocking(tablets: Seq<(TabletId, DataTablet)>, id: KeyspaceId, n: int)
    requires
        0 <= n <= tablets.len(),
        first_blocking(tablets.take(n), id) is Some,
    ensures
        first_blocking(tablets, id) == first_blocking(tablets.take(n), id),
        creating(tablets, id) == creating(tablets.take(n), id),
    decreases tablets.len(),
{
    if n == tablets.len() {
        assert(tablets.take(n) =~= tablets);
    } else {
        assert(tablets.drop_last().take(n) =~= tablets.take(n));
        lemma_first_blocking(tablets.drop_last(), id, n);
    }
}

proof fn lemma_none_blocking(tablets: Seq<(TabletId, DataTablet)>, id: KeyspaceId, n: int)
    requires
        0 <= n <= tablets.len(),
        first_blocking(tablets.take(n), id) is None,
    ensures
        forall|j: int| 0 <= j < n ==> first_blocking(#[trigger] tablets.take(j + 1), id) is None,
{
    assert forall|j: int| 0 <= j < n implies first_blocking(
        #[trigger] tablets.take(j + 1),
        id,
    ) is None by {
        assert(tablets.take(n).take(j + 1) =~= tablets.take(j + 1));
        if first_blocking(tablets.take(j + 1), id) is Some {
            lemma_first_blocking(tablets.take(n), id, j + 1);
        }
    }
}

/// The tablets in which a keyspace is created at once, up to the first that stands in the way.
pub open spec fn creating(tablets: Seq<(TabletId, DataTablet)>, id: KeyspaceId) -> Seq<TabletId>
    decreases tablets.len(),
{
    if tablets.len() == 0 {
        Seq::empty()
    } else if tablets.last().1.colo_group_id == id.0 && tablets.last().1.state is Active
        && first_blocking(tablets.drop_last(), id) is None {
        creating(tablets.drop_last(), id).push(tablets.last().0)
    } else {
        creating(tablets.drop_last(), id)
    }
}

/// A step by which a shard follows the metadata.
#[derive(Clone, Copy, Debug, PartialEq, Eq, Structural)]
pub enum SyncStep {
    /// Makes a tablet, or takes it to the state that it should be in.
    Tablet(TabletId),
    /// Makes sure that a keyspace exists.
    Keyspace(KeyspaceId),
}

/// The tablets of a shard, in order.
pub open spec fn shard_steps(shard: ShardId, ids: Seq<TabletId>) -> Seq<SyncStep>
    decreases ids.len(),
{
    if ids.len() == 0 {
        Seq::empty()
    } else if ids.last().0 == shard {
        shard_steps(shard, ids.drop_last()).push(SyncStep::Tablet(ids.last()))
    } else {
        shard_steps(shard, ids.drop_last())
    }
}

/// The steps for what a transaction wrote.
pub open spec fn tx_steps(shard: ShardId, keys: Seq<MetaKey>) -> Seq<SyncStep>
    decreases keys.len(),
{
    if keys.len() == 0 {
        Seq::empty()
    } else {
        let steps = tx_steps(shard, keys.drop_last());
        match keys.last() {
            MetaKey::Tablet(id) => if id.0 == shard {
                steps.push(SyncStep::Tablet(id))
            } else {
                steps
            },
            MetaKey::Keyspace(id) => steps.push(SyncStep::Keyspace(id)),
            _ => steps,
        }
    }
}

/// The steps by which a shard follows the metadata: at first for each of its tablets and then for
/// each keyspace, and later for what a transaction wrote.
pub open spec fn steps_for(shard: ShardId, sync: SyncType, snapshot: MetaSnapshot) -> Seq<
    SyncStep,
> {
    match sync {
        SyncType::Initial => shard_steps(shard, snapshot.tablets.keys())
            + snapshot.keyspaces.keys().map_values(|id: KeyspaceId| SyncStep::Keyspace(id)),
        SyncType::Tx(keys) => tx_steps(shard, keys@),
    }
}

/// The first error when tablets are made, if any.
pub open spec fn first_make_error(snapshot: MetaSnapshot, ids: Seq<TabletId>) -> Option<ShardError>
    decreases ids.len(),
{
    if ids.len() == 0 {
        None
    } else {
        match first_make_error(snapshot, ids.drop_last()) {
            Some(e) => Some(e),
            None => match metadata_for(snapshot, ids.last()) {
                Err(e) => Some(e),
                Ok(m) => if has_sources(m) {
                    None
                } else {
                    Some(ShardError::NoSources(ids.last()))
                },
            },
        }
    }
}

proof fn lemma_first_make_error(snapshot: MetaSnapshot, ids: Seq<TabletId>, n: int)
    requires
        0 <= n <= ids.len(),
        first_make_error(snapshot, ids.take(n)) is Some,
    ensures
        first_make_error(snapshot, ids) == first_make_error(snapshot, ids.take(n)),
    decreases ids.len(),
{
    if n == ids.len() {
        assert(ids.take(n) =~= ids);
    } else {
        assert(ids.drop_last().take(n) =~= ids.take(n));
        lemma_first_make_error(snapshot, ids.drop_last(), n);
    }
}

/// The tablets that are data tablets of a shard.
pub open spec fn data_ids(shard: ShardId, ids: Seq<TabletId>) -> Seq<TabletId>
    decreases ids.len(),
{
    if ids.len() == 0 {
        Seq::empty()
    } else if ids.last() == TabletId::shard_meta(shard) || (ids.last() == TabletId::meta() && shard
        == ShardId::meta()) {
        data_ids(shard, ids.drop_last())
    } else {
        data_ids(shard, ids.drop_last()).push(ids.last())
    }
}

impl Shard {
    /// Each tablet stands under its own number, the outcomes of the shard's transactions are in the
    /// tablet for them, and the tablet of the metadata is in its shard.
    pub open spec fn wf(self) -> bool {
        &&& self.tablets.wf()
        &&& forall|id: TabletId| #[trigger]
            self.tablets@.contains_key(id) ==> self.tablets@[id].wf() && self.tablets@[id].tablet_id
                == id
        &&& self.shard_meta_tablet.of_shard(self.id)
        &&& self.meta_tablet is Some <==> self.id == ShardId::meta()
        &&& self.meta_tablet matches Some(t) ==> t.whole()
    }

    /// Whether two shards are the same but for their data tablets.
    pub open spec fn same_but_tablets(self, other: Shard) -> bool {
        self.id == other.id && self.shard_meta_tablet == other.shard_meta_tablet
            && self.meta_tablet == other.meta_tablet
    }

    /// The shard as it is recovered, from the tablets that it had.
    pub fn new(shard_id: ShardId, recovered: &Vec<TabletId>, snapshot: &MetaSnapshot) -> (r: Result<
        Shard,
        ShardError,
    >)
        requires
            snapshot.wf(),
            forall|i: int|
                #![trigger data_ids(shard_id, recovered@)[i]]
                0 <= i < data_ids(shard_id, recovered@).len() ==> (metadata_for(
                    *snapshot,
                    data_ids(shard_id, recovered@)[i],
                ) matches Ok(m) ==> can_make(m)),
        ensures
            match first_make_error(*snapshot, data_ids(shard_id, recovered@)) {
                Some(e) => r matches Err(e2) && e2 == e,
                None => {
                    &&& r matches Ok(s)
                    &&& s.wf()
                    &&& s.id == shard_id
                    &&& s.shard_meta_tablet.of_shard(shard_id)
                    &&& if shard_id == ShardId::meta() {
                        s.meta_tablet matches Some(t) && t.whole()
                    } else {
                        s.meta_tablet is None
                    }
                    &&& forall|id: TabletId| #[trigger]
                        s.tablets@.contains_key(id) <==> data_ids(shard_id, recovered@).contains(id)
                    &&& forall|id: TabletId| #[trigger]
                        s.tablets@.contains_key(id) ==> as_made(
                            s.tablets@[id],
                            id,
                            metadata_for(*snapshot, id)->Ok_0,
                        )
                },
            },
    {
        let ghost ids = data_ids(shard_id, recovered@);
        let list = data_tablet_ids(shard_id, recovered);
        let shard_meta_tablet = ShardMetaTablet::new(shard_id);
        let meta_tablet = if shard_id == ShardId::meta() {
            Some(MetaTablet::new())
        } else {
            None
        };
        let mut tablets: OrdMap<TabletId, DataTablet> = OrdMap::new();
        let mut i: usize = 0;
        assert(ids.take(0) =~= Seq::empty());
        while i < list.len()
            invariant
                i <= list@.len(),
                ids == list@,
                snapshot.wf(),
                tablets.wf(),
                ids == data_ids(shard_id, recovered@),
                forall|j: int|
                    #![trigger data_ids(shard_id, recovered@)[j]]
                    0 <= j < data_ids(shard_id, recovered@).len() ==> (metadata_for(
                        *snapshot,
                        data_ids(shard_id, recovered@)[j],
                    ) matches Ok(m) ==> can_make(m)),
                first_make_error(*snapshot, ids.take(i as int)) is None,
                forall|id: TabletId| #[trigger]
                    tablets@.contains_key(id) <==> ids.take(i as int).contains(id),
                forall|id: TabletId| #[trigger]
                    tablets@.contains_key(id) ==> as_made(
                        tablets@[id],
                        id,
                        metadata_for(*snapshot, id)->Ok_0,
                    ),
            decreases list@.len() - i,
        {
            let id = list[i];
            proof {
                assert(ids.take(i + 1).drop_last() =~= ids.take(i as int));
                assert(ids.take(i + 1).last() == id);
                assert(data_ids(shard_id, recovered@)[i as int] == id);
            }
            let metadata = match shard_tablet_metadata(id, snapshot) {
                Ok(metadata) => metadata,
                Err(e) => {
                    proof {
                        lemma_first_make_error(*snapshot, ids, i + 1);
                    }
                    return Err(e);
                },
            };
            let tablet = match new_data_tablet(id, metadata) {
                Ok(tablet) => tablet,
                Err(e) => {
                    proof {
                        lemma_first_make_error(*snapshot, ids, i + 1);
                    }
                    return Err(e);
                },
            };
            let ghost before = tablets@;
            tablets.insert(id, tablet);
            proof {
                assert forall|k: TabletId| #[trigger]
                    tablets@.contains_key(k) <==> ids.take(i + 1).contains(k) by {
                    assert(before.contains_key(k) <==> ids.take(i as int).contains(k));
                    if ids.take(i as int).contains(k) {
                        let j = ids.take(i as int).index_of(k);
                        assert(ids.take(i + 1)[j] == k);
                    }
                    if k == id {
                        assert(ids.take(i + 1)[i as int] == k);
                    }
                    if ids.take(i + 1).contains(k) && k != id {
                        let j = ids.take(i + 1).index_of(k);
                        assert(ids.take(i as int)[j] == k);
                    }
                }
            }
            i += 1;
        }
        assert(ids.take(i as int) =~= ids);
        Ok(Shard { id: shard_id, shard_meta_tablet, meta_tablet, tablets })
    }

    pub fn id(&self) -> (r: ShardId)
        ensures
            r == self.id,
    {
        self.id
    }

    /// The keyspaces to create in the tablets that the metadata do not describe: that of the
    /// outcomes of transactions, and that of the cluster's metadata where they are in this shard.
    pub fn own_keyspaces(&self) -> (r: Vec<(TabletId, KeyspaceId)>)
        requires
            self.wf(),
        ensures
            r@ == if self.id == ShardId::meta() {
                seq![
                    (TabletId::shard_meta(self.id), KeyspaceId::tx_outcomes()),
                    (TabletId::meta(), KeyspaceId::meta()),
                ]
            } else {
                seq![(TabletId::shard_meta(self.id), KeyspaceId::tx_outcomes())]
            },
    {
        let mut r: Vec<(TabletId, KeyspaceId)> = Vec::new();
        r.push((self.shard_meta_tablet.inner.tablet_id, KeyspaceId::tx_outcomes()));
        if let Some(meta_tablet) = &self.meta_tablet {
            r.push((meta_tablet.inner.tablet_id, KeyspaceId::meta()));
        }
        r
    }

    /// The tablet with a number.
    pub fn tablet<'a>(&'a self, tablet_id: TabletId) -> (r: Result<TabletRef<'a>, ShardError>)
        requires
            self.wf(),
        ensures
            r == if tablet_id == TabletId::meta() {
                match self.meta_tablet {
                    Some(t) => Ok::<TabletRef<'a>, ShardError>(TabletRef::Meta(&t)),
                    None => Err(ShardError::NotMember(tablet_id, self.id)),
                }
            } else if tablet_id == TabletId::shard_meta(self.id) {
                Ok(TabletRef::ShardMeta(&self.shard_meta_tablet))
            } else if self.tablets@.contains_key(tablet_id) {
                Ok(TabletRef::Data(&self.tablets@[tablet_id]))
            } else {
                Err(ShardError::NotFound(tablet_id))
            },
    {
        if tablet_id == TabletId::meta() {
            return match &self.meta_tablet {
                Some(meta_tablet) => Ok(TabletRef::Meta(meta_tablet)),
                None => Err(ShardError::NotMember(tablet_id, self.id)),
            };
        }
        if tablet_id == TabletId::shard_meta(self.id) {
            return Ok(TabletRef::ShardMeta(&self.shard_meta_tablet));
        }
        match self.tablets.get(&tablet_id) {
            Some(tablet) => Ok(TabletRef::Data(tablet)),
            None => Err(ShardError::NotFound(tablet_id)),
        }
    }

    /// Makes a tablet, or takes one that is there to the state that it should be in. Returns the
    /// keyspaces to create in a tablet that stops copying; `hydrated` says whether it has copied
    /// everything.
    pub fn create_or_transition_tablet(
        &mut self,
        tablet_id: TabletId,
        metadata: ShardTabletMetadata,
        hydrated: bool,
    ) -> (r: Result<Vec<KeyspaceId>, ShardError>)
        requires
            old(self).wf(),
            tablet_id.0 == old(self).id && tablet_id != TabletId::shard_meta(old(self).id) && !old(
                self,
            ).tablets@.contains_key(tablet_id) ==> can_make(metadata@),
        ensures
            final(self).wf(),
            final(self).same_but_tablets(*old(self)),
            if tablet_id.0 != old(self).id {
                r == Err::<Vec<KeyspaceId>, ShardError>(
                    ShardError::WrongShard(tablet_id, old(self).id),
                ) && final(self).tablets == old(self).tablets
            } else if tablet_id == TabletId::shard_meta(old(self).id) {
                r == Err::<Vec<KeyspaceId>, ShardError>(ShardError::ShardMeta(tablet_id))
                    && final(self).tablets == old(self).tablets
            } else if old(self).tablets@.contains_key(tablet_id) {
                let before = old(self).tablets@[tablet_id];
                let after = final(self).tablets@[tablet_id];
                &&& final(self).tablets@ == old(self).tablets@.insert(tablet_id, after)
                &&& if can_follow(before, metadata.state, hydrated) {
                    &&& has_followed(before, after, metadata@)
                    &&& r matches Ok(ids)
                    &&& ids@ == keyspaces_due(before, metadata.state)
                } else {
                    &&& r == Err::<Vec<KeyspaceId>, ShardError>(refusal(before, metadata.state))
                    &&& if before.state is Hydrating && metadata.state is Frozen {
                        after.state is Defunct && after.same_but_state(before)
                    } else {
                        after == before
                    }
                }
            } else if has_sources(metadata@) {
                let made = final(self).tablets@[tablet_id];
                &&& r matches Ok(ids)
                &&& ids@.len() == 0
                &&& final(self).tablets@ == old(self).tablets@.insert(tablet_id, made)
                &&& as_made(made, tablet_id, metadata@)
            } else {
                r == Err::<Vec<KeyspaceId>, ShardError>(ShardError::NoSources(tablet_id))
                    && final(self).tablets == old(self).tablets
            },
    {
        if tablet_id.0 != self.id {
            return Err(ShardError::WrongShard(tablet_id, self.id));
        }
        if tablet_id == TabletId::shard_meta(self.id) {
            return Err(ShardError::ShardMeta(tablet_id));
        }
        let ghost start = self.tablets@;
        if self.tablets.contains_key(&tablet_id) {
            if let Some(tablet) = self.tablets.remove(&tablet_id) {
                let mut tablet = tablet;
                let r = follow(&mut tablet, metadata, hydrated);
                self.tablets.insert(tablet_id, tablet);
                assert(self.tablets@ =~= start.insert(tablet_id, tablet));
                return r;
            }
            return Err(ShardError::NotFound(tablet_id));
        }
        match new_data_tablet(tablet_id, metadata) {
            Ok(tablet) => {
                self.tablets.insert(tablet_id, tablet);
                Ok(Vec::new())
            },
            Err(e) => Err(e),
        }
    }

    /// Makes sure that a keyspace exists in the tablets of its colo group. Returns the tablets in
    /// which to create it, with what comes with it, at once. Stops at the first tablet that stands
    /// in the way; there may be tablets to create it in even then.
    pub fn ensure_keyspace(&mut self, keyspace_id: KeyspaceId) -> (r: (
        Vec<TabletId>,
        Result<(), ShardError>,
    ))
        requires
            old(self).wf(),
        ensures
            final(self).wf(),
            final(self).same_but_tablets(*old(self)),
            final(self).tablets.keys() == old(self).tablets.keys(),
            r.0@ == creating(old(self).tablets.entries@, keyspace_id),
            r.1 == match first_blocking(old(self).tablets.entries@, keyspace_id) {
                Some(t) => Err::<(), ShardError>(
                    ShardError::Tablet(InternalError::WrongState(t, TabletState::Frozen)),
                ),
                None => Ok(()),
            },
            forall|i: int|
                0 <= i < old(self).tablets.entries@.len() ==> {
                    let before = (#[trigger] old(self).tablets.entries@[i]).1;
                    let after = final(self).tablets.entries@[i].1;
                    if before.colo_group_id == keyspace_id.0 && first_blocking(
                        old(self).tablets.entries@.take(i + 1),
                        keyspace_id,
                    ) is None {
                        remembers(before, after, keyspace_id)
                    } else {
                        after == before
                    }
                },
    {
        let ghost start = self.tablets.entries@;
        let mut ids: Vec<TabletId> = Vec::new();
        let mut i: usize = 0;
        assert(start.take(0) =~= Seq::empty());
        proof {
            lemma_entries_wf(*self);
        }
        while i < self.tablets.entries.len()
            invariant
                i <= self.tablets.entries@.len(),
                self.tablets.entries@.len() == start.len(),
                start == old(self).tablets.entries@,
                self.same_but_tablets(*old(self)),
                self.tablets.keys() == old(self).tablets.keys(),
                old(self).wf(),
                first_blocking(start.take(i as int), keyspace_id) is None,
                ids@ == creating(start.take(i as int), keyspace_id),
                forall|j: int|
                    0 <= j < start.len() ==> (#[trigger] start[j]).1.wf() && start[j].1.tablet_id
                        == start[j].0,
                forall|j: int|
                    0 <= j < start.len() ==> {
                        let after = (#[trigger] self.tablets.entries@[j]).1;
                        &&& self.tablets.entries@[j].0 == start[j].0
                        &&& after.wf()
                        &&& after.tablet_id == start[j].0
                    },
                forall|j: int| i <= j < start.len() ==> #[trigger] self.tablets.entries@[j] == start[j],
                forall|j: int|
                    0 <= j < i ==> {
                        let before = (#[trigger] start[j]).1;
                        let after = self.tablets.entries@[j].1;
                        if before.colo_group_id == keyspace_id.0 {
                            remembers(before, after, keyspace_id)
                        } else {
                            after == before
                        }
                    },
            decreases start.len() - i,
        {
            let ghost now = self.tablets.entries@;
            proof {
                assert(start.take(i + 1).drop_last() =~= start.take(i as int));
                assert(start.take(i + 1).last() == start[i as int]);
                assert(now[i as int] == start[i as int]);
            }
            if self.tablets.entries[i].1.colo_group_id == keyspace_id.0 {
                let tablet_id = self.tablets.entries[i].0;
                match self.tablets.entries[i].1.create_keyspace(keyspace_id) {
                    Ok(created) => {
                        if created.len() > 0 {
                            ids.push(tablet_id);
                        }
                    },
                    Err(e) => {
                        proof {
                            lemma_first_blocking(start, keyspace_id, i + 1);
                            assert(self.tablets.keys() =~= old(self).tablets.keys());
                            lemma_wf_entries(*self);
                            lemma_none_blocking(start, keyspace_id, i as int);
                            assert forall|j: int| i <= j < start.len() implies first_blocking(
                                #[trigger] start.take(j + 1),
                                keyspace_id,
                            ) is Some by {
                                assert(start.take(j + 1).take(i + 1) =~= start.take(i + 1));
                                lemma_first_blocking(start.take(j + 1), keyspace_id, i + 1);
                            }
                        }
                        return (ids, Err(ShardError::Tablet(e)));
                    },
                }
            }
            assert(self.tablets.keys() =~= old(self).tablets.keys());
            i += 1;
        }
        proof {
            lemma_none_blocking(start, keyspace_id, i as int);
            assert(start.take(i as int) =~= start);
            lemma_wf_entries(*self);
        }
        (ids, Ok(()))
    }
}

proof fn lemma_entries_wf(s: Shard)
    requires
        s.wf(),
    ensures
        forall|j: int|
            0 <= j < s.tablets.entries@.len() ==> (#[trigger] s.tablets.entries@[j]).1.wf()
                && s.tablets.entries@[j].1.tablet_id == s.tablets.entries@[j].0,
{
    assert forall|j: int| 0 <= j < s.tablets.entries@.len() implies (
    #[trigger] s.tablets.entries@[j]).1.wf() && s.tablets.entries@[j].1.tablet_id
        == s.tablets.entries@[j].0 by {
        s.tablets.lemma_entry(j);
    }
}

proof fn lemma_wf_entries(s: Shard)
    requires
        s.tablets.wf(),
        s.shard_meta_tablet.of_shard(s.id),
        s.meta_tablet is Some <==> s.id == ShardId::meta(),
        s.meta_tablet matches Some(t) ==> t.whole(),
        forall|j: int|
            0 <= j < s.tablets.entries@.len() ==> (#[trigger] s.tablets.entries@[j]).1.wf()
                && s.tablets.entries@[j].1.tablet_id == s.tablets.entries@[j].0,
    ensures
        s.wf(),
{
    assert forall|id: TabletId| #[trigger] s.tablets@.contains_key(id) implies s.tablets@[id].wf()
        && s.tablets@[id].tablet_id == id by {
        s.tablets.lemma_key(id);
        let j = choose|j: int|
            0 <= j < s.tablets.entries@.len() && (#[trigger] s.tablets.entries@[j]).0@ == id;
        s.tablets.lemma_entry(j);
    }
}

fn data_tablet_ids(shard_id: ShardId, ids: &Vec<TabletId>) -> (r: Vec<TabletId>)
    ensures
        r@ == data_ids(shard_id, ids@),
{
    let mut r: Vec<TabletId> = Vec::new();
    let mut i: usize = 0;
    assert(ids@.take(0) =~= Seq::empty());
    while i < ids.len()
        invariant
            i <= ids@.len(),
            r@ == data_ids(shard_id, ids@.take(i as int)),
        decreases ids@.len() - i,
    {
        let id = ids[i];
        proof {
            assert(ids@.take(i + 1).drop_last() =~= ids@.take(i as int));
            assert(ids@.take(i + 1).last() == id);
        }
        if !(id == TabletId::shard_meta(shard_id) || (id == TabletId::meta() && shard_id
            == ShardId::meta())) {
            r.push(id);
        }
        i += 1;
    }
    assert(ids@.take(i as int) =~= ids@);
    r
}

/// The steps by which a shard follows the metadata.
pub fn plan_sync(shard_id: ShardId, sync_type: &SyncType, snapshot: &MetaSnapshot) -> (r: Vec<
    SyncStep,
>)
    requires
        snapshot.wf(),
    ensures
        r@ == steps_for(shard_id, *sync_type, *snapshot),
{
    let mut steps: Vec<SyncStep> = Vec::new();
    match sync_type {
        SyncType::Initial => {
            let ghost ids = snapshot.tablets.keys();
            let mut i: usize = 0;
            assert(ids.take(0) =~= Seq::empty());
            while i < snapshot.tablets.entries.len()
                invariant
                    i <= snapshot.tablets.entries@.len(),
                    ids == snapshot.tablets.keys(),
                    steps@ == shard_steps(shard_id, ids.take(i as int)),
                decreases snapshot.tablets.entries@.len() - i,
            {
                let id = snapshot.tablets.entries[i].0;
                proof {
                    assert(ids.take(i + 1).drop_last() =~= ids.take(i as int));
                    assert(ids.take(i + 1).last() == id);
                }
                if id.0 == shard_id {
                    steps.push(SyncStep::Tablet(id));
                }
                i += 1;
            }
            assert(ids.take(i as int) =~= ids);
            let ghost first = steps@;
            let ghost rest = snapshot.keyspaces.keys().map_values(
                |id: KeyspaceId| SyncStep::Keyspace(id),
            );
            let mut j: usize = 0;
            assert(first + rest.take(0) =~= first);
            while j < snapshot.keyspaces.entries.len()
                invariant
                    j <= snapshot.keyspaces.entries@.len(),
                    rest == snapshot.keyspaces.keys().map_values(
                        |id: KeyspaceId| SyncStep::Keyspace(id),
                    ),
                    steps@ == first + rest.take(j as int),
                decreases snapshot.keyspaces.entries@.len() - j,
            {
                let id = snapshot.keyspaces.entries[j].0;
                steps.push(SyncStep::Keyspace(id));
                assert(rest[j as int] == SyncStep::Keyspace(id));
                assert(steps@ =~= first + rest.take(j + 1));
                j += 1;
            }
            assert(rest.take(j as int) =~= rest);
        },
        SyncType::Tx(keys) => {
            let mut i: usize = 0;
            assert(keys@.take(0) =~= Seq::empty());
            while i < keys.len()
                invariant
                    i <= keys@.len(),
                    steps@ == tx_steps(shard_id, keys@.take(i as int)),
                decreases keys@.len() - i,
            {
                proof {
                    assert(keys@.take(i + 1).drop_last() =~= keys@.take(i as int));
                    assert(keys@.take(i + 1).last() == keys@[i as int]);
                }
                match keys[i] {
                    MetaKey::Tablet(id) => {
                        if id.0 == shard_id {
                            steps.push(SyncStep::Tablet(id));
                        }
                    },
                    MetaKey::Keyspace(id) => {
                        steps.push(SyncStep::Keyspace(id));
                    },
                    _ => {},
                }
                i += 1;
            }
            assert(keys@.take(i as int) =~= keys@);
        },
    }
    steps
}

/// A shard owns the outcomes of exactly the transactions that it is the owner of, and the shard of
/// the metadata owns every key of the metadata.
pub proof fn law_shard_owns_its_outcomes(s: Shard, txid: Txid, key: Seq<u8>)
    requires
        s.wf(),
    ensures
        s.shard_meta_tablet.owns_outcome(txid) == (txid.owner == s.id),
        s.meta_tablet matches Some(t) ==> owns(
            t.inner.colo_group_id,
            t.inner.range@,
            (KeyspaceId::meta(), key),
        ),
{
    law_owns_outcome(s.shard_meta_tablet, s.id, txid);
    law_full_range(key);
}

} // verus!
