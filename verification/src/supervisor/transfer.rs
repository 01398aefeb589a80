//! Transfers of data between tablets: how they start and how they go on.

use vstd::prelude::*;

use crate::meta::{
    put_views, MetaPut, MetaPutView, MetaState, TabletMetadata, TabletMetadataView,
    TabletState, TransferId, TransferMetadata, TransferMetadataView, TransferState,
};
use crate::range::range_set::{joined, views};
use crate::range::{Bound, Range, RangeSet};
use crate::types::{ColoGroupId, TabletId};

verus! {

/// How long the destinations of a transfer may take to catch up, in nanoseconds.
pub const CATCHUP_TIMEOUT_NANOS: u64 = 30_000_000_000;

/// Why a transfer cannot start or go on.
#[derive(Clone, Copy, Debug, PartialEq, Eq, Structural)]
pub enum TransferError {
    /// Only one tablet into some, or some into one.
    NotOneToSome,
    /// A source takes part in another transfer.
    AlreadyParticipating(TabletId, TransferId),
    /// A source is between two states.
    SourceTransitioning(TabletId),
    /// The sources are of different colo groups.
    DifferentColoGroups(ColoGroupId, ColoGroupId),
    /// The sources do not make one range.
    SourcesNotContiguous,
    /// The destinations do not make one range.
    DestinationsNotContiguous,
    /// The sources and the destinations make different ranges.
    DifferentRanges,
    /// The transfer is between two states.
    AlreadyTransitioning(TransferState, TransferState),
    /// The one state does not lead to the other.
    NotAllowed(TransferState, TransferState),
    /// A participant is between two states.
    ParticipantTransitioning(TabletId),
    /// A participant is not in the state that the transfer asks for.
    UnexpectedState(TabletId),
    /// The state was entered in the future.
    ClockWentBackwards,
    /// The transfer was aborted.
    Aborted(TransferId),
}

/// A tablet that takes part in a transfer.
#[derive(Debug)]
pub struct Participant {
    pub tablet_id: TabletId,
    pub metadata: TabletMetadata,
}

/// A tablet that a transfer makes.
#[derive(Debug)]
pub struct Destination {
    pub tablet_id: TabletId,
    pub range: Range<Vec<u8>>,
}

/// The tablets of participants.
pub open spec fn ids_of(s: Seq<Participant>) -> Seq<TabletId> {
    Seq::new(s.len(), |i: int| s[i].tablet_id)
}

/// The ranges of participants.
pub open spec fn ranges_of(s: Seq<Participant>) -> Seq<Range<Seq<u8>>> {
    Seq::new(s.len(), |i: int| s[i].metadata.range@)
}

/// What stands against a source.
pub open spec fn error_at(srcs: Seq<Participant>, i: int) -> Option<TransferError> {
    let (src, m) = (srcs[i].tablet_id, srcs[i].metadata);
    match m.transfer_id {
        Some(other) => Some(TransferError::AlreadyParticipating(src, other)),
        None => if m.state is Transitioning {
            Some(TransferError::SourceTransitioning(src))
        } else if i > 0 && srcs[i - 1].metadata.colo_group_id != m.colo_group_id {
            Some(
                TransferError::DifferentColoGroups(
                    srcs[i - 1].metadata.colo_group_id,
                    m.colo_group_id,
                ),
            )
        } else {
            None
        },
    }
}

/// What stands against the first source against which anything does.
pub open spec fn source_error(srcs: Seq<Participant>) -> Option<TransferError>
    decreases srcs.len(),
{
    if srcs.len() == 0 {
        None
    } else {
        match source_error(srcs.drop_last()) {
            Some(e) => Some(e),
            None => error_at(srcs, srcs.len() - 1),
        }
    }
}

/// What stands against a transfer.
pub open spec fn transfer_error(
    srcs: Seq<Participant>,
    dst_ranges: Seq<Range<Seq<u8>>>,
) -> Option<TransferError> {
    if !((srcs.len() == 1 && dst_ranges.len() >= 1) || (srcs.len() >= 1 && dst_ranges.len() == 1)) {
        Some(TransferError::NotOneToSome)
    } else if source_error(srcs) is Some {
        source_error(srcs)
    } else {
        match (joined(ranges_of(srcs)), joined(dst_ranges)) {
            (None, _) => Some(TransferError::SourcesNotContiguous),
            (Some(_), None) => Some(TransferError::DestinationsNotContiguous),
            (Some(src), Some(dst)) => if src != dst {
                Some(TransferError::DifferentRanges)
            } else {
                None
            },
        }
    }
}

/// The metadata of a source once a transfer started.
pub open spec fn joined_source(m: TabletMetadataView, id: TransferId) -> TabletMetadataView {
    TabletMetadataView { transfer_id: Some(id), ..m }
}

/// What starting a transfer writes: that each source takes part, each destination, and the
/// transfer.
pub open spec fn start_puts(
    id: TransferId,
    srcs: Seq<Participant>,
    dsts: Seq<(TabletId, Range<Seq<u8>>)>,
    now: u64,
) -> Seq<MetaPutView> {
    Seq::new(
        srcs.len(),
        |i: int|
            MetaPutView::Tablet(srcs[i].tablet_id, joined_source(srcs[i].metadata@, id)),
    ) + Seq::new(
        dsts.len(),
        |i: int|
            MetaPutView::Tablet(
                dsts[i].0,
                TabletMetadataView {
                    colo_group_id: srcs.last().metadata.colo_group_id,
                    range: dsts[i].1,
                    state: MetaState::Stable(TabletState::Hydrating),
                    transfer_id: Some(id),
                },
            ),
    ) + seq![
        MetaPutView::Transfer(
            id,
            TransferMetadataView {
                state: MetaState::Stable(TransferState::Copy),
                srcs: ids_of(srcs),
                dsts: Seq::new(dsts.len(), |i: int| dsts[i].0),
                timestamp: now,
            },
        ),
    ]
}

/// Destinations with keys as sequences.
pub open spec fn destinations(dsts: Seq<Destination>) -> Seq<(TabletId, Range<Seq<u8>>)> {
    Seq::new(dsts.len(), |i: int| (dsts[i].tablet_id, dsts[i].range@))
}

/// The range that a merge of tablets makes.
pub fn merged_range(srcs: &Vec<Participant>) -> (r: Result<Range<Vec<u8>>, TransferError>)
    ensures
        match r {
            Ok(range) => joined(ranges_of(srcs@)) == Some(range@),
            Err(e) => joined(ranges_of(srcs@)) is None && e == TransferError::SourcesNotContiguous,
        },
{
    let mut ranges: Vec<Range<Vec<u8>>> = Vec::new();
    let mut i: usize = 0;
    while i < srcs.len()
        invariant
            i <= srcs@.len(),
            views(ranges@) == ranges_of(srcs@).take(i as int),
            ranges@.len() == i,
        decreases srcs@.len() - i,
    {
        ranges.push(srcs[i].metadata.range.clone());
        i += 1;
        assert(views(ranges@) =~= ranges_of(srcs@).take(i as int));
    }
    assert(views(ranges@) =~= ranges_of(srcs@));
    match RangeSet::from_iter(ranges).contiguous() {
        Some(range) => Ok(range),
        None => Err(TransferError::SourcesNotContiguous),
    }
}

/// Checks whether a transfer may start.
pub fn check_transfer(srcs: &Vec<Participant>, dst_ranges: Vec<Range<Vec<u8>>>) -> (r: Result<
    (),
    TransferError,
>)
    ensures
        r == match transfer_error(srcs@, views(dst_ranges@)) {
            Some(e) => Err(e),
            None => Ok::<(), TransferError>(()),
        },
{
    if !((srcs.len() == 1 && dst_ranges.len() >= 1) || (srcs.len() >= 1 && dst_ranges.len() == 1)) {
        return Err(TransferError::NotOneToSome);
    }
    let mut i: usize = 0;
    while i < srcs.len()
        invariant
            i <= srcs@.len(),
            (srcs@.len() == 1 && dst_ranges@.len() >= 1) || (srcs@.len() >= 1 && dst_ranges@.len()
                == 1),
            source_error(srcs@.take(i as int)) is None,
        decreases srcs@.len() - i,
    {
        let src = &srcs[i];
        proof {
            assert(srcs@.take(i + 1).drop_last() =~= srcs@.take(i as int));
            assert(error_at(srcs@.take(i + 1), i as int) == error_at(srcs@, i as int));
        }
        if let Some(other) = src.metadata.transfer_id {
            proof {
                lemma_source_error(srcs@, i as int);
            }
            return Err(TransferError::AlreadyParticipating(src.tablet_id, other));
        }
        if let MetaState::Transitioning(_, _) = src.metadata.state {
            proof {
                lemma_source_error(srcs@, i as int);
            }
            return Err(TransferError::SourceTransitioning(src.tablet_id));
        }
        if i > 0 && srcs[i - 1].metadata.colo_group_id != src.metadata.colo_group_id {
            proof {
                lemma_source_error(srcs@, i as int);
            }
            return Err(
                TransferError::DifferentColoGroups(
                    srcs[i - 1].metadata.colo_group_id,
                    src.metadata.colo_group_id,
                ),
            );
        }
        i += 1;
    }
    assert(srcs@.take(i as int) =~= srcs@);
    let src_range = match merged_range(srcs) {
        Ok(range) => range,
        Err(e) => return Err(e),
    };
    let dst_range = match RangeSet::from_iter(dst_ranges).contiguous() {
        Some(range) => range,
        None => return Err(TransferError::DestinationsNotContiguous),
    };
    if !src_range.same(&dst_range) {
        return Err(TransferError::DifferentRanges);
    }
    Ok(())
}

proof fn lemma_source_error(srcs: Seq<Participant>, i: int)
    requires
        0 <= i < srcs.len(),
        source_error(srcs.take(i)) is None,
        error_at(srcs, i) is Some,
    ensures
        source_error(srcs) == error_at(srcs, i),
    decreases srcs.len(),
{
    let rest = srcs.drop_last();
    if i < srcs.len() - 1 {
        assert(rest.take(i) =~= srcs.take(i));
        assert(error_at(rest, i) == error_at(srcs, i));
        lemma_source_error(rest, i);
    } else {
        assert(rest =~= srcs.take(i));
    }
}

/// Starts a transfer: what to write to the metadata, where the transfer may start.
pub fn start_transfer(
    transfer_id: TransferId,
    srcs: &Vec<Participant>,
    dsts: &Vec<Destination>,
    now: u64,
) -> (r: Result<Vec<MetaPut>, TransferError>)
    ensures
        match r {
            Ok(puts) => {
                &&& transfer_error(
                    srcs@,
                    Seq::new(dsts@.len(), |i: int| dsts@[i].range@),
                ) is None
                &&& put_views(puts@) == start_puts(transfer_id, srcs@, destinations(dsts@), now)
            },
            Err(e) => transfer_error(srcs@, Seq::new(dsts@.len(), |i: int| dsts@[i].range@))
                == Some(e),
        },
{
    let ghost wanted = start_puts(transfer_id, srcs@, destinations(dsts@), now);
    let ghost dst_views = Seq::new(dsts@.len(), |i: int| dsts@[i].range@);
    let mut dst_ranges: Vec<Range<Vec<u8>>> = Vec::new();
    let mut i: usize = 0;
    while i < dsts.len()
        invariant
            i <= dsts@.len(),
            dst_views == Seq::new(dsts@.len(), |i: int| dsts@[i].range@),
            views(dst_ranges@) == dst_views.take(i as int),
            dst_ranges@.len() == i,
        decreases dsts@.len() - i,
    {
        dst_ranges.push(dsts[i].range.clone());
        i += 1;
        assert(views(dst_ranges@) =~= dst_views.take(i as int));
    }
    assert(views(dst_ranges@) =~= dst_views);
    if let Err(e) = check_transfer(srcs, dst_ranges) {
        return Err(e);
    }
    let mut puts: Vec<MetaPut> = Vec::new();
    let mut src_ids: Vec<TabletId> = Vec::new();
    let mut i: usize = 0;
    while i < srcs.len()
        invariant
            i <= srcs@.len(),
            wanted == start_puts(transfer_id, srcs@, destinations(dsts@), now),
            puts@.len() == i,
            put_views(puts@) == wanted.take(i as int),
            src_ids@ == ids_of(srcs@).take(i as int),
        decreases srcs@.len() - i,
    {
        let mut metadata = srcs[i].metadata.clone();
        metadata.transfer_id = Some(transfer_id);
        puts.push(MetaPut::Tablet(srcs[i].tablet_id, metadata));
        src_ids.push(srcs[i].tablet_id);
        i += 1;
        assert(put_views(puts@) =~= wanted.take(i as int));
        assert(src_ids@ =~= ids_of(srcs@).take(i as int));
    }
    assert(src_ids@ =~= ids_of(srcs@));
    let colo_group_id: ColoGroupId = srcs[srcs.len() - 1].metadata.colo_group_id;
    let ghost dst_id_views = Seq::new(dsts@.len(), |i: int| destinations(dsts@)[i].0);
    let mut dst_ids: Vec<TabletId> = Vec::new();
    let mut i: usize = 0;
    while i < dsts.len()
        invariant
            i <= dsts@.len(),
            wanted == start_puts(transfer_id, srcs@, destinations(dsts@), now),
            srcs@.len() > 0,
            colo_group_id == srcs@.last().metadata.colo_group_id,
            puts@.len() == srcs@.len() + i,
            put_views(puts@) == wanted.take(srcs@.len() + i),
            dst_id_views == Seq::new(dsts@.len(), |i: int| destinations(dsts@)[i].0),
            dst_ids@ == dst_id_views.take(i as int),
        decreases dsts@.len() - i,
    {
        puts.push(
            MetaPut::Tablet(
                dsts[i].tablet_id,
                TabletMetadata {
                    colo_group_id,
                    range: dsts[i].range.clone(),
                    state: MetaState::Stable(TabletState::Hydrating),
                    transfer_id: Some(transfer_id),
                },
            ),
        );
        dst_ids.push(dsts[i].tablet_id);
        i += 1;
        assert(put_views(puts@) =~= wanted.take(srcs@.len() + i));
        assert(dst_ids@ =~= dst_id_views.take(i as int));
    }
    assert(dst_ids@ =~= Seq::new(
        destinations(dsts@).len(),
        |i: int| destinations(dsts@)[i].0,
    ));
    let ghost prior = put_views(puts@);
    puts.push(
        MetaPut::Transfer(
            transfer_id,
            TransferMetadata {
                state: MetaState::Stable(TransferState::Copy),
                srcs: src_ids,
                dsts: dst_ids,
                timestamp: now,
            },
        ),
    );
    assert(put_views(puts@) =~= prior.push(wanted.last()));
    assert(prior =~= wanted.drop_last());
    assert(put_views(puts@) =~= wanted);
    Ok(puts)
}

/// The two ranges that a tablet is split into.
pub fn split_ranges(range: &Range<Vec<u8>>, at: &Bound<Vec<u8>>) -> (r: (
    Range<Vec<u8>>,
    Range<Vec<u8>>,
))
    ensures
        r.0@ == (Range { lower: range@.lower, upper: at@ }),
        r.1@ == (Range { lower: at@, upper: range@.upper }),
{
    range.split(at)
}

/// Whether a transfer is done: `None` while it goes on.
pub fn transfer_outcome(transfer_id: TransferId, metadata: &TransferMetadata) -> (r: Option<
    Result<(), TransferError>,
>)
    ensures
        r == match metadata.state {
            MetaState::Stable(TransferState::Complete) => Some(Ok::<(), TransferError>(())),
            MetaState::Stable(TransferState::Aborted) => Some(
                Err(TransferError::Aborted(transfer_id)),
            ),
            _ => None,
        },
{
    match metadata.state {
        MetaState::Stable(TransferState::Complete) => Some(Ok(())),
        MetaState::Stable(TransferState::Aborted) => Some(Err(TransferError::Aborted(transfer_id))),
        _ => None,
    }
}

/// What to do next for a transfer.
#[derive(Clone, Copy, Debug, PartialEq, Eq, Structural)]
pub enum TransferAction {
    /// Finish the transition that is under way.
    RollForward,
    /// Wait until the destinations have most of the data, then go on to catching up.
    AwaitMostlyHydrated,
    /// Wait until the destinations have all of the data, then hold their manifests against those of
    /// the sources.
    AwaitCatchup,
    /// Go on to a state.
    Transition(TransferState),
    /// Nothing: the transfer is over.
    Done,
}

/// What to do next, by the state and by how long the transfer has been in it, in nanoseconds.
pub open spec fn next_action(
    state: MetaState<TransferState>,
    time_in_state: Option<u64>,
) -> Result<TransferAction, TransferError> {
    match state {
        MetaState::Transitioning(_, _) => Ok(TransferAction::RollForward),
        MetaState::Stable(TransferState::Copy) => Ok(TransferAction::AwaitMostlyHydrated),
        MetaState::Stable(TransferState::Catchup) => match time_in_state {
            None => Err(TransferError::ClockWentBackwards),
            Some(t) => if t > CATCHUP_TIMEOUT_NANOS {
                Ok(TransferAction::Transition(TransferState::Aborted))
            } else {
                Ok(TransferAction::AwaitCatchup)
            },
        },
        MetaState::Stable(TransferState::Synced) => Ok(
            TransferAction::Transition(TransferState::Handoff),
        ),
        MetaState::Stable(TransferState::Handoff) => Ok(
            TransferAction::Transition(TransferState::Complete),
        ),
        MetaState::Stable(TransferState::Complete) => Ok(TransferAction::Done),
        MetaState::Stable(TransferState::Aborted) => Ok(TransferAction::Done),
    }
}

/// What to do next for a transfer. The time is missing where the clock says that the state was
/// entered in the future.
pub fn transfer_step(state: MetaState<TransferState>, time_in_state: Option<u64>) -> (r: Result<
    TransferAction,
    TransferError,
>)
    ensures
        r == next_action(state, time_in_state),
{
    match state {
        MetaState::Transitioning(_, _) => Ok(TransferAction::RollForward),
        MetaState::Stable(TransferState::Copy) => Ok(TransferAction::AwaitMostlyHydrated),
        MetaState::Stable(TransferState::Catchup) => match time_in_state {
            None => Err(TransferError::ClockWentBackwards),
            Some(t) => if t > CATCHUP_TIMEOUT_NANOS {
                Ok(TransferAction::Transition(TransferState::Aborted))
            } else {
                Ok(TransferAction::AwaitCatchup)
            },
        },
        MetaState::Stable(TransferState::Synced) => Ok(
            TransferAction::Transition(TransferState::Handoff),
        ),
        MetaState::Stable(TransferState::Handoff) => Ok(
            TransferAction::Transition(TransferState::Complete),
        ),
        MetaState::Stable(TransferState::Complete) => Ok(TransferAction::Done),
        MetaState::Stable(TransferState::Aborted) => Ok(TransferAction::Done),
    }
}

/// Where a transfer goes whose destinations have caught up: on, if they have the data of the
/// sources, and else back.
pub fn after_catchup(manifests_equal: bool) -> (r: TransferState)
    ensures
        r == if manifests_equal {
            TransferState::Synced
        } else {
            TransferState::Aborted
        },
{
    if manifests_equal {
        TransferState::Synced
    } else {
        TransferState::Aborted
    }
}

/// Every step that is taken on its own account is one that the state machine allows.
pub proof fn law_steps_are_allowed(state: TransferState, time_in_state: Option<u64>, equal: bool)
    ensures
        next_action(MetaState::Stable(state), time_in_state) matches Ok(TransferAction::Transition(
            next,
        )) ==> state.leads_to(next),
        next_action(MetaState::Stable(state), time_in_state) == Ok::<_, TransferError>(
            TransferAction::AwaitMostlyHydrated,
        ) ==> state.leads_to(TransferState::Catchup),
        next_action(MetaState::Stable(state), time_in_state) == Ok::<_, TransferError>(
            TransferAction::AwaitCatchup,
        ) ==> state.leads_to(TransferState::Synced) && state.leads_to(TransferState::Aborted),
        next_action(MetaState::Stable(state), time_in_state) == Ok::<_, TransferError>(
            TransferAction::Done,
        ) ==> forall|next: TransferState| !state.leads_to(next),
{
}

/// What a transition writes of some participants: that they are on their way, unless they are there
/// already.
pub open spec fn transition_puts(s: Seq<Participant>, next: TabletState) -> Seq<MetaPutView>
    decreases s.len(),
{
    if s.len() == 0 {
        Seq::empty()
    } else {
        let (id, m) = (s.last().tablet_id, s.last().metadata@);
        let before = transition_puts(s.drop_last(), next);
        match m.state {
            MetaState::Stable(curr) if curr != next => before.push(
                MetaPutView::Tablet(
                    id,
                    TabletMetadataView { state: MetaState::Transitioning(curr, next), ..m },
                ),
            ),
            _ => before,
        }
    }
}

/// The first participant that is between two states.
pub open spec fn first_transitioning(s: Seq<Participant>) -> Option<TabletId>
    decreases s.len(),
{
    if s.len() == 0 {
        None
    } else {
        match first_transitioning(s.drop_last()) {
            Some(id) => Some(id),
            None => if s.last().metadata.state is Transitioning {
                Some(s.last().tablet_id)
            } else {
                None
            },
        }
    }
}

fn transition_participants(
    participants: &Vec<Participant>,
    next: TabletState,
    puts: &mut Vec<MetaPut>,
) -> (r: Result<(), TransferError>)
    ensures
        match first_transitioning(participants@) {
            Some(id) => r == Err::<(), _>(TransferError::ParticipantTransitioning(id)),
            None => r is Ok && put_views(final(puts)@) == put_views(old(puts)@) + transition_puts(
                participants@,
                next,
            ),
        },
{
    let ghost before = put_views(puts@);
    let mut i: usize = 0;
    assert(participants@.take(0) =~= Seq::empty());
    assert(before =~= before + Seq::empty());
    while i < participants.len()
        invariant
            i <= participants@.len(),
            first_transitioning(participants@.take(i as int)) is None,
            put_views(puts@) == before + transition_puts(participants@.take(i as int), next),
        decreases participants@.len() - i,
    {
        let p = &participants[i];
        let ghost prior = put_views(puts@);
        proof {
            assert(participants@.take(i + 1).drop_last() =~= participants@.take(i as int));
            assert(participants@.take(i + 1).last() == participants@[i as int]);
        }
        match p.metadata.state {
            MetaState::Stable(curr) => {
                if curr != next {
                    let mut metadata = p.metadata.clone();
                    metadata.state = MetaState::Transitioning(curr, next);
                    let ghost view = metadata@;
                    puts.push(MetaPut::Tablet(p.tablet_id, metadata));
                    assert(put_views(puts@) =~= prior.push(MetaPutView::Tablet(p.tablet_id, view)));
                    assert(put_views(puts@) =~= before + transition_puts(
                        participants@.take(i + 1),
                        next,
                    ));
                }
            },
            MetaState::Transitioning(_, _) => {
                proof {
                    lemma_first_transitioning(participants@, i as int);
                }
                return Err(TransferError::ParticipantTransitioning(p.tablet_id));
            },
        }
        i += 1;
    }
    assert(participants@.take(i as int) =~= participants@);
    Ok(())
}

proof fn lemma_first_transitioning(s: Seq<Participant>, i: int)
    requires
        0 <= i < s.len(),
        first_transitioning(s.take(i)) is None,
        s[i].metadata.state is Transitioning,
    ensures
        first_transitioning(s) == Some(s[i].tablet_id),
    decreases s.len(),
{
    let rest = s.drop_last();
    if i < s.len() - 1 {
        assert(rest.take(i) =~= s.take(i));
        lemma_first_transitioning(rest, i);
    } else {
        assert(rest =~= s.take(i));
    }
}

/// What beginning a transition writes, or what stands against it.
pub open spec fn transition_result(
    id: TransferId,
    transfer: TransferMetadataView,
    next: TransferState,
    srcs: Seq<Participant>,
    dsts: Seq<Participant>,
    now: u64,
) -> Result<Seq<MetaPutView>, TransferError> {
    match transfer.state {
        MetaState::Transitioning(c, n) => Err(TransferError::AlreadyTransitioning(c, n)),
        MetaState::Stable(curr) => if !curr.leads_to(next) {
            Err(TransferError::NotAllowed(curr, next))
        } else {
            match (first_transitioning(srcs), first_transitioning(dsts)) {
                (Some(t), _) => Err(TransferError::ParticipantTransitioning(t)),
                (None, Some(t)) => Err(TransferError::ParticipantTransitioning(t)),
                (None, None) => Ok(
                    seq![
                        MetaPutView::Transfer(
                            id,
                            TransferMetadataView {
                                state: MetaState::Transitioning(curr, next),
                                timestamp: now,
                                ..transfer
                            },
                        ),
                    ] + transition_puts(srcs, next.tablet_states().0) + transition_puts(
                        dsts,
                        next.tablet_states().1,
                    ),
                ),
            }
        },
    }
}

/// Begins a transition: what to write to the metadata.
pub fn transition_transfer(
    transfer_id: TransferId,
    transfer: &TransferMetadata,
    next_state: TransferState,
    srcs: &Vec<Participant>,
    dsts: &Vec<Participant>,
    now: u64,
) -> (r: Result<Vec<MetaPut>, TransferError>)
    ensures
        match r {
            Ok(puts) => transition_result(transfer_id, transfer@, next_state, srcs@, dsts@, now)
                == Ok::<_, TransferError>(put_views(puts@)),
            Err(e) => transition_result(transfer_id, transfer@, next_state, srcs@, dsts@, now)
                == Err::<Seq<MetaPutView>, _>(e),
        },
{
    let curr_state = match transfer.state {
        MetaState::Stable(curr) => curr,
        MetaState::Transitioning(curr, next) => {
            return Err(TransferError::AlreadyTransitioning(curr, next));
        },
    };
    if !curr_state.can_transition(next_state) {
        return Err(TransferError::NotAllowed(curr_state, next_state));
    }
    let (srcs_next, dsts_next) = next_state.tablet_states();
    let mut next_transfer = transfer.clone();
    next_transfer.state = MetaState::Transitioning(curr_state, next_state);
    next_transfer.timestamp = now;
    let ghost head = MetaPutView::Transfer(transfer_id, next_transfer@);
    let mut puts: Vec<MetaPut> = Vec::new();
    puts.push(MetaPut::Transfer(transfer_id, next_transfer));
    assert(put_views(puts@) =~= seq![head]);
    if let Err(e) = transition_participants(srcs, srcs_next, &mut puts) {
        return Err(e);
    }
    if let Err(e) = transition_participants(dsts, dsts_next, &mut puts) {
        return Err(e);
    }
    Ok(puts)
}

/// The state that a participant is in while a transfer goes from one state to another.
pub open spec fn expected_state(curr: TabletState, next: TabletState) -> MetaState<TabletState> {
    if curr == next {
        MetaState::Stable(curr)
    } else {
        MetaState::Transitioning(curr, next)
    }
}

/// The first participant that is not in an expected state.
pub open spec fn first_unexpected(s: Seq<Participant>, expected: MetaState<TabletState>) -> Option<
    TabletId,
>
    decreases s.len(),
{
    if s.len() == 0 {
        None
    } else {
        match first_unexpected(s.drop_last(), expected) {
            Some(id) => Some(id),
            None => if s.last().metadata.state != expected {
                Some(s.last().tablet_id)
            } else {
                None
            },
        }
    }
}

/// What finishing a transition writes of participants that are on their way: that they are there.
pub open spec fn finished_puts(s: Seq<Participant>, expected: MetaState<TabletState>) -> Seq<
    MetaPutView,
> {
    match expected {
        MetaState::Stable(_) => Seq::empty(),
        MetaState::Transitioning(_, next) => Seq::new(
            s.len(),
            |i: int|
                MetaPutView::Tablet(
                    s[i].tablet_id,
                    TabletMetadataView { state: MetaState::Stable(next), ..s[i].metadata@ },
                ),
        ),
    }
}

/// The participants that have to know that they are on their way.
pub open spec fn finished_waits(s: Seq<Participant>, expected: MetaState<TabletState>) -> Seq<
    TabletId,
> {
    match expected {
        MetaState::Stable(_) => Seq::empty(),
        MetaState::Transitioning(_, _) => ids_of(s),
    }
}

/// How a transition is finished.
#[derive(Debug)]
pub struct RollForward {
    /// The tablets that have to know of the transition before anything is written.
    pub wait_for: Vec<TabletId>,
    /// What to write to the metadata then.
    pub puts: Vec<MetaPut>,
}

fn finish_participants(
    participants: &Vec<Participant>,
    expected: MetaState<TabletState>,
    plan: &mut RollForward,
) -> (r: Result<(), TransferError>)
    ensures
        match first_unexpected(participants@, expected) {
            Some(id) => r == Err::<(), _>(TransferError::UnexpectedState(id)),
            None => {
                &&& r is Ok
                &&& put_views(final(plan).puts@) == put_views(old(plan).puts@) + finished_puts(
                    participants@,
                    expected,
                )
                &&& final(plan).wait_for@ == old(plan).wait_for@ + finished_waits(
                    participants@,
                    expected,
                )
            },
        },
{
    let ghost puts = put_views(plan.puts@);
    let ghost waits = plan.wait_for@;
    let ghost all = finished_puts(participants@, expected);
    let ghost ids = finished_waits(participants@, expected);
    let mut i: usize = 0;
    assert(participants@.take(0) =~= Seq::empty());
    assert(puts =~= puts + all.take(0));
    assert(waits =~= waits + ids.take(0));
    while i < participants.len()
        invariant
            i <= participants@.len(),
            first_unexpected(participants@.take(i as int), expected) is None,
            all == finished_puts(participants@, expected),
            ids == finished_waits(participants@, expected),
            expected is Stable ==> put_views(plan.puts@) == puts && plan.wait_for@ == waits,
            expected is Transitioning ==> put_views(plan.puts@) == puts + all.take(i as int)
                && plan.wait_for@ == waits + ids.take(i as int),
        decreases participants@.len() - i,
    {
        let p = &participants[i];
        let ghost prior = put_views(plan.puts@);
        proof {
            assert(participants@.take(i + 1).drop_last() =~= participants@.take(i as int));
            assert(participants@.take(i + 1).last() == participants@[i as int]);
        }
        if p.metadata.state != expected {
            proof {
                lemma_first_unexpected(participants@, i as int, expected);
            }
            return Err(TransferError::UnexpectedState(p.tablet_id));
        }
        if let MetaState::Transitioning(_, next) = p.metadata.state {
            plan.wait_for.push(p.tablet_id);
            let mut metadata = p.metadata.clone();
            metadata.state = MetaState::Stable(next);
            let ghost view = metadata@;
            plan.puts.push(MetaPut::Tablet(p.tablet_id, metadata));
            assert(put_views(plan.puts@) =~= prior.push(MetaPutView::Tablet(p.tablet_id, view)));
            assert(put_views(plan.puts@) =~= puts + all.take(i + 1));
            assert(plan.wait_for@ =~= waits + ids.take(i + 1));
        }
        i += 1;
    }
    assert(participants@.take(i as int) =~= participants@);
    if let MetaState::Transitioning(_, _) = expected {
        assert(all.take(i as int) =~= all);
        assert(ids.take(i as int) =~= ids);
    } else {
        assert(puts =~= puts + all);
        assert(waits =~= waits + ids);
    }
    Ok(())
}

proof fn lemma_first_unexpected(s: Seq<Participant>, i: int, expected: MetaState<TabletState>)
    requires
        0 <= i < s.len(),
        first_unexpected(s.take(i), expected) is None,
        s[i].metadata.state != expected,
    ensures
        first_unexpected(s, expected) == Some(s[i].tablet_id),
    decreases s.len(),
{
    let rest = s.drop_last();
    if i < s.len() - 1 {
        assert(rest.take(i) =~= s.take(i));
        lemma_first_unexpected(rest, i, expected);
    } else {
        assert(rest =~= s.take(i));
    }
}

/// How a transition is finished, or what stands against it: the tablets to wait for, and what to
/// write then. Nothing is left to do where no transition is under way.
pub open spec fn roll_forward_result(
    id: TransferId,
    transfer: TransferMetadataView,
    srcs: Seq<Participant>,
    dsts: Seq<Participant>,
) -> Result<Option<(Seq<TabletId>, Seq<MetaPutView>)>, TransferError> {
    match transfer.state {
        MetaState::Stable(_) => Ok(None),
        MetaState::Transitioning(curr, next) => {
            let s = expected_state(curr.tablet_states().0, next.tablet_states().0);
            let d = expected_state(curr.tablet_states().1, next.tablet_states().1);
            match (first_unexpected(srcs, s), first_unexpected(dsts, d)) {
                (Some(t), _) => Err(TransferError::UnexpectedState(t)),
                (None, Some(t)) => Err(TransferError::UnexpectedState(t)),
                (None, None) => Ok(
                    Some(
                        (
                            finished_waits(srcs, s) + finished_waits(dsts, d),
                            seq![
                                MetaPutView::Transfer(
                                    id,
                                    TransferMetadataView {
                                        state: MetaState::Stable(next),
                                        ..transfer
                                    },
                                ),
                            ] + finished_puts(srcs, s) + finished_puts(dsts, d),
                        ),
                    ),
                ),
            }
        },
    }
}

fn expect(curr: TabletState, next: TabletState) -> (r: MetaState<TabletState>)
    ensures
        r == expected_state(curr, next),
{
    if curr == next {
        MetaState::Stable(curr)
    } else {
        MetaState::Transitioning(curr, next)
    }
}

/// Finishes a transition that is under way.
pub fn roll_transition_forward(
    transfer_id: TransferId,
    transfer: &TransferMetadata,
    srcs: &Vec<Participant>,
    dsts: &Vec<Participant>,
) -> (r: Result<Option<RollForward>, TransferError>)
    ensures
        match r {
            Ok(None) => roll_forward_result(transfer_id, transfer@, srcs@, dsts@) == Ok::<
                Option<(Seq<TabletId>, Seq<MetaPutView>)>,
                TransferError,
            >(None),
            Ok(Some(plan)) => roll_forward_result(transfer_id, transfer@, srcs@, dsts@) == Ok::<
                _,
                TransferError,
            >(Some((plan.wait_for@, put_views(plan.puts@)))),
            Err(e) => roll_forward_result(transfer_id, transfer@, srcs@, dsts@) == Err::<
                Option<(Seq<TabletId>, Seq<MetaPutView>)>,
                _,
            >(e),
        },
{
    let (curr_state, next_state) = match transfer.state {
        MetaState::Stable(_) => return Ok(None),
        MetaState::Transitioning(curr, next) => (curr, next),
    };
    let mut next_transfer = transfer.clone();
    next_transfer.state = MetaState::Stable(next_state);
    let ghost head = MetaPutView::Transfer(transfer_id, next_transfer@);
    let mut plan = RollForward { wait_for: Vec::new(), puts: Vec::new() };
    plan.puts.push(MetaPut::Transfer(transfer_id, next_transfer));
    assert(put_views(plan.puts@) =~= seq![head]);
    let (curr_srcs, curr_dsts) = curr_state.tablet_states();
    let (next_srcs, next_dsts) = next_state.tablet_states();
    let srcs_expected = expect(curr_srcs, next_srcs);
    let dsts_expected = expect(curr_dsts, next_dsts);
    if let Err(e) = finish_participants(srcs, srcs_expected, &mut plan) {
        return Err(e);
    }
    let ghost waits = plan.wait_for@;
    assert(waits =~= finished_waits(srcs@, srcs_expected));
    if let Err(e) = finish_participants(dsts, dsts_expected, &mut plan) {
        return Err(e);
    }
    Ok(Some(plan))
}

/// What is known of a tablet once puts were written.
pub open spec fn after_puts(
    puts: Seq<MetaPutView>,
    id: TabletId,
    m: TabletMetadataView,
) -> TabletMetadataView
    decreases puts.len(),
{
    if puts.len() == 0 {
        m
    } else {
        match puts.last() {
            MetaPutView::Tablet(t, n) if t == id => n,
            _ => after_puts(puts.drop_last(), id, m),
        }
    }
}

/// Whether no tablet takes part twice.
pub open spec fn distinct_ids(s: Seq<Participant>) -> bool {
    forall|i: int, j: int|
        0 <= i < j < s.len() ==> (#[trigger] s[i]).tablet_id != (#[trigger] s[j]).tablet_id
}

/// A transition that begins with a participant in the state before leaves it on its way, or there
/// already: in the state that finishing the transition expects.
pub proof fn law_transition_leaves_expected(
    s: Seq<Participant>,
    curr: TabletState,
    next: TabletState,
    i: int,
)
    requires
        distinct_ids(s),
        0 <= i < s.len(),
        s[i].metadata.state == MetaState::Stable(curr),
    ensures
        after_puts(
            transition_puts(s, next),
            s[i].tablet_id,
            s[i].metadata@,
        ).state == expected_state(curr, next),
    decreases s.len(),
{
    let rest = s.drop_last();
    let puts = transition_puts(s, next);
    let before = transition_puts(rest, next);
    if i < s.len() - 1 {
        law_transition_leaves_expected(rest, curr, next, i);
        assert(s[i].tablet_id != s[s.len() - 1].tablet_id);
        if puts.len() > before.len() {
            assert(puts.drop_last() =~= before);
        }
    } else {
        lemma_untouched_by_puts(rest, next, s[i].tablet_id, s[i].metadata@);
        if puts.len() > before.len() {
            assert(puts.drop_last() =~= before);
        }
    }
}

proof fn lemma_untouched_by_puts(
    s: Seq<Participant>,
    next: TabletState,
    id: TabletId,
    m: TabletMetadataView,
)
    requires
        forall|i: int| 0 <= i < s.len() ==> (#[trigger] s[i]).tablet_id != id,
    ensures
        after_puts(transition_puts(s, next), id, m) == m,
    decreases s.len(),
{
    if s.len() > 0 {
        let rest = s.drop_last();
        lemma_untouched_by_puts(rest, next, id, m);
        let puts = transition_puts(s, next);
        let before = transition_puts(rest, next);
        assert(s[s.len() - 1].tablet_id != id);
        if puts.len() > before.len() {
            assert(puts.drop_last() =~= before);
        }
    }
}

/// Finishing a transition leaves each participant that was on its way in the state after, and moves
/// no other.
pub proof fn law_finish_leaves_stable(
    s: Seq<Participant>,
    curr: TabletState,
    next: TabletState,
    i: int,
)
    requires
        distinct_ids(s),
        0 <= i < s.len(),
        s[i].metadata.state == expected_state(curr, next),
    ensures
        after_puts(
            finished_puts(s, expected_state(curr, next)),
            s[i].tablet_id,
            s[i].metadata@,
        ).state == MetaState::Stable(next),
{
    if curr != next {
        lemma_finish(s, curr, next, i, s.len() as int);
        let puts = finished_puts(s, expected_state(curr, next));
        assert(puts.take(s.len() as int) =~= puts);
    }
}

proof fn lemma_finish(s: Seq<Participant>, curr: TabletState, next: TabletState, i: int, n: int)
    requires
        distinct_ids(s),
        0 <= i < n <= s.len(),
        curr != next,
    ensures
        after_puts(
            finished_puts(s, expected_state(curr, next)).take(n),
            s[i].tablet_id,
            s[i].metadata@,
        ).state == MetaState::Stable(next),
    decreases n,
{
    let puts = finished_puts(s, expected_state(curr, next));
    assert(puts.take(n).drop_last() =~= puts.take(n - 1));
    if i < n - 1 {
        lemma_finish(s, curr, next, i, n - 1);
        assert(s[i].tablet_id != s[n - 1].tablet_id);
    }
}

} // verus!
