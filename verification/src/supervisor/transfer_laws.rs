//! What a transfer does to the tablets that take part in it, step by step.

use vstd::prelude::*;

use super::transfer::{
    after_puts, destinations, distinct_ids, error_at, expected_state, finished_puts,
    finished_waits, first_transitioning, first_unexpected, next_action, ranges_of,
    roll_forward_result, source_error, start_puts, transfer_error, transition_puts,
    transition_result, Destination, Participant, TransferAction, TransferError,
};
use crate::meta::{
    MetaPutView, MetaState, TabletMetadataView, TabletState, TransferId, TransferMetadataView,
    TransferState,
};
use crate::range::join_laws::law_joined;
use crate::range::range_set::{covers, joined, law_set_has_key};
use crate::range::{Bound, Range};
use crate::types::TabletId;
use crate::util::select::{lemma_picks_push, picks};

verus! {

/// A transfer passes through its states one by one, and is aborted only while it catches up.
pub proof fn law_transfer_course(a: TransferState, b: TransferState)
    requires
        a.leads_to(b),
    ensures
        match b {
            TransferState::Copy => false,
            TransferState::Catchup => a == TransferState::Copy,
            TransferState::Synced => a == TransferState::Catchup,
            TransferState::Handoff => a == TransferState::Synced,
            TransferState::Complete => a == TransferState::Handoff,
            TransferState::Aborted => a == TransferState::Catchup,
        },
{
}

/// The sources serve at first as if there were no transfer, and again where it is aborted; the
/// destinations serve in their place where it is complete, and the others serve nothing then.
pub proof fn law_transfer_ends(s: TransferState)
    ensures
        s == TransferState::Copy ==> s.tablet_states().0 == TabletState::Active
            && s.tablet_states().1 == TabletState::Hydrating,
        s == TransferState::Complete ==> s.tablet_states().0 == TabletState::Defunct
            && s.tablet_states().1 == TabletState::Active,
        s == TransferState::Aborted ==> s.tablet_states().0 == TabletState::Active
            && s.tablet_states().1 == TabletState::Defunct,
        s.tablet_states().0 == TabletState::Active || s.tablet_states().1 == TabletState::Active
            <==> s == TransferState::Copy || s == TransferState::Complete || s
            == TransferState::Aborted,
        s.tablet_states().0 != TabletState::Hydrating,
{
}

/// Whether nothing stands against a source: it takes part in no transfer, is between no states, and
/// is of the same group as the others.
pub open spec fn free_source(srcs: Seq<Participant>, i: int) -> bool {
    &&& srcs[i].metadata.transfer_id is None
    &&& srcs[i].metadata.state is Stable
    &&& i > 0 ==> srcs[i].metadata.colo_group_id == srcs[i - 1].metadata.colo_group_id
}

proof fn lemma_source_error_exact(srcs: Seq<Participant>)
    ensures
        source_error(srcs) is None <==> forall|i: int|
            0 <= i < srcs.len() ==> #[trigger] free_source(srcs, i),
        source_error(srcs) matches Some(e) ==> exists|i: int|
            {
                &&& 0 <= i < srcs.len()
                &&& !(#[trigger] free_source(srcs, i))
                &&& error_at(srcs, i) == Some(e)
                &&& forall|j: int| 0 <= j < i ==> #[trigger] free_source(srcs, j)
            },
    decreases srcs.len(),
{
    if srcs.len() > 0 {
        let rest = srcs.drop_last();
        let n = rest.len() as int;
        lemma_source_error_exact(rest);
        assert forall|i: int| 0 <= i < n implies #[trigger] free_source(srcs, i) == free_source(
            rest,
            i,
        ) && error_at(srcs, i) == error_at(rest, i) by {
            assert(rest[i] == srcs[i]);
            if i > 0 {
                assert(rest[i - 1] == srcs[i - 1]);
            }
        }
        match source_error(rest) {
            Some(e) => {
                let i = choose|i: int|
                    {
                        &&& 0 <= i < rest.len()
                        &&& !(#[trigger] free_source(rest, i))
                        &&& error_at(rest, i) == Some(e)
                        &&& forall|j: int| 0 <= j < i ==> #[trigger] free_source(rest, j)
                    };
                assert(!free_source(srcs, i));
                assert forall|j: int| 0 <= j < i implies #[trigger] free_source(srcs, j) by {
                    assert(free_source(rest, j));
                }
            },
            None => {
                assert forall|j: int| 0 <= j < n implies #[trigger] free_source(srcs, j) by {
                    assert(free_source(rest, j));
                }
                assert(free_source(srcs, n) <==> error_at(srcs, n) is None);
            },
        }
    }
}

/// A transfer starts only from one tablet to some or from some to one, where each source is free and
/// they are all of one group, and where the destinations own exactly the keys of the sources. Where
/// all that holds and each side makes one range, it does start.
pub proof fn law_transfer_starts(
    srcs: Seq<Participant>,
    dsts: Seq<Range<Seq<u8>>>,
    k: Seq<u8>,
    i: int,
    j: int,
)
    requires
        transfer_error(srcs, dsts) is None,
        0 <= i < srcs.len(),
        0 <= j < srcs.len(),
    ensures
        srcs.len() == 1 || dsts.len() == 1,
        srcs.len() >= 1 && dsts.len() >= 1,
        srcs[i].metadata.transfer_id is None,
        srcs[i].metadata.state is Stable,
        srcs[i].metadata.colo_group_id == srcs[j].metadata.colo_group_id,
        (exists|a: int| 0 <= a < srcs.len() && (#[trigger] srcs[a]).metadata.range@.has(k))
            <==> (exists|b: int| 0 <= b < dsts.len() && (#[trigger] dsts[b]).has(k)),
{
    lemma_source_error_exact(srcs);
    assert(free_source(srcs, i) && free_source(srcs, j));
    lemma_same_group(srcs, i);
    lemma_same_group(srcs, j);
    let rs = ranges_of(srcs);
    law_joined(rs, rs[0]);
    law_joined(dsts, rs[0]);
    let r = joined(rs)->0;
    let b = Bound::Before(k);
    assert(covers(rs, b) == r.covers(b));
    assert(covers(dsts, b) == r.covers(b));
    law_set_has_key(rs, k);
    law_set_has_key(dsts, k);
    if exists|a: int| 0 <= a < srcs.len() && (#[trigger] srcs[a]).metadata.range@.has(k) {
        let a = choose|a: int| 0 <= a < srcs.len() && (#[trigger] srcs[a]).metadata.range@.has(k);
        assert(rs[a].has(k));
    }
    if crate::range::range_set::has(rs, k) {
        let a = choose|a: int| 0 <= a < rs.len() && (#[trigger] rs[a]).has(k);
        assert(srcs[a].metadata.range@.has(k));
    }
}

proof fn lemma_same_group(srcs: Seq<Participant>, i: int)
    requires
        forall|a: int| 0 <= a < srcs.len() ==> #[trigger] free_source(srcs, a),
        0 <= i < srcs.len(),
    ensures
        srcs[i].metadata.colo_group_id == srcs[0].metadata.colo_group_id,
    decreases i,
{
    if i > 0 {
        lemma_same_group(srcs, i - 1);
        assert(free_source(srcs, i));
    }
}

/// What stands against a transfer is told: how many take part first, then the first source that is
/// not free, then that a side makes no range, and last that the sides make different ones.
pub proof fn law_transfer_refused(
    srcs: Seq<Participant>,
    dsts: Seq<Range<Seq<u8>>>,
    e: TransferError,
)
    requires
        transfer_error(srcs, dsts) == Some(e),
    ensures
        ({
            let count_ok = (srcs.len() == 1 && dsts.len() >= 1) || (srcs.len() >= 1 && dsts.len()
                == 1);
            let free = forall|i: int| 0 <= i < srcs.len() ==> #[trigger] free_source(srcs, i);
            match e {
                TransferError::NotOneToSome => !count_ok,
                TransferError::AlreadyParticipating(t, other) => count_ok && exists|i: int|
                    0 <= i < srcs.len() && (#[trigger] srcs[i]).tablet_id == t
                        && srcs[i].metadata.transfer_id == Some(other),
                TransferError::SourceTransitioning(t) => count_ok && exists|i: int|
                    0 <= i < srcs.len() && (#[trigger] srcs[i]).tablet_id == t
                        && srcs[i].metadata.state is Transitioning,
                TransferError::DifferentColoGroups(a, b) => count_ok && a != b && exists|i: int|
                    0 < i < srcs.len() && a == srcs[i - 1].metadata.colo_group_id && b == (
                    #[trigger] srcs[i]).metadata.colo_group_id,
                TransferError::SourcesNotContiguous => count_ok && free && joined(
                    ranges_of(srcs),
                ) is None,
                TransferError::DestinationsNotContiguous => count_ok && free && joined(dsts) is None
                    && joined(ranges_of(srcs)) is Some,
                TransferError::DifferentRanges => count_ok && free && joined(dsts) is Some && joined(
                    ranges_of(srcs),
                ) is Some && joined(dsts) != joined(ranges_of(srcs)),
                _ => false,
            }
        }),
{
    lemma_source_error_exact(srcs);
    if let Some(e2) = source_error(srcs) {
        let i = choose|i: int|
            {
                &&& 0 <= i < srcs.len()
                &&& !(#[trigger] free_source(srcs, i))
                &&& error_at(srcs, i) == Some(e2)
                &&& forall|j: int| 0 <= j < i ==> #[trigger] free_source(srcs, j)
            };
        assert(srcs[i].tablet_id == srcs[i].tablet_id);
    }
}

/// Starting a transfer notes it with each source and leaves the rest of the source as it is, makes
/// each destination as a tablet that copies, in the group of the sources, and writes down who takes
/// part.
pub proof fn law_start_writes(
    id: TransferId,
    srcs: Seq<Participant>,
    dsts: Seq<Destination>,
    now: u64,
)
    requires
        transfer_error(srcs, Seq::new(dsts.len(), |i: int| dsts[i].range@)) is None,
    ensures
        ({
            let puts = start_puts(id, srcs, destinations(dsts), now);
            let n = srcs.len() as int;
            &&& puts.len() == srcs.len() + dsts.len() + 1
            &&& forall|i: int|
                0 <= i < n ==> (#[trigger] puts[i] matches MetaPutView::Tablet(t, m) && t
                    == srcs[i].tablet_id && m.transfer_id == Some(id) && m.colo_group_id
                    == srcs[i].metadata.colo_group_id && m.range == srcs[i].metadata.range@
                    && m.state == srcs[i].metadata.state)
            &&& forall|i: int|
                n <= i < n + dsts.len() ==> (#[trigger] puts[i] matches MetaPutView::Tablet(t, m)
                    && t == dsts[i - n].tablet_id && m.transfer_id == Some(id) && m.range
                    == dsts[i - n].range@ && m.state == MetaState::Stable(TabletState::Hydrating)
                    && forall|j: int|
                    0 <= j < n ==> m.colo_group_id == (
                    #[trigger] srcs[j]).metadata.colo_group_id)
            &&& puts.last() matches MetaPutView::Transfer(t, m) && t == id && m.state
                == MetaState::Stable(TransferState::Copy) && m.timestamp == now && m.srcs.len() == n
                && m.dsts.len() == dsts.len() && (forall|i: int|
                0 <= i < n ==> #[trigger] m.srcs[i] == srcs[i].tablet_id) && (forall|i: int|
                0 <= i < dsts.len() ==> #[trigger] m.dsts[i] == dsts[i].tablet_id)
        }),
{
    let puts = start_puts(id, srcs, destinations(dsts), now);
    let n = srcs.len() as int;
    lemma_source_error_exact(srcs);
    assert forall|i: int| n <= i < n + dsts.len() implies (#[trigger] puts[i]
        matches MetaPutView::Tablet(t, m) && t == dsts[i - n].tablet_id && m.transfer_id == Some(id)
        && m.range == dsts[i - n].range@ && m.state == MetaState::Stable(TabletState::Hydrating)
        && forall|j: int|
        0 <= j < n ==> m.colo_group_id == (#[trigger] srcs[j]).metadata.colo_group_id) by {
        assert forall|j: int| 0 <= j < n implies srcs.last().metadata.colo_group_id == (
        #[trigger] srcs[j]).metadata.colo_group_id by {
            lemma_same_group(srcs, j);
            lemma_same_group(srcs, n - 1);
        }
    }
}

/// A transfer on its way between two states is finished first; one that copies waits for most of the
/// data; one that catches up waits for all of it, or is aborted once that takes too long; one that
/// has all goes on; and one that is over is left alone.
pub proof fn law_next_action(state: MetaState<TransferState>, time_in_state: Option<u64>)
    ensures
        match next_action(state, time_in_state) {
            Ok(TransferAction::RollForward) => state is Transitioning,
            Ok(TransferAction::AwaitMostlyHydrated) => state == MetaState::Stable(
                TransferState::Copy,
            ),
            Ok(TransferAction::AwaitCatchup) => state == MetaState::Stable(TransferState::Catchup)
                && (time_in_state matches Some(t) && t <= 30_000_000_000),
            Ok(TransferAction::Transition(TransferState::Aborted)) => state == MetaState::Stable(
                TransferState::Catchup,
            ) && (time_in_state matches Some(t) && t > 30_000_000_000),
            Ok(TransferAction::Transition(TransferState::Handoff)) => state == MetaState::Stable(
                TransferState::Synced,
            ),
            Ok(TransferAction::Transition(TransferState::Complete)) => state == MetaState::Stable(
                TransferState::Handoff,
            ),
            Ok(TransferAction::Transition(_)) => false,
            Ok(TransferAction::Done) => state == MetaState::Stable(TransferState::Complete) || state
                == MetaState::Stable(TransferState::Aborted),
            Err(e) => e == TransferError::ClockWentBackwards && state == MetaState::Stable(
                TransferState::Catchup,
            ) && time_in_state is None,
        },
{
}

proof fn lemma_untouched(
    s: Seq<Participant>,
    next: TabletState,
    id: TabletId,
    m: TabletMetadataView,
)
    requires
        forall|i: int| 0 <= i < s.len() ==> (#[trigger] s[i]).tablet_id != id,
    ensures
        after_puts(transition_puts(s, next), id, m) == m,
    decreases s.len(),
{
    if s.len() > 0 {
        let rest = s.drop_last();
        assert forall|i: int| 0 <= i < rest.len() implies (#[trigger] rest[i]).tablet_id != id by {
            assert(s[i] == rest[i]);
        }
        lemma_untouched(rest, next, id, m);
        assert(s[s.len() - 1].tablet_id != id);
        let puts = transition_puts(s, next);
        if puts.len() > transition_puts(rest, next).len() {
            assert(puts.drop_last() =~= transition_puts(rest, next));
        }
    }
}

/// Beginning a transition sends each participant on its way, from where it is to where it should be,
/// unless it is there already, and changes nothing else of it.
pub proof fn law_transition_moves_each(
    s: Seq<Participant>,
    curr: TabletState,
    next: TabletState,
    i: int,
)
    requires
        distinct_ids(s),
        0 <= i < s.len(),
        s[i].metadata.state == MetaState::Stable(curr),
    ensures
        ({
            let m = after_puts(transition_puts(s, next), s[i].tablet_id, s[i].metadata@);
            &&& m.state == if curr == next {
                MetaState::Stable(curr)
            } else {
                MetaState::Transitioning(curr, next)
            }
            &&& m.colo_group_id == s[i].metadata.colo_group_id
            &&& m.range == s[i].metadata.range@
            &&& m.transfer_id == s[i].metadata.transfer_id
        }),
    decreases s.len(),
{
    let rest = s.drop_last();
    let n = rest.len() as int;
    let puts = transition_puts(s, next);
    let before = transition_puts(rest, next);
    if puts.len() > before.len() {
        assert(puts.drop_last() =~= before);
    }
    if i < n {
        assert(rest[i] == s[i]);
        assert(distinct_ids(rest)) by {
            assert forall|a: int, b: int| 0 <= a < b < rest.len() implies (
            #[trigger] rest[a]).tablet_id != (#[trigger] rest[b]).tablet_id by {
                assert(s[a] == rest[a] && s[b] == rest[b]);
            }
        }
        law_transition_moves_each(rest, curr, next, i);
        assert(s[n].tablet_id != s[i].tablet_id);
    } else {
        assert forall|j: int| 0 <= j < rest.len() implies (#[trigger] rest[j]).tablet_id
            != s[i].tablet_id by {
            assert(s[j] == rest[j]);
            assert(s[j].tablet_id != s[i].tablet_id);
        }
        lemma_untouched(rest, next, s[i].tablet_id, s[i].metadata@);
    }
}

/// A transition writes of exactly those participants that are not there already, in their order.
pub proof fn law_transition_writes(s: Seq<Participant>, next: TabletState) -> (idx: Seq<int>)
    requires
        forall|i: int| 0 <= i < s.len() ==> (#[trigger] s[i]).metadata.state is Stable,
    ensures
        picks(idx, s.len()),
        forall|i: int|
            0 <= i < s.len() ==> (idx.contains(i) <==> (#[trigger] s[i]).metadata.state
                != MetaState::Stable(next)),
        transition_puts(s, next).len() == idx.len(),
        forall|j: int|
            0 <= j < idx.len() ==> (#[trigger] transition_puts(s, next)[j]
                matches MetaPutView::Tablet(t, _) && t == s[idx[j]].tablet_id),
    decreases s.len(),
{
    if s.len() == 0 {
        Seq::empty()
    } else {
        let rest = s.drop_last();
        let n = rest.len();
        assert forall|i: int| 0 <= i < rest.len() implies (#[trigger] rest[i]).metadata.state
            is Stable by {
            assert(s[i] == rest[i]);
        }
        let idx = law_transition_writes(rest, next);
        lemma_picks_push(idx, n);
        assert(s[n as int].metadata.state is Stable);
        let all = if s[n as int].metadata.state != MetaState::Stable(next) {
            idx.push(n as int)
        } else {
            idx
        };
        assert forall|i: int| 0 <= i < s.len() implies (all.contains(i) <==> (
        #[trigger] s[i]).metadata.state != MetaState::Stable(next)) by {
            if i < n {
                assert(rest[i] == s[i]);
            }
        }
        assert forall|j: int| 0 <= j < all.len() implies (#[trigger] transition_puts(s, next)[j]
            matches MetaPutView::Tablet(t, _) && t == s[all[j]].tablet_id) by {
            if j < idx.len() {
                assert(transition_puts(s, next)[j] == transition_puts(rest, next)[j]);
                assert(rest[idx[j]] == s[idx[j]]);
            }
        }
        all
    }
}

proof fn lemma_first_transitioning_exact(s: Seq<Participant>)
    ensures
        first_transitioning(s) is None <==> forall|i: int|
            0 <= i < s.len() ==> (#[trigger] s[i]).metadata.state is Stable,
        first_transitioning(s) matches Some(id) ==> exists|i: int|
            0 <= i < s.len() && (#[trigger] s[i]).tablet_id == id && s[i].metadata.state
                is Transitioning,
    decreases s.len(),
{
    if s.len() > 0 {
        let rest = s.drop_last();
        let n = rest.len() as int;
        lemma_first_transitioning_exact(rest);
        match first_transitioning(rest) {
            Some(id) => {
                let i = choose|i: int|
                    0 <= i < rest.len() && (#[trigger] rest[i]).tablet_id == id
                        && rest[i].metadata.state is Transitioning;
                assert(s[i] == rest[i]);
            },
            None => {
                assert forall|i: int| 0 <= i < n implies (#[trigger] s[i]).metadata.state
                    is Stable by {
                    assert(rest[i] == s[i]);
                }
                assert(s[n] == s.last());
            },
        }
    }
}

proof fn lemma_first_unexpected_exact(s: Seq<Participant>, expected: MetaState<TabletState>)
    ensures
        first_unexpected(s, expected) is None <==> forall|i: int|
            0 <= i < s.len() ==> (#[trigger] s[i]).metadata.state == expected,
        first_unexpected(s, expected) matches Some(id) ==> exists|i: int|
            0 <= i < s.len() && (#[trigger] s[i]).tablet_id == id && s[i].metadata.state
                != expected,
    decreases s.len(),
{
    if s.len() > 0 {
        let rest = s.drop_last();
        let n = rest.len() as int;
        lemma_first_unexpected_exact(rest, expected);
        match first_unexpected(rest, expected) {
            Some(id) => {
                let i = choose|i: int|
                    0 <= i < rest.len() && (#[trigger] rest[i]).tablet_id == id
                        && rest[i].metadata.state != expected;
                assert(s[i] == rest[i]);
            },
            None => {
                assert forall|i: int| 0 <= i < n implies (#[trigger] s[i]).metadata.state
                    == expected by {
                    assert(rest[i] == s[i]);
                }
                assert(s[n] == s.last());
            },
        }
    }
}

/// A transition begins exactly where the transfer is between no states, the one state leads to the
/// other, and no participant is between two states. The transfer is written down as on its way, from
/// now on, with the same participants.
pub proof fn law_transition_begins(
    id: TransferId,
    transfer: TransferMetadataView,
    next: TransferState,
    srcs: Seq<Participant>,
    dsts: Seq<Participant>,
    now: u64,
)
    ensures
        transition_result(id, transfer, next, srcs, dsts, now) is Ok <==> {
            &&& transfer.state matches MetaState::Stable(curr) && curr.leads_to(next)
            &&& forall|i: int| 0 <= i < srcs.len() ==> (#[trigger] srcs[i]).metadata.state is Stable
            &&& forall|i: int| 0 <= i < dsts.len() ==> (#[trigger] dsts[i]).metadata.state is Stable
        },
        transition_result(id, transfer, next, srcs, dsts, now) matches Ok(puts) ==> {
            &&& puts.len() > 0
            &&& puts[0] matches MetaPutView::Transfer(t, m) && t == id && m.srcs == transfer.srcs
                && m.dsts == transfer.dsts && m.timestamp == now && (transfer.state
                matches MetaState::Stable(curr) && m.state == MetaState::Transitioning(curr, next))
            &&& puts.skip(1) == transition_puts(srcs, next.tablet_states().0) + transition_puts(
                dsts,
                next.tablet_states().1,
            )
        },
        transition_result(id, transfer, next, srcs, dsts, now) matches Err(e) ==> match e {
            TransferError::AlreadyTransitioning(a, b) => transfer.state
                == MetaState::Transitioning(a, b),
            TransferError::NotAllowed(a, b) => transfer.state == MetaState::Stable(a) && b == next
                && !a.leads_to(b),
            TransferError::ParticipantTransitioning(t) => (exists|i: int|
                0 <= i < srcs.len() && (#[trigger] srcs[i]).tablet_id == t && srcs[i].metadata.state
                    is Transitioning) || (exists|i: int|
                0 <= i < dsts.len() && (#[trigger] dsts[i]).tablet_id == t && dsts[i].metadata.state
                    is Transitioning),
            _ => false,
        },
{
    lemma_first_transitioning_exact(srcs);
    lemma_first_transitioning_exact(dsts);
    if let Ok(puts) = transition_result(id, transfer, next, srcs, dsts, now) {
        assert(puts.skip(1) =~= transition_puts(srcs, next.tablet_states().0) + transition_puts(
            dsts,
            next.tablet_states().1,
        ));
    }
}

/// Whether a participant is where a transition expects it: on its way, where its side has a way to
/// go, and else there already.
pub open spec fn on_its_way(p: Participant, curr: TabletState, next: TabletState) -> bool {
    p.metadata.state == if curr == next {
        MetaState::Stable(next)
    } else {
        MetaState::Transitioning(curr, next)
    }
}

/// A transition is finished exactly where each participant is on its way, or there already. The
/// transfer is then written down as arrived, without another change.
pub proof fn law_transition_ends(
    id: TransferId,
    transfer: TransferMetadataView,
    curr: TransferState,
    next: TransferState,
    srcs: Seq<Participant>,
    dsts: Seq<Participant>,
)
    requires
        transfer.state == MetaState::Transitioning(curr, next),
    ensures
        ({
            let (a, b) = (curr.tablet_states(), next.tablet_states());
            let ready = (forall|i: int|
                0 <= i < srcs.len() ==> on_its_way(#[trigger] srcs[i], a.0, b.0)) && (forall|i: int|
                0 <= i < dsts.len() ==> on_its_way(#[trigger] dsts[i], a.1, b.1));
            match roll_forward_result(id, transfer, srcs, dsts) {
                Ok(Some((waits, puts))) => {
                    &&& ready
                    &&& puts.len() > 0
                    &&& puts[0] matches MetaPutView::Transfer(t, m) && t == id && m.state
                        == MetaState::Stable(next) && m.srcs == transfer.srcs && m.dsts
                        == transfer.dsts && m.timestamp == transfer.timestamp
                    &&& puts.skip(1) == finished_puts(srcs, expected_state(a.0, b.0))
                        + finished_puts(dsts, expected_state(a.1, b.1))
                    &&& waits == finished_waits(srcs, expected_state(a.0, b.0)) + finished_waits(
                        dsts,
                        expected_state(a.1, b.1),
                    )
                },
                Ok(None) => false,
                Err(e) => !ready && (e matches TransferError::UnexpectedState(t) && ((exists|i: int|
                    0 <= i < srcs.len() && (#[trigger] srcs[i]).tablet_id == t && !on_its_way(
                        srcs[i],
                        a.0,
                        b.0,
                    )) || (exists|i: int|
                    0 <= i < dsts.len() && (#[trigger] dsts[i]).tablet_id == t && !on_its_way(
                        dsts[i],
                        a.1,
                        b.1,
                    )))),
            }
        }),
{
    let (a, b) = (curr.tablet_states(), next.tablet_states());
    lemma_first_unexpected_exact(srcs, expected_state(a.0, b.0));
    lemma_first_unexpected_exact(dsts, expected_state(a.1, b.1));
    assert forall|p: Participant| #[trigger] on_its_way(p, a.0, b.0) == (p.metadata.state
        == expected_state(a.0, b.0)) by {}
    assert forall|p: Participant| #[trigger] on_its_way(p, a.1, b.1) == (p.metadata.state
        == expected_state(a.1, b.1)) by {}
    if let Ok(Some((waits, puts))) = roll_forward_result(id, transfer, srcs, dsts) {
        assert(puts.skip(1) =~= finished_puts(srcs, expected_state(a.0, b.0)) + finished_puts(
            dsts,
            expected_state(a.1, b.1),
        ));
    }
}

/// Where a side has a way to go, each of its tablets is waited for and then written down as arrived,
/// with nothing else changed. Where it has none, nothing is written of it.
pub proof fn law_arrivals(s: Seq<Participant>, curr: TabletState, next: TabletState)
    ensures
        ({
            let puts = finished_puts(s, expected_state(curr, next));
            let waits = finished_waits(s, expected_state(curr, next));
            if curr == next {
                puts.len() == 0 && waits.len() == 0
            } else {
                &&& puts.len() == s.len()
                &&& waits.len() == s.len()
                &&& forall|i: int|
                    0 <= i < s.len() ==> (#[trigger] puts[i] matches MetaPutView::Tablet(t, m) && t
                        == s[i].tablet_id && m.state == MetaState::Stable(next) && m.colo_group_id
                        == s[i].metadata.colo_group_id && m.range == s[i].metadata.range@
                        && m.transfer_id == s[i].metadata.transfer_id)
                &&& forall|i: int| 0 <= i < s.len() ==> #[trigger] waits[i] == s[i].tablet_id
            }
        }),
{
}

/// Where no transition is under way there is none to finish.
pub proof fn law_nothing_to_finish(
    id: TransferId,
    transfer: TransferMetadataView,
    srcs: Seq<Participant>,
    dsts: Seq<Participant>,
)
    ensures
        roll_forward_result(id, transfer, srcs, dsts) matches Ok(None) <==> transfer.state
            is Stable,
{
}

} // verus!
