//! The index of storage buckets: which periodic jobs have work, and what
//! the buckets are told when a user is removed.

use vstd::prelude::*;
use crate::coordinator::{is_recipient, Coordinator, Jobs};
use crate::outbox::OutboundEvent;
use crate::pool::deficit;
use crate::types::{Principal, UserId};
use crate::upgrade::{count_tasks, UpgradeState};

verus! {

/// What the buckets are told.
#[derive(Clone, Copy, Debug, PartialEq, Eq)]
pub enum EventToSync {
    UserRemoved(UserId),
}

/// The arguments of the removal of a user.
#[derive(Clone, Copy, Debug, PartialEq, Eq)]
pub struct Args {
    pub user_id: UserId,
}

/// The answer to the removal of a user.
#[derive(Clone, Copy, Debug, PartialEq, Eq, Structural)]
pub enum Response {
    Success,
}

/// Says which of the three periodic jobs are to be started: the one that
/// keeps enough buckets at hand, the one that brings the buckets up to
/// date with the events, and the one that upgrades them. The flush tick
/// is none of the three: it has to run whatever this says.
pub fn start(state: &Coordinator<EventToSync>) -> (jobs: Jobs)
    requires
        state.wf(),
    ensures
        jobs.replenish_pool == (deficit(
            state.pool().entries(),
            state.config().pool_target_size,
            state.pool().spec_provisioning(),
        ) > 0),
        jobs.deliver == (state.delivery().scheduler().ready().len() > 0),
        jobs.dispatch_upgrades == (count_tasks(state.upgrades().tasks(), UpgradeState::Pending)
            > 0 && count_tasks(state.upgrades().tasks(), UpgradeState::InFlight)
            < state.config().max_concurrent_upgrades),
{
    state.jobs_required()
}

/// Tells every bucket that is on record and not retired that the user
/// `args.user_id` was removed.
pub fn remove_user_impl(args: Args, state: &mut Coordinator<EventToSync>) -> (response: Response)
    requires
        old(state).wf(),
        forall|d: Principal|
            is_recipient(old(state).registry()@, d) ==> old(state).delivery().next_sequence(d)
                < u64::MAX,
    ensures
        response == Response::Success,
        final(state).wf(),
        final(state).config() == old(state).config(),
        final(state).registry() == old(state).registry(),
        final(state).upgrades() == old(state).upgrades(),
        final(state).pool() == old(state).pool(),
        final(state).delivery().scheduler().spec_last_flush()
            == old(state).delivery().scheduler().spec_last_flush(),
        final(state).delivery().scheduler().batches()
            == old(state).delivery().scheduler().batches(),
        forall|d: Principal|
            #[trigger] final(state).delivery().next_sequence(d) == if is_recipient(
                old(state).registry()@,
                d,
            ) {
                old(state).delivery().next_sequence(d) + 1
            } else {
                old(state).delivery().next_sequence(d)
            },
        forall|d: Principal|
            #[trigger] final(state).delivery().spec_is_ready(d)
                <==> old(state).delivery().spec_is_ready(d) || (is_recipient(
                old(state).registry()@,
                d,
            ) && final(state).delivery().pending(d).len() >= old(state).config().max_batch_size
                && !old(state).delivery().spec_is_in_flight(d)),
        forall|d: Principal|
            is_recipient(old(state).registry()@, d) ==> #[trigger] final(state).delivery().pending(
                d,
            ) == old(state).delivery().pending(d).push(
                (OutboundEvent {
                    destination: d,
                    sequence: old(state).delivery().next_sequence(d) as u64,
                    payload: EventToSync::UserRemoved(args.user_id),
                }),
            ),
        forall|d: Principal|
            !is_recipient(old(state).registry()@, d)
                ==> #[trigger] final(state).delivery().pending(d)
                == old(state).delivery().pending(d),
{
    let event = EventToSync::UserRemoved(args.user_id);
    state.submit_to_all(&event);
    proof {
        assert forall|d: Principal|
            is_recipient(old(state).registry()@, d) implies #[trigger] state.delivery().pending(d)
            == old(state).delivery().pending(d).push(
            (OutboundEvent {
                destination: d,
                sequence: old(state).delivery().next_sequence(d) as u64,
                payload: EventToSync::UserRemoved(args.user_id),
            }),
        ) by {
            let p = state.delivery().pending(d);
            let q = old(state).delivery().pending(d);
            assert(crate::coordinator::received(
                q,
                p,
                d,
                old(state).delivery().next_sequence(d),
                event,
            ));
            assert(p.last().payload == event);
            assert(p =~= q.push(p.last()));
        }
    }
    Response::Success
}

} // verus!
