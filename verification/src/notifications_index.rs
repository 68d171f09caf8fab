//! The state of the index of notification workers: who may call, the fleet
//! of workers, and the events that keep the workers' subscriptions current.

use std::collections::BTreeMap;
use vstd::prelude::*;
use crate::coordinator::{is_recipient, received, Config, Coordinator, FleetMetrics};
use crate::env::Environment;
use crate::outbox::OutboundEvent;
use crate::pool::PoolEntry;
use crate::principal_set::PrincipalSet;
use crate::registry::Node;
use crate::scheduler::Batch;
use crate::types::{
    BuildVersion, CanisterId, CanisterWasm, Cycles, Principal, TimestampMillis, UserId,
};
use crate::upgrade::UpgradeTask;

verus! {

/// The keys of a push subscription.
#[derive(Debug, PartialEq, Eq)]
pub struct SubscriptionKeys {
    pub p256dh: String,
    pub auth: String,
}

impl Clone for SubscriptionKeys {
    fn clone(&self) -> (copy: Self)
        ensures
            copy == *self,
    {
        SubscriptionKeys { p256dh: self.p256dh.clone(), auth: self.auth.clone() }
    }
}

/// A push subscription of a user.
#[derive(Debug, PartialEq, Eq)]
pub struct SubscriptionInfo {
    pub endpoint: String,
    pub keys: SubscriptionKeys,
}

impl Clone for SubscriptionInfo {
    fn clone(&self) -> (copy: Self)
        ensures
            copy == *self,
    {
        SubscriptionInfo { endpoint: self.endpoint.clone(), keys: self.keys.clone() }
    }
}

/// A user has a new subscription.
#[derive(Debug, PartialEq, Eq)]
pub struct SubscriptionAdded {
    pub user_id: UserId,
    pub subscription: SubscriptionInfo,
}

/// A subscription of a user is gone.
#[derive(Debug, PartialEq, Eq)]
pub struct SubscriptionRemoved {
    pub user_id: UserId,
    pub p256dh_key: String,
}

/// What the workers are told about subscriptions.
#[derive(Debug, PartialEq, Eq)]
pub enum NotificationsIndexEvent {
    SubscriptionAdded(SubscriptionAdded),
    SubscriptionRemoved(SubscriptionRemoved),
    AllSubscriptionsRemoved(UserId),
}

impl Clone for NotificationsIndexEvent {
    fn clone(&self) -> (copy: Self)
        ensures
            copy == *self,
    {
        match self {
            NotificationsIndexEvent::SubscriptionAdded(a) =>
                NotificationsIndexEvent::SubscriptionAdded(
                SubscriptionAdded { user_id: a.user_id, subscription: a.subscription.clone() },
            ),
            NotificationsIndexEvent::SubscriptionRemoved(r) =>
                NotificationsIndexEvent::SubscriptionRemoved(
                SubscriptionRemoved { user_id: r.user_id, p256dh_key: r.p256dh_key.clone() },
            ),
            NotificationsIndexEvent::AllSubscriptionsRemoved(u) =>
                NotificationsIndexEvent::AllSubscriptionsRemoved(
                *u,
            ),
        }
    }
}

/// The identities of the services that the index works with.
#[derive(Debug, PartialEq, Eq)]
pub struct CanisterIds {
    pub user_index: CanisterId,
    pub cycles_dispenser: CanisterId,
}

/// What is read from the platform and from the stores of subscriptions and
/// users when the figures are put together.
#[derive(Debug)]
pub struct PlatformReadings {
    pub heap_memory_used: u64,
    pub stable_memory_used: u64,
    pub wasm_version: BuildVersion,
    pub git_commit_id: String,
    pub subscriptions: u64,
    pub users: u64,
    pub stable_memory_sizes: BTreeMap<u8, u64>,
}

/// The figures that the index exposes.
#[derive(Debug)]
pub struct Metrics {
    pub now: TimestampMillis,
    pub heap_memory_used: u64,
    pub stable_memory_used: u64,
    pub cycles_balance: Cycles,
    pub wasm_version: BuildVersion,
    pub git_commit_id: String,
    pub subscriptions: u64,
    pub users: u64,
    pub governance_principals: Vec<Principal>,
    pub push_service_principals: Vec<Principal>,
    pub notifications_canister_wasm_version: BuildVersion,
    pub notifications_canisters: Vec<Node>,
    pub stable_memory_sizes: BTreeMap<u8, u64>,
    pub canister_ids: CanisterIds,
    pub fleet: FleetMetrics,
}

/// The state that outlives a stretch of execution.
pub struct Data {
    pub governance_principals: PrincipalSet,
    pub push_service_principals: PrincipalSet,
    pub user_index_canister_id: CanisterId,
    pub cycles_dispenser_canister_id: CanisterId,
    pub fleet: Coordinator<NotificationsIndexEvent>,
    pub notifications_canister_wasm_for_new_canisters: CanisterWasm,
    pub notifications_canister_wasm_for_upgrades: CanisterWasm,
    pub rng_seed: [u8; 32],
    pub test_mode: bool,
}

/// The state together with the surroundings of the current stretch of
/// execution.
pub struct RuntimeState {
    pub env: Environment,
    pub data: Data,
}

/// The event at position `k` of `events`, as it stands in the queue of `d`
/// when the first of them got the number `next`.
pub open spec fn stamped(
    events: Seq<NotificationsIndexEvent>,
    d: Principal,
    next: nat,
) -> Seq<OutboundEvent<NotificationsIndexEvent>> {
    Seq::new(
        events.len(),
        |k: int| OutboundEvent { destination: d, sequence: (next + k) as u64, payload: events[k] },
    )
}

/// The events that tell of a new subscription of `user_id` and of the
/// subscriptions with the keys `removed` that it displaced, in that order.
pub open spec fn events_of_added(
    user_id: UserId,
    subscription: SubscriptionInfo,
    removed: Seq<String>,
) -> Seq<NotificationsIndexEvent> {
    seq![
        NotificationsIndexEvent::SubscriptionAdded(SubscriptionAdded { user_id, subscription }),
    ] + Seq::new(
        removed.len(),
        |k: int|
            NotificationsIndexEvent::SubscriptionRemoved(
                SubscriptionRemoved { user_id, p256dh_key: removed[k] },
            ),
    )
}

/// Whether the fleet `after` is the fleet `before` with `events` added, in
/// order, to the queue of every node that is on record and not retired.
/// A queue that has reached the maximum batch size is flagged ready,
/// unless a delivery to its node is in flight.
pub open spec fn appended_to_all(
    before: Coordinator<NotificationsIndexEvent>,
    after: Coordinator<NotificationsIndexEvent>,
    events: Seq<NotificationsIndexEvent>,
) -> bool {
    &&& after.config() == before.config()
    &&& after.registry() == before.registry()
    &&& after.upgrades() == before.upgrades()
    &&& after.pool() == before.pool()
    &&& after.delivery().scheduler().batches() == before.delivery().scheduler().batches()
    &&& after.delivery().scheduler().spec_last_flush()
        == before.delivery().scheduler().spec_last_flush()
    &&& forall|d: Principal|
        is_recipient(before.registry()@, d) ==> #[trigger] after.delivery().pending(d)
            == before.delivery().pending(d) + stamped(
            events,
            d,
            before.delivery().next_sequence(d),
        )
    &&& forall|d: Principal|
        !is_recipient(before.registry()@, d) ==> #[trigger] after.delivery().pending(d)
            == before.delivery().pending(d)
    &&& forall|d: Principal|
        #[trigger] after.delivery().next_sequence(d) == if is_recipient(before.registry()@, d) {
            before.delivery().next_sequence(d) + events.len()
        } else {
            before.delivery().next_sequence(d)
        }
    &&& forall|d: Principal|
        #[trigger] after.delivery().spec_is_ready(d) <==> before.delivery().spec_is_ready(d) || (
        is_recipient(before.registry()@, d) && after.delivery().pending(d).len()
            >= before.config().max_batch_size && !before.delivery().spec_is_in_flight(d))
}

/// Whether every queue that would take `count` more events has the
/// sequence numbers for them.
pub open spec fn has_room(fleet: Coordinator<NotificationsIndexEvent>, count: nat) -> bool {
    forall|d: Principal|
        is_recipient(fleet.registry()@, d) ==> #[trigger] fleet.delivery().next_sequence(d)
            + count <= u64::MAX
}

/// Adding `events` and then `event` adds `events` with `event` behind them.
pub proof fn lemma_appended_step(
    a: Coordinator<NotificationsIndexEvent>,
    b: Coordinator<NotificationsIndexEvent>,
    c: Coordinator<NotificationsIndexEvent>,
    events: Seq<NotificationsIndexEvent>,
    event: NotificationsIndexEvent,
)
    requires
        appended_to_all(a, b, events),
        appended_to_all(b, c, seq![event]),
        a.delivery().wf(),
        b.delivery().wf(),
        c.delivery().wf(),
    ensures
        appended_to_all(a, c, events.push(event)),
{
    let all = events.push(event);
    assert forall|d: Principal| is_recipient(a.registry()@, d)
        implies #[trigger] c.delivery().pending(
        d,
    ) == a.delivery().pending(d) + stamped(all, d, a.delivery().next_sequence(d)) by {
        let n = a.delivery().next_sequence(d);
        assert(b.delivery().pending(d) == a.delivery().pending(d) + stamped(events, d, n));
        assert(b.delivery().next_sequence(d) == n + events.len());
        assert(c.delivery().pending(d) == b.delivery().pending(d) + stamped(
            seq![event],
            d,
            b.delivery().next_sequence(d),
        ));
        assert(stamped(events, d, n) + stamped(seq![event], d, n + events.len()) =~= stamped(
            all,
            d,
            n,
        ));
        assert(c.delivery().pending(d) =~= a.delivery().pending(d) + stamped(all, d, n));
    }
    assert forall|d: Principal| !is_recipient(a.registry()@, d)
        implies #[trigger] c.delivery().pending(
        d,
    ) == a.delivery().pending(d) by {
        assert(b.delivery().pending(d) == a.delivery().pending(d));
    }
    assert forall|d: Principal|
        #[trigger] c.delivery().next_sequence(d) == if is_recipient(a.registry()@, d) {
            a.delivery().next_sequence(d) + all.len()
        } else {
            a.delivery().next_sequence(d)
        } by {
        assert(b.delivery().next_sequence(d) == if is_recipient(a.registry()@, d) {
            a.delivery().next_sequence(d) + events.len()
        } else {
            a.delivery().next_sequence(d)
        });
    }
    assert forall|d: Principal|
        #[trigger] c.delivery().spec_is_ready(d) <==> a.delivery().spec_is_ready(d) || (
        is_recipient(a.registry()@, d) && c.delivery().pending(d).len() >= a.config().max_batch_size
            && !a.delivery().spec_is_in_flight(d)) by {
        assert(b.delivery().spec_is_ready(d) <==> a.delivery().spec_is_ready(d) || (is_recipient(
            a.registry()@,
            d,
        ) && b.delivery().pending(d).len() >= a.config().max_batch_size
            && !a.delivery().spec_is_in_flight(d)));
        if is_recipient(a.registry()@, d) {
            assert(c.delivery().pending(d) == b.delivery().pending(d) + stamped(
                seq![event],
                d,
                b.delivery().next_sequence(d),
            ));
        } else {
            assert(c.delivery().pending(d) == b.delivery().pending(d));
        }
    }
}

impl Data {
    /// Whether `self` and `other` differ in nothing but the fleet.
    pub open spec fn same_apart_from_fleet(&self, other: &Data) -> bool {
        &&& self.governance_principals == other.governance_principals
        &&& self.push_service_principals == other.push_service_principals
        &&& self.user_index_canister_id == other.user_index_canister_id
        &&& self.cycles_dispenser_canister_id == other.cycles_dispenser_canister_id
        &&& self.notifications_canister_wasm_for_new_canisters
            == other.notifications_canister_wasm_for_new_canisters
        &&& self.notifications_canister_wasm_for_upgrades
            == other.notifications_canister_wasm_for_upgrades
        &&& self.rng_seed == other.rng_seed
        &&& self.test_mode == other.test_mode
    }

    /// The sets of callers and the fleet are well formed.
    pub open spec fn wf(&self) -> bool {
        &&& self.governance_principals.wf()
        &&& self.push_service_principals.wf()
        &&& self.fleet.wf()
    }

    /// The state of an index that knows no worker yet, or `None` where the
    /// settings ask for batches without events. The image is used for new
    /// workers and for upgrades alike.
    pub fn new(
        governance_principals: Vec<Principal>,
        push_service_principals: Vec<Principal>,
        user_index_canister_id: CanisterId,
        cycles_dispenser_canister_id: CanisterId,
        notifications_canister_wasm: CanisterWasm,
        config: Config,
        test_mode: bool,
    ) -> (data: Option<Data>)
        ensures
            data.is_some() == (config.max_batch_size >= 1),
            match data {
                Some(d) => {
                    &&& d.wf()
                    &&& forall|p: Principal|
                        #[trigger] d.governance_principals.spec_contains(p)
                            <==> governance_principals@.contains(p)
                    &&& forall|p: Principal|
                        #[trigger] d.push_service_principals.spec_contains(p)
                            <==> push_service_principals@.contains(p)
                    &&& d.user_index_canister_id == user_index_canister_id
                    &&& d.cycles_dispenser_canister_id == cycles_dispenser_canister_id
                    &&& d.fleet.config() == config
                    &&& d.fleet.registry()@ == Seq::<Node>::empty()
                    &&& d.fleet.upgrades().tasks() == Seq::<UpgradeTask>::empty()
                    &&& d.fleet.pool().entries() == Seq::<PoolEntry>::empty()
                    &&& d.fleet.pool().spec_provisioning() == 0
                    &&& d.fleet.delivery().scheduler().spec_last_flush() == 0
                    &&& d.fleet.delivery().scheduler().ready() == Seq::<Principal>::empty()
                    &&& d.fleet.delivery().scheduler().batches() == Seq::<Batch>::empty()
                    &&& forall|p: Principal|
                        #[trigger] d.fleet.delivery().pending(p) == Seq::<
                            OutboundEvent<NotificationsIndexEvent>,
                        >::empty()
                    &&& forall|p: Principal| #[trigger] d.fleet.delivery().next_sequence(p) == 0
                    &&& d.notifications_canister_wasm_for_new_canisters.version
                        == notifications_canister_wasm.version
                    &&& d.notifications_canister_wasm_for_new_canisters.module@
                        == notifications_canister_wasm.module@
                    &&& d.notifications_canister_wasm_for_upgrades == notifications_canister_wasm
                    &&& d.rng_seed@ == Seq::new(32, |i: int| 0u8)
                    &&& d.test_mode == test_mode
                },
                None => true,
            },
    {
        match Coordinator::new(config, 0) {
            Some(fleet) => {
                let rng_seed = [0u8; 32];
                proof {
                    assert(rng_seed@ =~= Seq::new(32, |i: int| 0u8));
                }
                Some(
                    Data {
                        governance_principals: PrincipalSet::from_vec(governance_principals),
                        push_service_principals: PrincipalSet::from_vec(push_service_principals),
                        user_index_canister_id,
                        cycles_dispenser_canister_id,
                        fleet,
                        notifications_canister_wasm_for_new_canisters:
                            notifications_canister_wasm.clone(),
                        notifications_canister_wasm_for_upgrades: notifications_canister_wasm,
                        rng_seed,
                        test_mode,
                    },
                )
            },
            None => None,
        }
    }
}

impl RuntimeState {
    /// The state `data` in the surroundings `env`.
    pub fn new(env: Environment, data: Data) -> (state: RuntimeState)
        ensures
            state.env == env,
            state.data == data,
    {
        RuntimeState { env, data }
    }

    /// Whether the caller is one of the governance principals.
    pub fn is_caller_governance_principal(&self) -> (allowed: bool)
        requires
            self.data.wf(),
        ensures
            allowed == self.data.governance_principals.spec_contains(self.env.caller),
    {
        let caller = self.env.caller();
        self.data.governance_principals.contains(caller)
    }

    /// Whether the caller is one of the push services.
    pub fn is_caller_push_service(&self) -> (allowed: bool)
        requires
            self.data.wf(),
        ensures
            allowed == self.data.push_service_principals.spec_contains(self.env.caller),
    {
        self.data.push_service_principals.contains(self.env.caller())
    }

    /// Whether every worker that is on record and not retired has the
    /// sequence numbers for `count` more events.
    pub fn has_room_for(&self, count: usize) -> (room: bool)
        requires
            self.data.wf(),
        ensures
            room == has_room(self.data.fleet, count as nat),
    {
        let nodes = self.data.fleet.nodes();
        let mut i: usize = 0;
        while i < nodes.len()
            invariant
                i <= nodes@.len(),
                nodes@ == self.data.fleet.registry()@,
                self.data.wf(),
                forall|j: int|
                    0 <= j < i && (#[trigger] nodes@[j]).state
                        != crate::registry::NodeState::Retired
                        ==> self.data.fleet.delivery().next_sequence(nodes@[j].id) + count
                        <= u64::MAX,
            decreases nodes@.len() - i,
        {
            let node = nodes[i];
            if node.state != crate::registry::NodeState::Retired {
                let next = self.data.fleet.next_sequence(node.id);
                if count as u64 > u64::MAX - next {
                    proof {
                        crate::keyed::lemma_found_at(nodes@, i as int);
                        assert(is_recipient(self.data.fleet.registry()@, node.id));
                    }
                    return false;
                }
            }
            i = i + 1;
        }
        proof {
            assert forall|d: Principal|
                is_recipient(self.data.fleet.registry()@, d)
                    implies #[trigger] self.data.fleet.delivery().next_sequence(
                d,
            ) + count <= u64::MAX by {
                crate::keyed::lemma_lookup_index(nodes@, d);
                let j = crate::keyed::index_of_key(nodes@, d);
                assert(nodes@[j].id == d);
            }
        }
        true
    }

    /// Accepts `event` for every worker that is on record and not retired,
    /// and says whether a delivery can start now.
    pub fn push_event_to_notifications_canisters(&mut self,
        event: NotificationsIndexEvent) -> (sync_required:
        bool)
        requires
            old(self).data.wf(),
            has_room(old(self).data.fleet, 1),
        ensures
            final(self).data.wf(),
            final(self).env == old(self).env,
            final(self).data.same_apart_from_fleet(&old(self).data),
            appended_to_all(old(self).data.fleet, final(self).data.fleet, seq![event]),
            sync_required == (final(self).data.fleet.delivery().scheduler().ready().len() > 0),
    {
        proof {
            assert forall|d: Principal|
                is_recipient(self.data.fleet.registry()@, d)
                    implies self.data.fleet.delivery().next_sequence(
                d,
            ) < u64::MAX by {
                assert(self.data.fleet.delivery().next_sequence(d) + 1 <= u64::MAX);
            }
        }
        self.data.fleet.submit_to_all(&event);
        proof {
            let before = old(self).data.fleet;
            let after = self.data.fleet;
            assert forall|d: Principal| is_recipient(before.registry()@, d)
                implies #[trigger] after.delivery().pending(
                d,
            ) == before.delivery().pending(d) + stamped(
                seq![event],
                d,
                before.delivery().next_sequence(d),
            ) by {
                let p = after.delivery().pending(d);
                let q = before.delivery().pending(d);
                assert(received(q, p, d, before.delivery().next_sequence(d), event));
                assert(p.last().payload == event);
                assert(p =~= q + stamped(seq![event], d, before.delivery().next_sequence(d)));
            }
        }
        self.data.fleet.sync_required()
    }

    /// Tells every worker that `user_id` has the new subscription
    /// `subscription`, and then, one event each and in their order, that
    /// the subscriptions with the keys `subscriptions_removed`, which the
    /// new one displaced, are gone.
    pub fn add_subscription(
        &mut self,
        user_id: UserId,
        subscription: SubscriptionInfo,
        subscriptions_removed: Vec<String>,
    )
        requires
            old(self).data.wf(),
            has_room(old(self).data.fleet, 1 + subscriptions_removed@.len()),
        ensures
            final(self).data.wf(),
            final(self).env == old(self).env,
            final(self).data.same_apart_from_fleet(&old(self).data),
            appended_to_all(
                old(self).data.fleet,
                final(self).data.fleet,
                events_of_added(user_id, subscription, subscriptions_removed@),
            ),
    {
        let ghost all = events_of_added(user_id, subscription, subscriptions_removed@);
        proof {
            assert forall|d: Principal|
                is_recipient(self.data.fleet.registry()@, d)
                    implies #[trigger] self.data.fleet.delivery().next_sequence(
                d,
            ) + 1 <= u64::MAX by {
                assert(self.data.fleet.delivery().next_sequence(d) + (1
                    + subscriptions_removed@.len()) <= u64::MAX);
            }
        }
        let event = NotificationsIndexEvent::SubscriptionAdded(
            SubscriptionAdded { user_id, subscription },
        );
        let _ = self.push_event_to_notifications_canisters(event);
        let mut i: usize = 0;
        proof {
            assert(all.take(1) =~= seq![event]);
        }
        while i < subscriptions_removed.len()
            invariant
                i <= subscriptions_removed@.len(),
                all == events_of_added(user_id, subscription, subscriptions_removed@),
                old(self).data.wf(),
                has_room(old(self).data.fleet, 1 + subscriptions_removed@.len()),
                self.data.wf(),
                self.env == old(self).env,
                self.data.same_apart_from_fleet(&old(self).data),
                appended_to_all(old(self).data.fleet, self.data.fleet, all.take(1 + i)),
            decreases subscriptions_removed@.len() - i,
        {
            let ghost before = self.data.fleet;
            let p256dh_key = subscriptions_removed[i].clone();
            let event = NotificationsIndexEvent::SubscriptionRemoved(
                SubscriptionRemoved { user_id, p256dh_key },
            );
            proof {
                assert(event == all[1 + i]);
                assert forall|d: Principal|
                    is_recipient(before.registry()@, d)
                        implies #[trigger] before.delivery().next_sequence(
                    d,
                ) + 1 <= u64::MAX by {
                    assert(old(self).data.fleet.delivery().next_sequence(d) + (1
                        + subscriptions_removed@.len()) <= u64::MAX);
                }
            }
            let _ = self.push_event_to_notifications_canisters(event);
            proof {
                lemma_appended_step(
                    old(self).data.fleet,
                    before,
                    self.data.fleet,
                    all.take(1 + i),
                    event,
                );
                assert(all.take(1 + i).push(event) =~= all.take(1 + i + 1));
            }
            i = i + 1;
        }
        proof {
            assert(all.take(1 + i) =~= all);
        }
    }

    /// Tells every worker that the subscription of `user_id` with the key
    /// `p256dh_key` is gone.
    pub fn remove_subscription(&mut self, user_id: UserId, p256dh_key: String)
        requires
            old(self).data.wf(),
            has_room(old(self).data.fleet, 1),
        ensures
            final(self).data.wf(),
            final(self).env == old(self).env,
            final(self).data.same_apart_from_fleet(&old(self).data),
            appended_to_all(
                old(self).data.fleet,
                final(self).data.fleet,
                seq![
                    NotificationsIndexEvent::SubscriptionRemoved(
                        SubscriptionRemoved { user_id, p256dh_key },
                    ),
                ],
            ),
    {
        let event = NotificationsIndexEvent::SubscriptionRemoved(
            SubscriptionRemoved { user_id, p256dh_key },
        );
        let _ = self.push_event_to_notifications_canisters(event);
    }

    /// Tells every worker that all subscriptions of `user_id` are gone.
    pub fn remove_all_subscriptions(&mut self, user_id: UserId)
        requires
            old(self).data.wf(),
            has_room(old(self).data.fleet, 1),
        ensures
            final(self).data.wf(),
            final(self).env == old(self).env,
            final(self).data.same_apart_from_fleet(&old(self).data),
            appended_to_all(
                old(self).data.fleet,
                final(self).data.fleet,
                seq![NotificationsIndexEvent::AllSubscriptionsRemoved(user_id)],
            ),
    {
        let event = NotificationsIndexEvent::AllSubscriptionsRemoved(user_id);
        let _ = self.push_event_to_notifications_canisters(event);
    }

    /// The figures that the index exposes, from the state, the
    /// surroundings, and what was read from the platform.
    pub fn metrics(&self, readings: PlatformReadings) -> (metrics: Metrics)
        requires
            self.data.wf(),
        ensures
            metrics.now == self.env.now,
            metrics.cycles_balance == self.env.cycles_balance,
            metrics.heap_memory_used == readings.heap_memory_used,
            metrics.stable_memory_used == readings.stable_memory_used,
            metrics.wasm_version == readings.wasm_version,
            metrics.git_commit_id == readings.git_commit_id,
            metrics.subscriptions == readings.subscriptions,
            metrics.users == readings.users,
            metrics.stable_memory_sizes == readings.stable_memory_sizes,
            metrics.governance_principals@ == self.data.governance_principals@,
            metrics.push_service_principals@ == self.data.push_service_principals@,
            metrics.notifications_canister_wasm_version
                == self.data.notifications_canister_wasm_for_new_canisters.version,
            metrics.notifications_canisters@ == self.data.fleet.registry()@,
            metrics.canister_ids == (CanisterIds {
                user_index: self.data.user_index_canister_id,
                cycles_dispenser: self.data.cycles_dispenser_canister_id,
            }),
            self.data.fleet.measured_by(metrics.fleet),
    {
        Metrics {
            now: self.env.now(),
            heap_memory_used: readings.heap_memory_used,
            stable_memory_used: readings.stable_memory_used,
            cycles_balance: self.env.cycles_balance(),
            wasm_version: readings.wasm_version,
            git_commit_id: readings.git_commit_id,
            subscriptions: readings.subscriptions,
            users: readings.users,
            governance_principals: self.data.governance_principals.to_vec(),
            push_service_principals: self.data.push_service_principals.to_vec(),
            notifications_canister_wasm_version:
                self.data.notifications_canister_wasm_for_new_canisters.version,
            notifications_canisters: self.data.fleet.nodes(),
            stable_memory_sizes: readings.stable_memory_sizes,
            canister_ids: CanisterIds {
                user_index: self.data.user_index_canister_id,
                cycles_dispenser: self.data.cycles_dispenser_canister_id,
            },
            fleet: self.data.fleet.metrics(),
        }
    }
}

} // verus!
