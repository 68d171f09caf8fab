//! The coordinator: owns the registry, the outbox with its scheduler, the
//! upgrade tasks and the pool, and carries every operation that touches
//! more than one of them.

use vstd::prelude::*;
use crate::delivery::{batch_is_head, delivery_allowed, DeliverySnapshot, DeliveryWorker};
use crate::keyed::{has_key, index_of_key, keys_distinct, lemma_found_at, lookup};
use crate::outbox::OutboundEvent;
use crate::pool::{
    deficit, is_oldest_unassigned, unassigned_count, NodePool, PoolEntry, PoolError, PoolSnapshot,
};
use crate::registry::{
    count_in_state, with_state, with_version, Node, NodeRegistry, NodeRole, NodeState, StateCounts,
};
use crate::scheduler::{flush_due, fresh_batch, one_more, Batch};
use crate::types::{BuildVersion, Outcome, Principal, TimestampMillis};
use crate::upgrade::{
    after_dispatch, after_restart, checked, count_tasks, resolution, resolved, UpgradeCoordinator,
    UpgradeSnapshot, UpgradeState, UpgradeTask,
};

verus! {

/// The settings of a coordinator.
#[derive(Clone, Copy, Debug, PartialEq, Eq, Structural)]
pub struct Config {
    /// The largest number of events in one batch; at least one.
    pub max_batch_size: usize,
    /// Milliseconds between two flush ticks.
    pub flush_interval: u64,
    /// Whether a node under upgrade is spared deliveries.
    pub quiesce_upgrading: bool,
    /// How many install calls may be under way at once.
    pub max_concurrent_upgrades: usize,
    /// How many failures end the automatic retries of an upgrade.
    pub retry_ceiling: u32,
    /// How many unassigned nodes the pool aims to hold.
    pub pool_target_size: u16,
}

/// The figures that the coordinator exposes for operators.
#[derive(Clone, Copy, Debug, PartialEq, Eq, Structural)]
pub struct FleetMetrics {
    pub total_pending_events: u64,
    pub destinations_ready: usize,
    pub pool_size: usize,
    pub pool_target_size: u16,
    pub nodes: StateCounts,
    pub upgrades_pending: usize,
    pub upgrades_in_flight: usize,
    pub upgrades_failed: usize,
}

/// The parts of a coordinator, as they are persisted.
#[derive(Debug, PartialEq, Eq)]
pub struct Snapshot<E> {
    pub nodes: Vec<Node>,
    pub delivery: DeliverySnapshot<E>,
    pub upgrades: UpgradeSnapshot,
    pub pool: PoolSnapshot,
}

/// Which of the periodic jobs have work to do. The flush tick runs
/// beside them, unconditionally.
#[derive(Clone, Copy, Debug, PartialEq, Eq, Structural)]
pub struct Jobs {
    pub replenish_pool: bool,
    pub deliver: bool,
    pub dispatch_upgrades: bool,
}

/// The nodes with the node of every task of `dispatched` marked as
/// upgrading.
pub open spec fn marked_upgrading(nodes: Seq<Node>, dispatched: Seq<UpgradeTask>) -> Seq<Node>
    decreases dispatched.len(),
{
    if dispatched.len() == 0 {
        nodes
    } else {
        with_state(
            marked_upgrading(nodes, dispatched.drop_last()),
            dispatched.last().node,
            NodeState::Upgrading,
        )
    }
}

/// The nodes with every upgrading node back in service.
pub open spec fn settled(nodes: Seq<Node>) -> Seq<Node> {
    Seq::new(
        nodes.len(),
        |i: int|
            if nodes[i].state == NodeState::Upgrading {
                Node { state: NodeState::Active, ..nodes[i] }
            } else {
                nodes[i]
            },
    )
}

/// The nodes after the install call to `node`, with target `target`, was
/// resolved as `outcome`: the node runs the target version and is in
/// service after a success, is in service with its old version while the
/// upgrade is retried, and is unreachable once the retries have ended.
pub open spec fn nodes_after_upgrade(
    nodes: Seq<Node>,
    node: Principal,
    target: BuildVersion,
    outcome: Option<Outcome>,
) -> Seq<Node> {
    match outcome {
        Some(Outcome::Success) => with_version(nodes, node, target, NodeState::Active),
        Some(Outcome::Retry { .. }) => with_state(nodes, node, NodeState::Active),
        Some(Outcome::DropPermanently { .. }) => with_state(nodes, node, NodeState::Unreachable),
        None => nodes,
    }
}

/// Whether `d` is a node on record that has not been retired.
pub open spec fn is_recipient(nodes: Seq<Node>, d: Principal) -> bool {
    match lookup(nodes, d) {
        Some(n) => n.state != NodeState::Retired,
        None => false,
    }
}

/// Whether `d` is a node that has not been retired and stands before
/// position `i` of the record.
pub open spec fn recipient_before(nodes: Seq<Node>, i: int, d: Principal) -> bool {
    exists|j: int|
        0 <= j < i && j < nodes.len() && (#[trigger] nodes[j]).id == d && nodes[j].state
            != NodeState::Retired
}

/// Whether the queue `after` is the queue `before` with one more event for
/// `d` at its end, which has number `sequence` and carries a clone of
/// `event`.
pub open spec fn received<E: Clone>(
    before: Seq<OutboundEvent<E>>,
    after: Seq<OutboundEvent<E>>,
    d: Principal,
    sequence: nat,
    event: E,
) -> bool {
    &&& after.len() == before.len() + 1
    &&& after.drop_last() == before
    &&& after.last().destination == d
    &&& after.last().sequence == sequence
    &&& cloned(event, after.last().payload)
}

/// The process that implements the fleet's synchronisation and upgrades.
pub struct Coordinator<E> {
    registry: NodeRegistry,
    delivery: DeliveryWorker<E>,
    upgrades: UpgradeCoordinator,
    pool: NodePool,
}

impl<E> Coordinator<E> {
    /// The record of every node.
    pub closed spec fn registry(&self) -> NodeRegistry {
        self.registry
    }

    /// The outbox with its scheduler.
    pub closed spec fn delivery(&self) -> DeliveryWorker<E> {
        self.delivery
    }

    /// The upgrade tasks.
    pub closed spec fn upgrades(&self) -> UpgradeCoordinator {
        self.upgrades
    }

    /// The standby pool.
    pub closed spec fn pool(&self) -> NodePool {
        self.pool
    }

    /// The settings that the coordinator was made with.
    pub open spec fn config(&self) -> Config {
        Config {
            max_batch_size: self.delivery().scheduler().spec_max_batch_size(),
            flush_interval: self.delivery().scheduler().spec_flush_interval(),
            quiesce_upgrading: self.delivery().spec_quiesce_upgrading(),
            max_concurrent_upgrades: self.upgrades().spec_max_concurrent_upgrades(),
            retry_ceiling: self.upgrades().spec_retry_ceiling(),
            pool_target_size: self.pool().spec_target_size(),
        }
    }

    /// Whether `m` gives the figures of this coordinator.
    pub open spec fn measured_by(&self, m: FleetMetrics) -> bool {
        &&& m.total_pending_events == if self.delivery().outbox().spec_total_pending()
            <= u64::MAX {
            self.delivery().outbox().spec_total_pending()
        } else {
            u64::MAX as nat
        }
        &&& m.destinations_ready == self.delivery().scheduler().ready().len()
        &&& m.pool_size == unassigned_count(self.pool().entries())
        &&& m.pool_target_size == self.config().pool_target_size
        &&& m.nodes.provisioning == count_in_state(self.registry()@, NodeState::Provisioning)
        &&& m.nodes.active == count_in_state(self.registry()@, NodeState::Active)
        &&& m.nodes.upgrading == count_in_state(self.registry()@, NodeState::Upgrading)
        &&& m.nodes.unreachable == count_in_state(self.registry()@, NodeState::Unreachable)
        &&& m.nodes.retired == count_in_state(self.registry()@, NodeState::Retired)
        &&& m.upgrades_pending == count_tasks(self.upgrades().tasks(), UpgradeState::Pending)
        &&& m.upgrades_in_flight == count_tasks(self.upgrades().tasks(), UpgradeState::InFlight)
        &&& m.upgrades_failed == count_tasks(self.upgrades().tasks(), UpgradeState::Failed)
    }

    /// Every component is well formed.
    pub open spec fn wf(&self) -> bool {
        &&& self.registry().wf()
        &&& self.delivery().wf()
        &&& self.upgrades().wf()
        &&& self.pool().wf()
    }

    /// A coordinator without nodes, events or tasks, or `None` where the
    /// maximum batch size is zero.
    pub fn new(config: Config, now: TimestampMillis) -> (coordinator: Option<Self>)
        ensures
            coordinator.is_some() == (config.max_batch_size >= 1),
            match coordinator {
                Some(c) => {
                    &&& c.wf()
                    &&& c.config() == config
                    &&& c.registry()@ == Seq::<Node>::empty()
                    &&& c.upgrades().tasks() == Seq::<UpgradeTask>::empty()
                    &&& c.pool().entries() == Seq::<PoolEntry>::empty()
                    &&& c.pool().spec_provisioning() == 0
                    &&& c.delivery().scheduler().spec_last_flush() == now
                    &&& c.delivery().scheduler().ready() == Seq::<Principal>::empty()
                    &&& c.delivery().scheduler().batches() == Seq::<Batch>::empty()
                    &&& forall|d: Principal|
                        #[trigger] c.delivery().pending(d) == Seq::<OutboundEvent<E>>::empty()
                    &&& forall|d: Principal| #[trigger] c.delivery().next_sequence(d) == 0
                },
                None => true,
            },
    {
        match DeliveryWorker::new(
            config.max_batch_size,
            config.flush_interval,
            now,
            config.quiesce_upgrading,
        ) {
            Some(delivery) => Some(
                Coordinator {
                    registry: NodeRegistry::new(),
                    delivery,
                    upgrades: UpgradeCoordinator::new(
                        config.max_concurrent_upgrades,
                        config.retry_ceiling,
                    ),
                    pool: NodePool::new(config.pool_target_size),
                },
            ),
            None => None,
        }
    }

    /// The sequence number that the next event for `destination` will get.
    pub fn next_sequence(&self, destination: Principal) -> (next: u64)
        requires
            self.wf(),
        ensures
            next == self.delivery().next_sequence(destination),
    {
        self.delivery.next_sequence_of(destination)
    }

    /// Whether the sequence counter of `destination` has a number left for
    /// one more event.
    pub fn can_submit(&self, destination: Principal) -> (room: bool)
        requires
            self.wf(),
        ensures
            room == (self.delivery().next_sequence(destination) < u64::MAX),
    {
        self.delivery.can_submit(destination)
    }

    /// Whether the sequence counter of every node that is on record and
    /// not retired has a number left for one more event.
    pub fn can_submit_to_all(&self) -> (room: bool)
        requires
            self.wf(),
        ensures
            room == (forall|d: Principal|
                is_recipient(self.registry()@, d) ==> #[trigger] self.delivery().next_sequence(d)
                    < u64::MAX),
    {
        let n = self.registry.len();
        let mut i: usize = 0;
        while i < n
            invariant
                i <= n,
                n == self.registry@.len(),
                self.wf(),
                forall|j: int|
                    0 <= j < i && (#[trigger] self.registry@[j]).state != NodeState::Retired
                        ==> self.delivery().next_sequence(self.registry@[j].id) < u64::MAX,
            decreases n - i,
        {
            let node = self.registry.node_at(i);
            if node.state != NodeState::Retired && !self.delivery.can_submit(node.id) {
                proof {
                    lemma_found_at(self.registry@, i as int);
                    assert(is_recipient(self.registry()@, node.id));
                }
                return false;
            }
            i = i + 1;
        }
        proof {
            assert forall|d: Principal|
                is_recipient(self.registry()@, d) implies #[trigger] self.delivery().next_sequence(
                d,
            ) < u64::MAX by {
                crate::keyed::lemma_lookup_index(self.registry@, d);
                let j = index_of_key(self.registry@, d);
                assert(self.registry@[j].id == d);
            }
        }
        true
    }

    /// Accepts an event for `destination`. Acceptance says nothing of
    /// delivery: the event joins the destination's queue under the next
    /// sequence number, which is returned.
    pub fn submit(&mut self, destination: Principal, payload: E) -> (sequence: u64)
        requires
            old(self).wf(),
            old(self).delivery().next_sequence(destination) < u64::MAX,
        ensures
            final(self).wf(),
            final(self).config() == old(self).config(),
            final(self).delivery().scheduler().spec_last_flush()
                == old(self).delivery().scheduler().spec_last_flush(),
            final(self).registry() == old(self).registry(),
            final(self).upgrades() == old(self).upgrades(),
            final(self).pool() == old(self).pool(),
            sequence == old(self).delivery().next_sequence(destination),
            final(self).delivery().pending(destination) == old(self).delivery().pending(
                destination,
            ).push((OutboundEvent { destination, sequence, payload })),
            final(self).delivery().next_sequence(destination) == sequence + 1,
            forall|d: Principal|
                d != destination ==> final(self).delivery().pending(d)
                    == old(self).delivery().pending(d) && final(self).delivery().next_sequence(d)
                    == old(self).delivery().next_sequence(d),
            final(self).delivery().scheduler().batches()
                == old(self).delivery().scheduler().batches(),
            final(self).delivery().scheduler().ready() == if final(self).delivery().pending(
                destination,
            ).len() >= old(self).config().max_batch_size && !old(self).delivery().spec_is_ready(
                destination,
            ) && !old(self).delivery().spec_is_in_flight(destination) {
                old(self).delivery().scheduler().ready().push(destination)
            } else {
                old(self).delivery().scheduler().ready()
            },
            final(self).delivery().pending(destination).len() >= old(self).config().max_batch_size
                && !old(self).delivery().spec_is_in_flight(destination)
                    ==> final(self).delivery().spec_is_ready(destination),
    {
        self.delivery.submit(destination, payload)
    }

    /// Advances the flush timer to `now`; where the configured interval has
    /// passed since it last fired, every destination with pending events
    /// and no delivery in flight is flagged ready. Returns whether the
    /// timer fired.
    pub fn poll(&mut self, now: TimestampMillis) -> (fired: bool)
        requires
            old(self).wf(),
        ensures
            final(self).wf(),
            final(self).config() == old(self).config(),
            final(self).registry() == old(self).registry(),
            final(self).upgrades() == old(self).upgrades(),
            final(self).pool() == old(self).pool(),
            final(self).delivery().outbox() == old(self).delivery().outbox(),
            fired == flush_due(
                old(self).delivery().scheduler().spec_last_flush(),
                old(self).config().flush_interval,
                now,
            ),
            fired ==> final(self).delivery().scheduler().spec_last_flush() == now
                && final(self).delivery().scheduler().flagged_by_tick(
                &old(self).delivery().scheduler(),
                &old(self).delivery().outbox(),
            ),
            !fired ==> final(self).delivery().scheduler().spec_last_flush()
                == old(self).delivery().scheduler().spec_last_flush()
                && final(self).delivery().scheduler().ready()
                == old(self).delivery().scheduler().ready()
                && final(self).delivery().scheduler().batches()
                    == old(self).delivery().scheduler().batches(),
    {
        self.delivery.poll(now)
    }

    /// Starts the delivery to `destination` and returns the batch to send.
    /// There is a batch exactly when the destination is flagged ready and
    /// the registry has its node in a state that may receive deliveries.
    pub fn begin_delivery(&mut self, destination: Principal, now: TimestampMillis) -> (batch:
        Option<Batch>)
        requires
            old(self).wf(),
        ensures
            final(self).wf(),
            final(self).config() == old(self).config(),
            final(self).delivery().scheduler().spec_last_flush()
                == old(self).delivery().scheduler().spec_last_flush(),
            final(self).registry() == old(self).registry(),
            final(self).upgrades() == old(self).upgrades(),
            final(self).pool() == old(self).pool(),
            final(self).delivery().outbox() == old(self).delivery().outbox(),
            batch.is_some() == (old(self).delivery().spec_is_ready(destination)
                && delivery_allowed(
                old(self).registry().state_of(destination),
                old(self).config().quiesce_upgrading,
            )),
            old(self).delivery().spec_is_in_flight(destination) ==> batch.is_none(),
            match batch {
                Some(b) => {
                    &&& b.destination == destination
                    &&& b.in_flight
                    &&& final(self).delivery().batch_of(destination) == Some(b)
                    &&& batch_is_head(b, old(self).delivery().pending(destination))
                    &&& b == match old(self).delivery().batch_of(destination) {
                        Some(failed) => Batch { in_flight: true, ..failed },
                        None => fresh_batch(
                            destination,
                            old(self).delivery().pending(destination)[0].sequence,
                            old(self).delivery().pending(destination).len() as usize,
                            old(self).config().max_batch_size,
                            now,
                        ),
                    }
                    &&& forall|d: Principal|
                        #[trigger] final(self).delivery().spec_is_ready(d)
                            <==> old(self).delivery().spec_is_ready(d) && d != destination
                    &&& forall|d: Principal|
                        d != destination ==> final(self).delivery().batch_of(d)
                            == old(self).delivery().batch_of(d)
                },
                None => {
                    &&& final(self).delivery().scheduler().ready()
                        == old(self).delivery().scheduler().ready()
                    &&& final(self).delivery().scheduler().batches()
                        == old(self).delivery().scheduler().batches()
                },
            },
    {
        let state = match self.registry.get(destination) {
            Some(node) => Some(node.state),
            None => None,
        };
        self.delivery.begin(destination, state, now)
    }

    /// Up to `max_items` events from the head of the queue of `destination`,
    /// oldest first. Nothing is removed; a destination without pending
    /// events yields an empty batch.
    pub fn peek_batch(&self, destination: Principal, max_items: usize) -> (batch: Vec<
        &OutboundEvent<E>,
    >)
        requires
            self.wf(),
        ensures
            batch@.len() == crate::outbox::min_len(
                max_items as int,
                self.delivery().pending(destination).len() as int,
            ),
            forall|k: int|
                0 <= k < batch@.len() ==> *batch@[k] == self.delivery().pending(destination)[k],
            self.delivery().pending(destination).len() == 0 ==> batch@.len() == 0,
    {
        self.delivery.peek_batch(destination, max_items)
    }

    /// The events of the batch of `destination`, oldest first, as they are
    /// to be sent.
    pub fn batch_events(&self, destination: Principal) -> (events: Vec<&OutboundEvent<E>>)
        requires
            self.wf(),
        ensures
            match self.delivery().batch_of(destination) {
                Some(b) => {
                    &&& events@.len() == b.size()
                    &&& forall|k: int|
                        0 <= k < events@.len() ==> *(#[trigger] events@[k])
                            == self.delivery().pending(destination)[k]
                    &&& forall|k: int|
                        0 <= k < events@.len() ==> (#[trigger] events@[k]).sequence
                            == b.first_sequence + k
                },
                None => events@.len() == 0,
            },
    {
        self.delivery.batch_events(destination)
    }

    /// Resolves the delivery to `destination` that is in flight: a
    /// delivered batch leaves the outbox as a whole, a batch that was not
    /// delivered stays as a whole.
    pub fn complete_delivery(&mut self, destination: Principal, delivered: bool) -> (outcome:
        Option<Outcome>)
        requires
            old(self).wf(),
        ensures
            final(self).wf(),
            final(self).config() == old(self).config(),
            final(self).delivery().scheduler().spec_last_flush()
                == old(self).delivery().scheduler().spec_last_flush(),
            forall|d: Principal|
                final(self).delivery().next_sequence(d) == old(self).delivery().next_sequence(d),
            final(self).registry() == old(self).registry(),
            final(self).upgrades() == old(self).upgrades(),
            final(self).pool() == old(self).pool(),
            forall|d: Principal|
                d != destination ==> final(self).delivery().pending(d)
                    == old(self).delivery().pending(d) && final(self).delivery().batch_of(d)
                    == old(self).delivery().batch_of(d),
            !final(self).delivery().spec_is_in_flight(destination),
            !old(self).delivery().spec_is_in_flight(destination) ==> {
                &&& outcome.is_none()
                &&& final(self).delivery().outbox() == old(self).delivery().outbox()
                &&& final(self).delivery().scheduler().ready()
                    == old(self).delivery().scheduler().ready()
                &&& final(self).delivery().scheduler().batches()
                    == old(self).delivery().scheduler().batches()
            },
            old(self).delivery().spec_is_in_flight(destination) && delivered ==> {
                &&& outcome == Some(Outcome::Success)
                &&& final(self).delivery().pending(destination) == old(self).delivery().pending(
                    destination,
                ).skip(old(self).delivery().batch_of(destination).unwrap().size())
                &&& final(self).delivery().batch_of(destination).is_none()
                &&& final(self).delivery().scheduler().ready()
                    == if final(self).delivery().pending(destination).len()
                    >= old(self).config().max_batch_size {
                    old(self).delivery().scheduler().ready().push(destination)
                } else {
                    old(self).delivery().scheduler().ready()
                }
            },
            old(self).delivery().spec_is_in_flight(destination) && !delivered ==> {
                &&& outcome == Some(
                    Outcome::Retry {
                        attempts: one_more(
                            old(self).delivery().batch_of(destination).unwrap().attempts,
                        ),
                    },
                )
                &&& final(self).delivery().outbox() == old(self).delivery().outbox()
                &&& final(self).delivery().batch_of(destination) == Some(
                    Batch {
                        in_flight: false,
                        attempts: one_more(
                            old(self).delivery().batch_of(destination).unwrap().attempts,
                        ),
                        ..old(self).delivery().batch_of(destination).unwrap()
                    },
                )
                &&& final(self).delivery().scheduler().ready()
                    == old(self).delivery().scheduler().ready()
            },
    {
        self.delivery.complete(destination, delivered)
    }

    /// The periodic sufficiency check: asks for an upgrade of every node in
    /// service that does not run `desired`.
    pub fn check_versions(&mut self, desired: BuildVersion)
        requires
            old(self).wf(),
        ensures
            final(self).wf(),
            final(self).config() == old(self).config(),
            final(self).registry() == old(self).registry(),
            final(self).delivery() == old(self).delivery(),
            final(self).pool() == old(self).pool(),
            final(self).upgrades().tasks() == checked(
                old(self).upgrades().tasks(),
                old(self).registry()@,
                desired,
            ),
    {
        self.upgrades.check_versions(&self.registry, desired);
    }

    /// The dispatch pass: moves pending upgrade tasks in flight, oldest
    /// first, as far as the bound on concurrent upgrades allows, marks
    /// their nodes as upgrading, and returns the tasks so that the install
    /// call can be issued to each.
    pub fn dispatch_upgrades(&mut self) -> (dispatched: Vec<UpgradeTask>)
        requires
            old(self).wf(),
        ensures
            final(self).wf(),
            final(self).config() == old(self).config(),
            final(self).delivery() == old(self).delivery(),
            final(self).pool() == old(self).pool(),
            final(self).upgrades().tasks() == after_dispatch(
                old(self).upgrades().tasks(),
                old(self).config().max_concurrent_upgrades,
            ),
            final(self).registry()@ == marked_upgrading(old(self).registry()@, dispatched@),
            dispatched@.len() == vstd::math::min(
                old(self).config().max_concurrent_upgrades - count_tasks(
                    old(self).upgrades().tasks(),
                    UpgradeState::InFlight,
                ),
                count_tasks(old(self).upgrades().tasks(), UpgradeState::Pending) as int,
            ),
            forall|i: int|
                0 <= i < old(self).upgrades().tasks().len() && #[trigger] crate::upgrade::selected(
                    old(self).upgrades().tasks(),
                    i,
                    old(self).config().max_concurrent_upgrades - count_tasks(
                        old(self).upgrades().tasks(),
                        UpgradeState::InFlight,
                    ),
                ) ==> crate::upgrade::pending_before(old(self).upgrades().tasks(), i)
                    < dispatched@.len() && dispatched@[crate::upgrade::pending_before(
                    old(self).upgrades().tasks(),
                    i,
                ) as int] == final(self).upgrades().tasks()[i],
            count_tasks(final(self).upgrades().tasks(), UpgradeState::InFlight) == count_tasks(
                old(self).upgrades().tasks(),
                UpgradeState::InFlight,
            ) + dispatched@.len(),
            count_tasks(final(self).upgrades().tasks(), UpgradeState::InFlight)
                <= old(self).config().max_concurrent_upgrades,
    {
        let dispatched = self.upgrades.dispatch();
        let mut k: usize = 0;
        let ghost delivery = self.delivery;
        let ghost upgrades = self.upgrades;
        let ghost pool = self.pool;
        while k < dispatched.len()
            invariant
                k <= dispatched@.len(),
                self.delivery == delivery,
                self.upgrades == upgrades,
                self.pool == pool,
                self.registry.wf(),
                self.registry@ == marked_upgrading(
                    old(self).registry()@,
                    dispatched@.take(k as int),
                ),
            decreases dispatched@.len() - k,
        {
            proof {
                assert(dispatched@.take(k as int + 1).drop_last() =~= dispatched@.take(k as int));
            }
            let _ = self.registry.set_state(dispatched[k].node, NodeState::Upgrading);
            k = k + 1;
        }
        proof {
            assert(dispatched@.take(k as int) =~= dispatched@);
        }
        dispatched
    }

    /// Resolves the install call to `node`. On success the node runs the
    /// target version and is back in service, and its task is discarded.
    /// On failure the task counts one more attempt: under the retry
    /// ceiling it is pending again and the node is back in service with
    /// its old version; otherwise the task has failed for good, the node
    /// is unreachable, and only an operator brings it back.
    pub fn resolve_upgrade(&mut self, node: Principal, installed: bool) -> (outcome: Option<
        Outcome,
    >)
        requires
            old(self).wf(),
        ensures
            final(self).wf(),
            final(self).config() == old(self).config(),
            final(self).delivery() == old(self).delivery(),
            final(self).pool() == old(self).pool(),
            outcome == resolution(
                old(self).upgrades().tasks(),
                node,
                installed,
                old(self).config().retry_ceiling,
            ),
            final(self).upgrades().tasks() == resolved(
                old(self).upgrades().tasks(),
                node,
                installed,
                old(self).config().retry_ceiling,
            ),
            outcome.is_some() ==> final(self).registry()@ == nodes_after_upgrade(
                old(self).registry()@,
                node,
                old(self).upgrades().task_of(node).unwrap().target,
                outcome,
            ),
            outcome.is_none() ==> final(self).registry()@ == old(self).registry()@,
    {
        let task = self.upgrades.get_task(node);
        let outcome = self.upgrades.resolve(node, installed);
        match outcome {
            Some(Outcome::Success) => {
                let task = task.unwrap();
                let _ = self.registry.set_version(node, task.target, NodeState::Active);
            },
            Some(Outcome::Retry { .. }) => {
                let _ = self.registry.set_state(node, NodeState::Active);
            },
            Some(Outcome::DropPermanently { .. }) => {
                let _ = self.registry.set_state(node, NodeState::Unreachable);
            },
            None => {},
        }
        outcome
    }

    /// An operator clears the upgrade of `node` that failed for good: the
    /// task is dropped and the node is back in service, so that the next
    /// sufficiency check asks for its upgrade again. Returns whether there
    /// was such a task; otherwise nothing changes.
    pub fn clear_failed_upgrade(&mut self, node: Principal) -> (cleared: bool)
        requires
            old(self).wf(),
        ensures
            final(self).wf(),
            final(self).config() == old(self).config(),
            final(self).delivery() == old(self).delivery(),
            final(self).pool() == old(self).pool(),
            cleared == match old(self).upgrades().task_of(node) {
                Some(t) => t.state == UpgradeState::Failed,
                None => false,
            },
            cleared ==> final(self).upgrades().task_of(node).is_none()
                && final(self).upgrades().tasks() == old(self).upgrades().tasks().remove(
                index_of_key(old(self).upgrades().tasks(), node),
            ) && final(self).registry()@ == with_state(
                old(self).registry()@,
                node,
                NodeState::Active,
            ),
            !cleared ==> final(self).upgrades().tasks() == old(self).upgrades().tasks()
                && final(self).registry()@ == old(self).registry()@,
    {
        if self.upgrades.clear_failed(node) {
            let _ = self.registry.set_state(node, NodeState::Active);
            true
        } else {
            false
        }
    }

    /// The periodic pool check: returns how many provisioning requests are
    /// to be issued so that the pool reaches its target, and counts them
    /// as under way.
    pub fn replenish_pool(&mut self) -> (requests: u16)
        requires
            old(self).wf(),
        ensures
            final(self).wf(),
            final(self).config() == old(self).config(),
            final(self).registry() == old(self).registry(),
            final(self).delivery() == old(self).delivery(),
            final(self).upgrades() == old(self).upgrades(),
            final(self).pool().entries() == old(self).pool().entries(),
            requests == deficit(
                old(self).pool().entries(),
                old(self).config().pool_target_size,
                old(self).pool().spec_provisioning(),
            ),
            final(self).pool().spec_provisioning() == old(self).pool().spec_provisioning()
                + requests,
    {
        self.pool.replenish()
    }

    /// A provisioning request has produced the node `node`, which is not
    /// yet confirmed: it goes on record in the `Provisioning` state.
    /// Returns `false`, with nothing changed, where the identity is already
    /// on record.
    pub fn begin_provisioning(&mut self, node: Principal, role: NodeRole,
        version: BuildVersion) -> (added:
        bool)
        requires
            old(self).wf(),
        ensures
            final(self).wf(),
            final(self).config() == old(self).config(),
            final(self).delivery() == old(self).delivery(),
            final(self).upgrades() == old(self).upgrades(),
            final(self).pool() == old(self).pool(),
            added == !has_key(old(self).registry()@, node),
            added ==> final(self).registry()@ == old(self).registry()@.push(
                (Node { id: node, role, version, state: NodeState::Provisioning }),
            ),
            !added ==> final(self).registry()@ == old(self).registry()@,
    {
        self.registry.register(node, role, version)
    }

    /// The creation of `node` is confirmed: the node goes from
    /// `Provisioning` into service and joins the end of the pool,
    /// unassigned. Returns `false`, with nothing changed, where the node is
    /// not on record as `Provisioning` or the pool knows it already.
    pub fn confirm_provisioned(&mut self, node: Principal, now: TimestampMillis) -> (confirmed:
        bool)
        requires
            old(self).wf(),
        ensures
            final(self).wf(),
            final(self).config() == old(self).config(),
            final(self).delivery() == old(self).delivery(),
            final(self).upgrades() == old(self).upgrades(),
            confirmed == (old(self).registry().state_of(node) == Some(NodeState::Provisioning)
                && !has_key(old(self).pool().entries(), node)),
            confirmed ==> {
                &&& final(self).registry()@ == with_state(
                    old(self).registry()@,
                    node,
                    NodeState::Active,
                )
                &&& final(self).pool().entries() == old(self).pool().entries().push(
                    (PoolEntry { node, provisioned_at: now, assigned: false }),
                )
                &&& final(self).pool().spec_provisioning()
                    == if old(self).pool().spec_provisioning() > 0 {
                    (old(self).pool().spec_provisioning() - 1) as u16
                } else {
                    0u16
                }
                &&& unassigned_count(final(self).pool().entries()) == unassigned_count(
                    old(self).pool().entries(),
                ) + 1
            },
            !confirmed ==> final(self).registry() == old(self).registry()
                && final(self).pool().entries() == old(self).pool().entries()
                && final(self).pool().spec_provisioning() == old(self).pool().spec_provisioning(),
    {
        match self.registry.get(node) {
            Some(n) => {
                if n.state == NodeState::Provisioning {
                    if self.pool.provisioned(node, now) {
                        let _ = self.registry.set_state(node, NodeState::Active);
                        true
                    } else {
                        false
                    }
                } else {
                    false
                }
            },
            None => false,
        }
    }

    /// A provisioning request failed: one request fewer is under way. Where
    /// the request had produced a node that is on record as `Provisioning`,
    /// that node is retired.
    pub fn provisioning_failed(&mut self, node: Option<Principal>)
        requires
            old(self).wf(),
        ensures
            final(self).wf(),
            final(self).config() == old(self).config(),
            final(self).delivery() == old(self).delivery(),
            final(self).upgrades() == old(self).upgrades(),
            final(self).pool().entries() == old(self).pool().entries(),
            final(self).pool().spec_provisioning() == if old(self).pool().spec_provisioning()
                > 0 {
                (old(self).pool().spec_provisioning() - 1) as u16
            } else {
                0u16
            },
            final(self).registry()@ == match node {
                Some(n) => if old(self).registry().state_of(n) == Some(NodeState::Provisioning) {
                    with_state(old(self).registry()@, n, NodeState::Retired)
                } else {
                    old(self).registry()@
                },
                None => old(self).registry()@,
            },
    {
        self.pool.provisioning_failed();
        match node {
            Some(n) => {
                match self.registry.get(n) {
                    Some(record) => {
                        if record.state == NodeState::Provisioning {
                            let _ = self.registry.set_state(n, NodeState::Retired);
                        }
                    },
                    None => {},
                }
            },
            None => {},
        }
    }

    /// Serves an allocation request with the unassigned node that was
    /// provisioned first, or reports that the pool is exhausted. Nothing is
    /// retried: the caller holds back.
    pub fn allocate(&mut self) -> (result: Result<Principal, PoolError>)
        requires
            old(self).wf(),
        ensures
            final(self).wf(),
            final(self).config() == old(self).config(),
            final(self).registry() == old(self).registry(),
            final(self).delivery() == old(self).delivery(),
            final(self).upgrades() == old(self).upgrades(),
            final(self).pool().spec_provisioning() == old(self).pool().spec_provisioning(),
            result.is_ok() == (unassigned_count(old(self).pool().entries()) > 0),
            match result {
                Ok(node) => {
                    &&& has_key(old(self).pool().entries(), node)
                    &&& is_oldest_unassigned(
                        old(self).pool().entries(),
                        index_of_key(old(self).pool().entries(), node),
                    )
                    &&& final(self).pool().entries() == old(self).pool().entries().update(
                        index_of_key(old(self).pool().entries(), node),
                        (PoolEntry {
                            assigned: true,
                            ..old(self).pool().entries()[index_of_key(
                                old(self).pool().entries(),
                                node,
                            )]
                        }),
                    )
                    &&& unassigned_count(final(self).pool().entries()) + 1 == unassigned_count(
                        old(self).pool().entries(),
                    )
                },
                Err(e) => e == PoolError::PoolExhausted && final(self).pool().entries()
                    == old(self).pool().entries(),
            },
    {
        self.pool.allocate()
    }

    /// Decommissions `node`: the registry records it as retired, and its
    /// pending events, its batch, its upgrade task and its pool entry are
    /// dropped. Its sequence counter stays.
    pub fn retire(&mut self, node: Principal)
        requires
            old(self).wf(),
        ensures
            final(self).wf(),
            final(self).config() == old(self).config(),
            final(self).delivery().scheduler().spec_last_flush()
                == old(self).delivery().scheduler().spec_last_flush(),
            final(self).registry()@ == with_state(old(self).registry()@, node, NodeState::Retired),
            final(self).delivery().pending(node) == Seq::<OutboundEvent<E>>::empty(),
            forall|d: Principal|
                final(self).delivery().next_sequence(d) == old(self).delivery().next_sequence(d),
            !final(self).delivery().spec_is_ready(node),
            final(self).delivery().batch_of(node).is_none(),
            final(self).upgrades().task_of(node).is_none(),
            final(self).upgrades().tasks() == if old(self).upgrades().task_of(node).is_some() {
                old(self).upgrades().tasks().remove(
                    index_of_key(old(self).upgrades().tasks(), node),
                )
            } else {
                old(self).upgrades().tasks()
            },
            final(self).pool().entry_of(node).is_none(),
            final(self).pool().entries() == if has_key(old(self).pool().entries(), node) {
                old(self).pool().entries().remove(index_of_key(old(self).pool().entries(), node))
            } else {
                old(self).pool().entries()
            },
            final(self).pool().spec_provisioning() == old(self).pool().spec_provisioning(),
            final(self).delivery().scheduler().ready() == if old(self).delivery().spec_is_ready(
                node,
            ) {
                old(self).delivery().scheduler().ready().remove(
                    index_of_key(old(self).delivery().scheduler().ready(), node),
                )
            } else {
                old(self).delivery().scheduler().ready()
            },
            forall|d: Principal|
                d != node ==> {
                    &&& final(self).delivery().pending(d) == old(self).delivery().pending(d)
                    &&& final(self).delivery().spec_is_ready(d)
                        == old(self).delivery().spec_is_ready(d)
                    &&& final(self).delivery().batch_of(d) == old(self).delivery().batch_of(d)
                    &&& final(self).upgrades().task_of(d) == old(self).upgrades().task_of(d)
                    &&& final(self).pool().entry_of(d) == old(self).pool().entry_of(d)
                },
    {
        let _ = self.registry.set_state(node, NodeState::Retired);
        self.delivery.forget(node);
        self.upgrades.forget(node);
        let _ = self.pool.remove(node);
    }

    /// Rebuilds the state after a restart so that nothing is stuck in
    /// flight: no delivery, no install call and no provisioning request is
    /// under way; batches and tasks that were in flight are pending again,
    /// and nodes that were upgrading are back in service.
    #[verifier::loop_isolation(false)]
    pub fn restart(&mut self)
        requires
            old(self).wf(),
        ensures
            final(self).wf(),
            final(self).config() == old(self).config(),
            final(self).delivery().scheduler().spec_last_flush()
                == old(self).delivery().scheduler().spec_last_flush(),
            final(self).delivery().outbox() == old(self).delivery().outbox(),
            final(self).delivery().scheduler().ready() == old(self).delivery().scheduler().ready(),
            forall|d: Principal| !final(self).delivery().spec_is_in_flight(d),
            forall|d: Principal|
                #[trigger] final(self).delivery().batch_of(d)
                    == match old(self).delivery().batch_of(d) {
                    Some(b) => Some(Batch { in_flight: false, ..b }),
                    None => None,
                },
            final(self).upgrades().tasks() == after_restart(old(self).upgrades().tasks()),
            count_tasks(final(self).upgrades().tasks(), UpgradeState::InFlight) == 0,
            final(self).pool().entries() == old(self).pool().entries(),
            final(self).pool().spec_provisioning() == 0,
            final(self).registry()@ == settled(old(self).registry()@),
    {
        self.delivery.restart();
        self.upgrades.restart();
        self.pool.restart();
        let n = self.registry.len();
        let mut i: usize = 0;
        let ghost before = self.registry@;
        let ghost delivery = self.delivery;
        let ghost upgrades = self.upgrades;
        let ghost pool = self.pool;
        while i < n
            invariant
                i <= n,
                n == before.len(),
                self.delivery == delivery,
                self.upgrades == upgrades,
                self.pool == pool,
                self.registry.wf(),
                self.registry@.len() == before.len(),
                forall|j: int| 0 <= j < i ==> #[trigger] self.registry@[j] == settled(before)[j],
                forall|j: int| i <= j < n ==> #[trigger] self.registry@[j] == before[j],
            decreases n - i,
        {
            if self.registry.node_at(i).state == NodeState::Upgrading {
                self.registry.set_state_at(i, NodeState::Active);
            }
            i = i + 1;
        }
        assert(self.registry@ =~= settled(before));
    }

    /// The figures for operators: pending events, ready destinations, the
    /// pool against its target, nodes by lifecycle state, and the upgrade
    /// backlog with its failures.
    pub fn metrics(&self) -> (m: FleetMetrics)
        requires
            self.wf(),
        ensures
            self.measured_by(m),
    {
        FleetMetrics {
            total_pending_events: self.delivery.total_pending(),
            destinations_ready: self.delivery.ready_count(),
            pool_size: self.pool.len(),
            pool_target_size: self.pool.target_size(),
            nodes: self.registry.state_counts(),
            upgrades_pending: self.upgrades.count(UpgradeState::Pending),
            upgrades_in_flight: self.upgrades.count(UpgradeState::InFlight),
            upgrades_failed: self.upgrades.count(UpgradeState::Failed),
        }
    }

    /// The number of undelivered events of `destination`.
    pub fn queue_depth(&self, destination: Principal) -> (depth: usize)
        requires
            self.wf(),
        ensures
            depth == self.delivery().pending(destination).len(),
    {
        self.delivery.depth(destination)
    }

    /// Which of the periodic jobs have work to do: the pool check where
    /// nodes are missing, the delivery pass where a destination is flagged
    /// ready, and the dispatch pass where an upgrade is pending and a slot
    /// is free. The flush tick is not among them: `poll` has to run
    /// whatever this says, for it alone flags a destination whose queue is
    /// below the batch size.
    pub fn jobs_required(&self) -> (jobs: Jobs)
        requires
            self.wf(),
        ensures
            jobs.replenish_pool == (deficit(
                self.pool().entries(),
                self.config().pool_target_size,
                self.pool().spec_provisioning(),
            ) > 0),
            jobs.deliver == (self.delivery().scheduler().ready().len() > 0),
            jobs.dispatch_upgrades == (count_tasks(self.upgrades().tasks(), UpgradeState::Pending)
                > 0 && count_tasks(self.upgrades().tasks(), UpgradeState::InFlight)
                < self.config().max_concurrent_upgrades),
    {
        Jobs {
            replenish_pool: self.pool.missing() > 0,
            deliver: self.delivery.ready_count() > 0,
            dispatch_upgrades: self.upgrades.count(UpgradeState::Pending) > 0
                && self.upgrades.count(UpgradeState::InFlight)
                < self.upgrades.max_concurrent_upgrades(),
        }
    }

    /// The nodes on record, in the order of registration.
    pub fn nodes(&self) -> (nodes: Vec<Node>)
        ensures
            nodes@ == self.registry()@,
    {
        self.registry.to_vec()
    }

    /// What the registry records of `id`, if anything.
    pub fn node(&self, id: Principal) -> (node: Option<Node>)
        requires
            self.wf(),
        ensures
            node == self.registry().node(id),
    {
        self.registry.get(id)
    }

    /// Puts `node` on record as it is, unless its identity is on record
    /// already: then nothing changes and `false` is returned.
    pub fn add_node(&mut self, node: Node) -> (added: bool)
        requires
            old(self).wf(),
        ensures
            final(self).wf(),
            final(self).config() == old(self).config(),
            final(self).delivery() == old(self).delivery(),
            final(self).upgrades() == old(self).upgrades(),
            final(self).pool() == old(self).pool(),
            added == !has_key(old(self).registry()@, node.id),
            added ==> final(self).registry()@ == old(self).registry()@.push(node),
            !added ==> final(self).registry()@ == old(self).registry()@,
    {
        self.registry.insert(node)
    }

    /// Marks `node` as unreachable and takes it out of the upgrade
    /// rotation: a task of the node that waits for a dispatch pass is
    /// dropped. Deliveries to the node stop until it is back in service.
    /// Returns whether the node is on record; otherwise nothing changes.
    pub fn mark_unreachable(&mut self, node: Principal) -> (known: bool)
        requires
            old(self).wf(),
        ensures
            final(self).wf(),
            final(self).config() == old(self).config(),
            final(self).delivery() == old(self).delivery(),
            final(self).pool() == old(self).pool(),
            known == has_key(old(self).registry()@, node),
            final(self).registry()@ == with_state(
                old(self).registry()@,
                node,
                NodeState::Unreachable,
            ),
            forall|n: Principal|
                n != node ==> final(self).upgrades().task_of(n) == old(self).upgrades().task_of(n),
            final(self).upgrades().task_of(node) == match old(self).upgrades().task_of(node) {
                Some(t) => if known && t.state == UpgradeState::Pending {
                    None
                } else {
                    Some(t)
                },
                None => None,
            },
            final(self).upgrades().tasks() == match old(self).upgrades().task_of(node) {
                Some(t) => if known && t.state == UpgradeState::Pending {
                    old(self).upgrades().tasks().remove(
                        index_of_key(old(self).upgrades().tasks(), node),
                    )
                } else {
                    old(self).upgrades().tasks()
                },
                None => old(self).upgrades().tasks(),
            },
    {
        if self.registry.set_state(node, NodeState::Unreachable) {
            match self.upgrades.get_task(node) {
                Some(t) => {
                    if t.state == UpgradeState::Pending {
                        self.upgrades.forget(node);
                    }
                },
                None => {},
            }
            true
        } else {
            false
        }
    }

    /// Whether `parts` can make a coordinator: each component can be made
    /// of its parts.
    pub open spec fn parts_wf(parts: Snapshot<E>) -> bool {
        &&& keys_distinct(parts.nodes@)
        &&& DeliveryWorker::<E>::parts_wf(parts.delivery)
        &&& UpgradeCoordinator::tasks_wf(
            parts.upgrades.tasks@,
            parts.upgrades.max_concurrent_upgrades,
            parts.upgrades.retry_ceiling,
        )
        &&& keys_distinct(parts.pool.entries@)
    }

    /// Whether the coordinator is made of exactly these parts.
    pub open spec fn holds(&self, parts: Snapshot<E>) -> bool {
        &&& self.registry()@ == parts.nodes@
        &&& self.delivery().holds(parts.delivery)
        &&& self.upgrades().holds(parts.upgrades)
        &&& self.pool().holds(parts.pool)
    }

    /// Takes the coordinator apart for persisting: the registry, every
    /// queue with its events, the scheduler with its batches, the upgrade
    /// tasks and the pool.
    pub fn into_parts(self) -> (parts: Snapshot<E>)
        requires
            self.wf(),
        ensures
            self.holds(parts),
            Self::parts_wf(parts),
    {
        let nodes = self.registry.to_vec();
        let upgrades = self.upgrades.to_parts();
        let pool = self.pool.to_parts();
        let delivery = self.delivery.into_parts();
        Snapshot { nodes, delivery, upgrades, pool }
    }

    /// The coordinator made of `parts`, as they were persisted, or `None`
    /// where they cannot make one.
    pub fn from_parts(parts: Snapshot<E>) -> (coordinator: Option<Self>)
        ensures
            coordinator.is_some() == Self::parts_wf(parts),
            coordinator.is_some() ==> coordinator.unwrap().wf() && coordinator.unwrap().holds(
                parts,
            ),
    {
        let registry = match NodeRegistry::from_parts(parts.nodes) {
            Some(registry) => registry,
            None => {
                return None;
            },
        };
        let delivery = match DeliveryWorker::from_parts(parts.delivery) {
            Some(delivery) => delivery,
            None => {
                return None;
            },
        };
        let upgrades = match UpgradeCoordinator::from_parts(parts.upgrades) {
            Some(upgrades) => upgrades,
            None => {
                return None;
            },
        };
        let pool = match NodePool::from_parts(parts.pool) {
            Some(pool) => pool,
            None => {
                return None;
            },
        };
        Some(Coordinator { registry, delivery, upgrades, pool })
    }

    /// Brings the coordinator back after a restart: it is made of `parts`
    /// as they were persisted, and then nothing is left in flight.
    pub fn restore(parts: Snapshot<E>) -> (coordinator: Option<Self>)
        ensures
            coordinator.is_some() == Self::parts_wf(parts),
            match coordinator {
                Some(c) => {
                    &&& c.wf()
                    &&& c.delivery().outbox().holds(parts.delivery.queues@)
                    &&& c.delivery().scheduler().ready() == parts.delivery.scheduler.ready@
                    &&& c.delivery().scheduler().spec_last_flush()
                        == parts.delivery.scheduler.last_flush
                    &&& forall|d: Principal| !c.delivery().spec_is_in_flight(d)
                    &&& forall|d: Principal|
                        #[trigger] c.delivery().batch_of(d) == match lookup(
                            parts.delivery.scheduler.batches@,
                            d,
                        ) {
                            Some(b) => Some(Batch { in_flight: false, ..b }),
                            None => None,
                        }
                    &&& c.upgrades().tasks() == after_restart(parts.upgrades.tasks@)
                    &&& count_tasks(c.upgrades().tasks(), UpgradeState::InFlight) == 0
                    &&& c.pool().entries() == parts.pool.entries@
                    &&& c.pool().spec_provisioning() == 0
                    &&& c.registry()@ == settled(parts.nodes@)
                    &&& c.config() == (Config {
                        max_batch_size: parts.delivery.scheduler.max_batch_size,
                        flush_interval: parts.delivery.scheduler.flush_interval,
                        quiesce_upgrading: parts.delivery.quiesce_upgrading,
                        max_concurrent_upgrades: parts.upgrades.max_concurrent_upgrades,
                        retry_ceiling: parts.upgrades.retry_ceiling,
                        pool_target_size: parts.pool.target_size,
                    })
                },
                None => true,
            },
    {
        match Self::from_parts(parts) {
            Some(restored) => {
                let mut coordinator = restored;
                coordinator.restart();
                Some(coordinator)
            },
            None => None,
        }
    }

    /// The destinations that are flagged ready, in the order in which they
    /// were flagged.
    pub fn ready_destinations(&self) -> (ready: Vec<Principal>)
        ensures
            ready@ == self.delivery().scheduler().ready(),
    {
        let n = self.delivery.ready_count();
        let mut ready: Vec<Principal> = Vec::new();
        let mut i: usize = 0;
        while i < n
            invariant
                i <= n,
                n == self.delivery().scheduler().ready().len(),
                ready@ == self.delivery().scheduler().ready().take(i as int),
            decreases n - i,
        {
            ready.push(self.delivery.ready_at(i));
            proof {
                let all = self.delivery().scheduler().ready();
                assert(all.take(i as int).push(all[i as int]) =~= all.take(i as int + 1));
            }
            i = i + 1;
        }
        proof {
            let all = self.delivery().scheduler().ready();
            assert(all.take(n as int) =~= all);
        }
        ready
    }

    /// Whether a delivery can start now: some destination is flagged ready.
    /// A destination whose queue is below the batch size is flagged by the
    /// flush tick only, so `poll` has to run whatever this says.
    pub fn sync_required(&self) -> (required: bool)
        ensures
            required == (self.delivery().scheduler().ready().len() > 0),
    {
        self.delivery.ready_count() > 0
    }
}

impl<E: Clone> Coordinator<E> {
    /// Accepts `event` for every node on record that has not been retired:
    /// each of them gets a clone of it at the end of its queue, under its
    /// own next sequence number. No other queue changes.
    pub fn submit_to_all(&mut self, event: &E)
        requires
            old(self).wf(),
            forall|d: Principal|
                is_recipient(old(self).registry()@, d) ==> old(self).delivery().next_sequence(d)
                    < u64::MAX,
        ensures
            final(self).wf(),
            final(self).config() == old(self).config(),
            final(self).delivery().scheduler().spec_last_flush()
                == old(self).delivery().scheduler().spec_last_flush(),
            final(self).registry() == old(self).registry(),
            final(self).upgrades() == old(self).upgrades(),
            final(self).pool() == old(self).pool(),
            final(self).delivery().scheduler().batches()
                == old(self).delivery().scheduler().batches(),
            forall|d: Principal|
                is_recipient(old(self).registry()@, d) ==> received(
                    old(self).delivery().pending(d),
                    #[trigger] final(self).delivery().pending(d),
                    d,
                    old(self).delivery().next_sequence(d),
                    *event,
                ),
            forall|d: Principal|
                !is_recipient(old(self).registry()@, d)
                    ==> #[trigger] final(self).delivery().pending(d)
                    == old(self).delivery().pending(d),
            forall|d: Principal|
                #[trigger] final(self).delivery().next_sequence(d) == if is_recipient(
                    old(self).registry()@,
                    d,
                ) {
                    old(self).delivery().next_sequence(d) + 1
                } else {
                    old(self).delivery().next_sequence(d)
                },
            forall|d: Principal|
                #[trigger] final(self).delivery().spec_is_ready(d)
                    <==> old(self).delivery().spec_is_ready(d)
                    || (is_recipient(old(self).registry()@, d)
                    && final(self).delivery().pending(d).len()
                        >= old(self).config().max_batch_size
                        && !old(self).delivery().spec_is_in_flight(d)),
    {
        let n = self.registry.len();
        let mut i: usize = 0;
        let ghost nodes = self.registry@;
        let ghost registry = self.registry;
        let ghost upgrades = self.upgrades;
        let ghost pool = self.pool;
        let ghost limit = self.delivery.scheduler().spec_max_batch_size();
        while i < n
            invariant
                i <= n,
                n == nodes.len(),
                nodes == old(self).registry()@,
                self.registry == registry,
                self.upgrades == upgrades,
                self.pool == pool,
                self.registry@ == nodes,
                old(self).wf(),
                self.wf(),
                self.config() == old(self).config(),
                self.delivery().scheduler().spec_last_flush()
                    == old(self).delivery().scheduler().spec_last_flush(),
                limit == old(self).config().max_batch_size,
                self.delivery().scheduler().batches() == old(self).delivery().scheduler().batches(),
                forall|d: Principal|
                    is_recipient(nodes, d) ==> old(self).delivery().next_sequence(d) < u64::MAX,
                forall|d: Principal|
                    recipient_before(nodes, i as int, d) ==> received(
                        old(self).delivery().pending(d),
                        #[trigger] self.delivery().pending(d),
                        d,
                        old(self).delivery().next_sequence(d),
                        *event,
                    ),
                forall|d: Principal|
                    !recipient_before(nodes, i as int, d) ==> #[trigger] self.delivery().pending(d)
                        == old(self).delivery().pending(d),
                forall|d: Principal|
                    #[trigger] self.delivery().next_sequence(d) == if recipient_before(
                        nodes,
                        i as int,
                        d,
                    ) {
                        old(self).delivery().next_sequence(d) + 1
                    } else {
                        old(self).delivery().next_sequence(d)
                    },
                forall|d: Principal|
                    #[trigger] self.delivery().spec_is_ready(d)
                        <==> old(self).delivery().spec_is_ready(d)
                        || (recipient_before(nodes, i as int, d)
                        && self.delivery().pending(d).len() >= limit
                            && !old(self).delivery().spec_is_in_flight(d)),
            decreases n - i,
        {
            let node = self.registry.node_at(i);
            let ghost prev = *self;
            proof {
                lemma_found_at(nodes, i as int);
                assert(!recipient_before(nodes, i as int, node.id)) by {
                    if recipient_before(nodes, i as int, node.id) {
                        let j = choose|j: int|
                            0 <= j < i && j < nodes.len() && (#[trigger] nodes[j]).id == node.id
                                && nodes[j].state != NodeState::Retired;
                        assert(nodes[j].id != nodes[i as int].id);
                    }
                }
                assert forall|d: Principal|
                    recipient_before(nodes, i as int + 1, d) <==> recipient_before(
                        nodes,
                        i as int,
                        d,
                    ) || (d == node.id && node.state != NodeState::Retired) by {
                    if recipient_before(nodes, i as int + 1, d) {
                        let j = choose|j: int|
                            0 <= j < i + 1 && j < nodes.len() && (#[trigger] nodes[j]).id == d
                                && nodes[j].state != NodeState::Retired;
                        if j < i {
                            assert(recipient_before(nodes, i as int, d));
                        }
                    }
                    if d == node.id && node.state != NodeState::Retired {
                        assert(nodes[i as int].id == d);
                    }
                }
            }
            if node.state != NodeState::Retired {
                proof {
                    assert(is_recipient(nodes, node.id));
                    assert(self.delivery().next_sequence(node.id)
                        == old(self).delivery().next_sequence(node.id));
                }
                let payload = event.clone();
                let _ = self.delivery.submit(node.id, payload);
                proof {
                    let d0 = node.id;
                    let q = prev.delivery().pending(d0);
                    assert(q == old(self).delivery().pending(d0));
                    assert(self.delivery().pending(d0).drop_last() =~= q);
                    if !prev.delivery().spec_is_ready(d0) {
                        crate::keyed::lemma_push(prev.delivery().scheduler().ready(), d0);
                    }
                    assert forall|d: Principal|
                        #[trigger] self.delivery().spec_is_ready(d)
                            <==> old(self).delivery().spec_is_ready(d)
                            || (recipient_before(nodes, i as int + 1, d)
                            && self.delivery().pending(d).len() >= limit
                                && !old(self).delivery().spec_is_in_flight(d)) by {
                        assert(prev.delivery().spec_is_ready(d)
                            <==> old(self).delivery().spec_is_ready(d)
                            || (recipient_before(nodes, i as int, d)
                            && prev.delivery().pending(d).len() >= limit
                                && !old(self).delivery().spec_is_in_flight(d)));
                        if d != d0 {
                            assert(self.delivery().pending(d) == prev.delivery().pending(d));
                        }
                    }
                    assert forall|d: Principal|
                        recipient_before(nodes, i as int + 1, d) implies received(
                        old(self).delivery().pending(d),
                        #[trigger] self.delivery().pending(d),
                        d,
                        old(self).delivery().next_sequence(d),
                        *event,
                    ) by {
                        if d != d0 {
                            assert(self.delivery().pending(d) == prev.delivery().pending(d));
                        }
                    }
                    assert forall|d: Principal|
                        !recipient_before(nodes, i as int + 1, d)
                            implies #[trigger] self.delivery().pending(
                        d,
                    ) == old(self).delivery().pending(d) by {
                        assert(prev.delivery().pending(d) == old(self).delivery().pending(d));
                    }
                    assert forall|d: Principal|
                        #[trigger] self.delivery().next_sequence(d) == if recipient_before(
                            nodes,
                            i as int + 1,
                            d,
                        ) {
                            old(self).delivery().next_sequence(d) + 1
                        } else {
                            old(self).delivery().next_sequence(d)
                        } by {
                        assert(prev.delivery().next_sequence(d) == if recipient_before(
                            nodes,
                            i as int,
                            d,
                        ) {
                            old(self).delivery().next_sequence(d) + 1
                        } else {
                            old(self).delivery().next_sequence(d)
                        });
                    }
                }
            }
            i = i + 1;
        }
        proof {
            assert forall|d: Principal| recipient_before(nodes, n as int, d) <==> is_recipient(
                nodes,
                d,
            ) by {
                if recipient_before(nodes, n as int, d) {
                    let j = choose|j: int|
                        0 <= j < n && j < nodes.len() && (#[trigger] nodes[j]).id == d
                            && nodes[j].state != NodeState::Retired;
                    lemma_found_at(nodes, j);
                }
                if is_recipient(nodes, d) {
                    crate::keyed::lemma_lookup_index(nodes, d);
                    let j = index_of_key(nodes, d);
                    assert(nodes[j].id == d);
                }
            }
        }
    }
}

} // verus!
