//! The upgrade coordinator: tracks the nodes that need a new binary image
//! and drives a rolling upgrade with a bound on how many run at once.

use vstd::prelude::*;
use crate::keyed::{
    all_distinct, count_where, find_key, index_of_key, keys_distinct, lemma_count_bounds,
    lemma_count_push, lemma_count_remove, lemma_count_step, lemma_count_update, lemma_push,
    lemma_remove, lemma_update, lookup, Keyed,
};
use crate::registry::{Node, NodeRegistry, NodeState};
use crate::types::{BuildVersion, Outcome, Principal};

verus! {

/// Where an upgrade task stands.
#[derive(Clone, Copy, Debug, PartialEq, Eq, Structural)]
pub enum UpgradeState {
    /// Waiting for a dispatch pass.
    Pending,
    /// The install call is under way.
    InFlight,
    /// Gave up after too many failures; waits for an operator.
    Failed,
}

/// The upgrade of one node to a target version.
#[derive(Clone, Copy, Debug, PartialEq, Eq)]
pub struct UpgradeTask {
    pub node: Principal,
    pub target: BuildVersion,
    pub attempts: u32,
    pub state: UpgradeState,
}

impl Keyed for UpgradeTask {
    open spec fn key(&self) -> Principal {
        self.node
    }

    fn key_of(&self) -> (k: Principal) {
        self.node
    }
}

/// The tasks of `tasks` that are in `state`.
pub open spec fn count_tasks(tasks: Seq<UpgradeTask>, state: UpgradeState) -> nat {
    count_where(tasks, |t: UpgradeTask| t.state == state)
}

/// How many pending tasks stand before position `i`.
pub open spec fn pending_before(tasks: Seq<UpgradeTask>, i: int) -> nat {
    count_tasks(tasks.take(i), UpgradeState::Pending)
}

/// Whether a dispatch pass with `slots` free slots selects the task at
/// position `i`: it is pending, and fewer than `slots` pending tasks stand
/// before it.
pub open spec fn selected(tasks: Seq<UpgradeTask>, i: int, slots: int) -> bool {
    tasks[i].state == UpgradeState::Pending && pending_before(tasks, i) < slots
}

/// The task after its install call has failed once more: pending again
/// while the failures stay under the ceiling, failed for good otherwise.
pub open spec fn after_failure(task: UpgradeTask, retry_ceiling: u32) -> UpgradeTask {
    UpgradeTask {
        attempts: (task.attempts + 1) as u32,
        state: if task.attempts + 1 < retry_ceiling {
            UpgradeState::Pending
        } else {
            UpgradeState::Failed
        },
        ..task
    }
}

/// What resolving the install call to `node` reports: nothing where no task
/// of `node` is in flight, success where the image was installed, and
/// otherwise a retry or the end of the retries, with the failures so far.
pub open spec fn resolution(
    tasks: Seq<UpgradeTask>,
    node: Principal,
    installed: bool,
    retry_ceiling: u32,
) -> Option<Outcome> {
    match lookup(tasks, node) {
        Some(t) => if t.state != UpgradeState::InFlight {
            None
        } else if installed {
            Some(Outcome::Success)
        } else if t.attempts + 1 < retry_ceiling {
            Some(Outcome::Retry { attempts: (t.attempts + 1) as u32 })
        } else {
            Some(Outcome::DropPermanently { attempts: (t.attempts + 1) as u32 })
        },
        None => None,
    }
}

/// The tasks after the install call to `node` was resolved: the task is
/// discarded on success, and counts one more failure otherwise.
pub open spec fn resolved(
    tasks: Seq<UpgradeTask>,
    node: Principal,
    installed: bool,
    retry_ceiling: u32,
) -> Seq<UpgradeTask> {
    match lookup(tasks, node) {
        Some(t) => if t.state != UpgradeState::InFlight {
            tasks
        } else if installed {
            tasks.remove(index_of_key(tasks, node))
        } else {
            tasks.update(index_of_key(tasks, node), after_failure(t, retry_ceiling))
        },
        None => tasks,
    }
}

/// Whether the sufficiency check asks for an upgrade of `node`: it is in
/// service and does not run the desired version.
pub open spec fn needs_upgrade(node: Node, desired: BuildVersion) -> bool {
    node.state == NodeState::Active && node.version != desired
}

/// The tasks after an upgrade of `node` to `target` was asked for: a new
/// pending task at the end where the node has none, a pending task with its
/// target refreshed, and no change to a task in flight or failed.
pub open spec fn required(tasks: Seq<UpgradeTask>, node: Principal, target: BuildVersion) -> Seq<
    UpgradeTask,
> {
    match lookup(tasks, node) {
        None => tasks.push(
            UpgradeTask { node, target, attempts: 0, state: UpgradeState::Pending },
        ),
        Some(t) => if t.state == UpgradeState::Pending {
            tasks.update(index_of_key(tasks, node), UpgradeTask { target, ..t })
        } else {
            tasks
        },
    }
}

/// The tasks after the sufficiency check has looked at `nodes` in order.
pub open spec fn checked(tasks: Seq<UpgradeTask>, nodes: Seq<Node>, desired: BuildVersion) -> Seq<
    UpgradeTask,
>
    decreases nodes.len(),
{
    if nodes.len() == 0 {
        tasks
    } else {
        let before = checked(tasks, nodes.drop_last(), desired);
        if needs_upgrade(nodes.last(), desired) {
            required(before, nodes.last().id, desired)
        } else {
            before
        }
    }
}

/// The tasks after a dispatch pass with room for `max_concurrent` install
/// calls at once.
pub open spec fn after_dispatch(tasks: Seq<UpgradeTask>,
    max_concurrent: usize) -> Seq<UpgradeTask> {
    Seq::new(
        tasks.len(),
        |i: int|
            if selected(tasks, i, max_concurrent - count_tasks(tasks, UpgradeState::InFlight)) {
                UpgradeTask { state: UpgradeState::InFlight, ..tasks[i] }
            } else {
                tasks[i]
            },
    )
}

/// The tasks after a restart: what was in flight is pending again.
pub open spec fn after_restart(tasks: Seq<UpgradeTask>) -> Seq<UpgradeTask> {
    Seq::new(
        tasks.len(),
        |i: int|
            if tasks[i].state == UpgradeState::InFlight {
                UpgradeTask { state: UpgradeState::Pending, ..tasks[i] }
            } else {
                tasks[i]
            },
    )
}

/// The parts of an upgrade coordinator, as they are persisted.
#[derive(Debug, PartialEq, Eq)]
pub struct UpgradeSnapshot {
    pub max_concurrent_upgrades: usize,
    pub retry_ceiling: u32,
    pub tasks: Vec<UpgradeTask>,
}

/// Tracks one upgrade task per node that needs one.
pub struct UpgradeCoordinator {
    max_concurrent_upgrades: usize,
    retry_ceiling: u32,
    tasks: Vec<UpgradeTask>,
}

impl UpgradeCoordinator {
    /// How many install calls may be under way at once.
    pub closed spec fn spec_max_concurrent_upgrades(&self) -> usize {
        self.max_concurrent_upgrades
    }

    /// How many failures end the automatic retries of a task.
    pub closed spec fn spec_retry_ceiling(&self) -> u32 {
        self.retry_ceiling
    }

    /// The tasks, oldest first.
    pub closed spec fn tasks(&self) -> Seq<UpgradeTask> {
        self.tasks@
    }

    /// The task of `node`, if it has one.
    pub open spec fn task_of(&self, node: Principal) -> Option<UpgradeTask> {
        lookup(self.tasks(), node)
    }

    /// Whether two coordinators have the same configuration.
    pub open spec fn same_settings(&self, other: &Self) -> bool {
        &&& self.spec_max_concurrent_upgrades() == other.spec_max_concurrent_upgrades()
        &&& self.spec_retry_ceiling() == other.spec_retry_ceiling()
    }

    /// Whether `tasks` are in order under the given limits: a node has at
    /// most one task, no more than `max_concurrent` are in flight, and a
    /// task that has not failed for good has fewer failures than the ceiling.
    pub open spec fn tasks_wf(tasks: Seq<UpgradeTask>, max_concurrent: usize,
        retry_ceiling: u32) -> bool {
        &&& keys_distinct(tasks)
        &&& count_tasks(tasks, UpgradeState::InFlight) <= max_concurrent
        &&& forall|i: int|
            0 <= i < tasks.len() && (#[trigger] tasks[i]).state != UpgradeState::Failed
                ==> tasks[i].attempts == 0 || tasks[i].attempts < retry_ceiling
    }

    /// A node has at most one task, the tasks in flight respect the bound,
    /// and only tasks that failed for good have reached the ceiling.
    pub open spec fn wf(&self) -> bool {
        Self::tasks_wf(
            self.tasks(),
            self.spec_max_concurrent_upgrades(),
            self.spec_retry_ceiling(),
        )
    }

    /// A coordinator without tasks.
    pub fn new(max_concurrent_upgrades: usize, retry_ceiling: u32) -> (coordinator: Self)
        ensures
            coordinator.wf(),
            coordinator.spec_max_concurrent_upgrades() == max_concurrent_upgrades,
            coordinator.spec_retry_ceiling() == retry_ceiling,
            coordinator.tasks() == Seq::<UpgradeTask>::empty(),
    {
        UpgradeCoordinator { max_concurrent_upgrades, retry_ceiling, tasks: Vec::new() }
    }

    /// How many install calls may be under way at once.
    #[verifier::when_used_as_spec(spec_max_concurrent_upgrades)]
    pub fn max_concurrent_upgrades(&self) -> (n: usize)
        ensures
            n == self.spec_max_concurrent_upgrades(),
    {
        self.max_concurrent_upgrades
    }

    /// How many failures end the automatic retries of a task.
    #[verifier::when_used_as_spec(spec_retry_ceiling)]
    pub fn retry_ceiling(&self) -> (n: u32)
        ensures
            n == self.spec_retry_ceiling(),
    {
        self.retry_ceiling
    }

    /// The task of `node`, if it has one.
    pub fn get_task(&self, node: Principal) -> (task: Option<UpgradeTask>)
        requires
            self.wf(),
        ensures
            task == self.task_of(node),
    {
        match find_key(&self.tasks, node) {
            Some(i) => Some(self.tasks[i]),
            None => None,
        }
    }

    /// How many tasks are in `state`.
    pub fn count(&self, state: UpgradeState) -> (n: usize)
        ensures
            n == count_tasks(self.tasks(), state),
    {
        let ghost p = |t: UpgradeTask| t.state == state;
        let mut n: usize = 0;
        let mut i: usize = 0;
        while i < self.tasks.len()
            invariant
                i <= self.tasks@.len(),
                n == count_where(self.tasks@.take(i as int), p),
                n <= i,
                p == (|t: UpgradeTask| t.state == state),
            decreases self.tasks@.len() - i,
        {
            proof {
                lemma_count_step(self.tasks@, p, i as int);
            }
            if self.tasks[i].state == state {
                n = n + 1;
            }
            i = i + 1;
        }
        assert(self.tasks@.take(i as int) =~= self.tasks@);
        n
    }

    /// Asks for an upgrade of `node` to `target`: creates a pending task
    /// where the node has none, refreshes the target of a pending task, and
    /// leaves a task in flight or failed as it is.
    pub fn require(&mut self, node: Principal, target: BuildVersion)
        requires
            old(self).wf(),
        ensures
            final(self).wf(),
            final(self).same_settings(old(self)),
            final(self).tasks() == required(old(self).tasks(), node, target),
    {
        match find_key(&self.tasks, node) {
            Some(i) => {
                let t = self.tasks[i];
                if t.state == UpgradeState::Pending {
                    let refreshed = UpgradeTask {
                        node: t.node,
                        target,
                        attempts: t.attempts,
                        state: t.state,
                    };
                    proof {
                        lemma_update(self.tasks@, i as int, refreshed);
                        lemma_count_update(
                            self.tasks@,
                            |t: UpgradeTask| t.state == UpgradeState::InFlight,
                            i as int,
                            refreshed,
                        );
                    }
                    self.tasks.set(i, refreshed);
                }
            },
            None => {
                let fresh = UpgradeTask { node, target, attempts: 0, state: UpgradeState::Pending };
                proof {
                    lemma_push(self.tasks@, fresh);
                    lemma_count_push(
                        self.tasks@,
                        |t: UpgradeTask| t.state == UpgradeState::InFlight,
                        fresh,
                    );
                }
                self.tasks.push(fresh);
            },
        }
    }

    /// The periodic sufficiency check: compares the version of every node
    /// in service with `desired` and asks for an upgrade of each one that
    /// differs, in the order of the registry.
    pub fn check_versions(&mut self, registry: &NodeRegistry, desired: BuildVersion)
        requires
            old(self).wf(),
        ensures
            final(self).wf(),
            final(self).same_settings(old(self)),
            final(self).tasks() == checked(old(self).tasks(), registry@, desired),
    {
        let n = registry.len();
        let mut i: usize = 0;
        while i < n
            invariant
                i <= n,
                n == registry@.len(),
                self.wf(),
                self.same_settings(old(self)),
                self.tasks() == checked(old(self).tasks(), registry@.take(i as int), desired),
            decreases n - i,
        {
            let node = registry.node_at(i);
            proof {
                assert(registry@.take(i as int + 1).drop_last() =~= registry@.take(i as int));
            }
            if node.state == NodeState::Active && node.version != desired {
                self.require(node.id, desired);
            }
            i = i + 1;
        }
        assert(registry@.take(n as int) =~= registry@);
    }

    /// The dispatch pass: moves pending tasks in flight, oldest first, until
    /// the bound on concurrent upgrades is reached, and returns them so
    /// that the install call can be issued to each. Tasks that failed for
    /// good are passed over.
    pub fn dispatch(&mut self) -> (dispatched: Vec<UpgradeTask>)
        requires
            old(self).wf(),
        ensures
            final(self).wf(),
            final(self).same_settings(old(self)),
            final(self).tasks() == after_dispatch(
                old(self).tasks(),
                old(self).spec_max_concurrent_upgrades(),
            ),
            forall|i: int|
                0 <= i < old(self).tasks().len() && #[trigger] selected(
                    old(self).tasks(),
                    i,
                    old(self).spec_max_concurrent_upgrades() - count_tasks(
                        old(self).tasks(),
                        UpgradeState::InFlight,
                    ),
                ) ==> pending_before(old(self).tasks(), i) < dispatched@.len()
                    && dispatched@[pending_before(
                    old(self).tasks(),
                    i,
                ) as int] == final(self).tasks()[i],
            dispatched@.len() == vstd::math::min(
                old(self).spec_max_concurrent_upgrades() - count_tasks(
                    old(self).tasks(),
                    UpgradeState::InFlight,
                ),
                count_tasks(old(self).tasks(), UpgradeState::Pending) as int,
            ),
            count_tasks(final(self).tasks(), UpgradeState::InFlight) == count_tasks(
                old(self).tasks(),
                UpgradeState::InFlight,
            ) + dispatched@.len(),
            count_tasks(final(self).tasks(), UpgradeState::Pending) + dispatched@.len()
                == count_tasks(old(self).tasks(), UpgradeState::Pending),
            count_tasks(final(self).tasks(), UpgradeState::Failed) == count_tasks(
                old(self).tasks(),
                UpgradeState::Failed,
            ),
    {
        let mut dispatched: Vec<UpgradeTask> = Vec::new();
        let in_flight_before = self.count(UpgradeState::InFlight);
        let mut in_flight: usize = in_flight_before;
        let ghost before = self.tasks@;
        let ghost slots = self.max_concurrent_upgrades - in_flight_before;
        let ghost is_in_flight = |t: UpgradeTask| t.state == UpgradeState::InFlight;
        let ghost is_pending = |t: UpgradeTask| t.state == UpgradeState::Pending;
        let ghost is_failed = |t: UpgradeTask| t.state == UpgradeState::Failed;
        let mut i: usize = 0;
        while i < self.tasks.len()
            invariant
                i <= self.tasks@.len(),
                self.tasks@.len() == before.len(),
                before == old(self).tasks(),
                self.same_settings(old(self)),
                old(self).wf(),
                slots == self.max_concurrent_upgrades - in_flight_before,
                in_flight_before == count_tasks(before, UpgradeState::InFlight),
                is_in_flight == (|t: UpgradeTask| t.state == UpgradeState::InFlight),
                is_pending == (|t: UpgradeTask| t.state == UpgradeState::Pending),
                is_failed == (|t: UpgradeTask| t.state == UpgradeState::Failed),
                in_flight == in_flight_before + dispatched@.len(),
                in_flight <= self.max_concurrent_upgrades,
                dispatched@.len()
                    == vstd::math::min(slots, pending_before(before, i as int) as int),
                forall|j: int|
                    0 <= j < i ==> #[trigger] self.tasks@[j] == if selected(before, j, slots) {
                        UpgradeTask { state: UpgradeState::InFlight, ..before[j] }
                    } else {
                        before[j]
                    },
                forall|j: int| i <= j < before.len() ==> #[trigger] self.tasks@[j] == before[j],
                forall|j: int|
                    0 <= j < i && #[trigger] selected(before, j, slots)
                        ==> pending_before(before, j)
                        < dispatched@.len() && dispatched@[pending_before(before, j) as int]
                        == self.tasks@[j],
                count_where(self.tasks@.take(i as int), is_in_flight) == count_where(
                    before.take(i as int),
                    is_in_flight,
                ) + dispatched@.len(),
                count_where(self.tasks@.take(i as int), is_pending) + dispatched@.len()
                    == count_where(before.take(i as int), is_pending),
                count_where(self.tasks@.take(i as int), is_failed) == count_where(
                    before.take(i as int),
                    is_failed,
                ),
            decreases self.tasks@.len() - i,
        {
            let t = self.tasks[i];
            let ghost current = self.tasks@;
            proof {
                lemma_count_step(before, is_in_flight, i as int);
                lemma_count_step(before, is_pending, i as int);
                lemma_count_step(before, is_failed, i as int);
            }
            if in_flight < self.max_concurrent_upgrades && t.state == UpgradeState::Pending {
                let started = UpgradeTask {
                    node: t.node,
                    target: t.target,
                    attempts: t.attempts,
                    state: UpgradeState::InFlight,
                };
                self.tasks.set(i, started);
                dispatched.push(started);
                in_flight = in_flight + 1;
                proof {
                    assert(self.tasks@.take(i as int) =~= current.take(i as int));
                }
            }
            proof {
                lemma_count_step(self.tasks@, is_in_flight, i as int);
                lemma_count_step(self.tasks@, is_pending, i as int);
                lemma_count_step(self.tasks@, is_failed, i as int);
                assert forall|j: int| 0 <= j < i + 1
                    && #[trigger] selected(before, j, slots) implies pending_before(
                    before,
                    j,
                ) < dispatched@.len() && dispatched@[pending_before(before, j) as int]
                    == self.tasks@[j] by {
                    if j < i {
                        assert(current[j] == self.tasks@[j]);
                    }
                }
            }
            i = i + 1;
        }
        proof {
            assert(self.tasks@.take(i as int) =~= self.tasks@);
            assert(before.take(i as int) =~= before);
            let after = self.tasks@;
            assert forall|a: int, b: int| 0 <= a < b < after.len()
                implies (#[trigger] after[a]).key()
                != (#[trigger] after[b]).key() by {
                assert(before[a].key() != before[b].key());
            }
            assert forall|k: int|
                0 <= k < after.len() && (#[trigger] after[k]).state
                    != UpgradeState::Failed implies after[k].attempts == 0 || after[k].attempts
                < self.retry_ceiling by {
                assert(before[k].state != UpgradeState::Failed);
            }
            assert(after =~= after_dispatch(before, self.max_concurrent_upgrades));
        }
        dispatched
    }

    /// Resolves the install call to `node`. On success the task is
    /// discarded. On failure its attempt count goes up by one; the task is
    /// pending again while the count stays under the retry ceiling, and
    /// failed for good otherwise. Without a task in flight for `node`
    /// nothing changes and `None` is returned.
    pub fn resolve(&mut self, node: Principal, installed: bool) -> (outcome: Option<Outcome>)
        requires
            old(self).wf(),
        ensures
            final(self).wf(),
            final(self).same_settings(old(self)),
            outcome == resolution(old(self).tasks(), node, installed,
                old(self).spec_retry_ceiling()),
            final(self).tasks() == resolved(
                old(self).tasks(),
                node,
                installed,
                old(self).spec_retry_ceiling(),
            ),
            forall|n: Principal| n != node ==> final(self).task_of(n) == old(self).task_of(n),
            outcome == Some(Outcome::Success) ==> final(self).task_of(node).is_none(),
            outcome.is_some() && outcome != Some(Outcome::Success) ==> final(self).task_of(node)
                == Some(
                after_failure(old(self).task_of(node).unwrap(), old(self).spec_retry_ceiling()),
            ),
    {
        let ghost is_in_flight = |t: UpgradeTask| t.state == UpgradeState::InFlight;
        match find_key(&self.tasks, node) {
            Some(i) => {
                let t = self.tasks[i];
                if t.state != UpgradeState::InFlight {
                    return None;
                }
                if installed {
                    proof {
                        lemma_remove(self.tasks@, i as int);
                        lemma_count_remove(self.tasks@, is_in_flight, i as int);
                    }
                    let _ = self.tasks.remove(i);
                    proof {
                        let after = self.tasks@;
                        let before = old(self).tasks@;
                        assert forall|k: int|
                            0 <= k < after.len() && (#[trigger] after[k]).state
                                != UpgradeState::Failed implies after[k].attempts == 0
                            || after[k].attempts < self.retry_ceiling by {
                            let sk = if k < i { k } else { k + 1 };
                            assert(after[k] == before[sk]);
                        }
                    }
                    Some(Outcome::Success)
                } else {
                    let attempts = t.attempts + 1;
                    let retry = attempts < self.retry_ceiling;
                    let next = UpgradeTask {
                        node: t.node,
                        target: t.target,
                        attempts,
                        state: if retry {
                            UpgradeState::Pending
                        } else {
                            UpgradeState::Failed
                        },
                    };
                    proof {
                        lemma_update(self.tasks@, i as int, next);
                        lemma_count_update(self.tasks@, is_in_flight, i as int, next);
                    }
                    self.tasks.set(i, next);
                    if retry {
                        Some(Outcome::Retry { attempts })
                    } else {
                        Some(Outcome::DropPermanently { attempts })
                    }
                }
            },
            None => None,
        }
    }

    /// An operator clears the task of `node` that failed for good, so that
    /// the next sufficiency check may ask for the upgrade again. Returns
    /// whether there was such a task; otherwise nothing changes.
    pub fn clear_failed(&mut self, node: Principal) -> (cleared: bool)
        requires
            old(self).wf(),
        ensures
            final(self).wf(),
            final(self).same_settings(old(self)),
            cleared == match old(self).task_of(node) {
                Some(t) => t.state == UpgradeState::Failed,
                None => false,
            },
            cleared ==> final(self).tasks() == old(self).tasks().remove(
                index_of_key(old(self).tasks(), node),
            ) && final(self).task_of(node).is_none(),
            !cleared ==> final(self).tasks() == old(self).tasks(),
            forall|n: Principal| n != node ==> final(self).task_of(n) == old(self).task_of(n),
    {
        match find_key(&self.tasks, node) {
            Some(i) => {
                if self.tasks[i].state == UpgradeState::Failed {
                    self.remove_at(i);
                    true
                } else {
                    false
                }
            },
            None => false,
        }
    }

    /// Drops the task of `node`, whatever its state.
    pub fn forget(&mut self, node: Principal)
        requires
            old(self).wf(),
        ensures
            final(self).wf(),
            final(self).same_settings(old(self)),
            final(self).task_of(node).is_none(),
            final(self).tasks() == if old(self).task_of(node).is_some() {
                old(self).tasks().remove(index_of_key(old(self).tasks(), node))
            } else {
                old(self).tasks()
            },
            forall|n: Principal| n != node ==> final(self).task_of(n) == old(self).task_of(n),
    {
        match find_key(&self.tasks, node) {
            Some(i) => {
                self.remove_at(i);
            },
            None => {},
        }
    }

    fn remove_at(&mut self, i: usize)
        requires
            old(self).wf(),
            i < old(self).tasks().len(),
        ensures
            final(self).wf(),
            final(self).same_settings(old(self)),
            final(self).tasks() == old(self).tasks().remove(i as int),
            final(self).task_of(old(self).tasks()[i as int].node).is_none(),
            forall|n: Principal|
                n != old(self).tasks()[i as int].node ==> final(self).task_of(n)
                    == old(self).task_of(n),
    {
        proof {
            lemma_remove(self.tasks@, i as int);
            lemma_count_remove(
                self.tasks@,
                |t: UpgradeTask| t.state == UpgradeState::InFlight,
                i as int,
            );
        }
        let _ = self.tasks.remove(i);
        proof {
            let after = self.tasks@;
            let before = old(self).tasks@;
            assert forall|k: int|
                0 <= k < after.len() && (#[trigger] after[k]).state
                    != UpgradeState::Failed implies after[k].attempts == 0 || after[k].attempts
                < self.retry_ceiling by {
                let sk = if k < i { k } else { k + 1 };
                assert(after[k] == before[sk]);
            }
        }
    }

    /// After a restart: no install call is under way any more. Every task
    /// that was in flight is pending again, with its attempts as they were.
    pub fn restart(&mut self)
        requires
            old(self).wf(),
        ensures
            final(self).wf(),
            final(self).same_settings(old(self)),
            final(self).tasks() == after_restart(old(self).tasks()),
            count_tasks(final(self).tasks(), UpgradeState::InFlight) == 0,
    {
        let mut i: usize = 0;
        while i < self.tasks.len()
            invariant
                i <= self.tasks@.len(),
                self.tasks@.len() == old(self).tasks@.len(),
                self.same_settings(old(self)),
                forall|j: int|
                    0 <= j < i ==> #[trigger] self.tasks@[j] == if old(self).tasks@[j].state
                        == UpgradeState::InFlight {
                        UpgradeTask { state: UpgradeState::Pending, ..old(self).tasks@[j] }
                    } else {
                        old(self).tasks@[j]
                    },
                forall|j: int|
                    i <= j < self.tasks@.len() ==> #[trigger] self.tasks@[j] == old(self).tasks@[j],
            decreases self.tasks@.len() - i,
        {
            let t = self.tasks[i];
            if t.state == UpgradeState::InFlight {
                self.tasks.set(
                    i,
                    UpgradeTask {
                        node: t.node,
                        target: t.target,
                        attempts: t.attempts,
                        state: UpgradeState::Pending,
                    },
                );
            }
            i = i + 1;
        }
        proof {
            let after = self.tasks@;
            let before = old(self).tasks@;
            assert forall|a: int, b: int| 0 <= a < b < after.len()
                implies (#[trigger] after[a]).key()
                != (#[trigger] after[b]).key() by {
                assert(before[a].key() != before[b].key());
            }
            assert forall|k: int|
                0 <= k < after.len() && (#[trigger] after[k]).state
                    != UpgradeState::Failed implies after[k].attempts == 0 || after[k].attempts
                < self.retry_ceiling by {
                assert(before[k].state != UpgradeState::Failed);
            }
            lemma_count_bounds(after, |t: UpgradeTask| t.state == UpgradeState::InFlight);
            assert(after =~= after_restart(before));
        }
    }

    /// Whether the coordinator is made of exactly these parts.
    pub open spec fn holds(&self, parts: UpgradeSnapshot) -> bool {
        &&& self.spec_max_concurrent_upgrades() == parts.max_concurrent_upgrades
        &&& self.spec_retry_ceiling() == parts.retry_ceiling
        &&& self.tasks() == parts.tasks@
    }

    /// The parts of the coordinator.
    pub fn to_parts(&self) -> (parts: UpgradeSnapshot)
        requires
            self.wf(),
        ensures
            self.holds(parts),
            Self::tasks_wf(parts.tasks@, parts.max_concurrent_upgrades, parts.retry_ceiling),
    {
        let mut tasks: Vec<UpgradeTask> = Vec::new();
        let mut i: usize = 0;
        while i < self.tasks.len()
            invariant
                i <= self.tasks@.len(),
                tasks@ == self.tasks@.take(i as int),
            decreases self.tasks@.len() - i,
        {
            tasks.push(self.tasks[i]);
            proof {
                assert(self.tasks@.take(i as int).push(self.tasks@[i as int])
                    =~= self.tasks@.take(i as int + 1));
            }
            i = i + 1;
        }
        proof {
            assert(self.tasks@.take(i as int) =~= self.tasks@);
        }
        UpgradeSnapshot {
            max_concurrent_upgrades: self.max_concurrent_upgrades,
            retry_ceiling: self.retry_ceiling,
            tasks,
        }
    }

    /// The coordinator made of `parts`, or `None` where the tasks are not
    /// in order under the limits.
    pub fn from_parts(parts: UpgradeSnapshot) -> (coordinator: Option<Self>)
        ensures
            coordinator.is_some() == Self::tasks_wf(
                parts.tasks@,
                parts.max_concurrent_upgrades,
                parts.retry_ceiling,
            ),
            coordinator.is_some() ==> coordinator.unwrap().wf() && coordinator.unwrap().holds(
                parts,
            ),
    {
        if !all_distinct(&parts.tasks) {
            return None;
        }
        let candidate = UpgradeCoordinator {
            max_concurrent_upgrades: parts.max_concurrent_upgrades,
            retry_ceiling: parts.retry_ceiling,
            tasks: parts.tasks,
        };
        if candidate.count(UpgradeState::InFlight) > candidate.max_concurrent_upgrades {
            return None;
        }
        let mut i: usize = 0;
        while i < candidate.tasks.len()
            invariant
                i <= candidate.tasks@.len(),
                candidate.tasks@ == parts.tasks@,
                candidate.retry_ceiling == parts.retry_ceiling,
                forall|j: int|
                    0 <= j < i && (#[trigger] candidate.tasks@[j]).state != UpgradeState::Failed
                        ==> candidate.tasks@[j].attempts == 0 || candidate.tasks@[j].attempts
                        < candidate.retry_ceiling,
            decreases candidate.tasks@.len() - i,
        {
            let t = candidate.tasks[i];
            if t.state != UpgradeState::Failed && t.attempts != 0 && t.attempts
                >= candidate.retry_ceiling {
                proof {
                    let bad = parts.tasks@[i as int];
                    assert(bad.state != UpgradeState::Failed && !(bad.attempts == 0 || bad.attempts
                        < parts.retry_ceiling));
                }
                return None;
            }
            i = i + 1;
        }
        Some(candidate)
    }
}

} // verus!
