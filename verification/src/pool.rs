//! The node pool: a standby supply of provisioned nodes that are ready to be
//! assigned.

use vstd::prelude::*;
use crate::keyed::{
    all_distinct, count_where, find_key, has_key, index_of_key, keys_distinct, lemma_count_bounds,
    lemma_count_step, lemma_found_at, lemma_push, lemma_remove, lemma_update,
    lookup, Keyed,
};
use crate::types::{Principal, TimestampMillis};

verus! {

/// One provisioned node in the pool's bookkeeping.
#[derive(Clone, Copy, Debug, PartialEq, Eq)]
pub struct PoolEntry {
    pub node: Principal,
    pub provisioned_at: TimestampMillis,
    pub assigned: bool,
}

impl Keyed for PoolEntry {
    open spec fn key(&self) -> Principal {
        self.node
    }

    fn key_of(&self) -> (k: Principal) {
        self.node
    }
}

/// Why an allocation failed.
#[derive(Clone, Copy, Debug, PartialEq, Eq, Structural)]
pub enum PoolError {
    /// No unassigned node is available.
    PoolExhausted,
}

/// How many entries of `entries` are not assigned.
pub open spec fn unassigned_count(entries: Seq<PoolEntry>) -> nat {
    count_where(entries, |e: PoolEntry| !e.assigned)
}

/// How many nodes are missing to reach `target`, counting the `provisioning`
/// requests that are under way as if they had been served.
pub open spec fn deficit(entries: Seq<PoolEntry>, target: u16, provisioning: u16) -> nat {
    if unassigned_count(entries) + provisioning < target {
        (target - unassigned_count(entries) - provisioning) as nat
    } else {
        0
    }
}

/// Whether `i` is the position of the oldest unassigned entry.
pub open spec fn is_oldest_unassigned(entries: Seq<PoolEntry>, i: int) -> bool {
    &&& 0 <= i < entries.len()
    &&& !entries[i].assigned
    &&& forall|j: int| 0 <= j < i ==> (#[trigger] entries[j]).assigned
}

/// Keeps a target number of provisioned, unassigned nodes at hand.
pub struct NodePool {
    target_size: u16,
    provisioning: u16,
    entries: Vec<PoolEntry>,
}

impl NodePool {
    /// The number of unassigned nodes that the pool aims to hold.
    pub closed spec fn spec_target_size(&self) -> u16 {
        self.target_size
    }

    /// The provisioning requests that are under way.
    pub closed spec fn spec_provisioning(&self) -> u16 {
        self.provisioning
    }

    /// The entries, in the order in which their nodes were provisioned.
    pub closed spec fn entries(&self) -> Seq<PoolEntry> {
        self.entries@
    }

    /// The entry of `node`, if the pool has one.
    pub open spec fn entry_of(&self, node: Principal) -> Option<PoolEntry> {
        lookup(self.entries(), node)
    }

    /// A node has at most one entry.
    pub open spec fn wf(&self) -> bool {
        keys_distinct(self.entries())
    }

    /// An empty pool that aims at `target_size` unassigned nodes.
    pub fn new(target_size: u16) -> (pool: Self)
        ensures
            pool.wf(),
            pool.spec_target_size() == target_size,
            pool.spec_provisioning() == 0,
            pool.entries() == Seq::<PoolEntry>::empty(),
    {
        NodePool { target_size, provisioning: 0, entries: Vec::new() }
    }

    /// The number of unassigned nodes that the pool aims to hold.
    #[verifier::when_used_as_spec(spec_target_size)]
    pub fn target_size(&self) -> (n: u16)
        ensures
            n == self.spec_target_size(),
    {
        self.target_size
    }

    /// The provisioning requests that are under way.
    #[verifier::when_used_as_spec(spec_provisioning)]
    pub fn provisioning(&self) -> (n: u16)
        ensures
            n == self.spec_provisioning(),
    {
        self.provisioning
    }

    /// The number of unassigned nodes in the pool.
    pub fn len(&self) -> (n: usize)
        ensures
            n == unassigned_count(self.entries()),
    {
        let ghost p = |e: PoolEntry| !e.assigned;
        let mut n: usize = 0;
        let mut i: usize = 0;
        while i < self.entries.len()
            invariant
                i <= self.entries@.len(),
                n == count_where(self.entries@.take(i as int), p),
                n <= i,
                p == (|e: PoolEntry| !e.assigned),
            decreases self.entries@.len() - i,
        {
            proof {
                lemma_count_step(self.entries@, p, i as int);
            }
            if !self.entries[i].assigned {
                n = n + 1;
            }
            i = i + 1;
        }
        assert(self.entries@.take(i as int) =~= self.entries@);
        n
    }

    /// Whether the pool holds its target number of unassigned nodes.
    pub fn is_full(&self) -> (full: bool)
        ensures
            full == (unassigned_count(self.entries()) >= self.spec_target_size()),
    {
        self.len() >= self.target_size as usize
    }

    /// How many provisioning requests the next check will ask for.
    pub fn missing(&self) -> (requests: u16)
        ensures
            requests == deficit(self.entries(), self.spec_target_size(), self.spec_provisioning()),
    {
        let unassigned = self.len();
        let target = self.target_size as usize;
        let under_way = self.provisioning as usize;
        if unassigned < target && under_way < target - unassigned {
            (target - unassigned - under_way) as u16
        } else {
            0
        }
    }

    /// The periodic check: where fewer unassigned nodes are at hand, and on
    /// their way, than the target asks for, as many provisioning requests
    /// as are missing are to be issued. Their number is returned and they
    /// count as under way from now on.
    pub fn replenish(&mut self) -> (requests: u16)
        requires
            old(self).wf(),
        ensures
            final(self).wf(),
            final(self).spec_target_size() == old(self).spec_target_size(),
            final(self).entries() == old(self).entries(),
            requests == deficit(
                old(self).entries(),
                old(self).spec_target_size(),
                old(self).spec_provisioning(),
            ),
            final(self).spec_provisioning() == old(self).spec_provisioning() + requests,
            deficit(
                final(self).entries(),
                final(self).spec_target_size(),
                final(self).spec_provisioning(),
            ) == 0,
    {
        let unassigned = self.len();
        let target = self.target_size as usize;
        let under_way = self.provisioning as usize;
        if unassigned < target && under_way < target - unassigned {
            let requests = (target - unassigned - under_way) as u16;
            self.provisioning = self.provisioning + requests;
            requests
        } else {
            0
        }
    }

    /// A provisioning request was served: `node` joins the end of the pool,
    /// unassigned, and one request fewer is under way. A node that the pool
    /// knows already changes nothing, and `false` is returned.
    pub fn provisioned(&mut self, node: Principal, now: TimestampMillis) -> (added: bool)
        requires
            old(self).wf(),
        ensures
            final(self).wf(),
            final(self).spec_target_size() == old(self).spec_target_size(),
            added == !has_key(old(self).entries(), node),
            added ==> final(self).entries() == old(self).entries().push(
                (PoolEntry { node, provisioned_at: now, assigned: false }),
            ) && final(self).spec_provisioning() == if old(self).spec_provisioning() > 0 {
                (old(self).spec_provisioning() - 1) as u16
            } else {
                0u16
            } && unassigned_count(final(self).entries()) == unassigned_count(old(self).entries())
                + 1,
            !added ==> final(self).entries() == old(self).entries()
                && final(self).spec_provisioning() == old(self).spec_provisioning(),
    {
        match find_key(&self.entries, node) {
            Some(_) => false,
            None => {
                let entry = PoolEntry { node, provisioned_at: now, assigned: false };
                proof {
                    lemma_push(self.entries@, entry);
                    crate::keyed::lemma_count_push(
                        self.entries@,
                        |e: PoolEntry| !e.assigned,
                        entry,
                    );
                }
                self.entries.push(entry);
                if self.provisioning > 0 {
                    self.provisioning = self.provisioning - 1;
                }
                true
            },
        }
    }

    /// A provisioning request failed: one request fewer is under way.
    pub fn provisioning_failed(&mut self)
        requires
            old(self).wf(),
        ensures
            final(self).wf(),
            final(self).spec_target_size() == old(self).spec_target_size(),
            final(self).entries() == old(self).entries(),
            final(self).spec_provisioning() == if old(self).spec_provisioning() > 0 {
                (old(self).spec_provisioning() - 1) as u16
            } else {
                0u16
            },
    {
        if self.provisioning > 0 {
            self.provisioning = self.provisioning - 1;
        }
    }

    /// Hands out the unassigned node that was provisioned first and marks
    /// it assigned. With no unassigned node the pool is exhausted and
    /// nothing changes.
    pub fn allocate(&mut self) -> (result: Result<Principal, PoolError>)
        requires
            old(self).wf(),
        ensures
            final(self).wf(),
            final(self).spec_target_size() == old(self).spec_target_size(),
            final(self).spec_provisioning() == old(self).spec_provisioning(),
            result.is_ok() == (unassigned_count(old(self).entries()) > 0),
            match result {
                Ok(node) => {
                    &&& has_key(old(self).entries(), node)
                    &&& is_oldest_unassigned(
                        old(self).entries(),
                        index_of_key(old(self).entries(), node),
                    )
                    &&& final(self).entries() == old(self).entries().update(
                        index_of_key(old(self).entries(), node),
                        (PoolEntry {
                            assigned: true,
                            ..old(self).entries()[index_of_key(old(self).entries(), node)]
                        }),
                    )
                    &&& unassigned_count(final(self).entries()) + 1 == unassigned_count(
                        old(self).entries(),
                    )
                },
                Err(e) => e == PoolError::PoolExhausted && final(self).entries()
                    == old(self).entries(),
            },
    {
        let ghost p = |e: PoolEntry| !e.assigned;
        let mut i: usize = 0;
        while i < self.entries.len()
            invariant
                i <= self.entries@.len(),
                p == (|e: PoolEntry| !e.assigned),
                self.entries@ == old(self).entries@,
                self.target_size == old(self).target_size,
                self.provisioning == old(self).provisioning,
                old(self).wf(),
                forall|j: int| 0 <= j < i ==> (#[trigger] self.entries@[j]).assigned,
            decreases self.entries@.len() - i,
        {
            let e = self.entries[i];
            if !e.assigned {
                let taken = PoolEntry { node: e.node, provisioned_at: e.provisioned_at,
                    assigned: true };
                proof {
                    lemma_found_at(self.entries@, i as int);
                    lemma_update(self.entries@, i as int, taken);
                    crate::keyed::lemma_count_update(self.entries@, p, i as int, taken);
                    lemma_count_bounds(self.entries@, p);
                }
                self.entries.set(i, taken);
                return Ok(e.node);
            }
            i = i + 1;
        }
        proof {
            lemma_count_bounds(self.entries@, p);
        }
        Err(PoolError::PoolExhausted)
    }

    /// Takes `node` out of the bookkeeping: it was decommissioned. Returns
    /// whether the pool knew the node.
    pub fn remove(&mut self, node: Principal) -> (known: bool)
        requires
            old(self).wf(),
        ensures
            final(self).wf(),
            final(self).spec_target_size() == old(self).spec_target_size(),
            final(self).spec_provisioning() == old(self).spec_provisioning(),
            known == has_key(old(self).entries(), node),
            final(self).entry_of(node).is_none(),
            forall|n: Principal| n != node ==> final(self).entry_of(n) == old(self).entry_of(n),
            final(self).entries() == if known {
                old(self).entries().remove(index_of_key(old(self).entries(), node))
            } else {
                old(self).entries()
            },
    {
        match find_key(&self.entries, node) {
            Some(i) => {
                proof {
                    lemma_remove(self.entries@, i as int);
                }
                let _ = self.entries.remove(i);
                true
            },
            None => false,
        }
    }

    /// After a restart: no provisioning request is under way any more, and
    /// the next check asks again for what is missing.
    pub fn restart(&mut self)
        requires
            old(self).wf(),
        ensures
            final(self).wf(),
            final(self).spec_target_size() == old(self).spec_target_size(),
            final(self).entries() == old(self).entries(),
            final(self).spec_provisioning() == 0,
    {
        self.provisioning = 0;
    }
}

/// The parts of a pool, as they are persisted.
#[derive(Debug, PartialEq, Eq)]
pub struct PoolSnapshot {
    pub target_size: u16,
    pub provisioning: u16,
    pub entries: Vec<PoolEntry>,
}

impl NodePool {
    /// Whether the pool is made of exactly these parts.
    pub open spec fn holds(&self, parts: PoolSnapshot) -> bool {
        &&& self.spec_target_size() == parts.target_size
        &&& self.spec_provisioning() == parts.provisioning
        &&& self.entries() == parts.entries@
    }

    /// The parts of the pool.
    pub fn to_parts(&self) -> (parts: PoolSnapshot)
        requires
            self.wf(),
        ensures
            self.holds(parts),
            keys_distinct(parts.entries@),
    {
        let mut entries: Vec<PoolEntry> = Vec::new();
        let mut i: usize = 0;
        while i < self.entries.len()
            invariant
                i <= self.entries@.len(),
                entries@ == self.entries@.take(i as int),
            decreases self.entries@.len() - i,
        {
            entries.push(self.entries[i]);
            proof {
                assert(self.entries@.take(i as int).push(self.entries@[i as int])
                    =~= self.entries@.take(i as int + 1));
            }
            i = i + 1;
        }
        proof {
            assert(self.entries@.take(i as int) =~= self.entries@);
        }
        PoolSnapshot { target_size: self.target_size, provisioning: self.provisioning, entries }
    }

    /// The pool made of `parts`, or `None` where two entries share a node.
    pub fn from_parts(parts: PoolSnapshot) -> (pool: Option<Self>)
        ensures
            pool.is_some() == keys_distinct(parts.entries@),
            pool.is_some() ==> pool.unwrap().wf() && pool.unwrap().holds(parts),
    {
        if all_distinct(&parts.entries) {
            Some(
                NodePool {
                    target_size: parts.target_size,
                    provisioning: parts.provisioning,
                    entries: parts.entries,
                },
            )
        } else {
            None
        }
    }
}

} // verus!
