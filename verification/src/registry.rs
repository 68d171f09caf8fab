//! The node registry: the authoritative record of every worker node.

use vstd::prelude::*;
use crate::keyed::{
    all_distinct, count_where, find_key, has_key, index_of_key, keys_distinct, lemma_count_step,
        lemma_push,
    lemma_update, lookup, Keyed,
};
use crate::types::{BuildVersion, Principal};

verus! {

/// Where a node stands in its life.
#[derive(Clone, Copy, Debug, PartialEq, Eq, Structural)]
pub enum NodeState {
    Provisioning,
    Active,
    Upgrading,
    Unreachable,
    Retired,
}

/// The kind of work a node does.
#[derive(Clone, Copy, Debug, PartialEq, Eq, Structural)]
pub enum NodeRole {
    Notifications,
    User,
    Group,
    StorageBucket,
}

/// One worker node as the registry records it.
#[derive(Clone, Copy, Debug, PartialEq, Eq)]
pub struct Node {
    pub id: Principal,
    pub role: NodeRole,
    pub version: BuildVersion,
    pub state: NodeState,
}

impl Keyed for Node {
    open spec fn key(&self) -> Principal {
        self.id
    }

    fn key_of(&self) -> (k: Principal) {
        self.id
    }
}

/// How many nodes are in each lifecycle state.
#[derive(Clone, Copy, Debug, PartialEq, Eq, Structural)]
pub struct StateCounts {
    pub provisioning: usize,
    pub active: usize,
    pub upgrading: usize,
    pub unreachable: usize,
    pub retired: usize,
}

/// The record of every worker node, in the order of registration.
pub struct NodeRegistry {
    nodes: Vec<Node>,
}

impl View for NodeRegistry {
    type V = Seq<Node>;

    closed spec fn view(&self) -> Seq<Node> {
        self.nodes@
    }
}

/// The nodes of `nodes` that are in `state`.
pub open spec fn count_in_state(nodes: Seq<Node>, state: NodeState) -> nat {
    count_where(nodes, |n: Node| n.state == state)
}

/// The nodes with the lifecycle state of `id` set to `state`, where `id` is
/// on record.
pub open spec fn with_state(nodes: Seq<Node>, id: Principal, state: NodeState) -> Seq<Node> {
    if has_key(nodes, id) {
        nodes.update(index_of_key(nodes, id), Node { state, ..nodes[index_of_key(nodes, id)] })
    } else {
        nodes
    }
}

/// The nodes with the version and the lifecycle state of `id` set, where
/// `id` is on record.
pub open spec fn with_version(
    nodes: Seq<Node>,
    id: Principal,
    version: BuildVersion,
    state: NodeState,
) -> Seq<Node> {
    if has_key(nodes, id) {
        nodes.update(
            index_of_key(nodes, id),
            Node { version, state, ..nodes[index_of_key(nodes, id)] },
        )
    } else {
        nodes
    }
}

impl NodeRegistry {
    /// No two nodes share an identity.
    pub open spec fn wf(&self) -> bool {
        keys_distinct(self@)
    }

    /// What the registry records of `id`, if anything.
    pub open spec fn node(&self, id: Principal) -> Option<Node> {
        lookup(self@, id)
    }

    /// The lifecycle state of `id`, if the registry knows the node.
    pub open spec fn state_of(&self, id: Principal) -> Option<NodeState> {
        match lookup(self@, id) {
            Some(n) => Some(n.state),
            None => None,
        }
    }

    /// A registry without nodes.
    pub fn new() -> (registry: Self)
        ensures
            registry.wf(),
            registry@ == Seq::<Node>::empty(),
    {
        NodeRegistry { nodes: Vec::new() }
    }

    /// The number of nodes on record.
    pub fn len(&self) -> (n: usize)
        ensures
            n == self@.len(),
    {
        self.nodes.len()
    }

    /// The node at position `i` in the order of registration.
    pub fn node_at(&self, i: usize) -> (node: Node)
        requires
            i < self@.len(),
        ensures
            node == self@[i as int],
    {
        self.nodes[i]
    }

    /// What the registry records of `id`, if anything.
    pub fn get(&self, id: Principal) -> (node: Option<Node>)
        requires
            self.wf(),
        ensures
            node == self.node(id),
    {
        match find_key(&self.nodes, id) {
            Some(i) => Some(self.nodes[i]),
            None => None,
        }
    }

    /// Whether the registry knows `id`.
    pub fn contains(&self, id: Principal) -> (known: bool)
        requires
            self.wf(),
        ensures
            known == has_key(self@, id),
    {
        find_key(&self.nodes, id).is_some()
    }

    /// Records `node` at the end of the registry, unless its identity is
    /// already on record: then nothing changes and `false` is returned.
    pub fn insert(&mut self, node: Node) -> (added: bool)
        requires
            old(self).wf(),
        ensures
            final(self).wf(),
            added == !has_key(old(self)@, node.id),
            added ==> final(self)@ == old(self)@.push(node),
            !added ==> final(self)@ == old(self)@,
    {
        match find_key(&self.nodes, node.id) {
            Some(_) => false,
            None => {
                proof {
                    lemma_push(self.nodes@, node);
                }
                self.nodes.push(node);
                true
            },
        }
    }

    /// Records a new node in the `Provisioning` state, unless its identity is
    /// already on record.
    pub fn register(&mut self, id: Principal, role: NodeRole, version: BuildVersion) -> (added:
        bool)
        requires
            old(self).wf(),
        ensures
            final(self).wf(),
            added == !has_key(old(self)@, id),
            added ==> final(self)@ == old(self)@.push(
                (Node { id, role, version, state: NodeState::Provisioning }),
            ),
            !added ==> final(self)@ == old(self)@,
    {
        self.insert(Node { id, role, version, state: NodeState::Provisioning })
    }

    /// Sets the lifecycle state of `id`. Returns whether the node is known;
    /// an unknown node changes nothing.
    pub fn set_state(&mut self, id: Principal, state: NodeState) -> (known: bool)
        requires
            old(self).wf(),
        ensures
            final(self).wf(),
            known == has_key(old(self)@, id),
            final(self)@ == with_state(old(self)@, id, state),
    {
        match find_key(&self.nodes, id) {
            Some(i) => {
                let node = self.nodes[i];
                let changed = Node { id: node.id, role: node.role, version: node.version, state };
                proof {
                    lemma_update(self.nodes@, i as int, changed);
                }
                self.nodes.set(i, changed);
                true
            },
            None => false,
        }
    }

    /// Sets the lifecycle state of the node at position `i`.
    pub fn set_state_at(&mut self, i: usize, state: NodeState)
        requires
            old(self).wf(),
            i < old(self)@.len(),
        ensures
            final(self).wf(),
            final(self)@ == old(self)@.update(
                i as int,
                (Node { state, ..old(self)@[i as int] }),
            ),
    {
        let node = self.nodes[i];
        let changed = Node { id: node.id, role: node.role, version: node.version, state };
        proof {
            lemma_update(self.nodes@, i as int, changed);
        }
        self.nodes.set(i, changed);
    }

    /// Sets the binary version and the lifecycle state of `id`. Returns
    /// whether the node is known; an unknown node changes nothing.
    pub fn set_version(&mut self, id: Principal, version: BuildVersion, state: NodeState) -> (known:
        bool)
        requires
            old(self).wf(),
        ensures
            final(self).wf(),
            known == has_key(old(self)@, id),
            final(self)@ == with_version(old(self)@, id, version, state),
    {
        match find_key(&self.nodes, id) {
            Some(i) => {
                let node = self.nodes[i];
                let changed = Node { id: node.id, role: node.role, version, state };
                proof {
                    lemma_update(self.nodes@, i as int, changed);
                }
                self.nodes.set(i, changed);
                true
            },
            None => false,
        }
    }

    /// The nodes on record, in the order of registration.
    pub fn to_vec(&self) -> (nodes: Vec<Node>)
        ensures
            nodes@ == self@,
    {
        let mut nodes: Vec<Node> = Vec::new();
        let mut i: usize = 0;
        while i < self.nodes.len()
            invariant
                i <= self.nodes@.len(),
                nodes@ == self.nodes@.take(i as int),
            decreases self.nodes@.len() - i,
        {
            nodes.push(self.nodes[i]);
            proof {
                assert(self.nodes@.take(i as int).push(self.nodes@[i as int])
                    =~= self.nodes@.take(i as int + 1));
            }
            i = i + 1;
        }
        proof {
            assert(self.nodes@.take(i as int) =~= self.nodes@);
        }
        nodes
    }

    /// How many nodes are in `state`.
    pub fn count(&self, state: NodeState) -> (n: usize)
        ensures
            n == count_in_state(self@, state),
    {
        let ghost p = |n: Node| n.state == state;
        let mut n: usize = 0;
        let mut i: usize = 0;
        while i < self.nodes.len()
            invariant
                i <= self.nodes@.len(),
                n == count_where(self.nodes@.take(i as int), p),
                n <= i,
                p == (|n: Node| n.state == state),
            decreases self.nodes@.len() - i,
        {
            proof {
                lemma_count_step(self.nodes@, p, i as int);
            }
            if self.nodes[i].state == state {
                n = n + 1;
            }
            i = i + 1;
        }
        assert(self.nodes@.take(i as int) =~= self.nodes@);
        n
    }

    /// How many nodes are in each lifecycle state.
    pub fn state_counts(&self) -> (counts: StateCounts)
        ensures
            counts.provisioning == count_in_state(self@, NodeState::Provisioning),
            counts.active == count_in_state(self@, NodeState::Active),
            counts.upgrading == count_in_state(self@, NodeState::Upgrading),
            counts.unreachable == count_in_state(self@, NodeState::Unreachable),
            counts.retired == count_in_state(self@, NodeState::Retired),
    {
        StateCounts {
            provisioning: self.count(NodeState::Provisioning),
            active: self.count(NodeState::Active),
            upgrading: self.count(NodeState::Upgrading),
            unreachable: self.count(NodeState::Unreachable),
            retired: self.count(NodeState::Retired),
        }
    }

    /// The registry that records `nodes`, or `None` where two of them share
    /// an identity.
    pub fn from_parts(nodes: Vec<Node>) -> (registry: Option<Self>)
        ensures
            registry.is_some() == keys_distinct(nodes@),
            registry.is_some() ==> registry.unwrap().wf() && registry.unwrap()@ == nodes@,
    {
        if all_distinct(&nodes) {
            Some(NodeRegistry { nodes })
        } else {
            None
        }
    }
}

} // verus!
