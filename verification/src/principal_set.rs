//! Sets of identities.

use vstd::prelude::*;
use crate::keyed::{
    find_key, has_key, index_of_key, keys_distinct, lemma_push, lemma_remove, listed_before,
};
use crate::types::Principal;

verus! {

/// A set of identities, kept in the order in which they were added.
pub struct PrincipalSet {
    items: Vec<Principal>,
}

impl View for PrincipalSet {
    type V = Seq<Principal>;

    closed spec fn view(&self) -> Seq<Principal> {
        self.items@
    }
}

impl PrincipalSet {
    /// No identity occurs twice.
    pub open spec fn wf(&self) -> bool {
        keys_distinct(self@)
    }

    /// Whether `p` is in the set.
    pub open spec fn spec_contains(&self, p: Principal) -> bool {
        has_key(self@, p)
    }

    /// The empty set.
    pub fn new() -> (set: Self)
        ensures
            set.wf(),
            set@ == Seq::<Principal>::empty(),
    {
        PrincipalSet { items: Vec::new() }
    }

    /// The set of the identities in `principals`, each once, in the order of
    /// their first occurrence.
    pub fn from_vec(principals: Vec<Principal>) -> (set: Self)
        ensures
            set.wf(),
            forall|p: Principal| #[trigger] set.spec_contains(p) <==> principals@.contains(p),
            set@.len() <= principals@.len(),
    {
        let mut set = PrincipalSet::new();
        let mut i: usize = 0;
        while i < principals.len()
            invariant
                i <= principals@.len(),
                set.wf(),
                set@.len() <= i,
                forall|p: Principal|
                    #[trigger] set.spec_contains(p) <==> listed_before(principals@, i as int, p),
            decreases principals@.len() - i,
        {
            let ghost before = set;
            let p = principals[i];
            let _ = set.insert(p);
            proof {
                assert forall|q: Principal|
                    #[trigger] set.spec_contains(q) <==> listed_before(
                        principals@,
                        i as int + 1,
                        q,
                    ) by {
                    assert(before.spec_contains(q) <==> listed_before(principals@, i as int, q));
                    if listed_before(principals@, i as int + 1, q) {
                        let j = choose|j: int|
                            0 <= j < i + 1 && j < principals@.len() && #[trigger] principals@[j]
                                == q;
                        if j < i {
                            assert(listed_before(principals@, i as int, q));
                        }
                    }
                    if listed_before(principals@, i as int, q) {
                        let j = choose|j: int|
                            0 <= j < i && j < principals@.len() && #[trigger] principals@[j] == q;
                        assert(principals@[j] == q);
                    }
                    if q == p {
                        assert(principals@[i as int] == q);
                    }
                }
            }
            i = i + 1;
        }
        proof {
            assert forall|p: Principal|
                #[trigger] set.spec_contains(p) <==> principals@.contains(p) by {
                if principals@.contains(p) {
                    let j = choose|j: int| 0 <= j < principals@.len() && principals@[j] == p;
                    assert(principals@[j] == p);
                }
                if listed_before(principals@, principals@.len() as int, p) {
                    let j = choose|j: int|
                        0 <= j < principals@.len() && j < principals@.len()
                            && #[trigger] principals@[j] == p;
                    assert(principals@[j] == p);
                }
            }
        }
        set
    }

    /// The number of identities in the set.
    pub fn len(&self) -> (n: usize)
        ensures
            n == self@.len(),
    {
        self.items.len()
    }

    /// Whether `p` is in the set.
    #[verifier::when_used_as_spec(spec_contains)]
    pub fn contains(&self, p: Principal) -> (found: bool)
        requires
            self.wf(),
        ensures
            found == self.spec_contains(p),
    {
        find_key(&self.items, p).is_some()
    }

    /// Adds `p` at the end, unless it is in the set already. Returns
    /// whether it was added.
    pub fn insert(&mut self, p: Principal) -> (added: bool)
        requires
            old(self).wf(),
        ensures
            final(self).wf(),
            added == !old(self).spec_contains(p),
            final(self)@ == if added {
                old(self)@.push(p)
            } else {
                old(self)@
            },
            final(self).spec_contains(p),
            forall|q: Principal| q != p ==> final(self).spec_contains(q)
                == old(self).spec_contains(q),
    {
        match find_key(&self.items, p) {
            Some(_) => false,
            None => {
                proof {
                    lemma_push(self.items@, p);
                }
                self.items.push(p);
                true
            },
        }
    }

    /// Takes `p` out of the set. Returns whether it was in it.
    pub fn remove(&mut self, p: Principal) -> (removed: bool)
        requires
            old(self).wf(),
        ensures
            final(self).wf(),
            removed == old(self).spec_contains(p),
            final(self)@ == if removed {
                old(self)@.remove(index_of_key(old(self)@, p))
            } else {
                old(self)@
            },
            !final(self).spec_contains(p),
            forall|q: Principal| q != p ==> final(self).spec_contains(q)
                == old(self).spec_contains(q),
    {
        match find_key(&self.items, p) {
            Some(i) => {
                proof {
                    lemma_remove(self.items@, i as int);
                }
                let _ = self.items.remove(i);
                true
            },
            None => false,
        }
    }

    /// The identities of the set, in the order in which they were added.
    pub fn to_vec(&self) -> (principals: Vec<Principal>)
        ensures
            principals@ == self@,
    {
        let mut principals: Vec<Principal> = Vec::new();
        let mut i: usize = 0;
        while i < self.items.len()
            invariant
                i <= self.items@.len(),
                principals@ == self.items@.take(i as int),
            decreases self.items@.len() - i,
        {
            principals.push(self.items[i]);
            proof {
                assert(self.items@.take(i as int).push(self.items@[i as int])
                    =~= self.items@.take(i as int + 1));
            }
            i = i + 1;
        }
        proof {
            assert(self.items@.take(i as int) =~= self.items@);
        }
        principals
    }
}

} // verus!
