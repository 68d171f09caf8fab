//! What an operation may know of its surroundings.

use vstd::prelude::*;
use crate::types::{CanisterId, Cycles, Principal, TimestampMillis};

verus! {

/// The surroundings of one uninterrupted stretch of execution: the time,
/// who called, the coordinator's own identity and its resource balance.
/// None of them changes before the stretch ends.
#[derive(Clone, Copy, Debug, PartialEq, Eq)]
pub struct Environment {
    pub now: TimestampMillis,
    pub caller: Principal,
    pub canister_id: CanisterId,
    pub cycles_balance: Cycles,
}

impl Environment {
    /// The surroundings with the given values.
    pub fn new(
        now: TimestampMillis,
        caller: Principal,
        canister_id: CanisterId,
        cycles_balance: Cycles,
    ) -> (env: Environment)
        ensures
            env == (Environment { now, caller, canister_id, cycles_balance }),
    {
        Environment { now, caller, canister_id, cycles_balance }
    }

    /// The current time.
    pub fn now(&self) -> (now: TimestampMillis)
        ensures
            now == self.now,
    {
        self.now
    }

    /// Who called.
    pub fn caller(&self) -> (caller: Principal)
        ensures
            caller == self.caller,
    {
        self.caller
    }

    /// The coordinator's own identity.
    pub fn canister_id(&self) -> (id: CanisterId)
        ensures
            id == self.canister_id,
    {
        self.canister_id
    }

    /// The coordinator's resource balance.
    pub fn cycles_balance(&self) -> (balance: Cycles)
        ensures
            balance == self.cycles_balance,
    {
        self.cycles_balance
    }
}

} // verus!
