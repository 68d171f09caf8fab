//! The arguments that a gateway for bots is started with.

use vstd::prelude::*;
use crate::types::{BuildVersion, CanisterId};

verus! {

/// The arguments of the first start.
#[derive(Debug)]
pub struct Args {
    pub user_index_canister_id: CanisterId,
    pub local_user_index_canister_id: CanisterId,
    pub local_group_index_canister_id: CanisterId,
    pub cycles_dispenser_canister_id: CanisterId,
    pub event_relay_canister_id: CanisterId,
    pub wasm_version: BuildVersion,
    pub public_key: String,
    pub test_mode: bool,
}

} // verus!
