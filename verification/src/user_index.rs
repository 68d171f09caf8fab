//! The state of the index of users: who may call, the pool of nodes that
//! wait for new users, and the upgrades of the users' nodes.

use std::collections::VecDeque;
use vstd::prelude::*;
use crate::env::Environment;
use crate::pool::{unassigned_count, NodePool, PoolEntry};
use crate::principal::{principal_text_bytes, IdentityError};
use crate::principal_set::PrincipalSet;
use crate::types::{
    BuildVersion, CanisterId, CanisterWasm, Cycles, Principal, TimestampMillis, UserId,
};
use crate::upgrade::{count_tasks, UpgradeCoordinator, UpgradeState, UpgradeTask};

verus! {

/// Identity of a chat.
pub type ChatId = Principal;

/// The balance under which the index asks for more resources.
pub const MIN_CYCLES_BALANCE: Cycles = 5_000_000_000_000;

/// The balance that a new node of a user starts with.
pub const USER_CANISTER_INITIAL_CYCLES_BALANCE: Cycles = 500_000_000_000;

/// The amount by which the balance of a user's node is topped up.
pub const USER_CANISTER_TOP_UP_AMOUNT: Cycles = 100_000_000_000;

/// The bytes of storage that a user may fill unless set otherwise.
pub const DEFAULT_OPEN_STORAGE_USER_BYTE_LIMIT: u64 = 100 * 1024 * 1024;

/// How long a confirmation code is good for, in milliseconds.
pub const CONFIRMATION_CODE_EXPIRY_MILLIS: u64 = 60 * 60 * 1000;

/// The textual form of the identity of the storage index.
pub const OPEN_STORAGE_INDEX_CANISTER_ID: &'static str = "rturd-qaaaa-aaaaf-aabaq-cai";

/// The layout of the persisted state.
#[derive(Clone, Copy, Debug, PartialEq, Eq, Structural)]
pub enum StateVersion {
    V1,
}

/// The layout that this version of the index persists.
pub const STATE_VERSION: StateVersion = StateVersion::V1;

/// What the store of users reports of itself.
#[derive(Clone, Copy, Debug, PartialEq, Eq, Structural)]
pub struct UserMetrics {
    pub users_unconfirmed: u32,
    pub users_confirmed: u32,
    pub users_created: u64,
    pub users_online_5_minutes: u32,
    pub users_online_1_hour: u32,
    pub users_online_1_week: u32,
    pub users_online_1_month: u32,
}

/// What is read from the platform and from the stores of users and of
/// text messages when the figures are put together.
#[derive(Clone, Copy, Debug, PartialEq, Eq, Structural)]
pub struct PlatformReadings {
    pub memory_used: u64,
    pub sms_messages_in_queue: u64,
    pub user_metrics: UserMetrics,
}

/// The figures that the index exposes.
#[derive(Clone, Copy, Debug, PartialEq, Eq, Structural)]
pub struct Metrics {
    pub memory_used: u64,
    pub now: TimestampMillis,
    pub cycles_balance: Cycles,
    pub total_cycles_spent_on_canisters: Cycles,
    pub users_unconfirmed: u32,
    pub users_confirmed: u32,
    pub users_created: u64,
    pub users_online_5_minutes: u32,
    pub users_online_1_hour: u32,
    pub users_online_1_week: u32,
    pub users_online_1_month: u32,
    pub canisters_in_pool: u64,
    pub canister_pool_target_size: u16,
    pub canister_upgrades_pending: u64,
    pub canister_upgrades_in_progress: u64,
    pub canister_upgrades_failed: u64,
    pub max_concurrent_canister_upgrades: u64,
    pub user_wasm_version: BuildVersion,
    pub sms_messages_in_queue: u64,
    pub super_admins: u64,
    pub super_admins_to_dismiss: u64,
}

/// The state that outlives a stretch of execution.
pub struct Data {
    pub service_principals: PrincipalSet,
    pub user_canister_wasm: CanisterWasm,
    pub sms_service_principals: PrincipalSet,
    pub group_index_canister_id: CanisterId,
    pub notifications_canister_ids: Vec<CanisterId>,
    pub canisters_requiring_upgrade: UpgradeCoordinator,
    pub canister_pool: NodePool,
    pub total_cycles_spent_on_canisters: Cycles,
    pub online_users_aggregator_canister_ids: PrincipalSet,
    pub open_storage_index_canister_id: CanisterId,
    pub super_admins: PrincipalSet,
    pub super_admins_to_dismiss: VecDeque<(UserId, ChatId)>,
    pub test_mode: bool,
}

/// The state together with the surroundings of the current stretch of
/// execution.
pub struct RuntimeState {
    pub env: Environment,
    pub data: Data,
}

/// The identity of the storage index that is used where none is given, or
/// an error should its textual form not be one of an identity.
pub fn open_storage_index_canister_id() -> (id: Result<CanisterId, IdentityError>)
    ensures
        id.is_ok() == principal_text_bytes(OPEN_STORAGE_INDEX_CANISTER_ID@).is_some(),
        id.is_ok() ==> id.unwrap()@ == principal_text_bytes(
            OPEN_STORAGE_INDEX_CANISTER_ID@,
        ).unwrap(),
        id.is_err() ==> id.unwrap_err() == IdentityError::InvalidText,
{
    Principal::from_text(OPEN_STORAGE_INDEX_CANISTER_ID)
}

impl Data {
    /// The sets of callers, the upgrade tasks and the pool are well formed.
    pub open spec fn wf(&self) -> bool {
        &&& self.service_principals.wf()
        &&& self.sms_service_principals.wf()
        &&& self.online_users_aggregator_canister_ids.wf()
        &&& self.super_admins.wf()
        &&& self.canisters_requiring_upgrade.wf()
        &&& self.canister_pool.wf()
    }

    /// The state of an index without users, with an empty pool that aims at
    /// `canister_pool_target_size` nodes and without upgrade tasks.
    pub fn new(
        service_principals: Vec<Principal>,
        sms_service_principals: Vec<Principal>,
        user_canister_wasm: CanisterWasm,
        group_index_canister_id: CanisterId,
        notifications_canister_ids: Vec<CanisterId>,
        online_users_aggregator_canister_id: CanisterId,
        open_storage_index_canister_id: CanisterId,
        canister_pool_target_size: u16,
        max_concurrent_upgrades: usize,
        upgrade_retry_ceiling: u32,
        test_mode: bool,
    ) -> (data: Data)
        ensures
            data.wf(),
            forall|p: Principal|
                #[trigger] data.service_principals.spec_contains(p)
                    <==> service_principals@.contains(
                    p,
                ),
            forall|p: Principal|
                #[trigger] data.sms_service_principals.spec_contains(p)
                    <==> sms_service_principals@.contains(p),
            data.user_canister_wasm == user_canister_wasm,
            data.group_index_canister_id == group_index_canister_id,
            data.notifications_canister_ids == notifications_canister_ids,
            data.online_users_aggregator_canister_ids@ == seq![online_users_aggregator_canister_id],
            data.open_storage_index_canister_id == open_storage_index_canister_id,
            data.canisters_requiring_upgrade.tasks() == Seq::<UpgradeTask>::empty(),
            data.canisters_requiring_upgrade.spec_max_concurrent_upgrades()
                == max_concurrent_upgrades,
            data.canisters_requiring_upgrade.spec_retry_ceiling() == upgrade_retry_ceiling,
            data.canister_pool.entries() == Seq::<PoolEntry>::empty(),
            data.canister_pool.spec_target_size() == canister_pool_target_size,
            data.canister_pool.spec_provisioning() == 0,
            data.total_cycles_spent_on_canisters == 0,
            data.super_admins@ == Seq::<Principal>::empty(),
            data.super_admins_to_dismiss@ == Seq::<(UserId, ChatId)>::empty(),
            data.test_mode == test_mode,
    {
        let mut aggregators = PrincipalSet::new();
        let _ = aggregators.insert(online_users_aggregator_canister_id);
        Data {
            service_principals: PrincipalSet::from_vec(service_principals),
            user_canister_wasm,
            sms_service_principals: PrincipalSet::from_vec(sms_service_principals),
            group_index_canister_id,
            notifications_canister_ids,
            canisters_requiring_upgrade: UpgradeCoordinator::new(
                max_concurrent_upgrades,
                upgrade_retry_ceiling,
            ),
            canister_pool: NodePool::new(canister_pool_target_size),
            total_cycles_spent_on_canisters: 0,
            online_users_aggregator_canister_ids: aggregators,
            open_storage_index_canister_id,
            super_admins: PrincipalSet::new(),
            super_admins_to_dismiss: VecDeque::new(),
            test_mode,
        }
    }
}

impl Default for Data {
    /// A state for trials: in test mode, with a pool that aims at five
    /// nodes, with room for two upgrades at once and three attempts each,
    /// with the anonymous identity wherever one is needed, and with an
    /// image without version or code.
    fn default() -> (data: Data)
        ensures
            data.wf(),
            data.service_principals@ == Seq::<Principal>::empty(),
            data.sms_service_principals@ == Seq::<Principal>::empty(),
            data.online_users_aggregator_canister_ids@ == Seq::<Principal>::empty(),
            data.super_admins@ == Seq::<Principal>::empty(),
            data.user_canister_wasm.version == (BuildVersion { major: 0, minor: 0, patch: 0 }),
            data.user_canister_wasm.module@ == Seq::<u8>::empty(),
            data.group_index_canister_id@ == seq![4u8],
            data.notifications_canister_ids@.len() == 1,
            data.notifications_canister_ids@[0]@ == seq![4u8],
            data.open_storage_index_canister_id@ == seq![4u8],
            data.canisters_requiring_upgrade.tasks() == Seq::<UpgradeTask>::empty(),
            data.canister_pool.entries() == Seq::<PoolEntry>::empty(),
            data.canister_pool.spec_target_size() == 5,
            data.canister_pool.spec_provisioning() == 0,
            data.canisters_requiring_upgrade.spec_max_concurrent_upgrades() == 2,
            data.canisters_requiring_upgrade.spec_retry_ceiling() == 3,
            data.total_cycles_spent_on_canisters == 0,
            data.super_admins_to_dismiss@ == Seq::<(UserId, ChatId)>::empty(),
            data.test_mode,
    {
        let mut notifications_canister_ids: Vec<CanisterId> = Vec::new();
        notifications_canister_ids.push(Principal::anonymous());
        Data {
            service_principals: PrincipalSet::new(),
            user_canister_wasm: CanisterWasm {
                version: BuildVersion::new(0, 0, 0),
                module: Vec::new(),
            },
            sms_service_principals: PrincipalSet::new(),
            group_index_canister_id: Principal::anonymous(),
            notifications_canister_ids,
            canisters_requiring_upgrade: UpgradeCoordinator::new(2, 3),
            online_users_aggregator_canister_ids: PrincipalSet::new(),
            canister_pool: NodePool::new(5),
            total_cycles_spent_on_canisters: 0,
            open_storage_index_canister_id: Principal::anonymous(),
            super_admins: PrincipalSet::new(),
            super_admins_to_dismiss: VecDeque::new(),
            test_mode: true,
        }
    }
}

impl RuntimeState {
    /// The state `data` in the surroundings `env`.
    pub fn new(env: Environment, data: Data) -> (state: RuntimeState)
        ensures
            state.env == env,
            state.data == data,
    {
        RuntimeState { env, data }
    }

    /// Whether the caller is one of the service principals.
    pub fn is_caller_service_principal(&self) -> (allowed: bool)
        requires
            self.data.wf(),
        ensures
            allowed == self.data.service_principals.spec_contains(self.env.caller),
    {
        let caller = self.env.caller();
        self.data.service_principals.contains(caller)
    }

    /// Whether the caller is one of the services that send text messages.
    pub fn is_caller_sms_service(&self) -> (allowed: bool)
        requires
            self.data.wf(),
        ensures
            allowed == self.data.sms_service_principals.spec_contains(self.env.caller),
    {
        let caller = self.env.caller();
        self.data.sms_service_principals.contains(caller)
    }

    /// Whether the caller is one of the notification workers.
    pub fn is_caller_notifications_canister(&self) -> (allowed: bool)
        ensures
            allowed == self.data.notifications_canister_ids@.contains(self.env.caller),
    {
        let caller = self.env.caller();
        let mut i: usize = 0;
        while i < self.data.notifications_canister_ids.len()
            invariant
                i <= self.data.notifications_canister_ids@.len(),
                caller == self.env.caller,
                forall|j: int|
                    0 <= j < i ==> self.data.notifications_canister_ids@[j] != caller,
            decreases self.data.notifications_canister_ids@.len() - i,
        {
            if self.data.notifications_canister_ids[i] == caller {
                return true;
            }
            i = i + 1;
        }
        false
    }

    /// Whether the caller is one of the aggregators of users online.
    pub fn is_caller_online_users_aggregator_canister(&self) -> (allowed: bool)
        requires
            self.data.wf(),
        ensures
            allowed == self.data.online_users_aggregator_canister_ids.spec_contains(
                self.env.caller,
            ),
    {
        let caller = self.env.caller();
        self.data.online_users_aggregator_canister_ids.contains(caller)
    }

    /// The figures that the index exposes, from the state, the
    /// surroundings, and what was read from the platform. The pool stands
    /// beside its target, and the upgrades are counted by their state: the
    /// backlog that waits, those in progress, and those that failed for
    /// good.
    pub fn metrics(&self, readings: PlatformReadings) -> (metrics: Metrics)
        ensures
            metrics.memory_used == readings.memory_used,
            metrics.now == self.env.now,
            metrics.cycles_balance == self.env.cycles_balance,
            metrics.total_cycles_spent_on_canisters == self.data.total_cycles_spent_on_canisters,
            metrics.canisters_in_pool == unassigned_count(self.data.canister_pool.entries()),
            metrics.canister_pool_target_size == self.data.canister_pool.spec_target_size(),
            metrics.canister_upgrades_pending == count_tasks(
                self.data.canisters_requiring_upgrade.tasks(),
                UpgradeState::Pending,
            ),
            metrics.canister_upgrades_in_progress == count_tasks(
                self.data.canisters_requiring_upgrade.tasks(),
                UpgradeState::InFlight,
            ),
            metrics.canister_upgrades_failed == count_tasks(
                self.data.canisters_requiring_upgrade.tasks(),
                UpgradeState::Failed,
            ),
            metrics.max_concurrent_canister_upgrades
                == self.data.canisters_requiring_upgrade.spec_max_concurrent_upgrades(),
            self.data.wf() ==> metrics.canister_upgrades_in_progress
                <= metrics.max_concurrent_canister_upgrades,
            metrics.user_wasm_version == self.data.user_canister_wasm.version,
            metrics.users_unconfirmed == readings.user_metrics.users_unconfirmed,
            metrics.users_confirmed == readings.user_metrics.users_confirmed,
            metrics.users_created == readings.user_metrics.users_created,
            metrics.users_online_5_minutes == readings.user_metrics.users_online_5_minutes,
            metrics.users_online_1_hour == readings.user_metrics.users_online_1_hour,
            metrics.users_online_1_week == readings.user_metrics.users_online_1_week,
            metrics.users_online_1_month == readings.user_metrics.users_online_1_month,
            metrics.sms_messages_in_queue == readings.sms_messages_in_queue,
            metrics.super_admins == self.data.super_admins@.len(),
            metrics.super_admins_to_dismiss == self.data.super_admins_to_dismiss@.len(),
    {
        let user_metrics = readings.user_metrics;
        let upgrades = &self.data.canisters_requiring_upgrade;
        Metrics {
            memory_used: readings.memory_used,
            now: self.env.now(),
            cycles_balance: self.env.cycles_balance(),
            total_cycles_spent_on_canisters: self.data.total_cycles_spent_on_canisters,
            canisters_in_pool: self.data.canister_pool.len() as u64,
            canister_pool_target_size: self.data.canister_pool.target_size(),
            canister_upgrades_pending: upgrades.count(UpgradeState::Pending) as u64,
            canister_upgrades_in_progress: upgrades.count(UpgradeState::InFlight) as u64,
            canister_upgrades_failed: upgrades.count(UpgradeState::Failed) as u64,
            max_concurrent_canister_upgrades: upgrades.max_concurrent_upgrades() as u64,
            user_wasm_version: self.data.user_canister_wasm.version,
            users_unconfirmed: user_metrics.users_unconfirmed,
            users_confirmed: user_metrics.users_confirmed,
            users_created: user_metrics.users_created,
            users_online_5_minutes: user_metrics.users_online_5_minutes,
            users_online_1_hour: user_metrics.users_online_1_hour,
            users_online_1_week: user_metrics.users_online_1_week,
            users_online_1_month: user_metrics.users_online_1_month,
            sms_messages_in_queue: readings.sms_messages_in_queue,
            super_admins: self.data.super_admins.len() as u64,
            super_admins_to_dismiss: self.data.super_admins_to_dismiss.len() as u64,
        }
    }
}

} // verus!
