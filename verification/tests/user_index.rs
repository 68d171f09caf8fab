use fleet_coordinator::env::Environment;
use fleet_coordinator::pool::PoolError;
use fleet_coordinator::types::{BuildVersion, CanisterWasm, Principal};
use fleet_coordinator::upgrade::UpgradeState;
use fleet_coordinator::user_index::{
    open_storage_index_canister_id, Data, Metrics, PlatformReadings, RuntimeState, StateVersion,
    UserMetrics, CONFIRMATION_CODE_EXPIRY_MILLIS, DEFAULT_OPEN_STORAGE_USER_BYTE_LIMIT,
    MIN_CYCLES_BALANCE, STATE_VERSION, USER_CANISTER_INITIAL_CYCLES_BALANCE,
    USER_CANISTER_TOP_UP_AMOUNT,
};

fn id(n: u8) -> Principal {
    Principal::from_slice(&[0, 0, 0, 0, 0, 0, 0, n, 1, 1]).unwrap()
}

fn data() -> Data {
    Data::new(
        vec![id(1), id(2)],
        vec![id(3)],
        CanisterWasm { version: BuildVersion::new(2, 3, 4), module: vec![9, 9] },
        id(10),
        vec![id(11), id(12)],
        id(13),
        id(14),
        5,
        2,
        3,
        false,
    )
}

fn state(caller: Principal) -> RuntimeState {
    RuntimeState::new(Environment::new(77, caller, id(60), 1_000), data())
}

fn readings() -> PlatformReadings {
    PlatformReadings {
        memory_used: 4096,
        sms_messages_in_queue: 3,
        user_metrics: UserMetrics {
            users_unconfirmed: 1,
            users_confirmed: 2,
            users_created: 3,
            users_online_5_minutes: 4,
            users_online_1_hour: 5,
            users_online_1_week: 6,
            users_online_1_month: 7,
        },
    }
}

#[test]
fn the_constants_of_the_user_index() {
    assert_eq!(MIN_CYCLES_BALANCE, 5_000_000_000_000);
    assert_eq!(USER_CANISTER_INITIAL_CYCLES_BALANCE, 500_000_000_000);
    assert_eq!(USER_CANISTER_TOP_UP_AMOUNT, 100_000_000_000);
    assert_eq!(DEFAULT_OPEN_STORAGE_USER_BYTE_LIMIT, 104_857_600);
    assert_eq!(CONFIRMATION_CODE_EXPIRY_MILLIS, 3_600_000);
    assert_eq!(STATE_VERSION, StateVersion::V1);
}

#[test]
fn the_default_storage_index_is_decoded_from_its_text() {
    assert_eq!(
        open_storage_index_canister_id().unwrap().to_vec(),
        vec![0, 0, 0, 0, 0, 160, 0, 65, 1, 1]
    );
}

#[test]
fn a_new_user_index_has_an_empty_pool_and_no_upgrades() {
    let mut d = data();
    assert_eq!(d.service_principals.to_vec(), vec![id(1), id(2)]);
    assert_eq!(d.sms_service_principals.to_vec(), vec![id(3)]);
    assert_eq!(d.user_canister_wasm.version, BuildVersion::new(2, 3, 4));
    assert_eq!(d.group_index_canister_id, id(10));
    assert_eq!(d.notifications_canister_ids, vec![id(11), id(12)]);
    assert_eq!(d.online_users_aggregator_canister_ids.to_vec(), vec![id(13)]);
    assert_eq!(d.open_storage_index_canister_id, id(14));
    assert_eq!(d.canister_pool.target_size(), 5);
    assert_eq!(d.canister_pool.len(), 0);
    assert_eq!(d.canister_pool.allocate(), Err(PoolError::PoolExhausted));
    assert_eq!(d.canisters_requiring_upgrade.max_concurrent_upgrades(), 2);
    assert_eq!(d.canisters_requiring_upgrade.retry_ceiling(), 3);
    assert_eq!(d.canisters_requiring_upgrade.count(UpgradeState::Pending), 0);
    assert_eq!(d.total_cycles_spent_on_canisters, 0);
    assert_eq!(d.super_admins.len(), 0);
    assert!(d.super_admins_to_dismiss.is_empty());
    assert!(!d.test_mode);
}

#[test]
fn the_state_for_trials() {
    let d = Data::default();
    assert!(d.test_mode);
    assert_eq!(d.canister_pool.target_size(), 5);
    assert_eq!(d.canister_pool.provisioning(), 0);
    assert_eq!(d.canister_pool.len(), 0);
    assert_eq!(d.canisters_requiring_upgrade.max_concurrent_upgrades(), 2);
    assert_eq!(d.canisters_requiring_upgrade.retry_ceiling(), 3);
    assert_eq!(d.canisters_requiring_upgrade.count(UpgradeState::Pending), 0);
    assert_eq!(d.group_index_canister_id, Principal::anonymous());
    assert_eq!(d.notifications_canister_ids, vec![Principal::anonymous()]);
    assert_eq!(d.open_storage_index_canister_id, Principal::anonymous());
    assert_eq!(d.service_principals.len(), 0);
    assert_eq!(d.user_canister_wasm.version, BuildVersion::new(0, 0, 0));
    assert!(d.user_canister_wasm.module.is_empty());
}

#[test]
fn callers_of_the_user_index_are_told_apart() {
    assert!(state(id(1)).is_caller_service_principal());
    assert!(!state(id(3)).is_caller_service_principal());
    assert!(state(id(3)).is_caller_sms_service());
    assert!(!state(id(1)).is_caller_sms_service());
    assert!(state(id(11)).is_caller_notifications_canister());
    assert!(state(id(12)).is_caller_notifications_canister());
    assert!(!state(id(13)).is_caller_notifications_canister());
    assert!(state(id(13)).is_caller_online_users_aggregator_canister());
    assert!(!state(id(11)).is_caller_online_users_aggregator_canister());
}

#[test]
fn the_figures_of_the_user_index() {
    let mut s = state(id(1));
    s.data.canister_pool.provisioned(id(20), 1);
    s.data.canister_pool.provisioned(id(21), 2);
    s.data.super_admins.insert(id(30));
    s.data.super_admins_to_dismiss.push_back((id(30), id(31)));
    s.data.total_cycles_spent_on_canisters = 55;
    let version = BuildVersion::new(9, 9, 9);
    for n in 40..45 {
        s.data.canisters_requiring_upgrade.require(id(n), version);
    }
    s.data.canisters_requiring_upgrade.dispatch();
    for _ in 0..3 {
        s.data.canisters_requiring_upgrade.resolve(id(40), false);
        s.data.canisters_requiring_upgrade.dispatch();
    }
    assert_eq!(
        s.metrics(readings()),
        Metrics {
            memory_used: 4096,
            now: 77,
            cycles_balance: 1_000,
            total_cycles_spent_on_canisters: 55,
            users_unconfirmed: 1,
            users_confirmed: 2,
            users_created: 3,
            users_online_5_minutes: 4,
            users_online_1_hour: 5,
            users_online_1_week: 6,
            users_online_1_month: 7,
            canisters_in_pool: 2,
            canister_pool_target_size: 5,
            canister_upgrades_pending: 2,
            canister_upgrades_in_progress: 2,
            canister_upgrades_failed: 1,
            max_concurrent_canister_upgrades: 2,
            user_wasm_version: BuildVersion::new(2, 3, 4),
            sms_messages_in_queue: 3,
            super_admins: 1,
            super_admins_to_dismiss: 1,
        }
    );
    assert_eq!(s.data.canister_pool.len(), 2);
}

#[test]
fn the_pool_figure_shows_the_deficit() {
    let mut s = state(id(1));
    let empty = s.metrics(readings());
    assert_eq!((empty.canisters_in_pool, empty.canister_pool_target_size), (0, 5));
    for n in 0..7u8 {
        assert!(s.data.canister_pool.provisioned(Principal::from_slice(&[n, 9]).unwrap(), 1));
    }
    s.data.canister_pool.allocate().unwrap();
    let filled = s.metrics(readings());
    assert_eq!((filled.canisters_in_pool, filled.canister_pool_target_size), (6, 5));
}

#[test]
fn large_counts_are_reported_as_they_are() {
    let mut s = state(id(1));
    for n in 0..=255u8 {
        s.data.super_admins.insert(Principal::from_slice(&[n, 7]).unwrap());
    }
    s.data.super_admins.insert(id(1));
    let m = s.metrics(PlatformReadings { sms_messages_in_queue: 5_000_000_000, ..readings() });
    assert_eq!(m.super_admins, 257);
    assert_eq!(m.sms_messages_in_queue, 5_000_000_000);
}
