//! Fleet synchronisation and upgrade orchestration for a coordinator that
//! manages independently addressable worker nodes.

pub mod coordinator;
pub mod delivery;
pub mod env;
pub mod group;
pub mod init;
pub mod install;
pub mod keyed;
pub mod laws;
pub mod notifications_index;
pub mod outbox;
pub mod pool;
pub mod principal;
pub mod principal_set;
pub mod registry;
pub mod scheduler;
pub mod storage_index;
pub mod types;
pub mod upgrade;
pub mod user_index;
