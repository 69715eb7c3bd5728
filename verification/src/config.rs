//! Configuration records as plain values, with their defaults, and the
//! migration tool's command grammar.  Reading the environment happens
//! outside; the records and the rules live here.

use vstd::prelude::*;

use crate::extract::str_eq;

verus! {

/// How the consumer connects and batches.
pub struct ConsumerConfig {
    pub asset_storage_address: Option<String>,
    pub assets_only: bool,
    pub blockchain_updates_url: String,
    pub chain_id: u8,
    pub max_wait_time_ms: u64,
    pub starting_height: u32,
    pub updates_per_request: usize,
}

/// How the store is reached.
pub struct PostgresConfig {
    pub host: String,
    pub port: u16,
    pub database: String,
    pub user: String,
    pub password: String,
    pub poolsize: u32,
}

/// Everything the consumer process needs.
pub struct Config {
    pub postgres: PostgresConfig,
    pub consumer: ConsumerConfig,
}

/// Everything the migration tool needs.
pub struct MigrationConfig {
    pub postgres: PostgresConfig,
}

/// Everything the manual rollback tool needs.
pub struct RollbackConfig {
    pub assets_only: bool,
    pub rollback_to: i64,
}

/// Whether transaction rows are skipped when nothing asks otherwise.
pub fn default_assets_only() -> (r: bool)
    ensures
        r == false,
{
    false
}

/// How many updates one feed request asks for when nothing asks
/// otherwise.
pub fn default_updates_per_request() -> (r: usize)
    ensures
        r == 256,
{
    256
}

/// How long a batch may wait before it flushes, when nothing asks
/// otherwise.
pub fn default_max_wait_time_in_msecs() -> (r: u64)
    ensures
        r == 5000,
{
    5000
}

/// The store's port when nothing asks otherwise.
pub fn default_port() -> (r: u16)
    ensures
        r == 5432,
{
    5432
}

/// The connection pool's size when nothing asks otherwise.
pub fn default_poolsize() -> (r: u32)
    ensures
        r == 1,
{
    1
}

/// What the migration tool is asked to do.
pub enum Action {
    ListPending,
    MigrateUp,
    MigrateDown,
}

/// Reads a migration command: nothing or `list` lists what is pending,
/// `up` applies, `down` reverts; anything else is refused.
pub fn parse_action(value: &str) -> (r: Result<Action, ()>)
    ensures
        match r {
            Ok(a) => match a {
                Action::ListPending => value@ == ""@ || value@ == "list"@,
                Action::MigrateUp => value@ == "up"@,
                Action::MigrateDown => value@ == "down"@,
            },
            Err(_) => value@ != ""@ && value@ != "list"@ && value@ != "up"@ && value@ != "down"@,
        },
{
    if str_eq(value, "") || str_eq(value, "list") {
        Ok(Action::ListPending)
    } else if str_eq(value, "up") {
        Ok(Action::MigrateUp)
    } else if str_eq(value, "down") {
        Ok(Action::MigrateDown)
    } else {
        Err(())
    }
}

} // verus!
