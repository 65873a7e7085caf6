pub mod types;
pub mod config;
pub mod determinism;
pub mod log_rotation;
pub mod log_validation;
pub mod migration;
pub mod peer_tokens;
pub mod replay;
pub mod schema_versioning;
pub mod table_store;
pub mod transaction_log;
