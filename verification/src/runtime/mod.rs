pub mod value;
pub mod schema;
pub mod error;
pub mod table;
pub mod scheduler;
pub mod index;
pub mod scan;
pub mod table_access;
pub mod authority;
pub mod module_load;
pub mod node_events;
pub mod timers;
pub mod event;
pub mod reducer;
pub mod deterministic_random;
pub mod transaction;
pub mod table_permissions;
