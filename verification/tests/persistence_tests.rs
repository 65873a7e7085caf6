use interstice_core::persistence::config::PersistenceConfig;
use interstice_core::persistence::determinism::{DeterminismCheckResult, check_determinism};
use interstice_core::persistence::log_rotation::{LogRotator, RotationConfig, RotationStep};
use interstice_core::persistence::log_validation::{LogInfo, LogValidator, distinct_texts};
use interstice_core::persistence::replay::ReplayEngine;
use interstice_core::persistence::migration::{MigrationRecord, MigrationRegistry, TableMigration};
use interstice_core::persistence::peer_tokens::{PeerTokenStore, StoredTokens};
use interstice_core::persistence::schema_versioning::SchemaVersionRegistry;
use interstice_core::persistence::table_store::LogSequence;
use interstice_core::persistence::transaction_log::{Transaction, TransactionLog, frame_transaction, split_frames};
use interstice_core::persistence::types::TransactionType;
use interstice_core::runtime::error::IntersticeError;
use interstice_core::runtime::value::{IntersticeValue, Row};

#[test]
fn test_default_config() {
    let cfg = PersistenceConfig::default();
    assert!(cfg.enabled);
    assert!(cfg.sync_on_append);
}

#[test]
fn test_custom_config() {
    let cfg = PersistenceConfig::disabled().with_log_dir("/tmp/logs".to_string());
    assert!(!cfg.enabled);
    assert_eq!(cfg.log_dir, "/tmp/logs");
}

#[test]
fn test_log_file_path() {
    let cfg = PersistenceConfig::default().with_log_dir("./data".to_string());
    assert_eq!(cfg.log_file_path(), "./data/transactions.log");
}

#[test]
fn log_file_path_keeps_a_single_separator() {
    let cfg = PersistenceConfig::default_fast().with_log_dir("./data/".to_string());
    assert_eq!(cfg.log_file_path(), "./data/transactions.log");
    assert!(!cfg.sync_on_append);
    let cfg = PersistenceConfig::default_fast().with_log_dir(String::new());
    assert_eq!(cfg.log_file_path(), "transactions.log");
    assert_eq!(PersistenceConfig::default_safe().log_dir, "./interstice_logs");
}

#[test]
fn test_determinism_result_creation() {
    let result = DeterminismCheckResult::new(3);
    assert_eq!(result.runs_performed, 3);
    assert!(result.is_deterministic);
    assert!(result.error_message.is_none());
}

#[test]
fn test_determinism_divergence_marking() {
    let mut result = DeterminismCheckResult::new(2);
    result.mark_divergence(42, "State mismatch at transaction 42");
    assert!(!result.is_deterministic);
    assert_eq!(result.divergence_point, Some(42));
    assert!(result.error_message.is_some());
}

#[test]
fn determinism_check_numbers_its_runs() {
    let r = check_determinism(true, "log", 3).unwrap();
    assert_eq!(r.snapshots.len(), 3);
    assert_eq!(r.snapshots[0].run_number, 1);
    assert_eq!(r.snapshots[2].run_number, 3);
    assert_eq!(r.snapshots[1].transaction_count, 0);
    assert!(r.is_deterministic);
    assert_eq!(check_determinism(false, "x.log", 3).unwrap_err(), "Log file not found: x.log");
    assert_eq!(
        check_determinism(true, "x.log", 1).unwrap_err(),
        "Must perform at least 2 runs to check determinism"
    );
}

#[test]
fn test_transaction_type_roundtrip() {
    for ty in &[TransactionType::Insert, TransactionType::Update, TransactionType::Delete] {
        let byte = ty.to_byte();
        assert_eq!(TransactionType::from_byte(byte), Some(*ty));
    }
}

#[test]
fn transaction_type_bytes() {
    assert_eq!(TransactionType::Insert.to_byte(), 1);
    assert_eq!(TransactionType::Delete.to_byte(), 3);
    assert_eq!(TransactionType::from_byte(0), None);
    assert_eq!(TransactionType::from_byte(4), None);
}

#[test]
fn test_migration_creation() {
    let m = TableMigration::new(
        "add_email_column".to_string(),
        "users".to_string(),
        1,
        2,
        "Add email column to users table".to_string(),
    );
    assert_eq!(m.name, "add_email_column");
    assert_eq!(m.from_version, 1);
    assert_eq!(m.to_version, 2);
}

#[test]
fn test_migration_applies() {
    let m = TableMigration::new(
        "add_email_column".to_string(),
        "users".to_string(),
        1,
        2,
        "Add email column".to_string(),
    );
    assert!(m.applies("users", 1, 2));
    assert!(!m.applies("users", 1, 3));
    assert!(!m.applies("accounts", 1, 2));
}

#[test]
fn test_registry_register() {
    let mut registry = MigrationRegistry::new();
    let m = TableMigration::new("migration_1".to_string(), "users".to_string(), 1, 2, "First migration".to_string());
    assert!(registry.register(m).is_ok());
    assert_eq!(registry.migration_count(), 1);
}

#[test]
fn test_registry_duplicate_registration_fails() {
    let mut registry = MigrationRegistry::new();
    let m1 = TableMigration::new("migration_1".to_string(), "users".to_string(), 1, 2, "First migration".to_string());
    let m2 = TableMigration::new("migration_1".to_string(), "users".to_string(), 2, 3, "Duplicate name".to_string());
    assert!(registry.register(m1).is_ok());
    assert!(registry.register(m2).is_err());
}

#[test]
fn duplicate_registration_message() {
    let mut registry = MigrationRegistry::default();
    registry.register(TableMigration::new("m".to_string(), "t".to_string(), 1, 2, String::new())).unwrap();
    let e = registry.register(TableMigration::new("m".to_string(), "u".to_string(), 3, 4, String::new()));
    assert_eq!(e.unwrap_err(), "Migration m already registered");
    assert_eq!(registry.get("m").unwrap().table_name, "t");
}

#[test]
fn test_registry_get_migration() {
    let mut registry = MigrationRegistry::new();
    let m = TableMigration::new("migration_1".to_string(), "users".to_string(), 1, 2, "Test migration".to_string());
    registry.register(m).ok();
    let found = registry.get("migration_1");
    assert!(found.is_some());
    assert_eq!(found.unwrap().name, "migration_1");
}

#[test]
fn test_registry_find_applicable() {
    let mut registry = MigrationRegistry::new();
    registry.register(TableMigration::new("m1".to_string(), "users".to_string(), 1, 2, "".to_string())).ok();
    registry.register(TableMigration::new("m2".to_string(), "users".to_string(), 2, 3, "".to_string())).ok();
    registry.register(TableMigration::new("m3".to_string(), "accounts".to_string(), 1, 2, "".to_string())).ok();
    let applicable = registry.find_applicable("users", 1, 3);
    assert_eq!(applicable.len(), 2);
}

#[test]
fn find_applicable_keeps_the_span() {
    let mut registry = MigrationRegistry::new();
    registry.register(TableMigration::new("m1".to_string(), "users".to_string(), 1, 2, "".to_string())).ok();
    registry.register(TableMigration::new("m2".to_string(), "users".to_string(), 2, 3, "".to_string())).ok();
    let applicable = registry.find_applicable("users", 2, 3);
    assert_eq!(applicable.len(), 1);
    assert_eq!(applicable[0].name, "m2");
    assert!(registry.find_applicable("users", 1, 1).is_empty());
}

#[test]
fn test_migration_record() {
    let record = MigrationRecord::new("m1".to_string(), "users".to_string(), 12345);
    assert_eq!(record.migration_name, "m1");
    assert_eq!(record.table_name, "users");
    assert_eq!(record.applied_at, 12345);
}

#[test]
fn test_registry_record_applied() {
    let mut registry = MigrationRegistry::new();
    registry.record_applied("m1".to_string(), "users".to_string(), 100);
    assert_eq!(registry.applied_count(), 1);
    assert!(registry.is_applied("m1"));
}

#[test]
fn test_registry_is_applied() {
    let mut registry = MigrationRegistry::new();
    registry.record_applied("m1".to_string(), "users".to_string(), 100);
    assert!(registry.is_applied("m1"));
    assert!(!registry.is_applied("m2"));
}

#[test]
fn test_registry_get_applied_for_table() {
    let mut registry = MigrationRegistry::new();
    registry.record_applied("m1".to_string(), "users".to_string(), 100);
    registry.record_applied("m2".to_string(), "users".to_string(), 101);
    registry.record_applied("m3".to_string(), "accounts".to_string(), 102);
    let applied = registry.get_applied_for_table("users");
    assert_eq!(applied.len(), 2);
}

#[test]
fn test_registry_all_migrations() {
    let mut registry = MigrationRegistry::new();
    registry.register(TableMigration::new("m1".to_string(), "users".to_string(), 1, 2, "".to_string())).ok();
    registry.register(TableMigration::new("m2".to_string(), "users".to_string(), 2, 3, "".to_string())).ok();
    assert_eq!(registry.all_migrations().len(), 2);
}

#[test]
fn test_registry_multiple_tables() {
    let mut registry = MigrationRegistry::new();
    registry.register(TableMigration::new("users_m1".to_string(), "users".to_string(), 1, 2, "".to_string())).ok();
    registry.register(TableMigration::new("accounts_m1".to_string(), "accounts".to_string(), 1, 2, "".to_string())).ok();
    assert_eq!(registry.migration_count(), 2);
    let users_applied = registry.find_applicable("users", 1, 2);
    assert_eq!(users_applied.len(), 1);
    assert_eq!(users_applied[0].table_name, "users");
}

#[test]
fn test_registry_creation() {
    let registry = SchemaVersionRegistry::new();
    assert!(registry.get_versions("test").is_none());
}

#[test]
fn test_record_and_retrieve_version() {
    let mut registry = SchemaVersionRegistry::new();
    registry.record_version("users".to_string(), 0, 100);
    let versions = registry.get_versions("users").unwrap();
    assert_eq!(versions.len(), 1);
    assert_eq!(versions[0].version, 0);
    assert_eq!(versions[0].timestamp, 100);
}

#[test]
fn test_multiple_versions() {
    let mut registry = SchemaVersionRegistry::new();
    registry.record_version("users".to_string(), 0, 100);
    registry.record_version("users".to_string(), 1, 200);
    registry.record_version("users".to_string(), 2, 300);
    let versions = registry.get_versions("users").unwrap();
    assert_eq!(versions.len(), 3);
    assert_eq!(versions[0].version, 0);
    assert_eq!(versions[2].version, 2);
}

#[test]
fn test_latest_version() {
    let mut registry = SchemaVersionRegistry::new();
    registry.record_version("users".to_string(), 0, 100);
    registry.record_version("users".to_string(), 1, 200);
    assert_eq!(registry.latest_version("users"), Some(1));
    assert_eq!(registry.latest_version("nonexistent"), None);
}

#[test]
fn test_compatibility_check() {
    let registry = SchemaVersionRegistry::new();
    assert!(registry.is_compatible("users", 0, 0));
    assert!(registry.is_compatible("users", 0, 1));
    assert!(registry.is_compatible("users", 5, 6));
    assert!(!registry.is_compatible("users", 0, 2));
    assert!(!registry.is_compatible("users", 5, 3));
}

#[test]
fn test_multiple_modules() {
    let mut registry = SchemaVersionRegistry::new();
    registry.record_version("users".to_string(), 0, 100);
    registry.record_version("posts".to_string(), 0, 150);
    registry.record_version("users".to_string(), 1, 200);
    assert_eq!(registry.latest_version("users"), Some(1));
    assert_eq!(registry.latest_version("posts"), Some(0));
    let user_versions = registry.get_versions("users").unwrap();
    assert_eq!(user_versions.len(), 2);
}

#[test]
fn latest_version_follows_each_record() {
    let mut registry = SchemaVersionRegistry::default();
    registry.record_version("m".to_string(), 7, 1);
    assert_eq!(registry.latest_version("m"), Some(7));
    registry.record_version("m".to_string(), 3, 2);
    assert_eq!(registry.latest_version("m"), Some(3));
    assert_eq!(registry.get_versions("m").unwrap()[1].module, "m");
}

#[test]
fn rotation_defaults_and_threshold() {
    let cfg = RotationConfig::default();
    assert_eq!(cfg.max_log_size, 100 * 1024 * 1024);
    assert_eq!(cfg.max_rotated_logs, 10);
    let rotator = LogRotator::new(RotationConfig { max_log_size: 10, max_rotated_logs: 3 });
    assert!(!rotator.should_rotate(None));
    assert!(!rotator.should_rotate(Some(10)));
    assert!(rotator.should_rotate(Some(11)));
}

#[test]
fn rotation_plan_moves_logs_up_and_drops_the_oldest() {
    let rotator = LogRotator::new(RotationConfig { max_log_size: 10, max_rotated_logs: 3 });
    let plan = rotator.rotation_plan(2);
    assert_eq!(
        plan,
        vec![
            RotationStep::Remove { number: 2 },
            RotationStep::Rename { from: 1, to: 2 },
            RotationStep::Rename { from: 0, to: 1 },
            RotationStep::Rename { from: -1, to: 0 },
        ]
    );
    assert_eq!(rotator.rotation_plan(-1), vec![RotationStep::Rename { from: -1, to: 0 }]);
}

#[test]
fn rotated_log_numbers() {
    assert_eq!(LogRotator::rotated_log_number("txn.log.3", "txn.log"), Some(3));
    assert_eq!(LogRotator::rotated_log_number("txn.log.x", "txn.log"), None);
    assert_eq!(LogRotator::rotated_log_number("other.log.1", "txn.log"), None);
    let names = vec!["txn.log".to_string(), "txn.log.0".to_string(), "txn.log.4".to_string(), "txn.log.2".to_string()];
    assert_eq!(LogRotator::highest_rotated(&names, "txn.log"), 4);
    assert_eq!(LogRotator::highest_rotated(&vec!["a".to_string()], "txn.log"), -1);
    assert!(LogRotator::is_rotated_log("txn.log.7", "txn.log"));
    assert!(!LogRotator::is_rotated_log("txn.log", "txn.log"));
}

#[test]
fn validation_results() {
    let ok = LogValidator::validate(2, Ok(2));
    assert!(ok.is_valid());
    assert_eq!(ok.total_transactions, 2);
    let partial = LogValidator::validate(12, Ok(10));
    assert!(!partial.is_valid());
    assert_eq!(partial.errors, vec!["Incomplete log: 10 of 12 transactions valid".to_string()]);
    let failed = LogValidator::validate(3, Err("bad frame".to_string()));
    assert_eq!(failed.valid_transactions, 0);
    assert_eq!(failed.errors, vec!["Log verification failed: bad frame".to_string()]);
    assert!(!failed.is_valid());
}

#[test]
fn log_info_counts_distinct_names() {
    let modules = vec!["module1".to_string(), "module1".to_string(), "module2".to_string()];
    let tables = vec!["table1".to_string(), "table2".to_string(), "table1".to_string()];
    let info = LogInfo::from_transactions("test.log".to_string(), 99, &modules, &tables);
    assert_eq!(info.transaction_count, 3);
    assert_eq!(info.modules.len(), 2);
    assert_eq!(info.tables.len(), 2);
    assert_eq!(distinct_texts(&modules), vec!["module1".to_string(), "module2".to_string()]);
}

fn make_tx(id: u64, text: &str) -> Transaction {
    Transaction {
        transaction_type: TransactionType::Insert,
        module_name: "hello".to_string(),
        table_name: "greetings".to_string(),
        row: Row { primary_key: IntersticeValue::U64(id), entries: vec![IntersticeValue::String(text.to_string())] },
        old_row: None,
        timestamp: id,
    }
}

#[test]
fn in_memory_log_reads_back_appends() {
    let mut log = TransactionLog::new_in_memory();
    assert_eq!(log.transaction_count(), 0);
    log.append(&make_tx(1, "Hello")).unwrap();
    log.append(&make_tx(2, "World")).unwrap();
    let all = log.read_all().unwrap();
    assert_eq!(all.len(), 2);
    assert_eq!(all[0].timestamp, 1);
    assert_eq!(all[1].row.entries.len(), 1);
    assert_eq!(log.transaction_count(), 2);
}

#[test]
fn frames_read_back_what_was_written() {
    let mut bytes = frame_transaction(&[1, 2, 3]);
    assert_eq!(bytes, vec![3, 0, 0, 0, 1, 2, 3]);
    bytes.extend(frame_transaction(&[]));
    bytes.extend(frame_transaction(&[9u8; 300]));
    let payloads = split_frames(&bytes).unwrap();
    assert_eq!(payloads, vec![vec![1u8, 2, 3], vec![], vec![9u8; 300]]);
    bytes.extend([7u8, 7]);
    assert_eq!(split_frames(&bytes).unwrap().len(), 3);
}

#[test]
fn truncated_frame_is_an_error() {
    let bytes = vec![5u8, 0, 0, 0, 1, 2];
    match split_frames(&bytes) {
        Err(IntersticeError::Internal(m)) => {
            assert_eq!(m, "Error when decoding transaction logs: failed to fill whole buffer")
        }
        _ => panic!("expected an error"),
    }
}

#[test]
fn peer_tokens_by_node() {
    let mut store = PeerTokenStore::new_in_memory();
    let token = store.local_token();
    assert_eq!(token.len(), 36);
    assert_eq!(token.as_bytes()[14], b'4');
    let peer: u128 = 0xa1a2a3a4b1b2c1c2d1d2d3d4d5d6d7d8;
    assert_eq!(store.get_peer_token(&peer), None);
    store.set_peer_token(&peer, "secret".to_string());
    assert_eq!(store.get_peer_token(&peer), Some("secret".to_string()));
    store.set_peer_token(&peer, "other".to_string());
    assert_eq!(store.get_peer_token(&peer), Some("other".to_string()));
    let (local, peers) = store.contents();
    assert_eq!(local, token);
    assert_eq!(peers, vec![("a1a2a3a4-b1b2-c1c2-d1d2-d3d4d5d6d7d8".to_string(), "other".to_string())]);
}

#[test]
fn peer_token_loading() {
    let (store, save) = PeerTokenStore::load_or_create(
        "tokens.toml".to_string(),
        StoredTokens::Parsed { local_token: "abc".to_string(), peers: vec![("p".to_string(), "t".to_string())] },
    );
    assert!(!save);
    assert_eq!(store.local_token(), "abc");
    assert_eq!(store.file_path(), Some("tokens.toml"));
    let (store, save) = PeerTokenStore::load_or_create(
        "tokens.toml".to_string(),
        StoredTokens::Parsed { local_token: "  ".to_string(), peers: vec![] },
    );
    assert!(save);
    assert_eq!(store.local_token().len(), 36);
    let (_, save) = PeerTokenStore::load_or_create("tokens.toml".to_string(), StoredTokens::Missing);
    assert!(save);
}

#[test]
fn snapshots_come_every_interval() {
    let mut s = LogSequence::new();
    let mut plans = 0;
    for _ in 0..256 {
        assert!(s.record_operation("m", "t").is_none());
    }
    let plan = s.record_operation("m", "t").unwrap();
    assert_eq!(plan.seq, 256);
    assert_eq!(plan.table, "t");
    s.snapshot_taken(plan.seq);
    plans += 1;
    assert!(s.record_operation("m", "t").is_none());
    assert_eq!(plans, 1);
    let r = LogSequence::restored(9);
    assert_eq!(r.next_seq, 10);
}

fn make_row(id: u64, text: &str) -> Row {
    Row { primary_key: IntersticeValue::U64(id), entries: vec![IntersticeValue::String(text.to_string())] }
}

fn make_module_tx(module: &str, table: &str, id: u64, text: &str) -> Transaction {
    Transaction {
        transaction_type: TransactionType::Insert,
        module_name: module.to_string(),
        table_name: table.to_string(),
        row: make_row(id, text),
        old_row: None,
        timestamp: id,
    }
}

fn same_row(a: &Row, b: &Row) -> bool {
    format!("{:?}", a) == format!("{:?}", b)
}

#[test]
fn test_validate_empty_log() {
    let log = TransactionLog::new_in_memory();
    let result = LogValidator::validate_log(&ReplayEngine::new(log));
    assert!(result.is_valid());
    assert_eq!(result.total_transactions, 0);
}

#[test]
fn test_validate_log_with_transactions() {
    let mut log = TransactionLog::new_in_memory();
    log.append(&make_module_tx("hello", "greetings", 1, "Hello")).unwrap();
    log.append(&make_module_tx("hello", "greetings", 2, "World")).unwrap();

    let result = LogValidator::validate_log(&ReplayEngine::new(log));
    assert!(result.is_valid());
    assert_eq!(result.total_transactions, 2);
    assert_eq!(result.valid_transactions, 2);
}

#[test]
fn test_inspect_log() {
    let mut log = TransactionLog::new_in_memory();
    log.append(&make_module_tx("module1", "table1", 1, "data1")).unwrap();
    log.append(&make_module_tx("module1", "table2", 2, "data2")).unwrap();
    log.append(&make_module_tx("module2", "table1", 3, "data3")).unwrap();

    let info = LogValidator::inspect_log("test.log".to_string(), 0, &ReplayEngine::new(log));
    assert_eq!(info.transaction_count, 3);
    assert_eq!(info.modules.len(), 2);
    assert_eq!(info.tables.len(), 2);
    assert_eq!(info.path, "test.log");
}

#[test]
fn test_replay_engine_creation() {
    let mut log = TransactionLog::new_in_memory();
    log.append(&make_module_tx("hello", "greetings", 1, "Hello, World!")).unwrap();

    let engine = ReplayEngine::new(log);
    assert_eq!(engine.transaction_count(), 1);
}

#[test]
fn test_replay_engine_verify() {
    let mut log = TransactionLog::new_in_memory();
    log.append(&make_module_tx("hello", "greetings", 1, "Greeting 1")).unwrap();
    log.append(&make_module_tx("hello", "greetings", 2, "Greeting 2")).unwrap();

    let engine = ReplayEngine::new(log);
    assert_eq!(engine.verify().unwrap(), 2);
}

#[test]
fn test_replay_engine_read_all() {
    let mut log = TransactionLog::new_in_memory();
    let tx1 = make_module_tx("hello", "greetings", 1, "Greeting 1");
    let tx2 = make_module_tx("hello", "greetings", 2, "Greeting 2");
    log.append(&tx1).unwrap();
    log.append(&tx2).unwrap();

    let engine = ReplayEngine::new(log);
    let txs = engine.replay_all_transactions().unwrap();
    assert_eq!(txs.len(), 2);
    assert!(same_row(&txs[0].row, &tx1.row));
    assert!(same_row(&txs[1].row, &tx2.row));
}

#[test]
fn test_replay_engine_with_updates_and_deletes() {
    let mut log = TransactionLog::new_in_memory();

    // Insert
    log.append(&make_module_tx("hello", "greetings", 1, "Original")).unwrap();
    // Update
    let update_tx = Transaction {
        transaction_type: TransactionType::Update,
        module_name: "hello".to_string(),
        table_name: "greetings".to_string(),
        row: make_row(1, "Updated"),
        old_row: Some(make_row(1, "Original")),
        timestamp: 2,
    };
    log.append(&update_tx).unwrap();
    // Delete
    let delete_tx = Transaction {
        transaction_type: TransactionType::Delete,
        module_name: "hello".to_string(),
        table_name: "greetings".to_string(),
        row: make_row(1, "Updated"),
        old_row: None,
        timestamp: 3,
    };
    log.append(&delete_tx).unwrap();

    let engine = ReplayEngine::new(log);
    let txs = engine.replay_all_transactions().unwrap();
    assert_eq!(txs.len(), 3);
    assert_eq!(txs[0].transaction_type, TransactionType::Insert);
    assert_eq!(txs[1].transaction_type, TransactionType::Update);
    assert_eq!(txs[2].transaction_type, TransactionType::Delete);
}

fn make_insert_tx(id: u64, text: &str) -> Transaction {
    make_module_tx("hello", "greetings", id, text)
}

#[test]
fn test_log_hello_module_greetings() {
    let mut log = TransactionLog::new_in_memory();
    let tx1 = make_insert_tx(1, "Hello, World!");
    let tx2 = make_insert_tx(2, "Hello, Rust!");
    let tx3 = make_insert_tx(3, "Hello, Interstice!");
    log.append(&tx1).unwrap();
    log.append(&tx2).unwrap();
    log.append(&tx3).unwrap();

    let txs = log.read_all().unwrap();
    assert_eq!(txs.len(), 3);
    assert!(same_row(&txs[0].row, &tx1.row));
    assert!(same_row(&txs[1].row, &tx2.row));
    assert!(same_row(&txs[2].row, &tx3.row));
}

#[test]
fn test_log_caller_to_hello_flow() {
    let mut log = TransactionLog::new_in_memory();
    let greeting_tx = Transaction {
        transaction_type: TransactionType::Insert,
        module_name: "hello".to_string(),
        table_name: "greetings".to_string(),
        row: make_row(1, "Hello, called from caller!"),
        old_row: None,
        timestamp: 100,
    };
    log.append(&greeting_tx).unwrap();

    let txs = log.read_all().unwrap();
    assert_eq!(txs.len(), 1);
    assert_eq!(txs[0].module_name, "hello");
    assert_eq!(txs[0].table_name, "greetings");
}

#[test]
fn test_log_update_greeting() {
    let mut log = TransactionLog::new_in_memory();
    let old_row = make_row(1, "Hello, World!");
    let update_tx = Transaction {
        transaction_type: TransactionType::Update,
        module_name: "hello".to_string(),
        table_name: "greetings".to_string(),
        row: make_row(1, "Hello, Updated!"),
        old_row: Some(old_row.clone()),
        timestamp: 200,
    };
    log.append(&update_tx).unwrap();

    let txs = log.read_all().unwrap();
    assert_eq!(txs.len(), 1);
    assert!(same_row(txs[0].old_row.as_ref().unwrap(), &old_row));
}

#[test]
fn test_log_delete_greeting() {
    let mut log = TransactionLog::new_in_memory();
    let delete_tx = Transaction {
        transaction_type: TransactionType::Delete,
        module_name: "hello".to_string(),
        table_name: "greetings".to_string(),
        row: make_row(1, "Hello, Deleted!"),
        old_row: None,
        timestamp: 300,
    };
    log.append(&delete_tx).unwrap();

    let txs = log.read_all().unwrap();
    assert_eq!(txs.len(), 1);
    assert_eq!(txs[0].transaction_type, TransactionType::Delete);
}

#[test]
fn test_log_multiple_modules_mixed_operations() {
    let mut log = TransactionLog::new_in_memory();
    log.append(&make_insert_tx(1, "Greeting 1")).unwrap();
    log.append(&make_insert_tx(2, "Greeting 2")).unwrap();
    let other_tx = Transaction {
        transaction_type: TransactionType::Insert,
        module_name: "graphics".to_string(),
        table_name: "some_table".to_string(),
        row: Row {
            primary_key: IntersticeValue::U64(1),
            entries: vec![IntersticeValue::String("graphics data".to_string())],
        },
        old_row: None,
        timestamp: 10,
    };
    log.append(&other_tx).unwrap();

    let txs = log.read_all().unwrap();
    assert_eq!(txs.len(), 3);
    assert_eq!(txs[0].module_name, "hello");
    assert_eq!(txs[1].module_name, "hello");
    assert_eq!(txs[2].module_name, "graphics");
}

#[test]
fn rotated_log_numbers_follow_integer_parsing() {
    assert_eq!(LogRotator::rotated_log_number("txn.log.+7", "txn.log"), Some(7));
    assert_eq!(LogRotator::rotated_log_number("txn.log.-2", "txn.log"), Some(-2));
    assert_eq!(LogRotator::rotated_log_number("txn.log.", "txn.log"), None);
    assert_eq!(LogRotator::rotated_log_number("txn.log.-", "txn.log"), None);
    assert_eq!(LogRotator::rotated_log_number("txn.log.99999999999", "txn.log"), None);
}

#[test]
fn deleting_the_log_empties_it() {
    let mut log = TransactionLog::new_in_memory();
    log.append(&make_insert_tx(1, "Hello")).unwrap();
    log.delete_all_logs().unwrap();
    assert_eq!(log.transaction_count(), 0);
    assert!(log.read_all().unwrap().is_empty());
}
