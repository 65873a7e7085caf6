use interstice_core::runtime::table_permissions::{ ReducerTableAccess, TableAccessOp, effective_reducer_table_ref, ensure_table_access, format_reducer_table_ref, };
use interstice_core::runtime::event::{EventTopic, Subscription, SubscriptionEventSchema, SubscriptionTarget, local_targets};
use interstice_core::persistence::table_store::{TableLogEntry, apply_entry, replay_entries};
use interstice_core::node::node_id_text;
use interstice_core::persistence::table_store::LogOperation;
use interstice_core::runtime::transaction::{PersistAction, TableEvent, TableSet, Transaction, bindings_for_source};
use interstice_core::runtime::authority::AuthorityEntry;
use interstice_core::runtime::deterministic_random::{FNV_OFFSET, fnv1a, next_u64, seed_from_call};
use interstice_core::runtime::error::IntersticeError;
use interstice_core::runtime::index::{CompositeIndex, PrimaryKeyIndex, SecondaryIndex};
use interstice_core::runtime::reducer::{CallFrameKind, ReducerSignature, check_schedule};
use interstice_core::runtime::scan::{FilteredTableIterator, IndexedScan, RangeScan, TableIterator};
use interstice_core::runtime::scheduler::{
    ModuleSelection, NodeSelection, ReducerScheduler, ReducerTableRef, TableAccess, TableOp, conflicts_sorted,
    sort_table_accesses,
};
use interstice_core::runtime::schema::{FieldDef, IndexQuery, IndexSchema, IndexType, IntersticeType, PersistenceKind, TableSchema};
use interstice_core::runtime::table::Table;
use interstice_core::runtime::table_access::{
    ReplicaBinding, canonical_physical_name, expand_access_set, normalize_user_table_ref,
};
use interstice_core::runtime::value::{IndexKey, IntersticeValue, Row, decimal_string};

#[test]
fn test_primary_key_index_insert_get() {
    let mut index = PrimaryKeyIndex::new();
    let key = b"key1".to_vec();
    index.insert(key.clone(), 0);
    assert_eq!(index.get(&key), Some(0));
}

#[test]
fn test_primary_key_index_remove() {
    let mut index = PrimaryKeyIndex::new();
    let key = b"key1".to_vec();
    index.insert(key.clone(), 0);
    assert_eq!(index.remove(&key), Some(0));
    assert_eq!(index.get(&key), None);
}

#[test]
fn test_primary_key_index_update() {
    let mut index = PrimaryKeyIndex::new();
    let key = b"key1".to_vec();
    index.insert(key.clone(), 0);
    assert!(index.update(&key, 1));
    assert_eq!(index.get(&key), Some(1));
}

#[test]
fn primary_key_index_lists_positions_in_key_order() {
    let mut index = PrimaryKeyIndex::new();
    index.insert(b"b".to_vec(), 2);
    index.insert(b"a".to_vec(), 1);
    index.insert(b"ab".to_vec(), 3);
    index.insert(b"a".to_vec(), 4);
    assert_eq!(index.len(), 3);
    assert!(!index.is_empty());
    assert_eq!(index.all_indices(), vec![4, 3, 2]);
    assert!(!index.update(b"zz", 9));
    assert_eq!(index.remove(b"zz"), None);
}

#[test]
fn test_secondary_index_insert_query() {
    let mut index = SecondaryIndex::new("email".to_string());
    let value = b"user@example.com".to_vec();
    index.insert(value.clone(), 0);
    index.insert(value.clone(), 1);
    assert_eq!(index.query(&value), vec![0, 1]);
}

#[test]
fn test_secondary_index_remove() {
    let mut index = SecondaryIndex::new("email".to_string());
    let value = b"user@example.com".to_vec();
    index.insert(value.clone(), 0);
    index.insert(value.clone(), 1);
    index.remove(&value, 0);
    assert_eq!(index.query(&value), vec![1]);
}

#[test]
fn test_secondary_index_range_query() {
    let mut index = SecondaryIndex::new("age".to_string());
    for i in 20..=30 {
        let key = vec![i as u8];
        index.insert(key, i as usize);
    }
    let results = index.range_query(&vec![25], &vec![27]);
    assert!(results.len() > 0);
}

#[test]
fn secondary_index_range_is_inclusive_and_ordered() {
    let mut index = SecondaryIndex::new("age".to_string());
    for i in (20..=30).rev() {
        index.insert(vec![i as u8], i as usize);
    }
    assert_eq!(index.range_query(&vec![25], &vec![27]), vec![25, 26, 27]);
    assert_eq!(index.value_count(), 11);
    assert_eq!(index.total_entries(), 11);
    assert_eq!(index.column_name(), "age");
    assert!(index.remove(&vec![25], 25));
    assert!(!index.remove(&vec![25], 25));
    assert_eq!(index.query(&vec![25]), Vec::<usize>::new());
}

#[test]
fn test_composite_index_insert_query() {
    let mut index = CompositeIndex::new(vec!["first_name".to_string(), "last_name".to_string()]);
    let key = vec![b"John".to_vec(), b"Doe".to_vec()];
    index.insert(key.clone(), 0);
    assert_eq!(index.query(&key), vec![0]);
}

#[test]
fn test_composite_index_multiple_rows() {
    let mut index = CompositeIndex::new(vec!["dept".to_string(), "role".to_string()]);
    let key = vec![b"engineering".to_vec(), b"lead".to_vec()];
    index.insert(key.clone(), 0);
    index.insert(key.clone(), 1);
    assert_eq!(index.query(&key), vec![0, 1]);
}

#[test]
fn composite_index_remove_drops_empty_tuples() {
    let mut index = CompositeIndex::new(vec!["a".to_string(), "b".to_string()]);
    let key = vec![b"x".to_vec(), b"y".to_vec()];
    index.insert(key.clone(), 0);
    index.insert(vec![b"x".to_vec(), b"z".to_vec()], 1);
    assert_eq!(index.tuple_count(), 2);
    assert!(index.remove(&key, 0));
    assert_eq!(index.tuple_count(), 1);
    assert_eq!(index.column_names().len(), 2);
}

#[test]
fn test_indexed_scan() {
    let indices = vec![0, 2, 4, 6];
    let scan = IndexedScan::new(indices);
    assert_eq!(scan.matched_count(), 4);
    assert_eq!(scan.get_indices(), &[0, 2, 4, 6]);
}

#[test]
fn test_indexed_scan_iteration() {
    let indices = vec![1, 3, 5];
    let mut scan = IndexedScan::new(indices);
    let mut collected: Vec<usize> = Vec::new();
    while let Some(i) = scan.next() {
        collected.push(i);
    }
    assert_eq!(collected, vec![1, 3, 5]);
}

#[test]
fn test_range_scan() {
    let indices = vec![10, 20, 30, 40, 50];
    let scan = RangeScan::new(indices);
    assert_eq!(scan.count(), 5);
}

#[test]
fn test_range_scan_iteration() {
    let indices = vec![10, 20, 30, 40, 50];
    let mut scan = RangeScan::new(indices);
    let mut collected: Vec<usize> = Vec::new();
    while let Some(i) = scan.next() {
        collected.push(i);
    }
    assert_eq!(collected, vec![10, 20, 30, 40, 50]);
    assert_eq!(scan.next(), None);
}

#[test]
fn three_part_is_stable_without_local_node() {
    assert_eq!(
        normalize_user_table_ref("hello-example.hello-example.greetings", None, "caller-example").unwrap(),
        "hello-example.hello-example.greetings"
    );
}

#[test]
fn one_part_needs_local_node() {
    assert!(normalize_user_table_ref("greetings", None, "caller-example").is_err());
    assert_eq!(
        normalize_user_table_ref("greetings", Some("caller-example"), "caller-example").unwrap(),
        "caller-example.caller-example.greetings"
    );
}

#[test]
fn two_part_needs_local_node() {
    assert_eq!(
        normalize_user_table_ref("other-module.tbl", Some("n1"), "caller-example").unwrap(),
        "n1.other-module.tbl"
    );
}

#[test]
fn table_refs_are_trimmed_and_lowercased() {
    assert_eq!(
        normalize_user_table_ref("  Node . Mod .. Tbl ", None, "x").unwrap(),
        "node.mod.tbl"
    );
    assert_eq!(normalize_user_table_ref("   ", None, "x").unwrap_err(), "empty table access entry");
    assert_eq!(
        normalize_user_table_ref("a.b.c.d", None, "x").unwrap_err(),
        "invalid table access \"a.b.c.d\": expected `table`, `module.table`, or `node.module.table`"
    );
    assert_eq!(
        normalize_user_table_ref("m.t", None, "x").unwrap_err(),
        "local node display name is not configured; use `node.module.table` when you omit the node segment"
    );
    assert_eq!(
        normalize_user_table_ref("Greetings", Some("N"), " Caller ").unwrap(),
        "n.caller.greetings"
    );
}

#[test]
fn access_sets_hold_each_table_once() {
    let entries = vec!["t".to_string(), "n.m.t".to_string(), "N.M.T".to_string()];
    let set = expand_access_set(&entries, Some("n"), "m").unwrap();
    assert_eq!(set, vec!["n.m.t".to_string()]);
    let bad = vec!["t".to_string(), "".to_string()];
    assert_eq!(expand_access_set(&bad, Some("n"), "m").unwrap_err(), "empty table access entry");
}

#[test]
fn physical_names_resolve_replicas() {
    let bindings = vec![ReplicaBinding {
        owner_module_name: "caller".to_string(),
        source_node_id: 7,
        source_node_name: "Remote".to_string(),
        source_module_name: "Hello".to_string(),
        source_table_name: "Greetings".to_string(),
        local_table_name: "__replica__greetings".to_string(),
    }];
    assert_eq!(
        canonical_physical_name("__replica__greetings", "caller", None, &bindings).unwrap(),
        "remote.hello.greetings"
    );
    assert_eq!(canonical_physical_name("Items", "Caller", Some("Local"), &bindings).unwrap(), "local.caller.items");
    assert_eq!(
        canonical_physical_name("items", "caller", None, &bindings).unwrap_err(),
        "local node display name is not configured; cannot resolve ACL for physical table \"items\""
    );
}

fn acc(module: &str, table: &str, op: TableOp) -> TableAccess {
    TableAccess {
        table_ref: ReducerTableRef {
            node_selection: NodeSelection::Current,
            module_selection: ModuleSelection::Other(module.to_string()),
            table_name: table.to_string(),
        },
        op,
    }
}

fn sorted_accesses(mut v: Vec<TableAccess>) -> Vec<TableAccess> {
    sort_table_accesses(&mut v);
    v
}

#[test]
fn insert_insert_same_table_can_run_together() {
    let mut s = ReducerScheduler::new();
    let first = s.enqueue("a", sorted_accesses(vec![acc("m", "t", TableOp::Insert)]));
    let first = first.into_iter().collect::<Vec<_>>();
    assert_eq!(first.len(), 1);
    let second = s.enqueue("b", sorted_accesses(vec![acc("m", "t", TableOp::Insert)]));
    let second = second.into_iter().collect::<Vec<_>>();
    assert_eq!(second.len(), 1);
}

#[test]
fn waiting_queue_allows_later_non_conflicting_jobs() {
    let mut s = ReducerScheduler::new();
    let running = s
        .enqueue("run", sorted_accesses(vec![acc("m", "a", TableOp::Update)]))
        .into_iter()
        .collect::<Vec<_>>();
    assert_eq!(running.len(), 1);
    s.enqueue("wait1", sorted_accesses(vec![acc("m", "a", TableOp::Read)]));
    s.enqueue("wait2", sorted_accesses(vec![acc("m", "a", TableOp::Read)]));
    let promoted = s.complete(running[0].id);
    assert_eq!(promoted.len(), 2);
    assert_eq!(promoted[0].payload, "wait1");
    assert_eq!(promoted[1].payload, "wait2");
}

#[test]
fn read_conflicts_with_insert_same_table() {
    let mut s = ReducerScheduler::new();
    let first = s
        .enqueue("reader", sorted_accesses(vec![acc("m", "t", TableOp::Read)]))
        .into_iter()
        .collect::<Vec<_>>();
    assert_eq!(first.len(), 1);
    s.enqueue("writer", sorted_accesses(vec![acc("m", "t", TableOp::Insert)]));
    let promoted = s.complete(first[0].id);
    assert_eq!(promoted.len(), 1);
    assert_eq!(promoted[0].payload, "writer");
}

#[test]
fn later_jobs_wait_behind_conflicting_waiting_jobs() {
    let mut s = ReducerScheduler::new();
    let r = s.enqueue(1, sorted_accesses(vec![acc("m", "a", TableOp::Update)])).unwrap();
    assert_eq!(r.id, 0);
    assert!(s.enqueue(2, sorted_accesses(vec![acc("m", "a", TableOp::Delete), acc("m", "b", TableOp::Read)])).is_none());
    // Conflicts only with the waiting job 2, on table b.
    assert!(s.enqueue(3, sorted_accesses(vec![acc("m", "b", TableOp::Update)])).is_none());
    // Touches neither table.
    let free = s.enqueue(4, sorted_accesses(vec![acc("m", "c", TableOp::Update)])).unwrap();
    assert_eq!(free.id, 3);
    let promoted = s.complete(0);
    assert_eq!(promoted.len(), 1);
    assert_eq!(promoted[0].payload, 2);
    assert!(s.complete(99).is_empty());
}

#[test]
fn sorted_accesses_conflict_by_table() {
    let a = sorted_accesses(vec![acc("m", "z", TableOp::Read), acc("m", "a", TableOp::Insert), acc("k", "q", TableOp::Read)]);
    assert_eq!(a[0].table_ref.table_name, "q");
    assert_eq!(a[1].table_ref.table_name, "a");
    let b = sorted_accesses(vec![acc("m", "a", TableOp::Insert), acc("m", "z", TableOp::Read)]);
    assert!(!conflicts_sorted(&a, &b));
    let c = sorted_accesses(vec![acc("m", "z", TableOp::Delete)]);
    assert!(conflicts_sorted(&a, &c));
}

fn schema() -> TableSchema {
    TableSchema {
        name: "users".to_string(),
        primary_key: FieldDef { name: "id".to_string(), field_type: IntersticeType::U64 },
        primary_key_auto_inc: false,
        fields: vec![
            FieldDef { name: "email".to_string(), field_type: IntersticeType::String },
            FieldDef { name: "age".to_string(), field_type: IntersticeType::U32 },
        ],
        indexes: vec![
            IndexSchema { field_name: "email".to_string(), index_type: IndexType::Hash, unique: true, auto_inc: false },
            IndexSchema { field_name: "age".to_string(), index_type: IndexType::BTree, unique: false, auto_inc: false },
        ],
        persistence: PersistenceKind::Ephemeral,
    }
}

fn row(id: u64, email: &str, age: u32) -> Row {
    Row {
        primary_key: IntersticeValue::U64(id),
        entries: vec![IntersticeValue::String(email.to_string()), IntersticeValue::U32(age)],
    }
}

#[test]
fn table_insert_then_get_and_delete() {
    let mut t = Table::new(schema());
    t.insert(row(1, "a@x", 30)).unwrap();
    t.insert(row(2, "b@x", 25)).unwrap();
    assert_eq!(t.scan().len(), 2);
    let found = t.get_by_primary_key(&IndexKey::U64(2)).unwrap();
    assert!(matches!(found.entries[1], IntersticeValue::U32(25)));
    let deleted = t.delete(&IndexKey::U64(1)).unwrap();
    assert!(matches!(deleted.primary_key, IntersticeValue::U64(1)));
    assert!(t.get_by_primary_key(&IndexKey::U64(1)).is_none());
    assert_eq!(t.scan().len(), 1);
    assert!(matches!(t.delete(&IndexKey::U64(1)), Err(IntersticeError::RowNotFound { .. })));
}

#[test]
fn table_refuses_duplicates() {
    let mut t = Table::new(schema());
    t.insert(row(1, "a@x", 30)).unwrap();
    assert!(t.insert(row(1, "c@x", 31)).is_err());
    assert!(matches!(
        t.insert(row(2, "a@x", 31)),
        Err(IntersticeError::UniqueConstraintViolation { .. })
    ));
    assert!(t.validate_insert(&row(3, "d@x", 1)).is_ok());
    assert_eq!(t.snapshot_rows().len(), 1);
}

#[test]
fn table_update_and_index_queries() {
    let mut t = Table::new(schema());
    t.insert(row(1, "a@x", 30)).unwrap();
    t.insert(row(2, "b@x", 20)).unwrap();
    t.insert(row(3, "c@x", 25)).unwrap();
    let old = t.update(row(2, "b@x", 40)).unwrap();
    assert!(matches!(old.entries[1], IntersticeValue::U32(20)));
    let hits = t.get_by_index("age", &IndexQuery::Gte(IndexKey::U32(25))).unwrap();
    let ages: Vec<u64> = hits
        .iter()
        .map(|r| match r.primary_key {
            IntersticeValue::U64(v) => v,
            _ => 0,
        })
        .collect();
    assert_eq!(ages, vec![3, 1, 2]);
    assert!(matches!(
        t.get_by_index("email", &IndexQuery::Lt(IndexKey::String("z".to_string()))),
        Err(IntersticeError::IndexQueryUnsupported { .. })
    ));
    assert!(matches!(
        t.get_by_index("nope", &IndexQuery::Eq(IndexKey::U32(1))),
        Err(IntersticeError::IndexNotFound { .. })
    ));
    assert!(t.update(row(9, "z@x", 1)).is_err());
}

#[test]
fn table_clear_and_restore() {
    let mut t = Table::new(schema());
    t.insert(row(1, "a@x", 30)).unwrap();
    let rows = t.snapshot_rows();
    t.clear();
    assert_eq!(t.scan().len(), 0);
    t.restore_from_rows(rows).unwrap();
    assert_eq!(t.scan().len(), 1);
    assert!(t.restore_from_rows(vec![row(1, "a@x", 1), row(1, "b@x", 2)]).is_err());
}

#[test]
fn authority_holders() {
    let e = AuthorityEntry::Audio { module_name: "synth".to_string(), output_reducer: None, input_reducer: None };
    assert_eq!(e.module_name(), "synth");
    assert_eq!(AuthorityEntry::File { module_name: "fs".to_string() }.module_name(), "fs");
}

#[test]
fn fnv_and_splitmix_values() {
    assert_eq!(fnv1a(FNV_OFFSET, b""), FNV_OFFSET);
    assert_eq!(fnv1a(FNV_OFFSET, b"a"), 0xaf63dc4c8601ec8c);
    let mut state = 0u64;
    assert_eq!(next_u64(&mut state), 0xe220a8397b1dcdaf);
    assert_eq!(state, 0x9E3779B97F4A7C15);
    let a = seed_from_call(&1, "m", "r", CallFrameKind::Reducer, 0, &[]);
    let b = seed_from_call(&1, "m", "r", CallFrameKind::Query, 0, &[]);
    assert_ne!(a, b);
    assert_eq!(a, seed_from_call(&1, "m", "r", CallFrameKind::Reducer, 0, &[]));
    assert_ne!(a, 0);
}

#[test]
fn node_ids_and_decimals() {
    assert_eq!(node_id_text(0xa1a2a3a4b1b2c1c2d1d2d3d4d5d6d7d8), "a1a2a3a4-b1b2-c1c2-d1d2-d3d4d5d6d7d8");
    assert_eq!(decimal_string(0), "0");
    assert_eq!(decimal_string(1207), "1207");
}

#[test]
fn applying_transactions_reports_events_and_persistence() {
    let mut logged = schema();
    logged.persistence = PersistenceKind::Logged;
    let mut set = TableSet::new();
    set.add_table(logged);
    let a = set
        .apply_transaction(
            Transaction::Insert { module_name: "m".to_string(), table_name: "users".to_string(), new_row: row(1, "a@x", 3) },
            true,
            true,
        )
        .unwrap();
    assert_eq!(a.events.len(), 1);
    assert!(matches!(a.events[0], TableEvent::Insert { .. }));
    assert!(matches!(a.persistence, Some(PersistAction::Logged(LogOperation::Insert { primary_key: IndexKey::U64(1), .. }))));
    let d = set
        .apply_transaction(
            Transaction::Delete { module_name: "m".to_string(), table_name: "users".to_string(), deleted_row_id: IndexKey::U64(7) },
            true,
            false,
        )
        .unwrap();
    assert!(d.events.is_empty());
    assert!(d.persistence.is_none());
    let c = set
        .apply_transaction(Transaction::Clear { module_name: "m".to_string(), table_name: "users".to_string() }, false, true)
        .unwrap();
    assert!(c.events.is_empty());
    assert!(matches!(c.persistence, Some(PersistAction::Logged(LogOperation::Clear))));
    assert_eq!(set.get("users").unwrap().scan().len(), 0);
    assert!(matches!(
        set.apply_transaction(Transaction::Clear { module_name: "m".to_string(), table_name: "nope".to_string() }, true, true),
        Err(IntersticeError::TableNotFound { .. })
    ));
}

#[test]
fn table_permissions_follow_declarations() {
    let declared = ReducerTableRef {
        node_selection: NodeSelection::Current,
        module_selection: ModuleSelection::Current,
        table_name: "greetings".to_string(),
    };
    let access = ReducerTableAccess { reads: vec![declared], inserts: vec![], updates: vec![], deletes: vec![] };
    assert!(ensure_table_access(CallFrameKind::Reducer, "hello", "greet", &access, &ModuleSelection::Current, "Greetings", TableAccessOp::Read, &[]).is_ok());
    assert_eq!(
        ensure_table_access(CallFrameKind::Reducer, "hello", "greet", &access, &ModuleSelection::Current, "greetings", TableAccessOp::Insert, &[])
            .unwrap_err(),
        "Reducer 'hello.greet' lacks insert permission for current.current.greetings (declared access uses structured node.module.table refs)"
    );
    assert_eq!(
        ensure_table_access(CallFrameKind::Query, "hello", "q", &access, &ModuleSelection::Current, "greetings", TableAccessOp::Delete, &[])
            .unwrap_err(),
        "Delete/Clear not allowed in query context"
    );
    let bindings = vec![ReplicaBinding {
        owner_module_name: "hello".to_string(),
        source_node_id: 1,
        source_node_name: "N1".to_string(),
        source_module_name: "Src".to_string(),
        source_table_name: "T".to_string(),
        local_table_name: "copy".to_string(),
    }];
    let r = effective_reducer_table_ref("hello", &ModuleSelection::Current, "copy", &bindings);
    assert_eq!(format_reducer_table_ref(&r), "n1.src.t");
}

#[test]
fn declared_accesses_come_from_the_schema() {
    let greetings = ReducerTableRef {
        node_selection: NodeSelection::Current,
        module_selection: ModuleSelection::Current,
        table_name: "greetings".to_string(),
    };
    let access = ReducerTableAccess::from_schema(&[greetings.clone()], &[greetings.clone()], &[], &[]);
    assert_eq!(access.reads.len(), 1);
    assert_eq!(access.inserts.len(), 1);
    assert!(ensure_table_access(CallFrameKind::Reducer, "hello", "greet", &access, &ModuleSelection::Current, "greetings", TableAccessOp::Insert, &[]).is_ok());
    assert!(ensure_table_access(CallFrameKind::Reducer, "hello", "greet", &access, &ModuleSelection::Current, "greetings", TableAccessOp::Update, &[]).is_err());
    let query = ReducerTableAccess::from_query_schema(&[greetings]);
    assert_eq!(query.reads.len(), 1);
    assert!(query.inserts.is_empty() && query.updates.is_empty() && query.deletes.is_empty());
    assert!(ensure_table_access(CallFrameKind::Query, "hello", "q", &query, &ModuleSelection::Current, "greetings", TableAccessOp::Read, &[]).is_ok());
}

#[test]
fn events_match_their_subscriptions() {
    let insert = EventTopic::TableInsert { module_name: "m".to_string(), table_name: "t".to_string() };
    assert!(insert.has_schema(&SubscriptionEventSchema::Insert { module_name: "m".to_string(), table_name: "t".to_string() }));
    assert!(!insert.has_schema(&SubscriptionEventSchema::Update { module_name: "m".to_string(), table_name: "t".to_string() }));
    assert!(!insert.has_schema(&SubscriptionEventSchema::Insert { module_name: "m".to_string(), table_name: "u".to_string() }));
    let file = EventTopic::File { path: "/data/a/b.txt".to_string() };
    assert!(file.has_schema(&SubscriptionEventSchema::File { path: "/data".to_string(), recursive: true }));
    assert!(!file.has_schema(&SubscriptionEventSchema::File { path: "/data".to_string(), recursive: false }));
    assert!(file.has_schema(&SubscriptionEventSchema::File { path: "/data/a/b.txt".to_string(), recursive: false }));
    assert!(!file.has_schema(&SubscriptionEventSchema::File { path: "/dat".to_string(), recursive: true }));
    let subs = vec![
        Subscription { event: SubscriptionEventSchema::Init, reducer_name: "on_init".to_string() },
        Subscription { event: SubscriptionEventSchema::Load, reducer_name: "on_load".to_string() },
        Subscription { event: SubscriptionEventSchema::Init, reducer_name: "again".to_string() },
    ];
    let targets = local_targets(&EventTopic::Init, "m", &subs);
    assert_eq!(targets.len(), 2);
    assert!(matches!(&targets[1], SubscriptionTarget::Local { reducer, .. } if reducer == "again"));
    assert!(local_targets(&EventTopic::Internal, "m", &subs).is_empty());
}

#[test]
fn log_replay_rebuilds_the_table() {
    let mut t = Table::new(schema());
    let entries = vec![
        TableLogEntry { seq: 1, timestamp_ms: 0, operation: LogOperation::Insert { primary_key: IndexKey::U64(1), row: Some(row(1, "a@x", 1)) } },
        TableLogEntry { seq: 2, timestamp_ms: 0, operation: LogOperation::Insert { primary_key: IndexKey::U64(2), row: Some(row(2, "b@x", 2)) } },
        TableLogEntry { seq: 3, timestamp_ms: 0, operation: LogOperation::Delete { primary_key: IndexKey::U64(1) } },
        TableLogEntry { seq: 4, timestamp_ms: 0, operation: LogOperation::Update { primary_key: IndexKey::U64(2), row: Some(row(2, "c@x", 3)) } },
    ];
    assert_eq!(replay_entries(&mut t, 0, &entries).unwrap(), 4);
    assert_eq!(t.scan().len(), 1);
    assert!(matches!(t.scan()[0].entries[1], IntersticeValue::U32(3)));
    let mut t2 = Table::new(schema());
    assert_eq!(replay_entries(&mut t2, 2, &entries[..2].to_vec()).unwrap(), 2);
    assert_eq!(t2.scan().len(), 0);
    let missing = LogOperation::Insert { primary_key: IndexKey::U64(9), row: None };
    match apply_entry(&mut t2, &missing) {
        Err(IntersticeError::Internal(m)) => assert_eq!(m, "Missing row data for log insert"),
        _ => panic!("expected an error"),
    }
    assert!(apply_entry(&mut t2, &LogOperation::Delete { primary_key: IndexKey::U64(9) }).is_err());
    assert!(apply_entry(&mut t, &LogOperation::Clear).is_ok());
    assert_eq!(t.scan().len(), 0);
}

#[test]
fn replicas_follow_their_source() {
    let mut set = TableSet::new();
    set.add_table(schema());
    set.apply_replica_insert("m", "users", &row(1, "a@x", 1));
    // The same key again is taken as an update.
    set.apply_replica_insert("m", "users", &row(1, "b@x", 2));
    assert_eq!(set.get("users").unwrap().scan().len(), 1);
    assert!(matches!(set.get("users").unwrap().scan()[0].entries[1], IntersticeValue::U32(2)));
    // An update of a missing row inserts it.
    set.apply_replica_update("m", "users", &row(2, "c@x", 3));
    assert_eq!(set.get("users").unwrap().scan().len(), 2);
    set.apply_replica_delete("m", "users", &row(1, "", 0));
    assert_eq!(set.get("users").unwrap().scan().len(), 1);
    assert!(set.apply_replica_full_sync("users", &vec![row(5, "e@x", 5), row(6, "f@x", 6)]));
    assert_eq!(set.get("users").unwrap().scan().len(), 2);
    assert!(!set.apply_replica_full_sync("other", &vec![]));
    let bindings = vec![
        ReplicaBinding {
            owner_module_name: "a".to_string(),
            source_node_id: 1,
            source_node_name: "n".to_string(),
            source_module_name: "m".to_string(),
            source_table_name: "t".to_string(),
            local_table_name: "t_copy".to_string(),
        },
        ReplicaBinding {
            owner_module_name: "b".to_string(),
            source_node_id: 2,
            source_node_name: "n2".to_string(),
            source_module_name: "m".to_string(),
            source_table_name: "t".to_string(),
            local_table_name: "t_copy".to_string(),
        },
    ];
    let found = bindings_for_source(&bindings, 2, "m", "t");
    assert_eq!(found.len(), 1);
    assert_eq!(found[0].owner_module_name, "b");
}

#[test]
fn only_argumentless_reducers_are_scheduled() {
    let reducers = vec![
        ReducerSignature { name: "tick".to_string(), argument_count: 0 },
        ReducerSignature { name: "greet".to_string(), argument_count: 1 },
    ];
    assert!(check_schedule("m", "tick", &reducers).is_ok());
    assert_eq!(check_schedule("m", "greet", &reducers).unwrap_err(), "Reducer 'm.greet' must have no arguments to be scheduled");
    assert_eq!(check_schedule("m", "nope", &reducers).unwrap_err(), "Reducer 'm.nope' not found");
}

#[test]
fn seeds_hash_the_call_in_order() {
    let node: u128 = 0x0102030405060708090a0b0c0d0e0f10;
    let mut h = FNV_OFFSET;
    h = fnv1a(h, &[1, 2, 3, 4, 5, 6, 7, 8, 9, 10, 11, 12, 13, 14, 15, 16]);
    h = fnv1a(h, b"mod");
    h = fnv1a(h, b"run");
    h = fnv1a(h, &[2]);
    h = fnv1a(h, &[7, 1, 0, 0, 0, 0, 0, 0]);
    h = fnv1a(h, &[42]);
    assert_eq!(seed_from_call(&node, "mod", "run", CallFrameKind::Query, 0x107, &[42]), h);
}

fn create_test_schema() -> TableSchema {
    TableSchema {
        name: "test".to_string(),
        primary_key: FieldDef { name: "id".to_string(), field_type: IntersticeType::U64 },
        primary_key_auto_inc: false,
        fields: vec![FieldDef { name: "value".to_string(), field_type: IntersticeType::U32 }],
        indexes: vec![],
        persistence: PersistenceKind::Ephemeral,
    }
}

fn numbered_table(n: u64, value: impl Fn(u64) -> u32) -> Table {
    let mut table = Table::new(create_test_schema());
    for i in 1..=n {
        let row = Row { primary_key: IntersticeValue::U64(i), entries: vec![IntersticeValue::U32(value(i))] };
        table.insert(row).ok();
    }
    table
}

fn value_of(row: &Row) -> u32 {
    if let IntersticeValue::U32(val) = row.entries[0] {
        val
    } else {
        0
    }
}

#[test]
fn test_table_iterator() {
    let table = numbered_table(5, |i| i as u32 * 10);
    let mut iter = TableIterator::new(&table);
    let mut count = 0;
    while iter.next().is_some() {
        count += 1;
    }
    assert_eq!(count, 5);
}

#[test]
fn test_filtered_iterator() {
    let table = numbered_table(10, |i| i as u32);
    // Filter for rows with value > 5
    let mut filtered = FilteredTableIterator::new(&table, |row: &Row| value_of(row) > 5);
    let mut count = 0;
    while let Some(row) = filtered.next() {
        assert!(value_of(row) > 5);
        count += 1;
    }
    assert_eq!(count, 5); // Rows 6-10
}

#[test]
fn test_filtered_iterator_empty_result() {
    let table = numbered_table(5, |i| i as u32);
    // Filter for rows with value > 100 (none match)
    let mut filtered = FilteredTableIterator::new(&table, |row: &Row| value_of(row) > 100);
    assert!(filtered.next().is_none());
    assert!(filtered.next().is_none());
}

#[test]
fn test_multiple_filters() {
    let table = numbered_table(20, |i| i as u32);
    // Chain filters: value > 5 AND value < 15
    let mut iter = TableIterator::new(&table);
    let mut count = 0;
    while let Some(row) = iter.next() {
        let val = value_of(row);
        if val > 5 && val < 15 {
            count += 1;
        }
    }
    assert_eq!(count, 9); // Values 6-14
}

#[test]
fn table_iterator_hands_out_rows_in_storage_order() {
    let table = numbered_table(3, |i| i as u32 * 7);
    let mut iter = TableIterator::new(&table);
    assert_eq!(iter.next().map(value_of), Some(7));
    assert_eq!(iter.next().map(value_of), Some(14));
    assert_eq!(iter.next().map(value_of), Some(21));
    assert!(iter.next().is_none());
    let mut odd = FilteredTableIterator::new(&table, |row: &Row| value_of(row) % 2 == 1);
    assert_eq!(odd.next().map(value_of), Some(7));
    assert_eq!(odd.next().map(value_of), Some(21));
    assert!(odd.next().is_none());
}
