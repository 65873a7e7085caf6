use interstice_core::persistence::schema_versioning::SchemaVersionRegistry;
use interstice_core::runtime::authority::AuthorityEntry;
use interstice_core::runtime::error::IntersticeError;
use interstice_core::runtime::event::{EventTopic, Subscription, SubscriptionEventSchema};
use interstice_core::runtime::index::SecondaryIndex;
use interstice_core::runtime::module_load::{
    Authority, DeclaredSubscription, ModuleDecl, ModuleDependency, ModuleSchemaDecl, NodeDependency, NodeSchemaDecl,
    ReplicatedTable, TableDecl, TableVisibility, check_replicated_table, claim_authorities, forwards_module_requests,
    needs_app_initialization, plan_module_load, replica_source_address, replica_table_name, HostCallRefusal,
    host_call_allowed, module_call_node_address,
};
use interstice_core::runtime::timers::{IDLE_WAIT_MS, Timer, TimerQueue};
use interstice_core::runtime::node_events::{AppInitialization, HostedModule, SubscriptionRegistry, table_sync_rows};
use interstice_core::runtime::scheduler::NodeSelection;
use interstice_core::runtime::schema::{FieldDef, IntersticeType, PersistenceKind, TableSchema};
use interstice_core::runtime::table::auto_inc::AutoIncState;
use interstice_core::runtime::transaction::{TableSet, Transaction};
use interstice_core::runtime::value::{IntersticeValue, Row};

fn sub(event: SubscriptionEventSchema, reducer: &str) -> DeclaredSubscription {
    DeclaredSubscription {
        subscription: Subscription { event, reducer_name: reducer.to_string() },
        node_selection: NodeSelection::Current,
    }
}

fn module(name: &str, authorities: Vec<Authority>) -> ModuleDecl {
    ModuleDecl {
        name: name.to_string(),
        version: "1.0.0".to_string(),
        authorities,
        subscriptions: vec![
            sub(SubscriptionEventSchema::Init, "init"),
            sub(SubscriptionEventSchema::Render, "draw"),
            sub(SubscriptionEventSchema::Render, "draw_again"),
            sub(SubscriptionEventSchema::AudioInput, "listen"),
            sub(SubscriptionEventSchema::Insert { module_name: "m".to_string(), table_name: "t".to_string() }, "on_insert"),
            sub(SubscriptionEventSchema::Delete { module_name: "m".to_string(), table_name: "t".to_string() }, "on_delete"),
        ],
        module_dependencies: vec![],
        node_dependencies: vec![],
        replicated_tables: vec![],
    }
}

fn schema(name: &str) -> TableSchema {
    TableSchema {
        name: name.to_string(),
        primary_key: FieldDef { name: "id".to_string(), field_type: IntersticeType::U64 },
        primary_key_auto_inc: false,
        fields: vec![FieldDef { name: "text".to_string(), field_type: IntersticeType::String }],
        indexes: vec![],
        persistence: PersistenceKind::Ephemeral,
    }
}

#[test]
fn authorities_are_claimed_once() {
    let mut held = Vec::new();
    let graphics = module("graphics", vec![Authority::Gpu, Authority::Audio]);
    assert!(claim_authorities(&graphics, &mut held).is_ok());
    assert_eq!(held.len(), 2);
    match &held[0] {
        AuthorityEntry::Gpu { module_name, render_reducer } => {
            assert_eq!(module_name, "graphics");
            assert_eq!(render_reducer.as_deref(), Some("draw"));
        },
        other => panic!("unexpected entry {:?}", other),
    }
    match &held[1] {
        AuthorityEntry::Audio { output_reducer, input_reducer, .. } => {
            assert!(output_reducer.is_none());
            assert_eq!(input_reducer.as_deref(), Some("listen"));
        },
        other => panic!("unexpected entry {:?}", other),
    }
    // A second module asking for the GPU is refused, naming the holder.
    let other = module("other", vec![Authority::File, Authority::Gpu]);
    match claim_authorities(&other, &mut held) {
        Err(IntersticeError::AuthorityAlreadyTaken(m, a, h)) => {
            assert_eq!((m.as_str(), a.as_str(), h.as_str()), ("other", "Gpu", "graphics"));
        },
        r => panic!("unexpected {:?}", r),
    }
    // The File authority claimed before the refusal stays held.
    assert_eq!(held.len(), 3);
    assert!(matches!(&held[2], AuthorityEntry::File { module_name } if module_name == "other"));
    // Asking twice for one authority is refused too.
    let mut fresh = Vec::new();
    let twice = module("twice", vec![Authority::Input, Authority::Input]);
    match claim_authorities(&twice, &mut fresh) {
        Err(IntersticeError::AuthorityAlreadyTaken(_, a, h)) => assert_eq!((a.as_str(), h.as_str()), ("Input", "twice")),
        r => panic!("unexpected {:?}", r),
    }
}

#[test]
fn module_loads_are_checked_in_order() {
    let mut held = Vec::new();
    let mut m = module("app", vec![]);
    let loaded = vec![("app".to_string(), "1.0.0".to_string())];
    assert!(matches!(plan_module_load(&m, &loaded, &mut held), Err(IntersticeError::ModuleAlreadyExists(n)) if n == "app"));

    let loaded = vec![("lib".to_string(), "2.0.0".to_string())];
    m.module_dependencies = vec![ModuleDependency { module_name: "lib".to_string(), version: "1.0.0".to_string() }];
    match plan_module_load(&m, &loaded, &mut held) {
        Err(IntersticeError::ModuleVersionMismatch(a, b, c, d)) => {
            assert_eq!((a.as_str(), b.as_str(), c.as_str(), d.as_str()), ("app", "lib", "1.0.0", "2.0.0"));
        },
        r => panic!("unexpected {:?}", r),
    }
    m.module_dependencies = vec![ModuleDependency { module_name: "missing".to_string(), version: "1.0.0".to_string() }];
    match plan_module_load(&m, &loaded, &mut held) {
        Err(IntersticeError::ModuleNotFound(a, b)) => {
            assert_eq!(a, "missing");
            assert_eq!(b, "Required by 'app' which depends on it");
        },
        r => panic!("unexpected {:?}", r),
    }
    m.module_dependencies = vec![ModuleDependency { module_name: "lib".to_string(), version: "2.0.0".to_string() }];
    m.subscriptions.push(DeclaredSubscription {
        subscription: Subscription {
            event: SubscriptionEventSchema::Update { module_name: "r".to_string(), table_name: "t".to_string() },
            reducer_name: "on_remote".to_string(),
        },
        node_selection: NodeSelection::Other("far-node".to_string()),
    });
    match plan_module_load(&m, &loaded, &mut held) {
        Err(IntersticeError::Internal(msg)) => assert_eq!(msg, "Couldn't find node far-node in the node dependencies"),
        r => panic!("unexpected {:?}", r),
    }
    m.node_dependencies = vec![NodeDependency { name: "far-node".to_string(), address: "10.0.0.2:8080".to_string() }];
    m.replicated_tables = vec![ReplicatedTable {
        node_name: "far-node".to_string(),
        module_name: "chat.v2".to_string(),
        table_name: "messages".to_string(),
    }];
    let plan = plan_module_load(&m, &loaded, &mut held).unwrap();
    assert_eq!(plan.replica_table_names, vec!["__replica__far_node__chat_v2__messages".to_string()]);
    assert_eq!(plan.table_subscription_count, 3);
    assert!(held.is_empty());
}

#[test]
fn replicated_tables_must_be_public() {
    let t = ReplicatedTable { node_name: "n1".to_string(), module_name: "chat".to_string(), table_name: "messages".to_string() };
    let remote = NodeSchemaDecl {
        modules: vec![ModuleSchemaDecl {
            name: "chat".to_string(),
            tables: vec![
                TableDecl { schema: schema("messages"), visibility: TableVisibility::Public },
                TableDecl { schema: schema("secrets"), visibility: TableVisibility::Private },
            ],
        }],
    };
    let local = check_replicated_table(&remote, &t).unwrap();
    assert_eq!(local.name, "__replica__n1__chat__messages");
    assert_eq!(local.fields.len(), 1);
    let secret = ReplicatedTable { table_name: "secrets".to_string(), ..t.clone() };
    match check_replicated_table(&remote, &secret) {
        Err(IntersticeError::Internal(msg)) => assert_eq!(msg, "Cannot replicate non-public table 'n1.chat.secrets'"),
        r => panic!("unexpected {:?}", r),
    }
    let missing_table = ReplicatedTable { table_name: "nope".to_string(), ..t.clone() };
    assert!(matches!(check_replicated_table(&remote, &missing_table), Err(IntersticeError::TableNotFound { .. })));
    let missing_module = ReplicatedTable { module_name: "mail".to_string(), ..t.clone() };
    match check_replicated_table(&remote, &missing_module) {
        Err(IntersticeError::ModuleNotFound(m, why)) => {
            assert_eq!(m, "mail");
            assert_eq!(why, "Remote module 'mail' not found on node 'n1' while configuring table replica");
        },
        r => panic!("unexpected {:?}", r),
    }
    let mut decl = module("app", vec![]);
    match replica_source_address(&decl, &t) {
        Err(IntersticeError::Internal(msg)) => {
            assert_eq!(msg, "Replicated table 'n1.chat.messages' requires node 'n1' in dependencies")
        },
        r => panic!("unexpected {:?}", r),
    }
    decl.node_dependencies = vec![NodeDependency { name: "n1".to_string(), address: "127.0.0.1:9000".to_string() }];
    assert_eq!(replica_source_address(&decl, &t).unwrap(), "127.0.0.1:9000");
    assert_eq!(replica_table_name("a-b", "c.d", "e"), "__replica__a_b__c_d__e");
}

#[test]
fn app_initialization_and_module_authority() {
    let gpu = module("graphics", vec![Authority::Gpu]);
    assert!(needs_app_initialization(&gpu, false));
    assert!(!needs_app_initialization(&gpu, true));
    assert!(!needs_app_initialization(&module("plain", vec![Authority::File]), false));
    let mut app = AppInitialization { initialized: false };
    assert!(app.request());
    assert!(app.mark_initialized());
    assert!(!app.mark_initialized());
    assert!(!app.request());
    let mut held = Vec::new();
    assert!(!forwards_module_requests(&held));
    claim_authorities(&module("manager", vec![Authority::Module]), &mut held).unwrap();
    assert!(forwards_module_requests(&held));
}

#[test]
fn table_sync_answers_only_public_tables() {
    let mut tables = TableSet::new();
    tables.add_table(schema("greetings"));
    tables.add_table(schema("secrets"));
    tables
        .apply_transaction(
            Transaction::Insert {
                module_name: "hello".to_string(),
                table_name: "greetings".to_string(),
                new_row: Row { primary_key: IntersticeValue::U64(1), entries: vec![IntersticeValue::String("hi".to_string())] },
            },
            false,
            false,
        )
        .unwrap();
    let mods = vec![HostedModule {
        name: "hello".to_string(),
        table_decls: vec![
            TableDecl { schema: schema("greetings"), visibility: TableVisibility::Public },
            TableDecl { schema: schema("secrets"), visibility: TableVisibility::Private },
            TableDecl { schema: schema("ghost"), visibility: TableVisibility::Public },
        ],
        tables,
    }];
    assert_eq!(table_sync_rows(&mods, "hello", "greetings").unwrap().len(), 1);
    match table_sync_rows(&mods, "hello", "secrets") {
        Err(IntersticeError::Internal(msg)) => assert_eq!(msg, "Table sync denied for non-public table 'hello.secrets'"),
        r => panic!("unexpected {:?}", r),
    }
    assert!(matches!(table_sync_rows(&mods, "hello", "nope"), Err(IntersticeError::TableNotFound { .. })));
    assert!(matches!(table_sync_rows(&mods, "hello", "ghost"), Err(IntersticeError::TableNotFound { .. })));
    match table_sync_rows(&mods, "other", "greetings") {
        Err(IntersticeError::ModuleNotFound(m, why)) => {
            assert_eq!(m, "other");
            assert_eq!(why, "When handling table sync request");
        },
        r => panic!("unexpected {:?}", r),
    }
}

#[test]
fn remote_subscriptions_are_counted_once() {
    let insert = || SubscriptionEventSchema::Insert { module_name: "m".to_string(), table_name: "t".to_string() };
    let delete = || SubscriptionEventSchema::Delete { module_name: "m".to_string(), table_name: "t".to_string() };
    let mut reg = SubscriptionRegistry::new();
    assert!(reg.request_subscription(7, insert()));
    assert!(!reg.request_subscription(7, insert()));
    assert!(reg.request_subscription(7, delete()));
    assert!(reg.request_subscription(9, insert()));
    assert_eq!(reg.subscription_count(7), 2);
    assert_eq!(reg.node_count(), 2);
    assert_eq!(reg.request_unsubscription(7, insert()), 1);
    assert_eq!(reg.request_unsubscription(7, insert()), 0);
    assert_eq!(reg.subscription_count(7), 1);
    assert_eq!(reg.request_unsubscription(7, delete()), 1);
    assert_eq!(reg.node_count(), 1);
    assert_eq!(reg.subscription_count(7), 0);
    assert_eq!(reg.subscription_count(9), 1);
    assert_eq!(reg.request_unsubscription(3, insert()), 0);
}

#[test]
fn version_steps_and_empty_ranges() {
    let registry = SchemaVersionRegistry::new();
    assert!(!registry.is_compatible("m", u32::MAX, 0));
    assert!(registry.is_compatible("m", u32::MAX, u32::MAX));
    let mut idx = SecondaryIndex::new("age".to_string());
    idx.insert(vec![25], 0);
    assert_eq!(idx.range_query(&[30], &[20]), Vec::<usize>::new());
    assert_eq!(idx.range_query(&[20], &[30]), vec![0]);
}

#[test]
fn auto_increment_hands_out_the_largest_value() {
    let mut c = AutoIncState::from_type(&IntersticeType::U8).unwrap();
    for i in 0..=255u8 {
        assert!(matches!(c.next_value(), Ok(IntersticeValue::U8(v)) if v == i));
    }
    match c.next_value() {
        Err(IntersticeError::Internal(msg)) => assert_eq!(msg, "auto_inc overflow (U8)"),
        r => panic!("unexpected {:?}", r),
    }
    let mut d = AutoIncState::from_type(&IntersticeType::U8).unwrap();
    assert!(d.sync_from_value(&IntersticeValue::U8(255)).is_ok());
    assert!(d.next_value().is_err());
    let mut e = AutoIncState::from_type(&IntersticeType::U64).unwrap();
    assert!(e.sync_from_value(&IntersticeValue::U64(u64::MAX)).is_err());
    assert!(e.sync_from_value(&IntersticeValue::U64(41)).is_ok());
    assert!(matches!(e.next_value(), Ok(IntersticeValue::U64(42))));
}

#[test]
fn table_events_reach_subscribed_peers() {
    let mut reg = SubscriptionRegistry::new();
    reg.request_subscription(5, SubscriptionEventSchema::Insert { module_name: "m".to_string(), table_name: "t".to_string() });
    reg.request_subscription(6, SubscriptionEventSchema::Delete { module_name: "m".to_string(), table_name: "t".to_string() });
    reg.request_subscription(7, SubscriptionEventSchema::Insert { module_name: "m".to_string(), table_name: "t".to_string() });
    let insert = EventTopic::TableInsert { module_name: "m".to_string(), table_name: "t".to_string() };
    assert_eq!(reg.remote_targets(&insert), vec![5u128, 7]);
    let other = EventTopic::TableInsert { module_name: "m".to_string(), table_name: "u".to_string() };
    assert!(reg.remote_targets(&other).is_empty());
}

#[test]
fn host_calls_need_the_authority() {
    let mut held = Vec::new();
    assert_eq!(host_call_allowed(&held, Authority::Gpu, "graphics"), Err(HostCallRefusal::NoHolder(Authority::Gpu)));
    claim_authorities(&module("graphics", vec![Authority::Gpu, Authority::File]), &mut held).unwrap();
    assert_eq!(host_call_allowed(&held, Authority::Gpu, "graphics"), Ok(()));
    assert_eq!(host_call_allowed(&held, Authority::File, "graphics"), Ok(()));
    assert_eq!(host_call_allowed(&held, Authority::Gpu, "intruder"), Err(HostCallRefusal::Unauthorized(Authority::Gpu)));
    assert_eq!(host_call_allowed(&held, Authority::Audio, "graphics"), Err(HostCallRefusal::NoHolder(Authority::Audio)));
    match HostCallRefusal::NoHolder(Authority::Gpu).to_error() {
        IntersticeError::Internal(msg) => assert_eq!(msg, "No GPU authority module"),
        e => panic!("unexpected {:?}", e),
    }
    match HostCallRefusal::NoHolder(Authority::Module).to_error() {
        IntersticeError::Internal(msg) => assert_eq!(msg, "No Module authority module"),
        e => panic!("unexpected {:?}", e),
    }
    assert!(matches!(
        HostCallRefusal::Unauthorized(Authority::Audio).to_error(),
        IntersticeError::Unauthorized(Authority::Audio)
    ));
}

#[test]
fn module_calls_go_to_known_nodes() {
    let mut m = module("app", vec![]);
    assert_eq!(module_call_node_address(&m, "n2"), Err("Couldn't find node n2 in node dependencies".to_string()));
    m.node_dependencies = vec![NodeDependency { name: "n2".to_string(), address: "10.1.1.1:7000".to_string() }];
    assert_eq!(module_call_node_address(&m, "n2"), Ok("10.1.1.1:7000".to_string()));
}

fn timer(at: u64, module: &str, reducer: &str) -> Timer {
    Timer { wake_at: at, module_name: module.to_string(), reducer_name: reducer.to_string() }
}

#[test]
fn timers_fire_in_time_order() {
    let mut q = TimerQueue::new();
    assert_eq!(q.wait_time(100), IDLE_WAIT_MS);
    q.schedule(timer(500, "b", "tick"));
    q.schedule(timer(200, "a", "later"));
    q.schedule(timer(200, "a", "early"));
    q.schedule(timer(900, "c", "far"));
    assert_eq!(q.wait_time(150), 50);
    assert_eq!(q.wait_time(300), 0);
    let due = q.take_due(600);
    let names: Vec<&str> = due.iter().map(|t| t.reducer_name.as_str()).collect();
    assert_eq!(names, vec!["early", "later", "tick"]);
    assert_eq!(q.pending_count(), 1);
    assert_eq!(q.wait_time(600), 300);
    assert!(q.take_due(600).is_empty());
}
