//! Events and the subscriptions they reach: which subscribed schema an
//! event matches, and where it is delivered.
use vstd::prelude::*;
use crate::node::NodeId;
use crate::runtime::value::same_text;

verus! {

/// A reducer of a local module, or a remote node.
#[derive(Debug)]
pub enum SubscriptionTarget {
    Local { module: String, reducer: String },
    Remote(NodeId),
}

/// What subscriptions can match of an event: its kind, and for table
/// events the table, for file events the path.
#[derive(Debug, Clone)]
pub enum EventTopic {
    TableInsert { module_name: String, table_name: String },
    TableUpdate { module_name: String, table_name: String },
    TableDelete { module_name: String, table_name: String },
    Init,
    Load,
    Input,
    AudioOutput,
    AudioInput,
    File { path: String },
    ModulePublishRequest,
    ModuleRemoveRequest,
    /// An event no subscription can ask for.
    Internal,
}

/// The events a module subscribes to.
#[derive(Debug, Clone)]
pub enum SubscriptionEventSchema {
    Insert { module_name: String, table_name: String },
    Update { module_name: String, table_name: String },
    Delete { module_name: String, table_name: String },
    Init,
    Load,
    Input,
    AudioOutput,
    AudioInput,
    Render,
    File { path: String, recursive: bool },
    ModulePublish,
    ModuleRemove,
}

/// A subscribed event schema as plain values.
pub enum SchemaView {
    Insert { module_name: Seq<char>, table_name: Seq<char> },
    Update { module_name: Seq<char>, table_name: Seq<char> },
    Delete { module_name: Seq<char>, table_name: Seq<char> },
    Init,
    Load,
    Input,
    AudioOutput,
    AudioInput,
    Render,
    File { path: Seq<char>, recursive: bool },
    ModulePublish,
    ModuleRemove,
}

impl View for SubscriptionEventSchema {
    type V = SchemaView;

    open spec fn view(&self) -> SchemaView {
        match self {
            SubscriptionEventSchema::Insert { module_name, table_name } => SchemaView::Insert {
                module_name: module_name@,
                table_name: table_name@,
            },
            SubscriptionEventSchema::Update { module_name, table_name } => SchemaView::Update {
                module_name: module_name@,
                table_name: table_name@,
            },
            SubscriptionEventSchema::Delete { module_name, table_name } => SchemaView::Delete {
                module_name: module_name@,
                table_name: table_name@,
            },
            SubscriptionEventSchema::Init => SchemaView::Init,
            SubscriptionEventSchema::Load => SchemaView::Load,
            SubscriptionEventSchema::Input => SchemaView::Input,
            SubscriptionEventSchema::AudioOutput => SchemaView::AudioOutput,
            SubscriptionEventSchema::AudioInput => SchemaView::AudioInput,
            SubscriptionEventSchema::Render => SchemaView::Render,
            SubscriptionEventSchema::File { path, recursive } => SchemaView::File { path: path@, recursive: *recursive },
            SubscriptionEventSchema::ModulePublish => SchemaView::ModulePublish,
            SubscriptionEventSchema::ModuleRemove => SchemaView::ModuleRemove,
        }
    }
}

impl SubscriptionEventSchema {
    /// A copy of the schema.
    pub fn duplicate(&self) -> (r: SubscriptionEventSchema)
        ensures
            r@ == self@,
    {
        match self {
            SubscriptionEventSchema::Insert { module_name, table_name } => SubscriptionEventSchema::Insert {
                module_name: module_name.clone(),
                table_name: table_name.clone(),
            },
            SubscriptionEventSchema::Update { module_name, table_name } => SubscriptionEventSchema::Update {
                module_name: module_name.clone(),
                table_name: table_name.clone(),
            },
            SubscriptionEventSchema::Delete { module_name, table_name } => SubscriptionEventSchema::Delete {
                module_name: module_name.clone(),
                table_name: table_name.clone(),
            },
            SubscriptionEventSchema::Init => SubscriptionEventSchema::Init,
            SubscriptionEventSchema::Load => SubscriptionEventSchema::Load,
            SubscriptionEventSchema::Input => SubscriptionEventSchema::Input,
            SubscriptionEventSchema::AudioOutput => SubscriptionEventSchema::AudioOutput,
            SubscriptionEventSchema::AudioInput => SubscriptionEventSchema::AudioInput,
            SubscriptionEventSchema::Render => SubscriptionEventSchema::Render,
            SubscriptionEventSchema::File { path, recursive } => SubscriptionEventSchema::File {
                path: path.clone(),
                recursive: *recursive,
            },
            SubscriptionEventSchema::ModulePublish => SubscriptionEventSchema::ModulePublish,
            SubscriptionEventSchema::ModuleRemove => SubscriptionEventSchema::ModuleRemove,
        }
    }

    /// Whether two schemas subscribe to the same events.
    pub fn same_as(&self, other: &SubscriptionEventSchema) -> (r: bool)
        ensures
            r == (self@ == other@),
    {
        match (self, other) {
            (
                SubscriptionEventSchema::Insert { module_name: a, table_name: b },
                SubscriptionEventSchema::Insert { module_name: c, table_name: d },
            ) => same_text(a.as_str(), c.as_str()) && same_text(b.as_str(), d.as_str()),
            (
                SubscriptionEventSchema::Update { module_name: a, table_name: b },
                SubscriptionEventSchema::Update { module_name: c, table_name: d },
            ) => same_text(a.as_str(), c.as_str()) && same_text(b.as_str(), d.as_str()),
            (
                SubscriptionEventSchema::Delete { module_name: a, table_name: b },
                SubscriptionEventSchema::Delete { module_name: c, table_name: d },
            ) => same_text(a.as_str(), c.as_str()) && same_text(b.as_str(), d.as_str()),
            (SubscriptionEventSchema::Init, SubscriptionEventSchema::Init) => true,
            (SubscriptionEventSchema::Load, SubscriptionEventSchema::Load) => true,
            (SubscriptionEventSchema::Input, SubscriptionEventSchema::Input) => true,
            (SubscriptionEventSchema::AudioOutput, SubscriptionEventSchema::AudioOutput) => true,
            (SubscriptionEventSchema::AudioInput, SubscriptionEventSchema::AudioInput) => true,
            (SubscriptionEventSchema::Render, SubscriptionEventSchema::Render) => true,
            (
                SubscriptionEventSchema::File { path: a, recursive: x },
                SubscriptionEventSchema::File { path: b, recursive: y },
            ) => same_text(a.as_str(), b.as_str()) && *x == *y,
            (SubscriptionEventSchema::ModulePublish, SubscriptionEventSchema::ModulePublish) => true,
            (SubscriptionEventSchema::ModuleRemove, SubscriptionEventSchema::ModuleRemove) => true,
            _ => false,
        }
    }
}

/// Whether `path` lies under `base`, component by component.
pub uninterp spec fn path_under(path: Seq<char>, base: Seq<char>) -> bool;

/// Whether two paths have the same components.
pub uninterp spec fn same_path(a: Seq<char>, b: Seq<char>) -> bool;

/// Calls `std::path::Path::starts_with`, which compares whole components:
/// whether `base` is a prefix of `path`. The contract names the result.
#[verifier::external_body]
fn path_starts_with(path: &str, base: &str) -> (r: bool)
    ensures
        r == path_under(path@, base@),
{
    std::path::Path::new(path).starts_with(std::path::Path::new(base))
}

/// Compares two paths with `==` on `std::path::Path`, which compares their
/// components. The contract names the result.
#[verifier::external_body]
fn paths_equal(a: &str, b: &str) -> (r: bool)
    ensures
        r == same_path(a@, b@),
{
    std::path::Path::new(a) == std::path::Path::new(b)
}

/// Whether an event of `topic` is one that `schema` subscribes to.
pub open spec fn topic_matches(topic: EventTopic, schema: SubscriptionEventSchema) -> bool {
    topic_matches_view(topic, schema@)
}

/// Whether an event of `topic` is one the subscribed schema `s` asks for.
pub open spec fn topic_matches_view(topic: EventTopic, s: SchemaView) -> bool {
    match (topic, s) {
        (
            EventTopic::TableInsert { module_name: m, table_name: t },
            SchemaView::Insert { module_name: sm, table_name: st },
        ) => m@ == sm && t@ == st,
        (
            EventTopic::TableUpdate { module_name: m, table_name: t },
            SchemaView::Update { module_name: sm, table_name: st },
        ) => m@ == sm && t@ == st,
        (
            EventTopic::TableDelete { module_name: m, table_name: t },
            SchemaView::Delete { module_name: sm, table_name: st },
        ) => m@ == sm && t@ == st,
        (EventTopic::Init, SchemaView::Init) => true,
        (EventTopic::Load, SchemaView::Load) => true,
        (EventTopic::Input, SchemaView::Input) => true,
        (EventTopic::AudioOutput, SchemaView::AudioOutput) => true,
        (EventTopic::AudioInput, SchemaView::AudioInput) => true,
        (EventTopic::File { path }, SchemaView::File { path: base, recursive }) => if recursive {
            path_under(path@, base)
        } else {
            same_path(path@, base)
        },
        (EventTopic::ModulePublishRequest, SchemaView::ModulePublish) => true,
        (EventTopic::ModuleRemoveRequest, SchemaView::ModuleRemove) => true,
        _ => false,
    }
}

/// The subscription a table event answers to: the same kind of change of
/// the same table; none for other events.
pub open spec fn table_subscription_of(topic: EventTopic) -> Option<SchemaView> {
    match topic {
        EventTopic::TableInsert { module_name: m, table_name: t } => Some(
            SchemaView::Insert { module_name: m@, table_name: t@ },
        ),
        EventTopic::TableUpdate { module_name: m, table_name: t } => Some(
            SchemaView::Update { module_name: m@, table_name: t@ },
        ),
        EventTopic::TableDelete { module_name: m, table_name: t } => Some(
            SchemaView::Delete { module_name: m@, table_name: t@ },
        ),
        _ => None,
    }
}

/// A table event reaches exactly the subscriptions to that kind of change
/// of that very table: an insert into `m.t` matches only `Insert` of
/// `m.t`, an update only `Update` of `m.t`, a delete only `Delete` of
/// `m.t`. A subscription to another module's table of the same name, or to
/// another kind of change, is not reached.
pub proof fn lemma_table_events_reach_their_table(topic: EventTopic, s: SchemaView)
    ensures
        topic matches EventTopic::TableInsert { module_name: m, table_name: t } ==> (topic_matches_view(topic, s)
            <==> s == SchemaView::Insert { module_name: m@, table_name: t@ }),
        topic matches EventTopic::TableUpdate { module_name: m, table_name: t } ==> (topic_matches_view(topic, s)
            <==> s == SchemaView::Update { module_name: m@, table_name: t@ }),
        topic matches EventTopic::TableDelete { module_name: m, table_name: t } ==> (topic_matches_view(topic, s)
            <==> s == SchemaView::Delete { module_name: m@, table_name: t@ }),
{
}

impl EventTopic {
    /// Whether an event of this topic is one that `event_schema`
    /// subscribes to.
    pub fn has_schema(&self, event_schema: &SubscriptionEventSchema) -> (r: bool)
        ensures
            r == topic_matches(*self, *event_schema),
    {
        match (self, event_schema) {
            (
                EventTopic::TableInsert { module_name, table_name },
                SubscriptionEventSchema::Insert { module_name: sm, table_name: st },
            ) => same_text(module_name.as_str(), sm.as_str()) && same_text(table_name.as_str(), st.as_str()),
            (
                EventTopic::TableUpdate { module_name, table_name },
                SubscriptionEventSchema::Update { module_name: sm, table_name: st },
            ) => same_text(module_name.as_str(), sm.as_str()) && same_text(table_name.as_str(), st.as_str()),
            (
                EventTopic::TableDelete { module_name, table_name },
                SubscriptionEventSchema::Delete { module_name: sm, table_name: st },
            ) => same_text(module_name.as_str(), sm.as_str()) && same_text(table_name.as_str(), st.as_str()),
            (EventTopic::Init, SubscriptionEventSchema::Init) => true,
            (EventTopic::Load, SubscriptionEventSchema::Load) => true,
            (EventTopic::Input, SubscriptionEventSchema::Input) => true,
            (EventTopic::AudioOutput, SubscriptionEventSchema::AudioOutput) => true,
            (EventTopic::AudioInput, SubscriptionEventSchema::AudioInput) => true,
            (EventTopic::File { path }, SubscriptionEventSchema::File { path: base, recursive }) => {
                if *recursive {
                    path_starts_with(path.as_str(), base.as_str())
                } else {
                    paths_equal(path.as_str(), base.as_str())
                }
            },
            (EventTopic::ModulePublishRequest, SubscriptionEventSchema::ModulePublish) => true,
            (EventTopic::ModuleRemoveRequest, SubscriptionEventSchema::ModuleRemove) => true,
            _ => false,
        }
    }
}

/// A module's subscription: the reducer to run on matching events.
#[derive(Debug, Clone)]
pub struct Subscription {
    pub event: SubscriptionEventSchema,
    pub reducer_name: String,
}

/// The reducers of `module` that an event of `topic` reaches, in the
/// order of its subscriptions.
pub fn local_targets(topic: &EventTopic, module: &str, subscriptions: &[Subscription]) -> (r: Vec<SubscriptionTarget>)
    ensures
        r@.len() == subscriptions@.filter(|s: Subscription| topic_matches(*topic, s.event)).len(),
        forall|i: int|
            0 <= i < r@.len() ==> ((#[trigger] r@[i]) matches SubscriptionTarget::Local { module: m, reducer: red }
                && m@ == module@ && red@ == subscriptions@.filter(
                |s: Subscription| topic_matches(*topic, s.event),
            )[i].reducer_name@),
{
    let ghost pred = |s: Subscription| topic_matches(*topic, s.event);
    let mut out: Vec<SubscriptionTarget> = Vec::new();
    let mut i: usize = 0;
    while i < subscriptions.len()
        invariant
            i <= subscriptions@.len(),
            pred == (|s: Subscription| topic_matches(*topic, s.event)),
            out@.len() == subscriptions@.take(i as int).filter(pred).len(),
            forall|j: int|
                0 <= j < out@.len() ==> ((#[trigger] out@[j]) matches SubscriptionTarget::Local { module: m, reducer: red }
                    && m@ == module@ && red@ == subscriptions@.take(i as int).filter(pred)[j].reducer_name@),
        decreases subscriptions.len() - i,
    {
        proof {
            assert(subscriptions@.take(i + 1).drop_last() =~= subscriptions@.take(i as int));
            assert(subscriptions@.take(i + 1).last() == subscriptions@[i as int]);
            reveal_with_fuel(Seq::filter, 1);
        }
        if topic.has_schema(&subscriptions[i].event) {
            out.push(SubscriptionTarget::Local { module: module.to_owned(), reducer: subscriptions[i].reducer_name.clone() });
        }
        i = i + 1;
    }
    assert(subscriptions@.take(i as int) =~= subscriptions@);
    out
}

} // verus!
