//! What a node decides when other nodes talk to it: remote subscriptions
//! to its tables, requests for a full copy of a table, and the app's
//! initialization.
use vstd::prelude::*;
use crate::node::NodeId;
use crate::runtime::error::{IntersticeError, internal_error};
use crate::runtime::event::{
    EventTopic, SchemaView, SubscriptionEventSchema, lemma_table_events_reach_their_table, table_subscription_of,
    topic_matches_view,
};
use crate::runtime::module_load::{TableDecl, TableVisibility, find_table_decl, table_decl_position};
use crate::runtime::transaction::TableSet;
use crate::runtime::value::{Row, same_text};

verus! {

/// A module hosted on this node: its declared tables and their contents.
pub struct HostedModule {
    pub name: String,
    pub table_decls: Vec<TableDecl>,
    pub tables: TableSet,
}

/// The position of the first of the first `n` hosted modules named `name`.
pub open spec fn hosted_position(mods: Seq<HostedModule>, name: Seq<char>, n: int) -> Option<int>
    decreases n,
{
    if n <= 0 {
        None
    } else {
        match hosted_position(mods, name, n - 1) {
            Some(i) => Some(i),
            None => if mods[n - 1].name@ == name {
                Some(n - 1)
            } else {
                None
            },
        }
    }
}

proof fn lemma_hosted_stays(s: Seq<HostedModule>, name: Seq<char>, k: int, n: int)
    requires
        0 <= k <= n,
        hosted_position(s, name, k) is Some,
    ensures
        hosted_position(s, name, n) == hosted_position(s, name, k),
    decreases n - k,
{
    if n > k {
        lemma_hosted_stays(s, name, k, n - 1);
    }
}

/// The answer to a request for the rows of `module.table`: the module
/// must be hosted here, declare the table, and declare it public.
pub open spec fn table_sync_outcome(
    r: Result<Vec<Row>, IntersticeError>,
    mods: Seq<HostedModule>,
    module: Seq<char>,
    table: Seq<char>,
) -> bool {
    match hosted_position(mods, module, mods.len() as int) {
        None => r matches Err(IntersticeError::ModuleNotFound(x, y)) && x@ == module && y@
            == "When handling table sync request"@,
        Some(p) => {
            let decls = mods[p].table_decls@;
            let not_found = r matches Err(IntersticeError::TableNotFound { module_name: x, table_name: y }) && x@
                == module && y@ == table;
            match table_decl_position(decls, table, decls.len() as int) {
                None => not_found,
                Some(q) => if decls[q].visibility != TableVisibility::Public {
                    r matches Err(e) && internal_error(
                        e,
                        "Table sync denied for non-public table '"@ + module + "."@ + table + "'"@,
                    )
                } else {
                    match mods[p].tables.position(table) {
                        None => not_found,
                        Some(tp) => r matches Ok(rows) && rows@.map_values(|x: Row| x@)
                            == mods[p].tables.tables()[tp].rows(),
                    }
                },
            }
        },
    }
}

/// The rows of the public table `module_name.table_name` of a hosted
/// module, for a node that asked for a full copy.
pub fn table_sync_rows(mods: &Vec<HostedModule>, module_name: &str, table_name: &str) -> (r: Result<
    Vec<Row>,
    IntersticeError,
>)
    ensures
        table_sync_outcome(r, mods@, module_name@, table_name@),
{
    proof {
        reveal_strlit("When handling table sync request");
        reveal_strlit("Table sync denied for non-public table '");
        reveal_strlit(".");
        reveal_strlit("'");
    }
    let mut i: usize = 0;
    while i < mods.len()
        invariant
            i <= mods@.len(),
            hosted_position(mods@, module_name@, i as int) is None,
        ensures
            i <= mods@.len(),
            hosted_position(mods@, module_name@, i as int) is None,
            i < mods@.len() ==> mods@[i as int].name@ == module_name@,
        decreases mods.len() - i,
    {
        if same_text(mods[i].name.as_str(), module_name) {
            break;
        }
        i = i + 1;
    }
    if i == mods.len() {
        proof {
            reveal_strlit("When handling table sync request");
        }
        return Err(IntersticeError::ModuleNotFound(module_name.to_owned(), "When handling table sync request".to_owned()));
    }
    proof {
        lemma_hosted_stays(mods@, module_name@, i + 1, mods@.len() as int);
    }
    let module = &mods[i];
    let q = match find_table_decl(&module.table_decls, table_name) {
        Some(q) => q,
        None => {
            return Err(
                IntersticeError::TableNotFound { module_name: module_name.to_owned(), table_name: table_name.to_owned() },
            );
        },
    };
    if module.table_decls[q].visibility != TableVisibility::Public {
        let mut msg = "Table sync denied for non-public table '".to_owned();
        msg.append(module_name);
        msg.append(".");
        msg.append(table_name);
        msg.append("'");
        return Err(IntersticeError::Internal(msg));
    }
    match module.tables.get(table_name) {
        Some(t) => Ok(t.snapshot_rows()),
        None => Err(
            IntersticeError::TableNotFound { module_name: module_name.to_owned(), table_name: table_name.to_owned() },
        ),
    }
}

/// Whether the app has been initialized.
pub struct AppInitialization {
    pub initialized: bool,
}

impl AppInitialization {
    /// A request to initialize the app: whether to start it, which is only
    /// when it is not initialized yet (a repeated request is ignored).
    pub fn request(&self) -> (start: bool)
        ensures
            start == !self.initialized,
    {
        !self.initialized
    }

    /// The app reports it is initialized: whether this is news (a repeated
    /// report changes nothing).
    pub fn mark_initialized(&mut self) -> (first: bool)
        ensures
            first == !old(self).initialized,
            final(self).initialized,
    {
        let first = !self.initialized;
        self.initialized = true;
        first
    }
}

pub open spec fn schemas_view(v: Seq<SubscriptionEventSchema>) -> Seq<SchemaView> {
    v.map_values(|e: SubscriptionEventSchema| e@)
}

/// No node appears twice.
pub open spec fn ids_distinct(s: Seq<(NodeId, Seq<SchemaView>)>) -> bool {
    forall|i: int, j: int| 0 <= i < j < s.len() ==> #[trigger] s[i].0 != #[trigger] s[j].0
}

pub open spec fn has_entry(s: Seq<(NodeId, Seq<SchemaView>)>, n: NodeId) -> bool {
    exists|i: int| 0 <= i < s.len() && #[trigger] s[i].0 == n
}

/// The subscriptions recorded for node `n`: none if it has no entry.
pub open spec fn entry_of(s: Seq<(NodeId, Seq<SchemaView>)>, n: NodeId) -> Seq<SchemaView> {
    if has_entry(s, n) {
        s[choose|i: int| 0 <= i < s.len() && #[trigger] s[i].0 == n].1
    } else {
        Seq::empty()
    }
}

/// `s` without any element equal to `v`, in order.
pub open spec fn without(s: Seq<SchemaView>, v: SchemaView) -> Seq<SchemaView>
    decreases s.len(),
{
    if s.len() == 0 {
        s
    } else {
        let r = without(s.drop_last(), v);
        if s.last() == v {
            r
        } else {
            r.push(s.last())
        }
    }
}

proof fn lemma_entry_at(s: Seq<(NodeId, Seq<SchemaView>)>, i: int)
    requires
        ids_distinct(s),
        0 <= i < s.len(),
    ensures
        has_entry(s, s[i].0),
        entry_of(s, s[i].0) == s[i].1,
{
    let n = s[i].0;
    assert(s[i].0 == n);
    let j = choose|j: int| 0 <= j < s.len() && #[trigger] s[j].0 == n;
    if j != i {
        if j < i {
            assert(s[j].0 != s[i].0);
        } else {
            assert(s[i].0 != s[j].0);
        }
    }
}

/// How many of the first `n` subscriptions ask for events of `topic`.
pub open spec fn match_count(subs: Seq<SchemaView>, topic: EventTopic, n: int) -> nat
    decreases n,
{
    if n <= 0 {
        0
    } else {
        match_count(subs, topic, n - 1) + if topic_matches_view(topic, subs[n - 1]) {
            1nat
        } else {
            0nat
        }
    }
}

/// The peer nodes an event of `topic` goes to, from the first `n`
/// entries: each node once for every subscription of it that matches.
pub open spec fn remote_hits(entries: Seq<(NodeId, Seq<SchemaView>)>, topic: EventTopic, n: int) -> Seq<NodeId>
    decreases n,
{
    if n <= 0 {
        Seq::empty()
    } else {
        remote_hits(entries, topic, n - 1) + Seq::new(
            match_count(entries[n - 1].1, topic, entries[n - 1].1.len() as int),
            |i: int| entries[n - 1].0,
        )
    }
}

proof fn lemma_match_count(subs: Seq<SchemaView>, topic: EventTopic, m: int)
    requires
        0 <= m <= subs.len(),
        table_subscription_of(topic) is Some,
    ensures
        match_count(subs, topic, m) > 0 <==> subs.take(m).contains(table_subscription_of(topic)->0),
    decreases m,
{
    if m > 0 {
        lemma_match_count(subs, topic, m - 1);
        lemma_table_events_reach_their_table(topic, subs[m - 1]);
        let x = table_subscription_of(topic)->0;
        assert(topic_matches_view(topic, subs[m - 1]) == (subs[m - 1] == x)) by {
            match topic {
                EventTopic::TableInsert { .. } => {},
                EventTopic::TableUpdate { .. } => {},
                EventTopic::TableDelete { .. } => {},
                _ => {},
            }
        }
        assert(subs.take(m) =~= subs.take(m - 1).push(subs[m - 1]));
        if subs[m - 1] == x {
            assert(subs.take(m)[m - 1] == x);
        }
        if subs.take(m - 1).contains(x) {
            let i = choose|i: int| 0 <= i < subs.take(m - 1).len() && #[trigger] subs.take(m - 1)[i] == x;
            assert(subs.take(m)[i] == x);
        }
        if subs.take(m).contains(x) && !subs.take(m - 1).contains(x) {
            let i = choose|i: int| 0 <= i < subs.take(m).len() && #[trigger] subs.take(m)[i] == x;
            if i < m - 1 {
                assert(subs.take(m - 1)[i] == x);
            }
        }
    } else {
        assert(subs.take(0).len() == 0);
    }
}

/// A table event goes to a peer node exactly when that node subscribed to
/// that kind of change of that table: every node the event is sent to has
/// such a subscription, and every node with one is sent the event.
pub proof fn lemma_remote_targets_are_subscribers(entries: Seq<(NodeId, Seq<SchemaView>)>, topic: EventTopic, n: int)
    requires
        0 <= n <= entries.len(),
        table_subscription_of(topic) is Some,
    ensures
        forall|i: int|
            0 <= i < remote_hits(entries, topic, n).len() ==> exists|j: int|
                0 <= j < n && entries[j].0 == #[trigger] remote_hits(entries, topic, n)[i] && entries[j].1.contains(
                    table_subscription_of(topic)->0,
                ),
        forall|j: int|
            0 <= j < n && (#[trigger] entries[j]).1.contains(table_subscription_of(topic)->0) ==> remote_hits(
                entries,
                topic,
                n,
            ).contains(entries[j].0),
    decreases n,
{
    if n > 0 {
        lemma_remote_targets_are_subscribers(entries, topic, n - 1);
        let x = table_subscription_of(topic)->0;
        let prev = remote_hits(entries, topic, n - 1);
        let subs = entries[n - 1].1;
        let c = match_count(subs, topic, subs.len() as int);
        let seg = Seq::new(c, |i: int| entries[n - 1].0);
        let all = remote_hits(entries, topic, n);
        assert(all == prev + seg);
        lemma_match_count(subs, topic, subs.len() as int);
        assert(subs.take(subs.len() as int) =~= subs);
        assert forall|i: int| 0 <= i < all.len() implies exists|j: int|
            0 <= j < n && entries[j].0 == #[trigger] all[i] && entries[j].1.contains(x) by {
            if i < prev.len() {
                assert(all[i] == prev[i]);
                let j = choose|j: int| 0 <= j < n - 1 && entries[j].0 == #[trigger] prev[i] && entries[j].1.contains(x);
            } else {
                assert(all[i] == seg[i - prev.len()]);
                assert(c > 0);
            }
        }
        assert forall|j: int| 0 <= j < n && (#[trigger] entries[j]).1.contains(x) implies all.contains(entries[j].0) by {
            if j < n - 1 {
                let i = choose|i: int| 0 <= i < prev.len() && #[trigger] prev[i] == entries[j].0;
                assert(all[i] == prev[i]);
            } else {
                assert(c > 0);
                assert(all[prev.len() as int] == seg[0]);
            }
        }
    }
}

/// The nodes of this node's peers that subscribed to its table events,
/// each with the events it asked for.
pub struct SubscriptionRegistry {
    nodes: Vec<(NodeId, Vec<SubscriptionEventSchema>)>,
}

impl SubscriptionRegistry {
    /// Each subscribed node with its subscriptions, in the order the nodes
    /// first subscribed.
    pub closed spec fn entries(&self) -> Seq<(NodeId, Seq<SchemaView>)> {
        self.nodes@.map_values(|e: (NodeId, Vec<SubscriptionEventSchema>)| (e.0, schemas_view(e.1@)))
    }

    /// Each node appears once, with at least one subscription.
    pub open spec fn wf(&self) -> bool {
        &&& ids_distinct(self.entries())
        &&& forall|i: int| 0 <= i < self.entries().len() ==> (#[trigger] self.entries()[i]).1.len() > 0
    }

    /// Whether `node` has an entry.
    pub open spec fn has_node(&self, node: NodeId) -> bool {
        has_entry(self.entries(), node)
    }

    /// The subscriptions of `node`, in the order it made them.
    pub open spec fn subscriptions_of(&self, node: NodeId) -> Seq<SchemaView> {
        entry_of(self.entries(), node)
    }

    pub fn new() -> (r: Self)
        ensures
            r.wf(),
            r.entries().len() == 0,
    {
        let r = SubscriptionRegistry { nodes: Vec::new() };
        assert(r.entries() =~= Seq::<(NodeId, Seq<SchemaView>)>::empty());
        r
    }

    /// How many subscriptions `node` holds.
    pub fn subscription_count(&self, node: NodeId) -> (r: usize)
        requires
            self.wf(),
        ensures
            r == self.subscriptions_of(node).len(),
    {
        match self.position(node) {
            Some(p) => {
                proof {
                    lemma_entry_at(self.entries(), p as int);
                }
                self.nodes[p].1.len()
            },
            None => 0,
        }
    }

    /// The peer nodes an event of `topic` is sent to: each subscribed node,
    /// in the order the nodes first subscribed, once for every subscription
    /// of it that matches.
    pub fn remote_targets(&self, topic: &EventTopic) -> (r: Vec<NodeId>)
        ensures
            r@ == remote_hits(self.entries(), *topic, self.entries().len() as int),
    {
        let ghost es = self.entries();
        let mut out: Vec<NodeId> = Vec::new();
        let mut i: usize = 0;
        while i < self.nodes.len()
            invariant
                i <= self.nodes@.len(),
                es == self.entries(),
                out@ == remote_hits(es, *topic, i as int),
            decreases self.nodes.len() - i,
        {
            let node = self.nodes[i].0;
            let subs = &self.nodes[i].1;
            let ghost base = out@;
            let ghost sv = schemas_view(subs@);
            proof {
                assert(es[i as int] == (node, sv));
            }
            let mut j: usize = 0;
            while j < subs.len()
                invariant
                    j <= subs@.len(),
                    sv == schemas_view(subs@),
                    out@ == base + Seq::new(match_count(sv, *topic, j as int), |k: int| node),
                decreases subs.len() - j,
            {
                let ghost before = out@;
                if topic.has_schema(&subs[j]) {
                    out.push(node);
                    proof {
                        assert(out@ =~= base + Seq::new(match_count(sv, *topic, j + 1), |k: int| node));
                    }
                } else {
                    proof {
                        assert(out@ =~= base + Seq::new(match_count(sv, *topic, j + 1), |k: int| node));
                    }
                }
                j = j + 1;
            }
            proof {
                assert(out@ =~= remote_hits(es, *topic, i + 1));
            }
            i = i + 1;
        }
        out
    }

    /// How many nodes hold subscriptions.
    pub fn node_count(&self) -> (r: usize)
        ensures
            r == self.entries().len(),
    {
        self.nodes.len()
    }

    fn position(&self, node: NodeId) -> (r: Option<usize>)
        ensures
            r matches Some(p) ==> p < self.entries().len() && self.entries()[p as int].0 == node,
            r is None ==> forall|i: int| 0 <= i < self.entries().len() ==> (#[trigger] self.entries()[i]).0 != node,
    {
        let mut i: usize = 0;
        while i < self.nodes.len()
            invariant
                i <= self.nodes@.len(),
                self.entries().len() == self.nodes@.len(),
                forall|j: int| 0 <= j < i ==> (#[trigger] self.entries()[j]).0 != node,
            decreases self.nodes.len() - i,
        {
            if self.nodes[i].0 == node {
                return Some(i);
            }
            i = i + 1;
        }
        None
    }

    /// A peer node subscribes to an event of this node's tables; it is
    /// recorded unless the node subscribed to it already. Returns whether it
    /// was recorded, so the count of active subscriptions goes up by one.
    pub fn request_subscription(&mut self, node: NodeId, event: SubscriptionEventSchema) -> (added: bool)
        requires
            old(self).wf(),
        ensures
            final(self).wf(),
            added == !old(self).subscriptions_of(node).contains(event@),
            final(self).subscriptions_of(node) == if added {
                old(self).subscriptions_of(node).push(event@)
            } else {
                old(self).subscriptions_of(node)
            },
            final(self).has_node(node) == (final(self).subscriptions_of(node).len() > 0),
            forall|n: NodeId|
                n != node ==> final(self).subscriptions_of(n) == old(self).subscriptions_of(n) && final(self).has_node(n)
                    == old(self).has_node(n),
    {
        let ghost old_entries = self.entries();
        match self.position(node) {
            None => {
                proof {
                    assert(!has_entry(old_entries, node));
                }
                let mut list: Vec<SubscriptionEventSchema> = Vec::new();
                let ghost ev = event@;
                list.push(event);
                self.nodes.push((node, list));
                proof {
                    let ne = self.entries();
                    assert(schemas_view(list@) =~= seq![ev]);
                    assert(ne =~= old_entries.push((node, seq![ev])));
                    assert forall|i: int, j: int| 0 <= i < j < ne.len() implies #[trigger] ne[i].0 != #[trigger] ne[j].0 by {
                        if j == ne.len() - 1 {
                            assert(old_entries[i].0 != node);
                        } else {
                            assert(old_entries[i].0 != old_entries[j].0);
                        }
                    }
                    lemma_entry_at(ne, ne.len() - 1);
                    assert(entry_of(old_entries, node).push(ev) =~= seq![ev]);
                    assert forall|n: NodeId| n != node implies entry_of(ne, n) == entry_of(old_entries, n) && has_entry(
                        ne,
                        n,
                    ) == has_entry(old_entries, n) by {
                        if has_entry(old_entries, n) {
                            let i = choose|i: int| 0 <= i < old_entries.len() && #[trigger] old_entries[i].0 == n;
                            lemma_entry_at(old_entries, i);
                            assert(ne[i] == old_entries[i]);
                            lemma_entry_at(ne, i);
                        } else {
                            if has_entry(ne, n) {
                                let i = choose|i: int| 0 <= i < ne.len() && #[trigger] ne[i].0 == n;
                                assert(i < old_entries.len());
                                assert(old_entries[i].0 == n);
                            }
                        }
                    }
                }
                true
            },
            Some(p) => {
                proof {
                    lemma_entry_at(old_entries, p as int);
                }
                let mut k: usize = 0;
                let n_subs = self.nodes[p].1.len();
                while k < n_subs
                    invariant
                        p < self.nodes@.len(),
                        self.entries() == old_entries,
                        old_entries == old(self).entries(),
                        old(self).wf(),
                        old_entries[p as int].0 == node,
                        entry_of(old_entries, node) == old_entries[p as int].1,
                        n_subs == self.nodes@[p as int].1@.len(),
                        k <= n_subs,
                        forall|j: int| 0 <= j < k ==> (#[trigger] self.nodes@[p as int].1@[j])@ != event@,
                    decreases n_subs - k,
                {
                    if self.nodes[p].1[k].same_as(&event) {
                        proof {
                            assert(old_entries[p as int].1[k as int] == event@);
                        }
                        return false;
                    }
                    k = k + 1;
                }
                proof {
                    assert(!old_entries[p as int].1.contains(event@)) by {
                        if old_entries[p as int].1.contains(event@) {
                            let j = choose|j: int| 0 <= j < old_entries[p as int].1.len() && old_entries[p as int].1[j] == event@;
                            assert(self.nodes@[p as int].1@[j]@ == event@);
                        }
                    }
                }
                let ghost ev = event@;
                let (id, mut list) = self.nodes.remove(p);
                let ghost old_list = list@;
                list.push(event);
                self.nodes.insert(p, (id, list));
                proof {
                    let ne = self.entries();
                    assert(schemas_view(list@) =~= schemas_view(old_list).push(ev));
                    assert(ne =~= old_entries.update(p as int, (node, old_entries[p as int].1.push(ev))));
                    assert forall|i: int, j: int| 0 <= i < j < ne.len() implies #[trigger] ne[i].0 != #[trigger] ne[j].0 by {
                        assert(old_entries[i].0 != old_entries[j].0);
                    }
                    lemma_entry_at(ne, p as int);
                    assert forall|n: NodeId| n != node implies entry_of(ne, n) == entry_of(old_entries, n) && has_entry(
                        ne,
                        n,
                    ) == has_entry(old_entries, n) by {
                        if has_entry(old_entries, n) {
                            let i = choose|i: int| 0 <= i < old_entries.len() && #[trigger] old_entries[i].0 == n;
                            lemma_entry_at(old_entries, i);
                            lemma_entry_at(ne, i);
                        } else {
                            if has_entry(ne, n) {
                                let i = choose|i: int| 0 <= i < ne.len() && #[trigger] ne[i].0 == n;
                                assert(old_entries[i].0 == n);
                            }
                        }
                    }
                }
                true
            },
        }
    }

    /// A peer node unsubscribes from an event: every equal subscription of
    /// the node goes, and so does the node's entry once it has none left.
    /// Returns how many went, by which the count of active subscriptions
    /// goes down.
    pub fn request_unsubscription(&mut self, node: NodeId, event: SubscriptionEventSchema) -> (removed: usize)
        requires
            old(self).wf(),
        ensures
            final(self).wf(),
            final(self).subscriptions_of(node) == without(old(self).subscriptions_of(node), event@),
            removed == old(self).subscriptions_of(node).len() - final(self).subscriptions_of(node).len(),
            final(self).has_node(node) == (final(self).subscriptions_of(node).len() > 0),
            forall|n: NodeId|
                n != node ==> final(self).subscriptions_of(n) == old(self).subscriptions_of(n) && final(self).has_node(n)
                    == old(self).has_node(n),
    {
        let ghost old_entries = self.entries();
        let p = match self.position(node) {
            None => {
                proof {
                    assert(!has_entry(old_entries, node));
                    assert(without(Seq::<SchemaView>::empty(), event@) =~= Seq::<SchemaView>::empty());
                }
                return 0;
            },
            Some(p) => p,
        };
        proof {
            lemma_entry_at(old_entries, p as int);
        }
        let (id, list) = self.nodes.remove(p);
        let ghost rest = self.nodes@;
        let ghost lv = schemas_view(list@);
        assert(lv == old_entries[p as int].1);
        let mut kept: Vec<SubscriptionEventSchema> = Vec::new();
        let mut k: usize = 0;
        while k < list.len()
            invariant
                k <= list@.len(),
                lv == schemas_view(list@),
                schemas_view(kept@) == without(lv.take(k as int), event@),
            decreases list.len() - k,
        {
            let ghost before = kept@;
            if !list[k].same_as(&event) {
                kept.push(list[k].duplicate());
                proof {
                    assert(schemas_view(kept@) =~= schemas_view(before).push(lv[k as int]));
                }
            }
            proof {
                assert(lv.take(k + 1).drop_last() =~= lv.take(k as int));
                assert(lv.take(k + 1).last() == lv[k as int]);
            }
            k = k + 1;
        }
        proof {
            assert(lv.take(k as int) =~= lv);
            lemma_without_len(lv, event@);
        }
        let removed = list.len() - kept.len();
        if kept.len() > 0 {
            let ghost kv = schemas_view(kept@);
            self.nodes.insert(p, (id, kept));
            proof {
                let ne = self.entries();
                assert(ne =~= old_entries.update(p as int, (node, kv)));
                assert forall|i: int, j: int| 0 <= i < j < ne.len() implies #[trigger] ne[i].0 != #[trigger] ne[j].0 by {
                    assert(old_entries[i].0 != old_entries[j].0);
                }
                lemma_entry_at(ne, p as int);
                assert forall|n: NodeId| n != node implies entry_of(ne, n) == entry_of(old_entries, n) && has_entry(
                    ne,
                    n,
                ) == has_entry(old_entries, n) by {
                    if has_entry(old_entries, n) {
                        let i = choose|i: int| 0 <= i < old_entries.len() && #[trigger] old_entries[i].0 == n;
                        lemma_entry_at(old_entries, i);
                        lemma_entry_at(ne, i);
                    } else {
                        if has_entry(ne, n) {
                            let i = choose|i: int| 0 <= i < ne.len() && #[trigger] ne[i].0 == n;
                            assert(old_entries[i].0 == n);
                        }
                    }
                }
            }
        } else {
            proof {
                let ne = self.entries();
                assert(ne =~= old_entries.remove(p as int));
                assert forall|i: int, j: int| 0 <= i < j < ne.len() implies #[trigger] ne[i].0 != #[trigger] ne[j].0 by {
                    if j < p {
                        assert(old_entries[i].0 != old_entries[j].0);
                    } else if i < p {
                        assert(old_entries[i].0 != old_entries[j + 1].0);
                    } else {
                        assert(old_entries[i + 1].0 != old_entries[j + 1].0);
                    }
                }
                assert(!has_entry(ne, node)) by {
                    if has_entry(ne, node) {
                        let i = choose|i: int| 0 <= i < ne.len() && #[trigger] ne[i].0 == node;
                        if i < p {
                            assert(old_entries[i].0 != old_entries[p as int].0);
                        } else {
                            assert(old_entries[p as int].0 != old_entries[i + 1].0);
                        }
                    }
                }
                assert(schemas_view(kept@) =~= Seq::<SchemaView>::empty());
                assert forall|n: NodeId| n != node implies entry_of(ne, n) == entry_of(old_entries, n) && has_entry(
                    ne,
                    n,
                ) == has_entry(old_entries, n) by {
                    if has_entry(old_entries, n) {
                        let i = choose|i: int| 0 <= i < old_entries.len() && #[trigger] old_entries[i].0 == n;
                        lemma_entry_at(old_entries, i);
                        if i < p {
                            assert(ne[i] == old_entries[i]);
                            lemma_entry_at(ne, i);
                        } else {
                            assert(i != p);
                            assert(ne[i - 1] == old_entries[i]);
                            lemma_entry_at(ne, i - 1);
                        }
                    } else {
                        if has_entry(ne, n) {
                            let i = choose|i: int| 0 <= i < ne.len() && #[trigger] ne[i].0 == n;
                            if i < p {
                                assert(old_entries[i].0 == n);
                            } else {
                                assert(old_entries[i + 1].0 == n);
                            }
                        }
                    }
                }
            }
        }
        removed
    }
}

proof fn lemma_without_len(s: Seq<SchemaView>, v: SchemaView)
    ensures
        without(s, v).len() <= s.len(),
    decreases s.len(),
{
    if s.len() > 0 {
        lemma_without_len(s.drop_last(), v);
    }
}

} // verus!
