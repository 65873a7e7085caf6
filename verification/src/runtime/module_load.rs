//! Deciding whether a module can be loaded: the authorities it claims, its
//! name, its dependencies, and the remote tables it replicates.
use vstd::prelude::*;
use crate::runtime::authority::{AuthorityEntry, holder};
use crate::runtime::error::{IntersticeError, internal_error};
use crate::runtime::event::{SchemaView, Subscription, SubscriptionEventSchema};
use crate::runtime::scheduler::NodeSelection;
use crate::runtime::schema::{TableSchema, same_layout};
use crate::runtime::value::same_text;

verus! {

/// A host resource a module can claim for itself alone.
#[derive(Debug, Clone, Copy, PartialEq, Eq, Structural)]
pub enum Authority {
    Gpu,
    Audio,
    Input,
    File,
    Module,
}

/// The authority an entry holds.
pub open spec fn authority_of(e: AuthorityEntry) -> Authority {
    match e {
        AuthorityEntry::Gpu { .. } => Authority::Gpu,
        AuthorityEntry::Audio { .. } => Authority::Audio,
        AuthorityEntry::Input { .. } => Authority::Input,
        AuthorityEntry::File { .. } => Authority::File,
        AuthorityEntry::Module { .. } => Authority::Module,
    }
}

/// How an authority is named in messages.
pub open spec fn authority_name(a: Authority) -> Seq<char> {
    match a {
        Authority::Gpu => "Gpu"@,
        Authority::Audio => "Audio"@,
        Authority::Input => "Input"@,
        Authority::File => "File"@,
        Authority::Module => "Module"@,
    }
}

/// The authority an entry holds.
pub fn entry_authority(e: &AuthorityEntry) -> (a: Authority)
    ensures
        a == authority_of(*e),
{
    match e {
        AuthorityEntry::Gpu { .. } => Authority::Gpu,
        AuthorityEntry::Audio { .. } => Authority::Audio,
        AuthorityEntry::Input { .. } => Authority::Input,
        AuthorityEntry::File { .. } => Authority::File,
        AuthorityEntry::Module { .. } => Authority::Module,
    }
}

fn authority_text(a: Authority) -> (r: &'static str)
    ensures
        r@ == authority_name(a),
{
    proof {
        reveal_strlit("Gpu");
        reveal_strlit("Audio");
        reveal_strlit("Input");
        reveal_strlit("File");
        reveal_strlit("Module");
    }
    match a {
        Authority::Gpu => "Gpu",
        Authority::Audio => "Audio",
        Authority::Input => "Input",
        Authority::File => "File",
        Authority::Module => "Module",
    }
}

/// A subscription a module declares, with the node whose tables it watches.
#[derive(Debug, Clone)]
pub struct DeclaredSubscription {
    pub subscription: Subscription,
    pub node_selection: NodeSelection,
}

/// A module the declaring module needs loaded, at a version.
#[derive(Debug, Clone)]
pub struct ModuleDependency {
    pub module_name: String,
    pub version: String,
}

/// A node the declaring module talks to.
#[derive(Debug, Clone)]
pub struct NodeDependency {
    pub name: String,
    pub address: String,
}

/// A public table of a remote node that the module keeps a local copy of.
#[derive(Debug, Clone)]
pub struct ReplicatedTable {
    pub node_name: String,
    pub module_name: String,
    pub table_name: String,
}

/// What a module declares about itself.
#[derive(Debug, Clone)]
pub struct ModuleDecl {
    pub name: String,
    pub version: String,
    pub authorities: Vec<Authority>,
    pub subscriptions: Vec<DeclaredSubscription>,
    pub module_dependencies: Vec<ModuleDependency>,
    pub node_dependencies: Vec<NodeDependency>,
    pub replicated_tables: Vec<ReplicatedTable>,
}

/// The subscriptions an authority's reducers come from.
#[derive(Debug, Clone, Copy, PartialEq, Eq, Structural)]
pub enum Hook {
    Render,
    AudioOutput,
    AudioInput,
    Input,
}

pub open spec fn hook_matches(h: Hook, e: SchemaView) -> bool {
    match h {
        Hook::Render => e is Render,
        Hook::AudioOutput => e is AudioOutput,
        Hook::AudioInput => e is AudioInput,
        Hook::Input => e is Input,
    }
}

/// The position of the first of the first `n` subscriptions that is for `h`.
pub open spec fn first_hook(subs: Seq<DeclaredSubscription>, h: Hook, n: int) -> Option<int>
    decreases n,
{
    if n <= 0 {
        None
    } else {
        match first_hook(subs, h, n - 1) {
            Some(i) => Some(i),
            None => if hook_matches(h, subs[n - 1].subscription.event@) {
                Some(n - 1)
            } else {
                None
            },
        }
    }
}

/// The reducer of the first subscription for `h`, if any.
pub open spec fn hook_reducer(subs: Seq<DeclaredSubscription>, h: Hook) -> Option<Seq<char>> {
    match first_hook(subs, h, subs.len() as int) {
        Some(i) => Some(subs[i].subscription.reducer_name@),
        None => None,
    }
}

pub open spec fn opt_text(o: Option<String>) -> Option<Seq<char>> {
    match o {
        Some(s) => Some(s@),
        None => None,
    }
}

/// `e` is the entry a module declared as `m` gets for authority `a`: the
/// module's name, and the reducers of its first matching subscriptions.
pub open spec fn entry_for_module(e: AuthorityEntry, m: ModuleDecl, a: Authority) -> bool {
    let subs = m.subscriptions@;
    match a {
        Authority::Gpu => e matches AuthorityEntry::Gpu { module_name, render_reducer } && module_name@ == m.name@
            && opt_text(render_reducer) == hook_reducer(subs, Hook::Render),
        Authority::Audio => e matches AuthorityEntry::Audio { module_name, output_reducer, input_reducer }
            && module_name@ == m.name@ && opt_text(output_reducer) == hook_reducer(subs, Hook::AudioOutput)
            && opt_text(input_reducer) == hook_reducer(subs, Hook::AudioInput),
        Authority::Input => e matches AuthorityEntry::Input { module_name, input_reducer } && module_name@ == m.name@
            && opt_text(input_reducer) == hook_reducer(subs, Hook::Input),
        Authority::File => e matches AuthorityEntry::File { module_name } && module_name@ == m.name@,
        Authority::Module => e matches AuthorityEntry::Module { module_name } && module_name@ == m.name@,
    }
}

fn hook_of(h: Hook, e: &SubscriptionEventSchema) -> (r: bool)
    ensures
        r == hook_matches(h, e@),
{
    match (h, e) {
        (Hook::Render, SubscriptionEventSchema::Render) => true,
        (Hook::AudioOutput, SubscriptionEventSchema::AudioOutput) => true,
        (Hook::AudioInput, SubscriptionEventSchema::AudioInput) => true,
        (Hook::Input, SubscriptionEventSchema::Input) => true,
        _ => false,
    }
}

/// The reducer of the first subscription for `h`, if any.
fn find_hook(subs: &Vec<DeclaredSubscription>, h: Hook) -> (r: Option<String>)
    ensures
        opt_text(r) == hook_reducer(subs@, h),
{
    let mut i: usize = 0;
    while i < subs.len()
        invariant
            i <= subs@.len(),
            first_hook(subs@, h, i as int) is None,
        decreases subs.len() - i,
    {
        if hook_of(h, &subs[i].subscription.event) {
            proof {
                lemma_first_hook_stays(subs@, h, i + 1, subs@.len() as int);
            }
            return Some(subs[i].subscription.reducer_name.clone());
        }
        i = i + 1;
    }
    None
}

proof fn lemma_first_hook_stays(subs: Seq<DeclaredSubscription>, h: Hook, k: int, n: int)
    requires
        0 <= k <= n,
        first_hook(subs, h, k) is Some,
    ensures
        first_hook(subs, h, n) == first_hook(subs, h, k),
    decreases n - k,
{
    if n > k {
        lemma_first_hook_stays(subs, h, k, n - 1);
    }
}

/// The entry a module declared as `m` gets for authority `a`.
pub fn entry_for(m: &ModuleDecl, a: Authority) -> (e: AuthorityEntry)
    ensures
        entry_for_module(e, *m, a),
        authority_of(e) == a,
{
    let module_name = m.name.clone();
    match a {
        Authority::Gpu => AuthorityEntry::Gpu { module_name, render_reducer: find_hook(&m.subscriptions, Hook::Render) },
        Authority::Audio => AuthorityEntry::Audio {
            module_name,
            output_reducer: find_hook(&m.subscriptions, Hook::AudioOutput),
            input_reducer: find_hook(&m.subscriptions, Hook::AudioInput),
        },
        Authority::Input => AuthorityEntry::Input { module_name, input_reducer: find_hook(&m.subscriptions, Hook::Input) },
        Authority::File => AuthorityEntry::File { module_name },
        Authority::Module => AuthorityEntry::Module { module_name },
    }
}

/// The position of the first of the first `n` entries of `held` that holds `a`.
pub open spec fn held_position(held: Seq<AuthorityEntry>, a: Authority, n: int) -> Option<int>
    decreases n,
{
    if n <= 0 {
        None
    } else {
        match held_position(held, a, n - 1) {
            Some(i) => Some(i),
            None => if authority_of(held[n - 1]) == a {
                Some(n - 1)
            } else {
                None
            },
        }
    }
}

/// Why a host call that needs an authority is refused.
#[derive(Debug, Clone, Copy, PartialEq, Eq, Structural)]
pub enum HostCallRefusal {
    /// No module holds the authority.
    NoHolder(Authority),
    /// Another module holds it.
    Unauthorized(Authority),
}

/// The message a host call gets when no module holds authority `a`.
pub open spec fn no_holder_text(a: Authority) -> Seq<char> {
    match a {
        Authority::Gpu => "No GPU authority module"@,
        Authority::Audio => "No Audio authority module"@,
        Authority::Input => "No Input authority module"@,
        Authority::File => "No File authority module"@,
        Authority::Module => "No Module authority module"@,
    }
}

/// The message a host call gets when no module holds authority `a`.
pub fn no_holder_message(a: Authority) -> (r: String)
    ensures
        r@ == no_holder_text(a),
{
    proof {
        reveal_strlit("No GPU authority module");
        reveal_strlit("No Audio authority module");
        reveal_strlit("No Input authority module");
        reveal_strlit("No File authority module");
        reveal_strlit("No Module authority module");
    }
    match a {
        Authority::Gpu => "No GPU authority module".to_owned(),
        Authority::Audio => "No Audio authority module".to_owned(),
        Authority::Input => "No Input authority module".to_owned(),
        Authority::File => "No File authority module".to_owned(),
        Authority::Module => "No Module authority module".to_owned(),
    }
}

impl HostCallRefusal {
    /// The error a refused host call is answered with.
    pub fn to_error(self) -> (e: IntersticeError)
        ensures
            match self {
                HostCallRefusal::NoHolder(a) => internal_error(e, no_holder_text(a)),
                HostCallRefusal::Unauthorized(a) => e == IntersticeError::Unauthorized(a),
            },
    {
        match self {
            HostCallRefusal::NoHolder(a) => IntersticeError::Internal(no_holder_message(a)),
            HostCallRefusal::Unauthorized(a) => IntersticeError::Unauthorized(a),
        }
    }
}

/// Whether the module `caller` may make a host call that needs authority
/// `a`: only the module holding it may.
pub fn host_call_allowed(held: &Vec<AuthorityEntry>, a: Authority, caller: &str) -> (r: Result<(), HostCallRefusal>)
    ensures
        match held_position(held@, a, held@.len() as int) {
            None => r == Err::<(), HostCallRefusal>(HostCallRefusal::NoHolder(a)),
            Some(p) => if holder(held@[p]) == caller@ {
                r is Ok
            } else {
                r == Err::<(), HostCallRefusal>(HostCallRefusal::Unauthorized(a))
            },
        },
{
    match find_authority(held, a) {
        None => Err(HostCallRefusal::NoHolder(a)),
        Some(p) => {
            proof {
                lemma_held_position(held@, a, held@.len() as int);
            }
            if same_text(held[p].module_name(), caller) {
                Ok(())
            } else {
                Err(HostCallRefusal::Unauthorized(a))
            }
        },
    }
}

/// The `k`-th authority a module claims is taken when it comes to be
/// claimed: some entry of `held` holds it, or the module claimed it already.
pub open spec fn taken_at(held: Seq<AuthorityEntry>, auths: Seq<Authority>, k: int) -> bool {
    held_position(held, auths[k], held.len() as int) is Some || auths.take(k).contains(auths[k])
}

/// The first of the first `n` claimed authorities that is taken.
pub open spec fn first_taken(held: Seq<AuthorityEntry>, auths: Seq<Authority>, n: int) -> Option<int>
    decreases n,
{
    if n <= 0 {
        None
    } else {
        match first_taken(held, auths, n - 1) {
            Some(k) => Some(k),
            None => if taken_at(held, auths, n - 1) {
                Some(n - 1)
            } else {
                None
            },
        }
    }
}

/// The module holding `a` when the module declared as `m` claims it again.
pub open spec fn taken_holder(held: Seq<AuthorityEntry>, m: ModuleDecl, a: Authority) -> Seq<char> {
    match held_position(held, a, held.len() as int) {
        Some(p) => holder(held[p]),
        None => m.name@,
    }
}

/// `e` refuses the claim of `a` by the module declared as `m`.
pub open spec fn taken_error(e: IntersticeError, held: Seq<AuthorityEntry>, m: ModuleDecl, a: Authority) -> bool {
    e matches IntersticeError::AuthorityAlreadyTaken(x, y, z) && x@ == m.name@ && y@ == authority_name(a) && z@
        == taken_holder(held, m, a)
}

/// `after` is `before` with the entries for the first `k` authorities the
/// module declared as `m` claims added, in order.
pub open spec fn claimed(before: Seq<AuthorityEntry>, after: Seq<AuthorityEntry>, m: ModuleDecl, k: int) -> bool {
    &&& after.len() == before.len() + k
    &&& after.take(before.len() as int) == before
    &&& forall|i: int| 0 <= i < k ==> entry_for_module(#[trigger] after[before.len() + i], m, m.authorities@[i])
}

proof fn lemma_held_position(s: Seq<AuthorityEntry>, a: Authority, n: int)
    requires
        0 <= n <= s.len(),
    ensures
        match held_position(s, a, n) {
            Some(p) => 0 <= p < n && authority_of(s[p]) == a && forall|j: int|
                0 <= j < p ==> authority_of(#[trigger] s[j]) != a,
            None => forall|j: int| 0 <= j < n ==> authority_of(#[trigger] s[j]) != a,
        },
    decreases n,
{
    if n > 0 {
        lemma_held_position(s, a, n - 1);
    }
}

proof fn lemma_first_taken_stays(held: Seq<AuthorityEntry>, auths: Seq<Authority>, k: int, n: int)
    requires
        0 <= k <= n,
        first_taken(held, auths, k) is Some,
    ensures
        first_taken(held, auths, n) == first_taken(held, auths, k),
    decreases n - k,
{
    if n > k {
        lemma_first_taken_stays(held, auths, k, n - 1);
    }
}

proof fn lemma_entry_holder(e: AuthorityEntry, m: ModuleDecl, a: Authority)
    requires
        entry_for_module(e, m, a),
    ensures
        holder(e) == m.name@,
        authority_of(e) == a,
{
}

/// The position of the first entry of `held` that holds `a`.
fn find_authority(held: &Vec<AuthorityEntry>, a: Authority) -> (r: Option<usize>)
    ensures
        r matches Some(p) ==> held_position(held@, a, held@.len() as int) == Some(p as int),
        r is None ==> held_position(held@, a, held@.len() as int) is None,
{
    let mut i: usize = 0;
    while i < held.len()
        invariant
            i <= held@.len(),
            held_position(held@, a, i as int) is None,
        decreases held.len() - i,
    {
        if entry_authority(&held[i]) == a {
            proof {
                lemma_held_stays(held@, a, i + 1, held@.len() as int);
            }
            return Some(i);
        }
        i = i + 1;
    }
    None
}

proof fn lemma_held_stays(s: Seq<AuthorityEntry>, a: Authority, k: int, n: int)
    requires
        0 <= k <= n,
        held_position(s, a, k) is Some,
    ensures
        held_position(s, a, n) == held_position(s, a, k),
    decreases n - k,
{
    if n > k {
        lemma_held_stays(s, a, k, n - 1);
    }
}

/// Claim the authorities the module declared as `m` asks for, in order,
/// adding an entry for each to `held`, and stop at the first one that is
/// taken: held already, or asked for twice. The entries added before it
/// stay.
pub fn claim_authorities(m: &ModuleDecl, held: &mut Vec<AuthorityEntry>) -> (r: Result<(), IntersticeError>)
    ensures
        match first_taken(old(held)@, m.authorities@, m.authorities@.len() as int) {
            Some(k) => {
                &&& claimed(old(held)@, final(held)@, *m, k)
                &&& r matches Err(e) && taken_error(e, old(held)@, *m, m.authorities@[k])
            },
            None => claimed(old(held)@, final(held)@, *m, m.authorities@.len() as int) && r is Ok,
        },
{
    let ghost before = held@;
    let ghost auths = m.authorities@;
    let mut k: usize = 0;
    assert(held@.take(before.len() as int) =~= before);
    while k < m.authorities.len()
        invariant
            k <= auths.len(),
            auths == m.authorities@,
            before == old(held)@,
            claimed(before, held@, *m, k as int),
            first_taken(before, auths, k as int) is None,
        decreases m.authorities.len() - k,
    {
        let a = m.authorities[k];
        let found = find_authority(held, a);
        proof {
            lemma_held_position(held@, a, held@.len() as int);
            lemma_held_position(before, a, before.len() as int);
            assert forall|j: int| 0 <= j < before.len() implies held@[j] == before[j] by {
                assert(held@.take(before.len() as int)[j] == held@[j]);
            }
            assert forall|i: int| 0 <= i < k implies authority_of(#[trigger] held@[before.len() + i]) == auths[i] by {
                lemma_entry_holder(held@[before.len() + i], *m, auths[i]);
            }
        }
        match found {
            Some(p) => {
                proof {
                    if p < before.len() {
                        assert(held@[p as int] == before[p as int]);
                        match held_position(before, a, before.len() as int) {
                            Some(q) => {
                                assert(held@[q] == before[q]);
                                assert(q == p);
                            },
                            None => {
                                assert(authority_of(before[p as int]) == a);
                            },
                        }
                        assert(held_position(before, a, before.len() as int) == Some(p as int));
                    } else {
                        let i = p - before.len();
                        assert(authority_of(held@[before.len() + i]) == auths[i]);
                        assert(auths.take(k as int)[i] == a);
                        assert(auths.take(k as int).contains(a));
                        assert(held_position(before, a, before.len() as int) is None);
                        lemma_entry_holder(held@[before.len() + i], *m, auths[i]);
                    }
                    assert(taken_at(before, auths, k as int));
                    lemma_first_taken_stays(before, auths, k + 1, auths.len() as int);
                }
                let other = held[p].module_name().to_owned();
                let e = IntersticeError::AuthorityAlreadyTaken(m.name.clone(), authority_text(a).to_owned(), other);
                return Err(e);
            },
            None => {
                proof {
                    assert(held_position(before, a, before.len() as int) is None);
                    if auths.take(k as int).contains(a) {
                        let i = choose|i: int| 0 <= i < k && auths.take(k as int)[i] == a;
                        assert(authority_of(held@[before.len() + i]) == auths[i]);
                    }
                    assert(!taken_at(before, auths, k as int));
                }
                let e = entry_for(m, a);
                let ghost mid = held@;
                held.push(e);
                proof {
                    assert(held@.take(before.len() as int) =~= mid.take(before.len() as int));
                    assert forall|i: int| 0 <= i < k + 1 implies entry_for_module(
                        #[trigger] held@[before.len() + i],
                        *m,
                        m.authorities@[i],
                    ) by {
                        if i < k {
                            assert(held@[before.len() + i] == mid[before.len() + i]);
                        }
                    }
                }
            },
        }
        k = k + 1;
    }
    Ok(())
}

/// The position of the first of the first `n` loaded modules, given as
/// name and version, that is named `name`.
pub open spec fn loaded_position(loaded: Seq<(String, String)>, name: Seq<char>, n: int) -> Option<int>
    decreases n,
{
    if n <= 0 {
        None
    } else {
        match loaded_position(loaded, name, n - 1) {
            Some(i) => Some(i),
            None => if loaded[n - 1].0@ == name {
                Some(n - 1)
            } else {
                None
            },
        }
    }
}

/// The `d`-th dependency of `m` is not loaded, or loaded at another version.
pub open spec fn dependency_fails(m: ModuleDecl, loaded: Seq<(String, String)>, d: int) -> bool {
    let dep = m.module_dependencies@[d];
    match loaded_position(loaded, dep.module_name@, loaded.len() as int) {
        None => true,
        Some(p) => loaded[p].1@ != dep.version@,
    }
}

/// The first of the first `n` dependencies of `m` that fails.
pub open spec fn first_failing_dependency(m: ModuleDecl, loaded: Seq<(String, String)>, n: int) -> Option<int>
    decreases n,
{
    if n <= 0 {
        None
    } else {
        match first_failing_dependency(m, loaded, n - 1) {
            Some(d) => Some(d),
            None => if dependency_fails(m, loaded, n - 1) {
                Some(n - 1)
            } else {
                None
            },
        }
    }
}

/// `e` reports why the `d`-th dependency of `m` fails.
pub open spec fn dependency_error(e: IntersticeError, m: ModuleDecl, loaded: Seq<(String, String)>, d: int) -> bool {
    let dep = m.module_dependencies@[d];
    match loaded_position(loaded, dep.module_name@, loaded.len() as int) {
        None => e matches IntersticeError::ModuleNotFound(x, y) && x@ == dep.module_name@ && y@ == "Required by '"@
            + m.name@ + "' which depends on it"@,
        Some(p) => e matches IntersticeError::ModuleVersionMismatch(a, b, c, v) && a@ == m.name@ && b@ == loaded[p].0@
            && c@ == m.version@ && v@ == loaded[p].1@,
    }
}

/// A subscription to the changes of a table.
pub open spec fn is_table_event(e: SchemaView) -> bool {
    e is Insert || e is Update || e is Delete
}

/// The position of the first of the first `n` node dependencies named `name`.
pub open spec fn node_dependency_position(deps: Seq<NodeDependency>, name: Seq<char>, n: int) -> Option<int>
    decreases n,
{
    if n <= 0 {
        None
    } else {
        match node_dependency_position(deps, name, n - 1) {
            Some(i) => Some(i),
            None => if deps[n - 1].name@ == name {
                Some(n - 1)
            } else {
                None
            },
        }
    }
}

/// The remote node whose table a subscription watches, if any.
pub open spec fn remote_node_of(s: DeclaredSubscription) -> Option<Seq<char>> {
    if is_table_event(s.subscription.event@) {
        match s.node_selection {
            NodeSelection::Other(n) => Some(n@),
            NodeSelection::Current => None,
        }
    } else {
        None
    }
}

/// The `i`-th subscription of `m` watches a node `m` does not depend on.
pub open spec fn unknown_node_at(m: ModuleDecl, i: int) -> bool {
    match remote_node_of(m.subscriptions@[i]) {
        Some(n) => node_dependency_position(m.node_dependencies@, n, m.node_dependencies@.len() as int) is None,
        None => false,
    }
}

/// The first of the first `n` subscriptions of `m` that watches a node `m`
/// does not depend on.
pub open spec fn first_unknown_node(m: ModuleDecl, n: int) -> Option<int>
    decreases n,
{
    if n <= 0 {
        None
    } else {
        match first_unknown_node(m, n - 1) {
            Some(i) => Some(i),
            None => if unknown_node_at(m, n - 1) {
                Some(n - 1)
            } else {
                None
            },
        }
    }
}

/// How many of the first `n` subscriptions watch table changes.
pub open spec fn table_subscriptions(subs: Seq<DeclaredSubscription>, n: int) -> nat
    decreases n,
{
    if n <= 0 {
        0
    } else {
        table_subscriptions(subs, n - 1) + if is_table_event(subs[n - 1].subscription.event@) {
            1nat
        } else {
            0nat
        }
    }
}

/// A name with every `-` and `.` replaced by `_`.
pub open spec fn sanitized(s: Seq<char>) -> Seq<char> {
    s.map_values(|c: char| if c == '-' || c == '.' { '_' } else { c })
}

/// The local name of the replica of `node.module.table`.
pub open spec fn replica_name(node: Seq<char>, module: Seq<char>, table: Seq<char>) -> Seq<char> {
    "__replica__"@ + sanitized(node) + "__"@ + sanitized(module) + "__"@ + sanitized(table)
}

/// What loading a module sets up once its checks pass.
#[derive(Debug)]
pub struct ModuleLoadPlan {
    /// The local name of each replicated table, in declaration order.
    pub replica_table_names: Vec<String>,
    /// How many of its subscriptions watch table changes.
    pub table_subscription_count: usize,
}

/// The checks after the authorities pass for `m`, given the loaded modules.
pub open spec fn checks_pass(m: ModuleDecl, loaded: Seq<(String, String)>) -> bool {
    &&& loaded_position(loaded, m.name@, loaded.len() as int) is None
    &&& first_failing_dependency(m, loaded, m.module_dependencies@.len() as int) is None
    &&& first_unknown_node(m, m.subscriptions@.len() as int) is None
}

/// `e` is the error of the first check after the authorities that fails.
pub open spec fn check_error(e: IntersticeError, m: ModuleDecl, loaded: Seq<(String, String)>) -> bool {
    if loaded_position(loaded, m.name@, loaded.len() as int) is Some {
        e matches IntersticeError::ModuleAlreadyExists(n) && n@ == m.name@
    } else {
        match first_failing_dependency(m, loaded, m.module_dependencies@.len() as int) {
            Some(d) => dependency_error(e, m, loaded, d),
            None => match first_unknown_node(m, m.subscriptions@.len() as int) {
                Some(i) => internal_error(
                    e,
                    "Couldn't find node "@ + remote_node_of(m.subscriptions@[i])->0 + " in the node dependencies"@,
                ),
                None => false,
            },
        }
    }
}

/// `p` is the plan for loading `m`.
pub open spec fn plan_for(p: ModuleLoadPlan, m: ModuleDecl) -> bool {
    let r = m.replicated_tables@;
    &&& p.replica_table_names@.len() == r.len()
    &&& forall|i: int|
        0 <= i < r.len() ==> (#[trigger] p.replica_table_names@[i])@ == replica_name(
            r[i].node_name@,
            r[i].module_name@,
            r[i].table_name@,
        )
    &&& p.table_subscription_count == table_subscriptions(m.subscriptions@, m.subscriptions@.len() as int)
}

fn find_loaded(loaded: &Vec<(String, String)>, name: &str) -> (r: Option<usize>)
    ensures
        r matches Some(p) ==> p < loaded@.len(),
        r matches Some(p) ==> loaded_position(loaded@, name@, loaded@.len() as int) == Some(p as int),
        r is None ==> loaded_position(loaded@, name@, loaded@.len() as int) is None,
{
    let mut i: usize = 0;
    while i < loaded.len()
        invariant
            i <= loaded@.len(),
            loaded_position(loaded@, name@, i as int) is None,
        decreases loaded.len() - i,
    {
        if same_text(loaded[i].0.as_str(), name) {
            proof {
                lemma_loaded_stays(loaded@, name@, i + 1, loaded@.len() as int);
            }
            return Some(i);
        }
        i = i + 1;
    }
    None
}

proof fn lemma_loaded_stays(s: Seq<(String, String)>, name: Seq<char>, k: int, n: int)
    requires
        0 <= k <= n,
        loaded_position(s, name, k) is Some,
    ensures
        loaded_position(s, name, n) == loaded_position(s, name, k),
    decreases n - k,
{
    if n > k {
        lemma_loaded_stays(s, name, k, n - 1);
    }
}

fn find_node_dependency(deps: &Vec<NodeDependency>, name: &str) -> (r: Option<usize>)
    ensures
        r matches Some(p) ==> p < deps@.len(),
        r matches Some(p) ==> node_dependency_position(deps@, name@, deps@.len() as int) == Some(p as int),
        r is None ==> node_dependency_position(deps@, name@, deps@.len() as int) is None,
{
    let mut i: usize = 0;
    while i < deps.len()
        invariant
            i <= deps@.len(),
            node_dependency_position(deps@, name@, i as int) is None,
        decreases deps.len() - i,
    {
        if same_text(deps[i].name.as_str(), name) {
            proof {
                lemma_node_dep_stays(deps@, name@, i + 1, deps@.len() as int);
            }
            return Some(i);
        }
        i = i + 1;
    }
    None
}

proof fn lemma_node_dep_stays(s: Seq<NodeDependency>, name: Seq<char>, k: int, n: int)
    requires
        0 <= k <= n,
        node_dependency_position(s, name, k) is Some,
    ensures
        node_dependency_position(s, name, n) == node_dependency_position(s, name, k),
    decreases n - k,
{
    if n > k {
        lemma_node_dep_stays(s, name, k, n - 1);
    }
}

proof fn lemma_dependency_stays(m: ModuleDecl, loaded: Seq<(String, String)>, k: int, n: int)
    requires
        0 <= k <= n,
        first_failing_dependency(m, loaded, k) is Some,
    ensures
        first_failing_dependency(m, loaded, n) == first_failing_dependency(m, loaded, k),
    decreases n - k,
{
    if n > k {
        lemma_dependency_stays(m, loaded, k, n - 1);
    }
}

proof fn lemma_unknown_stays(m: ModuleDecl, k: int, n: int)
    requires
        0 <= k <= n,
        first_unknown_node(m, k) is Some,
    ensures
        first_unknown_node(m, n) == first_unknown_node(m, k),
    decreases n - k,
{
    if n > k {
        lemma_unknown_stays(m, k, n - 1);
    }
}

/// `s` with every `-` and `.` replaced by `_`.
pub fn sanitize(s: &str) -> (r: String)
    ensures
        r@ == sanitized(s@),
{
    proof {
        reveal_strlit("_");
    }
    let n = s.unicode_len();
    let mut r = String::new();
    let mut i: usize = 0;
    while i < n
        invariant
            n == s@.len(),
            i <= n,
            r@ == sanitized(s@.take(i as int)),
        decreases n - i,
    {
        let c = s.get_char(i);
        let ghost before = r@;
        if c == '-' || c == '.' {
            r.append("_");
        } else {
            r.append(s.substring_char(i, i + 1));
        }
        proof {
            let d = if c == '-' || c == '.' { '_' } else { c };
            assert(s@.take(i + 1) =~= s@.take(i as int).push(c));
            assert(sanitized(s@.take(i + 1)) =~= sanitized(s@.take(i as int)).push(d));
            if !(c == '-' || c == '.') {
                assert(s@.subrange(i as int, i + 1) =~= seq![c]);
            } else {
                reveal_strlit("_");
                assert("_"@ =~= seq!['_']);
            }
            assert(r@ =~= before + seq![d]);
            assert(r@ =~= sanitized(s@.take(i + 1)));
        }
        i = i + 1;
    }
    proof {
        assert(s@.take(n as int) =~= s@);
    }
    r
}

/// The local name of the replica of `node.module.table`.
pub fn replica_table_name(node: &str, module: &str, table: &str) -> (r: String)
    ensures
        r@ == replica_name(node@, module@, table@),
{
    proof {
        reveal_strlit("__replica__");
        reveal_strlit("__");
    }
    let mut r = "__replica__".to_owned();
    r.append(sanitize(node).as_str());
    r.append("__");
    r.append(sanitize(module).as_str());
    r.append("__");
    r.append(sanitize(table).as_str());
    r
}

/// Decide whether the module declared as `m` can be loaded next to the
/// modules `loaded` (name and version of each), given the authority
/// entries `held`. Its authorities are claimed first, in order, and those
/// claimed stay in `held` whatever comes after; then the module must not
/// be loaded already, each dependency must be loaded at the version asked
/// for, and each remote table subscription must name a node the module
/// depends on. Once all pass, the plan gives the replica table names and
/// the number of table subscriptions.
pub fn plan_module_load(
    m: &ModuleDecl,
    loaded: &Vec<(String, String)>,
    held: &mut Vec<AuthorityEntry>,
) -> (r: Result<ModuleLoadPlan, IntersticeError>)
    ensures
        match first_taken(old(held)@, m.authorities@, m.authorities@.len() as int) {
            Some(k) => {
                &&& claimed(old(held)@, final(held)@, *m, k)
                &&& r matches Err(e) && taken_error(e, old(held)@, *m, m.authorities@[k])
            },
            None => {
                &&& claimed(old(held)@, final(held)@, *m, m.authorities@.len() as int)
                &&& checks_pass(*m, loaded@) ==> (r matches Ok(p) && plan_for(p, *m))
                &&& !checks_pass(*m, loaded@) ==> (r matches Err(e) && check_error(e, *m, loaded@))
            },
        },
{
    match claim_authorities(m, held) {
        Err(e) => {
            return Err(e);
        },
        Ok(()) => {},
    }
    let ghost claimed_now = held@;
    proof {
        reveal_strlit("Required by '");
        reveal_strlit("' which depends on it");
        reveal_strlit("Couldn't find node ");
        reveal_strlit(" in the node dependencies");
    }
    if find_loaded(loaded, m.name.as_str()).is_some() {
        return Err(IntersticeError::ModuleAlreadyExists(m.name.clone()));
    }
    let mut d: usize = 0;
    while d < m.module_dependencies.len()
        invariant
            d <= m.module_dependencies@.len(),
            first_failing_dependency(*m, loaded@, d as int) is None,
            held@ == claimed_now,
            first_taken(old(held)@, m.authorities@, m.authorities@.len() as int) is None,
            claimed(old(held)@, claimed_now, *m, m.authorities@.len() as int),
            loaded_position(loaded@, m.name@, loaded@.len() as int) is None,
        decreases m.module_dependencies.len() - d,
    {
        let dep = &m.module_dependencies[d];
        match find_loaded(loaded, dep.module_name.as_str()) {
            None => {
                proof {
                    lemma_dependency_stays(*m, loaded@, d + 1, m.module_dependencies@.len() as int);
                }
                let mut why = "Required by '".to_owned();
                why.append(m.name.as_str());
                why.append("' which depends on it");
                return Err(IntersticeError::ModuleNotFound(dep.module_name.clone(), why));
            },
            Some(p) => {
                if !same_text(loaded[p].1.as_str(), dep.version.as_str()) {
                    proof {
                        lemma_dependency_stays(*m, loaded@, d + 1, m.module_dependencies@.len() as int);
                    }
                    return Err(
                        IntersticeError::ModuleVersionMismatch(
                            m.name.clone(),
                            loaded[p].0.clone(),
                            m.version.clone(),
                            loaded[p].1.clone(),
                        ),
                    );
                }
            },
        }
        d = d + 1;
    }
    let mut i: usize = 0;
    let mut count: usize = 0;
    while i < m.subscriptions.len()
        invariant
            i <= m.subscriptions@.len(),
            first_unknown_node(*m, i as int) is None,
            count == table_subscriptions(m.subscriptions@, i as int),
            held@ == claimed_now,
            first_taken(old(held)@, m.authorities@, m.authorities@.len() as int) is None,
            claimed(old(held)@, claimed_now, *m, m.authorities@.len() as int),
            loaded_position(loaded@, m.name@, loaded@.len() as int) is None,
            first_failing_dependency(*m, loaded@, m.module_dependencies@.len() as int) is None,
            count <= i,
        decreases m.subscriptions.len() - i,
    {
        let sub = &m.subscriptions[i];
        let table_event = match &sub.subscription.event {
            SubscriptionEventSchema::Insert { .. } => true,
            SubscriptionEventSchema::Update { .. } => true,
            SubscriptionEventSchema::Delete { .. } => true,
            _ => false,
        };
        if table_event {
            if let NodeSelection::Other(node) = &sub.node_selection {
                if find_node_dependency(&m.node_dependencies, node.as_str()).is_none() {
                    proof {
                        lemma_unknown_stays(*m, i + 1, m.subscriptions@.len() as int);
                    }
                    let mut msg = "Couldn't find node ".to_owned();
                    msg.append(node.as_str());
                    msg.append(" in the node dependencies");
                    return Err(IntersticeError::Internal(msg));
                }
            }
            count = count + 1;
        }
        i = i + 1;
    }
    let mut names: Vec<String> = Vec::new();
    let mut j: usize = 0;
    while j < m.replicated_tables.len()
        invariant
            j <= m.replicated_tables@.len(),
            names@.len() == j,
            held@ == claimed_now,
            first_taken(old(held)@, m.authorities@, m.authorities@.len() as int) is None,
            claimed(old(held)@, claimed_now, *m, m.authorities@.len() as int),
            checks_pass(*m, loaded@),
            count == table_subscriptions(m.subscriptions@, m.subscriptions@.len() as int),
            forall|q: int|
                0 <= q < j ==> (#[trigger] names@[q])@ == replica_name(
                    m.replicated_tables@[q].node_name@,
                    m.replicated_tables@[q].module_name@,
                    m.replicated_tables@[q].table_name@,
                ),
        decreases m.replicated_tables.len() - j,
    {
        let t = &m.replicated_tables[j];
        names.push(replica_table_name(t.node_name.as_str(), t.module_name.as_str(), t.table_name.as_str()));
        j = j + 1;
    }
    Ok(ModuleLoadPlan { replica_table_names: names, table_subscription_count: count })
}

/// Whether other nodes may read a table.
#[derive(Debug, Clone, Copy, PartialEq, Eq, Structural)]
pub enum TableVisibility {
    Public,
    Private,
}

/// A table as a module's schema declares it.
#[derive(Debug, Clone)]
pub struct TableDecl {
    pub schema: TableSchema,
    pub visibility: TableVisibility,
}

/// A module of a node's schema: its name and its tables.
#[derive(Debug, Clone)]
pub struct ModuleSchemaDecl {
    pub name: String,
    pub tables: Vec<TableDecl>,
}

/// What a node says of its modules.
#[derive(Debug, Clone)]
pub struct NodeSchemaDecl {
    pub modules: Vec<ModuleSchemaDecl>,
}

/// The position of the first of the first `n` modules named `name`.
pub open spec fn module_schema_position(mods: Seq<ModuleSchemaDecl>, name: Seq<char>, n: int) -> Option<int>
    decreases n,
{
    if n <= 0 {
        None
    } else {
        match module_schema_position(mods, name, n - 1) {
            Some(i) => Some(i),
            None => if mods[n - 1].name@ == name {
                Some(n - 1)
            } else {
                None
            },
        }
    }
}

/// The position of the first of the first `n` tables named `name`.
pub open spec fn table_decl_position(tables: Seq<TableDecl>, name: Seq<char>, n: int) -> Option<int>
    decreases n,
{
    if n <= 0 {
        None
    } else {
        match table_decl_position(tables, name, n - 1) {
            Some(i) => Some(i),
            None => if tables[n - 1].schema.name@ == name {
                Some(n - 1)
            } else {
                None
            },
        }
    }
}

/// `node.module.table` as messages write it.
pub open spec fn dotted(node: Seq<char>, module: Seq<char>, table: Seq<char>) -> Seq<char> {
    node + "."@ + module + "."@ + table
}

proof fn lemma_module_schema_stays(s: Seq<ModuleSchemaDecl>, name: Seq<char>, k: int, n: int)
    requires
        0 <= k <= n,
        module_schema_position(s, name, k) is Some,
    ensures
        module_schema_position(s, name, n) == module_schema_position(s, name, k),
    decreases n - k,
{
    if n > k {
        lemma_module_schema_stays(s, name, k, n - 1);
    }
}

proof fn lemma_table_decl_stays(s: Seq<TableDecl>, name: Seq<char>, k: int, n: int)
    requires
        0 <= k <= n,
        table_decl_position(s, name, k) is Some,
    ensures
        table_decl_position(s, name, n) == table_decl_position(s, name, k),
    decreases n - k,
{
    if n > k {
        lemma_table_decl_stays(s, name, k, n - 1);
    }
}

fn find_module_schema(mods: &Vec<ModuleSchemaDecl>, name: &str) -> (r: Option<usize>)
    ensures
        r matches Some(p) ==> p < mods@.len() && module_schema_position(mods@, name@, mods@.len() as int) == Some(
            p as int,
        ),
        r is None ==> module_schema_position(mods@, name@, mods@.len() as int) is None,
{
    let mut i: usize = 0;
    while i < mods.len()
        invariant
            i <= mods@.len(),
            module_schema_position(mods@, name@, i as int) is None,
        decreases mods.len() - i,
    {
        if same_text(mods[i].name.as_str(), name) {
            proof {
                lemma_module_schema_stays(mods@, name@, i + 1, mods@.len() as int);
            }
            return Some(i);
        }
        i = i + 1;
    }
    None
}

pub(crate) fn find_table_decl(tables: &Vec<TableDecl>, name: &str) -> (r: Option<usize>)
    ensures
        r matches Some(p) ==> p < tables@.len() && table_decl_position(tables@, name@, tables@.len() as int) == Some(
            p as int,
        ),
        r is None ==> table_decl_position(tables@, name@, tables@.len() as int) is None,
{
    let mut i: usize = 0;
    while i < tables.len()
        invariant
            i <= tables@.len(),
            table_decl_position(tables@, name@, i as int) is None,
        decreases tables.len() - i,
    {
        if same_text(tables[i].schema.name.as_str(), name) {
            proof {
                lemma_table_decl_stays(tables@, name@, i + 1, tables@.len() as int);
            }
            return Some(i);
        }
        i = i + 1;
    }
    None
}

fn dotted_text(node: &str, module: &str, table: &str) -> (r: String)
    ensures
        r@ == dotted(node@, module@, table@),
{
    proof {
        reveal_strlit(".");
    }
    let mut r = node.to_owned();
    r.append(".");
    r.append(module);
    r.append(".");
    r.append(table);
    r
}

/// The address of the node a replicated table comes from: the module
/// must depend on that node.
pub fn replica_source_address(m: &ModuleDecl, t: &ReplicatedTable) -> (r: Result<String, IntersticeError>)
    ensures
        match node_dependency_position(m.node_dependencies@, t.node_name@, m.node_dependencies@.len() as int) {
            Some(p) => r matches Ok(a) && a@ == m.node_dependencies@[p].address@,
            None => r matches Err(e) && internal_error(
                e,
                "Replicated table '"@ + dotted(t.node_name@, t.module_name@, t.table_name@) + "' requires node '"@
                    + t.node_name@ + "' in dependencies"@,
            ),
        },
{
    proof {
        reveal_strlit("Replicated table '");
        reveal_strlit("' requires node '");
        reveal_strlit("' in dependencies");
    }
    match find_node_dependency(&m.node_dependencies, t.node_name.as_str()) {
        Some(p) => Ok(m.node_dependencies[p].address.clone()),
        None => {
            let mut msg = "Replicated table '".to_owned();
            msg.append(dotted_text(t.node_name.as_str(), t.module_name.as_str(), t.table_name.as_str()).as_str());
            msg.append("' requires node '");
            msg.append(t.node_name.as_str());
            msg.append("' in dependencies");
            Err(IntersticeError::Internal(msg))
        },
    }
}

/// The address of the node `node_name` that a module call of the module
/// declared as `m` goes to: the module must depend on that node.
pub fn module_call_node_address(m: &ModuleDecl, node_name: &str) -> (r: Result<String, String>)
    ensures
        match node_dependency_position(m.node_dependencies@, node_name@, m.node_dependencies@.len() as int) {
            Some(p) => r matches Ok(a) && a@ == m.node_dependencies@[p].address@,
            None => r matches Err(msg) && msg@ == "Couldn't find node "@ + node_name@ + " in node dependencies"@,
        },
{
    proof {
        reveal_strlit("Couldn't find node ");
        reveal_strlit(" in node dependencies");
    }
    match find_node_dependency(&m.node_dependencies, node_name) {
        Some(p) => Ok(m.node_dependencies[p].address.clone()),
        None => {
            let mut msg = "Couldn't find node ".to_owned();
            msg.append(node_name);
            msg.append(" in node dependencies");
            Err(msg)
        },
    }
}

/// The outcome of checking a replicated table against the schema of the
/// node it comes from.
pub open spec fn replica_check(
    r: Result<TableSchema, IntersticeError>,
    remote: NodeSchemaDecl,
    t: ReplicatedTable,
) -> bool {
    let mods = remote.modules@;
    match module_schema_position(mods, t.module_name@, mods.len() as int) {
        None => r matches Err(IntersticeError::ModuleNotFound(x, y)) && x@ == t.module_name@ && y@ == "Remote module '"@
            + t.module_name@ + "' not found on node '"@ + t.node_name@ + "' while configuring table replica"@,
        Some(mp) => {
            let tables = mods[mp].tables@;
            match table_decl_position(tables, t.table_name@, tables.len() as int) {
                None => r matches Err(IntersticeError::TableNotFound { module_name: x, table_name: y }) && x@
                    == t.module_name@ && y@ == t.table_name@,
                Some(tp) => if tables[tp].visibility != TableVisibility::Public {
                    r matches Err(e) && internal_error(
                        e,
                        "Cannot replicate non-public table '"@ + dotted(t.node_name@, t.module_name@, t.table_name@)
                            + "'"@,
                    )
                } else {
                    r matches Ok(s) && s.name@ == replica_name(t.node_name@, t.module_name@, t.table_name@)
                        && same_layout(&s, &tables[tp].schema)
                },
            }
        },
    }
}

/// Check that the table a module replicates is a public table of the
/// remote node, and give the schema of its local copy: the remote table's,
/// under the replica name.
pub fn check_replicated_table(remote: &NodeSchemaDecl, t: &ReplicatedTable) -> (r: Result<TableSchema, IntersticeError>)
    ensures
        replica_check(r, *remote, *t),
{
    proof {
        reveal_strlit("Remote module '");
        reveal_strlit("' not found on node '");
        reveal_strlit("' while configuring table replica");
        reveal_strlit("Cannot replicate non-public table '");
        reveal_strlit("'");
    }
    let mp = match find_module_schema(&remote.modules, t.module_name.as_str()) {
        Some(mp) => mp,
        None => {
            let mut why = "Remote module '".to_owned();
            why.append(t.module_name.as_str());
            why.append("' not found on node '");
            why.append(t.node_name.as_str());
            why.append("' while configuring table replica");
            return Err(IntersticeError::ModuleNotFound(t.module_name.clone(), why));
        },
    };
    let tables = &remote.modules[mp].tables;
    let tp = match find_table_decl(tables, t.table_name.as_str()) {
        Some(tp) => tp,
        None => {
            return Err(
                IntersticeError::TableNotFound { module_name: t.module_name.clone(), table_name: t.table_name.clone() },
            );
        },
    };
    if tables[tp].visibility != TableVisibility::Public {
        let mut msg = "Cannot replicate non-public table '".to_owned();
        msg.append(dotted_text(t.node_name.as_str(), t.module_name.as_str(), t.table_name.as_str()).as_str());
        msg.append("'");
        return Err(IntersticeError::Internal(msg));
    }
    let mut local = tables[tp].schema.duplicate();
    local.name = replica_table_name(t.node_name.as_str(), t.module_name.as_str(), t.table_name.as_str());
    Ok(local)
}

/// Whether loading the module declared as `m` must first ask for the app
/// to be initialized: it claims the GPU and the app is not initialized.
pub fn needs_app_initialization(m: &ModuleDecl, app_initialized: bool) -> (r: bool)
    ensures
        r == (m.authorities@.contains(Authority::Gpu) && !app_initialized),
{
    if app_initialized {
        return false;
    }
    let mut i: usize = 0;
    while i < m.authorities.len()
        invariant
            i <= m.authorities@.len(),
            !app_initialized,
            !m.authorities@.take(i as int).contains(Authority::Gpu),
        decreases m.authorities.len() - i,
    {
        if m.authorities[i] == Authority::Gpu {
            proof {
                assert(m.authorities@[i as int] == Authority::Gpu);
            }
            return true;
        }
        proof {
            assert(m.authorities@.take(i + 1) =~= m.authorities@.take(i as int).push(m.authorities@[i as int]));
        }
        i = i + 1;
    }
    proof {
        assert(m.authorities@.take(i as int) =~= m.authorities@);
    }
    false
}

/// Whether publish and remove requests go to the module holding the
/// Module authority (some entry holds it) rather than being handled here.
pub fn forwards_module_requests(held: &Vec<AuthorityEntry>) -> (r: bool)
    ensures
        r == (held_position(held@, Authority::Module, held@.len() as int) is Some),
{
    find_authority(held, Authority::Module).is_some()
}

} // verus!
