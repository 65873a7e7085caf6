//! Whether the running reducer may touch a table: queries only read, and
//! every access must be among the ones the reducer declared, keyed by the
//! table's `node.module.table` reference (a replica counts as its source
//! table).
use vstd::prelude::*;
use crate::runtime::reducer::CallFrameKind;
use crate::runtime::scheduler::{
    ModuleSelection, NodeSelection, ReducerTableRef, SelectionView, TableRefView, compare_table_refs, lemma_ref_order,
};
use crate::runtime::table_access::{ReplicaBinding, binding_for};
use crate::runtime::value::{KeyOrder, same_text};
use crate::text::{lowercase_text, lowercased};

verus! {

/// What a reducer does to a table, as far as permissions go.
#[derive(Debug, Clone, Copy, PartialEq, Eq, Structural)]
pub enum TableAccessOp {
    Read,
    Insert,
    Update,
    Delete,
}

/// The tables a reducer declared, by kind of access.
#[derive(Debug, Clone)]
pub struct ReducerTableAccess {
    pub reads: Vec<ReducerTableRef>,
    pub inserts: Vec<ReducerTableRef>,
    pub updates: Vec<ReducerTableRef>,
    pub deletes: Vec<ReducerTableRef>,
}

pub open spec fn refs_view(v: Seq<ReducerTableRef>) -> Seq<TableRefView> {
    v.map_values(|r: ReducerTableRef| r@)
}

/// A copy of a list of table references.
fn copy_refs(v: &[ReducerTableRef]) -> (r: Vec<ReducerTableRef>)
    ensures
        refs_view(r@) == refs_view(v@),
{
    let mut out: Vec<ReducerTableRef> = Vec::new();
    let mut i: usize = 0;
    while i < v.len()
        invariant
            i <= v@.len(),
            out@.len() == i,
            forall|j: int| 0 <= j < i ==> (#[trigger] out@[j])@ == v@[j]@,
        decreases v.len() - i,
    {
        out.push(v[i].duplicate());
        i = i + 1;
    }
    proof {
        assert(refs_view(out@) =~= refs_view(v@));
    }
    out
}

impl ReducerTableAccess {
    /// The accesses a reducer declares: the tables it reads, inserts into,
    /// updates and deletes from.
    pub fn from_schema(
        reads: &[ReducerTableRef],
        inserts: &[ReducerTableRef],
        updates: &[ReducerTableRef],
        deletes: &[ReducerTableRef],
    ) -> (r: ReducerTableAccess)
        ensures
            declared(r, TableAccessOp::Read) == refs_view(reads@),
            declared(r, TableAccessOp::Insert) == refs_view(inserts@),
            declared(r, TableAccessOp::Update) == refs_view(updates@),
            declared(r, TableAccessOp::Delete) == refs_view(deletes@),
    {
        ReducerTableAccess {
            reads: copy_refs(reads),
            inserts: copy_refs(inserts),
            updates: copy_refs(updates),
            deletes: copy_refs(deletes),
        }
    }

    /// The accesses a query declares: only reads.
    pub fn from_query_schema(reads: &[ReducerTableRef]) -> (r: ReducerTableAccess)
        ensures
            declared(r, TableAccessOp::Read) == refs_view(reads@),
            declared(r, TableAccessOp::Insert).len() == 0,
            declared(r, TableAccessOp::Update).len() == 0,
            declared(r, TableAccessOp::Delete).len() == 0,
    {
        ReducerTableAccess { reads: copy_refs(reads), inserts: Vec::new(), updates: Vec::new(), deletes: Vec::new() }
    }
}

/// The declared tables for one kind of access.
pub open spec fn declared(a: ReducerTableAccess, op: TableAccessOp) -> Seq<TableRefView> {
    match op {
        TableAccessOp::Read => refs_view(a.reads@),
        TableAccessOp::Insert => refs_view(a.inserts@),
        TableAccessOp::Update => refs_view(a.updates@),
        TableAccessOp::Delete => refs_view(a.deletes@),
    }
}

/// The reference a reducer of `frame_module` means by the physical table
/// `physical` of the module `module_selection`: its source for a replica,
/// otherwise the table on the current node, lowercase.
pub open spec fn effective_ref(
    frame_module: Seq<char>,
    module_selection: SelectionView,
    physical: Seq<char>,
    bindings: Seq<ReplicaBinding>,
) -> TableRefView {
    match binding_for(bindings, frame_module, physical, bindings.len() as int) {
        Some(p) => TableRefView {
            node: SelectionView::Other(lowercased(bindings[p].source_node_name@)),
            module: SelectionView::Other(lowercased(bindings[p].source_module_name@)),
            table: lowercased(bindings[p].source_table_name@),
        },
        None => TableRefView { node: SelectionView::Current, module: module_selection, table: lowercased(physical) },
    }
}

pub open spec fn op_name(op: TableAccessOp) -> Seq<char> {
    match op {
        TableAccessOp::Read => "Read"@,
        TableAccessOp::Insert => "Insert"@,
        TableAccessOp::Update => "Update"@,
        TableAccessOp::Delete => "Delete/Clear"@,
    }
}

pub open spec fn op_label(op: TableAccessOp) -> Seq<char> {
    match op {
        TableAccessOp::Read => "read"@,
        TableAccessOp::Insert => "insert"@,
        TableAccessOp::Update => "update"@,
        TableAccessOp::Delete => "delete"@,
    }
}

pub open spec fn selection_text(s: SelectionView) -> Seq<char> {
    match s {
        SelectionView::Current => "current"@,
        SelectionView::Other(n) => n,
    }
}

/// How a table reference is written in messages.
pub open spec fn ref_text(r: TableRefView) -> Seq<char> {
    selection_text(r.node) + "."@ + selection_text(r.module) + "."@ + r.table
}

/// The outcome of checking an access of the running reducer.
pub open spec fn access_check(
    kind: CallFrameKind,
    frame_module: Seq<char>,
    frame_reducer: Seq<char>,
    access: ReducerTableAccess,
    key: TableRefView,
    op: TableAccessOp,
) -> Result<(), Seq<char>> {
    if kind == CallFrameKind::Query && op != TableAccessOp::Read {
        Err(op_name(op) + " not allowed in query context"@)
    } else if declared(access, op).contains(key) {
        Ok(())
    } else {
        Err(
            "Reducer '"@ + frame_module + "."@ + frame_reducer + "' lacks "@ + op_label(op) + " permission for "@
                + ref_text(key) + " (declared access uses structured node.module.table refs)"@,
        )
    }
}

/// The reference a reducer of `frame_module` means by the physical table
/// `physical_table` of the module `module_selection`.
pub fn effective_reducer_table_ref(
    frame_module: &str,
    module_selection: &ModuleSelection,
    physical_table: &str,
    replica_bindings: &[ReplicaBinding],
) -> (r: ReducerTableRef)
    ensures
        r@ == effective_ref(frame_module@, module_selection@, physical_table@, replica_bindings@),
{
    let table_lower = lowercase_text(physical_table);
    let mut k: usize = 0;
    while k < replica_bindings.len()
        invariant
            k <= replica_bindings@.len(),
            binding_for(replica_bindings@, frame_module@, physical_table@, k as int) is None,
        decreases replica_bindings.len() - k,
    {
        let b = &replica_bindings[k];
        if same_text(b.owner_module_name.as_str(), frame_module) && same_text(b.local_table_name.as_str(), physical_table) {
            proof {
                lemma_binding_found(replica_bindings@, frame_module@, physical_table@, k + 1, replica_bindings@.len() as int);
            }
            return ReducerTableRef {
                node_selection: NodeSelection::Other(lowercase_text(b.source_node_name.as_str())),
                module_selection: ModuleSelection::Other(lowercase_text(b.source_module_name.as_str())),
                table_name: lowercase_text(b.source_table_name.as_str()),
            };
        }
        k = k + 1;
    }
    ReducerTableRef { node_selection: NodeSelection::Current, module_selection: module_selection.duplicate(), table_name: table_lower }
}

proof fn lemma_binding_found(bindings: Seq<ReplicaBinding>, owner: Seq<char>, physical: Seq<char>, k: int, n: int)
    requires
        0 <= k <= n,
        binding_for(bindings, owner, physical, k) is Some,
    ensures
        binding_for(bindings, owner, physical, n) == binding_for(bindings, owner, physical, k),
    decreases n - k,
{
    if n > k {
        lemma_binding_found(bindings, owner, physical, k, n - 1);
    }
}

fn selection_str(s: &ModuleSelection) -> (r: &str)
    ensures
        r@ == selection_text(s@),
{
    proof {
        reveal_strlit("current");
    }
    match s {
        ModuleSelection::Current => "current",
        ModuleSelection::Other(n) => n.as_str(),
    }
}

/// How a table reference is written in messages.
pub fn format_reducer_table_ref(r: &ReducerTableRef) -> (s: String)
    ensures
        s@ == ref_text(r@),
{
    proof {
        reveal_strlit("current");
        reveal_strlit(".");
    }
    let mut s = match &r.node_selection {
        NodeSelection::Current => "current".to_owned(),
        NodeSelection::Other(n) => n.clone(),
    };
    s.append(".");
    s.append(selection_str(&r.module_selection));
    s.append(".");
    s.append(r.table_name.as_str());
    s
}

/// Whether `v` holds a reference equal to `key`.
fn holds_ref(v: &Vec<ReducerTableRef>, key: &ReducerTableRef) -> (r: bool)
    ensures
        r == refs_view(v@).contains(key@),
{
    let mut i: usize = 0;
    while i < v.len()
        invariant
            i <= v@.len(),
            forall|j: int| 0 <= j < i ==> (#[trigger] v@[j])@ != key@,
        decreases v.len() - i,
    {
        proof {
            lemma_ref_order(v@[i as int]@, key@, key@);
        }
        match compare_table_refs(&v[i], key) {
            KeyOrder::Equal => {
                proof {
                    assert(refs_view(v@)[i as int] == key@);
                }
                return true;
            },
            _ => {},
        }
        i = i + 1;
    }
    proof {
        if refs_view(v@).contains(key@) {
            let j = choose|j: int| 0 <= j < refs_view(v@).len() && refs_view(v@)[j] == key@;
            assert(v@[j]@ == refs_view(v@)[j]);
        }
    }
    false
}

/// Check that the running reducer `frame_reducer` of `frame_module`, in a
/// frame of kind `kind` with the declared accesses `access`, may do `op`
/// on the physical table `table_name` of the module `module_selection`.
pub fn ensure_table_access(
    kind: CallFrameKind,
    frame_module: &str,
    frame_reducer: &str,
    access: &ReducerTableAccess,
    module_selection: &ModuleSelection,
    table_name: &str,
    op: TableAccessOp,
    replica_bindings: &[ReplicaBinding],
) -> (r: Result<(), String>)
    ensures
        match access_check(
            kind,
            frame_module@,
            frame_reducer@,
            *access,
            effective_ref(frame_module@, module_selection@, table_name@, replica_bindings@),
            op,
        ) {
            Ok(()) => r is Ok,
            Err(m) => r matches Err(e) && e@ == m,
        },
{
    proof {
        reveal_strlit("Read");
        reveal_strlit("Insert");
        reveal_strlit("Update");
        reveal_strlit("Delete/Clear");
        reveal_strlit("read");
        reveal_strlit("insert");
        reveal_strlit("update");
        reveal_strlit("delete");
    }
    if kind == CallFrameKind::Query && op != TableAccessOp::Read {
        let mut m = match op {
            TableAccessOp::Read => "Read".to_owned(),
            TableAccessOp::Insert => "Insert".to_owned(),
            TableAccessOp::Update => "Update".to_owned(),
            TableAccessOp::Delete => "Delete/Clear".to_owned(),
        };
        m.append(" not allowed in query context");
        return Err(m);
    }
    let key = effective_reducer_table_ref(frame_module, module_selection, table_name, replica_bindings);
    let allowed = match op {
        TableAccessOp::Read => holds_ref(&access.reads, &key),
        TableAccessOp::Insert => holds_ref(&access.inserts, &key),
        TableAccessOp::Update => holds_ref(&access.updates, &key),
        TableAccessOp::Delete => holds_ref(&access.deletes, &key),
    };
    if allowed {
        Ok(())
    } else {
        let mut m = "Reducer '".to_owned();
        m.append(frame_module);
        m.append(".");
        m.append(frame_reducer);
        m.append("' lacks ");
        m.append(
            match op {
                TableAccessOp::Read => "read",
                TableAccessOp::Insert => "insert",
                TableAccessOp::Update => "update",
                TableAccessOp::Delete => "delete",
            },
        );
        m.append(" permission for ");
        m.append(format_reducer_table_ref(&key).as_str());
        m.append(" (declared access uses structured node.module.table refs)");
        Err(m)
    }
}

} // verus!
