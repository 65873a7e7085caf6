//! Scheduling of reducer runs by the tables they touch: a job runs at once
//! unless it conflicts with a running job or with a job already waiting;
//! waiting jobs start, in arrival order, as running jobs complete.
use vstd::prelude::*;
use crate::runtime::value::{
    KeyOrder, chars_lt, compare_strings, lemma_chars_lt_irreflexive, lemma_chars_lt_transitive,
    lemma_chars_lt_total, lemma_chars_lt_asymmetric,
};

verus! {

broadcast use vstd::seq_lib::group_seq_properties;

/// What a reducer does to a table.
#[derive(Debug, Clone, Copy, PartialEq, Eq, Structural)]
pub enum TableOp {
    Read,
    Insert,
    Update,
    Delete,
}

/// Two operations on one table cannot run at once unless both read or
/// both insert.
pub open spec fn ops_conflict(a: TableOp, b: TableOp) -> bool {
    !(a == TableOp::Read && b == TableOp::Read) && !(a == TableOp::Insert && b == TableOp::Insert)
}

/// Two operations conflict whichever comes first, and they are compatible
/// exactly when both read or both insert.
pub proof fn lemma_ops_conflict(a: TableOp, b: TableOp)
    ensures
        ops_conflict(a, b) == ops_conflict(b, a),
        !ops_conflict(a, b) <==> ((a == TableOp::Read && b == TableOp::Read) || (a == TableOp::Insert && b
            == TableOp::Insert)),
{
}

/// The place of an operation in the order accesses are sorted by.
pub open spec fn op_rank(op: TableOp) -> int {
    match op {
        TableOp::Read => 0,
        TableOp::Insert => 1,
        TableOp::Update => 2,
        TableOp::Delete => 3,
    }
}

fn op_conflicts(a: TableOp, b: TableOp) -> (r: bool)
    ensures
        r == ops_conflict(a, b),
{
    match (a, b) {
        (TableOp::Read, TableOp::Read) => false,
        (TableOp::Read, _) | (_, TableOp::Read) => true,
        (TableOp::Insert, TableOp::Insert) => false,
        (TableOp::Insert, TableOp::Update) | (TableOp::Update, TableOp::Insert) => true,
        (TableOp::Insert, TableOp::Delete) | (TableOp::Delete, TableOp::Insert) => true,
        (TableOp::Update, TableOp::Update) => true,
        (TableOp::Update, TableOp::Delete) | (TableOp::Delete, TableOp::Update) => true,
        (TableOp::Delete, TableOp::Delete) => true,
    }
}

fn op_rank_of(op: TableOp) -> (r: u8)
    ensures
        r == op_rank(op),
{
    match op {
        TableOp::Read => 0,
        TableOp::Insert => 1,
        TableOp::Update => 2,
        TableOp::Delete => 3,
    }
}

/// Which node a table lives on.
#[derive(Debug, Clone)]
pub enum NodeSelection {
    Current,
    Other(String),
}

/// Which module a table belongs to.
#[derive(Debug, Clone)]
pub enum ModuleSelection {
    Current,
    Other(String),
}

/// The content of a node or module selection.
pub enum SelectionView {
    Current,
    Other(Seq<char>),
}

impl View for NodeSelection {
    type V = SelectionView;

    open spec fn view(&self) -> SelectionView {
        match self {
            NodeSelection::Current => SelectionView::Current,
            NodeSelection::Other(s) => SelectionView::Other(s@),
        }
    }
}

impl View for ModuleSelection {
    type V = SelectionView;

    open spec fn view(&self) -> SelectionView {
        match self {
            ModuleSelection::Current => SelectionView::Current,
            ModuleSelection::Other(s) => SelectionView::Other(s@),
        }
    }
}

/// A table as a reducer names it.
#[derive(Debug, Clone)]
pub struct ReducerTableRef {
    pub node_selection: NodeSelection,
    pub module_selection: ModuleSelection,
    pub table_name: String,
}

pub struct TableRefView {
    pub node: SelectionView,
    pub module: SelectionView,
    pub table: Seq<char>,
}

impl View for ReducerTableRef {
    type V = TableRefView;

    open spec fn view(&self) -> TableRefView {
        TableRefView { node: self.node_selection@, module: self.module_selection@, table: self.table_name@ }
    }
}

/// One table a job touches, and how.
#[derive(Debug, Clone)]
pub struct TableAccess {
    pub table_ref: ReducerTableRef,
    pub op: TableOp,
}

pub struct AccessView {
    pub table: TableRefView,
    pub op: TableOp,
}

impl View for TableAccess {
    type V = AccessView;

    open spec fn view(&self) -> AccessView {
        AccessView { table: self.table_ref@, op: self.op }
    }
}

pub open spec fn access_views(s: Seq<TableAccess>) -> Seq<AccessView> {
    s.map_values(|a: TableAccess| a@)
}

/// The current selection comes first; named ones go by name.
pub open spec fn selection_lt(a: SelectionView, b: SelectionView) -> bool {
    match (a, b) {
        (SelectionView::Current, SelectionView::Other(_)) => true,
        (SelectionView::Other(x), SelectionView::Other(y)) => chars_lt(x, y),
        _ => false,
    }
}

/// Table references are ordered by node, then module, then table name.
pub open spec fn ref_lt(a: TableRefView, b: TableRefView) -> bool {
    ||| selection_lt(a.node, b.node)
    ||| (a.node == b.node && selection_lt(a.module, b.module))
    ||| (a.node == b.node && a.module == b.module && chars_lt(a.table, b.table))
}

/// Accesses are ordered by table, then by operation.
pub open spec fn access_le(a: AccessView, b: AccessView) -> bool {
    ref_lt(a.table, b.table) || (a.table == b.table && op_rank(a.op) <= op_rank(b.op))
}

/// Sorted by table, and by operation within a table.
pub open spec fn accesses_sorted(s: Seq<AccessView>) -> bool {
    forall|i: int, j: int| 0 <= i < j < s.len() ==> access_le(#[trigger] s[i], #[trigger] s[j])
}

/// Some table that both touch is touched by conflicting operations.
pub open spec fn accesses_conflict(a: Seq<AccessView>, b: Seq<AccessView>) -> bool {
    exists|x: int, y: int|
        0 <= x < a.len() && 0 <= y < b.len() && (#[trigger] a[x]).table == (#[trigger] b[y]).table && ops_conflict(
            a[x].op,
            b[y].op,
        )
}

proof fn lemma_selection_order(a: SelectionView, b: SelectionView, c: SelectionView)
    ensures
        !selection_lt(a, a),
        selection_lt(a, b) && selection_lt(b, c) ==> selection_lt(a, c),
        selection_lt(a, b) || selection_lt(b, a) || a == b,
        selection_lt(a, b) ==> !selection_lt(b, a),
{
    if let SelectionView::Other(x) = a {
        lemma_chars_lt_irreflexive(x);
    }
    if selection_lt(a, b) && selection_lt(b, c) {
        if let (SelectionView::Other(x), SelectionView::Other(y), SelectionView::Other(z)) = (a, b, c) {
            lemma_chars_lt_transitive(x, y, z);
        }
    }
    if let (SelectionView::Other(x), SelectionView::Other(y)) = (a, b) {
        lemma_chars_lt_total(x, y);
        if chars_lt(x, y) {
            lemma_chars_lt_asymmetric(x, y);
        }
    }
}

/// The order on table references is irreflexive, transitive and total.
pub proof fn lemma_ref_order(a: TableRefView, b: TableRefView, c: TableRefView)
    ensures
        !ref_lt(a, a),
        ref_lt(a, b) && ref_lt(b, c) ==> ref_lt(a, c),
        ref_lt(a, b) || ref_lt(b, a) || a == b,
        ref_lt(a, b) ==> !ref_lt(b, a),
{
    lemma_selection_order(a.node, b.node, c.node);
    lemma_selection_order(a.module, b.module, c.module);
    lemma_selection_order(a.node, a.node, a.node);
    lemma_selection_order(a.module, a.module, a.module);
    lemma_chars_lt_irreflexive(a.table);
    if ref_lt(a, b) && ref_lt(b, c) {
        if a.node == b.node && b.node == c.node && a.module == b.module && b.module == c.module {
            lemma_chars_lt_transitive(a.table, b.table, c.table);
        }
    }
    lemma_chars_lt_total(a.table, b.table);
    if chars_lt(a.table, b.table) {
        lemma_chars_lt_asymmetric(a.table, b.table);
    }
}

fn compare_selections(a: Option<&String>, b: Option<&String>) -> (o: KeyOrder)
    ensures
        ({
            let av = match a { Some(s) => SelectionView::Other(s@), None => SelectionView::Current };
            let bv = match b { Some(s) => SelectionView::Other(s@), None => SelectionView::Current };
            o == if selection_lt(av, bv) {
                KeyOrder::Less
            } else if av == bv {
                KeyOrder::Equal
            } else {
                KeyOrder::Greater
            }
        }),
{
    match (a, b) {
        (None, None) => KeyOrder::Equal,
        (None, Some(_)) => KeyOrder::Less,
        (Some(_), None) => KeyOrder::Greater,
        (Some(x), Some(y)) => compare_strings(x.as_str(), y.as_str()),
    }
}

fn node_name(s: &NodeSelection) -> (r: Option<&String>)
    ensures
        s@ == match r { Some(x) => SelectionView::Other(x@), None => SelectionView::Current },
{
    match s {
        NodeSelection::Current => None,
        NodeSelection::Other(x) => Some(x),
    }
}

fn module_name(s: &ModuleSelection) -> (r: Option<&String>)
    ensures
        s@ == match r { Some(x) => SelectionView::Other(x@), None => SelectionView::Current },
{
    match s {
        ModuleSelection::Current => None,
        ModuleSelection::Other(x) => Some(x),
    }
}

/// Compare two table references in the order accesses are sorted by.
pub fn compare_table_refs(a: &ReducerTableRef, b: &ReducerTableRef) -> (o: KeyOrder)
    ensures
        o == if ref_lt(a@, b@) {
            KeyOrder::Less
        } else if a@ == b@ {
            KeyOrder::Equal
        } else {
            KeyOrder::Greater
        },
{
    proof {
        lemma_ref_order(a@, b@, a@);
    }
    match compare_selections(node_name(&a.node_selection), node_name(&b.node_selection)) {
        KeyOrder::Less => KeyOrder::Less,
        KeyOrder::Greater => KeyOrder::Greater,
        KeyOrder::Equal => match compare_selections(module_name(&a.module_selection), module_name(&b.module_selection)) {
            KeyOrder::Less => KeyOrder::Less,
            KeyOrder::Greater => KeyOrder::Greater,
            KeyOrder::Equal => compare_strings(a.table_name.as_str(), b.table_name.as_str()),
        },
    }
}

impl NodeSelection {
    pub fn duplicate(&self) -> (r: NodeSelection)
        ensures
            r@ == self@,
    {
        match self {
            NodeSelection::Current => NodeSelection::Current,
            NodeSelection::Other(s) => NodeSelection::Other(s.clone()),
        }
    }
}

impl ModuleSelection {
    pub fn duplicate(&self) -> (r: ModuleSelection)
        ensures
            r@ == self@,
    {
        match self {
            ModuleSelection::Current => ModuleSelection::Current,
            ModuleSelection::Other(s) => ModuleSelection::Other(s.clone()),
        }
    }
}

impl ReducerTableRef {
    pub fn duplicate(&self) -> (r: ReducerTableRef)
        ensures
            r@ == self@,
    {
        ReducerTableRef {
            node_selection: self.node_selection.duplicate(),
            module_selection: self.module_selection.duplicate(),
            table_name: self.table_name.clone(),
        }
    }
}

impl TableAccess {
    pub fn duplicate(&self) -> (r: TableAccess)
        ensures
            r@ == self@,
    {
        TableAccess { table_ref: self.table_ref.duplicate(), op: self.op }
    }
}

/// A copy of a list of accesses.
pub fn duplicate_accesses(v: &Vec<TableAccess>) -> (r: Vec<TableAccess>)
    ensures
        access_views(r@) == access_views(v@),
{
    let mut r: Vec<TableAccess> = Vec::new();
    let mut i: usize = 0;
    while i < v.len()
        invariant
            i <= v@.len(),
            r@.len() == i,
            forall|j: int| 0 <= j < i ==> (#[trigger] r@[j])@ == v@[j]@,
        decreases v.len() - i,
    {
        r.push(v[i].duplicate());
        i = i + 1;
    }
    assert(access_views(r@) =~= access_views(v@));
    r
}


/// The end of the run of accesses to `tr` that starts at `start`.
fn scan_same_table(slice: &[TableAccess], start: usize, tr: &ReducerTableRef) -> (k: usize)
    requires
        start <= slice@.len(),
    ensures
        start <= k <= slice@.len(),
        forall|q: int| start <= q < k ==> (#[trigger] slice@[q])@.table == tr@,
        k < slice@.len() ==> slice@[k as int]@.table != tr@,
{
    let mut k = start;
    while k < slice.len()
        invariant
            start <= k <= slice@.len(),
            forall|q: int| start <= q < k ==> (#[trigger] slice@[q])@.table == tr@,
        decreases slice.len() - k,
    {
        match compare_table_refs(&slice[k].table_ref, tr) {
            KeyOrder::Equal => {},
            _ => {
                proof {
                    lemma_ref_order(tr@, tr@, tr@);
                }
                return k;
            },
        }
        k = k + 1;
    }
    k
}

/// In sorted accesses, an access to a table before `t` stays before every
/// later access, so none of them is to the same table.
proof fn lemma_sorted_after(s: Seq<AccessView>, p: int, t: TableRefView)
    requires
        accesses_sorted(s),
        0 <= p < s.len(),
        ref_lt(t, s[p].table),
    ensures
        forall|q: int| p <= q < s.len() ==> #[trigger] s[q].table != t,
{
    assert forall|q: int| p <= q < s.len() implies #[trigger] s[q].table != t by {
        lemma_ref_order(t, s[p].table, s[q].table);
        lemma_ref_order(t, t, t);
        if q > p {
            assert(access_le(s[p], s[q]));
        }
    }
}

/// Whether two sorted lists of accesses conflict, by one merge-like pass
/// over both.
pub fn conflicts_sorted(a: &[TableAccess], b: &[TableAccess]) -> (r: bool)
    requires
        accesses_sorted(access_views(a@)),
        accesses_sorted(access_views(b@)),
    ensures
        r == accesses_conflict(access_views(a@), access_views(b@)),
{
    let ghost av = access_views(a@);
    let ghost bv = access_views(b@);
    let mut i: usize = 0;
    let mut j: usize = 0;
    while i < a.len() && j < b.len()
        invariant
            i <= a@.len(),
            j <= b@.len(),
            av == access_views(a@),
            bv == access_views(b@),
            accesses_sorted(av),
            accesses_sorted(bv),
            forall|x: int, y: int|
                0 <= x < i && 0 <= y < bv.len() && (#[trigger] av[x]).table == (#[trigger] bv[y]).table ==> !ops_conflict(
                    av[x].op,
                    bv[y].op,
                ),
            forall|x: int, y: int|
                0 <= x < av.len() && 0 <= y < j && (#[trigger] av[x]).table == (#[trigger] bv[y]).table ==> !ops_conflict(
                    av[x].op,
                    bv[y].op,
                ),
        decreases a.len() - i + b.len() - j,
    {
        proof {
            assert(av[i as int] == a@[i as int]@);
            assert(bv[j as int] == b@[j as int]@);
        }
        match compare_table_refs(&a[i].table_ref, &b[j].table_ref) {
            KeyOrder::Less => {
                proof {
                    lemma_sorted_after(bv, j as int, av[i as int].table);
                }
                i = i + 1;
            },
            KeyOrder::Greater => {
                proof {
                    lemma_ref_order(av[i as int].table, bv[j as int].table, av[i as int].table);
                    lemma_sorted_after(av, i as int, bv[j as int].table);
                }
                j = j + 1;
            },
            KeyOrder::Equal => {
                let tr = &a[i].table_ref;
                let i1 = scan_same_table(a, i, tr);
                let j1 = scan_same_table(b, j, tr);
                let ghost t = tr@;
                proof {
                    assert forall|q: int| i <= q < i1 implies (#[trigger] av[q]).table == t by {
                        assert(av[q] == a@[q]@);
                    }
                    assert forall|q: int| j <= q < j1 implies (#[trigger] bv[q]).table == t by {
                        assert(bv[q] == b@[q]@);
                    }
                    if i1 < a@.len() {
                        assert(av[i1 as int] == a@[i1 as int]@);
                        assert(access_le(av[i as int], av[i1 as int]));
                        lemma_sorted_after(av, i1 as int, t);
                    }
                    if j1 < b@.len() {
                        assert(bv[j1 as int] == b@[j1 as int]@);
                        assert(access_le(bv[j as int], bv[j1 as int]));
                        lemma_sorted_after(bv, j1 as int, t);
                    }
                }
                let mut x = i;
                while x < i1
                    invariant
                        i <= x <= i1,
                        i1 <= a@.len(),
                        j <= j1 <= b@.len(),
                        av == access_views(a@),
                        bv == access_views(b@),
                        forall|q: int| i <= q < i1 ==> (#[trigger] av[q]).table == t,
                        forall|q: int| j <= q < j1 ==> (#[trigger] bv[q]).table == t,
                        forall|p: int, q: int| i <= p < x && j <= q < j1 ==> !ops_conflict(
                            (#[trigger] av[p]).op,
                            (#[trigger] bv[q]).op,
                        ),
                    decreases i1 - x,
                {
                    let mut y = j;
                    while y < j1
                        invariant
                            i <= x < i1,
                            i1 <= a@.len(),
                            j <= y <= j1,
                            j1 <= b@.len(),
                            av == access_views(a@),
                            bv == access_views(b@),
                            forall|q: int| i <= q < i1 ==> (#[trigger] av[q]).table == t,
                            forall|q: int| j <= q < j1 ==> (#[trigger] bv[q]).table == t,
                            forall|p: int, q: int| i <= p < x && j <= q < j1 ==> !ops_conflict(
                                (#[trigger] av[p]).op,
                                (#[trigger] bv[q]).op,
                            ),
                            forall|q: int| j <= q < y ==> !ops_conflict(av[x as int].op, (#[trigger] bv[q]).op),
                        decreases j1 - y,
                    {
                        proof {
                            assert(av[x as int] == a@[x as int]@);
                            assert(bv[y as int] == b@[y as int]@);
                        }
                        if op_conflicts(a[x].op, b[y].op) {
                            proof {
                                assert(av[x as int].table == bv[y as int].table);
                            }
                            return true;
                        }
                        y = y + 1;
                    }
                    x = x + 1;
                }
                i = i1;
                j = j1;
            },
        }
    }
    false
}

/// Whether `a` comes before `b` in the order accesses are sorted by.
fn access_le_exec(a: &TableAccess, b: &TableAccess) -> (r: bool)
    ensures
        r == access_le(a@, b@),
{
    match compare_table_refs(&a.table_ref, &b.table_ref) {
        KeyOrder::Less => true,
        KeyOrder::Greater => false,
        KeyOrder::Equal => op_rank_of(a.op) <= op_rank_of(b.op),
    }
}

proof fn lemma_access_order(a: AccessView, b: AccessView, c: AccessView)
    ensures
        access_le(a, a),
        access_le(a, b) && access_le(b, c) ==> access_le(a, c),
        access_le(a, b) || access_le(b, a),
{
    lemma_ref_order(a.table, b.table, c.table);
    lemma_ref_order(a.table, a.table, a.table);
    lemma_ref_order(b.table, c.table, a.table);
    lemma_ref_order(c.table, a.table, b.table);
}

/// Sort accesses by table, and by operation within a table.
pub fn sort_table_accesses(accesses: &mut Vec<TableAccess>)
    ensures
        accesses_sorted(access_views(final(accesses)@)),
        access_views(final(accesses)@).to_multiset() == access_views(old(accesses)@).to_multiset(),
{
    let mut src: Vec<TableAccess> = Vec::new();
    std::mem::swap(&mut src, accesses);
    let ghost orig = access_views(src@);
    let mut out: Vec<TableAccess> = Vec::new();
    while src.len() > 0
        invariant
            accesses_sorted(access_views(out@)),
            access_views(out@).to_multiset().add(access_views(src@).to_multiset()) == orig.to_multiset(),
        decreases src@.len(),
    {
        let ghost before = src@;
        let x = src.pop().unwrap();
        proof {
            assert(before == src@.push(x));
            assert(access_views(before) == access_views(src@).push(x@));
        }
        let ghost ov = access_views(out@);
        let mut p: usize = 0;
        while p < out.len() && access_le_exec(&out[p], &x)
            invariant
                p <= out@.len(),
                ov == access_views(out@),
                forall|q: int| 0 <= q < p ==> access_le(#[trigger] ov[q], x@),
            decreases out.len() - p,
        {
            proof {
                assert(ov[p as int] == out@[p as int]@);
            }
            p = p + 1;
        }
        proof {
            if p < out@.len() {
                assert(ov[p as int] == out@[p as int]@);
                assert(!access_le(ov[p as int], x@));
            }
        }
        out.insert(p, x);
        proof {
            let nv = access_views(out@);
            assert(nv =~= ov.insert(p as int, x@));
            assert forall|i: int, j: int| 0 <= i < j < nv.len() implies access_le(#[trigger] nv[i], #[trigger] nv[j]) by {
                if j < p {
                } else if j == p {
                    assert(access_le(ov[i], x@));
                } else if i < p {
                    lemma_access_order(ov[i], x@, ov[j - 1]);
                    lemma_access_order(x@, ov[p as int], ov[j - 1]);
                    if j - 1 > p {
                        assert(access_le(ov[p as int], ov[j - 1]));
                    }
                    lemma_access_order(ov[p as int], x@, x@);
                } else if i == p {
                    lemma_access_order(ov[p as int], x@, x@);
                    if j - 1 > p {
                        assert(access_le(ov[p as int], ov[j - 1]));
                        lemma_access_order(x@, ov[p as int], ov[j - 1]);
                    }
                } else {
                    assert(access_le(ov[i - 1], ov[j - 1]));
                }
            }
        }
    }
    proof {
        assert(access_views(src@) =~= Seq::<AccessView>::empty());
    }
    *accesses = out;
}


/// A job handed to the scheduler: its id, what it carries and the tables
/// it touches.
#[derive(Debug, Clone)]
pub struct ScheduledJob<T> {
    pub id: u64,
    pub payload: T,
    pub accesses: Vec<TableAccess>,
}

pub struct JobView<T> {
    pub id: u64,
    pub payload: T,
    pub accesses: Seq<AccessView>,
}

impl<T> View for ScheduledJob<T> {
    type V = JobView<T>;

    open spec fn view(&self) -> JobView<T> {
        JobView { id: self.id, payload: self.payload, accesses: access_views(self.accesses@) }
    }
}

/// A running job: its id and the tables it touches.
pub type RunningView = (u64, Seq<AccessView>);

pub open spec fn running_view(v: Seq<(u64, Vec<TableAccess>)>) -> Seq<RunningView> {
    v.map_values(|e: (u64, Vec<TableAccess>)| (e.0, access_views(e.1@)))
}

pub open spec fn jobs_view<T>(v: Seq<ScheduledJob<T>>) -> Seq<JobView<T>> {
    v.map_values(|j: ScheduledJob<T>| j@)
}

pub open spec fn running_accesses(r: Seq<RunningView>) -> Seq<Seq<AccessView>> {
    r.map_values(|e: RunningView| e.1)
}

pub open spec fn waiting_accesses<T>(w: Seq<JobView<T>>) -> Seq<Seq<AccessView>> {
    w.map_values(|j: JobView<T>| j.accesses)
}

/// `acc` conflicts with one of `others`.
pub open spec fn conflicts_with_any(acc: Seq<AccessView>, others: Seq<Seq<AccessView>>) -> bool {
    exists|k: int| 0 <= k < others.len() && accesses_conflict(acc, #[trigger] others[k])
}

/// Each list of accesses is sorted.
pub open spec fn all_sorted(s: Seq<Seq<AccessView>>) -> bool {
    forall|k: int| 0 <= k < s.len() ==> accesses_sorted(#[trigger] s[k])
}

/// No two running jobs conflict.
pub open spec fn running_compatible(r: Seq<RunningView>) -> bool {
    forall|a: int, b: int|
        0 <= a < r.len() && 0 <= b < r.len() && a != b ==> !accesses_conflict(#[trigger] r[a].1, #[trigger] r[b].1)
}

/// Every waiting job conflicts with a running job or with a job waiting
/// ahead of it.
pub open spec fn waiting_blocked<T>(r: Seq<RunningView>, w: Seq<JobView<T>>) -> bool {
    forall|k: int|
        0 <= k < w.len() ==> conflicts_with_any((#[trigger] w[k]).accesses, running_accesses(r))
            || conflicts_with_any(w[k].accesses, waiting_accesses(w.take(k)))
}

/// What a pass over the waiting jobs has done so far: the running jobs,
/// the jobs started, and the jobs left waiting.
pub struct PromoteState<T> {
    pub running: Seq<RunningView>,
    pub promoted: Seq<JobView<T>>,
    pub kept: Seq<JobView<T>>,
}

/// The first `n` waiting jobs, in order, each start unless they conflict
/// with a running job (those started in this pass included) or with a
/// job kept waiting before them.
pub open spec fn promote_steps<T>(running: Seq<RunningView>, waiting: Seq<JobView<T>>, n: int) -> PromoteState<T>
    decreases n,
{
    if n <= 0 {
        PromoteState { running, promoted: Seq::empty(), kept: Seq::empty() }
    } else {
        let st = promote_steps(running, waiting, n - 1);
        let job = waiting[n - 1];
        if conflicts_with_any(job.accesses, running_accesses(st.running)) || conflicts_with_any(
            job.accesses,
            waiting_accesses(st.kept),
        ) {
            PromoteState { kept: st.kept.push(job), ..st }
        } else {
            PromoteState {
                running: st.running.push((job.id, job.accesses)),
                promoted: st.promoted.push(job),
                kept: st.kept,
            }
        }
    }
}

/// The first running job with id `id` at or after `k`.
pub open spec fn running_position(r: Seq<RunningView>, id: u64, k: int) -> Option<int>
    decreases r.len() - k,
{
    if k < 0 || k >= r.len() {
        None
    } else if r[k].0 == id {
        Some(k)
    } else {
        running_position(r, id, k + 1)
    }
}

/// The running jobs once the first one with id `id` is gone.
pub open spec fn without_running(r: Seq<RunningView>, id: u64) -> Seq<RunningView> {
    match running_position(r, id, 0) {
        Some(p) => r.remove(p),
        None => r,
    }
}

/// Conflict is symmetric.
pub proof fn lemma_conflict_symmetric(a: Seq<AccessView>, b: Seq<AccessView>)
    ensures
        accesses_conflict(a, b) == accesses_conflict(b, a),
{
    if accesses_conflict(a, b) {
        let (x, y) = choose|x: int, y: int|
            0 <= x < a.len() && 0 <= y < b.len() && (#[trigger] a[x]).table == (#[trigger] b[y]).table && ops_conflict(
                a[x].op,
                b[y].op,
            );
        assert(b[y].table == a[x].table && ops_conflict(b[y].op, a[x].op));
    }
    if accesses_conflict(b, a) {
        let (x, y) = choose|x: int, y: int|
            0 <= x < b.len() && 0 <= y < a.len() && (#[trigger] b[x]).table == (#[trigger] a[y]).table && ops_conflict(
                b[x].op,
                a[y].op,
            );
        assert(a[y].table == b[x].table && ops_conflict(a[y].op, b[x].op));
    }
}

proof fn lemma_conflicts_grow(acc: Seq<AccessView>, r: Seq<RunningView>, e: RunningView)
    requires
        conflicts_with_any(acc, running_accesses(r)),
    ensures
        conflicts_with_any(acc, running_accesses(r.push(e))),
{
    let k = choose|k: int| 0 <= k < running_accesses(r).len() && accesses_conflict(acc, #[trigger] running_accesses(r)[k]);
    assert(running_accesses(r.push(e))[k] == running_accesses(r)[k]);
}

/// Adding a running job that conflicts with none keeps the running jobs
/// compatible and the waiting jobs blocked.
proof fn lemma_start_job<T>(r: Seq<RunningView>, w: Seq<JobView<T>>, e: RunningView)
    requires
        running_compatible(r),
        waiting_blocked(r, w),
        !conflicts_with_any(e.1, running_accesses(r)),
    ensures
        running_compatible(r.push(e)),
        waiting_blocked(r.push(e), w),
{
    let r2 = r.push(e);
    assert forall|a: int, b: int|
        0 <= a < r2.len() && 0 <= b < r2.len() && a != b implies !accesses_conflict(#[trigger] r2[a].1, #[trigger] r2[b].1) by {
        if a == r.len() {
            assert(running_accesses(r)[b] == r[b].1);
        } else if b == r.len() {
            assert(running_accesses(r)[a] == r[a].1);
            lemma_conflict_symmetric(r2[a].1, r2[b].1);
        } else {
            assert(r2[a] == r[a] && r2[b] == r[b]);
        }
    }
    assert forall|k: int| 0 <= k < w.len() implies conflicts_with_any((#[trigger] w[k]).accesses, running_accesses(r2))
        || conflicts_with_any(w[k].accesses, waiting_accesses(w.take(k))) by {
        if conflicts_with_any(w[k].accesses, running_accesses(r)) {
            lemma_conflicts_grow(w[k].accesses, r, e);
        }
    }
}

/// Adding a job at the end of the queue that conflicts with a running job
/// or a waiting one keeps every waiting job blocked.
proof fn lemma_queue_job<T>(r: Seq<RunningView>, w: Seq<JobView<T>>, j: JobView<T>)
    requires
        waiting_blocked(r, w),
        conflicts_with_any(j.accesses, running_accesses(r)) || conflicts_with_any(j.accesses, waiting_accesses(w)),
    ensures
        waiting_blocked(r, w.push(j)),
{
    let w2 = w.push(j);
    assert forall|k: int| 0 <= k < w2.len() implies conflicts_with_any((#[trigger] w2[k]).accesses, running_accesses(r))
        || conflicts_with_any(w2[k].accesses, waiting_accesses(w2.take(k))) by {
        if k < w.len() {
            assert(w2.take(k) =~= w.take(k));
            assert(w2[k] == w[k]);
        } else {
            assert(w2.take(k) =~= w);
        }
    }
}

/// A pass over the waiting jobs keeps the running jobs compatible, leaves

/// A pass over the waiting jobs starts a job only if, when its turn came,
/// it conflicted neither with a running job nor with a job still waiting
/// ahead of it: no job overtakes an earlier one it conflicts with.
pub proof fn lemma_no_overtaking<T>(running: Seq<RunningView>, waiting: Seq<JobView<T>>, n: int)
    requires
        0 <= n <= waiting.len(),
    ensures
        forall|i: int|
            #![trigger promote_steps(running, waiting, n).promoted[i]]
            0 <= i < promote_steps(running, waiting, n).promoted.len() ==> exists|j: int|
                0 <= j < n && promote_steps(running, waiting, n).promoted[i] == waiting[j] && !conflicts_with_any(
                    waiting[j].accesses,
                    waiting_accesses(#[trigger] promote_steps(running, waiting, j).kept),
                ) && !conflicts_with_any(waiting[j].accesses, running_accesses(promote_steps(running, waiting, j).running)),
    decreases n,
{
    if n > 0 {
        lemma_no_overtaking(running, waiting, n - 1);
        let st = promote_steps(running, waiting, n - 1);
        let st2 = promote_steps(running, waiting, n);
        assert forall|i: int| #![trigger st2.promoted[i]] 0 <= i < st2.promoted.len() implies exists|j: int|
            0 <= j < n && st2.promoted[i] == waiting[j] && !conflicts_with_any(
                waiting[j].accesses,
                waiting_accesses(#[trigger] promote_steps(running, waiting, j).kept),
            ) && !conflicts_with_any(waiting[j].accesses, running_accesses(promote_steps(running, waiting, j).running)) by {
            if i < st.promoted.len() {
                assert(st2.promoted[i] == st.promoted[i]);
                let j = choose|j: int|
                    0 <= j < n - 1 && st.promoted[i] == waiting[j] && !conflicts_with_any(
                        waiting[j].accesses,
                        waiting_accesses(#[trigger] promote_steps(running, waiting, j).kept),
                    ) && !conflicts_with_any(
                        waiting[j].accesses,
                        running_accesses(promote_steps(running, waiting, j).running),
                    );
                assert(0 <= j < n);
            } else {
                assert(st2.promoted[i] == waiting[n - 1]);
                assert(promote_steps(running, waiting, n - 1) == st);
            }
        }
    }
}

/// every job it keeps blocked, and only adds running jobs.
pub proof fn lemma_promote<T>(running: Seq<RunningView>, waiting: Seq<JobView<T>>, n: int)
    requires
        0 <= n <= waiting.len(),
        running_compatible(running),
        all_sorted(running_accesses(running)),
        all_sorted(waiting_accesses(waiting)),
    ensures
        ({
            let st = promote_steps(running, waiting, n);
            &&& running_compatible(st.running)
            &&& waiting_blocked(st.running, st.kept)
            &&& all_sorted(running_accesses(st.running))
            &&& all_sorted(waiting_accesses(st.kept))
            &&& st.running.len() >= running.len()
            &&& st.running.subrange(0, running.len() as int) == running
        }),
    decreases n,
{
    if n > 0 {
        lemma_promote(running, waiting, n - 1);
        let st = promote_steps(running, waiting, n - 1);
        let job = waiting[n - 1];
        assert(waiting_accesses(waiting)[n - 1] == job.accesses);
        if conflicts_with_any(job.accesses, running_accesses(st.running)) || conflicts_with_any(
            job.accesses,
            waiting_accesses(st.kept),
        ) {
            lemma_queue_job(st.running, st.kept, job);
            let k2 = st.kept.push(job);
            assert forall|k: int| 0 <= k < waiting_accesses(k2).len() implies accesses_sorted(
                #[trigger] waiting_accesses(k2)[k],
            ) by {
                if k < st.kept.len() {
                    assert(waiting_accesses(k2)[k] == waiting_accesses(st.kept)[k]);
                }
            }
        } else {
            let e = (job.id, job.accesses);
            lemma_start_job(st.running, st.kept, e);
            let r2 = st.running.push(e);
            assert forall|k: int| 0 <= k < running_accesses(r2).len() implies accesses_sorted(
                #[trigger] running_accesses(r2)[k],
            ) by {
                if k < st.running.len() {
                    assert(running_accesses(r2)[k] == running_accesses(st.running)[k]);
                }
            }
            assert(r2.subrange(0, running.len() as int) =~= st.running.subrange(0, running.len() as int));
        }
    }
}

/// A job waits only while some job runs: in a scheduler whose waiting
/// jobs are each held back by a running job or a job ahead of them, the
/// first waiting job is held back by a running one.
pub proof fn lemma_waiting_needs_running<T>(r: Seq<RunningView>, w: Seq<JobView<T>>)
    requires
        waiting_blocked(r, w),
        w.len() > 0,
    ensures
        r.len() > 0,
        conflicts_with_any(w[0].accesses, running_accesses(r)),
{
    assert(waiting_accesses(w.take(0)).len() == 0);
    assert(conflicts_with_any(w[0].accesses, running_accesses(r)) || conflicts_with_any(
        w[0].accesses,
        waiting_accesses(w.take(0)),
    ));
}

/// When no job runs and some wait, a pass over the waiting jobs starts at
/// least the first of them: the queue never stalls.
pub proof fn lemma_promote_progress<T>(waiting: Seq<JobView<T>>)
    requires
        waiting.len() > 0,
    ensures
        promote_steps(Seq::<RunningView>::empty(), waiting, waiting.len() as int).promoted.len() > 0,
        promote_steps(Seq::<RunningView>::empty(), waiting, waiting.len() as int).promoted[0] == waiting[0],
{
    let e = Seq::<RunningView>::empty();
    let st0 = promote_steps(e, waiting, 0);
    assert(running_accesses(st0.running).len() == 0);
    assert(waiting_accesses(st0.kept).len() == 0);
    let st1 = promote_steps(e, waiting, 1);
    assert(st1.promoted == seq![waiting[0]]);
    lemma_promoted_prefix(e, waiting, 1, waiting.len() as int);
}

proof fn lemma_promoted_prefix<T>(running: Seq<RunningView>, waiting: Seq<JobView<T>>, a: int, b: int)
    requires
        0 <= a <= b,
    ensures
        promote_steps(running, waiting, a).promoted.len() <= promote_steps(running, waiting, b).promoted.len(),
        forall|i: int|
            0 <= i < promote_steps(running, waiting, a).promoted.len() ==> #[trigger] promote_steps(
                running,
                waiting,
                b,
            ).promoted[i] == promote_steps(running, waiting, a).promoted[i],
    decreases b - a,
{
    if a < b {
        lemma_promoted_prefix(running, waiting, a, b - 1);
    }
}

/// Removing a running job keeps the others compatible and sorted.
proof fn lemma_remove_running(r: Seq<RunningView>, p: int)
    requires
        0 <= p < r.len(),
        running_compatible(r),
        all_sorted(running_accesses(r)),
    ensures
        running_compatible(r.remove(p)),
        all_sorted(running_accesses(r.remove(p))),
{
    let r2 = r.remove(p);
    assert forall|a: int, b: int|
        0 <= a < r2.len() && 0 <= b < r2.len() && a != b implies !accesses_conflict(#[trigger] r2[a].1, #[trigger] r2[b].1) by {
        let oa = if a < p { a } else { a + 1 };
        let ob = if b < p { b } else { b + 1 };
        assert(r2[a] == r[oa] && r2[b] == r[ob]);
    }
    assert forall|k: int| 0 <= k < running_accesses(r2).len() implies accesses_sorted(
        #[trigger] running_accesses(r2)[k],
    ) by {
        let ok = if k < p { k } else { k + 1 };
        assert(running_accesses(r2)[k] == running_accesses(r)[ok]);
    }
}


/// Whether `acc` conflicts with one of the running jobs.
fn conflicts_with_running(acc: &[TableAccess], running: &Vec<(u64, Vec<TableAccess>)>) -> (r: bool)
    requires
        accesses_sorted(access_views(acc@)),
        all_sorted(running_accesses(running_view(running@))),
    ensures
        r == conflicts_with_any(access_views(acc@), running_accesses(running_view(running@))),
{
    let ghost ra = running_accesses(running_view(running@));
    let mut k: usize = 0;
    while k < running.len()
        invariant
            k <= running@.len(),
            ra == running_accesses(running_view(running@)),
            accesses_sorted(access_views(acc@)),
            all_sorted(ra),
            forall|q: int| 0 <= q < k ==> !accesses_conflict(access_views(acc@), #[trigger] ra[q]),
        decreases running.len() - k,
    {
        proof {
            assert(ra[k as int] == access_views(running@[k as int].1@));
        }
        if conflicts_sorted(acc, running[k].1.as_slice()) {
            return true;
        }
        k = k + 1;
    }
    false
}

/// Whether `acc` conflicts with one of `jobs`.
fn conflicts_with_jobs<T>(acc: &[TableAccess], jobs: &Vec<ScheduledJob<T>>) -> (r: bool)
    requires
        accesses_sorted(access_views(acc@)),
        all_sorted(waiting_accesses(jobs_view(jobs@))),
    ensures
        r == conflicts_with_any(access_views(acc@), waiting_accesses(jobs_view(jobs@))),
{
    let ghost wa = waiting_accesses(jobs_view(jobs@));
    let mut k: usize = 0;
    while k < jobs.len()
        invariant
            k <= jobs@.len(),
            wa == waiting_accesses(jobs_view(jobs@)),
            accesses_sorted(access_views(acc@)),
            all_sorted(wa),
            forall|q: int| 0 <= q < k ==> !accesses_conflict(access_views(acc@), #[trigger] wa[q]),
        decreases jobs.len() - k,
    {
        proof {
            assert(wa[k as int] == access_views(jobs@[k as int].accesses@));
        }
        if conflicts_sorted(acc, jobs[k].accesses.as_slice()) {
            return true;
        }
        k = k + 1;
    }
    false
}

/// Runs jobs whose table accesses do not conflict side by side, and holds
/// the others back in arrival order.
pub struct ReducerScheduler<T> {
    next_id: u64,
    running: Vec<(u64, Vec<TableAccess>)>,
    waiting: Vec<ScheduledJob<T>>,
}

impl<T> ReducerScheduler<T> {
    /// The id the next job gets.
    pub closed spec fn next_id(&self) -> u64 {
        self.next_id
    }

    /// The running jobs, in the order they started.
    pub closed spec fn running(&self) -> Seq<RunningView> {
        running_view(self.running@)
    }

    /// The waiting jobs, in arrival order.
    pub closed spec fn waiting(&self) -> Seq<JobView<T>> {
        jobs_view(self.waiting@)
    }

    /// Every list of accesses is sorted, no two running jobs conflict, and
    /// every waiting job is held back by a running job or by a job waiting
    /// ahead of it.
    pub open spec fn wf(&self) -> bool {
        &&& all_sorted(running_accesses(self.running()))
        &&& all_sorted(waiting_accesses(self.waiting()))
        &&& running_compatible(self.running())
        &&& waiting_blocked(self.running(), self.waiting())
    }

    /// A scheduler with nothing running and nothing waiting.
    pub fn new() -> (s: Self)
        ensures
            s.wf(),
            s.next_id() == 0,
            s.running() == Seq::<RunningView>::empty(),
            s.waiting() == Seq::<JobView<T>>::empty(),
    {
        let s = ReducerScheduler { next_id: 0, running: Vec::new(), waiting: Vec::new() };
        proof {
            assert(s.running() =~= Seq::<RunningView>::empty());
            assert(s.waiting() =~= Seq::<JobView<T>>::empty());
        }
        s
    }

    /// Hand a job to the scheduler. It gets the next id and starts at once,
    /// and is returned, unless it conflicts with a running or a waiting
    /// job; then it waits.
    pub fn enqueue(&mut self, payload: T, accesses: Vec<TableAccess>) -> (r: Option<ScheduledJob<T>>)
        requires
            old(self).wf(),
            accesses_sorted(access_views(accesses@)),
        ensures
            final(self).wf(),
            final(self).next_id() == (if old(self).next_id() == u64::MAX {
                u64::MAX
            } else {
                (old(self).next_id() + 1) as u64
            }),
            ({
                let job = JobView { id: old(self).next_id(), payload: payload, accesses: access_views(accesses@) };
                if !conflicts_with_any(job.accesses, running_accesses(old(self).running())) && !conflicts_with_any(
                    job.accesses,
                    waiting_accesses(old(self).waiting()),
                ) {
                    &&& r matches Some(j) && j@ == job
                    &&& final(self).running() == old(self).running().push((job.id, job.accesses))
                    &&& final(self).waiting() == old(self).waiting()
                } else {
                    &&& r is None
                    &&& final(self).running() == old(self).running()
                    &&& final(self).waiting() == old(self).waiting().push(job)
                }
            }),
    {
        let id = self.next_id;
        self.next_id = self.next_id.saturating_add(1);
        let job = ScheduledJob { id, payload, accesses };
        let ghost jv = job@;
        if self.can_run_now(&job) {
            let acc = duplicate_accesses(&job.accesses);
            let ghost r0 = self.running();
            self.running.push((job.id, acc));
            proof {
                assert(self.running() =~= r0.push((jv.id, jv.accesses)));
                lemma_start_job(r0, self.waiting(), (jv.id, jv.accesses));
                let ra = running_accesses(self.running());
                assert forall|k: int| 0 <= k < ra.len() implies accesses_sorted(#[trigger] ra[k]) by {
                    if k < r0.len() {
                        assert(ra[k] == running_accesses(r0)[k]);
                    }
                }
            }
            Some(job)
        } else {
            let ghost w0 = self.waiting();
            self.waiting.push(job);
            proof {
                assert(self.waiting() =~= w0.push(jv));
                lemma_queue_job(self.running(), w0, jv);
                let wa = waiting_accesses(self.waiting());
                assert forall|k: int| 0 <= k < wa.len() implies accesses_sorted(#[trigger] wa[k]) by {
                    if k < w0.len() {
                        assert(wa[k] == waiting_accesses(w0)[k]);
                    }
                }
            }
            None
        }
    }

    /// Mark the running job `completed_id` as done, then start, in arrival
    /// order, each waiting job that now conflicts neither with a running
    /// job nor with a job still waiting ahead of it. Returns the jobs
    /// started.
    pub fn complete(&mut self, completed_id: u64) -> (promoted: Vec<ScheduledJob<T>>)
        requires
            old(self).wf(),
        ensures
            final(self).wf(),
            final(self).next_id() == old(self).next_id(),
            ({
                let st = promote_steps(
                    without_running(old(self).running(), completed_id),
                    old(self).waiting(),
                    old(self).waiting().len() as int,
                );
                &&& final(self).running() == st.running
                &&& final(self).waiting() == st.kept
                &&& jobs_view(promoted@) == st.promoted
            }),
    {
        let ghost r0 = self.running();
        let mut idx: usize = 0;
        while idx < self.running.len()
            invariant
                idx <= self.running@.len(),
                r0 == self.running(),
                running_position(r0, completed_id, 0) == running_position(r0, completed_id, idx as int),
            ensures
                idx <= self.running@.len(),
                r0 == self.running(),
                running_position(r0, completed_id, 0) == running_position(r0, completed_id, idx as int),
                idx < self.running@.len() ==> self.running@[idx as int].0 == completed_id,
            decreases self.running.len() - idx,
        {
            if self.running[idx].0 == completed_id {
                break;
            }
            idx = idx + 1;
        }
        if idx < self.running.len() {
            self.running.remove(idx);
            proof {
                assert(r0[idx as int].0 == completed_id);
                assert(self.running() =~= r0.remove(idx as int));
                lemma_remove_running(r0, idx as int);
            }
        }
        self.promote_waiting()
    }

    fn can_run_now(&self, job: &ScheduledJob<T>) -> (r: bool)
        requires
            self.wf(),
            accesses_sorted(job@.accesses),
        ensures
            r == (!conflicts_with_any(job@.accesses, running_accesses(self.running())) && !conflicts_with_any(
                job@.accesses,
                waiting_accesses(self.waiting()),
            )),
    {
        if conflicts_with_running(job.accesses.as_slice(), &self.running) {
            return false;
        }
        if conflicts_with_jobs(job.accesses.as_slice(), &self.waiting) {
            return false;
        }
        true
    }

    fn promote_waiting(&mut self) -> (promoted: Vec<ScheduledJob<T>>)
        requires
            all_sorted(running_accesses(old(self).running())),
            all_sorted(waiting_accesses(old(self).waiting())),
            running_compatible(old(self).running()),
        ensures
            final(self).wf(),
            final(self).next_id() == old(self).next_id(),
            ({
                let st = promote_steps(old(self).running(), old(self).waiting(), old(self).waiting().len() as int);
                &&& final(self).running() == st.running
                &&& final(self).waiting() == st.kept
                &&& jobs_view(promoted@) == st.promoted
            }),
    {
        let ghost r0 = self.running();
        let ghost w0 = self.waiting();
        let ghost n0 = w0.len();
        let mut promoted: Vec<ScheduledJob<T>> = Vec::new();
        let mut kept: Vec<ScheduledJob<T>> = Vec::new();
        proof {
            lemma_promote(r0, w0, n0 as int);
        }
        while self.waiting.len() > 0
            invariant
                self.next_id == old(self).next_id,
                self.waiting@.len() <= n0,
                jobs_view(self.waiting@) == w0.skip(n0 - self.waiting@.len()),
                running_compatible(r0),
                all_sorted(running_accesses(r0)),
                all_sorted(waiting_accesses(w0)),
                n0 == w0.len(),
                ({
                    let st = promote_steps(r0, w0, n0 - self.waiting@.len());
                    &&& self.running() == st.running
                    &&& jobs_view(promoted@) == st.promoted
                    &&& jobs_view(kept@) == st.kept
                }),
            decreases self.waiting@.len(),
        {
            let ghost k = n0 - self.waiting@.len();
            let ghost w_before = self.waiting@;
            let job = self.waiting.remove(0);
            proof {
                lemma_promote(r0, w0, k);
                assert(jobs_view(w_before)[0] == w0[k]);
                assert(job@ == w0[k]);
                assert(jobs_view(self.waiting@) =~= w0.skip(k + 1));
                assert(waiting_accesses(w0)[k] == job@.accesses);
            }
            let blocked = conflicts_with_running(job.accesses.as_slice(), &self.running)
                || conflicts_with_jobs(job.accesses.as_slice(), &kept);
            if blocked {
                let ghost kb = kept@;
                kept.push(job);
                proof {
                    assert(jobs_view(kept@) =~= jobs_view(kb).push(w0[k]));
                }
            } else {
                let acc = duplicate_accesses(&job.accesses);
                let ghost rb = self.running();
                let ghost pb = promoted@;
                self.running.push((job.id, acc));
                promoted.push(job);
                proof {
                    assert(self.running() =~= rb.push((w0[k].id, w0[k].accesses)));
                    assert(jobs_view(promoted@) =~= jobs_view(pb).push(w0[k]));
                }
            }
        }
        self.waiting = kept;
        proof {
            assert(w0.skip(n0 as int) =~= Seq::<JobView<T>>::empty());
        }
        promoted
    }
}

} // verus!
