//! Table schemas: field types, index declarations and index queries.
use vstd::prelude::*;
use crate::runtime::value::{IndexKey, KeyOrder, KeyView, key_le, key_lt, lemma_key_order};

verus! {

/// The declared type of a field.
#[derive(Debug, Clone, Copy, PartialEq, Eq, Structural)]
pub enum IntersticeType {
    Void,
    Bool,
    U8,
    U32,
    U64,
    I32,
    I64,
    String,
}

/// How an index stores its keys.
#[derive(Debug, Clone, Copy, PartialEq, Eq, Structural)]
pub enum IndexType {
    Hash,
    BTree,
}

/// How a table's content survives restarts.
#[derive(Debug, Clone, Copy, PartialEq, Eq, Structural)]
pub enum PersistenceKind {
    Ephemeral,
    Logged,
    Stateful,
}

/// A named, typed field.
#[derive(Debug, Clone)]
pub struct FieldDef {
    pub name: String,
    pub field_type: IntersticeType,
}

/// An index declared on a field.
#[derive(Debug, Clone)]
pub struct IndexSchema {
    pub field_name: String,
    pub index_type: IndexType,
    pub unique: bool,
    pub auto_inc: bool,
}

/// The schema of a table.
#[derive(Debug, Clone)]
pub struct TableSchema {
    pub name: String,
    pub primary_key: FieldDef,
    pub primary_key_auto_inc: bool,
    pub fields: Vec<FieldDef>,
    pub indexes: Vec<IndexSchema>,
    pub persistence: PersistenceKind,
}

impl FieldDef {
    pub fn duplicate(&self) -> (r: FieldDef)
        ensures
            r.name@ == self.name@,
            r.field_type == self.field_type,
    {
        FieldDef { name: self.name.clone(), field_type: self.field_type }
    }
}

impl IndexSchema {
    pub fn duplicate(&self) -> (r: IndexSchema)
        ensures
            r.field_name@ == self.field_name@,
            r.index_type == self.index_type,
            r.unique == self.unique,
            r.auto_inc == self.auto_inc,
    {
        IndexSchema {
            field_name: self.field_name.clone(),
            index_type: self.index_type,
            unique: self.unique,
            auto_inc: self.auto_inc,
        }
    }
}

/// Two schemas describe the same table.
pub open spec fn same_schema(a: &TableSchema, b: &TableSchema) -> bool {
    a.name@ == b.name@ && same_layout(a, b)
}

/// Two schemas describe tables of the same shape, whatever their names.
pub open spec fn same_layout(a: &TableSchema, b: &TableSchema) -> bool {
    &&& a.primary_key.name@ == b.primary_key.name@
    &&& a.primary_key.field_type == b.primary_key.field_type
    &&& a.primary_key_auto_inc == b.primary_key_auto_inc
    &&& a.fields@.len() == b.fields@.len()
    &&& (forall|i: int|
        #![trigger a.fields@[i]]
        0 <= i < a.fields@.len() ==> a.fields@[i].name@ == b.fields@[i].name@
            && a.fields@[i].field_type == b.fields@[i].field_type)
    &&& a.indexes@.len() == b.indexes@.len()
    &&& (forall|i: int|
        #![trigger a.indexes@[i]]
        0 <= i < a.indexes@.len() ==> {
            &&& a.indexes@[i].field_name@ == b.indexes@[i].field_name@
            &&& a.indexes@[i].index_type == b.indexes@[i].index_type
            &&& a.indexes@[i].unique == b.indexes@[i].unique
            &&& a.indexes@[i].auto_inc == b.indexes@[i].auto_inc
        })
    &&& a.persistence == b.persistence
}

impl TableSchema {
    /// A copy of the schema.
    pub fn duplicate(&self) -> (r: TableSchema)
        ensures
            same_schema(&r, self),
    {
        let mut fields: Vec<FieldDef> = Vec::new();
        let mut i: usize = 0;
        while i < self.fields.len()
            invariant
                i <= self.fields.len(),
                fields@.len() == i,
                forall|j: int|
                    #![trigger fields@[j]]
                    0 <= j < i ==> fields@[j].name@ == self.fields@[j].name@
                        && fields@[j].field_type == self.fields@[j].field_type,
            decreases self.fields.len() - i,
        {
            fields.push(self.fields[i].duplicate());
            i = i + 1;
        }
        let mut indexes: Vec<IndexSchema> = Vec::new();
        let mut i: usize = 0;
        while i < self.indexes.len()
            invariant
                i <= self.indexes.len(),
                indexes@.len() == i,
                forall|j: int|
                    #![trigger indexes@[j]]
                    0 <= j < i ==> {
                        &&& indexes@[j].field_name@ == self.indexes@[j].field_name@
                        &&& indexes@[j].index_type == self.indexes@[j].index_type
                        &&& indexes@[j].unique == self.indexes@[j].unique
                        &&& indexes@[j].auto_inc == self.indexes@[j].auto_inc
                    },
            decreases self.indexes.len() - i,
        {
            indexes.push(self.indexes[i].duplicate());
            i = i + 1;
        }
        TableSchema {
            name: self.name.clone(),
            primary_key: self.primary_key.duplicate(),
            primary_key_auto_inc: self.primary_key_auto_inc,
            fields,
            indexes,
            persistence: self.persistence,
        }
    }
}

/// A query against an index.
#[derive(Debug, Clone)]
pub enum IndexQuery {
    Eq(IndexKey),
    Lt(IndexKey),
    Lte(IndexKey),
    Gt(IndexKey),
    Gte(IndexKey),
    Range { min: IndexKey, max: IndexKey, include_min: bool, include_max: bool },
}

/// Whether a key satisfies a query.
pub open spec fn query_matches(q: IndexQuery, k: KeyView) -> bool {
    match q {
        IndexQuery::Eq(x) => k == x@,
        IndexQuery::Lt(x) => key_lt(k, x@),
        IndexQuery::Lte(x) => key_le(k, x@),
        IndexQuery::Gt(x) => key_lt(x@, k),
        IndexQuery::Gte(x) => key_le(x@, k),
        IndexQuery::Range { min, max, include_min, include_max } => {
            &&& (if include_min { key_le(min@, k) } else { key_lt(min@, k) })
            &&& (if include_max { key_le(k, max@) } else { key_lt(k, max@) })
        },
    }
}

/// A range query whose bounds an ordered index accepts: the lower bound is
/// not above the upper one, and equal bounds are not both excluded.
pub open spec fn query_bounds_ok(q: IndexQuery) -> bool {
    match q {
        IndexQuery::Range { min, max, include_min, include_max } => {
            &&& !key_lt(max@, min@)
            &&& (min@ == max@ ==> include_min || include_max)
        },
        _ => true,
    }
}

/// Whether a query is answerable by an index of the given kind.
pub open spec fn query_supported(kind: IndexType, q: IndexQuery) -> bool {
    kind == IndexType::BTree || q is Eq
}

/// How the queries relate, for every key `k`: a bound `x` splits the keys
/// into those below it (`Lt`) and the others (`Gte`), and likewise `Lte`
/// and `Gt`; `Lte` is `Lt` or `Eq`; an excluded bound of a range never
/// matches, an included one does whenever the other bound lets it; a
/// range with both bounds included is `Gte(min)` and `Lte(max)`, and
/// excluding a bound only drops the key equal to it.
pub proof fn lemma_query_laws(x: IndexKey, min: IndexKey, max: IndexKey, im: bool, k: KeyView)
    ensures
        query_matches(IndexQuery::Lt(x), k) != query_matches(IndexQuery::Gte(x), k),
        query_matches(IndexQuery::Gt(x), k) != query_matches(IndexQuery::Lte(x), k),
        query_matches(IndexQuery::Lte(x), k) == (query_matches(IndexQuery::Lt(x), k) || query_matches(
            IndexQuery::Eq(x),
            k,
        )),
        query_matches(IndexQuery::Eq(x), k) == (k == x@),
        !query_matches(IndexQuery::Lt(x), x@),
        !query_matches(IndexQuery::Gt(x), x@),
        !query_matches(IndexQuery::Range { min, max, include_min: im, include_max: false }, max@),
        !query_matches(IndexQuery::Range { min, max, include_min: false, include_max: im }, min@),
        query_matches(IndexQuery::Range { min, max, include_min: true, include_max: true }, k) == (query_matches(
            IndexQuery::Gte(min),
            k,
        ) && query_matches(IndexQuery::Lte(max), k)),
        query_matches(IndexQuery::Range { min, max, include_min: im, include_max: false }, k) == (query_matches(
            IndexQuery::Range { min, max, include_min: im, include_max: true },
            k,
        ) && k != max@),
        query_matches(IndexQuery::Range { min, max, include_min: false, include_max: im }, k) == (query_matches(
            IndexQuery::Range { min, max, include_min: true, include_max: im },
            k,
        ) && k != min@),
{
    lemma_key_order(k, x@, k);
    lemma_key_order(x@, k, x@);
    lemma_key_order(k, max@, k);
    lemma_key_order(max@, k, max@);
    lemma_key_order(k, min@, k);
    lemma_key_order(min@, k, min@);
}

impl IndexQuery {
    /// Whether a key satisfies this query.
    pub fn matches(&self, k: &IndexKey) -> (b: bool)
        ensures
            b == query_matches(*self, k@),
    {
        match self {
            IndexQuery::Eq(x) => k.equals(x),
            IndexQuery::Lt(x) => k.compare(x) == KeyOrder::Less,
            IndexQuery::Lte(x) => k.compare(x) != KeyOrder::Greater,
            IndexQuery::Gt(x) => x.compare(k) == KeyOrder::Less,
            IndexQuery::Gte(x) => x.compare(k) != KeyOrder::Greater,
            IndexQuery::Range { min, max, include_min, include_max } => {
                let lo = if *include_min {
                    min.compare(k) != KeyOrder::Greater
                } else {
                    min.compare(k) == KeyOrder::Less
                };
                let hi = if *include_max {
                    k.compare(max) != KeyOrder::Greater
                } else {
                    k.compare(max) == KeyOrder::Less
                };
                lo && hi
            },
        }
    }
}

} // verus!
