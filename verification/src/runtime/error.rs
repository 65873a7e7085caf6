//! Errors raised by table operations and by loading modules.
use vstd::prelude::*;
use crate::runtime::module_load::Authority;
use crate::runtime::value::IndexKey;

verus! {

/// What went wrong in a table operation or a module load.
#[derive(Debug)]
pub enum IntersticeError {
    Internal(String),
    UniqueConstraintViolation { table_name: String, field_name: String },
    RowNotFound { primary_key_value: IndexKey },
    AutoIncUpdateNotAllowed { table_name: String, field_name: String },
    IndexNotFound { table_name: String, field_name: String },
    IndexQueryUnsupported { table_name: String, field_name: String },
    TableNotFound { module_name: String, table_name: String },
    /// The module, and where it was looked for.
    ModuleNotFound(String, String),
    /// The module asking, the authority, and the module holding it.
    AuthorityAlreadyTaken(String, String, String),
    ModuleAlreadyExists(String),
    /// The module loading, its dependency, the module's version and the
    /// dependency's loaded version.
    ModuleVersionMismatch(String, String, String, String),
    /// A host call needing an authority another module holds.
    Unauthorized(Authority),
}

/// `e` is an internal error carrying exactly the message `msg`.
pub open spec fn internal_error(e: IntersticeError, msg: Seq<char>) -> bool {
    e matches IntersticeError::Internal(m) && m@ == msg
}

/// `e` reports a unique-constraint violation on the given table and field.
pub open spec fn unique_violation(e: IntersticeError, table: Seq<char>, field: Seq<char>) -> bool {
    e matches IntersticeError::UniqueConstraintViolation { table_name: t, field_name: f } && t@ == table
        && f@ == field
}

/// `e` refuses to change an auto-increment field of the given table.
pub open spec fn auto_inc_update_refused(e: IntersticeError, table: Seq<char>, field: Seq<char>) -> bool {
    e matches IntersticeError::AutoIncUpdateNotAllowed { table_name: t, field_name: f } && t@ == table
        && f@ == field
}

/// `e` reports that an index does not answer that kind of query.
pub open spec fn query_refused(e: IntersticeError, table: Seq<char>, field: Seq<char>) -> bool {
    e matches IntersticeError::IndexQueryUnsupported { table_name: t, field_name: f } && t@ == table
        && f@ == field
}

/// An internal error with the given message.
pub fn internal(msg: &str) -> (e: IntersticeError)
    ensures
        internal_error(e, msg@),
{
    IntersticeError::Internal(msg.to_owned())
}

} // verus!
