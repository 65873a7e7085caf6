//! Kinds of table mutation recorded in the transaction log.
use vstd::prelude::*;

verus! {

/// Version of the binary log format.
pub const LOG_FORMAT_VERSION: u8 = 1;

/// The three kinds of table mutation.
#[derive(Debug, Clone, Copy, PartialEq, Eq, Structural)]
pub enum TransactionType {
    Insert,
    Update,
    Delete,
}

/// The byte that stands for each kind in the binary log format.
pub open spec fn transaction_type_byte(t: TransactionType) -> u8 {
    match t {
        TransactionType::Insert => 1,
        TransactionType::Update => 2,
        TransactionType::Delete => 3,
    }
}

/// The kind a byte stands for, if any.
pub open spec fn transaction_type_of(b: u8) -> Option<TransactionType> {
    if b == 1 {
        Some(TransactionType::Insert)
    } else if b == 2 {
        Some(TransactionType::Update)
    } else if b == 3 {
        Some(TransactionType::Delete)
    } else {
        None
    }
}

impl TransactionType {
    /// Parse from the byte representation used in the log.
    pub fn from_byte(b: u8) -> (res: Option<Self>)
        ensures
            res == transaction_type_of(b),
    {
        match b {
            1 => Some(TransactionType::Insert),
            2 => Some(TransactionType::Update),
            3 => Some(TransactionType::Delete),
            _ => None,
        }
    }

    /// Convert to the byte representation used in the log.
    pub fn to_byte(self) -> (b: u8)
        ensures
            b == transaction_type_byte(self),
    {
        match self {
            TransactionType::Insert => 1,
            TransactionType::Update => 2,
            TransactionType::Delete => 3,
        }
    }
}

/// Reading back the byte of a kind gives that kind again, and a byte that
/// stands for a kind is that kind's byte.
pub proof fn lemma_transaction_type_roundtrip(t: TransactionType, b: u8)
    ensures
        transaction_type_of(transaction_type_byte(t)) == Some(t),
        transaction_type_of(b) matches Some(u) ==> transaction_type_byte(u) == b,
{
}

} // verus!
