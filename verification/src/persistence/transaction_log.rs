//! The transaction log: an append-only sequence of transactions. On disk
//! each encoded transaction is stored as a frame, its length as four
//! little-endian bytes followed by its bytes; reading stops cleanly where
//! fewer than four bytes are left.
use vstd::prelude::*;
use crate::persistence::types::TransactionType;
use crate::runtime::error::{IntersticeError, internal_error};
use crate::runtime::value::{Row, RowView};

verus! {

/// The four low bytes of `n`, least significant first.
pub open spec fn le32(n: nat) -> Seq<u8> {
    seq![(n % 256) as u8, ((n / 256) % 256) as u8, ((n / 65536) % 256) as u8, ((n / 16777216) % 256) as u8]
}

/// The number four little-endian bytes stand for.
pub open spec fn le32_value(b: Seq<u8>) -> nat {
    (b[0] + 256 * b[1] + 65536 * b[2] + 16777216 * b[3]) as nat
}

/// The frame of one encoded transaction; a length past `u32::MAX` is cut
/// to its four low bytes.
pub open spec fn frame(payload: Seq<u8>) -> Seq<u8> {
    le32(payload.len()) + payload
}

/// The frames of `payloads`, one after another.
pub open spec fn frames(payloads: Seq<Seq<u8>>) -> Seq<u8>
    decreases payloads.len(),
{
    if payloads.len() == 0 {
        Seq::empty()
    } else {
        frame(payloads[0]) + frames(payloads.drop_first())
    }
}

/// The payloads of the frames in `b`, or `None` when a frame is cut short.
pub open spec fn parse_frames(b: Seq<u8>) -> Option<Seq<Seq<u8>>>
    decreases b.len(),
{
    if b.len() < 4 {
        Some(Seq::empty())
    } else {
        let n = le32_value(b.take(4));
        if b.len() - 4 < n {
            None
        } else {
            match parse_frames(b.skip(4 + n as int)) {
                Some(rest) => Some(seq![b.subrange(4, 4 + n as int)] + rest),
                None => None,
            }
        }
    }
}

proof fn lemma_le32_roundtrip(n: nat)
    requires
        n <= u32::MAX,
    ensures
        le32_value(le32(n)) == n,
{
    let b = le32(n);
    assert(b[0] == n % 256);
    assert(b[1] == (n / 256) % 256);
    assert(b[2] == (n / 65536) % 256);
    assert(b[3] == (n / 16777216) % 256);
    assert((n % 256) + 256 * ((n / 256) % 256) + 65536 * ((n / 65536) % 256) + 16777216 * ((n / 16777216) % 256) == n)
        by (nonlinear_arith)
        requires
            n <= u32::MAX,
    ;
}

/// Reading back the frames of a list of transactions gives that list: what
/// was appended is what is read.
pub proof fn lemma_frames_roundtrip(payloads: Seq<Seq<u8>>)
    requires
        forall|i: int| 0 <= i < payloads.len() ==> (#[trigger] payloads[i]).len() <= u32::MAX,
    ensures
        parse_frames(frames(payloads)) == Some(payloads),
    decreases payloads.len(),
{
    if payloads.len() == 0 {
        assert(payloads =~= Seq::<Seq<u8>>::empty());
    } else {
        let p = payloads[0];
        let rest = payloads.drop_first();
        assert forall|i: int| 0 <= i < rest.len() implies (#[trigger] rest[i]).len() <= u32::MAX by {
            assert(rest[i] == payloads[i + 1]);
        }
        lemma_frames_roundtrip(rest);
        let b = frames(payloads);
        lemma_le32_roundtrip(p.len());
        assert(b.take(4) =~= le32(p.len()));
        assert(b.subrange(4, 4 + p.len() as int) =~= p);
        assert(b.skip(4 + p.len() as int) =~= frames(rest));
        assert(seq![p] + rest =~= payloads);
    }
}

/// The frame of the encoded transaction `encoded`.
pub fn frame_transaction(encoded: &[u8]) -> (r: Vec<u8>)
    ensures
        r@ == frame(encoded@),
{
    let n = encoded.len();
    let mut r: Vec<u8> = Vec::new();
    r.push((n % 256) as u8);
    r.push(((n / 256) % 256) as u8);
    r.push(((n / 65536) % 256) as u8);
    r.push(((n / 16777216) % 256) as u8);
    let mut i: usize = 0;
    while i < n
        invariant
            n == encoded@.len(),
            i <= n,
            r@ == le32(n as nat) + encoded@.take(i as int),
        decreases n - i,
    {
        r.push(encoded[i]);
        proof {
            assert(encoded@.take(i + 1) =~= encoded@.take(i as int).push(encoded@[i as int]));
            assert(le32(n as nat) + encoded@.take(i + 1) =~= (le32(n as nat) + encoded@.take(i as int)).push(encoded@[i as int]));
        }
        i = i + 1;
    }
    proof {
        assert(encoded@.take(n as int) =~= encoded@);
    }
    r
}

/// The message for a frame cut short.
pub open spec fn truncated_frame_message() -> Seq<char> {
    "Error when decoding transaction logs: failed to fill whole buffer"@
}

/// The encoded transactions held by the log bytes `bytes`.
pub fn split_frames(bytes: &[u8]) -> (r: Result<Vec<Vec<u8>>, IntersticeError>)
    ensures
        match parse_frames(bytes@) {
            Some(ps) => r matches Ok(v) && v@.map_values(|x: Vec<u8>| x@) == ps,
            None => r matches Err(e) && internal_error(e, truncated_frame_message()),
        },
{
    let mut out: Vec<Vec<u8>> = Vec::new();
    let mut pos: usize = 0;
    let len = bytes.len();
    proof {
        assert(bytes@.skip(0) =~= bytes@);
    }
    while len - pos >= 4
        invariant
            pos <= len,
            len == bytes@.len(),
            parse_frames(bytes@) == match parse_frames(bytes@.skip(pos as int)) {
                Some(rest) => Some(out@.map_values(|x: Vec<u8>| x@) + rest),
                None => None::<Seq<Seq<u8>>>,
            },
        decreases len - pos,
    {
        let ghost rest = bytes@.skip(pos as int);
        let n: usize = bytes[pos] as usize + 256 * (bytes[pos + 1] as usize) + 65536 * (bytes[pos + 2] as usize)
            + 16777216 * (bytes[pos + 3] as usize);
        proof {
            assert(rest.take(4) =~= bytes@.subrange(pos as int, pos + 4));
            assert(n == le32_value(rest.take(4)));
        }
        if len - pos - 4 < n {
            proof {
                assert(parse_frames(rest) is None);
            }
            return Err(IntersticeError::Internal(
                "Error when decoding transaction logs: failed to fill whole buffer".to_owned(),
            ));
        }
        let mut payload: Vec<u8> = Vec::new();
        let mut i: usize = 0;
        while i < n
            invariant
                pos + 4 + n <= len,
                len == bytes@.len(),
                i <= n,
                payload@ == bytes@.subrange(pos + 4, pos + 4 + i),
            decreases n - i,
        {
            payload.push(bytes[pos + 4 + i]);
            proof {
                assert(bytes@.subrange(pos + 4, pos + 4 + i + 1) =~= bytes@.subrange(pos + 4, pos + 4 + i).push(
                    bytes@[pos + 4 + i],
                ));
            }
            i = i + 1;
        }
        let ghost before = out@;
        proof {
            assert(rest.subrange(4, 4 + n as int) =~= payload@);
            assert(rest.skip(4 + n as int) =~= bytes@.skip(pos + 4 + n));
        }
        out.push(payload);
        proof {
            assert(out@.map_values(|x: Vec<u8>| x@) =~= before.map_values(|x: Vec<u8>| x@).push(rest.subrange(4, 4 + n as int)));
            match parse_frames(bytes@.skip(pos + 4 + n)) {
                Some(r2) => {
                    assert(before.map_values(|x: Vec<u8>| x@) + (seq![rest.subrange(4, 4 + n as int)] + r2)
                        =~= out@.map_values(|x: Vec<u8>| x@) + r2);
                },
                None => {},
            }
        }
        pos = pos + 4 + n;
    }
    proof {
        assert(parse_frames(bytes@.skip(pos as int)) == Some(Seq::<Seq<u8>>::empty()));
        assert(out@.map_values(|x: Vec<u8>| x@) + Seq::<Seq<u8>>::empty() =~= out@.map_values(|x: Vec<u8>| x@));
    }
    Ok(out)
}

/// One table mutation recorded in the log.
#[derive(Debug, Clone)]
pub struct Transaction {
    pub transaction_type: TransactionType,
    pub module_name: String,
    pub table_name: String,
    pub row: Row,
    /// For an update, the row before it.
    pub old_row: Option<Row>,
    /// Logical time, for ordering during replay.
    pub timestamp: u64,
}

pub struct TransactionView {
    pub transaction_type: TransactionType,
    pub module_name: Seq<char>,
    pub table_name: Seq<char>,
    pub row: RowView,
    pub old_row: Option<RowView>,
    pub timestamp: u64,
}

impl View for Transaction {
    type V = TransactionView;

    open spec fn view(&self) -> TransactionView {
        TransactionView {
            transaction_type: self.transaction_type,
            module_name: self.module_name@,
            table_name: self.table_name@,
            row: self.row@,
            old_row: match self.old_row {
                Some(r) => Some(r@),
                None => None,
            },
            timestamp: self.timestamp,
        }
    }
}

impl Transaction {
    /// A copy of the transaction.
    pub fn duplicate(&self) -> (r: Transaction)
        ensures
            r@ == self@,
    {
        Transaction {
            transaction_type: self.transaction_type,
            module_name: self.module_name.clone(),
            table_name: self.table_name.clone(),
            row: self.row.duplicate(),
            old_row: match &self.old_row {
                Some(r) => Some(r.duplicate()),
                None => None,
            },
            timestamp: self.timestamp,
        }
    }
}

pub open spec fn transactions_view(v: Seq<Transaction>) -> Seq<TransactionView> {
    v.map_values(|t: Transaction| t@)
}

/// A transaction log kept in memory.
pub struct TransactionLog {
    transactions: Vec<Transaction>,
}

impl TransactionLog {
    /// The transactions appended, in order.
    pub closed spec fn entries(&self) -> Seq<TransactionView> {
        transactions_view(self.transactions@)
    }

    pub fn new_in_memory() -> (r: Self)
        ensures
            r.entries() == Seq::<TransactionView>::empty(),
    {
        let r = TransactionLog { transactions: Vec::new() };
        assert(r.entries() =~= Seq::<TransactionView>::empty());
        r
    }

    /// Append `tx` at the end of the log.
    pub fn append(&mut self, tx: &Transaction) -> (r: Result<(), IntersticeError>)
        ensures
            r is Ok,
            final(self).entries() == old(self).entries().push(tx@),
    {
        let ghost before = self.entries();
        self.transactions.push(tx.duplicate());
        assert(self.entries() =~= before.push(tx@));
        Ok(())
    }

    /// Every transaction of the log, in the order appended.
    pub fn read_all(&self) -> (r: Result<Vec<Transaction>, IntersticeError>)
        ensures
            r matches Ok(v) && transactions_view(v@) == self.entries(),
    {
        let mut out: Vec<Transaction> = Vec::new();
        let mut i: usize = 0;
        while i < self.transactions.len()
            invariant
                i <= self.transactions@.len(),
                transactions_view(out@) == self.entries().take(i as int),
            decreases self.transactions.len() - i,
        {
            let ghost before = out@;
            out.push(self.transactions[i].duplicate());
            proof {
                assert(transactions_view(out@) =~= transactions_view(before).push(self.transactions@[i as int]@));
                assert(self.entries().take(i + 1) =~= self.entries().take(i as int).push(self.entries()[i as int]));
            }
            i = i + 1;
        }
        proof {
            assert(self.entries().take(i as int) =~= self.entries());
        }
        Ok(out)
    }

    /// Drop every transaction of the log.
    pub fn delete_all_logs(&mut self) -> (r: Result<(), IntersticeError>)
        ensures
            r is Ok,
            final(self).entries() == Seq::<TransactionView>::empty(),
    {
        self.transactions.clear();
        assert(self.entries() =~= Seq::<TransactionView>::empty());
        Ok(())
    }

    /// The number of transactions in the log.
    pub fn transaction_count(&self) -> (r: usize)
        ensures
            r == self.entries().len(),
    {
        self.transactions.len()
    }
}

/// A log that starts empty and has `txs` appended one by one, in order,
/// holds exactly `txs`: `logs[i + 1]` is `logs[i]` after appending
/// `txs[i]`, as `append` states, and `read_all` gives the last log's
/// entries back.
pub proof fn lemma_appends_read_back(logs: Seq<TransactionLog>, txs: Seq<TransactionView>)
    requires
        logs.len() == txs.len() + 1,
        logs[0].entries() == Seq::<TransactionView>::empty(),
        forall|i: int| 0 <= i < txs.len() ==> #[trigger] logs[i + 1].entries() == logs[i].entries().push(txs[i]),
    ensures
        logs.last().entries() == txs,
    decreases txs.len(),
{
    if txs.len() > 0 {
        let n = txs.len() - 1;
        lemma_appends_read_back(logs.drop_last(), txs.drop_last());
        assert(logs.drop_last().last() == logs[n]);
        assert(logs[n + 1].entries() == logs[n].entries().push(txs[n]));
        assert(txs.drop_last().push(txs[n]) =~= txs);
    } else {
        assert(txs =~= Seq::<TransactionView>::empty());
    }
}

} // verus!
