//! Walks over a table's rows, all of them or those a predicate accepts, and
//! over the row positions an index lookup matched.
use vstd::prelude::*;
use crate::runtime::table::Table;
use crate::runtime::value::{Row, RowView};

verus! {

/// The rows of a table, handed out one by one in storage order, without
/// copying them.
pub struct TableIterator<'a> {
    rows: &'a [Row],
    current: usize,
}

impl<'a> TableIterator<'a> {
    /// The rows walked over, in order.
    pub closed spec fn source(&self) -> Seq<Row> {
        self.rows@
    }

    /// How many rows have been handed out.
    pub closed spec fn position(&self) -> nat {
        self.current as nat
    }

    pub open spec fn wf(&self) -> bool {
        self.position() <= self.source().len()
    }

    pub fn new(table: &'a Table) -> (r: Self)
        ensures
            r.wf(),
            r.source().map_values(|x: Row| x@) == table.rows(),
            r.position() == 0,
    {
        TableIterator { rows: table.scan(), current: 0 }
    }

    /// The next row, or `None` once all were handed out.
    pub fn next(&mut self) -> (r: Option<&'a Row>)
        requires
            old(self).wf(),
        ensures
            final(self).wf(),
            final(self).source() == old(self).source(),
            if old(self).position() < old(self).source().len() {
                r == Some(&old(self).source()[old(self).position() as int]) && final(self).position()
                    == old(self).position() + 1
            } else {
                r is None && final(self).position() == old(self).position()
            },
    {
        if self.current < self.rows.len() {
            let row = &self.rows[self.current];
            self.current = self.current + 1;
            Some(row)
        } else {
            None
        }
    }
}

/// The rows of a table that a predicate accepts, handed out one by one in
/// storage order; the predicate is applied as the walk goes.
pub struct FilteredTableIterator<'a, F> where F: Fn(&Row) -> bool {
    rows: &'a [Row],
    current: usize,
    predicate: F,
}

impl<'a, F> FilteredTableIterator<'a, F> where F: Fn(&Row) -> bool {
    /// The rows walked over, in order.
    pub closed spec fn source(&self) -> Seq<Row> {
        self.rows@
    }

    /// How many rows have been looked at.
    pub closed spec fn position(&self) -> nat {
        self.current as nat
    }

    /// The predicate that picks the rows.
    pub closed spec fn filter(&self) -> F {
        self.predicate
    }

    pub open spec fn wf(&self) -> bool {
        &&& self.position() <= self.source().len()
        &&& forall|row: &Row| #[trigger] self.filter().requires((row,))
    }

    pub fn new(table: &'a Table, predicate: F) -> (r: Self)
        requires
            forall|row: &Row| #[trigger] predicate.requires((row,)),
        ensures
            r.wf(),
            r.source().map_values(|x: Row| x@) == table.rows(),
            r.position() == 0,
            r.filter() == predicate,
    {
        FilteredTableIterator { rows: table.scan(), current: 0, predicate }
    }

    /// The next row the predicate accepts, or `None` once none is left.
    /// Every row passed over on the way was refused by the predicate.
    pub fn next(&mut self) -> (r: Option<&'a Row>)
        requires
            old(self).wf(),
        ensures
            final(self).wf(),
            final(self).source() == old(self).source(),
            final(self).filter() == old(self).filter(),
            old(self).position() <= final(self).position(),
            match r {
                Some(row) => {
                    &&& old(self).position() < final(self).position()
                    &&& row == &final(self).source()[final(self).position() - 1]
                    &&& final(self).filter().ensures((row,), true)
                    &&& forall|j: int|
                        old(self).position() <= j < final(self).position() - 1 ==> final(self).filter().ensures(
                            (&#[trigger] final(self).source()[j],),
                            false,
                        )
                },
                None => {
                    &&& final(self).position() == final(self).source().len()
                    &&& forall|j: int|
                        old(self).position() <= j < final(self).position() ==> final(self).filter().ensures(
                            (&#[trigger] final(self).source()[j],),
                            false,
                        )
                },
            },
    {
        let start: Ghost<nat> = Ghost(self.current as nat);
        proof {
            assert forall|row: &Row| #[trigger] self.predicate.requires((row,)) by {
                assert(old(self).filter().requires((row,)));
            }
        }
        while self.current < self.rows.len()
            invariant
                start@ <= self.current <= self.rows@.len(),
                forall|row: &Row| #[trigger] self.predicate.requires((row,)),
                forall|j: int| start@ <= j < self.current ==> self.predicate.ensures((&#[trigger] self.rows@[j],), false),
                self.rows == old(self).rows,
                self.predicate == old(self).predicate,
                start@ == old(self).current,
            decreases self.rows.len() - self.current,
        {
            let row = &self.rows[self.current];
            self.current = self.current + 1;
            if (self.predicate)(row) {
                return Some(row);
            }
        }
        None
    }
}

/// The row positions an index matched, handed out one by one.
pub struct IndexedScan {
    matched_indices: Vec<usize>,
    current: usize,
}

impl IndexedScan {
    /// The matched positions, in order.
    pub closed spec fn matched(&self) -> Seq<usize> {
        self.matched_indices@
    }

    /// How many positions have been handed out.
    pub closed spec fn position(&self) -> nat {
        self.current as nat
    }

    pub open spec fn wf(&self) -> bool {
        self.position() <= self.matched().len()
    }

    pub fn new(matched_indices: Vec<usize>) -> (r: Self)
        ensures
            r.wf(),
            r.matched() == matched_indices@,
            r.position() == 0,
    {
        IndexedScan { matched_indices, current: 0 }
    }

    pub fn matched_count(&self) -> (r: usize)
        ensures
            r == self.matched().len(),
    {
        self.matched_indices.len()
    }

    pub fn get_indices(&self) -> (r: &[usize])
        ensures
            r@ == self.matched(),
    {
        self.matched_indices.as_slice()
    }

    /// The next matched position, or `None` once all were handed out.
    pub fn next(&mut self) -> (r: Option<usize>)
        requires
            old(self).wf(),
        ensures
            final(self).wf(),
            final(self).matched() == old(self).matched(),
            if old(self).position() < old(self).matched().len() {
                r == Some(old(self).matched()[old(self).position() as int]) && final(self).position()
                    == old(self).position() + 1
            } else {
                r is None && final(self).position() == old(self).position()
            },
    {
        if self.current < self.matched_indices.len() {
            let idx = self.matched_indices[self.current];
            self.current = self.current + 1;
            Some(idx)
        } else {
            None
        }
    }
}

/// The row positions a range lookup matched, handed out one by one.
pub struct RangeScan {
    matched_indices: Vec<usize>,
    current: usize,
}

impl RangeScan {
    /// The matched positions, in order.
    pub closed spec fn matched(&self) -> Seq<usize> {
        self.matched_indices@
    }

    /// How many positions have been handed out.
    pub closed spec fn position(&self) -> nat {
        self.current as nat
    }

    pub open spec fn wf(&self) -> bool {
        self.position() <= self.matched().len()
    }

    pub fn new(matched_indices: Vec<usize>) -> (r: Self)
        ensures
            r.wf(),
            r.matched() == matched_indices@,
            r.position() == 0,
    {
        RangeScan { matched_indices, current: 0 }
    }

    /// The number of matched positions.
    pub fn count(&self) -> (r: usize)
        ensures
            r == self.matched().len(),
    {
        self.matched_indices.len()
    }

    /// The next matched position, or `None` once all were handed out.
    pub fn next(&mut self) -> (r: Option<usize>)
        requires
            old(self).wf(),
        ensures
            final(self).wf(),
            final(self).matched() == old(self).matched(),
            if old(self).position() < old(self).matched().len() {
                r == Some(old(self).matched()[old(self).position() as int]) && final(self).position()
                    == old(self).position() + 1
            } else {
                r is None && final(self).position() == old(self).position()
            },
    {
        if self.current < self.matched_indices.len() {
            let idx = self.matched_indices[self.current];
            self.current = self.current + 1;
            Some(idx)
        } else {
            None
        }
    }
}

} // verus!
