//! The row cursor: the scan primitive of the machine.
//!
//! A cursor walks any run of ordinals and lands on those whose row is in the tuple
//! store. An ordinal without a row is skipped, never an error: a row may be in the
//! metadata index and not yet in the tuple store while it is being applied, and a
//! row may be deleted after the ordinals were taken. Landing reads the whole row
//! once, so reading its columns cannot fail or see another version of it.
//!
//! The store may change between two steps, so every step is given the store to read.

use vstd::prelude::*;

use crate::error::{Error, Result};
use crate::metadata::common::{ColumnId, Ordinal, Value, ValueView};
use crate::metadata::index;
use crate::metadata::tuples;
use crate::metadata::tuples::{Reader, RowGet, RowGetView, TupleView};

verus! {

/// A forward-only cursor over ordinals, at first before the first row.
pub struct Cursor {
    ordinals: Vec<Ordinal>,
    at: usize,
    columns: Vec<ColumnId>,
    current: Option<Ordinal>,
    row: Option<Vec<Value>>,
    skipped: u64,
    fetched: u64,
}

/// What a [`Cursor`] holds.
pub struct CursorView {
    /// The ordinals to visit, in this order.
    pub ordinals: Seq<Ordinal>,
    /// How many were visited.
    pub at: int,
    /// The columns to read.
    pub columns: Seq<ColumnId>,
    /// The ordinal that the cursor is on, if it is on one.
    pub current: Option<Ordinal>,
    /// The row there.
    pub row: Option<Seq<ValueView>>,
    /// How many ordinals had no row.
    pub skipped: int,
    /// How many rows were read.
    pub fetched: int,
}

impl View for Cursor {
    type V = CursorView;

    closed spec fn view(&self) -> CursorView {
        CursorView {
            ordinals: self.ordinals@,
            at: self.at as int,
            columns: self.columns@,
            current: self.current,
            row: match self.row {
                Some(values) => Some(tuples::values_view(values@)),
                None => None,
            },
            skipped: self.skipped as int,
            fetched: self.fetched as int,
        }
    }
}

/// Whether the store has a row at an ordinal.
pub open spec fn present(store: TupleView, ordinal: Ordinal) -> bool {
    store.slot(ordinal.0) is Live
}

/// The index of the first ordinal from `i` on that has a row, or the number of
/// ordinals.
pub open spec fn landing(store: TupleView, ordinals: Seq<Ordinal>, i: int) -> int
    decreases ordinals.len() - i,
{
    if i < 0 || i >= ordinals.len() || present(store, ordinals[i]) {
        i
    } else {
        landing(store, ordinals, i + 1)
    }
}

proof fn lemma_landing(store: TupleView, ordinals: Seq<Ordinal>, i: int)
    requires
        0 <= i <= ordinals.len(),
    ensures
        i <= landing(store, ordinals, i) <= ordinals.len(),
        landing(store, ordinals, i) < ordinals.len() ==> present(
            store,
            ordinals[landing(store, ordinals, i)],
        ),
        forall|k: int| i <= k < landing(store, ordinals, i) ==> !present(store, #[trigger] ordinals[k]),
    decreases ordinals.len() - i,
{
    if i < ordinals.len() && !present(store, ordinals[i]) {
        lemma_landing(store, ordinals, i + 1);
    }
}

impl CursorView {
    /// The cursor after a step that found every column.
    pub open spec fn stepped(self, store: TupleView) -> CursorView {
        let k = landing(store, self.ordinals, self.at);
        if k < self.ordinals.len() {
            CursorView {
                at: k + 1,
                current: Some(self.ordinals[k]),
                row: Some(
                    Seq::new(
                        self.columns.len(),
                        |i: int| store.slot(self.ordinals[k].0)->0[self.columns[i] as int],
                    ),
                ),
                skipped: self.skipped + (k - self.at),
                fetched: self.fetched + 1,
                ..self
            }
        } else {
            CursorView {
                at: k,
                current: None,
                row: None,
                skipped: self.skipped + (k - self.at),
                ..self
            }
        }
    }

    /// No ordinal counts twice.
    pub open spec fn sane(self) -> bool {
        &&& 0 <= self.at <= self.ordinals.len()
        &&& 0 <= self.skipped
        &&& 0 <= self.fetched
        &&& self.skipped + self.fetched <= self.at
        &&& self.current is Some <==> self.row is Some
    }
}

impl Cursor {
    /// The counts stay within the visited ordinals, and the cursor is on an ordinal
    /// exactly if it has a row.
    pub closed spec fn wf(&self) -> bool {
        self@.sane()
    }

    /// What well-formedness says of the view.
    pub proof fn lemma_wf(&self)
        requires
            self.wf(),
        ensures
            self@.sane(),
    {
    }

    /// A cursor over the given ordinals that reads the given columns of each row,
    /// in this order.
    pub fn over(ordinals: Vec<Ordinal>, columns: Vec<ColumnId>) -> (c: Cursor)
        ensures
            c.wf(),
            c@ == (CursorView {
                ordinals: ordinals@,
                at: 0,
                columns: columns@,
                current: None,
                row: None,
                skipped: 0,
                fetched: 0,
            }),
    {
        Cursor { ordinals, at: 0, columns, current: None, row: None, skipped: 0, fetched: 0 }
    }

    /// A cursor over every live row of a collection, by rising ordinal, that reads
    /// every scalar column, by id.
    pub fn scan(meta: &index::Reader<'_>, columns: u32) -> (c: Cursor)
        requires
            meta.wf(),
        ensures
            c.wf(),
            c@.at == 0 && c@.current is None && c@.row is None && c@.skipped == 0 && c@.fetched
                == 0,
            c@.columns == Seq::new(columns as nat, |i: int| i as ColumnId),
            forall|i: int, j: int|
                0 <= i < j < c@.ordinals.len() ==> (#[trigger] c@.ordinals[i]).0 < (
                #[trigger] c@.ordinals[j]).0,
            forall|o: u32|
                meta@.live.contains(o) <==> #[trigger] c@.ordinals.contains(Ordinal(o)),
    {
        let live = meta.live();
        let items: Vec<u32> = live.to_vec();
        let mut ordinals: Vec<Ordinal> = Vec::new();
        let mut i: usize = 0;
        while i < items.len()
            invariant
                i <= items@.len(),
                ordinals@.len() == i,
                forall|k: int| 0 <= k < i ==> #[trigger] ordinals@[k] == Ordinal(items@[k]),
            decreases items@.len() - i,
        {
            ordinals.push(Ordinal(items[i]));
            i += 1;
        }
        let mut all: Vec<ColumnId> = Vec::new();
        let mut c: u32 = 0;
        while c < columns
            invariant
                c <= columns,
                all@ == Seq::new(c as nat, |i: int| i as ColumnId),
            decreases columns - c,
        {
            all.push(c);
            proof {
                assert(all@ =~= Seq::new((c + 1) as nat, |i: int| i as ColumnId));
            }
            c += 1;
        }
        proof {
            assert forall|o: u32| meta@.live.contains(o) <==> #[trigger] ordinals@.contains(
                Ordinal(o),
            ) by {
                if items@.contains(o) {
                    let k = choose|k: int| 0 <= k < items@.len() && items@[k] == o;
                    assert(ordinals@[k] == Ordinal(o));
                }
                if ordinals@.contains(Ordinal(o)) {
                    let k = choose|k: int| 0 <= k < ordinals@.len() && ordinals@[k] == Ordinal(o);
                    assert(items@[k] == o);
                }
            }
        }
        Cursor::over(ordinals, all)
    }

    /// Moves to the first row and says whether there is one.
    pub fn seek_first(&mut self, tuples: &Reader<'_>) -> (r: Result<bool>)
        requires
            old(self).wf(),
            tuples@.fits(),
        ensures
            final(self).wf(),
            match tuples@.unknown_from(old(self)@.columns, 0) {
                Some(column) if old(self)@.at < old(self)@.ordinals.len() => {
                    &&& r == Err::<bool, Error>(Error::UnknownColumn { column })
                    &&& final(self)@ == (CursorView { at: old(self)@.at + 1, ..old(self)@ })
                },
                _ => {
                    &&& r == Ok::<bool, Error>(final(self)@.current is Some)
                    &&& final(self)@ == old(self)@.stepped(tuples@)
                },
            },
    {
        self.advance(tuples)
    }

    /// Moves to the next row and says whether there is one.
    pub fn next(&mut self, tuples: &Reader<'_>) -> (r: Result<bool>)
        requires
            old(self).wf(),
            tuples@.fits(),
        ensures
            final(self).wf(),
            match tuples@.unknown_from(old(self)@.columns, 0) {
                Some(column) if old(self)@.at < old(self)@.ordinals.len() => {
                    &&& r == Err::<bool, Error>(Error::UnknownColumn { column })
                    &&& final(self)@ == (CursorView { at: old(self)@.at + 1, ..old(self)@ })
                },
                _ => {
                    &&& r == Ok::<bool, Error>(final(self)@.current is Some)
                    &&& final(self)@ == old(self)@.stepped(tuples@)
                },
            },
    {
        self.advance(tuples)
    }

    /// Visits ordinals until one has a row.
    fn advance(&mut self, tuples: &Reader<'_>) -> (r: Result<bool>)
        requires
            old(self).wf(),
            tuples@.fits(),
        ensures
            final(self).wf(),
            match tuples@.unknown_from(old(self)@.columns, 0) {
                Some(column) if old(self)@.at < old(self)@.ordinals.len() => {
                    &&& r == Err::<bool, Error>(Error::UnknownColumn { column })
                    &&& final(self)@ == (CursorView { at: old(self)@.at + 1, ..old(self)@ })
                },
                _ => {
                    &&& r == Ok::<bool, Error>(final(self)@.current is Some)
                    &&& final(self)@ == old(self)@.stepped(tuples@)
                },
            },
    {
        let ghost start = self@;
        let len: usize = self.ordinals.len();
        while self.at < len
            invariant
                start == old(self)@,
                start.sane(),
                len == self.ordinals@.len(),
                tuples@.fits(),
                self@ == (CursorView {
                    at: self.at as int,
                    skipped: start.skipped + (self.at - start.at),
                    ..start
                }),
                self.wf(),
                start.at <= self.at,
                landing(tuples@, start.ordinals, start.at) == landing(
                    tuples@,
                    start.ordinals,
                    self.at as int,
                ),
                self.at > start.at ==> tuples@.unknown_from(start.columns, 0) is None,
            decreases len - self.at,
        {
            let ordinal: Ordinal = self.ordinals[self.at];
            let got = tuples.get(ordinal, self.columns.as_slice());
            self.at += 1;
            match got {
                Err(e) => {
                    return Err(e);
                },
                Ok(RowGet::Live(values)) => {
                    self.current = Some(ordinal);
                    self.row = Some(values);
                    self.fetched += 1;
                    proof {
                        assert(present(tuples@, ordinal));
                        assert(self@.row->0 =~= start.stepped(tuples@).row->0);
                        assert(self@ == start.stepped(tuples@));
                    }
                    return Ok(true);
                },
                Ok(RowGet::Missing) => {
                    self.skipped += 1;
                },
                Ok(RowGet::Deleted) => {
                    self.skipped += 1;
                },
            }
        }
        self.current = None;
        self.row = None;
        Ok(false)
    }

    /// The ordinal that the cursor is on.
    pub fn ordinal(&self) -> (r: Option<Ordinal>)
        ensures
            r == self@.current,
    {
        self.current
    }

    /// The row that the cursor is on: the requested columns, in the requested order.
    pub fn row(&self) -> (r: Option<&Vec<Value>>)
        ensures
            match r {
                Some(values) => self@.row == Some(tuples::values_view(values@)),
                None => self@.row is None,
            },
    {
        match &self.row {
            Some(values) => Some(values),
            None => None,
        }
    }

    /// One value of the row, by its place among the requested columns.
    pub fn column(&self, i: usize) -> (r: Option<&Value>)
        ensures
            match r {
                Some(v) => self@.row matches Some(row) && i < row.len() && v@ == row[i as int],
                None => self@.row matches Some(row) ==> i >= row.len(),
            },
    {
        match &self.row {
            Some(values) => {
                if i < values.len() {
                    Some(&values[i])
                } else {
                    None
                }
            },
            None => None,
        }
    }

    /// How many ordinals had no row.
    pub fn skipped(&self) -> (n: u64)
        ensures
            n == self@.skipped,
    {
        self.skipped
    }

    /// How many rows were read.
    pub fn fetched(&self) -> (n: u64)
        ensures
            n == self@.fetched,
    {
        self.fetched
    }

    /// The requested columns.
    pub fn columns(&self) -> (c: &Vec<ColumnId>)
        ensures
            c@ == self@.columns,
    {
        &self.columns
    }
}

/// Every ordinal that a step visits is either read or skipped, so the two counts
/// together are the number of reads from the store; and a step reads at most one
/// row, so a caller that stops early has read no more than it took.
pub proof fn law_every_visit_is_counted(cursor: CursorView, store: TupleView)
    requires
        cursor.sane(),
    ensures
        ({
            let after = cursor.stepped(store);
            &&& after.sane()
            &&& after.fetched + after.skipped - (cursor.fetched + cursor.skipped) == after.at
                - cursor.at
            &&& after.fetched <= cursor.fetched + 1
        }),
{
    lemma_landing(store, cursor.ordinals, cursor.at);
}

/// A step lands on the first ordinal ahead that has a row; whatever it skips has
/// none, and at the end the cursor is on nothing.
pub proof fn law_step_lands_on_a_row(cursor: CursorView, store: TupleView)
    requires
        cursor.sane(),
    ensures
        ({
            let after = cursor.stepped(store);
            match after.current {
                Some(o) => {
                    &&& present(store, o)
                    &&& o == cursor.ordinals[after.at - 1]
                    &&& cursor.at < after.at
                    &&& forall|k: int|
                        cursor.at <= k < after.at - 1 ==> !present(
                            store,
                            #[trigger] cursor.ordinals[k],
                        )
                    &&& store.get(o.0, cursor.columns) == RowGetView::Live(after.row->0)
                },
                None => {
                    &&& after.row is None
                    &&& after.at == cursor.ordinals.len()
                    &&& forall|k: int|
                        cursor.at <= k < cursor.ordinals.len() ==> !present(
                            store,
                            #[trigger] cursor.ordinals[k],
                        )
                },
            }
        }),
{
    lemma_landing(store, cursor.ordinals, cursor.at);
    let after = cursor.stepped(store);
    if let Some(o) = after.current {
        assert(store.slot(o.0) is Live);
        match store.get(o.0, cursor.columns) {
            RowGetView::Live(row) => {
                assert(row =~= after.row->0);
            },
            _ => {},
        }
    }
}

} // verus!
