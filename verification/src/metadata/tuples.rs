//! The tuple store: the values of each row, by ordinal.
//!
//! A deleted row leaves a marker behind, which is something else than a slot that
//! was never written.

use vstd::prelude::*;

use crate::checksum;
use crate::codec;
use crate::error;
use crate::error::{Error, Result};
use crate::metadata::common;
use crate::metadata::common::{
    ColumnId, Lsn, Ordinal, Row, Schema, SchemaView, Value, ValueView,
};
use crate::text::join2;

verus! {

/// The version of the snapshot format.
pub const VERSION: u32 = 1;

/// The four bytes that open a tuple snapshot: `TUP0`.
pub open spec fn magic() -> Seq<u8> {
    seq![0x54u8, 0x55u8, 0x50u8, 0x30u8]
}

fn magic_bytes() -> (m: Vec<u8>)
    ensures
        m@ == magic(),
{
    let m: Vec<u8> = vec![0x54u8, 0x55u8, 0x50u8, 0x30u8];
    proof {
        assert(m@ =~= magic());
    }
    m
}

/// The storage cell of one ordinal.
#[derive(Debug, Clone, PartialEq)]
pub enum Slot {
    /// Never written.
    Vacant,
    /// The row's values, by column id.
    Live(Vec<Value>),
    /// Written, then deleted.
    Tombstone,
}

/// What a [`Slot`] holds.
pub enum SlotView {
    /// Never written.
    Vacant,
    /// The row's values, by column id.
    Live(Seq<ValueView>),
    /// Written, then deleted.
    Tombstone,
}

/// What a run of values holds.
pub open spec fn values_view(values: Seq<Value>) -> Seq<ValueView> {
    values.map_values(|v: Value| v@)
}

impl View for Slot {
    type V = SlotView;

    open spec fn view(&self) -> SlotView {
        match self {
            Slot::Vacant => SlotView::Vacant,
            Slot::Live(values) => SlotView::Live(values_view(values@)),
            Slot::Tombstone => SlotView::Tombstone,
        }
    }
}

/// What a read of a row gives.
#[derive(Debug, Clone, PartialEq)]
pub enum RowGet {
    /// The values of the requested columns, in the order requested.
    Live(Vec<Value>),
    /// The row was deleted.
    Deleted,
    /// The row was never written.
    Missing,
}

/// What a [`RowGet`] holds.
pub enum RowGetView {
    /// The values of the requested columns.
    Live(Seq<ValueView>),
    /// The row was deleted.
    Deleted,
    /// The row was never written.
    Missing,
}

impl View for RowGet {
    type V = RowGetView;

    open spec fn view(&self) -> RowGetView {
        match self {
            RowGet::Live(values) => RowGetView::Live(values_view(values@)),
            RowGet::Deleted => RowGetView::Deleted,
            RowGet::Missing => RowGetView::Missing,
        }
    }
}

/// The value that a row has for column `c`: that of its first entry for it.
pub open spec fn value_for(row: Seq<(ColumnId, ValueView)>, c: int) -> ValueView {
    row[choose|i: int| 0 <= i < row.len() && #[trigger] row[i].0 == c].1
}

/// The row's values by column id.
pub open spec fn by_column(row: Seq<(ColumnId, ValueView)>) -> Seq<ValueView> {
    Seq::new(row.len(), |c: int| value_for(row, c))
}

/// What the store holds.
pub struct TupleView {
    /// The schema.
    pub schema: SchemaView,
    /// The cells, by ordinal.
    pub slots: Seq<SlotView>,
    /// The highest log position whose effects are in here.
    pub applied: u64,
}

impl TupleView {
    /// A store of the given schema without any row.
    pub open spec fn empty(schema: SchemaView) -> TupleView {
        TupleView { schema, slots: Seq::empty(), applied: 0 }
    }

    /// Every live row has one value per column.
    pub open spec fn fits(self) -> bool {
        forall|i: int|
            0 <= i < self.slots.len() ==> (#[trigger] self.slots[i] matches SlotView::Live(values)
                ==> values.len() == self.schema.columns.len())
    }

    /// The cell of an ordinal: beyond the end it is vacant.
    pub open spec fn slot(self, ordinal: u32) -> SlotView {
        if ordinal < self.slots.len() {
            self.slots[ordinal as int]
        } else {
            SlotView::Vacant
        }
    }

    /// The store with the given cell at `ordinal`, grown with vacant cells up to
    /// it.
    pub open spec fn with_slot(self, ordinal: u32, slot: SlotView) -> TupleView {
        let n = if ordinal < self.slots.len() {
            self.slots.len()
        } else {
            (ordinal + 1) as nat
        };
        TupleView {
            slots: Seq::new(
                n,
                |i: int|
                    if i == ordinal {
                        slot
                    } else if i < self.slots.len() {
                        self.slots[i]
                    } else {
                        SlotView::Vacant
                    },
            ),
            ..self
        }
    }

    /// The store after an accepted row was written.
    pub open spec fn written(self, ordinal: u32, row: Seq<(ColumnId, ValueView)>) -> TupleView {
        self.with_slot(ordinal, SlotView::Live(by_column(row)))
    }

    /// The store after a row was deleted.
    pub open spec fn deleted(self, ordinal: u32) -> TupleView {
        self.with_slot(ordinal, SlotView::Tombstone)
    }

    /// The store after log position `lsn` was applied.
    pub open spec fn advanced(self, lsn: u64) -> TupleView {
        TupleView {
            applied: if lsn > self.applied {
                lsn
            } else {
                self.applied
            },
            ..self
        }
    }

    /// The first column id from index `i` on that the schema does not have.
    pub open spec fn unknown_from(self, columns: Seq<ColumnId>, i: int) -> Option<ColumnId>
        decreases columns.len() - i,
    {
        if i < 0 || i >= columns.len() {
            None
        } else if columns[i] >= self.schema.columns.len() {
            Some(columns[i])
        } else {
            self.unknown_from(columns, i + 1)
        }
    }

    /// What a read of the given columns gives.
    pub open spec fn get(self, ordinal: u32, columns: Seq<ColumnId>) -> RowGetView {
        match self.slot(ordinal) {
            SlotView::Vacant => RowGetView::Missing,
            SlotView::Tombstone => RowGetView::Deleted,
            SlotView::Live(values) => RowGetView::Live(
                Seq::new(columns.len(), |i: int| values[columns[i] as int]),
            ),
        }
    }
}

/// The tuple store of one collection: the single place where it changes.
pub struct Writer {
    schema: Schema,
    slots: Vec<Slot>,
    applied_lsn: Lsn,
}

impl View for Writer {
    type V = TupleView;

    closed spec fn view(&self) -> TupleView {
        TupleView {
            schema: self.schema@,
            slots: self.slots@.map_values(|s: Slot| s@),
            applied: self.applied_lsn.0,
        }
    }
}

/// Namespace of the constructors.
pub struct TupleStore;

impl TupleStore {
    /// A fresh store without any row, at log position 0.
    pub fn create(schema: Schema) -> (w: Writer)
        ensures
            w@ == TupleView::empty(schema@),
            w@.fits(),
    {
        let w = Writer { schema, slots: Vec::new(), applied_lsn: Lsn(0) };
        proof {
            assert(w@.slots =~= Seq::<SlotView>::empty());
        }
        w
    }

    /// The store that a snapshot file gives when it is opened for a collection of
    /// the given schema: `file` is what the file holds, if it is there, and
    /// `parsed` is what its body was parsed to.
    ///
    /// A missing or corrupt snapshot is no error: the store starts empty at log
    /// position 0, and the reason comes back as a third part. A snapshot of
    /// another schema is an error.
    pub fn open(
        file: Option<&[u8]>,
        parsed: std::result::Result<(Schema, Vec<Slot>), String>,
        schema: Schema,
    ) -> (r: Result<(Writer, Lsn, Option<String>)>)
        ensures
            match file {
                None => r matches Ok((w, lsn, why)) && w@ == TupleView::empty(schema@) && lsn.0 == 0
                    && why is None,
                Some(bytes) => match decoded(bytes@, parsed_view(parsed)) {
                    Err(reason) => r matches Ok((w, lsn, Some(why))) && w@ == TupleView::empty(
                        schema@,
                    ) && lsn.0 == 0 && why@ == reason,
                    Ok(view) => if view.schema == schema@ {
                        r matches Ok((w, lsn, None)) && w@ == view && lsn.0 == view.applied
                    } else {
                        r == Err::<(Writer, Lsn, Option<String>), Error>(Error::SchemaMismatch)
                    },
                },
            },
    {
        match file {
            None => Ok((TupleStore::create(schema), Lsn(0), None)),
            Some(bytes) => match decode_snapshot(bytes, parsed) {
                Ok(w) => {
                    if !w.schema.same(&schema) {
                        return Err(Error::SchemaMismatch);
                    }
                    let lsn: Lsn = w.applied_lsn;
                    Ok((w, lsn, None))
                },
                Err(Error::CorruptSnapshot(why)) => Ok(
                    (TupleStore::create(schema), Lsn(0), Some(why)),
                ),
                Err(e) => Err(e),
            },
        }
    }
}

/// What parsing a snapshot body gave.
pub open spec fn parsed_view(
    parsed: std::result::Result<(Schema, Vec<Slot>), String>,
) -> std::result::Result<(SchemaView, Seq<SlotView>), Seq<char>> {
    match parsed {
        Ok((schema, slots)) => Ok((schema@, slots@.map_values(|s: Slot| s@))),
        Err(why) => Err(why@),
    }
}

/// The store that a snapshot file stands for, or what is wrong with it.
pub open spec fn decoded(
    bytes: Seq<u8>,
    parsed: std::result::Result<(SchemaView, Seq<SlotView>), Seq<char>>,
) -> std::result::Result<TupleView, Seq<char>> {
    match codec::opened(magic(), VERSION, bytes) {
        Err(why) => Err(why),
        Ok((lsn, _)) => match parsed {
            Err(why) => Err("body: "@ + why),
            Ok((schema, slots)) => Ok(TupleView { schema, slots, applied: lsn }),
        },
    }
}

/// The body of a snapshot file, for the caller to parse.
pub fn snapshot_body<'a>(bytes: &'a [u8]) -> (r: Result<&'a [u8]>)
    ensures
        match codec::opened(magic(), VERSION, bytes@) {
            Ok((_, body)) => r matches Ok(b) && b@ == body,
            Err(why) => r matches Err(e) && error::is_corrupt(e, why),
        },
{
    match codec::read_envelope(magic_bytes().as_slice(), VERSION, bytes) {
        Ok((_, body)) => Ok(body),
        Err(why) => Err(Error::CorruptSnapshot(why)),
    }
}

/// The store that a snapshot file stands for. `parsed` is what the file's body
/// was parsed to; it counts only when the frame around the body is sound.
pub fn decode_snapshot(
    bytes: &[u8],
    parsed: std::result::Result<(Schema, Vec<Slot>), String>,
) -> (r: Result<Writer>)
    ensures
        match decoded(bytes@, parsed_view(parsed)) {
            Ok(view) => r matches Ok(w) && w@ == view,
            Err(why) => r matches Err(e) && error::is_corrupt(e, why),
        },
{
    match codec::read_envelope(magic_bytes().as_slice(), VERSION, bytes) {
        Err(why) => Err(Error::CorruptSnapshot(why)),
        Ok((lsn, _)) => match parsed {
            Err(why) => Err(Error::CorruptSnapshot(join2("body: ", why.as_str()))),
            Ok((schema, slots)) => Ok(Writer { schema, slots, applied_lsn: Lsn(lsn) }),
        },
    }
}

impl Writer {
    /// The read side of the store.
    pub fn reader(&self) -> (r: Reader<'_>)
        ensures
            r@ == self@,
    {
        Reader { inner: self }
    }

    /// The schema.
    pub fn schema(&self) -> (s: &Schema)
        ensures
            s@ == self@.schema,
    {
        &self.schema
    }

    /// The cells, for the caller to serialize.
    pub fn slots(&self) -> (s: &Vec<Slot>)
        ensures
            s@.map_values(|s: Slot| s@) == self@.slots,
    {
        &self.slots
    }

    /// Whether every live row has one value per column.
    pub fn fits(&self) -> (r: bool)
        ensures
            r == self@.fits(),
    {
        let mut i: usize = 0;
        while i < self.slots.len()
            invariant
                i <= self.slots@.len(),
                forall|k: int|
                    0 <= k < i ==> (#[trigger] self@.slots[k] matches SlotView::Live(values)
                        ==> values.len() == self@.schema.columns.len()),
            decreases self.slots@.len() - i,
        {
            assert(self@.slots[i as int] == self.slots@[i as int]@);
            if let Slot::Live(values) = &self.slots[i] {
                if values.len() != self.schema.columns.len() {
                    assert(self@.slots[i as int] is Live);
                    return false;
                }
            }
            i += 1;
        }
        true
    }

    fn set_slot(&mut self, ordinal: Ordinal, slot: Slot)
        ensures
            final(self)@ == old(self)@.with_slot(ordinal.0, slot@),
    {
        let idx: usize = ordinal.0 as usize;
        let ghost was = self.slots@;
        while self.slots.len() <= idx
            invariant
                idx == ordinal.0,
                self.schema == old(self).schema,
                self.applied_lsn == old(self).applied_lsn,
                was == old(self).slots@,
                was.len() <= self.slots@.len(),
                self.slots@.len() <= idx + 1 || self.slots@.len() == was.len(),
                forall|k: int| 0 <= k < was.len() ==> #[trigger] self.slots@[k] == was[k],
                forall|k: int|
                    was.len() <= k < self.slots@.len() ==> #[trigger] self.slots@[k]
                        == Slot::Vacant,
            decreases idx + 1 - self.slots@.len(),
        {
            self.slots.push(Slot::Vacant);
        }
        self.slots.set(idx, slot);
        proof {
            assert(self@.slots =~= old(self)@.with_slot(ordinal.0, slot@).slots);
        }
    }

    /// Stores a full row at `ordinal`. The row is checked before anything
    /// changes.
    pub fn write_row(&mut self, ordinal: Ordinal, row: &Row) -> (r: Result<()>)
        ensures
            match old(self)@.schema.row_fault(common::row_view(row@)) {
                Some(e) => r == Err::<(), Error>(e) && final(self)@ == old(self)@,
                None => r is Ok && final(self)@ == old(self)@.written(
                    ordinal.0,
                    common::row_view(row@),
                ),
            },
    {
        match self.schema.validate_row(row) {
            Ok(()) => {},
            Err(e) => {
                return Err(e);
            },
        }
        let ghost view = common::row_view(row@);
        proof {
            common::law_accepted_row_is_complete(self@.schema, view);
        }
        let mut values: Vec<Value> = Vec::new();
        let mut n: usize = 0;
        while n < row.len()
            invariant
                n <= row@.len(),
                values@.len() == n,
            decreases row@.len() - n,
        {
            values.push(Value::Int(0));
            n += 1;
        }
        let mut i: usize = 0;
        while i < row.len()
            invariant
                i <= row@.len(),
                values@.len() == row@.len(),
                view == common::row_view(row@),
                forall|k: int| 0 <= k < view.len() ==> (#[trigger] view[k]).0 < view.len(),
                forall|k: int, j: int|
                    0 <= k < j < view.len() ==> (#[trigger] view[k]).0 != (#[trigger] view[j]).0,
                forall|k: int|
                    0 <= k < i ==> values@[(#[trigger] view[k]).0 as int]@ == view[k].1,
            decreases row@.len() - i,
        {
            let col: ColumnId = row[i].0;
            assert(view[i as int] == (col, row@[i as int].1@));
            let v: Value = row[i].1.clone();
            values.set(col as usize, v);
            i += 1;
        }
        proof {
            assert(values_view(values@) =~= by_column(view)) by {
                assert forall|c: int| 0 <= c < view.len() implies #[trigger] values_view(
                    values@,
                )[c] == by_column(view)[c] by {
                    assert(common::holds_column(view, c));
                    let k = choose|k: int| 0 <= k < view.len() && #[trigger] view[k].0 == c;
                    assert(view[k].0 == c);
                }
            }
        }
        self.set_slot(ordinal, Slot::Live(values));
        Ok(())
    }

    /// Tombstones `ordinal`, also one that was never written.
    pub fn delete_row(&mut self, ordinal: Ordinal) -> (r: Result<()>)
        ensures
            r is Ok,
            final(self)@ == old(self)@.deleted(ordinal.0),
    {
        self.set_slot(ordinal, Slot::Tombstone);
        Ok(())
    }

    /// Records that the state reflects `lsn`. The mark never goes back.
    pub fn advance_applied_lsn(&mut self, lsn: Lsn)
        ensures
            final(self)@ == old(self)@.advanced(lsn.0),
    {
        if lsn.0 > self.applied_lsn.0 {
            self.applied_lsn = lsn;
        }
    }

    /// The highest log position that the state reflects.
    pub fn applied_lsn(&self) -> (lsn: Lsn)
        ensures
            lsn.0 == self@.applied,
    {
        self.applied_lsn
    }

    /// The snapshot file for the given log position, around a serialized body. A
    /// file in which one byte has changed is refused, whatever its body parses to.
    pub fn encode_snapshot(body: &[u8], last_lsn: Lsn) -> (bytes: Vec<u8>)
        ensures
            bytes@ == codec::envelope(magic(), VERSION, last_lsn.0, body@),
            forall|
                b: Seq<u8>,
                parsed: std::result::Result<(SchemaView, Seq<SlotView>), Seq<char>>,
            |
                checksum::one_byte_apart(bytes@, b) ==> #[trigger] decoded(b, parsed) is Err,
    {
        codec::write_envelope(magic_bytes().as_slice(), VERSION, last_lsn.0, body)
    }
}

/// The read side of the tuple store.
#[derive(Clone, Copy)]
pub struct Reader<'a> {
    inner: &'a Writer,
}

impl<'a> View for Reader<'a> {
    type V = TupleView;

    closed spec fn view(&self) -> TupleView {
        self.inner@
    }
}

impl<'a> Reader<'a> {
    /// The values of `columns` at `ordinal`, in the order requested. An unknown
    /// column is an error whatever the slot holds.
    pub fn get(&self, ordinal: Ordinal, columns: &[ColumnId]) -> (r: Result<RowGet>)
        requires
            self@.fits(),
        ensures
            match self@.unknown_from(columns@, 0) {
                Some(column) => r == Err::<RowGet, Error>(Error::UnknownColumn { column }),
                None => r matches Ok(g) && g@ == self@.get(ordinal.0, columns@),
            },
    {
        let mut i: usize = 0;
        while i < columns.len()
            invariant
                i <= columns@.len(),
                self@.unknown_from(columns@, 0) == self@.unknown_from(columns@, i as int),
                forall|k: int| 0 <= k < i ==> #[trigger] columns@[k] < self@.schema.columns.len(),
            decreases columns@.len() - i,
        {
            if columns[i] as usize >= self.inner.schema.columns.len() {
                return Err(Error::UnknownColumn { column: columns[i] });
            }
            i += 1;
        }
        if ordinal.0 as usize >= self.inner.slots.len() {
            return Ok(RowGet::Missing);
        }
        assert(self@.slots[ordinal.0 as int] == self.inner.slots@[ordinal.0 as int]@);
        match &self.inner.slots[ordinal.0 as usize] {
            Slot::Vacant => Ok(RowGet::Missing),
            Slot::Tombstone => Ok(RowGet::Deleted),
            Slot::Live(values) => {
                let mut out: Vec<Value> = Vec::new();
                let mut j: usize = 0;
                while j < columns.len()
                    invariant
                        j <= columns@.len(),
                        out@.len() == j,
                        values@.len() == self@.schema.columns.len(),
                        forall|k: int|
                            0 <= k < columns@.len() ==> #[trigger] columns@[k]
                                < self@.schema.columns.len(),
                        forall|k: int|
                            0 <= k < j ==> (#[trigger] out@[k])@ == values@[columns@[k] as int]@,
                    decreases columns@.len() - j,
                {
                    out.push(values[columns[j] as usize].clone());
                    j += 1;
                }
                proof {
                    assert(values_view(out@) =~= Seq::new(
                        columns@.len(),
                        |i: int| values_view(values@)[columns@[i] as int],
                    ));
                }
                Ok(RowGet::Live(out))
            },
        }
    }
}

/// A fitting store stays so: an accepted row has one value per column, and a
/// deleted one has none.
pub proof fn law_fits_kept(
    store: TupleView,
    ordinal: u32,
    row: Seq<(ColumnId, ValueView)>,
    lsn: u64,
)
    requires
        store.fits(),
    ensures
        store.schema.row_ok(row) ==> store.written(ordinal, row).fits(),
        store.deleted(ordinal).fits(),
        store.advanced(lsn).fits(),
{
    assert forall|slot: SlotView| (slot matches SlotView::Live(values) ==> values.len()
        == store.schema.columns.len()) implies #[trigger] store.with_slot(ordinal, slot).fits() by {
        let now = store.with_slot(ordinal, slot);
        assert forall|i: int| 0 <= i < now.slots.len() implies (
        #[trigger] now.slots[i] matches SlotView::Live(values) ==> values.len()
            == now.schema.columns.len()) by {
            if i != ordinal && i < store.slots.len() {
                assert(now.slots[i] == store.slots[i]);
            }
        }
    }
    assert(store.with_slot(ordinal, SlotView::Live(by_column(row))) == store.written(ordinal, row));
    assert(store.with_slot(ordinal, SlotView::Tombstone) == store.deleted(ordinal));
    assert(store.advanced(lsn).slots == store.slots);
}

/// A written row reads back: every column gives the value that the row has for
/// it, whatever order the row's entries were in.
pub proof fn law_read_after_write(
    store: TupleView,
    ordinal: u32,
    row: Seq<(ColumnId, ValueView)>,
    columns: Seq<ColumnId>,
    i: int,
    k: int,
)
    requires
        store.schema.row_ok(row),
        0 <= i < columns.len(),
        0 <= k < row.len(),
        row[k].0 == columns[i],
    ensures
        store.written(ordinal, row).get(ordinal, columns) matches RowGetView::Live(values)
            && values.len() == columns.len() && values[i] == row[k].1,
{
    common::law_accepted_row_is_complete(store.schema, row);
    let c = columns[i] as int;
    let j = choose|j: int| 0 <= j < row.len() && #[trigger] row[j].0 == c;
    assert(row[j].0 == c);
}

/// Writing or deleting one row leaves what every other row reads unchanged.
pub proof fn law_other_rows_untouched(
    store: TupleView,
    ordinal: u32,
    other: u32,
    row: Seq<(ColumnId, ValueView)>,
    columns: Seq<ColumnId>,
)
    requires
        ordinal != other,
    ensures
        store.written(ordinal, row).get(other, columns) == store.get(other, columns),
        store.deleted(ordinal).get(other, columns) == store.get(other, columns),
{
}

/// Writing the same row again, or deleting again, changes nothing.
pub proof fn law_replay_is_idempotent(
    store: TupleView,
    ordinal: u32,
    row: Seq<(ColumnId, ValueView)>,
)
    ensures
        store.written(ordinal, row).written(ordinal, row) == store.written(ordinal, row),
        store.deleted(ordinal).deleted(ordinal) == store.deleted(ordinal),
{
    assert(store.written(ordinal, row).written(ordinal, row).slots =~= store.written(
        ordinal,
        row,
    ).slots);
    assert(store.deleted(ordinal).deleted(ordinal).slots =~= store.deleted(ordinal).slots);
}

/// A deleted row reads as deleted, also one that was never written; a row that
/// was neither written nor deleted reads as missing.
pub proof fn law_deleted_is_not_missing(
    schema: SchemaView,
    store: TupleView,
    ordinal: u32,
    columns: Seq<ColumnId>,
)
    ensures
        store.deleted(ordinal).get(ordinal, columns) is Deleted,
        TupleView::empty(schema).get(ordinal, columns) is Missing,
{
}

/// A snapshot gives back the store that was saved, at the log position that was
/// claimed, once its body is parsed back.
pub proof fn law_snapshot_round_trip(store: TupleView, body: Seq<u8>, lsn: u64)
    requires
        body.len() <= u32::MAX,
    ensures
        codec::opened(magic(), VERSION, codec::envelope(magic(), VERSION, lsn, body)) == Ok::<
            (u64, Seq<u8>),
            Seq<char>,
        >((lsn, body)),
        decoded(
            codec::envelope(magic(), VERSION, lsn, body),
            Ok((store.schema, store.slots)),
        ) == Ok::<TupleView, Seq<char>>(TupleView { applied: lsn, ..store }),
{
    codec::law_envelope_round_trip(magic(), VERSION, lsn, body);
}

/// The magic of a file of rows is the text `TUP0`, and its version is 1.
pub proof fn law_rows_magic()
    ensures
        magic().len() == 4,
        magic()[0] == 'T' as u32,
        magic()[1] == 'U' as u32,
        magic()[2] == 'P' as u32,
        magic()[3] == '0' as u32,
        VERSION == 1,
{
}

/// A read of a column that there is not is refused, for the first such column that was
/// asked for.
pub proof fn law_unknown_column(store: TupleView, columns: Seq<ColumnId>, from: int)
    requires
        0 <= from <= columns.len(),
    ensures
        match store.unknown_from(columns, from) {
            Some(id) => exists|i: int|
                {
                    &&& from <= i < columns.len()
                    &&& #[trigger] columns[i] == id
                    &&& id >= store.schema.columns.len()
                    &&& forall|j: int|
                        from <= j < i ==> #[trigger] columns[j] < store.schema.columns.len()
                },
            None => forall|i: int|
                from <= i < columns.len() ==> #[trigger] columns[i] < store.schema.columns.len(),
        },
    decreases columns.len() - from,
{
    if from < columns.len() {
        if columns[from] >= store.schema.columns.len() {
            assert(columns[from] == columns[from]);
        } else {
            law_unknown_column(store, columns, from + 1);
            if let Some(id) = store.unknown_from(columns, from + 1) {
                let i = choose|i: int|
                    {
                        &&& from + 1 <= i < columns.len()
                        &&& #[trigger] columns[i] == id
                        &&& id >= store.schema.columns.len()
                        &&& forall|j: int|
                            from + 1 <= j < i ==> #[trigger] columns[j]
                                < store.schema.columns.len()
                    };
                assert(columns[i] == id);
            }
        }
    }
}

/// A file of rows that can be opened and whose body was parsed gives what was parsed, at
/// the log position of the file; any other gives an error.
pub proof fn law_rows_file(
    bytes: Seq<u8>,
    parsed: std::result::Result<(SchemaView, Seq<SlotView>), Seq<char>>,
)
    ensures
        match (codec::opened(magic(), VERSION, bytes), parsed) {
            (Ok((lsn, _)), Ok((schema, slots))) => decoded(bytes, parsed) matches Ok(view)
                && view.schema == schema && view.slots == slots && view.applied == lsn,
            (Ok(_), Err(why)) => decoded(bytes, parsed) == Err::<TupleView, Seq<char>>(
                "body: "@ + why,
            ),
            (Err(why), _) => decoded(bytes, parsed) == Err::<TupleView, Seq<char>>(why),
        },
{
}

} // verus!
