//! The metadata index: maps (column, value) to the set of ordinals.
//!
//! Deletes are lazy. Removing a row only clears its bit in the live set; the
//! posting lists keep the ordinal, and every lookup masks its result with the
//! live set before it returns.

use vstd::prelude::*;
use vstd::string::*;

use crate::bitmap;
use crate::bitmap::Bitmap;
use crate::checksum;
use crate::codec;
use crate::error;
use crate::error::{corrupt, Error, Result};
use crate::float;
use crate::float::{is_nan64, to_key64};
use crate::metadata::common;
use crate::metadata::common::{
    ColumnId, ColumnType, Lsn, Ordinal, RangeOp, Row, Schema, SchemaView, Value,
    ValueView,
};
use crate::metadata::postings;
use crate::metadata::postings::{bits_of, rank_of, Postings, TextPostings};
use crate::number;
use crate::text;
use crate::text::{join2, text_of_bytes};

verus! {

/// The posting lists of one column, by the column's type.
pub enum ColumnStore {
    /// Lists of an integer column, by value.
    Int(Postings),
    /// Lists of a float column, by rank.
    Float(Postings),
    /// Lists of a text column, by string.
    Text(TextPostings),
}

/// What a [`ColumnStore`] holds.
pub enum ColumnView {
    /// Lists of an integer column.
    Int(Seq<(i64, Set<u32>)>),
    /// Lists of a float column, by rank.
    Float(Seq<(i64, Set<u32>)>),
    /// Lists of a text column.
    Text(Seq<(Seq<char>, Set<u32>)>),
}

impl View for ColumnStore {
    type V = ColumnView;

    open spec fn view(&self) -> ColumnView {
        match self {
            ColumnStore::Int(p) => ColumnView::Int(p@),
            ColumnStore::Float(p) => ColumnView::Float(p@),
            ColumnStore::Text(p) => ColumnView::Text(p@),
        }
    }
}

impl ColumnView {
    /// The type of the column.
    pub open spec fn ty(self) -> ColumnType {
        match self {
            ColumnView::Int(_) => ColumnType::Int,
            ColumnView::Float(_) => ColumnType::Float,
            ColumnView::Text(_) => ColumnType::Text,
        }
    }

    /// A column of the given type without any list.
    pub open spec fn empty(ty: ColumnType) -> ColumnView {
        match ty {
            ColumnType::Int => ColumnView::Int(Seq::empty()),
            ColumnType::Float => ColumnView::Float(Seq::empty()),
            ColumnType::Text => ColumnView::Text(Seq::empty()),
        }
    }

    /// Keys ascend in a numeric column, and those of a float column are proper;
    /// no string comes twice in a text column.
    pub open spec fn ordered(self) -> bool {
        match self {
            ColumnView::Int(l) => postings::sorted(l),
            ColumnView::Float(l) => postings::sorted(l) && proper(l),
            ColumnView::Text(l) => postings::unique_names(l),
        }
    }

    /// Why a value cannot be looked up or inserted: another type than the
    /// column's, or a NaN.
    pub open spec fn fault(self, column: ColumnId, value: ValueView) -> Option<Error> {
        if value.ty() != self.ty() {
            Some(Error::TypeMismatch { column, expected: self.ty(), got: value.ty() })
        } else if value.nan() {
            Some(Error::NaNRejected { column })
        } else {
            None
        }
    }

    /// The column with `ordinal` added under a value of its type.
    pub open spec fn added(self, ordinal: u32, value: ValueView) -> ColumnView {
        match (self, value) {
            (ColumnView::Int(l), ValueView::Int(k)) => ColumnView::Int(
                postings::added(l, k, ordinal),
            ),
            (ColumnView::Float(l), ValueView::Float(b)) => ColumnView::Float(
                postings::added(l, float::rank64(float::key64(b)) as i64, ordinal),
            ),
            (ColumnView::Text(l), ValueView::Text(s)) => ColumnView::Text(
                postings::added_name(l, s, ordinal),
            ),
            _ => self,
        }
    }

    /// The ordinals under a value of the column's type.
    pub open spec fn under(self, value: ValueView) -> Set<u32> {
        match (self, value) {
            (ColumnView::Int(l), ValueView::Int(k)) => postings::under(l, k),
            (ColumnView::Float(l), ValueView::Float(b)) => postings::under(
                l,
                float::rank64(float::key64(b)) as i64,
            ),
            (ColumnView::Text(l), ValueView::Text(s)) => postings::under_name(l, s),
            _ => Set::empty(),
        }
    }

    /// Why a range lookup fails. A text column never fails: its ranges are empty.
    pub open spec fn range_fault(self, column: ColumnId, value: ValueView) -> Option<Error> {
        match self {
            ColumnView::Text(_) => None,
            _ => self.fault(column, value),
        }
    }

    /// The ordinals under every key that satisfies the comparison.
    pub open spec fn between(self, op: RangeOp, value: ValueView) -> Set<u32> {
        match (self, value) {
            (ColumnView::Int(l), ValueView::Int(k)) => postings::between(l, op, k as int),
            (ColumnView::Float(l), ValueView::Float(b)) => postings::between(
                l,
                op,
                float::rank64(float::key64(b)),
            ),
            _ => Set::empty(),
        }
    }
}

/// Every rank is that of a float that is neither a NaN nor negative zero.
pub open spec fn proper(lists: Seq<(i64, Set<u32>)>) -> bool {
    forall|i: int| 0 <= i < lists.len() ==> proper_rank((#[trigger] lists[i]).0)
}

/// The rank of a float that is neither a NaN nor negative zero.
pub open spec fn proper_rank(rank: i64) -> bool {
    !float::nan64(postings::unrank(rank)) && postings::unrank(rank) != float::SIGN64
}

/// Adding under the key of a float that is not a NaN keeps the keys proper.
pub proof fn lemma_put_proper(lists: Seq<(i64, Set<u32>)>, bits: u64, set: Set<u32>)
    requires
        postings::sorted(lists),
        proper(lists),
        !float::nan64(bits),
    ensures
        proper(postings::put(lists, float::rank64(float::key64(bits)) as i64, set)),
{
    let key = float::rank64(float::key64(bits)) as i64;
    let now = postings::put(lists, key, set);
    let p = postings::slot(lists, key);
    postings::lemma_slot(lists, key);
    postings::lemma_rank_round_trip(key, float::key64(bits));
    assert forall|i: int| 0 <= i < now.len() implies proper_rank((#[trigger] now[i]).0) by {
        if i != p {
            if postings::listed(lists, key) || i < p {
                assert(now[i] == lists[i]);
            } else {
                assert(now[i] == lists[i - 1]);
            }
        }
    }
}

impl ColumnStore {
    /// Well-formed posting lists, with proper keys in a float column.
    pub open spec fn wf(&self) -> bool {
        match self {
            ColumnStore::Int(p) => p.wf(),
            ColumnStore::Float(p) => p.wf() && proper(p@),
            ColumnStore::Text(p) => p.wf(),
        }
    }

    /// What well-formedness says of the view.
    pub proof fn lemma_wf(&self)
        requires
            self.wf(),
        ensures
            self@.ordered(),
    {
        match self {
            ColumnStore::Int(p) => p.lemma_wf(),
            ColumnStore::Float(p) => p.lemma_wf(),
            ColumnStore::Text(p) => p.lemma_wf(),
        }
    }

    /// The number of lists fits in a machine word.
    proof fn lemma_lengths(&self)
        requires
            self.wf(),
        ensures
            match self@ {
                ColumnView::Int(l) => l.len() <= u64::MAX,
                ColumnView::Float(l) => l.len() <= u64::MAX,
                ColumnView::Text(l) => l.len() <= u64::MAX,
            },
    {
        match self {
            ColumnStore::Int(p) => p.lemma_wf(),
            ColumnStore::Float(p) => p.lemma_wf(),
            ColumnStore::Text(p) => p.lemma_wf(),
        }
    }

    /// An empty store for a column of the given type.
    pub fn empty(ty: ColumnType) -> (c: ColumnStore)
        ensures
            c.wf(),
            c@ == ColumnView::empty(ty),
    {
        match ty {
            ColumnType::Int => ColumnStore::Int(Postings::new()),
            ColumnType::Float => ColumnStore::Float(Postings::new()),
            ColumnType::Text => ColumnStore::Text(TextPostings::new()),
        }
    }

    /// The type of the column.
    pub fn column_type(&self) -> (ty: ColumnType)
        ensures
            ty == self@.ty(),
    {
        match self {
            ColumnStore::Int(_) => ColumnType::Int,
            ColumnStore::Float(_) => ColumnType::Float,
            ColumnStore::Text(_) => ColumnType::Text,
        }
    }

    /// Adds `ordinal` to the posting list of `value`. Adding it again changes
    /// nothing.
    pub fn insert(&mut self, column: ColumnId, ordinal: Ordinal, value: &Value) -> (r: Result<()>)
        requires
            old(self).wf(),
        ensures
            final(self).wf(),
            match old(self)@.fault(column, value@) {
                Some(e) => r == Err::<(), Error>(e) && final(self)@ == old(self)@,
                None => r is Ok && final(self)@ == old(self)@.added(ordinal.0, value@),
            },
    {
        let expected: ColumnType = self.column_type();
        match (self, value) {
            (ColumnStore::Int(lists), Value::Int(k)) => {
                lists.add(*k, ordinal.0);
                Ok(())
            },
            (ColumnStore::Float(lists), Value::Float(bits)) => {
                if is_nan64(*bits) {
                    return Err(Error::NaNRejected { column });
                }
                proof {
                    lists.lemma_wf();
                    let key = float::rank64(float::key64(*bits)) as i64;
                    lemma_put_proper(
                        lists@,
                        *bits,
                        postings::under(lists@, key).insert(ordinal.0),
                    );
                }
                lists.add(rank_of(to_key64(*bits)), ordinal.0);
                Ok(())
            },
            (ColumnStore::Text(lists), Value::Text(s)) => {
                lists.add(s, ordinal.0);
                Ok(())
            },
            (_, value) => Err(
                Error::TypeMismatch { column, expected, got: value.column_type() },
            ),
        }
    }

    /// The ordinals whose value is `value`, tombstones included.
    pub fn lookup_eq(&self, column: ColumnId, value: &Value) -> (r: Result<Bitmap>)
        requires
            self.wf(),
        ensures
            match self@.fault(column, value@) {
                Some(e) => r == Err::<Bitmap, Error>(e),
                None => r matches Ok(b) && b.wf() && b@ == self@.under(value@),
            },
    {
        match (self, value) {
            (ColumnStore::Int(lists), Value::Int(k)) => Ok(lists.get(*k)),
            (ColumnStore::Float(lists), Value::Float(bits)) => {
                if is_nan64(*bits) {
                    return Err(Error::NaNRejected { column });
                }
                Ok(lists.get(rank_of(to_key64(*bits))))
            },
            (ColumnStore::Text(lists), Value::Text(s)) => Ok(lists.get(s)),
            (store, value) => Err(
                Error::TypeMismatch {
                    column,
                    expected: store.column_type(),
                    got: value.column_type(),
                },
            ),
        }
    }

    /// The ordinals whose value satisfies the comparison, tombstones included. A
    /// text column gives none.
    pub fn lookup_range(&self, column: ColumnId, op: RangeOp, value: &Value) -> (r: Result<Bitmap>)
        requires
            self.wf(),
        ensures
            match self@.range_fault(column, value@) {
                Some(e) => r == Err::<Bitmap, Error>(e),
                None => r matches Ok(b) && b.wf() && b@ == self@.between(op, value@),
            },
    {
        match self {
            ColumnStore::Text(_) => Ok(Bitmap::new()),
            ColumnStore::Int(lists) => {
                match value {
                    Value::Int(k) => Ok(lists.range(op, *k)),
                    other => Err(
                        Error::TypeMismatch {
                            column,
                            expected: ColumnType::Int,
                            got: other.column_type(),
                        },
                    ),
                }
            },
            ColumnStore::Float(lists) => {
                match value {
                    Value::Float(bits) => {
                        if is_nan64(*bits) {
                            return Err(Error::NaNRejected { column });
                        }
                        Ok(lists.range(op, rank_of(to_key64(*bits))))
                    },
                    other => Err(
                        Error::TypeMismatch {
                            column,
                            expected: ColumnType::Float,
                            got: other.column_type(),
                        },
                    ),
                }
            },
        }
    }
}

/// The columns after the first `n` entries of a row were added at `ordinal`.
pub open spec fn filled(
    columns: Seq<ColumnView>,
    row: Seq<(ColumnId, ValueView)>,
    n: nat,
    ordinal: u32,
) -> Seq<ColumnView>
    decreases n,
{
    if n == 0 {
        columns
    } else {
        let before = filled(columns, row, (n - 1) as nat, ordinal);
        let c = row[n - 1].0 as int;
        before.update(c, before[c].added(ordinal, row[n - 1].1))
    }
}

/// What the index holds.
pub struct IndexView {
    /// The schema.
    pub schema: SchemaView,
    /// The posting lists, one column each, by column id.
    pub columns: Seq<ColumnView>,
    /// The ordinals that are alive.
    pub live: Set<u32>,
    /// The highest log position whose effects are in here.
    pub applied: u64,
}

impl IndexView {
    /// An index of the given schema without any row.
    pub open spec fn empty(schema: SchemaView) -> IndexView {
        IndexView {
            schema,
            columns: Seq::new(
                schema.columns.len(),
                |i: int| ColumnView::empty(schema.columns[i].ty),
            ),
            live: Set::empty(),
            applied: 0,
        }
    }

    /// One ordered column of posting lists per scalar column, of its type.
    pub open spec fn consistent(self) -> bool {
        &&& self.columns.len() == self.schema.columns.len()
        &&& forall|i: int|
            0 <= i < self.columns.len() ==> (#[trigger] self.columns[i]).ty()
                == self.schema.columns[i].ty && self.columns[i].ordered()
    }

    /// The index after an accepted row was inserted at `ordinal`.
    pub open spec fn inserted(self, ordinal: u32, row: Seq<(ColumnId, ValueView)>) -> IndexView {
        IndexView {
            columns: filled(self.columns, row, row.len(), ordinal),
            live: self.live.insert(ordinal),
            ..self
        }
    }

    /// The index after the row at `ordinal` was removed.
    pub open spec fn removed(self, ordinal: u32) -> IndexView {
        IndexView { live: self.live.remove(ordinal), ..self }
    }

    /// The index after log position `lsn` was applied.
    pub open spec fn advanced(self, lsn: u64) -> IndexView {
        IndexView {
            applied: if lsn > self.applied {
                lsn
            } else {
                self.applied
            },
            ..self
        }
    }

    /// Every string is short enough for its length field in a snapshot.
    pub open spec fn names_fit(self) -> bool {
        forall|i: int| 0 <= i < self.columns.len() ==> names_fit(#[trigger] self.columns[i])
    }

    /// Why a lookup for equality fails.
    pub open spec fn eq_fault(self, col: ColumnId, value: ValueView) -> Option<Error> {
        if col >= self.columns.len() {
            Some(Error::UnknownColumn { column: col })
        } else {
            self.columns[col as int].fault(col, value)
        }
    }

    /// The live ordinals whose column has the value.
    pub open spec fn eq(self, col: ColumnId, value: ValueView) -> Set<u32> {
        self.columns[col as int].under(value).intersect(self.live)
    }

    /// Why a range lookup fails.
    pub open spec fn range_fault(self, col: ColumnId, value: ValueView) -> Option<Error> {
        if col >= self.columns.len() {
            Some(Error::UnknownColumn { column: col })
        } else {
            self.columns[col as int].range_fault(col, value)
        }
    }

    /// The live ordinals whose column satisfies the comparison.
    pub open spec fn range(self, col: ColumnId, op: RangeOp, value: ValueView) -> Set<u32> {
        self.columns[col as int].between(op, value).intersect(self.live)
    }
}

/// The metadata index of one collection: the single place where it changes.
pub struct Writer {
    schema: Schema,
    columns: Vec<ColumnStore>,
    live: Bitmap,
    applied_lsn: Lsn,
}

impl View for Writer {
    type V = IndexView;

    closed spec fn view(&self) -> IndexView {
        IndexView {
            schema: self.schema@,
            columns: self.columns@.map_values(|c: ColumnStore| c@),
            live: self.live@,
            applied: self.applied_lsn.0,
        }
    }
}

/// Namespace of the constructors.
pub struct MetadataIndex;

impl MetadataIndex {
    /// A fresh index without any row, at log position 0.
    pub fn create(schema: Schema) -> (w: Writer)
        ensures
            w.wf(),
            w@ == IndexView::empty(schema@),
    {
        let mut columns: Vec<ColumnStore> = Vec::new();
        let mut i: usize = 0;
        while i < schema.columns.len()
            invariant
                i <= schema.columns@.len(),
                columns@.len() == i,
                forall|k: int|
                    0 <= k < i ==> (#[trigger] columns@[k]).wf() && columns@[k]@
                        == ColumnView::empty(schema@.columns[k].ty),
            decreases schema.columns@.len() - i,
        {
            columns.push(ColumnStore::empty(schema.columns[i].ty));
            i += 1;
        }
        let w = Writer { schema, columns, live: Bitmap::new(), applied_lsn: Lsn(0) };
        proof {
            assert(w@.columns =~= IndexView::empty(schema@).columns);
        }
        w
    }
}

impl Writer {
    /// One well-formed store per column, of the column's type, and a well-formed
    /// live set.
    pub closed spec fn wf(&self) -> bool {
        &&& self.live.wf()
        &&& self.columns@.len() == self.schema.columns@.len()
        &&& forall|i: int|
            0 <= i < self.columns@.len() ==> (#[trigger] self.columns@[i]).wf()
                && self.columns@[i]@.ty() == self.schema.columns@[i].ty
    }

    /// What well-formedness says of the view.
    pub proof fn lemma_wf(&self)
        requires
            self.wf(),
        ensures
            self@.consistent(),
    {
        assert forall|i: int| 0 <= i < self@.columns.len() implies (
        #[trigger] self@.columns[i]).ty() == self@.schema.columns[i].ty
            && self@.columns[i].ordered() by {
            self.columns@[i].lemma_wf();
        }
    }

    /// The read side of the index.
    pub fn reader(&self) -> (r: Reader<'_>)
        ensures
            r@ == self@,
            r.wf() == self.wf(),
    {
        Reader { inner: self }
    }

    /// The schema.
    pub fn schema(&self) -> (s: &Schema)
        ensures
            s@ == self@.schema,
    {
        &self.schema
    }

    /// Inserts a full row at `ordinal`. The row is checked before anything
    /// changes, so a bad row leaves nothing behind.
    pub fn insert_row(&mut self, ordinal: Ordinal, row: &Row) -> (r: Result<()>)
        requires
            old(self).wf(),
        ensures
            final(self).wf(),
            match old(self)@.schema.row_fault(common::row_view(row@)) {
                Some(e) => r == Err::<(), Error>(e) && final(self)@ == old(self)@,
                None => r is Ok && final(self)@ == old(self)@.inserted(
                    ordinal.0,
                    common::row_view(row@),
                ),
            },
    {
        match self.schema.validate_row(row) {
            Ok(()) => {},
            Err(e) => {
                return Err(e);
            },
        }
        let ghost view = common::row_view(row@);
        let ghost was = self@;
        proof {
            common::law_accepted_row_is_complete(was.schema, view);
        }
        let mut i: usize = 0;
        while i < row.len()
            invariant
                i <= row@.len(),
                view == common::row_view(row@),
                self.wf(),
                self@ == (IndexView { columns: filled(was.columns, view, i as nat, ordinal.0), ..was
                }),
                forall|k: int|
                    0 <= k < view.len() ==> {
                        let e = #[trigger] view[k];
                        &&& e.0 < was.schema.columns.len()
                        &&& e.1.ty() == was.schema.columns[e.0 as int].ty
                        &&& !e.1.nan()
                    },
            decreases row@.len() - i,
        {
            let col: ColumnId = row[i].0;
            assert(view[i as int] == (col, row@[i as int].1@));
            assert(self.columns@[col as int]@.ty() == self.schema.columns@[col as int].ty);
            let ghost before = self.columns@;
            let _ = self.columns[col as usize].insert(col, ordinal, &row[i].1);
            proof {
                assert(self@.columns =~= before.map_values(|c: ColumnStore| c@).update(
                    col as int,
                    self.columns@[col as int]@,
                ));
                assert(self@.columns =~= filled(was.columns, view, (i + 1) as nat, ordinal.0));
            }
            i += 1;
        }
        self.live.insert(ordinal.0);
        Ok(())
    }

    /// Tombstones `ordinal`. One that is not alive stays so.
    pub fn remove_row(&mut self, ordinal: Ordinal) -> (r: Result<()>)
        requires
            old(self).wf(),
        ensures
            final(self).wf(),
            r is Ok,
            final(self)@ == old(self)@.removed(ordinal.0),
    {
        self.live.remove(ordinal.0);
        Ok(())
    }

    /// Records that the state reflects `lsn`. The mark never goes back.
    pub fn advance_applied_lsn(&mut self, lsn: Lsn)
        requires
            old(self).wf(),
        ensures
            final(self).wf(),
            final(self)@ == old(self)@.advanced(lsn.0),
    {
        if lsn.0 > self.applied_lsn.0 {
            self.applied_lsn = lsn;
        }
    }

    /// The highest log position that the state reflects.
    pub fn applied_lsn(&self) -> (lsn: Lsn)
        ensures
            lsn.0 == self@.applied,
    {
        self.applied_lsn
    }
}

/// The read side of the metadata index.
#[derive(Clone, Copy)]
pub struct Reader<'a> {
    inner: &'a Writer,
}

impl<'a> View for Reader<'a> {
    type V = IndexView;

    closed spec fn view(&self) -> IndexView {
        self.inner@
    }
}

impl<'a> Reader<'a> {
    /// The index read is well-formed.
    pub closed spec fn wf(&self) -> bool {
        self.inner.wf()
    }

    /// The live ordinals whose column `col` is `value`.
    pub fn lookup_eq(&self, col: ColumnId, value: &Value) -> (r: Result<Bitmap>)
        requires
            self.wf(),
        ensures
            match self@.eq_fault(col, value@) {
                Some(e) => r == Err::<Bitmap, Error>(e),
                None => r matches Ok(b) && b.wf() && b@ == self@.eq(col, value@),
            },
    {
        if col as usize >= self.inner.columns.len() {
            return Err(Error::UnknownColumn { column: col });
        }
        assert(self.inner.columns@[col as int].wf());
        match self.inner.columns[col as usize].lookup_eq(col, value) {
            Ok(b) => {
                let mut b = b;
                b.intersect_with(&self.inner.live);
                Ok(b)
            },
            Err(e) => Err(e),
        }
    }

    /// The live ordinals whose column `col` satisfies the comparison with
    /// `value`. A text column gives none.
    pub fn lookup_range(&self, col: ColumnId, op: RangeOp, value: &Value) -> (r: Result<Bitmap>)
        requires
            self.wf(),
        ensures
            match self@.range_fault(col, value@) {
                Some(e) => r == Err::<Bitmap, Error>(e),
                None => r matches Ok(b) && b.wf() && b@ == self@.range(col, op, value@),
            },
    {
        if col as usize >= self.inner.columns.len() {
            return Err(Error::UnknownColumn { column: col });
        }
        assert(self.inner.columns@[col as int].wf());
        match self.inner.columns[col as usize].lookup_range(col, op, value) {
            Ok(b) => {
                let mut b = b;
                b.intersect_with(&self.inner.live);
                Ok(b)
            },
            Err(e) => Err(e),
        }
    }

    /// A copy of the live set.
    pub fn live(&self) -> (b: Bitmap)
        requires
            self.wf(),
        ensures
            b.wf(),
            b@ == self@.live,
    {
        self.inner.live.clone()
    }

    /// How many ordinals are alive.
    pub fn live_count(&self) -> (n: u64)
        requires
            self.wf(),
        ensures
            n == self@.live.len(),
    {
        self.inner.live.len()
    }
}

// ---------------------------------------------------------------------------
// The snapshot file
// ---------------------------------------------------------------------------

/// The version of the snapshot format.
pub const VERSION: u32 = 1;

/// The four bytes that open a metadata snapshot: `MET0`.
pub open spec fn magic() -> Seq<u8> {
    seq![0x4du8, 0x45u8, 0x54u8, 0x30u8]
}

fn magic_bytes() -> (m: Vec<u8>)
    ensures
        m@ == magic(),
{
    let m: Vec<u8> = vec![0x4du8, 0x45u8, 0x54u8, 0x30u8];
    proof {
        assert(m@ =~= magic());
    }
    m
}

/// How a key is written: an integer as itself, a float as its bit pattern.
pub open spec fn key_word(key: i64, float: bool) -> u64 {
    if float {
        postings::unrank(key)
    } else {
        key as u64
    }
}

/// The key that a written word stands for.
pub open spec fn word_key(word: u64, float: bool) -> i64 {
    if float {
        float::rank64(float::key64(word)) as i64
    } else {
        word as i64
    }
}

/// The bytes of the numeric posting lists from index `i` on.
pub open spec fn numeric_bytes(lists: Seq<(i64, Set<u32>)>, i: int, float: bool) -> Seq<u8>
    decreases lists.len() - i,
{
    if i < 0 || i >= lists.len() {
        Seq::empty()
    } else {
        codec::le64(key_word(lists[i].0, float)) + bitmap::bitmap_encoding(lists[i].1)
            + numeric_bytes(lists, i + 1, float)
    }
}

/// The bytes of the text posting lists from index `i` on.
pub open spec fn text_bytes(lists: Seq<(Seq<char>, Set<u32>)>, i: int) -> Seq<u8>
    decreases lists.len() - i,
{
    if i < 0 || i >= lists.len() {
        Seq::empty()
    } else {
        let name = vstd::utf8::encode_utf8(lists[i].0);
        codec::le32(name.len() as u32) + name + bitmap::bitmap_encoding(lists[i].1) + text_bytes(
            lists,
            i + 1,
        )
    }
}

/// The block of one column: the number of lists, then the lists.
pub open spec fn column_bytes(column: ColumnView) -> Seq<u8> {
    match column {
        ColumnView::Int(l) => codec::le64(l.len() as u64) + numeric_bytes(l, 0, false),
        ColumnView::Float(l) => codec::le64(l.len() as u64) + numeric_bytes(l, 0, true),
        ColumnView::Text(l) => codec::le64(l.len() as u64) + text_bytes(l, 0),
    }
}

/// The blocks of the columns from index `i` on.
pub open spec fn columns_bytes(columns: Seq<ColumnView>, i: int) -> Seq<u8>
    decreases columns.len() - i,
{
    if i < 0 || i >= columns.len() {
        Seq::empty()
    } else {
        column_bytes(columns[i]) + columns_bytes(columns, i + 1)
    }
}

/// The snapshot file of an index: fixed fields, the serialized schema behind its
/// length, one block per column, the live set, the checksum.
pub open spec fn encoded(index: IndexView, schema: Seq<u8>, lsn: u64) -> Seq<u8> {
    codec::sealed(
        codec::preamble(magic(), VERSION, lsn) + codec::le32(schema.len() as u32) + schema
            + columns_bytes(index.columns, 0) + bitmap::bitmap_encoding(index.live),
    )
}

/// Reads `n` numeric posting lists: the lists put onto `lists` in turn, and the
/// bytes left, or what is wrong.
pub open spec fn parse_numeric(
    cur: Seq<u8>,
    n: nat,
    lists: Seq<(i64, Set<u32>)>,
    float: bool,
) -> std::result::Result<(Seq<(i64, Set<u32>)>, Seq<u8>), Seq<char>>
    decreases n,
{
    if n == 0 {
        Ok((lists, cur))
    } else if cur.len() < 8 {
        Err("truncated"@)
    } else {
        let word = codec::from_le64(cur.take(8));
        if float && float::nan64(word) {
            Err("NaN float key"@)
        } else {
            match bitmap::bitmap_decoding(cur.skip(8)) {
                Err(why) => Err("bitmap: "@ + why),
                Ok((set, used)) => parse_numeric(
                    cur.skip(8).skip(used as int),
                    (n - 1) as nat,
                    postings::put(lists, word_key(word, float), set),
                    float,
                ),
            }
        }
    }
}

/// Reads `n` text posting lists.
pub open spec fn parse_text(
    cur: Seq<u8>,
    n: nat,
    lists: Seq<(Seq<char>, Set<u32>)>,
) -> std::result::Result<(Seq<(Seq<char>, Set<u32>)>, Seq<u8>), Seq<char>>
    decreases n,
{
    if n == 0 {
        Ok((lists, cur))
    } else if cur.len() < 4 {
        Err("truncated"@)
    } else {
        let len = codec::from_le32(cur.take(4)) as int;
        let tail = cur.skip(4);
        if tail.len() < len {
            Err("truncated"@)
        } else {
            let name = tail.take(len);
            if !vstd::utf8::valid_utf8(name) {
                Err("text key: "@ + text::utf8_fault(name))
            } else {
                match bitmap::bitmap_decoding(tail.skip(len)) {
                    Err(why) => Err("bitmap: "@ + why),
                    Ok((set, used)) => parse_text(
                        tail.skip(len).skip(used as int),
                        (n - 1) as nat,
                        postings::put_name(lists, vstd::utf8::decode_utf8(name), set),
                    ),
                }
            }
        }
    }
}

/// Reads the block of a column of the given type.
pub open spec fn parse_column(cur: Seq<u8>, ty: ColumnType) -> std::result::Result<
    (ColumnView, Seq<u8>),
    Seq<char>,
> {
    if cur.len() < 8 {
        Err("truncated"@)
    } else {
        let n = codec::from_le64(cur.take(8)) as nat;
        let tail = cur.skip(8);
        match ty {
            ColumnType::Int => match parse_numeric(tail, n, Seq::empty(), false) {
                Ok((lists, rest)) => Ok((ColumnView::Int(lists), rest)),
                Err(why) => Err(why),
            },
            ColumnType::Float => match parse_numeric(tail, n, Seq::empty(), true) {
                Ok((lists, rest)) => Ok((ColumnView::Float(lists), rest)),
                Err(why) => Err(why),
            },
            ColumnType::Text => match parse_text(tail, n, Seq::empty()) {
                Ok((lists, rest)) => Ok((ColumnView::Text(lists), rest)),
                Err(why) => Err(why),
            },
        }
    }
}

/// Reads the blocks of the schema's columns from index `i` on, behind those
/// already read.
pub open spec fn parse_columns(
    cur: Seq<u8>,
    schema: SchemaView,
    i: int,
    columns: Seq<ColumnView>,
) -> std::result::Result<(Seq<ColumnView>, Seq<u8>), Seq<char>>
    decreases schema.columns.len() - i,
{
    if i < 0 || i >= schema.columns.len() {
        Ok((columns, cur))
    } else {
        match parse_column(cur, schema.columns[i].ty) {
            Err(why) => Err(why),
            Ok((column, rest)) => parse_columns(rest, schema, i + 1, columns.push(column)),
        }
    }
}

/// The serialized schema inside a snapshot file, and the bytes behind it up to
/// the checksum, or what is wrong with the frame.
pub open spec fn frame(bytes: Seq<u8>) -> std::result::Result<(Seq<u8>, Seq<u8>), Seq<char>> {
    match codec::seal_fault(bytes) {
        Some(why) => Err(why),
        None => {
            let body = bytes.take(bytes.len() - 4);
            match codec::preamble_fault(magic(), VERSION, body) {
                Some(why) => Err(why),
                None => {
                    let len = codec::from_le32(body.subrange(16, 20)) as int;
                    let tail = body.skip(20);
                    if tail.len() < len {
                        Err("truncated"@)
                    } else {
                        Ok((tail.take(len), tail.skip(len)))
                    }
                },
            }
        },
    }
}

/// The index that a snapshot file stands for, given what its schema was parsed
/// to, or what is wrong with it.
pub open spec fn decoded(
    bytes: Seq<u8>,
    schema: std::result::Result<SchemaView, Seq<char>>,
) -> std::result::Result<IndexView, Seq<char>> {
    match frame(bytes) {
        Err(why) => Err(why),
        Ok((_, tail)) => match schema {
            Err(why) => Err("schema: "@ + why),
            Ok(schema) => match parse_columns(tail, schema, 0, Seq::empty()) {
                Err(why) => Err(why),
                Ok((columns, rest)) => match bitmap::bitmap_decoding(rest) {
                    Err(why) => Err("bitmap: "@ + why),
                    Ok((live, used)) => if rest.skip(used as int).len() > 0 {
                        Err("trailing bytes"@)
                    } else {
                        Ok(
                            IndexView {
                                schema,
                                columns,
                                live,
                                applied: codec::from_le64(bytes.subrange(8, 16)),
                            },
                        )
                    },
                },
            },
        },
    }
}

/// What parsing a schema gave.
pub open spec fn schema_view(schema: std::result::Result<Schema, String>) -> std::result::Result<
    SchemaView,
    Seq<char>,
> {
    match schema {
        Ok(s) => Ok(s@),
        Err(why) => Err(why@),
    }
}

fn read_numeric(cur: &mut &[u8], n: u64, float: bool) -> (r: Result<Postings>)
    ensures
        match parse_numeric(old(cur)@, n as nat, Seq::empty(), float) {
            Ok((lists, rest)) => {
                &&& r matches Ok(p) && p.wf() && p@ == lists && (float ==> proper(p@))
                &&& final(cur)@ == rest
            },
            Err(why) => r matches Err(e) && error::is_corrupt(e, why),
        },
{
    let ghost start = cur@;
    let mut lists = Postings::new();
    let mut i: u64 = 0;
    while i < n
        invariant
            i <= n,
            lists.wf(),
            start == old(cur)@,
            float ==> proper(lists@),
            parse_numeric(start, n as nat, Seq::empty(), float) == parse_numeric(
                cur@,
                (n - i) as nat,
                lists@,
                float,
            ),
        decreases n - i,
    {
        let word: u64 = match codec::read_u64(cur) {
            Ok(word) => word,
            Err(e) => {
                return Err(e);
            },
        };
        if float && is_nan64(word) {
            return Err(corrupt("NaN float key"));
        }
        let rows: Bitmap = match codec::read_bitmap(cur) {
            Ok(rows) => rows,
            Err(e) => {
                return Err(e);
            },
        };
        proof {
            lists.lemma_wf();
            if float {
                lemma_put_proper(lists@, word, rows@);
            }
        }
        let key: i64 = if float {
            rank_of(to_key64(word))
        } else {
            word as i64
        };
        lists.put(key, rows);
        i += 1;
    }
    Ok(lists)
}

fn read_texts(cur: &mut &[u8], n: u64) -> (r: Result<TextPostings>)
    ensures
        match parse_text(old(cur)@, n as nat, Seq::empty()) {
            Ok((lists, rest)) => {
                &&& r matches Ok(p) && p.wf() && p@ == lists
                &&& final(cur)@ == rest
            },
            Err(why) => r matches Err(e) && error::is_corrupt(e, why),
        },
{
    let ghost start = cur@;
    let mut lists = TextPostings::new();
    let mut i: u64 = 0;
    while i < n
        invariant
            i <= n,
            lists.wf(),
            start == old(cur)@,
            parse_text(start, n as nat, Seq::empty()) == parse_text(
                cur@,
                (n - i) as nat,
                lists@,
            ),
        decreases n - i,
    {
        let len: u32 = match codec::read_u32(cur) {
            Ok(len) => len,
            Err(e) => {
                return Err(e);
            },
        };
        let name: &[u8] = match codec::take(cur, len as usize) {
            Ok(name) => name,
            Err(e) => {
                return Err(e);
            },
        };
        let name: String = match text_of_bytes(vstd::slice::slice_to_vec(name)) {
            Ok(name) => name,
            Err(why) => {
                return Err(Error::CorruptSnapshot(join2("text key: ", why.as_str())));
            },
        };
        let rows: Bitmap = match codec::read_bitmap(cur) {
            Ok(rows) => rows,
            Err(e) => {
                return Err(e);
            },
        };
        lists.put(name, rows);
        i += 1;
    }
    Ok(lists)
}

fn read_column(cur: &mut &[u8], ty: ColumnType) -> (r: Result<ColumnStore>)
    ensures
        match parse_column(old(cur)@, ty) {
            Ok((column, rest)) => {
                &&& r matches Ok(c) && c.wf() && c@ == column && column.ty() == ty
                &&& final(cur)@ == rest
            },
            Err(why) => r matches Err(e) && error::is_corrupt(e, why),
        },
{
    let n: u64 = match codec::read_u64(cur) {
        Ok(n) => n,
        Err(e) => {
            return Err(e);
        },
    };
    match ty {
        ColumnType::Int => match read_numeric(cur, n, false) {
            Ok(lists) => Ok(ColumnStore::Int(lists)),
            Err(e) => Err(e),
        },
        ColumnType::Float => match read_numeric(cur, n, true) {
            Ok(lists) => Ok(ColumnStore::Float(lists)),
            Err(e) => Err(e),
        },
        ColumnType::Text => match read_texts(cur, n) {
            Ok(lists) => Ok(ColumnStore::Text(lists)),
            Err(e) => Err(e),
        },
    }
}

/// Splits a snapshot file: the log position, the serialized schema, and what
/// follows it up to the checksum.
fn split_frame<'a>(bytes: &'a [u8]) -> (r: Result<(u64, &'a [u8], &'a [u8])>)
    ensures
        match frame(bytes@) {
            Ok((schema, tail)) => r matches Ok((lsn, s, t)) && s@ == schema && t@ == tail && lsn
                == codec::from_le64(bytes@.subrange(8, 16)),
            Err(why) => r matches Err(e) && error::is_corrupt(e, why),
        },
{
    let body: &'a [u8] = match codec::unseal(bytes) {
        Ok(body) => body,
        Err(why) => {
            return Err(corrupt(why));
        },
    };
    let lsn: u64 = match codec::read_preamble(magic_bytes().as_slice(), VERSION, body) {
        Ok(lsn) => lsn,
        Err(why) => {
            return Err(Error::CorruptSnapshot(why));
        },
    };
    proof {
        assert(body@.subrange(8, 16) =~= bytes@.subrange(8, 16));
        assert(body@.skip(16).take(4) =~= body@.subrange(16, 20));
        assert(body@.skip(16).skip(4) =~= body@.skip(20));
        assert(body@.subrange(16, body@.len() as int) =~= body@.skip(16));
    }
    let mut cur: &'a [u8] = vstd::slice::slice_subrange(body, 16, body.len());
    let len: u32 = match codec::read_u32(&mut cur) {
        Ok(len) => len,
        Err(e) => {
            return Err(e);
        },
    };
    match codec::take(&mut cur, len as usize) {
        Ok(schema) => Ok((lsn, schema, cur)),
        Err(e) => Err(e),
    }
}

/// The serialized schema inside a snapshot file, for the caller to parse.
pub fn snapshot_schema<'a>(bytes: &'a [u8]) -> (r: Result<&'a [u8]>)
    ensures
        match frame(bytes@) {
            Ok((schema, _)) => r matches Ok(s) && s@ == schema,
            Err(why) => r matches Err(e) && error::is_corrupt(e, why),
        },
{
    match split_frame(bytes) {
        Ok((_, schema, _)) => Ok(schema),
        Err(e) => Err(e),
    }
}

/// The index that a snapshot file stands for. `parsed` is what the serialized
/// schema inside the file was parsed to; it counts only when the frame is sound.
///
/// The checksum is looked at first, then magic, version and lengths, then the
/// schema, then the blocks that the schema's column types call for.
pub fn decode_snapshot(bytes: &[u8], parsed: std::result::Result<Schema, String>) -> (r: Result<
    Writer,
>)
    ensures
        match decoded(bytes@, schema_view(parsed)) {
            Ok(view) => r matches Ok(w) && w.wf() && w@ == view,
            Err(why) => r matches Err(e) && error::is_corrupt(e, why),
        },
{
    let (lsn, _, tail) = match split_frame(bytes) {
        Ok(parts) => parts,
        Err(e) => {
            return Err(e);
        },
    };
    let schema: Schema = match parsed {
        Ok(schema) => schema,
        Err(why) => {
            return Err(Error::CorruptSnapshot(join2("schema: ", why.as_str())));
        },
    };
    let mut cur: &[u8] = tail;
    let mut columns: Vec<ColumnStore> = Vec::new();
    let ghost mut views: Seq<ColumnView> = Seq::empty();
    let mut i: usize = 0;
    while i < schema.columns.len()
        invariant
            i <= schema.columns@.len(),
            schema_view(parsed) == Ok::<SchemaView, Seq<char>>(schema@),
            frame(bytes@) matches Ok((_, t)) && t == tail@,
            columns@.len() == i,
            views.len() == i,
            forall|k: int| 0 <= k < i ==> (#[trigger] columns@[k]).wf(),
            columns@.map_values(|c: ColumnStore| c@) == views,
            forall|k: int| 0 <= k < i ==> (#[trigger] views[k]).ty() == schema@.columns[k].ty,
            parse_columns(tail@, schema@, 0, Seq::empty()) == parse_columns(
                cur@,
                schema@,
                i as int,
                views,
            ),
        decreases schema.columns@.len() - i,
    {
        let column: ColumnStore = match read_column(&mut cur, schema.columns[i].ty) {
            Ok(column) => column,
            Err(e) => {
                return Err(e);
            },
        };
        assert(schema@.columns[i as int].ty == schema.columns@[i as int].ty);
        columns.push(column);
        proof {
            views = views.push(column@);
            assert(columns@.map_values(|c: ColumnStore| c@) =~= views);
        }
        i += 1;
    }
    let live: Bitmap = match codec::read_bitmap(&mut cur) {
        Ok(live) => live,
        Err(e) => {
            return Err(e);
        },
    };
    if cur.len() > 0 {
        return Err(corrupt("trailing bytes"));
    }
    proof {
        assert forall|k: int| 0 <= k < columns@.len() implies (#[trigger] columns@[k])@
            == views[k] by {}
    }
    Ok(Writer { schema, columns, live, applied_lsn: Lsn(lsn) })
}

impl MetadataIndex {
    /// The index that a snapshot file gives when it is opened for a collection of
    /// the given schema: `file` is what the file holds, if it is there, and
    /// `embedded` is what the schema inside it was parsed to.
    ///
    /// A missing or corrupt snapshot is no error: the index starts empty at log
    /// position 0, and the reason comes back as a third part. A snapshot of
    /// another schema is an error.
    pub fn open(
        file: Option<&[u8]>,
        embedded: std::result::Result<Schema, String>,
        schema: Schema,
    ) -> (r: Result<(Writer, Lsn, Option<String>)>)
        ensures
            match file {
                None => r matches Ok((w, lsn, why)) && w.wf() && w@ == IndexView::empty(schema@)
                    && lsn.0 == 0 && why is None,
                Some(bytes) => match decoded(bytes@, schema_view(embedded)) {
                    Err(reason) => r matches Ok((w, lsn, Some(why))) && w.wf() && w@
                        == IndexView::empty(schema@) && lsn.0 == 0 && why@ == reason,
                    Ok(view) => if view.schema == schema@ {
                        r matches Ok((w, lsn, None)) && w.wf() && w@ == view && lsn.0
                            == view.applied
                    } else {
                        r == Err::<(Writer, Lsn, Option<String>), Error>(Error::SchemaMismatch)
                    },
                },
            },
    {
        match file {
            None => Ok((MetadataIndex::create(schema), Lsn(0), None)),
            Some(bytes) => match decode_snapshot(bytes, embedded) {
                Ok(w) => {
                    if !w.schema.same(&schema) {
                        return Err(Error::SchemaMismatch);
                    }
                    let lsn: Lsn = w.applied_lsn;
                    Ok((w, lsn, None))
                },
                Err(Error::CorruptSnapshot(why)) => Ok(
                    (MetadataIndex::create(schema), Lsn(0), Some(why)),
                ),
                Err(e) => Err(e),
            },
        }
    }
}

/// Every posting list of the column reads back from its encoding.
pub open spec fn lists_round_trip(column: ColumnView) -> bool {
    match column {
        ColumnView::Int(l) => forall|i: int|
            0 <= i < l.len() ==> bitmap::round_trips((#[trigger] l[i]).1),
        ColumnView::Float(l) => forall|i: int|
            0 <= i < l.len() ==> bitmap::round_trips((#[trigger] l[i]).1),
        ColumnView::Text(l) => forall|i: int|
            0 <= i < l.len() ==> bitmap::round_trips((#[trigger] l[i]).1),
    }
}

/// Every string of the column is short enough for its length field.
pub open spec fn names_fit(column: ColumnView) -> bool {
    column matches ColumnView::Text(l) ==> forall|i: int|
        0 <= i < l.len() ==> vstd::utf8::encode_utf8((#[trigger] l[i]).0).len() <= u32::MAX
}

fn write_numeric(lists: &Postings, float: bool, buf: &mut Vec<u8>)
    requires
        lists.wf(),
    ensures
        final(buf)@ == old(buf)@ + numeric_bytes(lists@, 0, float),
        forall|i: int| 0 <= i < lists@.len() ==> bitmap::round_trips((#[trigger] lists@[i]).1),
{
    let ghost was = buf@;
    let mut i: usize = 0;
    while i < lists.len()
        invariant
            i <= lists@.len(),
            lists.wf(),
            was == old(buf)@,
            buf@ + numeric_bytes(lists@, i as int, float) == was + numeric_bytes(lists@, 0, float),
            forall|k: int| 0 <= k < i ==> bitmap::round_trips((#[trigger] lists@[k]).1),
        decreases lists@.len() - i,
    {
        let ghost before = buf@;
        let key: i64 = lists.key(i);
        let word: u64 = if float {
            bits_of(key)
        } else {
            key as u64
        };
        codec::put_u64(buf, word);
        lists.list(i).write_to(buf);
        proof {
            let tail = numeric_bytes(lists@, i + 1, float);
            assert(buf@ + tail =~= before + (codec::le64(word) + bitmap::bitmap_encoding(
                lists@[i as int].1,
            ) + tail));
        }
        i += 1;
    }
    proof {
        assert(buf@ + Seq::<u8>::empty() =~= buf@);
    }
}

fn write_texts(lists: &TextPostings, buf: &mut Vec<u8>)
    requires
        lists.wf(),
    ensures
        final(buf)@ == old(buf)@ + text_bytes(lists@, 0),
        forall|i: int| 0 <= i < lists@.len() ==> bitmap::round_trips((#[trigger] lists@[i]).1),
{
    let ghost was = buf@;
    let mut i: usize = 0;
    while i < lists.len()
        invariant
            i <= lists@.len(),
            lists.wf(),
            was == old(buf)@,
            buf@ + text_bytes(lists@, i as int) == was + text_bytes(lists@, 0),
            forall|k: int| 0 <= k < i ==> bitmap::round_trips((#[trigger] lists@[k]).1),
        decreases lists@.len() - i,
    {
        let ghost before = buf@;
        let name: &[u8] = lists.name(i).as_str().as_bytes();
        codec::put_u32(buf, name.len() as u32);
        codec::put_bytes(buf, name);
        lists.list(i).write_to(buf);
        proof {
            let tail = text_bytes(lists@, i + 1);
            assert(buf@ + tail =~= before + (codec::le32(name@.len() as u32) + name@
                + bitmap::bitmap_encoding(lists@[i as int].1) + tail));
        }
        i += 1;
    }
    proof {
        assert(buf@ + Seq::<u8>::empty() =~= buf@);
    }
}

fn write_column(column: &ColumnStore, buf: &mut Vec<u8>)
    requires
        column.wf(),
    ensures
        final(buf)@ == old(buf)@ + column_bytes(column@),
        lists_round_trip(column@),
{
    match column {
        ColumnStore::Int(lists) => {
            codec::put_u64(buf, lists.len() as u64);
            write_numeric(lists, false, buf);
        },
        ColumnStore::Float(lists) => {
            codec::put_u64(buf, lists.len() as u64);
            write_numeric(lists, true, buf);
        },
        ColumnStore::Text(lists) => {
            codec::put_u64(buf, lists.len() as u64);
            write_texts(lists, buf);
        },
    }
    proof {
        assert(buf@ =~= old(buf)@ + column_bytes(column@));
    }
}

impl Writer {
    /// The snapshot file of the index, claiming the state through `last_lsn`.
    /// `schema` is the serialized schema.
    ///
    /// Decoding the file with the same schema gives the same index back, as long
    /// as no length outgrows its four bytes. A file in which one byte has changed is
    /// refused, whatever its schema parses to.
    pub fn encode_snapshot(&self, schema: &[u8], last_lsn: Lsn) -> (bytes: Vec<u8>)
        requires
            self.wf(),
        ensures
            bytes@ == encoded(self@, schema@, last_lsn.0),
            schema@.len() <= u32::MAX && self@.names_fit() ==> (frame(bytes@) matches Ok((s, _))
                && s == schema@),
            schema@.len() <= u32::MAX && self@.names_fit() ==> decoded(bytes@, Ok(self@.schema))
                == Ok::<IndexView, Seq<char>>((IndexView { applied: last_lsn.0, ..self@ })),
            forall|b: Seq<u8>, parsed: std::result::Result<SchemaView, Seq<char>>|
                checksum::one_byte_apart(bytes@, b) ==> #[trigger] decoded(b, parsed) is Err,
    {
        let mut buf: Vec<u8> = Vec::new();
        codec::put_bytes(&mut buf, magic_bytes().as_slice());
        codec::put_u32(&mut buf, VERSION);
        codec::put_u64(&mut buf, last_lsn.0);
        codec::put_u32(&mut buf, schema.len() as u32);
        codec::put_bytes(&mut buf, schema);
        let ghost head = buf@;
        proof {
            assert(head =~= codec::preamble(magic(), VERSION, last_lsn.0) + codec::le32(
                schema@.len() as u32,
            ) + schema@);
        }
        let mut i: usize = 0;
        while i < self.columns.len()
            invariant
                i <= self.columns@.len(),
                self.wf(),
                buf@ + columns_bytes(self@.columns, i as int) == head + columns_bytes(
                    self@.columns,
                    0,
                ),
                forall|k: int| 0 <= k < i ==> lists_round_trip(#[trigger] self@.columns[k]),
            decreases self.columns@.len() - i,
        {
            let ghost before = buf@;
            assert(self@.columns[i as int] == self.columns@[i as int]@);
            write_column(&self.columns[i], &mut buf);
            proof {
                let tail = columns_bytes(self@.columns, i + 1);
                assert(buf@ + tail =~= before + (column_bytes(self@.columns[i as int]) + tail));
            }
            i += 1;
        }
        proof {
            assert(buf@ + Seq::<u8>::empty() =~= buf@);
        }
        self.live.write_to(&mut buf);
        codec::seal(&mut buf);
        proof {
            self.lemma_wf();
            assert forall|k: int| 0 <= k < self@.columns.len() && self@.names_fit() implies savable(
                #[trigger] self@.columns[k],
            ) by {
                self.columns@[k].lemma_lengths();
            }
            if schema@.len() <= u32::MAX && self@.names_fit() {
                lemma_snapshot_round_trip(self@, schema@, last_lsn.0);
            }
        }
        buf
    }
}

proof fn lemma_word_round_trip(key: i64)
    ensures
        word_key(key_word(key, false), false) == key,
        proper_rank(key) ==> word_key(key_word(key, true), true) == key,
{
    assert((key as u64) as i64 == key) by (bit_vector);
    postings::lemma_rank_round_trip(key, postings::unrank(key));
}

proof fn lemma_numeric_round_trip(
    lists: Seq<(i64, Set<u32>)>,
    i: int,
    float: bool,
    rest: Seq<u8>,
)
    requires
        postings::sorted(lists),
        float ==> proper(lists),
        0 <= i <= lists.len(),
        forall|k: int| 0 <= k < lists.len() ==> bitmap::round_trips((#[trigger] lists[k]).1),
    ensures
        parse_numeric(
            numeric_bytes(lists, i, float) + rest,
            (lists.len() - i) as nat,
            lists.take(i),
            float,
        ) == Ok::<(Seq<(i64, Set<u32>)>, Seq<u8>), Seq<char>>((lists, rest)),
    decreases lists.len() - i,
{
    let cur = numeric_bytes(lists, i, float) + rest;
    if i == lists.len() {
        assert(cur =~= rest);
        assert(lists.take(i) =~= lists);
    } else {
        let word = key_word(lists[i].0, float);
        let enc = bitmap::bitmap_encoding(lists[i].1);
        let tail = numeric_bytes(lists, i + 1, float) + rest;
        codec::lemma_le64(word);
        assert(cur.take(8) =~= codec::le64(word));
        assert(cur.skip(8) =~= enc + tail);
        assert(bitmap::round_trips(lists[i].1));
        assert(bitmap::bitmap_decoding(enc + tail) == Ok::<(Set<u32>, nat), Seq<char>>(
            (lists[i].1, enc.len()),
        ));
        assert(cur.skip(8).skip(enc.len() as int) =~= tail);
        lemma_word_round_trip(lists[i].0);
        if float {
            assert(proper_rank(lists[i].0));
        }
        lemma_put_next(lists, i);
        lemma_numeric_round_trip(lists, i + 1, float, rest);
    }
}

proof fn lemma_put_next(lists: Seq<(i64, Set<u32>)>, i: int)
    requires
        postings::sorted(lists),
        0 <= i < lists.len(),
    ensures
        postings::put(lists.take(i), lists[i].0, lists[i].1) == lists.take(i + 1),
{
    let before = lists.take(i);
    assert(postings::sorted(before)) by {
        assert forall|a: int, b: int| 0 <= a < b < before.len() implies (
        #[trigger] before[a]).0 < (#[trigger] before[b]).0 by {
            assert(lists[a].0 < lists[b].0);
        }
    }
    postings::lemma_slot(before, lists[i].0);
    let p = postings::slot(before, lists[i].0);
    if p < i {
        assert(before[p].0 >= lists[i].0);
        assert(lists[p].0 < lists[i].0);
    }
    assert(before.insert(i, lists[i]) =~= lists.take(i + 1));
}

proof fn lemma_put_name_next(lists: Seq<(Seq<char>, Set<u32>)>, i: int)
    requires
        postings::unique_names(lists),
        0 <= i < lists.len(),
    ensures
        postings::put_name(lists.take(i), lists[i].0, lists[i].1) == lists.take(i + 1),
{
    let before = lists.take(i);
    postings::lemma_spot(before, lists[i].0);
    let p = postings::spot(before, lists[i].0);
    if p < i {
        assert(before[p].0 == lists[i].0);
        assert(lists[p].0 != lists[i].0);
    }
    assert(before.push(lists[i]) =~= lists.take(i + 1));
}

proof fn lemma_text_round_trip(lists: Seq<(Seq<char>, Set<u32>)>, i: int, rest: Seq<u8>)
    requires
        postings::unique_names(lists),
        0 <= i <= lists.len(),
        forall|k: int| 0 <= k < lists.len() ==> bitmap::round_trips((#[trigger] lists[k]).1),
        forall|k: int|
            0 <= k < lists.len() ==> vstd::utf8::encode_utf8((#[trigger] lists[k]).0).len()
                <= u32::MAX,
    ensures
        parse_text(text_bytes(lists, i) + rest, (lists.len() - i) as nat, lists.take(i)) == Ok::<
            (Seq<(Seq<char>, Set<u32>)>, Seq<u8>),
            Seq<char>,
        >((lists, rest)),
    decreases lists.len() - i,
{
    let cur = text_bytes(lists, i) + rest;
    if i == lists.len() {
        assert(cur =~= rest);
        assert(lists.take(i) =~= lists);
    } else {
        let name = vstd::utf8::encode_utf8(lists[i].0);
        let enc = bitmap::bitmap_encoding(lists[i].1);
        let tail = text_bytes(lists, i + 1) + rest;
        codec::lemma_le32(name.len() as u32);
        assert(cur.take(4) =~= codec::le32(name.len() as u32));
        assert(cur.skip(4) =~= name + (enc + tail));
        assert(cur.skip(4).take(name.len() as int) =~= name);
        assert(cur.skip(4).skip(name.len() as int) =~= enc + tail);
        vstd::utf8::encode_utf8_valid_utf8(lists[i].0);
        vstd::utf8::encode_utf8_decode_utf8(lists[i].0);
        assert(bitmap::round_trips(lists[i].1));
        assert(bitmap::bitmap_decoding(enc + tail) == Ok::<(Set<u32>, nat), Seq<char>>(
            (lists[i].1, enc.len()),
        ));
        assert((enc + tail).skip(enc.len() as int) =~= tail);
        lemma_put_name_next(lists, i);
        lemma_text_round_trip(lists, i + 1, rest);
    }
}

proof fn lemma_column_round_trip(column: ColumnView, rest: Seq<u8>)
    requires
        column.ordered(),
        lists_round_trip(column),
        names_fit(column),
        match column {
            ColumnView::Int(l) => l.len() <= u64::MAX,
            ColumnView::Float(l) => l.len() <= u64::MAX,
            ColumnView::Text(l) => l.len() <= u64::MAX,
        },
    ensures
        parse_column(column_bytes(column) + rest, column.ty()) == Ok::<
            (ColumnView, Seq<u8>),
            Seq<char>,
        >((column, rest)),
{
    let cur = column_bytes(column) + rest;
    match column {
        ColumnView::Int(l) => {
            codec::lemma_le64(l.len() as u64);
            assert(cur.take(8) =~= codec::le64(l.len() as u64));
            assert(cur.skip(8) =~= numeric_bytes(l, 0, false) + rest);
            lemma_numeric_round_trip(l, 0, false, rest);
            assert(l.take(0) =~= Seq::empty());
        },
        ColumnView::Float(l) => {
            codec::lemma_le64(l.len() as u64);
            assert(cur.take(8) =~= codec::le64(l.len() as u64));
            assert(cur.skip(8) =~= numeric_bytes(l, 0, true) + rest);
            lemma_numeric_round_trip(l, 0, true, rest);
            assert(l.take(0) =~= Seq::empty());
        },
        ColumnView::Text(l) => {
            codec::lemma_le64(l.len() as u64);
            assert(cur.take(8) =~= codec::le64(l.len() as u64));
            assert(cur.skip(8) =~= text_bytes(l, 0) + rest);
            lemma_text_round_trip(l, 0, rest);
            assert(l.take(0) =~= Seq::empty());
        },
    }
}

/// What the round trip of a column needs: order, encodable lists and lengths.
pub open spec fn savable(column: ColumnView) -> bool {
    &&& column.ordered()
    &&& lists_round_trip(column)
    &&& names_fit(column)
    &&& match column {
        ColumnView::Int(l) => l.len() <= u64::MAX,
        ColumnView::Float(l) => l.len() <= u64::MAX,
        ColumnView::Text(l) => l.len() <= u64::MAX,
    }
}

proof fn lemma_columns_round_trip(index: IndexView, i: int, rest: Seq<u8>)
    requires
        index.consistent(),
        0 <= i <= index.columns.len(),
        forall|k: int| 0 <= k < index.columns.len() ==> savable(#[trigger] index.columns[k]),
    ensures
        parse_columns(
            columns_bytes(index.columns, i) + rest,
            index.schema,
            i,
            index.columns.take(i),
        ) == Ok::<(Seq<ColumnView>, Seq<u8>), Seq<char>>((index.columns, rest)),
    decreases index.columns.len() - i,
{
    let cur = columns_bytes(index.columns, i) + rest;
    if i == index.columns.len() {
        assert(cur =~= rest);
        assert(index.columns.take(i) =~= index.columns);
    } else {
        let tail = columns_bytes(index.columns, i + 1) + rest;
        assert(cur =~= column_bytes(index.columns[i]) + tail);
        assert(savable(index.columns[i]));
        lemma_column_round_trip(index.columns[i], tail);
        assert(index.columns.take(i).push(index.columns[i]) =~= index.columns.take(i + 1));
        lemma_columns_round_trip(index, i + 1, rest);
    }
}

proof fn lemma_snapshot_round_trip(index: IndexView, schema: Seq<u8>, lsn: u64)
    requires
        index.consistent(),
        schema.len() <= u32::MAX,
        forall|k: int| 0 <= k < index.columns.len() ==> savable(#[trigger] index.columns[k]),
        bitmap::round_trips(index.live),
    ensures
        frame(encoded(index, schema, lsn)) matches Ok((s, _)) && s == schema,
        decoded(encoded(index, schema, lsn), Ok(index.schema)) == Ok::<IndexView, Seq<char>>(
            IndexView { applied: lsn, ..index },
        ),
{
    let live = bitmap::bitmap_encoding(index.live);
    let tail = columns_bytes(index.columns, 0) + live;
    let pre = codec::preamble(magic(), VERSION, lsn);
    let len = schema.len() as u32;
    let body = pre + codec::le32(len) + schema + columns_bytes(index.columns, 0) + live;
    codec::lemma_le32(len);
    codec::lemma_preamble(magic(), VERSION, lsn, codec::le32(len) + schema + tail);
    assert(body =~= pre + (codec::le32(len) + schema + tail));
    codec::lemma_sealed(body);
    let bytes = encoded(index, schema, lsn);
    assert(body.subrange(16, 20) =~= codec::le32(len));
    assert(body.skip(20) =~= schema + tail);
    assert(body.skip(20).take(len as int) =~= schema);
    assert(body.skip(20).skip(len as int) =~= tail);
    assert(bytes.subrange(8, 16) =~= body.subrange(8, 16));
    lemma_columns_round_trip(index, 0, live);
    assert(index.columns.take(0) =~= Seq::empty());
    assert(live + Seq::<u8>::empty() =~= live);
    assert(bitmap::bitmap_decoding(live + Seq::<u8>::empty()) == Ok::<(Set<u32>, nat), Seq<char>>(
        (index.live, live.len()),
    ));
}

/// Where the parts of a snapshot file are: the magic `MET0`, version 1, the log position,
/// the length of the schema at 16 and the schema at 20; behind it the columns in order, the
/// live set, and the checksum of all that.
pub proof fn law_snapshot_layout(index: IndexView, schema: Seq<u8>, lsn: u64)
    ensures
        ({
            let b = encoded(index, schema, lsn);
            let n = b.len() as int;
            let m = 20 + schema.len() as int;
            let columns = columns_bytes(index.columns, 0);
            let live = bitmap::bitmap_encoding(index.live);
            &&& n == m + columns.len() + live.len() + 4
            &&& b[0] == 'M' as u32 && b[1] == 'E' as u32 && b[2] == 'T' as u32 && b[3] == '0' as u32
            &&& b.subrange(4, 8) == codec::le32(1)
            &&& b.subrange(8, 16) == codec::le64(lsn)
            &&& b.subrange(16, 20) == codec::le32(schema.len() as u32)
            &&& b.subrange(20, m) == schema
            &&& b.subrange(m, m + columns.len()) == columns
            &&& b.subrange(m + columns.len(), n - 4) == live
            &&& b.subrange(n - 4, n) == codec::le32(checksum::crc32_of(b.take(n - 4)))
        }),
{
    codec::lemma_le32(VERSION);
    codec::lemma_le64(lsn);
    codec::lemma_le32(schema.len() as u32);
    let columns = columns_bytes(index.columns, 0);
    let live = bitmap::bitmap_encoding(index.live);
    let head = codec::preamble(magic(), VERSION, lsn) + codec::le32(schema.len() as u32) + schema
        + columns + live;
    codec::lemma_le32(checksum::crc32_of(head));
    let b = encoded(index, schema, lsn);
    let n = b.len() as int;
    let m = 20 + schema.len() as int;
    assert(b.take(n - 4) =~= head);
    assert(b.subrange(4, 8) =~= codec::le32(1));
    assert(b.subrange(8, 16) =~= codec::le64(lsn));
    assert(b.subrange(16, 20) =~= codec::le32(schema.len() as u32));
    assert(b.subrange(20, m) =~= schema);
    assert(b.subrange(m, m + columns.len()) =~= columns);
    assert(b.subrange(m + columns.len(), n - 4) =~= live);
    assert(b.subrange(n - 4, n) =~= codec::le32(checksum::crc32_of(head)));
}

/// How a column is written: the number of its lists in eight bytes, and then the lists. A
/// list of integers or floats starts with the eight bytes of its key, which for a float are
/// its bit pattern; one of strings with the length of the string in four bytes and the
/// string. Its ordinals follow.
pub proof fn law_column_layout(lists: Seq<(i64, Set<u32>)>, names: Seq<(Seq<char>, Set<u32>)>, i: int)
    ensures
        column_bytes(ColumnView::Int(lists)) == codec::le64(lists.len() as u64) + numeric_bytes(
            lists,
            0,
            false,
        ),
        column_bytes(ColumnView::Float(lists)) == codec::le64(lists.len() as u64) + numeric_bytes(
            lists,
            0,
            true,
        ),
        column_bytes(ColumnView::Text(names)) == codec::le64(names.len() as u64) + text_bytes(
            names,
            0,
        ),
        0 <= i < lists.len() ==> {
            &&& numeric_bytes(lists, i, false) == codec::le64(lists[i].0 as u64)
                + bitmap::bitmap_encoding(lists[i].1) + numeric_bytes(lists, i + 1, false)
            &&& numeric_bytes(lists, i, true) == codec::le64(postings::unrank(lists[i].0))
                + bitmap::bitmap_encoding(lists[i].1) + numeric_bytes(lists, i + 1, true)
            &&& float::rank64(postings::unrank(lists[i].0)) == lists[i].0
        },
        0 <= i < names.len() ==> text_bytes(names, i) == codec::le32(
            vstd::utf8::encode_utf8(names[i].0).len() as u32,
        ) + vstd::utf8::encode_utf8(names[i].0) + bitmap::bitmap_encoding(names[i].1)
            + text_bytes(names, i + 1),
        numeric_bytes(lists, lists.len() as int, false).len() == 0,
        numeric_bytes(lists, lists.len() as int, true).len() == 0,
        text_bytes(names, names.len() as int).len() == 0,
{
    if 0 <= i < lists.len() {
        postings::lemma_rank_round_trip(lists[i].0, 0);
        assert(numeric_bytes(lists, i, false) =~= codec::le64(lists[i].0 as u64)
            + bitmap::bitmap_encoding(lists[i].1) + numeric_bytes(lists, i + 1, false));
        assert(numeric_bytes(lists, i, true) =~= codec::le64(postings::unrank(lists[i].0))
            + bitmap::bitmap_encoding(lists[i].1) + numeric_bytes(lists, i + 1, true));
    }
    if 0 <= i < names.len() {
        assert(text_bytes(names, i) =~= codec::le32(
            vstd::utf8::encode_utf8(names[i].0).len() as u32,
        ) + vstd::utf8::encode_utf8(names[i].0) + bitmap::bitmap_encoding(names[i].1) + text_bytes(
            names,
            i + 1,
        ));
    }
}

/// The columns of a snapshot stand one behind the other, in the order of their ids.
pub proof fn law_columns_in_order(columns: Seq<ColumnView>, i: int)
    requires
        0 <= i < columns.len(),
    ensures
        columns_bytes(columns, i) == column_bytes(columns[i]) + columns_bytes(columns, i + 1),
        columns_bytes(columns, columns.len() as int).len() == 0,
{
}

/// An index that was read from a file has the schema that the file's was parsed to, one
/// column of lists for each of its columns and of its type, and the log position of the
/// file; and the file has the magic and the version of one, and the right checksum.
pub proof fn law_what_is_read_is_on_file(bytes: Seq<u8>, schema: SchemaView)
    ensures
        decoded(bytes, Ok(schema)) matches Ok(index) ==> {
            let n = bytes.len() as int;
            &&& index.schema == schema
            &&& index.columns.len() == schema.columns.len()
            &&& forall|i: int|
                0 <= i < index.columns.len() ==> (#[trigger] index.columns[i]).ty()
                    == schema.columns[i].ty
            &&& n >= 24
            &&& index.applied == codec::from_le64(bytes.subrange(8, 16))
            &&& bytes[0] == 'M' as u32 && bytes[1] == 'E' as u32 && bytes[2] == 'T' as u32
                && bytes[3] == '0' as u32
            &&& codec::from_le32(bytes.subrange(4, 8)) == 1
            &&& codec::from_le32(bytes.subrange(n - 4, n)) == checksum::crc32_of(bytes.take(n - 4))
        },
{
    if let Ok(index) = decoded(bytes, Ok(schema)) {
        let n = bytes.len() as int;
        let body = bytes.take(n - 4);
        assert(body.take(4) == magic());
        assert(bytes[0] == body.take(4)[0] && bytes[1] == body.take(4)[1] && bytes[2]
            == body.take(4)[2] && bytes[3] == body.take(4)[3]);
        assert(body.subrange(4, 8) =~= bytes.subrange(4, 8));
        assert(bytes.skip(n - 4) =~= bytes.subrange(n - 4, n));
        let tail = frame(bytes)->Ok_0.1;
        lemma_parsed_columns(tail, schema, 0, Seq::empty());
    }
}

proof fn lemma_parsed_columns(
    cur: Seq<u8>,
    schema: SchemaView,
    i: int,
    columns: Seq<ColumnView>,
)
    requires
        0 <= i <= schema.columns.len(),
        columns.len() == i,
        forall|k: int| 0 <= k < i ==> (#[trigger] columns[k]).ty() == schema.columns[k].ty,
    ensures
        parse_columns(cur, schema, i, columns) matches Ok((all, _)) ==> all.len()
            == schema.columns.len() && forall|k: int|
            0 <= k < all.len() ==> (#[trigger] all[k]).ty() == schema.columns[k].ty,
    decreases schema.columns.len() - i,
{
    if i < schema.columns.len() {
        if let Ok((column, rest)) = parse_column(cur, schema.columns[i].ty) {
            let more = columns.push(column);
            assert forall|k: int| 0 <= k < i + 1 implies (#[trigger] more[k]).ty()
                == schema.columns[k].ty by {
                if k < i {
                    assert(more[k] == columns[k]);
                }
            }
            lemma_parsed_columns(rest, schema, i + 1, more);
        }
    }
}

/// Numeric lists are read one by one: a key of eight bytes, then a bitmap. The key is the
/// integer, or the number, that the bytes stand for; a list takes the place of an earlier
/// one of its key, and every other key keeps what it had. A float that is no number is no
/// key.
pub proof fn law_numeric_lists_are_read(
    word: u64,
    rest: Seq<u8>,
    n: nat,
    lists: Seq<(i64, Set<u32>)>,
    float: bool,
)
    requires
        postings::sorted(lists),
        n > 0,
    ensures
        parse_numeric(rest, 0, lists, float) == Ok::<_, Seq<char>>((lists, rest)),
        rest.len() < 8 ==> parse_numeric(rest, n, lists, float) is Err,
        float && number::no_number64(word) ==> parse_numeric(
            codec::le64(word) + rest,
            n,
            lists,
            float,
        ) is Err,
        bitmap::bitmap_decoding(rest) is Err ==> parse_numeric(
            codec::le64(word) + rest,
            n,
            lists,
            float,
        ) is Err,
        !(float && number::no_number64(word)) ==> (bitmap::bitmap_decoding(rest) matches Ok((set, used))
            ==> exists|more: Seq<(i64, Set<u32>)>, key: i64|
            {
                &&& #[trigger] postings::sorted(more)
                &&& if float {
                    number::number64(postings::unrank(key)) == number::number64(word)
                } else {
                    key == word as i64
                }
                &&& #[trigger] postings::listed(more, key)
                &&& forall|other: i64| #[trigger]
                    postings::under(more, other) == if other == key {
                        set
                    } else {
                        postings::under(lists, other)
                    }
                &&& parse_numeric(codec::le64(word) + rest, n, lists, float) == parse_numeric(
                    rest.skip(used as int),
                    (n - 1) as nat,
                    more,
                    float,
                )
            }),
{
    let cur = codec::le64(word) + rest;
    codec::lemma_le64(word);
    assert(cur.take(8) =~= codec::le64(word));
    assert(cur.skip(8) =~= rest);
    number::law_order_is_numeric64(word, word);
    if !(float && number::no_number64(word)) {
        if let Ok((set, used)) = bitmap::bitmap_decoding(rest) {
            let key = word_key(word, float);
            let more = postings::put(lists, key, set);
            postings::lemma_put_sorted(lists, key, set);
            postings::lemma_put_under(lists, key, set, key);
            assert forall|other: i64| #[trigger]
                postings::under(more, other) == if other == key {
                    set
                } else {
                    postings::under(lists, other)
                } by {
                postings::lemma_put_under(lists, key, set, other);
            }
            if float {
                postings::lemma_rank_round_trip(key, float::key64(word));
                number::law_order_is_numeric64(word, float::key64(word));
                number::law_order_is_numeric64(float::key64(word), word);
            }
            assert(postings::sorted(more) && postings::listed(more, key));
        }
    }
}

/// Text lists are read one by one: a length of four bytes, as many bytes of UTF-8, then a
/// bitmap. A list takes the place of an earlier one of its name, and every other name keeps
/// what it had.
pub proof fn law_text_lists_are_read(
    name: Seq<u8>,
    rest: Seq<u8>,
    n: nat,
    lists: Seq<(Seq<char>, Set<u32>)>,
)
    requires
        postings::unique_names(lists),
        n > 0,
        name.len() <= u32::MAX,
    ensures
        parse_text(rest, 0, lists) == Ok::<_, Seq<char>>((lists, rest)),
        rest.len() < 4 ==> parse_text(rest, n, lists) is Err,
        rest.len() < name.len() ==> parse_text(
            codec::le32(name.len() as u32) + rest,
            n,
            lists,
        ) is Err,
        !vstd::utf8::valid_utf8(name) || bitmap::bitmap_decoding(rest) is Err ==> parse_text(
            codec::le32(name.len() as u32) + name + rest,
            n,
            lists,
        ) is Err,
        vstd::utf8::valid_utf8(name) ==> (bitmap::bitmap_decoding(rest) matches Ok((set, used))
            ==> exists|more: Seq<(Seq<char>, Set<u32>)>|
            {
                &&& #[trigger] postings::unique_names(more)
                &&& forall|other: Seq<char>| #[trigger]
                    postings::under_name(more, other) == if other == vstd::utf8::decode_utf8(name) {
                        set
                    } else {
                        postings::under_name(lists, other)
                    }
                &&& parse_text(codec::le32(name.len() as u32) + name + rest, n, lists)
                    == parse_text(rest.skip(used as int), (n - 1) as nat, more)
            }),
{
    let head = codec::le32(name.len() as u32);
    codec::lemma_le32(name.len() as u32);
    let short = head + rest;
    assert(short.take(4) =~= head);
    assert(short.skip(4) =~= rest);
    let cur = head + name + rest;
    assert(cur.take(4) =~= head);
    assert(cur.skip(4) =~= name + rest);
    assert((name + rest).take(name.len() as int) =~= name);
    assert((name + rest).skip(name.len() as int) =~= rest);
    if vstd::utf8::valid_utf8(name) {
        if let Ok((set, used)) = bitmap::bitmap_decoding(rest) {
            let text = vstd::utf8::decode_utf8(name);
            let more = postings::put_name(lists, text, set);
            postings::lemma_put_name(lists, text, set, text);
            assert forall|other: Seq<char>| #[trigger]
                postings::under_name(more, other) == if other == text {
                    set
                } else {
                    postings::under_name(lists, other)
                } by {
                postings::lemma_put_name(lists, text, set, other);
            }
            assert(postings::unique_names(more));
        }
    }
}

/// The bytes behind the columns are one bitmap, of the live ordinals, and nothing else; and
/// what stands before it is the columns, read in order.
pub proof fn law_live_ordinals_come_last(bytes: Seq<u8>, schema: SchemaView)
    ensures
        decoded(bytes, Ok(schema)) matches Ok(index) ==> {
            let n = bytes.len() as int;
            let len = codec::from_le32(bytes.subrange(16, 20)) as int;
            &&& 24 + len <= n
            &&& parse_columns(bytes.subrange(20 + len, n - 4), schema, 0, Seq::empty()) matches Ok(
                (columns, rest),
            ) && columns == index.columns && (bitmap::bitmap_decoding(rest) matches Ok((live, used))
                && live == index.live && used >= rest.len())
        },
{
    if let Ok(index) = decoded(bytes, Ok(schema)) {
        let n = bytes.len() as int;
        let body = bytes.take(n - 4);
        let len = codec::from_le32(bytes.subrange(16, 20)) as int;
        assert(body.subrange(16, 20) =~= bytes.subrange(16, 20));
        let tail = body.skip(20);
        assert(tail.skip(len) =~= bytes.subrange(20 + len, n - 4));
        let (_, rest) = parse_columns(tail.skip(len), schema, 0, Seq::empty())->Ok_0;
        let (_, used) = bitmap::bitmap_decoding(rest)->Ok_0;
        if used < rest.len() {
            assert(rest.skip(used as int).len() > 0);
        }
    }
}

} // verus!
