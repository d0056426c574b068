//! Why recovery is right: a log that is applied again is absorbed.
//!
//! A crash leaves every store with some prefix of the log, each with its own.
//! Recovery replays the log from a position that all of them have reached. The laws
//! here say that the outcome is that of the whole log, applied once.

use vstd::prelude::*;

use crate::engine::record::RecordView;
use crate::engine::stores::{CollectionView, StoresView};
use crate::float;
use crate::index;
use crate::metadata::common;
use crate::metadata::common::{ColumnId, RangeOp, ValueView};
use crate::metadata::index as meta;
use crate::metadata::index::{ColumnView, IndexView};
use crate::metadata::laws;
use crate::metadata::postings;
use crate::metadata::tuples;

verus! {

// ---------------------------------------------------------------------------
// Indexes that answer alike
// ---------------------------------------------------------------------------

/// The key of a posting list.
pub enum Key {
    /// Of a numeric column: the number, or the rank of the float.
    Number(i64),
    /// Of a text column.
    Name(Seq<char>),
}

/// The key of a value.
pub open spec fn key_of(value: ValueView) -> Key {
    match value {
        ValueView::Int(k) => Key::Number(k),
        ValueView::Float(b) => Key::Number(float::rank64(float::key64(b)) as i64),
        ValueView::Text(s) => Key::Name(s),
    }
}

/// The ordinals that a column lists under a key.
pub open spec fn listed(column: ColumnView, key: Key) -> Set<u32> {
    match (column, key) {
        (ColumnView::Int(l), Key::Number(k)) => postings::under(l, k),
        (ColumnView::Float(l), Key::Number(k)) => postings::under(l, k),
        (ColumnView::Text(l), Key::Name(s)) => postings::under_name(l, s),
        _ => Set::empty(),
    }
}

/// Two columns of one type that list the same ordinals under every key. The order
/// in which the strings of a text column came may differ: nothing depends on it.
pub open spec fn alike_column(a: ColumnView, b: ColumnView) -> bool {
    &&& a.ty() == b.ty()
    &&& forall|key: Key| #[trigger] listed(a, key) == listed(b, key)
}

/// Two indexes that differ in nothing that a lookup shows.
pub open spec fn alike_index(a: IndexView, b: IndexView) -> bool {
    &&& a.schema == b.schema
    &&& a.live == b.live
    &&& a.applied == b.applied
    &&& a.columns.len() == b.columns.len()
    &&& forall|c: int|
        0 <= c < a.columns.len() ==> alike_column(#[trigger] a.columns[c], b.columns[c])
}

/// Two collections that differ in nothing that a read shows.
pub open spec fn alike(a: CollectionView, b: CollectionView) -> bool {
    &&& a.stores.flat == b.stores.flat
    &&& a.image == b.image
    &&& a.stores.tuple == b.stores.tuple
    &&& alike_index(a.stores.meta, b.stores.meta)
}

/// Indexes that are alike give the same answer to every lookup.
pub proof fn law_alike_answers_alike(
    a: IndexView,
    b: IndexView,
    col: ColumnId,
    op: RangeOp,
    value: ValueView,
)
    requires
        a.consistent(),
        b.consistent(),
        alike_index(a, b),
    ensures
        a.eq_fault(col, value) == b.eq_fault(col, value),
        a.range_fault(col, value) == b.range_fault(col, value),
        a.eq_fault(col, value) is None ==> a.eq(col, value) == b.eq(col, value),
        a.range_fault(col, value) is None ==> a.range(col, op, value) == b.range(col, op, value),
{
    if col < a.columns.len() {
        let c = col as int;
        let x = a.columns[c];
        let y = b.columns[c];
        assert(alike_column(x, y));
        assert(x.ordered() && y.ordered());
        assert(listed(x, key_of(value)) == listed(y, key_of(value)));
        match (x, y, value) {
            (ColumnView::Int(l), ColumnView::Int(m), ValueView::Int(k)) => {
                lemma_between(x, y, l, m, op, k as int);
            },
            (ColumnView::Float(l), ColumnView::Float(m), ValueView::Float(f)) => {
                lemma_between(x, y, l, m, op, float::rank64(float::key64(f)));
            },
            _ => {},
        }
    }
}

proof fn lemma_between(
    x: ColumnView,
    y: ColumnView,
    l: Seq<(i64, Set<u32>)>,
    m: Seq<(i64, Set<u32>)>,
    op: RangeOp,
    k: int,
)
    requires
        alike_column(x, y),
        x == ColumnView::Int(l) && y == ColumnView::Int(m) || x == ColumnView::Float(l) && y
            == ColumnView::Float(m),
        postings::sorted(l),
        postings::sorted(m),
    ensures
        postings::between(l, op, k) == postings::between(m, op, k),
{
    assert forall|j: i64| postings::under(l, j) == #[trigger] postings::under(m, j) by {
        assert(listed(x, Key::Number(j)) == listed(y, Key::Number(j)));
    }
    assert forall|o: u32| postings::between(l, op, k).contains(o) implies postings::between(
        m,
        op,
        k,
    ).contains(o) by {
        lemma_between_under(l, m, op, k, o);
    }
    assert forall|o: u32| postings::between(m, op, k).contains(o) implies postings::between(
        l,
        op,
        k,
    ).contains(o) by {
        assert forall|j: i64| postings::under(m, j) == #[trigger] postings::under(l, j) by {
            assert(postings::under(l, j) == postings::under(m, j));
        }
        lemma_between_under(m, l, op, k, o);
    }
    assert(postings::between(l, op, k) =~= postings::between(m, op, k));
}

proof fn lemma_between_under(
    l: Seq<(i64, Set<u32>)>,
    m: Seq<(i64, Set<u32>)>,
    op: RangeOp,
    k: int,
    o: u32,
)
    requires
        postings::sorted(l),
        postings::sorted(m),
        forall|j: i64| postings::under(l, j) == #[trigger] postings::under(m, j),
        postings::between(l, op, k).contains(o),
    ensures
        postings::between(m, op, k).contains(o),
{
    let i = choose|i: int|
        0 <= i < l.len() && op.holds(l[i].0 as int, k) && (#[trigger] l[i]).1.contains(o);
    let j = l[i].0;
    postings::lemma_slot_unique_at(l, j, i);
    assert(postings::under(m, j).contains(o));
    postings::lemma_slot(m, j);
    let p = postings::slot(m, j);
    assert(m[p].1.contains(o));
}

/// What adding an ordinal does to a column's lists.
proof fn lemma_added(column: ColumnView, ordinal: u32, value: ValueView)
    requires
        column.ordered(),
        value.ty() == column.ty(),
        !value.nan(),
    ensures
        column.added(ordinal, value).ordered(),
        column.added(ordinal, value).ty() == column.ty(),
        forall|key: Key| #[trigger]
            listed(column.added(ordinal, value), key) == if key == key_of(value) {
                listed(column, key).insert(ordinal)
            } else {
                listed(column, key)
            },
{
    let now = column.added(ordinal, value);
    match (column, value) {
        (ColumnView::Int(l), ValueView::Int(k)) => {
            let set = postings::under(l, k).insert(ordinal);
            postings::lemma_put_sorted(l, k, set);
            assert forall|key: Key| #[trigger] listed(now, key) == if key == key_of(value) {
                listed(column, key).insert(ordinal)
            } else {
                listed(column, key)
            } by {
                if let Key::Number(j) = key {
                    postings::lemma_put_under(l, k, set, j);
                }
            }
        },
        (ColumnView::Float(l), ValueView::Float(b)) => {
            let k = float::rank64(float::key64(b)) as i64;
            let set = postings::under(l, k).insert(ordinal);
            postings::lemma_put_sorted(l, k, set);
            meta::lemma_put_proper(l, b, set);
            assert forall|key: Key| #[trigger] listed(now, key) == if key == key_of(value) {
                listed(column, key).insert(ordinal)
            } else {
                listed(column, key)
            } by {
                if let Key::Number(j) = key {
                    postings::lemma_put_under(l, k, set, j);
                }
            }
        },
        (ColumnView::Text(l), ValueView::Text(s)) => {
            let set = postings::under_name(l, s).insert(ordinal);
            postings::lemma_put_name(l, s, set, s);
            assert forall|key: Key| #[trigger] listed(now, key) == if key == key_of(value) {
                listed(column, key).insert(ordinal)
            } else {
                listed(column, key)
            } by {
                if let Key::Name(t) = key {
                    postings::lemma_put_name(l, s, set, t);
                }
            }
        },
        _ => {},
    }
}

/// An accepted row adds its value for a column to that column.
proof fn lemma_inserted_column(
    index: IndexView,
    ordinal: u32,
    row: Seq<(ColumnId, ValueView)>,
    c: int,
)
    requires
        index.consistent(),
        index.schema.row_ok(row),
        0 <= c < index.columns.len(),
    ensures
        index.inserted(ordinal, row).columns.len() == index.columns.len(),
        index.inserted(ordinal, row).columns[c] == index.columns[c].added(
            ordinal,
            tuples::value_for(row, c),
        ),
        tuples::value_for(row, c).ty() == index.columns[c].ty(),
        !tuples::value_for(row, c).nan(),
        index.columns[c].ordered(),
{
    common::law_accepted_row_is_complete(index.schema, row);
    assert(common::holds_column(row, c));
    let k = choose|i: int| 0 <= i < row.len() && #[trigger] row[i].0 == c;
    assert(row[k].0 == c);
    laws::lemma_filled(index.columns, row, row.len(), ordinal, c, k);
    assert(index.columns[c].ty() == index.schema.columns[c].ty);
}

// ---------------------------------------------------------------------------
// Replay
// ---------------------------------------------------------------------------

/// A logged record with its log position.
pub struct Logged {
    /// The log position.
    pub lsn: u64,
    /// The record.
    pub record: RecordView,
}

/// Dimension and capacity are sensible, the image is long enough, and the stores
/// fit together.
pub open spec fn sound(s: CollectionView) -> bool {
    &&& s.stores.flat.dim >= 1
    &&& s.stores.flat.holds(s.image)
    &&& s.stores.meta.consistent()
}

/// The record is one that the collection accepts.
pub open spec fn accepted(s: CollectionView, r: RecordView) -> bool {
    match r {
        RecordView::Insert { ordinal, vector, metadata, .. } => {
            &&& ordinal <= u32::MAX
            &&& s.stores.vector_fault(ordinal, vector) is None
            &&& s.stores.meta.schema.row_ok(metadata)
        },
        RecordView::Delete { ordinal, .. } => {
            &&& ordinal <= u32::MAX
            &&& ordinal < s.stores.flat.capacity
        },
        RecordView::CreateCollection { .. } => false,
    }
}

/// The collection after an accepted record was applied.
pub open spec fn step(s: CollectionView, l: Logged) -> CollectionView {
    match l.record {
        RecordView::Insert { ordinal, vector, metadata, .. } => s.inserted(
            l.lsn,
            ordinal,
            vector,
            metadata,
        ),
        RecordView::Delete { ordinal, .. } => s.deleted(l.lsn, ordinal),
        RecordView::CreateCollection { .. } => s,
    }
}

/// The collection after a log was applied in order.
pub open spec fn replay(s: CollectionView, log: Seq<Logged>) -> CollectionView
    decreases log.len(),
{
    if log.len() == 0 {
        s
    } else {
        step(replay(s, log.drop_last()), log.last())
    }
}

/// Every record of the log is accepted.
pub open spec fn all_accepted(s: CollectionView, log: Seq<Logged>) -> bool {
    forall|i: int| 0 <= i < log.len() ==> accepted(s, (#[trigger] log[i]).record)
}

/// What a record is accepted for does not change: dimension, capacity, schema and
/// the length of the image.
pub open spec fn same_frame(a: CollectionView, b: CollectionView) -> bool {
    &&& a.stores.flat.dim == b.stores.flat.dim
    &&& a.stores.flat.capacity == b.stores.flat.capacity
    &&& a.stores.meta.schema == b.stores.meta.schema
    &&& a.image.len() == b.image.len()
}

proof fn lemma_step_sound(s: CollectionView, l: Logged)
    requires
        sound(s),
        accepted(s, l.record),
    ensures
        sound(step(s, l)),
        same_frame(s, step(s, l)),
{
    match l.record {
        RecordView::Insert { ordinal, vector, metadata, .. } => {
            let before = s.stores.meta;
            let after = before.inserted(ordinal as u32, metadata);
            assert forall|c: int| 0 <= c < after.columns.len() implies (
            #[trigger] after.columns[c]).ty() == after.schema.columns[c].ty
                && after.columns[c].ordered() by {
                lemma_len(before, ordinal as u32, metadata);
                lemma_inserted_column(before, ordinal as u32, metadata, c);
                lemma_added(before.columns[c], ordinal as u32, tuples::value_for(metadata, c));
                assert(before.columns[c].ty() == before.schema.columns[c].ty);
            }
            lemma_len(before, ordinal as u32, metadata);
            assert(after.consistent());
            assert(step(s, l).stores.meta.columns == after.columns);
        },
        RecordView::Delete { ordinal, .. } => {
            index::lemma_mark_in_range(s.stores.flat, s.image, ordinal as int);
            assert(step(s, l).stores.meta.columns == s.stores.meta.columns);
        },
        RecordView::CreateCollection { .. } => {},
    }
}

proof fn lemma_len(index: IndexView, ordinal: u32, row: Seq<(ColumnId, ValueView)>)
    requires
        index.consistent(),
        index.schema.row_ok(row),
    ensures
        index.inserted(ordinal, row).columns.len() == index.columns.len(),
{
    common::law_accepted_row_is_complete(index.schema, row);
    laws::lemma_filled_len(index.columns, row, row.len(), ordinal);
}

proof fn lemma_replay_sound(s: CollectionView, log: Seq<Logged>)
    requires
        sound(s),
        all_accepted(s, log),
    ensures
        sound(replay(s, log)),
        same_frame(s, replay(s, log)),
    decreases log.len(),
{
    if log.len() > 0 {
        let rest = log.drop_last();
        assert forall|i: int| 0 <= i < rest.len() implies accepted(
            s,
            (#[trigger] rest[i]).record,
        ) by {
            assert(rest[i] == log[i]);
        }
        lemma_replay_sound(s, rest);
        assert(accepted(s, log[log.len() - 1].record));
        lemma_step_sound(replay(s, rest), log.last());
    }
}

/// Collections that are alike stay so under the same record.
proof fn lemma_congruent(a: CollectionView, b: CollectionView, l: Logged)
    requires
        sound(a),
        sound(b),
        alike(a, b),
        accepted(a, l.record),
    ensures
        alike(step(a, l), step(b, l)),
{
    match l.record {
        RecordView::Insert { ordinal, metadata, .. } => {
            let o = ordinal as u32;
            let x = a.stores.meta;
            let y = b.stores.meta;
            lemma_len(x, o, metadata);
            lemma_len(y, o, metadata);
            let p = step(a, l).stores.meta;
            let q = step(b, l).stores.meta;
            assert forall|c: int| 0 <= c < p.columns.len() implies alike_column(
                #[trigger] p.columns[c],
                q.columns[c],
            ) by {
                let v = tuples::value_for(metadata, c);
                lemma_inserted_column(x, o, metadata, c);
                lemma_inserted_column(y, o, metadata, c);
                assert(alike_column(x.columns[c], y.columns[c]));
                lemma_added(x.columns[c], o, v);
                lemma_added(y.columns[c], o, v);
                assert forall|key: Key| #[trigger] listed(p.columns[c], key) == listed(
                    q.columns[c],
                    key,
                ) by {
                    assert(listed(x.columns[c], key) == listed(y.columns[c], key));
                }
            }
        },
        RecordView::Delete { .. } => {
            let p = step(a, l).stores.meta;
            assert forall|c: int| 0 <= c < p.columns.len() implies alike_column(
                #[trigger] p.columns[c],
                step(b, l).stores.meta.columns[c],
            ) by {
                assert(alike_column(a.stores.meta.columns[c], b.stores.meta.columns[c]));
            }
        },
        RecordView::CreateCollection { .. } => {},
    }
}

/// A record that comes again after another one leaves no trace of its first coming.
proof fn lemma_absorbed(s: CollectionView, r: Logged, x: Logged)
    requires
        sound(s),
        accepted(s, r.record),
        accepted(s, x.record),
    ensures
        alike(step(step(step(s, r), x), r), step(step(s, x), r)),
{
    let a1 = step(s, r);
    let a2 = step(a1, x);
    let a = step(a2, r);
    let b1 = step(s, x);
    let b = step(b1, r);
    lemma_step_sound(s, r);
    lemma_step_sound(a1, x);
    lemma_step_sound(s, x);
    lemma_image_absorbed(s, r, x);
    assert(a.stores.flat == b.stores.flat);
    assert(a.stores.tuple.slots =~= b.stores.tuple.slots);
    assert(a.stores.meta.live =~= b.stores.meta.live);
    let p = a.stores.meta;
    let q = b.stores.meta;
    lemma_columns_len(s, r);
    lemma_columns_len(a1, x);
    lemma_columns_len(a2, r);
    lemma_columns_len(s, x);
    lemma_columns_len(b1, r);
    assert forall|c: int| 0 <= c < p.columns.len() implies alike_column(
        #[trigger] p.columns[c],
        q.columns[c],
    ) by {
        lemma_column_step(s, r, c);
        lemma_column_step(a1, x, c);
        lemma_column_step(a2, r, c);
        lemma_column_step(s, x, c);
        lemma_column_step(b1, r, c);
        assert forall|key: Key| #[trigger] listed(p.columns[c], key) == listed(
            q.columns[c],
            key,
        ) by {
            let base = listed(s.stores.meta.columns[c], key);
            assert(listed(a1.stores.meta.columns[c], key) == gained(base, r.record, c, key));
            assert(listed(a2.stores.meta.columns[c], key) == gained(
                gained(base, r.record, c, key),
                x.record,
                c,
                key,
            ));
            assert(listed(b1.stores.meta.columns[c], key) == gained(base, x.record, c, key));
            assert(listed(p.columns[c], key) =~= listed(q.columns[c], key));
        }
    }
}

/// What a list becomes under a record: the ordinal of an insert joins the list of
/// its value.
pub open spec fn gained(list: Set<u32>, r: RecordView, c: int, key: Key) -> Set<u32> {
    match r {
        RecordView::Insert { ordinal, metadata, .. } => if key == key_of(
            tuples::value_for(metadata, c),
        ) {
            list.insert(ordinal as u32)
        } else {
            list
        },
        _ => list,
    }
}

proof fn lemma_columns_len(s: CollectionView, l: Logged)
    requires
        sound(s),
        accepted(s, l.record),
    ensures
        step(s, l).stores.meta.columns.len() == s.stores.meta.columns.len(),
{
    if let RecordView::Insert { ordinal, metadata, .. } = l.record {
        lemma_len(s.stores.meta, ordinal as u32, metadata);
    }
}

proof fn lemma_column_step(s: CollectionView, l: Logged, c: int)
    requires
        sound(s),
        accepted(s, l.record),
        0 <= c < s.stores.meta.columns.len(),
    ensures
        step(s, l).stores.meta.columns[c].ty() == s.stores.meta.columns[c].ty(),
        forall|key: Key| #[trigger]
            listed(step(s, l).stores.meta.columns[c], key) == gained(
                listed(s.stores.meta.columns[c], key),
                l.record,
                c,
                key,
            ),
{
    if let RecordView::Insert { ordinal, metadata, .. } = l.record {
        lemma_inserted_column(s.stores.meta, ordinal as u32, metadata, c);
        lemma_added(
            s.stores.meta.columns[c],
            ordinal as u32,
            tuples::value_for(metadata, c),
        );
    }
}

proof fn lemma_image_absorbed(s: CollectionView, r: Logged, x: Logged)
    requires
        sound(s),
        accepted(s, r.record),
        accepted(s, x.record),
    ensures
        step(step(step(s, r), x), r).image == step(step(s, x), r).image,
{
    let a = step(step(step(s, r), x), r).image;
    let b = step(step(s, x), r).image;
    if let RecordView::Delete { ordinal, .. } = r.record {
        index::lemma_mark_in_range(s.stores.flat, s.image, ordinal as int);
    }
    if let RecordView::Delete { ordinal, .. } = x.record {
        index::lemma_mark_in_range(s.stores.flat, s.image, ordinal as int);
    }
    match (r.record, x.record) {
        (RecordView::Delete { ordinal: o, .. }, RecordView::Delete { ordinal: p, .. }) => {
            let at = index::BITSET_OFFSET + (o as int) / 8;
            index::lemma_bits_absorbed(
                s.image[at],
                ((o as int) % 8) as u8,
                ((p as int) % 8) as u8,
            );
            assert(a =~= b);
        },
        (RecordView::Delete { ordinal: o, .. }, RecordView::Insert { .. }) => {
            let at = index::BITSET_OFFSET + (o as int) / 8;
            index::lemma_bits_absorbed(
                s.image[at],
                ((o as int) % 8) as u8,
                ((o as int) % 8) as u8,
            );
            assert(a =~= b);
        },
        _ => {
            assert(a =~= b);
        },
    }
}

// ---------------------------------------------------------------------------
// Words
// ---------------------------------------------------------------------------

proof fn lemma_alike_trans(a: CollectionView, b: CollectionView, c: CollectionView)
    requires
        alike(a, b),
        alike(b, c),
    ensures
        alike(a, c),
        alike(c, a),
{
    assert forall|i: int| 0 <= i < a.stores.meta.columns.len() implies alike_column(
        #[trigger] a.stores.meta.columns[i],
        c.stores.meta.columns[i],
    ) && alike_column(c.stores.meta.columns[i], a.stores.meta.columns[i]) by {
        let x = a.stores.meta.columns[i];
        let y = b.stores.meta.columns[i];
        let z = c.stores.meta.columns[i];
        assert(alike_column(x, y));
        assert(alike_column(y, z));
        assert forall|key: Key| #[trigger] listed(x, key) == listed(z, key) by {
            assert(listed(x, key) == listed(y, key));
            assert(listed(y, key) == listed(z, key));
        }
        assert forall|key: Key| #[trigger] listed(z, key) == listed(x, key) by {
            assert(listed(x, key) == listed(z, key));
        }
    }
    assert forall|i: int| 0 <= i < c.stores.meta.columns.len() implies alike_column(
        #[trigger] c.stores.meta.columns[i],
        a.stores.meta.columns[i],
    ) by {
        assert(alike_column(a.stores.meta.columns[i], c.stores.meta.columns[i]));
    }
}

proof fn lemma_alike_self(a: CollectionView)
    ensures
        alike(a, a),
{
}

/// A record that comes again after a log leaves no trace of its first coming.
proof fn lemma_absorbed_over(s: CollectionView, r: Logged, u: Seq<Logged>)
    requires
        sound(s),
        accepted(s, r.record),
        all_accepted(s, u),
    ensures
        alike(step(replay(step(s, r), u), r), step(replay(s, u), r)),
    decreases u.len(),
{
    let s1 = step(s, r);
    lemma_step_sound(s, r);
    if u.len() == 0 {
        // Twice in a row is once: the first coming is what the second absorbs.
        lemma_twice(s, r);
    } else {
        let v = u.drop_last();
        let x = u.last();
        assert(all_accepted(s, v)) by {
            assert forall|i: int| 0 <= i < v.len() implies accepted(
                s,
                (#[trigger] v[i]).record,
            ) by {
                assert(v[i] == u[i]);
            }
        }
        assert(accepted(s, u[u.len() - 1].record));
        assert(all_accepted(s1, v)) by {
            assert forall|i: int| 0 <= i < v.len() implies accepted(
                s1,
                (#[trigger] v[i]).record,
            ) by {
                assert(accepted(s, v[i].record));
            }
        }
        let a = replay(s1, v);
        let b = replay(s, v);
        lemma_replay_sound(s1, v);
        lemma_replay_sound(s, v);
        lemma_absorbed_over(s, r, v);
        let ar = step(a, r);
        let br = step(b, r);
        lemma_step_sound(a, r);
        lemma_step_sound(b, r);
        // a x r ~ a r x r ~ b r x r ~ b x r
        lemma_absorbed(a, r, x);
        lemma_absorbed(b, r, x);
        lemma_congruent(ar, br, x);
        let arx = step(ar, x);
        let brx = step(br, x);
        lemma_step_sound(ar, x);
        lemma_step_sound(br, x);
        lemma_congruent(arx, brx, r);
        lemma_alike_self(step(arx, r));
        lemma_alike_trans(step(arx, r), step(step(a, x), r), step(step(a, x), r));
        lemma_alike_trans(step(step(a, x), r), step(arx, r), step(brx, r));
        lemma_alike_trans(step(step(a, x), r), step(brx, r), step(step(b, x), r));
    }
}

proof fn lemma_twice(s: CollectionView, r: Logged)
    requires
        sound(s),
        accepted(s, r.record),
    ensures
        alike(step(step(s, r), r), step(s, r)),
{
    let s1 = step(s, r);
    let s2 = step(s1, r);
    lemma_step_sound(s, r);
    lemma_step_sound(s1, r);
    assert(s2.stores.flat == s1.stores.flat);
    assert(s2.stores.tuple.slots =~= s1.stores.tuple.slots);
    assert(s2.stores.meta.live =~= s1.stores.meta.live);
    match r.record {
        RecordView::Delete { ordinal, .. } => {
            index::lemma_mark_in_range(s.stores.flat, s.image, ordinal as int);
            let at = index::BITSET_OFFSET + (ordinal as int) / 8;
            let bit = ((ordinal as int) % 8) as u8;
            index::lemma_bits_absorbed(s.image[at], bit, bit);
            assert(s2.image =~= s1.image);
        },
        _ => {
            assert(s2.image =~= s1.image);
        },
    }
    let p = s2.stores.meta;
    let q = s1.stores.meta;
    lemma_columns_len(s, r);
    lemma_columns_len(s1, r);
    assert forall|c: int| 0 <= c < p.columns.len() implies alike_column(
        #[trigger] p.columns[c],
        q.columns[c],
    ) by {
        lemma_column_step(s, r, c);
        lemma_column_step(s1, r, c);
        assert forall|key: Key| #[trigger] listed(p.columns[c], key) == listed(
            q.columns[c],
            key,
        ) by {
            assert(listed(q.columns[c], key) == gained(
                listed(s.stores.meta.columns[c], key),
                r.record,
                c,
                key,
            ));
            assert(listed(p.columns[c], key) =~= listed(q.columns[c], key));
        }
    }
}

/// Applying a log again, to a collection that it was applied to, changes nothing
/// that a read shows.
pub proof fn law_replay_is_absorbed(s: CollectionView, log: Seq<Logged>)
    requires
        sound(s),
        all_accepted(s, log),
    ensures
        alike(replay(replay(s, log), log), replay(s, log)),
    decreases log.len(),
{
    if log.len() == 0 {
        lemma_alike_self(s);
    } else {
        let u = log.drop_last();
        let r = log.last();
        lemma_prefix_accepted(s, s, log, log.len() - 1);
        assert(log.take(log.len() - 1) =~= u);
        assert(accepted(s, log[log.len() - 1].record));
        let once = replay(s, u);
        lemma_replay_sound(s, u);
        lemma_prefix_accepted(s, once, log, log.len() - 1);
        // u r u r ~ u u r ~ u r
        lemma_absorbed_over(once, r, u);
        law_replay_is_absorbed(s, u);
        let twice = replay(once, u);
        lemma_replay_sound(once, u);
        lemma_congruent(twice, once, r);
        lemma_alike_trans(
            step(replay(step(once, r), u), r),
            step(twice, r),
            step(once, r),
        );
    }
}

proof fn lemma_prefix_accepted(s: CollectionView, t: CollectionView, log: Seq<Logged>, n: int)
    requires
        all_accepted(s, log),
        same_frame(s, t),
        0 <= n <= log.len(),
    ensures
        all_accepted(t, log.take(n)),
        all_accepted(t, log.skip(n)),
{
    assert forall|i: int| 0 <= i < n implies accepted(
        t,
        (#[trigger] log.take(n)[i]).record,
    ) by {
        assert(accepted(s, log[i].record));
    }
    assert forall|i: int| 0 <= i < log.len() - n implies accepted(
        t,
        (#[trigger] log.skip(n)[i]).record,
    ) by {
        assert(accepted(s, log[n + i].record));
    }
}

proof fn lemma_replay_concat(s: CollectionView, u: Seq<Logged>, v: Seq<Logged>)
    ensures
        replay(s, u + v) == replay(replay(s, u), v),
    decreases v.len(),
{
    if v.len() == 0 {
        assert(u + v =~= u);
    } else {
        assert((u + v).drop_last() =~= u + v.drop_last());
        lemma_replay_concat(s, u, v.drop_last());
    }
}

proof fn lemma_replay_congruent(a: CollectionView, b: CollectionView, log: Seq<Logged>)
    requires
        sound(a),
        sound(b),
        alike(a, b),
        all_accepted(a, log),
    ensures
        alike(replay(a, log), replay(b, log)),
    decreases log.len(),
{
    if log.len() > 0 {
        let u = log.drop_last();
        assert(log.take(log.len() - 1) =~= u);
        lemma_prefix_accepted(a, a, log, log.len() - 1);
        lemma_prefix_accepted(a, b, log, log.len() - 1);
        lemma_replay_congruent(a, b, u);
        lemma_replay_sound(a, u);
        lemma_replay_sound(b, u);
        assert(accepted(a, log[log.len() - 1].record));
        lemma_congruent(replay(a, u), replay(b, u), log.last());
    }
}

/// A collection that has the first `p` records, and is given the log again from an
/// earlier position `m` on, ends as if the whole log had been applied once.
pub proof fn law_overlapping_replay_converges(
    s: CollectionView,
    log: Seq<Logged>,
    m: int,
    p: int,
)
    requires
        sound(s),
        all_accepted(s, log),
        0 <= m <= p <= log.len(),
    ensures
        alike(replay(replay(s, log.take(p)), log.skip(m)), replay(s, log)),
{
    let w = log.take(m);
    let u = log.subrange(m, p);
    let v = log.skip(p);
    let base = replay(s, w);
    lemma_prefix_accepted(s, s, log, m);
    lemma_replay_sound(s, w);
    assert(all_accepted(base, u)) by {
        assert forall|i: int| 0 <= i < u.len() implies accepted(
            base,
            (#[trigger] u[i]).record,
        ) by {
            assert(accepted(s, log[m + i].record));
        }
    }
    assert(all_accepted(base, v)) by {
        assert forall|i: int| 0 <= i < v.len() implies accepted(
            base,
            (#[trigger] v[i]).record,
        ) by {
            assert(accepted(s, log[p + i].record));
        }
    }
    assert(log.take(p) =~= w + u);
    assert(log.skip(m) =~= u + v);
    assert(log =~= w + u + v);
    lemma_replay_concat(s, w, u);
    lemma_replay_concat(s, w + u, v);
    let once = replay(base, u);
    lemma_replay_sound(base, u);
    lemma_replay_concat(once, u, v);
    law_replay_is_absorbed(base, u);
    let twice = replay(once, u);
    assert(all_accepted(once, u)) by {
        assert forall|i: int| 0 <= i < u.len() implies accepted(
            once,
            (#[trigger] u[i]).record,
        ) by {
            assert(accepted(base, u[i].record));
        }
    }
    lemma_replay_sound(once, u);
    assert(all_accepted(twice, v)) by {
        assert forall|i: int| 0 <= i < v.len() implies accepted(
            twice,
            (#[trigger] v[i]).record,
        ) by {
            assert(accepted(base, v[i].record));
        }
    }
    lemma_replay_congruent(twice, once, v);
}

/// Every position that a log fills is behind the one that is handed out next.
pub proof fn law_positions_in_use_are_behind(s: CollectionView, log: Seq<Logged>, i: int)
    requires
        0 <= i < log.len(),
    ensures
        log[i].record matches RecordView::Insert { ordinal, .. } ==> ordinal < replay(
            s,
            log,
        ).stores.flat.count,
        s.stores.flat.count <= replay(s, log).stores.flat.count,
    decreases log.len(),
{
    let before = log.drop_last();
    if i < before.len() {
        law_positions_in_use_are_behind(s, before, i);
    } else if before.len() > 0 {
        law_positions_in_use_are_behind(s, before, before.len() - 1);
    }
}

// ---------------------------------------------------------------------------
// Stores at different positions
// ---------------------------------------------------------------------------

/// A collection whose parts have reached different states, as a crash may leave
/// them: the header of the flat index, its pages, the metadata index and the tuple
/// store.
pub open spec fn mixed(
    flat: CollectionView,
    pages: CollectionView,
    meta: CollectionView,
    tuple: CollectionView,
) -> CollectionView {
    CollectionView {
        stores: StoresView {
            flat: flat.stores.flat,
            meta: meta.stores.meta,
            tuple: tuple.stores.tuple,
        },
        image: pages.image,
    }
}

proof fn lemma_replay_shape(s: CollectionView, log: Seq<Logged>)
    ensures
        replay(s, log).stores.flat.dim == s.stores.flat.dim,
        replay(s, log).stores.flat.capacity == s.stores.flat.capacity,
    decreases log.len(),
{
    if log.len() > 0 {
        lemma_replay_shape(s, log.drop_last());
    }
}

proof fn lemma_replay_mixed(
    flat: CollectionView,
    pages: CollectionView,
    meta: CollectionView,
    tuple: CollectionView,
    log: Seq<Logged>,
)
    requires
        flat.stores.flat.dim == pages.stores.flat.dim,
        flat.stores.flat.capacity == pages.stores.flat.capacity,
    ensures
        replay(mixed(flat, pages, meta, tuple), log) == mixed(
            replay(flat, log),
            replay(pages, log),
            replay(meta, log),
            replay(tuple, log),
        ),
    decreases log.len(),
{
    if log.len() > 0 {
        lemma_replay_mixed(flat, pages, meta, tuple, log.drop_last());
        lemma_replay_shape(flat, log.drop_last());
        lemma_replay_shape(pages, log.drop_last());
    }
}

/// Recovery converges: after a crash the header of a collection's flat index, its
/// pages and the two metadata stores hold the first `a`, `p`, `b` and `c` records of
/// the log. Replaying the log from a position that all of them have reached gives
/// what the whole log gives.
pub proof fn law_recovery_converges(
    s: CollectionView,
    log: Seq<Logged>,
    skip: int,
    a: int,
    p: int,
    b: int,
    c: int,
)
    requires
        sound(s),
        all_accepted(s, log),
        0 <= skip,
        skip <= a <= log.len(),
        skip <= p <= log.len(),
        skip <= b <= log.len(),
        skip <= c <= log.len(),
    ensures
        alike(
            replay(
                mixed(
                    replay(s, log.take(a)),
                    replay(s, log.take(p)),
                    replay(s, log.take(b)),
                    replay(s, log.take(c)),
                ),
                log.skip(skip),
            ),
            replay(s, log),
        ),
{
    law_overlapping_replay_converges(s, log, skip, a);
    law_overlapping_replay_converges(s, log, skip, p);
    law_overlapping_replay_converges(s, log, skip, b);
    law_overlapping_replay_converges(s, log, skip, c);
    lemma_replay_shape(s, log.take(a));
    lemma_replay_shape(s, log.take(p));
    lemma_replay_mixed(
        replay(s, log.take(a)),
        replay(s, log.take(p)),
        replay(s, log.take(b)),
        replay(s, log.take(c)),
        log.skip(skip),
    );
}

// ---------------------------------------------------------------------------
// What the records of a log come to
// ---------------------------------------------------------------------------

/// The record is about the row at `ordinal`.
pub open spec fn touches(l: Logged, ordinal: u32) -> bool {
    match l.record {
        RecordView::Insert { ordinal: o, .. } => o == ordinal,
        RecordView::Delete { ordinal: o, .. } => o == ordinal,
        RecordView::CreateCollection { .. } => false,
    }
}

/// No record from `i` on is about the row.
pub open spec fn untouched_from(log: Seq<Logged>, i: int, ordinal: u32) -> bool {
    forall|k: int| i <= k < log.len() ==> !touches(#[trigger] log[k], ordinal)
}

/// An insert puts the vector and the row where reads find them, makes the row alive, and
/// changes no other row.
pub proof fn law_insert_is_visible(
    s: CollectionView,
    lsn: u64,
    ordinal: u32,
    vector: Seq<u32>,
    row: Seq<(ColumnId, ValueView)>,
    other: u32,
    columns: Seq<ColumnId>,
)
    requires
        sound(s),
        s.stores.tuple.schema == s.stores.meta.schema,
        vector.len() == s.stores.flat.dim,
        ordinal < s.stores.flat.capacity,
        s.stores.meta.schema.row_ok(row),
    ensures
        ({
            let t = s.inserted(lsn, ordinal as u64, vector, row);
            &&& t.stores.flat.vector(t.image, ordinal as int) == vector
            &&& ordinal < t.stores.flat.count
            &&& s.stores.flat.count <= t.stores.flat.count
            &&& t.stores.meta.live.contains(ordinal)
            &&& t.stores.tuple.get(ordinal, columns) matches tuples::RowGetView::Live(values)
                && values.len() == columns.len() && forall|i: int, k: int|
                0 <= i < columns.len() && 0 <= k < row.len() && (#[trigger] row[k]).0
                    == #[trigger] columns[i] ==> values[i] == row[k].1
            &&& other != ordinal ==> {
                &&& other < s.stores.flat.capacity ==> t.stores.flat.vector(t.image, other as int)
                    == s.stores.flat.vector(s.image, other as int)
                &&& t.stores.meta.live.contains(other) == s.stores.meta.live.contains(other)
                &&& t.stores.tuple.get(other, columns) == s.stores.tuple.get(other, columns)
            }
            &&& other < s.stores.flat.capacity ==> index::deleted_in(t.image, other as int)
                == index::deleted_in(s.image, other as int)
        }),
{
    let t = s.inserted(lsn, ordinal as u64, vector, row);
    let flat = s.stores.flat;
    index::law_vector_write(flat, s.image, ordinal as int, vector, ordinal as int);
    assert(t.stores.flat.vector(t.image, ordinal as int) =~= flat.vector(
        t.image,
        ordinal as int,
    ));
    if other < flat.capacity {
        index::law_vector_write(flat, s.image, ordinal as int, vector, other as int);
        assert(t.stores.flat.vector(t.image, other as int) =~= flat.vector(t.image, other as int));
    }
    let written = s.stores.tuple.written(ordinal, row);
    assert(t.stores.tuple.slots == written.slots);
    assert(t.stores.tuple.get(ordinal, columns) == written.get(ordinal, columns));
    assert(t.stores.tuple.get(other, columns) == written.get(other, columns));
    assert(t.stores.meta.live == s.stores.meta.live.insert(ordinal));
    if other != ordinal {
        tuples::law_other_rows_untouched(s.stores.tuple, ordinal, other, row, columns);
    }
    if let tuples::RowGetView::Live(values) = written.get(ordinal, columns) {
        assert forall|i: int, k: int|
            0 <= i < columns.len() && 0 <= k < row.len() && (#[trigger] row[k]).0
                == #[trigger] columns[i] implies values[i] == row[k].1 by {
            tuples::law_read_after_write(s.stores.tuple, ordinal, row, columns, i, k);
        }
    }
}

/// A delete hides the row from every read, and changes no other row and no vector.
pub proof fn law_delete_is_final(
    s: CollectionView,
    lsn: u64,
    ordinal: u32,
    other: u32,
    columns: Seq<ColumnId>,
)
    requires
        sound(s),
        ordinal < s.stores.flat.capacity,
    ensures
        ({
            let t = s.deleted(lsn, ordinal as u64);
            &&& index::deleted_in(t.image, ordinal as int)
            &&& !t.stores.meta.live.contains(ordinal)
            &&& t.stores.tuple.get(ordinal, columns) is Deleted
            &&& t.stores.flat.count == s.stores.flat.count
            &&& other < s.stores.flat.capacity ==> t.stores.flat.vector(t.image, other as int)
                == s.stores.flat.vector(s.image, other as int)
            &&& other != ordinal ==> {
                &&& other < s.stores.flat.capacity ==> index::deleted_in(t.image, other as int)
                    == index::deleted_in(s.image, other as int)
                &&& t.stores.meta.live.contains(other) == s.stores.meta.live.contains(other)
                &&& t.stores.tuple.get(other, columns) == s.stores.tuple.get(other, columns)
            }
        }),
{
    let t = s.deleted(lsn, ordinal as u64);
    let flat = s.stores.flat;
    index::law_tombstone(flat, s.image, ordinal as int, ordinal as int);
    if other < flat.capacity {
        index::law_tombstone(flat, s.image, ordinal as int, other as int);
        assert(t.stores.flat.vector(t.image, other as int) =~= flat.vector(t.image, other as int));
    }
    let gone = s.stores.tuple.deleted(ordinal);
    assert(t.stores.tuple.slots == gone.slots);
    assert(t.stores.tuple.get(ordinal, columns) == gone.get(ordinal, columns));
    assert(t.stores.tuple.get(other, columns) == gone.get(other, columns));
    tuples::law_deleted_is_not_missing(s.stores.tuple.schema, s.stores.tuple, ordinal, columns);
    assert(t.stores.meta.live == s.stores.meta.live.remove(ordinal));
}

/// A record brings every store to its own log position, and none back.
pub proof fn law_record_advances_every_store(s: CollectionView, l: Logged)
    requires
        !(l.record is CreateCollection),
    ensures
        ({
            let t = step(s, l).stores;
            &&& t.flat.last_applied >= l.lsn && t.flat.last_applied >= s.stores.flat.last_applied
            &&& t.meta.applied >= l.lsn && t.meta.applied >= s.stores.meta.applied
            &&& t.tuple.applied >= l.lsn && t.tuple.applied >= s.stores.tuple.applied
            &&& t.flat.last_applied == l.lsn || t.flat.last_applied == s.stores.flat.last_applied
            &&& t.meta.applied == l.lsn || t.meta.applied == s.stores.meta.applied
            &&& t.tuple.applied == l.lsn || t.tuple.applied == s.stores.tuple.applied
            &&& t.flat.checkpoint_lsn == s.stores.flat.checkpoint_lsn
        }),
{
}

/// The last record about a row is what it comes to when a log is replayed: a row whose
/// last record is an insert reads as that row, with that vector, and is alive; one whose
/// last record is a delete is gone; and one that no record is about is as it was.
pub proof fn law_last_record_counts(
    s: CollectionView,
    log: Seq<Logged>,
    i: int,
    ordinal: u32,
    columns: Seq<ColumnId>,
)
    requires
        sound(s),
        s.stores.tuple.schema == s.stores.meta.schema,
        all_accepted(s, log),
        ordinal < s.stores.flat.capacity,
        -1 <= i < log.len(),
        i >= 0 ==> touches(log[i], ordinal),
        untouched_from(log, i + 1, ordinal),
    ensures
        ({
            let t = replay(s, log);
            if i < 0 {
                &&& t.stores.tuple.get(ordinal, columns) == s.stores.tuple.get(ordinal, columns)
                &&& t.stores.meta.live.contains(ordinal) == s.stores.meta.live.contains(ordinal)
                &&& t.stores.flat.vector(t.image, ordinal as int) == s.stores.flat.vector(
                    s.image,
                    ordinal as int,
                )
                &&& index::deleted_in(t.image, ordinal as int) == index::deleted_in(
                    s.image,
                    ordinal as int,
                )
            } else {
                match log[i].record {
                    RecordView::Insert { vector, metadata, .. } => {
                        &&& t.stores.meta.live.contains(ordinal)
                        &&& t.stores.flat.vector(t.image, ordinal as int) == vector
                        &&& t.stores.tuple.get(
                            ordinal,
                            columns,
                        ) matches tuples::RowGetView::Live(values) && values.len() == columns.len()
                            && forall|j: int, k: int|
                            0 <= j < columns.len() && 0 <= k < metadata.len() && (
                            #[trigger] metadata[k]).0 == #[trigger] columns[j] ==> values[j]
                                == metadata[k].1
                    },
                    _ => {
                        &&& !t.stores.meta.live.contains(ordinal)
                        &&& t.stores.tuple.get(ordinal, columns) is Deleted
                        &&& index::deleted_in(t.image, ordinal as int)
                    },
                }
            }
        }),
    decreases log.len(),
{
    if log.len() > 0 {
        let u = log.drop_last();
        let last = log.last();
        let b = replay(s, u);
        lemma_prefix_accepted(s, s, log, log.len() - 1);
        assert(log.take(log.len() - 1) =~= u);
        lemma_replay_sound(s, u);
        lemma_replay_schema(s, u);
        assert(accepted(s, log[log.len() - 1].record));
        if i < u.len() {
            assert(untouched_from(u, i + 1, ordinal)) by {
                assert forall|k: int| i + 1 <= k < u.len() implies !touches(
                    #[trigger] u[k],
                    ordinal,
                ) by {
                    assert(u[k] == log[k]);
                }
            }
            law_last_record_counts(s, u, i, ordinal, columns);
            assert(!touches(log[log.len() - 1], ordinal));
        }
        match last.record {
            RecordView::Insert { ordinal: o, vector, metadata, .. } => {
                law_insert_is_visible(
                    b,
                    last.lsn,
                    o as u32,
                    vector,
                    metadata,
                    ordinal,
                    columns,
                );
            },
            RecordView::Delete { ordinal: o, .. } => {
                law_delete_is_final(b, last.lsn, o as u32, ordinal, columns);
            },
            RecordView::CreateCollection { .. } => {},
        }
    }
}

proof fn lemma_replay_schema(s: CollectionView, log: Seq<Logged>)
    ensures
        replay(s, log).stores.tuple.schema == s.stores.tuple.schema,
        replay(s, log).stores.meta.schema == s.stores.meta.schema,
    decreases log.len(),
{
    if log.len() > 0 {
        lemma_replay_schema(s, log.drop_last());
    }
}

} // verus!
