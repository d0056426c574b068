//! What holds of the metadata index as a whole.

use vstd::prelude::*;

use crate::error::Error;
use crate::float;
use crate::metadata::common;
use crate::metadata::common::{ColumnId, ColumnType, RangeOp, SchemaView, ValueView};
use crate::metadata::index;
use crate::metadata::index::{ColumnView, IndexView};
use crate::metadata::postings;
use crate::number;

verus! {

/// Two values that a column keeps under one key: equal values, and the two
/// zeroes of a float column.
pub open spec fn same_key(a: ValueView, b: ValueView) -> bool {
    match (a, b) {
        (ValueView::Float(x), ValueView::Float(y)) => float::key64(x) == float::key64(y),
        _ => a == b,
    }
}

/// A tombstoned ordinal never leaks: whatever is looked up, the result is alive.
pub proof fn law_lookups_are_live(
    index: IndexView,
    col: ColumnId,
    op: RangeOp,
    value: ValueView,
    ordinal: u32,
)
    ensures
        index.eq(col, value).contains(ordinal) ==> index.live.contains(ordinal),
        index.range(col, op, value).contains(ordinal) ==> index.live.contains(ordinal),
{
}

/// Removing a row takes its ordinal out of every lookup and changes nothing else
/// in any.
pub proof fn law_removed_row_is_gone(
    index: IndexView,
    col: ColumnId,
    op: RangeOp,
    value: ValueView,
    ordinal: u32,
)
    ensures
        index.removed(ordinal).eq(col, value) == index.eq(col, value).remove(ordinal),
        index.removed(ordinal).range(col, op, value) == index.range(col, op, value).remove(
            ordinal,
        ),
        index.removed(ordinal).live == index.live.remove(ordinal),
{
    assert(index.removed(ordinal).eq(col, value) =~= index.eq(col, value).remove(ordinal));
    assert(index.removed(ordinal).range(col, op, value) =~= index.range(col, op, value).remove(
        ordinal,
    ));
}

/// Removing a row that is not alive changes nothing, so removing twice is
/// removing once.
pub proof fn law_remove_is_idempotent(index: IndexView, ordinal: u32)
    ensures
        !index.live.contains(ordinal) ==> index.removed(ordinal) == index,
        index.removed(ordinal).removed(ordinal) == index.removed(ordinal),
{
    assert(index.removed(ordinal).removed(ordinal).live =~= index.removed(ordinal).live);
    if !index.live.contains(ordinal) {
        assert(index.removed(ordinal).live =~= index.live);
    }
}

proof fn lemma_added(column: ColumnView, ordinal: u32, value: ValueView, other: ValueView)
    requires
        column.ordered(),
        value.ty() == column.ty(),
        !value.nan(),
        other.ty() == column.ty(),
    ensures
        column.added(ordinal, value).under(other) == if same_key(value, other) {
            column.under(other).insert(ordinal)
        } else {
            column.under(other)
        },
        column.added(ordinal, value).added(ordinal, value) == column.added(ordinal, value),
{
    match (column, value, other) {
        (ColumnView::Int(l), ValueView::Int(k), ValueView::Int(j)) => {
            let set = postings::under(l, k).insert(ordinal);
            postings::lemma_put_under(l, k, set, j);
            postings::lemma_put_under(l, k, set, k);
            lemma_put_again(l, k, set);
            assert(set.insert(ordinal) =~= set);
        },
        (ColumnView::Float(l), ValueView::Float(x), ValueView::Float(y)) => {
            let k = float::rank64(float::key64(x)) as i64;
            let j = float::rank64(float::key64(y)) as i64;
            float::law_rank64_injective(float::key64(x), float::key64(y));
            let set = postings::under(l, k).insert(ordinal);
            postings::lemma_put_under(l, k, set, j);
            postings::lemma_put_under(l, k, set, k);
            lemma_put_again(l, k, set);
            assert(set.insert(ordinal) =~= set);
        },
        (ColumnView::Text(l), ValueView::Text(s), ValueView::Text(t)) => {
            let set = postings::under_name(l, s).insert(ordinal);
            postings::lemma_put_name(l, s, set, t);
            postings::lemma_put_name(l, s, set, s);
            lemma_put_name_again(l, s, set);
            assert(set.insert(ordinal) =~= set);
        },
        _ => {},
    }
}

proof fn lemma_put_again(lists: Seq<(i64, Set<u32>)>, key: i64, set: Set<u32>)
    requires
        postings::sorted(lists),
    ensures
        postings::put(postings::put(lists, key, set), key, set) == postings::put(lists, key, set),
{
    let now = postings::put(lists, key, set);
    postings::lemma_slot(lists, key);
    let p = postings::slot(lists, key);
    assert(now[p] == (key, set));
    postings::lemma_put_sorted(lists, key, set);
    postings::lemma_slot_unique_at(now, key, p);
    assert(now.update(p, (key, set)) =~= now);
}

proof fn lemma_put_name_again(
    lists: Seq<(Seq<char>, Set<u32>)>,
    name: Seq<char>,
    set: Set<u32>,
)
    requires
        postings::unique_names(lists),
    ensures
        postings::put_name(postings::put_name(lists, name, set), name, set) == postings::put_name(
            lists,
            name,
            set,
        ),
{
    let now = postings::put_name(lists, name, set);
    postings::lemma_spot(lists, name);
    let p = postings::spot(lists, name);
    assert(now[p] == (name, set));
    postings::lemma_put_name(lists, name, set, name);
    postings::lemma_spot_at(now, p);
    assert(now.update(p, (name, set)) =~= now);
}

/// After the first `n` entries of a row were added, a column has got the value of
/// its entry among them, or is as it was.
pub proof fn lemma_filled(
    columns: Seq<ColumnView>,
    row: Seq<(ColumnId, ValueView)>,
    n: nat,
    ordinal: u32,
    c: int,
    k: int,
)
    requires
        n <= row.len(),
        0 <= c < columns.len(),
        0 <= k < row.len(),
        row[k].0 == c,
        forall|i: int| 0 <= i < row.len() ==> (#[trigger] row[i]).0 < columns.len(),
        forall|i: int, j: int|
            0 <= i < j < row.len() ==> (#[trigger] row[i]).0 != (#[trigger] row[j]).0,
    ensures
        index::filled(columns, row, n, ordinal).len() == columns.len(),
        index::filled(columns, row, n, ordinal)[c] == if k < n {
            columns[c].added(ordinal, row[k].1)
        } else {
            columns[c]
        },
    decreases n,
{
    if n > 0 {
        lemma_filled(columns, row, (n - 1) as nat, ordinal, c, k);
        if k != n - 1 {
            assert(row[n - 1].0 != c) by {
                if k < n - 1 {
                    assert(row[k].0 != row[n - 1].0);
                } else {
                    assert(row[n - 1].0 != row[k].0);
                }
            }
        }
    }
}

/// Inserting a row makes its ordinal alive and puts it under each of the row's
/// values, and under no other value; every other ordinal stays where it was.
pub proof fn law_inserted_row_is_found(
    index: IndexView,
    ordinal: u32,
    row: Seq<(ColumnId, ValueView)>,
    k: int,
    value: ValueView,
)
    requires
        index.consistent(),
        index.schema.row_ok(row),
        0 <= k < row.len(),
        value.ty() == row[k].1.ty(),
    ensures
        index.inserted(ordinal, row).eq(row[k].0, row[k].1).contains(ordinal),
        index.inserted(ordinal, row).eq(row[k].0, value).contains(ordinal) <==> same_key(
            row[k].1,
            value,
        ) || index.columns[row[k].0 as int].under(value).contains(ordinal),
        forall|other: u32|
            other != ordinal ==> #[trigger] index.inserted(ordinal, row).eq(
                row[k].0,
                value,
            ).contains(other) == index.eq(row[k].0, value).contains(other),
{
    common::law_accepted_row_is_complete(index.schema, row);
    let c = row[k].0 as int;
    lemma_filled(index.columns, row, row.len(), ordinal, c, k);
    let _ = index.columns[c];
    lemma_added(index.columns[c], ordinal, row[k].1, value);
    lemma_added(index.columns[c], ordinal, row[k].1, row[k].1);
}

/// Inserting the same row at the same ordinal again changes nothing.
pub proof fn law_insert_is_idempotent(
    index: IndexView,
    ordinal: u32,
    row: Seq<(ColumnId, ValueView)>,
)
    requires
        index.consistent(),
        index.schema.row_ok(row),
    ensures
        index.inserted(ordinal, row).inserted(ordinal, row) == index.inserted(ordinal, row),
{
    common::law_accepted_row_is_complete(index.schema, row);
    let once = index.inserted(ordinal, row);
    let twice = once.inserted(ordinal, row);
    lemma_filled_len(index.columns, row, row.len(), ordinal);
    lemma_filled_len(once.columns, row, row.len(), ordinal);
    assert forall|c: int| 0 <= c < index.columns.len() implies twice.columns[c]
        == once.columns[c] by {
        assert(common::holds_column(row, c));
        let k = choose|k: int| 0 <= k < row.len() && #[trigger] row[k].0 == c;
        lemma_filled(index.columns, row, row.len(), ordinal, c, k);
        lemma_filled(once.columns, row, row.len(), ordinal, c, k);
        let _ = index.columns[c];
        lemma_added(index.columns[c], ordinal, row[k].1, row[k].1);
    }
    assert(twice.columns =~= once.columns);
    assert(twice.live =~= once.live);
}

/// Adding a row changes no number of columns.
pub proof fn lemma_filled_len(
    columns: Seq<ColumnView>,
    row: Seq<(ColumnId, ValueView)>,
    n: nat,
    ordinal: u32,
)
    requires
        n <= row.len(),
        forall|i: int| 0 <= i < row.len() ==> (#[trigger] row[i]).0 < columns.len(),
    ensures
        index::filled(columns, row, n, ordinal).len() == columns.len(),
    decreases n,
{
    if n > 0 {
        lemma_filled_len(columns, row, (n - 1) as nat, ordinal);
    }
}

/// The two zeroes of a float column are one value.
pub proof fn law_zeroes_are_one_value(index: IndexView, col: ColumnId, op: RangeOp)
    ensures
        index.eq(col, ValueView::Float(float::SIGN64)) == index.eq(col, ValueView::Float(0)),
        index.range(col, op, ValueView::Float(float::SIGN64)) == index.range(
            col,
            op,
            ValueView::Float(0),
        ),
{
}

/// A range over an integer column holds exactly the ordinals that a lookup of
/// some integer in the range holds.
pub proof fn law_range_is_union_of_values(
    index: IndexView,
    col: ColumnId,
    op: RangeOp,
    value: i64,
    ordinal: u32,
)
    requires
        index.consistent(),
        col < index.columns.len(),
        index.columns[col as int] is Int,
    ensures
        index.range(col, op, ValueView::Int(value)).contains(ordinal) <==> exists|k: i64|
            op.holds(k as int, value as int) && #[trigger] index.eq(
                col,
                ValueView::Int(k),
            ).contains(ordinal),
{
    let lists = index.columns[col as int]->Int_0;
    assert(index.columns[col as int].ordered());
    if index.range(col, op, ValueView::Int(value)).contains(ordinal) {
        let i = choose|i: int|
            0 <= i < lists.len() && op.holds(lists[i].0 as int, value as int) && (
            #[trigger] lists[i]).1.contains(ordinal);
        postings::lemma_slot_unique_at(lists, lists[i].0, i);
        assert(index.eq(col, ValueView::Int(lists[i].0)).contains(ordinal));
    }
    if exists|k: i64|
        op.holds(k as int, value as int) && #[trigger] index.eq(col, ValueView::Int(k)).contains(
            ordinal,
        ) {
        let k = choose|k: i64|
            op.holds(k as int, value as int) && #[trigger] index.eq(
                col,
                ValueView::Int(k),
            ).contains(ordinal);
        let p = postings::slot(lists, k);
        postings::lemma_slot(lists, k);
        assert(lists[p].1.contains(ordinal));
    }
}

/// A range over a float column holds exactly the ordinals that a lookup of some float
/// in the range holds. Floats are compared by the ranks of their keys, under which the
/// two zeroes are one; a NaN is neither looked up nor in any range.
pub proof fn law_float_range_is_union_of_values(
    index: IndexView,
    col: ColumnId,
    op: RangeOp,
    value: u64,
    ordinal: u32,
)
    requires
        index.consistent(),
        col < index.columns.len(),
        index.columns[col as int] is Float,
        !float::nan64(value),
    ensures
        index.range(col, op, ValueView::Float(value)).contains(ordinal) <==> exists|k: u64|
            !float::nan64(k) && op.holds(
                float::rank64(float::key64(k)),
                float::rank64(float::key64(value)),
            ) && #[trigger] index.eq(col, ValueView::Float(k)).contains(ordinal),
{
    let lists = index.columns[col as int]->Float_0;
    let bound = float::rank64(float::key64(value));
    assert(index.columns[col as int].ordered());
    if index.range(col, op, ValueView::Float(value)).contains(ordinal) {
        let i = choose|i: int|
            0 <= i < lists.len() && op.holds(lists[i].0 as int, bound) && (
            #[trigger] lists[i]).1.contains(ordinal);
        let k = postings::unrank(lists[i].0);
        assert(index::proper_rank(lists[i].0));
        postings::lemma_rank_round_trip(lists[i].0, k);
        postings::lemma_slot_unique_at(lists, lists[i].0, i);
        assert(index.eq(col, ValueView::Float(k)).contains(ordinal));
    }
    if exists|k: u64|
        !float::nan64(k) && op.holds(float::rank64(float::key64(k)), bound) && #[trigger] index.eq(
            col,
            ValueView::Float(k),
        ).contains(ordinal) {
        let k = choose|k: u64|
            !float::nan64(k) && op.holds(float::rank64(float::key64(k)), bound)
                && #[trigger] index.eq(col, ValueView::Float(k)).contains(ordinal);
        let rank = float::rank64(float::key64(k)) as i64;
        let p = postings::slot(lists, rank);
        postings::lemma_slot(lists, rank);
        assert(lists[p].1.contains(ordinal));
    }
}

/// Whether two values of one type are the same value: equal integers, floats of one
/// number, equal strings.
pub open spec fn same_value(a: ValueView, b: ValueView) -> bool {
    match (a, b) {
        (ValueView::Int(x), ValueView::Int(y)) => x == y,
        (ValueView::Float(x), ValueView::Float(y)) => {
            &&& !number::no_number64(x)
            &&& !number::no_number64(y)
            &&& number::number64(x) == number::number64(y)
        },
        (ValueView::Text(x), ValueView::Text(y)) => x == y,
        _ => false,
    }
}

/// Whether the first of two numeric values is the lesser number.
pub open spec fn lesser_value(a: ValueView, b: ValueView) -> bool {
    match (a, b) {
        (ValueView::Int(x), ValueView::Int(y)) => x < y,
        (ValueView::Float(x), ValueView::Float(y)) => {
            &&& !number::no_number64(x)
            &&& !number::no_number64(y)
            &&& number::number64(x) < number::number64(y)
        },
        _ => false,
    }
}

/// No value of the column has ever been given for the ordinal.
pub open spec fn unlisted(index: IndexView, col: ColumnId, ordinal: u32) -> bool {
    forall|value: ValueView| !(#[trigger] index.columns[col as int].under(value)).contains(ordinal)
}

/// An empty index finds nothing, and no ordinal is listed or alive in it.
pub proof fn law_empty_index_finds_nothing(
    schema: SchemaView,
    col: ColumnId,
    op: RangeOp,
    value: ValueView,
    ordinal: u32,
)
    requires
        col < schema.columns.len(),
    ensures
        IndexView::empty(schema).consistent(),
        unlisted(IndexView::empty(schema), col, ordinal),
        !IndexView::empty(schema).live.contains(ordinal),
        IndexView::empty(schema).eq(col, value) == Set::<u32>::empty(),
        IndexView::empty(schema).range(col, op, value) == Set::<u32>::empty(),
{
    let index = IndexView::empty(schema);
    assert(index.eq(col, value) =~= Set::<u32>::empty());
    assert(index.range(col, op, value) =~= Set::<u32>::empty());
}

/// A row that was inserted under a new ordinal is found by exactly the values that it
/// has: looking up a value gives its ordinal if and only if that is the row's own value,
/// and for every other ordinal what it gave before.
pub proof fn law_row_is_found_by_its_value(
    index: IndexView,
    ordinal: u32,
    row: Seq<(ColumnId, ValueView)>,
    k: int,
    value: ValueView,
    other: u32,
)
    requires
        index.consistent(),
        index.schema.row_ok(row),
        0 <= k < row.len(),
        unlisted(index, row[k].0, ordinal),
    ensures
        index.inserted(ordinal, row).eq(row[k].0, value).contains(ordinal) <==> same_value(
            row[k].1,
            value,
        ),
        other != ordinal ==> index.inserted(ordinal, row).eq(row[k].0, value).contains(other)
            == index.eq(row[k].0, value).contains(other),
        index.inserted(ordinal, row).live == index.live.insert(ordinal),
{
    common::law_accepted_row_is_complete(index.schema, row);
    let c = row[k].0 as int;
    lemma_filled(index.columns, row, row.len(), ordinal, c, k);
    let column = index.columns[c];
    assert(!column.under(value).contains(ordinal));
    if value.ty() == row[k].1.ty() {
        law_inserted_row_is_found(index, ordinal, row, k, value);
        if let (ValueView::Float(x), ValueView::Float(y)) = (row[k].1, value) {
            number::law_order_is_numeric64(x, y);
            number::law_order_is_numeric64(y, x);
            float::law_rank64_injective(float::key64(x), float::key64(y));
            if float::nan64(y) {
                assert(float::key64(x) != float::key64(y));
            }
        }
    }
}

/// A row that was inserted under a new ordinal is in a range exactly if its value
/// compares with the operand as the operator says, as numbers; every other ordinal is in
/// the range as it was before. No string is in any range.
pub proof fn law_row_is_found_by_comparison(
    index: IndexView,
    ordinal: u32,
    row: Seq<(ColumnId, ValueView)>,
    k: int,
    value: ValueView,
    other: u32,
    op: RangeOp,
)
    requires
        index.consistent(),
        index.schema.row_ok(row),
        0 <= k < row.len(),
        unlisted(index, row[k].0, ordinal),
        !value.nan(),
    ensures
        ({
            let now = index.inserted(ordinal, row);
            let (col, own) = (row[k].0, row[k].1);
            let same = same_value(own, value) && !(own is Text);
            &&& now.range(col, RangeOp::Lt, value).contains(ordinal) <==> lesser_value(own, value)
            &&& now.range(col, RangeOp::Gt, value).contains(ordinal) <==> lesser_value(value, own)
            &&& now.range(col, RangeOp::Le, value).contains(ordinal) <==> lesser_value(own, value)
                || same
            &&& now.range(col, RangeOp::Ge, value).contains(ordinal) <==> lesser_value(value, own)
                || same
            &&& other != ordinal ==> now.range(col, op, value).contains(other) == index.range(
                col,
                op,
                value,
            ).contains(other)
        }),
{
    common::law_accepted_row_is_complete(index.schema, row);
    let (col, own) = (row[k].0, row[k].1);
    let c = col as int;
    let now = index.inserted(ordinal, row);
    lemma_filled(index.columns, row, row.len(), ordinal, c, k);
    lemma_inserted_consistent(index, ordinal, row);
    let _ = index.columns[c];
    match (own, value) {
        (ValueView::Int(x), ValueView::Int(y)) => {
            lemma_int_range(index, ordinal, row, k, y, RangeOp::Lt, other);
            lemma_int_range(index, ordinal, row, k, y, RangeOp::Le, other);
            lemma_int_range(index, ordinal, row, k, y, RangeOp::Gt, other);
            lemma_int_range(index, ordinal, row, k, y, RangeOp::Ge, other);
        },
        (ValueView::Float(x), ValueView::Float(y)) => {
            number::law_order_is_numeric64(x, y);
            number::law_order_is_numeric64(y, x);
            lemma_float_range(index, ordinal, row, k, y, RangeOp::Lt, other);
            lemma_float_range(index, ordinal, row, k, y, RangeOp::Le, other);
            lemma_float_range(index, ordinal, row, k, y, RangeOp::Gt, other);
            lemma_float_range(index, ordinal, row, k, y, RangeOp::Ge, other);
        },
        _ => {},
    }
}

proof fn lemma_inserted_consistent(
    index: IndexView,
    ordinal: u32,
    row: Seq<(ColumnId, ValueView)>,
)
    requires
        index.consistent(),
        index.schema.row_ok(row),
    ensures
        index.inserted(ordinal, row).consistent(),
{
    common::law_accepted_row_is_complete(index.schema, row);
    let now = index.inserted(ordinal, row);
    lemma_filled_len(index.columns, row, row.len(), ordinal);
    assert forall|c: int| 0 <= c < now.columns.len() implies (#[trigger] now.columns[c]).ty()
        == now.schema.columns[c].ty && now.columns[c].ordered() by {
        assert(common::holds_column(row, c));
        let k = choose|k: int| 0 <= k < row.len() && #[trigger] row[k].0 == c;
        lemma_filled(index.columns, row, row.len(), ordinal, c, k);
        let column = index.columns[c];
        match (column, row[k].1) {
            (ColumnView::Int(l), ValueView::Int(x)) => {
                postings::lemma_put_sorted(l, x, postings::under(l, x).insert(ordinal));
            },
            (ColumnView::Float(l), ValueView::Float(x)) => {
                let key = float::rank64(float::key64(x)) as i64;
                let set = postings::under(l, key).insert(ordinal);
                postings::lemma_put_sorted(l, key, set);
                index::lemma_put_proper(l, x, set);
            },
            (ColumnView::Text(l), ValueView::Text(t)) => {
                postings::lemma_put_name(l, t, postings::under_name(l, t).insert(ordinal), t);
            },
            _ => {},
        }
    }
}

proof fn lemma_int_range(
    index: IndexView,
    ordinal: u32,
    row: Seq<(ColumnId, ValueView)>,
    k: int,
    y: i64,
    op: RangeOp,
    other: u32,
)
    requires
        index.consistent(),
        index.schema.row_ok(row),
        0 <= k < row.len(),
        row[k].1 is Int,
        unlisted(index, row[k].0, ordinal),
    ensures
        index.inserted(ordinal, row).range(row[k].0, op, ValueView::Int(y)).contains(ordinal)
            <==> op.holds(row[k].1->Int_0 as int, y as int),
        other != ordinal ==> index.inserted(ordinal, row).range(
            row[k].0,
            op,
            ValueView::Int(y),
        ).contains(other) == index.range(row[k].0, op, ValueView::Int(y)).contains(other),
{
    let (col, x) = (row[k].0, row[k].1->Int_0);
    let now = index.inserted(ordinal, row);
    common::law_accepted_row_is_complete(index.schema, row);
    lemma_filled(index.columns, row, row.len(), ordinal, col as int, k);
    lemma_inserted_consistent(index, ordinal, row);
    let _ = index.columns[col as int];
    law_range_is_union_of_values(now, col, op, y, ordinal);
    law_row_is_found_by_its_value(index, ordinal, row, k, ValueView::Int(x), ordinal);
    if now.range(col, op, ValueView::Int(y)).contains(ordinal) {
        let j = choose|j: i64|
            op.holds(j as int, y as int) && #[trigger] now.eq(col, ValueView::Int(j)).contains(
                ordinal,
            );
        law_row_is_found_by_its_value(index, ordinal, row, k, ValueView::Int(j), ordinal);
    }
    if op.holds(x as int, y as int) {
        assert(now.eq(col, ValueView::Int(x)).contains(ordinal));
    }
    if other != ordinal {
        law_range_is_union_of_values(now, col, op, y, other);
        law_range_is_union_of_values(index, col, op, y, other);
        if now.range(col, op, ValueView::Int(y)).contains(other) {
            let j = choose|j: i64|
                op.holds(j as int, y as int) && #[trigger] now.eq(
                    col,
                    ValueView::Int(j),
                ).contains(other);
            law_row_is_found_by_its_value(index, ordinal, row, k, ValueView::Int(j), other);
            assert(index.eq(col, ValueView::Int(j)).contains(other));
        }
        if index.range(col, op, ValueView::Int(y)).contains(other) {
            let j = choose|j: i64|
                op.holds(j as int, y as int) && #[trigger] index.eq(
                    col,
                    ValueView::Int(j),
                ).contains(other);
            law_row_is_found_by_its_value(index, ordinal, row, k, ValueView::Int(j), other);
            assert(now.eq(col, ValueView::Int(j)).contains(other));
        }
    }
}

proof fn lemma_float_range(
    index: IndexView,
    ordinal: u32,
    row: Seq<(ColumnId, ValueView)>,
    k: int,
    y: u64,
    op: RangeOp,
    other: u32,
)
    requires
        index.consistent(),
        index.schema.row_ok(row),
        0 <= k < row.len(),
        row[k].1 is Float,
        !float::nan64(y),
        unlisted(index, row[k].0, ordinal),
    ensures
        index.inserted(ordinal, row).range(row[k].0, op, ValueView::Float(y)).contains(ordinal)
            <==> op.holds(
            float::rank64(float::key64(row[k].1->Float_0)),
            float::rank64(float::key64(y)),
        ),
        other != ordinal ==> index.inserted(ordinal, row).range(
            row[k].0,
            op,
            ValueView::Float(y),
        ).contains(other) == index.range(row[k].0, op, ValueView::Float(y)).contains(other),
{
    let (col, x) = (row[k].0, row[k].1->Float_0);
    let now = index.inserted(ordinal, row);
    let bound = float::rank64(float::key64(y));
    common::law_accepted_row_is_complete(index.schema, row);
    lemma_filled(index.columns, row, row.len(), ordinal, col as int, k);
    lemma_inserted_consistent(index, ordinal, row);
    let _ = index.columns[col as int];
    law_float_range_is_union_of_values(now, col, op, y, ordinal);
    law_row_is_found_by_its_value(index, ordinal, row, k, ValueView::Float(x), ordinal);
    number::law_order_is_numeric64(x, x);
    if now.range(col, op, ValueView::Float(y)).contains(ordinal) {
        let j = choose|j: u64|
            !float::nan64(j) && op.holds(float::rank64(float::key64(j)), bound)
                && #[trigger] now.eq(col, ValueView::Float(j)).contains(ordinal);
        law_row_is_found_by_its_value(index, ordinal, row, k, ValueView::Float(j), ordinal);
        number::law_order_is_numeric64(x, j);
    }
    if op.holds(float::rank64(float::key64(x)), bound) {
        assert(now.eq(col, ValueView::Float(x)).contains(ordinal));
    }
    if other != ordinal {
        law_float_range_is_union_of_values(now, col, op, y, other);
        law_float_range_is_union_of_values(index, col, op, y, other);
        if now.range(col, op, ValueView::Float(y)).contains(other) {
            let j = choose|j: u64|
                !float::nan64(j) && op.holds(float::rank64(float::key64(j)), bound)
                    && #[trigger] now.eq(col, ValueView::Float(j)).contains(other);
            law_row_is_found_by_its_value(index, ordinal, row, k, ValueView::Float(j), other);
            assert(index.eq(col, ValueView::Float(j)).contains(other));
        }
        if index.range(col, op, ValueView::Float(y)).contains(other) {
            let j = choose|j: u64|
                !float::nan64(j) && op.holds(float::rank64(float::key64(j)), bound)
                    && #[trigger] index.eq(col, ValueView::Float(j)).contains(other);
            law_row_is_found_by_its_value(index, ordinal, row, k, ValueView::Float(j), other);
            assert(now.eq(col, ValueView::Float(j)).contains(other));
        }
    }
}

/// When a lookup is refused: for a column that there is not, for a value of another type
/// than the column's, and for a float that is no number; a range over strings is never
/// refused for its value.
pub proof fn law_refused_lookups(index: IndexView, col: ColumnId, value: ValueView)
    requires
        index.consistent(),
    ensures
        match index.eq_fault(col, value) {
            None => {
                &&& col < index.schema.columns.len()
                &&& is_of(value, index.schema.columns[col as int].ty)
                &&& value matches ValueView::Float(x) ==> !number::no_number64(x)
            },
            Some(Error::UnknownColumn { column }) => {
                column == col && col >= index.schema.columns.len()
            },
            Some(Error::TypeMismatch { column, expected, got }) => {
                &&& column == col && col < index.schema.columns.len()
                &&& expected == index.schema.columns[col as int].ty
                &&& is_of(value, got) && got != expected
            },
            Some(Error::NaNRejected { column }) => {
                &&& column == col && col < index.schema.columns.len()
                &&& index.schema.columns[col as int].ty is Float
                &&& value matches ValueView::Float(x) && number::no_number64(x)
            },
            Some(_) => false,
        },
        index.range_fault(col, value) == if col < index.schema.columns.len()
            && index.schema.columns[col as int].ty is Text {
            None
        } else {
            index.eq_fault(col, value)
        },
{
    if col < index.columns.len() {
        let _ = index.columns[col as int];
    }
    if let ValueView::Float(x) = value {
        number::law_order_is_numeric64(x, x);
    }
}

/// Whether a value is of a type.
pub open spec fn is_of(value: ValueView, ty: ColumnType) -> bool {
    match ty {
        ColumnType::Int => value is Int,
        ColumnType::Float => value is Float,
        ColumnType::Text => value is Text,
    }
}

/// A row is accepted exactly if it has as many entries as the schema has columns, each
/// for a column of its own and of that column's type, and no float that is no number.
/// What a refusal says of the row is true.
pub proof fn law_row_acceptance(schema: SchemaView, row: Seq<(ColumnId, ValueView)>)
    ensures
        match schema.row_fault(row) {
            None => {
                &&& row.len() == schema.columns.len()
                &&& forall|i: int|
                    0 <= i < row.len() ==> {
                        let (id, value) = #[trigger] row[i];
                        &&& id < schema.columns.len()
                        &&& is_of(value, schema.columns[id as int].ty)
                        &&& value matches ValueView::Float(x) ==> !number::no_number64(x)
                    }
                &&& forall|i: int, j: int|
                    0 <= i < j < row.len() ==> (#[trigger] row[i]).0 != (#[trigger] row[j]).0
            },
            Some(Error::IncompleteRow) => row.len() != schema.columns.len() || exists|
                i: int,
                j: int,
            |
                0 <= i < j < row.len() && (#[trigger] row[i]).0 == (#[trigger] row[j]).0,
            Some(Error::UnknownColumn { column }) => column >= schema.columns.len() && exists|
                i: int,
            |
                0 <= i < row.len() && (#[trigger] row[i]).0 == column,
            Some(Error::TypeMismatch { column, expected, got }) => {
                &&& column < schema.columns.len()
                &&& expected == schema.columns[column as int].ty
                &&& got != expected
                &&& exists|i: int|
                    0 <= i < row.len() && (#[trigger] row[i]).0 == column && is_of(row[i].1, got)
            },
            Some(Error::NaNRejected { column }) => exists|i: int|
                0 <= i < row.len() && (#[trigger] row[i]).0 == column && (
                row[i].1 matches ValueView::Float(x) && number::no_number64(x)),
            Some(_) => false,
        },
{
    if schema.row_fault(row) is None {
        common::law_accepted_row_is_complete(schema, row);
        assert forall|i: int| 0 <= i < row.len() implies {
            let (id, value) = #[trigger] row[i];
            &&& id < schema.columns.len()
            &&& is_of(value, schema.columns[id as int].ty)
            &&& value matches ValueView::Float(x) ==> !number::no_number64(x)
        } by {
            let e = row[i];
            if let ValueView::Float(x) = e.1 {
                number::law_order_is_numeric64(x, x);
            }
        }
    } else if row.len() == schema.columns.len() {
        let i = lemma_first_entry_fault(schema, row, 0);
        let e = row[i];
        if let ValueView::Float(x) = e.1 {
            number::law_order_is_numeric64(x, x);
        }
        if exists|j: int| 0 <= j < i && #[trigger] row[j].0 == e.0 {
            let j = choose|j: int| 0 <= j < i && #[trigger] row[j].0 == e.0;
            assert(row[j].0 == row[i].0);
        }
    }
}

proof fn lemma_first_entry_fault(
    schema: SchemaView,
    row: Seq<(ColumnId, ValueView)>,
    from: int,
) -> (i: int)
    requires
        0 <= from <= row.len(),
        schema.fault_from(row, from) is Some,
    ensures
        from <= i < row.len(),
        schema.entry_fault(row, i) == schema.fault_from(row, from),
        schema.entry_fault(row, i) is Some,
    decreases row.len() - from,
{
    if schema.entry_fault(row, from) is Some {
        from
    } else {
        lemma_first_entry_fault(schema, row, from + 1)
    }
}

/// The entry at `i` fits the schema beside those before it: its column is known, its value
/// is of that column's type, the column is new in the row, and the value is no float that
/// is no number.
pub open spec fn entry_fits(schema: SchemaView, row: Seq<(ColumnId, ValueView)>, i: int) -> bool {
    let (id, value) = row[i];
    &&& id < schema.columns.len()
    &&& is_of(value, schema.columns[id as int].ty)
    &&& forall|j: int| 0 <= j < i ==> (#[trigger] row[j]).0 != id
    &&& value matches ValueView::Float(x) ==> !number::no_number64(x)
}

/// The error says what is wrong with the entry at `i`: the first of an unknown column, a
/// value of another type, a column that came before, and a float that is no number.
pub open spec fn describes(
    schema: SchemaView,
    row: Seq<(ColumnId, ValueView)>,
    i: int,
    e: Error,
) -> bool {
    let (id, value) = row[i];
    let known = id < schema.columns.len();
    let typed = known && is_of(value, schema.columns[id as int].ty);
    let new = forall|j: int| 0 <= j < i ==> (#[trigger] row[j]).0 != id;
    match e {
        Error::UnknownColumn { column } => column == id && !known,
        Error::TypeMismatch { column, expected, got } => {
            &&& column == id && known && !typed
            &&& expected == schema.columns[id as int].ty
            &&& is_of(value, got)
        },
        Error::IncompleteRow => typed && !new,
        Error::NaNRejected { column } => {
            &&& column == id && typed && new
            &&& value matches ValueView::Float(x) && number::no_number64(x)
        },
        _ => false,
    }
}

/// A row with the right number of entries is refused for its first entry that does not
/// fit, and for what is wrong with that; one with another number is incomplete.
pub proof fn law_first_misfit_is_reported(schema: SchemaView, row: Seq<(ColumnId, ValueView)>)
    ensures
        row.len() != schema.columns.len() ==> schema.row_fault(row) == Some(Error::IncompleteRow),
        row.len() == schema.columns.len() ==> match schema.row_fault(row) {
            None => forall|i: int| 0 <= i < row.len() ==> #[trigger] entry_fits(schema, row, i),
            Some(e) => exists|i: int|
                {
                    &&& 0 <= i < row.len()
                    &&& #[trigger] describes(schema, row, i, e)
                    &&& forall|j: int| 0 <= j < i ==> #[trigger] entry_fits(schema, row, j)
                },
        },
{
    if row.len() == schema.columns.len() {
        lemma_first_misfit(schema, row, 0);
    }
}

proof fn lemma_entry(schema: SchemaView, row: Seq<(ColumnId, ValueView)>, i: int)
    requires
        0 <= i < row.len(),
    ensures
        match schema.entry_fault(row, i) {
            None => entry_fits(schema, row, i),
            Some(e) => describes(schema, row, i, e),
        },
{
    let e = row[i];
    if let ValueView::Float(x) = e.1 {
        number::law_order_is_numeric64(x, x);
    }
    if exists|j: int| 0 <= j < i && #[trigger] row[j].0 == e.0 {
        let j = choose|j: int| 0 <= j < i && #[trigger] row[j].0 == e.0;
        let _ = row[j];
    }
}

proof fn lemma_first_misfit(schema: SchemaView, row: Seq<(ColumnId, ValueView)>, from: int)
    requires
        0 <= from <= row.len(),
    ensures
        match schema.fault_from(row, from) {
            None => forall|i: int|
                from <= i < row.len() ==> #[trigger] entry_fits(schema, row, i),
            Some(e) => exists|i: int|
                {
                    &&& from <= i < row.len()
                    &&& #[trigger] describes(schema, row, i, e)
                    &&& forall|j: int| from <= j < i ==> #[trigger] entry_fits(schema, row, j)
                },
        },
    decreases row.len() - from,
{
    if from < row.len() {
        lemma_entry(schema, row, from);
        match schema.entry_fault(row, from) {
            Some(e) => {
                assert(describes(schema, row, from, e));
            },
            None => {
                lemma_first_misfit(schema, row, from + 1);
                if let Some(e) = schema.fault_from(row, from + 1) {
                    let i = choose|i: int|
                        {
                            &&& from + 1 <= i < row.len()
                            &&& #[trigger] describes(schema, row, i, e)
                            &&& forall|j: int|
                                from + 1 <= j < i ==> #[trigger] entry_fits(schema, row, j)
                        };
                    assert(describes(schema, row, i, e));
                }
            },
        }
    }
}

/// An ordinal that is not listed stays so when another row is inserted.
pub proof fn law_others_stay_unlisted(
    index: IndexView,
    ordinal: u32,
    row: Seq<(ColumnId, ValueView)>,
    k: int,
    other: u32,
)
    requires
        index.consistent(),
        index.schema.row_ok(row),
        0 <= k < row.len(),
        other != ordinal,
        unlisted(index, row[k].0, other),
    ensures
        unlisted(index.inserted(ordinal, row), row[k].0, other),
        index.inserted(ordinal, row).consistent(),
{
    common::law_accepted_row_is_complete(index.schema, row);
    lemma_inserted_consistent(index, ordinal, row);
    let c = row[k].0 as int;
    lemma_filled(index.columns, row, row.len(), ordinal, c, k);
    let column = index.columns[c];
    let now = index.inserted(ordinal, row);
    assert forall|value: ValueView| !(#[trigger] now.columns[c].under(value)).contains(other) by {
        assert(!column.under(value).contains(other));
        if value.ty() == row[k].1.ty() {
            lemma_added(column, ordinal, row[k].1, value);
        }
    }
}

/// Values are equal exactly if they are the same value.
pub proof fn law_value_equality(a: common::Value, b: common::Value)
    ensures
        vstd::std_specs::cmp::PartialEqSpec::eq_spec(&a, &b) <==> same_value(a@, b@),
{
    if let (ValueView::Float(x), ValueView::Float(y)) = (a@, b@) {
        number::law_order_is_numeric64(x, y);
    }
}

/// A row is refused before it is accepted only for a reason: one without any is
/// accepted.
pub proof fn law_fitting_row_is_accepted(schema: SchemaView, row: Seq<(ColumnId, ValueView)>)
    requires
        row.len() == schema.columns.len(),
        forall|i: int|
            0 <= i < row.len() ==> {
                let (id, value) = #[trigger] row[i];
                &&& id < schema.columns.len()
                &&& is_of(value, schema.columns[id as int].ty)
                &&& value matches ValueView::Float(x) ==> !number::no_number64(x)
            },
        forall|i: int, j: int|
            0 <= i < j < row.len() ==> (#[trigger] row[i]).0 != (#[trigger] row[j]).0,
    ensures
        schema.row_ok(row),
{
    assert forall|i: int| 0 <= i < row.len() implies {
        let e = #[trigger] row[i];
        &&& e.0 < schema.columns.len()
        &&& e.1.ty() == schema.columns[e.0 as int].ty
        &&& !e.1.nan()
    } by {
        let (id, value) = row[i];
        if let ValueView::Float(x) = value {
            number::law_order_is_numeric64(x, x);
        }
    }
    common::law_row_order_is_free(schema, row);
}

/// The applied mark never goes back and reaches what it was advanced to.
pub proof fn law_mark_is_monotonic(index: IndexView, lsn: u64)
    ensures
        index.advanced(lsn).applied >= index.applied,
        index.advanced(lsn).applied >= lsn,
        index.advanced(lsn).applied == index.applied || index.advanced(lsn).applied == lsn,
{
}

} // verus!
