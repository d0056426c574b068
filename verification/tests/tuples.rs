//! The tuple store and its snapshots.

use flats::error::Error;
use flats::metadata::common::{ColumnSpec, ColumnType, Dim, Lsn, Ordinal, Row, Schema, Value};
use flats::metadata::tuples::{decode_snapshot, snapshot_body, RowGet, Slot, TupleStore, Writer};

fn test_schema() -> Schema {
    Schema::from_columns(vec![
        ColumnSpec::Vector {
            name: "vector".into(),
            dim: Dim::new(1).unwrap(),
        },
        ColumnSpec::Scalar {
            name: "a".into(),
            ty: ColumnType::Int,
        },
        ColumnSpec::Scalar {
            name: "b".into(),
            ty: ColumnType::Float,
        },
        ColumnSpec::Scalar {
            name: "c".into(),
            ty: ColumnType::Text,
        },
    ])
    .unwrap()
}

fn row(a: i64, b: f64, c: &str) -> Row {
    vec![
        (0, Value::Int(a)),
        (1, Value::Float(b.to_bits())),
        (2, Value::Text(c.into())),
    ]
}

/// What the embedder serializes schema and slots to; only the embedder reads it.
const BODY: &[u8] = b"schema and slots, serialized";

/// A snapshot and what its body parses back to.
fn saved(w: &Writer, lsn: u64) -> (Vec<u8>, Vec<Slot>) {
    let slots = w
        .slots()
        .iter()
        .map(|s| match s {
            Slot::Vacant => Slot::Vacant,
            Slot::Tombstone => Slot::Tombstone,
            Slot::Live(values) => Slot::Live(values.clone()),
        })
        .collect();
    (Writer::encode_snapshot(BODY, Lsn(lsn)), slots)
}

#[test]
fn write_get_round_trip_per_type() {
    let mut w = TupleStore::create(test_schema());
    w.write_row(Ordinal(0), &row(7, 2.5, "hello")).unwrap();

    // Each column individually.
    assert_eq!(
        w.reader().get(Ordinal(0), &[0]).unwrap(),
        RowGet::Live(vec![Value::Int(7)])
    );
    assert_eq!(
        w.reader().get(Ordinal(0), &[1]).unwrap(),
        RowGet::Live(vec![Value::Float((2.5f64).to_bits())])
    );
    assert_eq!(
        w.reader().get(Ordinal(0), &[2]).unwrap(),
        RowGet::Live(vec![Value::Text("hello".into())])
    );

    // Reversed request order: values come back in REQUEST order, not
    // schema order.
    assert_eq!(
        w.reader().get(Ordinal(0), &[2, 1, 0]).unwrap(),
        RowGet::Live(vec![
            Value::Text("hello".into()),
            Value::Float((2.5f64).to_bits()),
            Value::Int(7),
        ])
    );
}

#[test]
fn sparse_ordinals() {
    let (bytes, slots) = {
        let mut w = TupleStore::create(test_schema());
        w.write_row(Ordinal(0), &row(0, 0.0, "zero")).unwrap();
        w.write_row(Ordinal(1000), &row(1000, 1000.0, "k")).unwrap();

        let r = w.reader();
        assert!(matches!(r.get(Ordinal(0), &[0]).unwrap(), RowGet::Live(_)));
        assert!(matches!(r.get(Ordinal(1000), &[0]).unwrap(), RowGet::Live(_)));
        assert_eq!(r.get(Ordinal(500), &[0]).unwrap(), RowGet::Missing);
        assert_eq!(r.get(Ordinal(2000), &[0]).unwrap(), RowGet::Missing);

        saved(&w, 3)
    };
    // Vacant holes survive persistence.
    let (w, lsn, _) =
        TupleStore::open(Some(&bytes), Ok((test_schema(), slots)), test_schema()).unwrap();
    assert!(w.fits());
    let r = w.reader();
    assert_eq!(lsn, Lsn(3));
    assert!(matches!(r.get(Ordinal(1000), &[2]).unwrap(), RowGet::Live(_)));
    assert_eq!(r.get(Ordinal(500), &[0]).unwrap(), RowGet::Missing);
    assert_eq!(r.get(Ordinal(2000), &[0]).unwrap(), RowGet::Missing);
}

#[test]
fn tombstoned_ordinal_returns_deleted_marker() {
    let mut w = TupleStore::create(test_schema());

    w.write_row(Ordinal(5), &row(5, 5.0, "five")).unwrap();
    w.delete_row(Ordinal(5)).unwrap();
    assert_eq!(w.reader().get(Ordinal(5), &[0]).unwrap(), RowGet::Deleted);

    // Idempotent.
    w.delete_row(Ordinal(5)).unwrap();
    assert_eq!(w.reader().get(Ordinal(5), &[0]).unwrap(), RowGet::Deleted);

    // Delete on a vacant ordinal: the marker must still stick (a
    // replayed Delete whose Insert was folded into the snapshot).
    w.delete_row(Ordinal(9)).unwrap();
    assert_eq!(w.reader().get(Ordinal(9), &[0]).unwrap(), RowGet::Deleted);
}

#[test]
fn unknown_column_in_get_errs() {
    let mut w = TupleStore::create(test_schema());
    w.write_row(Ordinal(0), &row(1, 1.0, "x")).unwrap();

    // Live slot.
    assert!(matches!(
        w.reader().get(Ordinal(0), &[99]),
        Err(Error::UnknownColumn { column: 99 })
    ));
    // Vacant slot: still a loud error, not Missing.
    assert!(matches!(
        w.reader().get(Ordinal(50), &[99]),
        Err(Error::UnknownColumn { column: 99 })
    ));
}

#[test]
fn tuples_snapshot_round_trip() {
    let (bytes, slots) = {
        let mut w = TupleStore::create(test_schema());
        w.write_row(Ordinal(0), &row(1, 1.0, "x")).unwrap();
        w.write_row(Ordinal(1), &row(2, 2.0, "y")).unwrap();
        w.write_row(Ordinal(3), &row(4, 4.0, "w")).unwrap(); // 2 stays Vacant
        w.delete_row(Ordinal(1)).unwrap();
        saved(&w, 9)
    };
    assert_eq!(snapshot_body(&bytes).unwrap(), BODY);

    let (w, lsn, why) =
        TupleStore::open(Some(&bytes), Ok((test_schema(), slots)), test_schema()).unwrap();
    assert_eq!((lsn, why), (Lsn(9), None));
    let r = w.reader();
    assert_eq!(
        r.get(Ordinal(0), &[0, 2]).unwrap(),
        RowGet::Live(vec![Value::Int(1), Value::Text("x".into())])
    );
    assert_eq!(r.get(Ordinal(1), &[0]).unwrap(), RowGet::Deleted);
    assert_eq!(r.get(Ordinal(2), &[0]).unwrap(), RowGet::Missing);
    assert!(matches!(r.get(Ordinal(3), &[1]).unwrap(), RowGet::Live(_)));
}

#[test]
fn tuples_crc_fallback_to_empty() {
    let populated = || {
        let mut w = TupleStore::create(test_schema());
        w.write_row(Ordinal(0), &row(1, 1.0, "x")).unwrap();
        saved(&w, 5)
    };
    let assert_empty_fallback = |bytes: &[u8], slots: Vec<Slot>| {
        let (w, lsn, why) =
            TupleStore::open(Some(bytes), Ok((test_schema(), slots)), test_schema()).unwrap();
        assert_eq!(lsn, Lsn(0));
        assert_eq!(why.as_deref(), Some("crc mismatch"));
        assert_eq!(w.reader().get(Ordinal(0), &[0]).unwrap(), RowGet::Missing);
    };

    // Flip one byte in the middle.
    let (mut bytes, slots) = populated();
    let mid = bytes.len() / 2;
    bytes[mid] ^= 0xFF;
    assert_empty_fallback(&bytes, slots);

    // Truncated file.
    let (bytes, slots) = populated();
    assert_empty_fallback(&bytes[..bytes.len() / 2], slots);

    // Pure zeroes.
    assert_empty_fallback(&vec![0u8; 128], Vec::new());
}

#[test]
fn a_row_snapshot_is_refused_when_any_byte_changes() {
    let (bytes, _) = saved(&TupleStore::create(test_schema()), 1);
    for i in 0..bytes.len() {
        let mut changed = bytes.clone();
        changed[i] = !changed[i];
        assert!(
            decode_snapshot(&changed, Ok((test_schema(), Vec::new()))).is_err(),
            "byte {i}"
        );
    }
}

#[test]
fn snapshots_name_their_faults() {
    let (bytes, _) = saved(&TupleStore::create(test_schema()), 1);
    assert!(matches!(
        decode_snapshot(&bytes, Err("bad tag".into())),
        Err(Error::CorruptSnapshot(why)) if why == "body: bad tag"
    ));
    assert!(matches!(
        snapshot_body(b"short"),
        Err(Error::CorruptSnapshot(why)) if why == "truncated"
    ));
    let (w, lsn, why) = TupleStore::open(None, Err("none".into()), test_schema()).unwrap();
    assert_eq!((w.slots().len(), lsn, why), (0, Lsn(0), None));
    let vector_only = Schema::from_columns(vec![ColumnSpec::Vector {
        name: "vector".into(),
        dim: Dim::new(1).unwrap(),
    }])
    .unwrap();
    assert!(matches!(
        TupleStore::open(Some(&bytes), Ok((vector_only, Vec::new())), test_schema()),
        Err(Error::SchemaMismatch)
    ));
}

#[test]
fn a_row_of_the_wrong_width_is_noticed() {
    let (bytes, _) = saved(&TupleStore::create(test_schema()), 1);
    let short = vec![Slot::Live(vec![Value::Int(1)])];
    let (w, _, _) =
        TupleStore::open(Some(&bytes), Ok((test_schema(), short)), test_schema()).unwrap();
    assert!(!w.fits());
}

#[test]
fn tuple_marks_rise_and_never_fall() {
    let mut w = TupleStore::create(test_schema());
    w.advance_applied_lsn(Lsn(4));
    w.advance_applied_lsn(Lsn(2));
    assert_eq!(w.applied_lsn(), Lsn(4));
}

#[test]
fn validation_matches_metadata_index() {
    let mut w = TupleStore::create(test_schema());
    w.write_row(Ordinal(0), &row(1, 1.0, "x")).unwrap();
    let before = w.reader().get(Ordinal(0), &[0, 1, 2]).unwrap();

    // NaN float.
    assert!(matches!(
        w.write_row(Ordinal(0), &row(2, f64::NAN, "y")),
        Err(Error::NaNRejected { column: 1 })
    ));
    assert_eq!(w.reader().get(Ordinal(0), &[0, 1, 2]).unwrap(), before);

    // Wrong type.
    let bad = vec![
        (0, Value::Text("nope".into())),
        (1, Value::Float((1.0f64).to_bits())),
        (2, Value::Text("x".into())),
    ];
    assert!(matches!(
        w.write_row(Ordinal(0), &bad),
        Err(Error::TypeMismatch { column: 0, .. })
    ));
    assert_eq!(w.reader().get(Ordinal(0), &[0, 1, 2]).unwrap(), before);

    // Missing column.
    let short = vec![(0, Value::Int(1))];
    assert!(matches!(
        w.write_row(Ordinal(0), &short),
        Err(Error::IncompleteRow)
    ));
    assert_eq!(w.reader().get(Ordinal(0), &[0, 1, 2]).unwrap(), before);
}
