//! The metadata index, its snapshots and its liveness snapshots.

use flats::bitmap::Bitmap;
use flats::error::Error;
use flats::metadata::common::{
    ColumnSpec, ColumnType, Dim, Lsn, Ordinal, RangeOp, Row, Schema, Value,
};
use flats::metadata::index::{decode_snapshot, snapshot_schema, MetadataIndex, Writer};
use flats::metadata::live::LiveSet;
use std::sync::Arc;

/// Schema used across tests: (a INT, b FLOAT, c TEXT) alongside the vector.
fn test_schema() -> Schema {
    Schema::from_columns(vec![
        ColumnSpec::Vector {
            name: "vector".into(),
            dim: Dim::new(1).unwrap(),
        },
        ColumnSpec::Scalar {
            name: "a".into(),
            ty: ColumnType::Int,
        },
        ColumnSpec::Scalar {
            name: "b".into(),
            ty: ColumnType::Float,
        },
        ColumnSpec::Scalar {
            name: "c".into(),
            ty: ColumnType::Text,
        },
    ])
    .unwrap()
}

fn row(a: i64, b: f64, c: &str) -> Row {
    vec![
        (0, Value::Int(a)),
        (1, Value::Float(b.to_bits())),
        (2, Value::Text(c.into())),
    ]
}

fn bm(ords: &[u32]) -> Vec<u32> {
    ords.to_vec()
}

#[test]
fn insert_lookup_round_trip_each_type() {
    let mut w = MetadataIndex::create(test_schema());

    w.insert_row(Ordinal(0), &row(1, 1.5, "x")).unwrap();
    w.insert_row(Ordinal(1), &row(2, 2.5, "y")).unwrap();
    w.insert_row(Ordinal(2), &row(3, 3.5, "x")).unwrap(); // "x" repeats

    assert_eq!(w.reader().lookup_eq(0, &Value::Int(2)).unwrap().to_vec(), bm(&[1]));
    assert_eq!(w.reader().lookup_eq(1, &Value::Float((3.5f64).to_bits())).unwrap().to_vec(), bm(&[2]));
    assert_eq!(w.reader().lookup_eq(2, &Value::Text("x".into())).unwrap().to_vec(), bm(&[0, 2]));

    // Never-inserted values → empty bitmap, not Err.
    assert_eq!(w.reader().lookup_eq(0, &Value::Int(99)).unwrap().to_vec(), bm(&[]));
    assert_eq!(w.reader().lookup_eq(1, &Value::Float((9.9f64).to_bits())).unwrap().to_vec(), bm(&[]));
    assert_eq!(w.reader().lookup_eq(2, &Value::Text("zzz".into())).unwrap().to_vec(), bm(&[]));
}

#[test]
fn range_boundaries() {
    let mut w = MetadataIndex::create(test_schema());

    w.insert_row(Ordinal(0), &row(1, 1.0, "p")).unwrap();
    w.insert_row(Ordinal(1), &row(2, 2.0, "q")).unwrap();
    w.insert_row(Ordinal(2), &row(3, 3.0, "r")).unwrap();

    // INT against 2.
    let v = Value::Int(2);
    assert_eq!(w.reader().lookup_range(0, RangeOp::Lt, &v).unwrap().to_vec(), bm(&[0]));
    assert_eq!(w.reader().lookup_range(0, RangeOp::Le, &v).unwrap().to_vec(), bm(&[0, 1]));
    assert_eq!(w.reader().lookup_range(0, RangeOp::Gt, &v).unwrap().to_vec(), bm(&[2]));
    assert_eq!(w.reader().lookup_range(0, RangeOp::Ge, &v).unwrap().to_vec(), bm(&[1, 2]));

    // FLOAT against 2.0.
    let v = Value::Float((2.0f64).to_bits());
    assert_eq!(w.reader().lookup_range(1, RangeOp::Lt, &v).unwrap().to_vec(), bm(&[0]));
    assert_eq!(w.reader().lookup_range(1, RangeOp::Le, &v).unwrap().to_vec(), bm(&[0, 1]));
    assert_eq!(w.reader().lookup_range(1, RangeOp::Gt, &v).unwrap().to_vec(), bm(&[2]));
    assert_eq!(w.reader().lookup_range(1, RangeOp::Ge, &v).unwrap().to_vec(), bm(&[1, 2]));

    // Bound BETWEEN keys.
    let v = Value::Float((2.5f64).to_bits());
    assert_eq!(w.reader().lookup_range(1, RangeOp::Lt, &v).unwrap().to_vec(), bm(&[0, 1]));
    assert_eq!(w.reader().lookup_range(1, RangeOp::Gt, &v).unwrap().to_vec(), bm(&[2]));

    // Bounds OUTSIDE the key range.
    assert_eq!(w.reader().lookup_range(0, RangeOp::Lt, &Value::Int(0)).unwrap().to_vec(), bm(&[]));
    assert_eq!(w.reader().lookup_range(0, RangeOp::Ge, &Value::Int(0)).unwrap().to_vec(), bm(&[0, 1, 2]));
    assert_eq!(w.reader().lookup_range(0, RangeOp::Gt, &Value::Int(100)).unwrap().to_vec(), bm(&[]));
    assert_eq!(w.reader().lookup_range(0, RangeOp::Le, &Value::Int(100)).unwrap().to_vec(), bm(&[0, 1, 2]));

    // -0.0 and +0.0 land on the same normalized key.
    w.insert_row(Ordinal(3), &row(0, -0.0, "z")).unwrap();
    assert_eq!(w.reader().lookup_eq(1, &Value::Float((0.0f64).to_bits())).unwrap().to_vec(), bm(&[3]));
    assert_eq!(w.reader().lookup_eq(1, &Value::Float((-0.0f64).to_bits())).unwrap().to_vec(), bm(&[3]));
    // And range bounds treat them identically: nothing is < -0.0 here.
    assert_eq!(w.reader().lookup_range(1, RangeOp::Lt, &Value::Float((-0.0f64).to_bits())).unwrap().to_vec(), bm(&[]));
    assert_eq!(w.reader().lookup_range(1, RangeOp::Le, &Value::Float((-0.0f64).to_bits())).unwrap().to_vec(), bm(&[3]));
}

#[test]
fn tombstones_never_leak() {
    let mut w = MetadataIndex::create(test_schema());

    for ord in 0..3u32 {
        w.insert_row(Ordinal(ord), &row(ord as i64, ord as f64, "same"))
            .unwrap();
    }
    w.remove_row(Ordinal(1)).unwrap();

    assert_eq!(w.reader().lookup_eq(2, &Value::Text("same".into())).unwrap().to_vec(), bm(&[0, 2]));
    assert_eq!(w.reader().lookup_eq(0, &Value::Int(1)).unwrap().to_vec(), bm(&[]));
    assert_eq!(
        w.reader().lookup_range(0, RangeOp::Ge, &Value::Int(0)).unwrap().to_vec(),
        bm(&[0, 2])
    );
    assert_eq!(w.reader().live().to_vec(), bm(&[0, 2]));
    assert_eq!(w.reader().live_count(), 2);
}

#[test]
fn delete_and_insert_are_idempotent() {
    let mut w = MetadataIndex::create(test_schema());

    let the_row = row(7, 7.0, "seven");
    w.insert_row(Ordinal(0), &the_row).unwrap();
    // Insert twice with the identical row: set semantics, same state.
    w.insert_row(Ordinal(0), &the_row).unwrap();
    assert_eq!(w.reader().lookup_eq(0, &Value::Int(7)).unwrap().to_vec(), bm(&[0]));
    assert_eq!(w.reader().live_count(), 1);

    // Remove twice → same state, no Err.
    w.remove_row(Ordinal(0)).unwrap();
    w.remove_row(Ordinal(0)).unwrap();
    assert_eq!(w.reader().live_count(), 0);
    assert_eq!(w.reader().lookup_eq(0, &Value::Int(7)).unwrap().to_vec(), bm(&[]));

    // Remove a never-inserted ordinal → no Err.
    w.remove_row(Ordinal(999)).unwrap();
    assert_eq!(w.reader().live_count(), 0);
}

#[test]
fn nan_rejected_and_state_untouched() {
    let mut w = MetadataIndex::create(test_schema());

    let bad = row(1, f64::NAN, "x");
    assert!(matches!(
        w.insert_row(Ordinal(0), &bad),
        Err(Error::NaNRejected { column: 1 })
    ));
    // Validate-before-mutate: nothing was half-inserted.
    assert_eq!(w.reader().live_count(), 0);
    assert_eq!(w.reader().lookup_eq(0, &Value::Int(1)).unwrap().to_vec(), bm(&[]));
    assert_eq!(w.reader().lookup_eq(2, &Value::Text("x".into())).unwrap().to_vec(), bm(&[]));
}

#[test]
fn unknown_column_and_type_mismatch_err() {
    let mut w = MetadataIndex::create(test_schema());
    w.insert_row(Ordinal(0), &row(1, 1.0, "x")).unwrap();

    assert!(matches!(
        w.reader().lookup_eq(99, &Value::Int(1)),
        Err(Error::UnknownColumn { column: 99 })
    ));
    assert!(matches!(
        w.reader().lookup_range(99, RangeOp::Lt, &Value::Int(1)),
        Err(Error::UnknownColumn { column: 99 })
    ));
    assert!(matches!(
        w.reader().lookup_eq(0, &Value::Text("x".into())),
        Err(Error::TypeMismatch {
            column: 0,
            expected: ColumnType::Int,
            got: ColumnType::Text,
        })
    ));
    assert!(matches!(
        w.reader().lookup_range(0, RangeOp::Lt, &Value::Float((1.0f64).to_bits())),
        Err(Error::TypeMismatch { .. })
    ));

    // Insert with a wrong-typed value → TypeMismatch, state untouched.
    let bad = vec![
        (0, Value::Text("nope".into())),
        (1, Value::Float((1.0f64).to_bits())),
        (2, Value::Text("x".into())),
    ];
    assert!(matches!(
        w.insert_row(Ordinal(1), &bad),
        Err(Error::TypeMismatch { column: 0, .. })
    ));
    assert_eq!(w.reader().live_count(), 1);
}

#[test]
fn range_on_text_returns_empty() {
    let mut w = MetadataIndex::create(test_schema());
    w.insert_row(Ordinal(0), &row(1, 1.0, "x")).unwrap();

    for op in [RangeOp::Lt, RangeOp::Le, RangeOp::Gt, RangeOp::Ge] {
        let got = w.reader().lookup_range(2, op, &Value::Text("x".into())).unwrap().to_vec();
        assert_eq!(got, bm(&[]), "range on TEXT must be empty, op {op:?}");
    }
}

/// What the embedder serializes the schema to; only the embedder reads it.
const SCHEMA: &[u8] = b"the test schema, serialized";

fn saved(w: &Writer, lsn: u64) -> Vec<u8> {
    w.encode_snapshot(SCHEMA, Lsn(lsn))
}

#[test]
fn index_snapshot_round_trip() {
    let bytes = {
        let mut w = MetadataIndex::create(test_schema());
        w.insert_row(Ordinal(0), &row(1, 1.0, "x")).unwrap();
        w.insert_row(Ordinal(1), &row(2, 2.0, "y")).unwrap();
        w.insert_row(Ordinal(2), &row(3, 3.0, "x")).unwrap();
        w.remove_row(Ordinal(1)).unwrap();
        saved(&w, 7)
    };
    assert_eq!(snapshot_schema(&bytes).unwrap(), SCHEMA);

    let (w, lsn, why) =
        MetadataIndex::open(Some(&bytes), Ok(test_schema()), test_schema()).unwrap();
    assert_eq!(lsn, Lsn(7));
    assert_eq!(why, None);
    let r = w.reader();
    assert_eq!(r.live().to_vec(), bm(&[0, 2]));
    assert_eq!(
        r.lookup_eq(2, &Value::Text("x".into())).unwrap().to_vec(),
        bm(&[0, 2])
    );
    assert_eq!(r.lookup_eq(0, &Value::Int(2)).unwrap().to_vec(), bm(&[])); // tombstoned
    assert_eq!(
        r.lookup_range(1, RangeOp::Ge, &Value::Float(2.0f64.to_bits()))
            .unwrap()
            .to_vec(),
        bm(&[2])
    );
}

#[test]
fn index_crc_fallback_to_empty() {
    let populated = || {
        let mut w = MetadataIndex::create(test_schema());
        w.insert_row(Ordinal(0), &row(1, 1.0, "x")).unwrap();
        saved(&w, 5)
    };
    let assert_empty_fallback = |bytes: &[u8], reason: &str| {
        let (w, lsn, why) =
            MetadataIndex::open(Some(bytes), Ok(test_schema()), test_schema()).unwrap();
        assert_eq!(lsn, Lsn(0));
        assert_eq!(why.as_deref(), Some(reason));
        assert_eq!(w.reader().live_count(), 0);
        assert_eq!(
            w.reader().lookup_eq(0, &Value::Int(1)).unwrap().to_vec(),
            bm(&[])
        );
    };

    // Flip one byte in the middle.
    let mut bytes = populated();
    let mid = bytes.len() / 2;
    bytes[mid] ^= 0xFF;
    assert_empty_fallback(&bytes, "crc mismatch");

    // Truncated file.
    let bytes = populated();
    assert_empty_fallback(&bytes[..bytes.len() / 2], "crc mismatch");

    // Pure zeroes.
    assert_empty_fallback(&vec![0u8; 128], "crc mismatch");

    // Shorter than any snapshot.
    assert_empty_fallback(b"", "truncated");
}

#[test]
fn schema_mismatch_is_an_error() {
    let schema = || {
        Schema::from_columns(vec![
            ColumnSpec::Vector {
                name: "vector".into(),
                dim: Dim::new(1).unwrap(),
            },
            ColumnSpec::Scalar {
                name: "a".into(),
                ty: ColumnType::Int,
            },
        ])
        .unwrap()
    };
    let bytes = MetadataIndex::create(schema()).encode_snapshot(SCHEMA, Lsn(0));
    let other = Schema::from_columns(vec![
        ColumnSpec::Vector {
            name: "vector".into(),
            dim: Dim::new(1).unwrap(),
        },
        ColumnSpec::Scalar {
            name: "a".into(),
            ty: ColumnType::Text,
        },
    ])
    .unwrap();
    assert!(matches!(
        MetadataIndex::open(Some(&bytes), Ok(schema()), other),
        Err(Error::SchemaMismatch)
    ));
}

#[test]
fn a_missing_snapshot_starts_empty() {
    let (w, lsn, why) =
        MetadataIndex::open(None, Err("nothing to parse".into()), test_schema()).unwrap();
    assert_eq!((lsn, why), (Lsn(0), None));
    assert_eq!(w.reader().live_count(), 0);
}

#[test]
fn an_unparsed_schema_is_a_corrupt_snapshot() {
    let bytes = saved(&MetadataIndex::create(test_schema()), 3);
    assert!(matches!(
        decode_snapshot(&bytes, Err("bad tag".into())),
        Err(Error::CorruptSnapshot(why)) if why == "schema: bad tag"
    ));
}

/// A snapshot with `new` in the place of `old`, and a checksum that says so.
fn forged(bytes: &[u8], old: &[u8], new: &[u8]) -> Vec<u8> {
    let at = bytes.windows(old.len()).position(|w| w == old).unwrap();
    let mut head = bytes[..bytes.len() - 4].to_vec();
    head[at..at + new.len()].copy_from_slice(new);
    let crc = crc32fast::hash(&head);
    head.extend(crc.to_le_bytes());
    head
}

#[test]
fn a_snapshot_is_refused_when_any_byte_changes() {
    let mut w = MetadataIndex::create(test_schema());
    w.insert_row(Ordinal(0), &row(1, 1.0, "needle")).unwrap();
    let bytes = saved(&w, 1);
    assert!(decode_snapshot(&bytes, Ok(test_schema())).is_ok());
    for i in 0..bytes.len() {
        let mut changed = bytes.clone();
        changed[i] ^= 0x10;
        assert!(decode_snapshot(&changed, Ok(test_schema())).is_err(), "byte {i}");
    }
}

#[test]
fn a_snapshot_says_what_is_wrong_with_it() {
    let mut w = MetadataIndex::create(test_schema());
    w.insert_row(Ordinal(0), &row(1, 1.0, "needle")).unwrap();
    let bytes = saved(&w, 1);
    let fault = |bytes: &[u8]| match decode_snapshot(bytes, Ok(test_schema())) {
        Err(Error::CorruptSnapshot(why)) => why,
        Err(other) => panic!("{other:?}"),
        Ok(_) => panic!("accepted"),
    };
    assert_eq!(fault(&forged(&bytes, &bytes[..4], b"NOPE")), "bad magic");
    assert_eq!(
        fault(&forged(&bytes, b"needle", b"ne\xFFdle")),
        "text key: invalid utf-8 sequence of 1 bytes from index 2"
    );
    let torn = &bytes[..bytes.len() - 1];
    assert_eq!(fault(torn), "crc mismatch");
}

#[test]
fn marks_rise_and_never_fall() {
    let mut w = MetadataIndex::create(test_schema());
    assert_eq!(w.applied_lsn(), Lsn(0));
    w.advance_applied_lsn(Lsn(4));
    w.advance_applied_lsn(Lsn(2));
    assert_eq!(w.applied_lsn(), Lsn(4));
}

#[test]
fn extreme_keys_are_ordered_and_survive_saving() {
    let mut w = MetadataIndex::create(test_schema());
    let floats = [f64::NEG_INFINITY, -1.5, 0.0, f64::MIN_POSITIVE, f64::INFINITY];
    let ints = [i64::MIN, -1, 0, 1, i64::MAX];
    for (i, (f, n)) in floats.iter().zip(ints).enumerate() {
        w.insert_row(Ordinal(i as u32), &row(n, *f, "")).unwrap();
    }
    let (w, _, _) =
        MetadataIndex::open(Some(&saved(&w, 1)), Ok(test_schema()), test_schema()).unwrap();
    for i in 0..5u32 {
        let int = Value::Int(ints[i as usize]);
        let float = Value::Float(floats[i as usize].to_bits());
        let below: Vec<u32> = (0..i).collect();
        assert_eq!(w.reader().lookup_range(0, RangeOp::Lt, &int).unwrap().to_vec(), below);
        assert_eq!(w.reader().lookup_range(1, RangeOp::Lt, &float).unwrap().to_vec(), below);
        assert_eq!(w.reader().lookup_eq(0, &int).unwrap().to_vec(), vec![i]);
        assert_eq!(w.reader().lookup_eq(1, &float).unwrap().to_vec(), vec![i]);
    }
}

// -----------------------------------------------------------------------
// Liveness snapshots
// -----------------------------------------------------------------------

/// An index whose live ordinals are the given ones.
fn index_of(live: &[u32]) -> Writer {
    let mut w = MetadataIndex::create(test_schema());
    for o in live {
        w.insert_row(Ordinal(*o), &row(*o as i64, *o as f64, "")).unwrap();
    }
    w
}

#[test]
fn live_set_carries_its_version() {
    let set = LiveSet::new(7, Bitmap::of(&[1, 4, 9]));

    assert_eq!(set.version(), 7);
    assert_eq!(set.len(), 3);
    assert!(!set.is_empty());
    assert!(set.contains(4));
    assert!(!set.contains(5));
    assert_eq!(set.iter(), vec![1, 4, 9]);
    assert_eq!(set.bitmap().to_vec(), bm(&[1, 4, 9]));

    assert!(LiveSet::new(0, Bitmap::new()).is_empty());
}

#[test]
fn resolving_twice_at_one_version_reuses_the_arc() {
    let w = index_of(&[0, 1, 2]);
    let mut handle = w.reader().live_handle();

    let a = handle.resolve(&w.reader());
    let b = handle.resolve(&w.reader());

    assert!(Arc::ptr_eq(&a, &b), "readers must share one allocation");
    assert_eq!(a.len(), 3);
    assert_eq!(
        handle.materializations(),
        1,
        "an unchanged version must not rebuild"
    );
}

#[test]
fn a_bump_forces_a_new_snapshot() {
    let mut w = index_of(&[0]);
    let mut handle = w.reader().live_handle();
    let first = handle.resolve(&w.reader());

    // Play the applier: mutate, THEN bump.
    w.insert_row(Ordinal(1), &row(1, 1.0, "")).unwrap();
    handle.bump();
    let second = handle.resolve(&w.reader());

    assert!(!Arc::ptr_eq(&first, &second), "a bump must swap the Arc");
    assert_eq!(second.version(), 1);
    assert_eq!(second.len(), 2);
    assert_eq!(handle.materializations(), 2);

    // The old snapshot stays alive and UNCHANGED for whoever still holds it.
    assert_eq!(Arc::strong_count(&first), 1);
    assert_eq!(first.len(), 1, "an old snapshot is unaffected by the swap");
    assert_eq!(first.version(), 0);
}

#[test]
fn materialization_counter_starts_at_zero() {
    let w = index_of(&[]);
    let mut handle = w.reader().live_handle();
    assert_eq!(handle.materializations(), 0);
    assert!(handle.cached().is_none());

    handle.bump();
    handle.bump();
    assert_eq!(
        handle.materializations(),
        0,
        "bumping a version must not build a snapshot"
    );

    handle.resolve(&w.reader());
    assert_eq!(handle.materializations(), 1, "a read builds one snapshot");
}

#[test]
fn versions_count_bumps_and_labels_never_lead() {
    let mut w = index_of(&[]);
    let mut handle = w.reader().live_handle();
    for o in 0..1_001u32 {
        w.insert_row(Ordinal(o), &row(0, 0.0, "")).unwrap();
        handle.bump();
        if o % 100 == 0 {
            let set = handle.resolve(&w.reader());
            assert!(set.version() <= set.len());
        }
    }
    assert_eq!(handle.version(), 1_001);
}

#[test]
fn bitmaps_hold_sets_of_ordinals() {
    let mut a = Bitmap::of(&[5, 1, 5]);
    assert_eq!((a.to_vec(), a.len()), (vec![1, 5], 2));
    assert!(a.insert(9) && !a.insert(9));
    assert!(a.remove(1) && !a.remove(1));
    let mut b = Bitmap::of(&[9, 10]);
    b.unite_with(&a);
    assert_eq!(b.to_vec(), vec![5, 9, 10]);
    a.intersect_with(&Bitmap::of(&[9]));
    assert_eq!(a.to_vec(), vec![9]);
    let mut bytes = Vec::new();
    b.write_to(&mut bytes);
    bytes.push(7);
    let (back, used) = Bitmap::read_from(&bytes).unwrap();
    assert_eq!((back.to_vec(), used), (vec![5, 9, 10], bytes.len() - 1));
    assert!(Bitmap::read_from(b"nonsense").is_err());
    assert!(Bitmap::new().is_empty() && !b.is_empty() && b.contains(10));
    assert_eq!(b.clone().to_vec(), b.to_vec());
}
