//! Schemas and rows.

use flats::error::Error;
use flats::metadata::common::{
    CollectionConfig, ColumnId, ColumnLocation, ColumnSpec, ColumnType, DeclarationOrdinal, Dim,
    RangeOp, Row, Schema, Value,
};

fn schema() -> Schema {
    Schema::from_columns(vec![
        ColumnSpec::Vector {
            name: "v".into(),
            dim: Dim::new(4).unwrap(),
        },
        ColumnSpec::Scalar {
            name: "a".into(),
            ty: ColumnType::Int,
        },
        ColumnSpec::Scalar {
            name: "b".into(),
            ty: ColumnType::Float,
        },
        ColumnSpec::Scalar {
            name: "c".into(),
            ty: ColumnType::Text,
        },
    ])
    .unwrap()
}

#[test]
fn new_assigns_ids_in_declaration_order() {
    let s = schema();
    assert_eq!(s.columns.len(), 3);
    // Scalar ColumnId space unchanged: dense 0..N in scalar declaration order.
    for (i, def) in s.columns.iter().enumerate() {
        assert_eq!(def.id, i as ColumnId);
    }
    assert_eq!(s.by_name(&"b".to_string()), Some(1));
    assert_eq!(s.column(2).unwrap().name, "c");
    assert!(s.column(3).is_none());
    // Declaration ordinals are vector-inclusive: vector@0 shifts scalars to 1..
    assert_eq!(s.vector().name, "v");
    assert_eq!(s.vector().ordinal, 0);
    assert_eq!(s.column(0).unwrap().ordinal, 1); // a
    assert_eq!(s.column(1).unwrap().ordinal, 2); // b
    assert_eq!(s.column(2).unwrap().ordinal, 3); // c
}

#[test]
fn new_rejects_duplicate_names() {
    let err = Schema::from_columns(vec![
        ColumnSpec::Vector {
            name: "v".into(),
            dim: Dim::new(2).unwrap(),
        },
        ColumnSpec::Scalar {
            name: "a".into(),
            ty: ColumnType::Int,
        },
        ColumnSpec::Scalar {
            name: "a".into(),
            ty: ColumnType::Text,
        },
    ])
    .unwrap_err();
    assert!(matches!(err, Error::DuplicateColumn(name) if name == "a"));
}

#[test]
fn from_columns_requires_exactly_one_vector() {
    assert!(matches!(
        Schema::from_columns(vec![ColumnSpec::Scalar {
            name: "a".into(),
            ty: ColumnType::Int,
        }]),
        Err(Error::VectorColumnCount { found: 0 })
    ));
    assert!(matches!(
        Schema::from_columns(vec![
            ColumnSpec::Vector {
                name: "u".into(),
                dim: Dim::new(2).unwrap(),
            },
            ColumnSpec::Vector {
                name: "w".into(),
                dim: Dim::new(2).unwrap(),
            },
        ]),
        Err(Error::VectorColumnCount { found: 2 })
    ));
}

#[test]
fn vector_after_scalars_shifts_only_later_ordinals() {
    // [author, vector, title]: scalar ColumnIds stay 0,1; declaration
    // ordinals are author@0, vector@1, title@2.
    let s = Schema::from_columns(vec![
        ColumnSpec::Scalar {
            name: "author".into(),
            ty: ColumnType::Text,
        },
        ColumnSpec::Vector {
            name: "vector".into(),
            dim: Dim::new(8).unwrap(),
        },
        ColumnSpec::Scalar {
            name: "title".into(),
            ty: ColumnType::Text,
        },
    ])
    .unwrap();
    assert_eq!(s.vector().ordinal, 1);
    assert_eq!(s.column(0).unwrap().name, "author");
    assert_eq!(s.column(0).unwrap().ordinal, 0);
    assert_eq!(s.column(1).unwrap().name, "title");
    assert_eq!(s.column(1).unwrap().ordinal, 2);
}

#[test]
fn validate_row_accepts_well_formed_row_in_any_order() {
    let s = schema();
    let row: Row = vec![
        (2, Value::Text("x".into())),
        (0, Value::Int(7)),
        (1, Value::Float(0.5f64.to_bits())),
    ];
    assert!(s.validate_row(&row).is_ok());
}

#[test]
fn validate_row_rejects_wrong_length() {
    let s = schema();
    let short: Row = vec![(0, Value::Int(1))];
    assert!(matches!(s.validate_row(&short), Err(Error::IncompleteRow)));
}

#[test]
fn validate_row_rejects_unknown_column() {
    let s = schema();
    let row: Row = vec![
        (0, Value::Int(1)),
        (1, Value::Float(1.0f64.to_bits())),
        (9, Value::Text("x".into())),
    ];
    assert!(matches!(
        s.validate_row(&row),
        Err(Error::UnknownColumn { column: 9 })
    ));
}

#[test]
fn validate_row_rejects_type_mismatch() {
    let s = schema();
    let row: Row = vec![
        (0, Value::Float(1.0f64.to_bits())),
        (1, Value::Float(1.0f64.to_bits())),
        (2, Value::Text("x".into())),
    ];
    assert!(matches!(
        s.validate_row(&row),
        Err(Error::TypeMismatch {
            column: 0,
            expected: ColumnType::Int,
            got: ColumnType::Float,
        })
    ));
}

#[test]
fn validate_row_rejects_duplicate_column_ids() {
    let s = schema();
    // Right length, all ids known + right types, but column 0 twice.
    let row: Row = vec![
        (0, Value::Int(1)),
        (0, Value::Int(2)),
        (2, Value::Text("x".into())),
    ];
    assert!(matches!(s.validate_row(&row), Err(Error::IncompleteRow)));
}

#[test]
fn validate_row_rejects_nan() {
    let s = schema();
    let row: Row = vec![
        (0, Value::Int(1)),
        (1, Value::Float(f64::NAN.to_bits())),
        (2, Value::Text("x".into())),
    ];
    assert!(matches!(
        s.validate_row(&row),
        Err(Error::NaNRejected { column: 1 })
    ));
    // Infinities are ordered fine — only NaN is rejected.
    let inf: Row = vec![
        (0, Value::Int(1)),
        (1, Value::Float(f64::INFINITY.to_bits())),
        (2, Value::Text("x".into())),
    ];
    assert!(s.validate_row(&inf).is_ok());
}

#[test]
fn a_dimension_is_positive() {
    assert!(Dim::new(0).is_none());
    assert_eq!(Dim::new(7).unwrap().get(), 7);
}

#[test]
fn a_schema_put_together_by_hand_is_checked() {
    let mut s = schema();
    assert!(s.validate().is_ok());
    s.columns[2].name = "v".to_string();
    assert!(matches!(s.validate(), Err(Error::DuplicateColumn(name)) if name == "v"));
    s.columns[1].name = "a".to_string();
    assert!(matches!(s.validate(), Err(Error::DuplicateColumn(name)) if name == "a"));
}

#[test]
fn columns_are_located_by_declaration() {
    let s = schema();
    assert_eq!(
        s.locate(DeclarationOrdinal::new(0)),
        Some(ColumnLocation::Vector { dim: Dim::new(4).unwrap() })
    );
    assert_eq!(s.locate(DeclarationOrdinal::new(3)), Some(ColumnLocation::Scalar(2)));
    assert_eq!(s.locate(DeclarationOrdinal::new(4)), None);
    assert_eq!(s.by_name(&"v".to_string()), None);
}

#[test]
fn copies_are_the_same() {
    let s = schema();
    assert!(s.same(&s.clone()));
    let c = CollectionConfig { id: 3, name: "n".into(), capacity: 9, schema: s };
    let mut d = c.clone();
    assert!(c.same(&d));
    d.capacity = 10;
    assert!(!c.same(&d));
    let v = Value::Float(1.5f64.to_bits());
    assert!(v == v.clone());
    assert!(v != Value::Int(1));
    assert_eq!(v.column_type(), ColumnType::Float);
    let _ = RangeOp::Lt;
}

#[test]
fn engine_errors_have_their_texts() {
    let texts = [
        (
            Error::DimensionMismatch { expected: 4, got: 3 },
            "dimension mismatch: expected 4, got 3",
        ),
        (Error::InvalidDimension, "dimension cannot be 0"),
        (
            Error::InvalidTopK { k: 0 },
            "invalid top k: 0 - k should be a natural number > 0",
        ),
        (Error::Io("gone".into()), "io error: gone"),
        (Error::CorruptHeader, "index file's header is corrupt"),
        (Error::BadMagic { got: 7 }, "bad magic number: 7"),
        (
            Error::UnsupportedVersion { got: 9 },
            "unsupported index file version: 9",
        ),
        (
            Error::CapacityExceeded { capacity: 10 },
            "collection is at capacity: 10",
        ),
        (
            Error::CapacityOverflow { dim: 2, capacity: 3 },
            "capacity overflow: dim=2, capacity=3 exceeds usize",
        ),
        (Error::UnknownCollection { id: 5 }, "unknown collection: 5"),
        (
            Error::UnknownCollectionName { name: "x".into() },
            "unknown collection: x",
        ),
        (
            Error::CollectionConfigMismatch { id: 1 },
            "collection 1's config conflicts with the persisted catalog",
        ),
        (
            Error::CollectionExists { name: "docs".into() },
            "collection name already exists: docs",
        ),
        (
            Error::InvalidCollectionName,
            "collection name must be non-empty",
        ),
        (Error::InvalidCapacity, "capacity must be > 0"),
        (
            Error::ReservedColumn("id".into()),
            "reserved column name: id",
        ),
        (Error::UnknownColumn { column: 2 }, "unknown column: 2"),
        (
            Error::TypeMismatch {
                column: 0,
                expected: ColumnType::Int,
                got: ColumnType::Float,
            },
            "type mismatch on column 0: expected Int, got Float",
        ),
        (
            Error::NaNRejected { column: 1 },
            "NaN rejected for float column 1",
        ),
        (
            Error::IncompleteRow,
            "row does not match schema (every column exactly once, no NULLs)",
        ),
        (
            Error::DuplicateColumn("a".into()),
            "duplicate column in schema: a",
        ),
        (
            Error::VectorColumnCount { found: 2 },
            "schema must have exactly one vector column, found 2",
        ),
        (
            Error::CorruptSnapshot("crc mismatch".into()),
            "corrupt snapshot: crc mismatch",
        ),
        (
            Error::SchemaMismatch,
            "snapshot schema does not match the schema supplied by the caller",
        ),
    ];
    for (e, text) in texts {
        assert_eq!(e.to_text(), text);
    }
}
