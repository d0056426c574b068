//! Lowering a bound schema and raising it again.

use flats::compiler::schema::{bind_schema, to_metadata_schema, SchemaError};
use flats::error::Error;
use flats::metadata::common::{ColumnLocation, ColumnType as MetaType, DeclarationOrdinal};
use flats::sql::{BoundSchema as BindSchema, ColumnSchema, ColumnType as AstType};

/// Build a bound schema from `(name, type)` pairs in DECLARATION ORDER,
/// assigning ordinals positionally — exactly what `bind_create` does.
fn bound(columns: &[(&str, AstType)]) -> BindSchema {
    BindSchema {
        columns: columns
            .iter()
            .enumerate()
            .map(|(ordinal, (name, ty))| ColumnSchema {
                name: (*name).to_string(),
                ty: *ty,
                ordinal,
                is_vector: matches!(ty, AstType::Vector(_)),
            })
            .collect(),
    }
}

fn ord(n: usize) -> DeclarationOrdinal {
    DeclarationOrdinal::new(n)
}

#[test]
fn roundtrip_bind_meta_bind() {
    // The vector sits in the MIDDLE, where the two numbering systems are
    // maximally out of step — a round-trip that only works with the vector
    // first would prove nothing.
    let original = bound(&[
        ("author", AstType::Text),
        ("vector", AstType::Vector(768)),
        ("published_at", AstType::Int),
        ("score", AstType::Float),
    ]);

    let storage = to_metadata_schema(&original).expect("lowers");
    let back = bind_schema(&storage);

    assert_eq!(
        back, original,
        "bind -> metadata -> bind must be the identity: same columns, same types, same order"
    );
}

#[test]
fn column_order_fixes_ordinals_and_ids() {
    // Vector FIRST: the scalars' ColumnIds run one behind their ordinals.
    let a = to_metadata_schema(&bound(&[
        ("vector", AstType::Vector(4)),
        ("x", AstType::Int),
        ("y", AstType::Int),
    ]))
    .expect("lowers");

    assert_eq!(a.vector.ordinal, ord(0).get());
    assert_eq!(
        a.locate(ord(0)),
        Some(ColumnLocation::Vector { dim: a.vector.dim })
    );
    assert_eq!(a.locate(ord(1)), Some(ColumnLocation::Scalar(0)), "x");
    assert_eq!(a.locate(ord(2)), Some(ColumnLocation::Scalar(1)), "y");
    assert_eq!(a.by_name(&"x".to_string()), Some(0));
    assert_eq!(a.by_name(&"y".to_string()), Some(1));

    // SAME columns, SAME names, different declaration order. Every id moves
    // with the order — proving position is the source of truth, not the
    // name and not the type.
    let b = to_metadata_schema(&bound(&[
        ("y", AstType::Int),
        ("x", AstType::Int),
        ("vector", AstType::Vector(4)),
    ]))
    .expect("lowers");

    assert_eq!(b.vector.ordinal, ord(2).get(), "the vector moved to the end");
    assert_eq!(
        b.locate(ord(0)),
        Some(ColumnLocation::Scalar(0)),
        "y is now first"
    );
    assert_eq!(
        b.locate(ord(1)),
        Some(ColumnLocation::Scalar(1)),
        "x is now second"
    );
    assert_eq!(b.by_name(&"y".to_string()), Some(0), "y took x's old id");
    assert_eq!(b.by_name(&"x".to_string()), Some(1), "x took y's old id");
}

#[test]
fn type_mapping_is_exhaustive() {
    // One case per syntactic type. The REAL guard against a new type
    // slipping through is that `to_metadata_schema`'s match has no wildcard
    // arm — adding an `ast::ColumnType` variant breaks the build. These
    // cases pin that each existing arm maps to the right storage type.
    let s = to_metadata_schema(&bound(&[
        ("i", AstType::Int),
        ("f", AstType::Float),
        ("t", AstType::Text),
        ("v", AstType::Vector(16)),
    ]))
    .expect("lowers");

    let by_id = |id: u32| &s.columns[id as usize];
    assert_eq!(by_id(s.by_name(&"i".to_string()).unwrap()).ty, MetaType::Int);
    assert_eq!(by_id(s.by_name(&"f".to_string()).unwrap()).ty, MetaType::Float);
    assert_eq!(by_id(s.by_name(&"t".to_string()).unwrap()).ty, MetaType::Text);
    // The vector is NOT among the scalar columns — it has no ColumnId.
    assert_eq!(s.columns.len(), 3, "only scalars get ColumnIds");
    assert_eq!(s.vector.name, "v");
}

#[test]
fn vector_column_dimension_preserved() {
    for dim in [1usize, 4, 768, 4096] {
        let s = to_metadata_schema(&bound(&[
            ("a", AstType::Int),
            ("embedding", AstType::Vector(dim)),
        ]))
        .expect("lowers");

        assert_eq!(s.vector.name, "embedding");
        assert_eq!(s.vector.dim.get(), dim, "dimension survives lowering");
        assert_eq!(s.vector.ordinal, ord(1).get());
        // …and it is reachable through `locate`, carrying the same dim —
        // the path the compiler uses to decide `VectorFetch` vs `Column`.
        assert_eq!(
            s.locate(ord(1)),
            Some(ColumnLocation::Vector { dim: s.vector.dim })
        );
    }
}

// ---- the failure modes reachable from a validly-BOUND schema -----------

#[test]
fn zero_dimension_is_rejected() {
    // The binder's rule (C) counts vector columns but never checks the
    // dimension, so `VECTOR(0)` binds cleanly and must be caught here.
    let err = to_metadata_schema(&bound(&[("v", AstType::Vector(0))])).unwrap_err();
    assert!(matches!(err, SchemaError::ZeroDimension { column } if column == "v"));
}

#[test]
fn duplicate_names_are_rejected() {
    // Likewise: the binder has no DuplicateColumn check yet, so this is the
    // backstop that stops a schema whose `by_name` map would silently lose
    // a column from ever being built.
    let err = to_metadata_schema(&bound(&[
        ("v", AstType::Vector(4)),
        ("a", AstType::Int),
        ("a", AstType::Text),
    ]))
    .unwrap_err();
    assert!(matches!(
        err,
        SchemaError::Storage(Error::DuplicateColumn(ref name)) if name == "a"
    ));
}

#[test]
fn non_positional_ordinals_are_rejected() {
    // A hand-built schema violating `columns[i].ordinal == i`. Renumbering
    // it silently would hand the collection a different ColumnId space than
    // the plan's ordinals refer to.
    let mut broken = bound(&[("v", AstType::Vector(4)), ("a", AstType::Int)]);
    broken.columns[1].ordinal = 7;
    let err = to_metadata_schema(&broken).unwrap_err();
    assert!(matches!(
        err,
        SchemaError::OrdinalMismatch {
            position: 1,
            ordinal: 7,
            ..
        }
    ));
}

#[test]
fn schema_errors_have_their_texts() {
    let zero = to_metadata_schema(&bound(&[("a\"b", AstType::Vector(0))])).unwrap_err();
    assert_eq!(
        zero.to_text(),
        "column \"a\\\"b\" declares VECTOR(0); dimension must be >= 1"
    );
    let mut broken = bound(&[("v", AstType::Vector(4)), ("a", AstType::Int)]);
    broken.columns[1].ordinal = 7;
    assert_eq!(
        to_metadata_schema(&broken).unwrap_err().to_text(),
        "bound column \"a\" at position 1 claims ordinal 7"
    );
    let none = to_metadata_schema(&bound(&[("a", AstType::Int)])).unwrap_err();
    assert!(matches!(none, SchemaError::Storage(Error::VectorColumnCount { found: 0 })));
    assert_eq!(
        none.to_text(),
        format!("invalid schema: {}", Error::VectorColumnCount { found: 0 }.to_text())
    );
}
