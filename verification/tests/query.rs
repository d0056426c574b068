//! The query pipeline: preparing plans, labels and streams.

use flats::compiler::bytecode::{Op, ValidateError};
use flats::compiler::compiler::CompileError;
use flats::error::Error as EngineError;
use flats::metadata::common::{
    CollectionConfig, ColumnSpec, ColumnType as MetaType, Dim, Schema,
};
use flats::query::{
    labels_of, mutates, prepare, reject_unsupported, Error, ExecError, OutputRow, RegValue,
    RowStream, Target,
};
use flats::sql::{
    BoundSchema, BoundStatement, ColumnRef, ColumnSchema, ColumnType, CreateCollection,
    LogicalPlan, Project, Scan, Statement,
};

fn int_row(n: i64) -> Result<Option<OutputRow>, ExecError> {
    Ok(Some(OutputRow(vec![RegValue::Int(n)])))
}

fn is_int_row(item: Option<Result<OutputRow, Error>>, n: i64) -> bool {
    match item {
        Some(Ok(row)) => row.0.len() == 1 && matches!(row.0[0], RegValue::Int(m) if m == n),
        _ => false,
    }
}

#[test]
fn error_mid_stream_is_an_err_item() {
    let mut stream = RowStream::over(vec!["n".into()]);

    // Rows first...
    assert!(is_int_row(stream.next(int_row(1)), 1));
    assert!(is_int_row(stream.next(int_row(2)), 2));
    // ...then the failure, as an ITEM.
    let item = stream
        .next(Err(ExecError::Machine("cursor 0 is not open".into())))
        .expect("a third item");
    assert!(matches!(item, Err(Error::Exec(_))));

    // And iteration stops cleanly rather than re-erroring or looping.
    assert!(stream.is_done());
    assert!(
        stream.next(int_row(3)).is_none(),
        "the stream is fused after an error"
    );
    assert!(stream.next(Ok(None)).is_none());
}

#[test]
fn a_drained_stream_is_fused() {
    let mut stream = RowStream::over(vec!["n".into()]);
    assert!(is_int_row(stream.next(int_row(1)), 1));
    assert!(stream.next(Ok(None)).is_none());
    assert!(stream.next(int_row(2)).is_none());
    assert!(stream.next(Err(ExecError::Machine("late".into()))).is_none());
}

#[test]
fn labels_stand_before_and_after_the_rows() {
    let mut stream = RowStream::over(vec!["title".into(), "published_at".into()]);
    assert_eq!(stream.labels(), &["title", "published_at"]);
    stream.next(int_row(1));
    stream.next(Ok(None));
    assert_eq!(stream.labels(), &["title", "published_at"]);

    let mutation = RowStream::empty();
    assert!(mutation.labels().is_empty() && mutation.is_done());
}

fn column(name: &str, ordinal: usize) -> ColumnRef {
    ColumnRef {
        name: name.into(),
        ordinal,
    }
}

#[test]
fn labels_are_the_projected_names() {
    let select = BoundStatement::Select {
        projection: vec![column("title", 2), column("author", 0)],
    };
    assert_eq!(labels_of(&select), ["title", "author"]);
    assert!(!mutates(&select));
    let search = BoundStatement::Search {
        projection: vec![column("author", 0)],
    };
    assert_eq!(labels_of(&search), ["author"]);
    assert!(!mutates(&search));
    for mutation in [BoundStatement::Insert, BoundStatement::CreateCollection] {
        assert!(labels_of(&mutation).is_empty());
        assert!(mutates(&mutation));
    }
}

#[test]
fn a_statement_names_its_target() {
    let docs = || Target::Existing("docs".into());
    assert_eq!(Target::of(&Statement::Select { from: "docs".into() }), docs());
    assert_eq!(Target::of(&Statement::Insert { collection: "docs".into() }), docs());
    assert_eq!(Target::of(&Statement::Search { collection: "docs".into() }), docs());
    assert_eq!(
        Target::of(&Statement::CreateCollection { name: "docs".into() }),
        Target::New
    );
}

/// A collection of a vector and two texts, the vector at the given place.
fn config(id: u32, name: &str, vector_at: usize) -> CollectionConfig {
    let mut columns = vec![
        ColumnSpec::Scalar {
            name: "title".into(),
            ty: MetaType::Text,
        },
        ColumnSpec::Scalar {
            name: "tag".into(),
            ty: MetaType::Text,
        },
    ];
    columns.insert(
        vector_at,
        ColumnSpec::Vector {
            name: "v".into(),
            dim: Dim::new(4).unwrap(),
        },
    );
    CollectionConfig {
        id,
        name: name.into(),
        capacity: 8,
        schema: Schema::from_columns(columns).unwrap(),
    }
}

fn selecting(collection: &str, columns: Vec<ColumnRef>, include_vector: bool) -> LogicalPlan {
    LogicalPlan::Project(Project {
        input: Box::new(LogicalPlan::Scan(Scan {
            collection: collection.into(),
            schema: BoundSchema { columns: Vec::new() },
        })),
        columns,
        include_vector,
    })
}

/// The storage columns that a program reads, in order.
fn columns_read(ops: &[Op]) -> Vec<u32> {
    ops.iter()
        .filter_map(|op| match op {
            Op::Column { col, .. } => Some(*col),
            _ => None,
        })
        .collect()
}

#[test]
fn a_statement_is_compiled_against_its_own_collection() {
    let registry = [config(0, "alpha", 0), config(1, "beta", 2)];
    let tag_of = |name: &str, ordinal: usize| {
        let plan = selecting(name, vec![column("tag", ordinal)], false);
        let program = prepare(plan, &Target::Existing(name.into()), &registry).unwrap();
        columns_read(&program.ops)
    };
    // `tag` is the second scalar of both; the vector shifts its place in one.
    assert_eq!(tag_of("alpha", 2), vec![1]);
    assert_eq!(tag_of("beta", 1), vec![1]);
}

#[test]
fn preparing_names_the_stage_that_refused() {
    let registry = [config(0, "docs", 0)];
    let unknown = prepare(
        selecting("ghosts", vec![column("tag", 2)], false),
        &Target::Existing("ghosts".into()),
        &registry,
    );
    assert!(matches!(
        unknown.map(|_| ()),
        Err(Error::Engine(EngineError::UnknownCollectionName { name })) if name == "ghosts"
    ));

    let embedding = prepare(
        selecting("docs", vec![column("v", 0)], true),
        &Target::Existing("docs".into()),
        &registry,
    );
    assert!(matches!(
        embedding.map(|_| ()),
        Err(Error::Unsupported { feature })
            if feature == "selecting a vector column (the embedding is stored separately)"
    ));

    let broken = prepare(
        LogicalPlan::CreateCollection(CreateCollection {
            name: "broken".into(),
            schema: BoundSchema {
                columns: vec![ColumnSchema {
                    name: "v".into(),
                    ty: ColumnType::Vector(0),
                    ordinal: 0,
                    is_vector: true,
                }],
            },
            capacity: 10,
        }),
        &Target::New,
        &registry,
    );
    assert!(matches!(broken.map(|_| ()), Err(Error::Compile(CompileError::Schema(_)))));

    let schemaless = prepare(
        selecting("docs", vec![column("tag", 2)], false),
        &Target::New,
        &registry,
    );
    assert!(matches!(
        schemaless.map(|_| ()),
        Err(Error::Compile(CompileError::MissingSchema))
    ));
}

#[test]
fn a_program_without_a_fetch_is_supported() {
    let registry = [config(0, "docs", 0)];
    let program = prepare(
        selecting("docs", vec![column("tag", 2)], false),
        &Target::Existing("docs".into()),
        &registry,
    )
    .unwrap();
    assert!(reject_unsupported(&program).is_ok());
    assert!(program.validate().is_ok());
}

#[test]
fn machine_errors_get_their_own_variants() {
    let engine = Error::from(ExecError::Engine(EngineError::IncompleteRow));
    assert!(matches!(engine, Error::Engine(EngineError::IncompleteRow)));
    let invalid = Error::from(ExecError::Invalid(ValidateError::NotHalted));
    assert!(matches!(invalid, Error::Validate(_)));
    let own = Error::from(ExecError::Machine("stuck".into()));
    assert_eq!(own.to_text(), "execution error: stuck");
}

#[test]
fn every_stage_has_its_prefix() {
    assert_eq!(Error::Parse("x".into()).to_text(), "parse error: x");
    assert_eq!(Error::Bind("x".into()).to_text(), "bind error: x");
    assert_eq!(
        Error::Engine(EngineError::UnknownCollectionName { name: "g".into() }).to_text(),
        "engine error: unknown collection: g"
    );
    assert_eq!(
        Error::Unsupported { feature: "x".into() }.to_text(),
        "not supported yet: x"
    );
    assert!(Error::Compile(CompileError::MissingSchema)
        .to_text()
        .starts_with("compile error: "));
    assert!(Error::Validate(ValidateError::NotHalted)
        .to_text()
        .starts_with("malformed program: "));
}
