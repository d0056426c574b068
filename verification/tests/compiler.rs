//! Compiling plans to programs.

use flats::compiler::bytecode::{Addr, Cursor, Op, Program, Reg, ValidateError, PLACEHOLDER};
use flats::compiler::compiler::{can_compile, compile, CompileError};
use flats::compiler::constants::{Const, ConstId, ConstPool};
use flats::compiler::schema::SchemaError;
use flats::metadata::common::{
    CollectionConfig, ColumnSpec, ColumnType as MetaColumnType, Dim, Schema,
};
use flats::sql::{
    BoundSchema as BindSchema, ColumnRef, ColumnSchema, ColumnType, CreateCollection, Insert,
    Literal, LogicalPlan, Project, Scan, TypedValue,
};

// ------------------------------------------------------------------------
// Fixtures.
//
// Plans are built DIRECTLY from plan nodes (not via parse → analyze →
// plan) so the compiler is tested in isolation from the frontend, and so
// the vector-FIRST fixture is under our exact control.
//
// Two schemas describe the same `docs` collection in the two vocabularies:
//   * `docs_bind_schema()`  — the vector-inclusive `bind::Schema` the plan
//     carries (used only for shape: ordinals, include_vector);
//   * `docs_meta_schema()`  — the storage `metadata::Schema` handed to
//     compile(), whose `locate()` performs the ordinal → ColumnId mapping.
//
// The vector is declared FIRST, so the two numberings DIFFER: author is
// declaration ordinal 1 but storage ColumnId 0, title ordinal 2 / id 1,
// published_at ordinal 3 / id 2. That gap is the whole point of the KEY
// test below.
// ------------------------------------------------------------------------

fn bcol(name: &str, ty: ColumnType, ordinal: usize, is_vector: bool) -> ColumnSchema {
    ColumnSchema {
        name: name.to_string(),
        ty,
        ordinal,
        is_vector,
    }
}

/// The plan-side `docs` schema: vector@0 (is_vector), author@1, title@2,
/// published_at@3.
fn docs_bind_schema() -> BindSchema {
    BindSchema {
        columns: vec![
            bcol("vector", ColumnType::Vector(768), 0, true),
            bcol("author", ColumnType::Text, 1, false),
            bcol("title", ColumnType::Text, 2, false),
            bcol("published_at", ColumnType::Int, 3, false),
        ],
    }
}

/// The storage `docs` schema. `from_columns` assigns the scalar ColumnIds:
/// vector gets none, author→0, title→1, published_at→2.
fn docs_meta_schema() -> Schema {
    Schema::from_columns(vec![
        ColumnSpec::Vector {
            name: "vector".to_string(),
            dim: Dim::new(768).unwrap(),
        },
        ColumnSpec::Scalar {
            name: "author".to_string(),
            ty: MetaColumnType::Text,
        },
        ColumnSpec::Scalar {
            name: "title".to_string(),
            ty: MetaColumnType::Text,
        },
        ColumnSpec::Scalar {
            name: "published_at".to_string(),
            ty: MetaColumnType::Int,
        },
    ])
    .expect("valid storage schema")
}

fn colref(name: &str, ordinal: usize) -> ColumnRef {
    ColumnRef {
        name: name.to_string(),
        ordinal,
    }
}

fn docs_scan() -> LogicalPlan {
    LogicalPlan::Scan(Scan {
        collection: "docs".to_string(),
        schema: docs_bind_schema(),
    })
}

/// A `Project` over the `docs` scan.
fn docs_project(columns: Vec<ColumnRef>, include_vector: bool) -> LogicalPlan {
    LogicalPlan::Project(Project {
        input: Box::new(docs_scan()),
        columns,
        include_vector,
    })
}

/// The bootstrap insert row, in schema order (vector, author, title,
/// published_at) — as the binder already produced it.
fn bootstrap_row() -> Vec<TypedValue> {
    vec![
        TypedValue {
            value: Literal::Vector(vec![0.1f32.to_bits(); 768]),
            ty: ColumnType::Vector(768),
        },
        TypedValue {
            value: Literal::Str("alice".to_string()),
            ty: ColumnType::Text,
        },
        TypedValue {
            value: Literal::Str("My doc".to_string()),
            ty: ColumnType::Text,
        },
        TypedValue {
            value: Literal::Int(1_700_000_000),
            ty: ColumnType::Int,
        },
    ]
}

fn program(ops: Vec<Op>, consts: ConstPool, n_regs: u32, n_cursors: u8) -> Program {
    Program {
        ops,
        consts,
        n_regs,
        n_cursors,
    }
}

// ========================================================================
// SELECT — the wrapping / recursion case.
// ========================================================================

/// THE KEY TEST. Vector-first fixture: author/title are declaration
/// ordinals 1/2 but storage ColumnIds 0/1. The emitted `Column` ops MUST
/// carry the STORAGE ColumnIds — proof the compiler translates through
/// `schema.locate()` and never re-derives a ColumnId from the plan ordinal.
#[test]
fn select_two_scalars_emits_storage_column_ids_and_backpatched_jumps() {
    let plan = docs_project(vec![colref("author", 1), colref("title", 2)], false);
    let expected = program(
        vec![
            Op::OpenRead {
                cur: Cursor(0),
                collection: "docs".to_string(),
                    filter: None,
            },
            // SeekFirst's target is the Halt (index 6).
            Op::SeekFirst {
                cur: Cursor(0),
                end: Addr(6),
            },
            // author: declaration ordinal 1 → storage ColumnId 0.
            Op::Column {
                cur: Cursor(0),
                col: 0,
                dst: Reg(0),
            },
            // title: declaration ordinal 2 → storage ColumnId 1.
            Op::Column {
                cur: Cursor(0),
                col: 1,
                dst: Reg(1),
            },
            Op::ResultRow {
                start: Reg(0),
                count: 2,
            },
            // Next's target is the first body instruction (index 2).
            Op::Next {
                cur: Cursor(0),
                body: Addr(2),
            },
            Op::Halt,
        ],
        ConstPool::new(),
        2,
        1,
    );
    assert_eq!(
        compile(plan, Some(&docs_meta_schema())).expect("compiles"),
        expected
    );
}

#[test]
fn select_star_scalars_emits_no_vector_fetch() {
    // include_vector = false → NO VectorFetch, embedding excluded.
    let plan = docs_project(
        vec![
            colref("author", 1),
            colref("title", 2),
            colref("published_at", 3),
        ],
        false,
    );
    let expected = program(
        vec![
            Op::OpenRead {
                cur: Cursor(0),
                collection: "docs".to_string(),
                    filter: None,
            },
            Op::SeekFirst {
                cur: Cursor(0),
                end: Addr(7),
            },
            Op::Column {
                cur: Cursor(0),
                col: 0,
                dst: Reg(0),
            },
            Op::Column {
                cur: Cursor(0),
                col: 1,
                dst: Reg(1),
            },
            Op::Column {
                cur: Cursor(0),
                col: 2,
                dst: Reg(2),
            },
            Op::ResultRow {
                start: Reg(0),
                count: 3,
            },
            Op::Next {
                cur: Cursor(0),
                body: Addr(2),
            },
            Op::Halt,
        ],
        ConstPool::new(),
        3,
        1,
    );
    assert_eq!(
        compile(plan, Some(&docs_meta_schema())).expect("compiles"),
        expected
    );
}

#[test]
fn select_vector_only_emits_vector_fetch_not_column() {
    // include_vector = true, vector alone → VectorFetch, no ColumnId used.
    let plan = docs_project(vec![colref("vector", 0)], true);
    let expected = program(
        vec![
            Op::OpenRead {
                cur: Cursor(0),
                collection: "docs".to_string(),
                    filter: None,
            },
            Op::SeekFirst {
                cur: Cursor(0),
                end: Addr(5),
            },
            Op::VectorFetch {
                cur: Cursor(0),
                dst: Reg(0),
            },
            Op::ResultRow {
                start: Reg(0),
                count: 1,
            },
            Op::Next {
                cur: Cursor(0),
                body: Addr(2),
            },
            Op::Halt,
        ],
        ConstPool::new(),
        1,
        1,
    );
    assert_eq!(
        compile(plan, Some(&docs_meta_schema())).expect("compiles"),
        expected
    );
}

#[test]
fn select_scalar_and_vector_mixes_column_and_vector_fetch() {
    // Projection order (author, vector) is preserved: Column for the
    // scalar, VectorFetch for the embedding — the vector never via Column.
    let plan = docs_project(vec![colref("author", 1), colref("vector", 0)], true);
    let expected = program(
        vec![
            Op::OpenRead {
                cur: Cursor(0),
                collection: "docs".to_string(),
                    filter: None,
            },
            Op::SeekFirst {
                cur: Cursor(0),
                end: Addr(6),
            },
            Op::Column {
                cur: Cursor(0),
                col: 0,
                dst: Reg(0),
            },
            Op::VectorFetch {
                cur: Cursor(0),
                dst: Reg(1),
            },
            Op::ResultRow {
                start: Reg(0),
                count: 2,
            },
            Op::Next {
                cur: Cursor(0),
                body: Addr(2),
            },
            Op::Halt,
        ],
        ConstPool::new(),
        2,
        1,
    );
    assert_eq!(
        compile(plan, Some(&docs_meta_schema())).expect("compiles"),
        expected
    );
}

#[test]
fn select_single_column_edge_shape() {
    let plan = docs_project(vec![colref("author", 1)], false);
    let expected = program(
        vec![
            Op::OpenRead {
                cur: Cursor(0),
                collection: "docs".to_string(),
                    filter: None,
            },
            Op::SeekFirst {
                cur: Cursor(0),
                end: Addr(5),
            },
            Op::Column {
                cur: Cursor(0),
                col: 0,
                dst: Reg(0),
            },
            Op::ResultRow {
                start: Reg(0),
                count: 1,
            },
            Op::Next {
                cur: Cursor(0),
                body: Addr(2),
            },
            Op::Halt,
        ],
        ConstPool::new(),
        1,
        1,
    );
    assert_eq!(
        compile(plan, Some(&docs_meta_schema())).expect("compiles"),
        expected
    );
}

// ========================================================================
// INSERT — the no-loop case.
// ========================================================================

#[test]
fn insert_emits_value_loads_makerecord_and_no_scan() {
    // Large values (vector, strings) go to the ConstPool; ints load inline.
    // NO SeekFirst, NO Next — INSERT walks no rows.
    let plan = LogicalPlan::Insert(Insert {
        collection: "docs".to_string(),
        schema: docs_bind_schema(),
        row: bootstrap_row(),
    });

    let mut consts = ConstPool::new();
    let vec_id = consts.add(Const::Vector(vec![0.1f32.to_bits(); 768]));
    let author_id = consts.add(Const::Str("alice".to_string()));
    let title_id = consts.add(Const::Str("My doc".to_string()));

    let expected = program(
        vec![
            Op::OpenWrite {
                cur: Cursor(0),
                collection: "docs".to_string(),
            },
            Op::VectorConst {
                id: vec_id,
                dst: Reg(0),
            },
            Op::String {
                id: author_id,
                dst: Reg(1),
            },
            Op::String {
                id: title_id,
                dst: Reg(2),
            },
            Op::Integer {
                value: 1_700_000_000,
                dst: Reg(3),
            },
            Op::MakeRecord {
                start: Reg(0),
                count: 4,
                dst: Reg(4),
            },
            Op::Insert {
                cur: Cursor(0),
                rec: Reg(4),
            },
            Op::Halt,
        ],
        consts,
        5,
        1,
    );
    assert_eq!(
        compile(plan, Some(&docs_meta_schema())).expect("compiles"),
        expected
    );
}

// ========================================================================
// CREATE — the one-fat-op case.
// ========================================================================

#[test]
fn create_emits_single_fat_op_with_schema_in_pool() {
    // Schema interned in the pool; no cursor, no loop — just the fat op + Halt.
    let plan = LogicalPlan::CreateCollection(CreateCollection {
        name: "docs".to_string(),
        schema: docs_bind_schema(),
        capacity: 1_000_000,
    });

    let mut consts = ConstPool::new();
    let schema_id = consts.add(Const::Schema(docs_meta_schema()));

    let expected = program(
        vec![
            Op::CreateCollection {
                name: "docs".to_string(),
                schema: schema_id,
                capacity: 1_000_000,
            },
            Op::Halt,
        ],
        consts,
        0,
        0,
    );
    assert_eq!(
        compile(plan, Some(&docs_meta_schema())).expect("compiles"),
        expected
    );
}

/// The interned schema is LOWERED FROM THE DDL, not echoed from the caller.
///
/// Every other CREATE test passes a `schema` argument that happens to equal
/// the one the DDL lowers to, so none of them can tell the two apart. This
/// one passes a deliberately WRONG schema — different columns, different
/// dimension — and asserts the program still carries the DDL's.
#[test]
fn create_ignores_the_caller_schema_and_lowers_the_ddl() {
    let plan = LogicalPlan::CreateCollection(CreateCollection {
        name: "docs".to_string(),
        schema: docs_bind_schema(),
        capacity: 1_000_000,
    });

    // Nothing like `docs`: one scalar, a 2-dim vector, different names.
    let unrelated = Schema::from_columns(vec![
        ColumnSpec::Vector {
            name: "other".to_string(),
            dim: Dim::new(2).unwrap(),
        },
        ColumnSpec::Scalar {
            name: "junk".to_string(),
            ty: MetaColumnType::Int,
        },
    ])
    .expect("valid schema");

    let program = compile(plan, Some(&unrelated)).expect("compiles");
    assert_eq!(
        program.consts.get(ConstId(0)),
        Some(&Const::Schema(docs_meta_schema())),
        "CREATE must intern the schema lowered from its own DDL"
    );
}

/// A `CREATE` needs NO catalog schema, and the signature says so.
///
/// The collection does not exist yet, so there is nothing to look up — the
/// storage schema can only come from the DDL. Passing `None` is the honest
/// spelling of that; the previous shape forced a caller to fabricate a
/// schema for a parameter this arm never reads.
#[test]
fn create_compiles_without_a_catalog_schema() {
    let plan = LogicalPlan::CreateCollection(CreateCollection {
        name: "docs".to_string(),
        schema: docs_bind_schema(),
        capacity: 1_000_000,
    });

    let program = compile(plan, None).expect("a CREATE needs no catalog schema");
    assert_eq!(
        program.consts.get(ConstId(0)),
        Some(&Const::Schema(docs_meta_schema())),
        "the interned schema is still the one lowered from the DDL"
    );
}

/// A statement against an EXISTING collection cannot compile without that
/// collection's schema — it is the source of every ordinal → `ColumnId`
/// translation. A missing one is a caller bug, and it must be an error
/// rather than a fabricated stand-in that silently emits wrong columns.
#[test]
fn a_statement_against_an_existing_collection_requires_its_schema() {
    let plan = LogicalPlan::Project(Project {
        input: Box::new(LogicalPlan::Scan(Scan {
            collection: "docs".to_string(),
            schema: docs_bind_schema(),
        })),
        columns: vec![colref("author", 1)],
        include_vector: false,
    });

    assert!(matches!(
        compile(plan, None).unwrap_err(),
        CompileError::MissingSchema
    ));
}

/// A schema the binder accepts but storage cannot represent fails the
/// compile rather than producing a corrupt `Const::Schema`. `VECTOR(0)`
/// passes the binder (rule C counts vector columns, it does not check the
/// dimension) and dies here.
#[test]
fn create_with_unlowerable_schema_is_a_compile_error() {
    let plan = LogicalPlan::CreateCollection(CreateCollection {
        name: "bad".to_string(),
        schema: BindSchema {
            columns: vec![bcol("v", ColumnType::Vector(0), 0, true)],
        },
        capacity: 10,
    });

    let err = compile(plan, Some(&docs_meta_schema())).unwrap_err();
    assert!(matches!(
        err,
        CompileError::Schema(SchemaError::ZeroDimension { .. })
    ));
}

/// SINGLE-SOURCE INVARIANT (schema drift guard). The `metadata::Schema` the
/// compiler interns as `Const::Schema` MUST be the same object the engine's
/// create path persists — not a second, independently-built schema that can
/// drift in ordinals / vector position / capacity.
///
/// This holds by construction: `create_collection` takes a `Schema` by value
/// and moves it verbatim into the `CollectionConfig` its WAL record carries
/// (it never re-derives one), and at execution the VM has only the program +
/// const pool — no DDL — so the interned `Const::Schema` is its ONLY possible
/// schema source. This test locks the type-level contract: one builder feeds
/// both the pool and the persisted config, and interning is not lossy (the
/// full vector-inclusive schema round-trips). A full end-to-end
/// intern-equals-persist test lands with the VM.
///
/// (The companion `create_emits_*` test pins the other half — that the
/// compiler interns exactly the schema handed to `compile`.)
#[test]
fn create_interned_schema_is_the_schema_the_create_path_persists() {
    // ONE builder from the DDL — the single source.
    let schema = docs_meta_schema();

    // The compiler interns exactly this schema (see the expected CREATE
    // program above).
    let mut consts = ConstPool::new();
    let id = consts.add(Const::Schema(schema.clone()));

    // The engine's create path persists exactly this schema, verbatim, into
    // the CollectionConfig its WAL record carries (create_collection moves
    // the argument in — it does not build a new one).
    let persisted = CollectionConfig {
        id: 0,
        name: "docs".to_string(),
        capacity: 1_000_000,
        schema: schema.clone(),
    };

    match consts.get(id) {
        Some(Const::Schema(interned)) => assert_eq!(interned, &persisted.schema),
        other => panic!("expected an interned Const::Schema, got {other:?}"),
    }
}

// ========================================================================
// Structural — every emitted program is well-formed.
// ========================================================================

#[test]
fn compiled_program_passes_validate() {
    let plan = docs_project(vec![colref("author", 1), colref("title", 2)], false);
    assert!(
        compile(plan, Some(&docs_meta_schema()))
            .expect("compiles")
            .validate()
            .is_ok()
    );
}

#[test]
fn nested_projections_each_emit_their_rows() {
    let plan = LogicalPlan::Project(Project {
        input: Box::new(docs_project(vec![colref("title", 2)], false)),
        columns: vec![colref("author", 1)],
        include_vector: false,
    });
    let p = compile(plan, Some(&docs_meta_schema())).expect("compiles");
    // The projection nearest to the scan comes first, with registers of its own.
    assert_eq!(p.ops[2], Op::Column { cur: Cursor(0), col: 1, dst: Reg(0) });
    assert_eq!(p.ops[3], Op::ResultRow { start: Reg(0), count: 1 });
    assert_eq!(p.ops[4], Op::Column { cur: Cursor(0), col: 0, dst: Reg(1) });
    assert_eq!(p.ops[5], Op::ResultRow { start: Reg(1), count: 1 });
    assert_eq!(p.n_regs, 2);
    assert!(p.validate().is_ok());
}

#[test]
fn a_vector_that_was_not_asked_for_is_left_out() {
    let plan = docs_project(vec![colref("vector", 0), colref("author", 1)], false);
    let p = compile(plan, Some(&docs_meta_schema())).expect("compiles");
    assert_eq!(p.ops.len(), 6);
    assert_eq!(p.ops[2], Op::Column { cur: Cursor(0), col: 0, dst: Reg(0) });
}

#[test]
fn a_float_is_loaded_inline() {
    let plan = LogicalPlan::Insert(Insert {
        collection: "docs".to_string(),
        schema: docs_bind_schema(),
        row: vec![TypedValue { value: Literal::Float(0.5f64.to_bits()), ty: ColumnType::Float }],
    });
    let p = compile(plan, Some(&docs_meta_schema())).expect("compiles");
    assert_eq!(p.ops[1], Op::Real { value: 0.5f64.to_bits(), dst: Reg(0) });
    assert!(p.consts.is_empty());
}

#[test]
fn compile_errors_have_their_texts() {
    let plan = docs_project(vec![colref("author", 1)], false);
    assert_eq!(
        compile(plan, None).unwrap_err().to_text(),
        "no catalog schema for the target collection"
    );
    let plan = LogicalPlan::CreateCollection(CreateCollection {
        name: "bad".to_string(),
        schema: BindSchema { columns: vec![bcol("v", ColumnType::Vector(0), 0, true)] },
        capacity: 10,
    });
    assert!(compile(plan, None)
        .unwrap_err()
        .to_text()
        .starts_with("cannot compile CREATE COLLECTION: "));
}

// ========================================================================
// Validation.
// ========================================================================

fn checked(ops: Vec<Op>, n_regs: u32, n_cursors: u8) -> Result<(), ValidateError> {
    program(ops, ConstPool::new(), n_regs, n_cursors).validate()
}

#[test]
fn a_program_must_end_in_halt() {
    assert_eq!(checked(vec![], 0, 0), Err(ValidateError::Empty));
    assert_eq!(
        checked(vec![Op::Integer { value: 1, dst: Reg(0) }], 1, 0),
        Err(ValidateError::NotHalted)
    );
    assert_eq!(checked(vec![Op::Halt], 0, 0), Ok(()));
}

#[test]
fn operands_must_be_in_range() {
    assert_eq!(
        checked(vec![Op::Integer { value: 1, dst: Reg(3) }, Op::Halt], 3, 0),
        Err(ValidateError::RegOutOfRange { at: 0, reg: 3 })
    );
    assert_eq!(
        checked(vec![Op::ResultRow { start: Reg(1), count: 3 }, Op::Halt], 3, 0),
        Err(ValidateError::RegOutOfRange { at: 0, reg: 3 })
    );
    assert_eq!(
        checked(vec![Op::Halt, Op::RowId { cur: Cursor(1), dst: Reg(0) }, Op::Halt], 1, 1),
        Err(ValidateError::CursorOutOfRange { at: 1, cursor: 1 })
    );
    assert_eq!(
        checked(vec![Op::ResultRow { start: Reg(0), count: 5 }, Op::Halt], 2, 0),
        Err(ValidateError::RegOutOfRange { at: 0, reg: 2 }),
        "the first register past the program's"
    );
    assert_eq!(
        checked(vec![Op::ResultRow { start: Reg(4), count: 5 }, Op::Halt], 2, 0),
        Err(ValidateError::RegOutOfRange { at: 0, reg: 4 }),
        "the whole run is past the program's registers"
    );
    assert_eq!(
        checked(vec![Op::String { id: ConstId(0), dst: Reg(0) }, Op::Halt], 1, 0),
        Err(ValidateError::BadConstRef { at: 0, id: 0 })
    );
    assert_eq!(
        checked(
            vec![
                Op::BitmapAnd { a: Reg(0), b: Reg(1), dst: Reg(2) },
                Op::Halt
            ],
            2,
            0
        ),
        Err(ValidateError::RegOutOfRange { at: 0, reg: 2 })
    );
}

#[test]
fn jumps_must_be_patched_and_in_range() {
    assert_eq!(
        checked(
            vec![
                Op::SeekFirst { cur: Cursor(0), end: Addr(PLACEHOLDER) },
                Op::Halt
            ],
            0,
            1
        ),
        Err(ValidateError::UnpatchedJump { at: 0 })
    );
    assert_eq!(
        checked(vec![Op::Next { cur: Cursor(0), body: Addr(2) }, Op::Halt], 0, 1),
        Err(ValidateError::JumpOutOfRange { at: 0, target: 2 })
    );
}

#[test]
fn jumps_are_checked_before_operands_and_these_before_constants() {
    assert_eq!(
        checked(
            vec![
                Op::Integer { value: 1, dst: Reg(5) },
                Op::SeekFirst { cur: Cursor(0), end: Addr(PLACEHOLDER) },
                Op::Halt
            ],
            1,
            1
        ),
        Err(ValidateError::UnpatchedJump { at: 1 })
    );
    assert_eq!(
        checked(vec![Op::Next { cur: Cursor(7), body: Addr(9) }, Op::Halt], 0, 1),
        Err(ValidateError::JumpOutOfRange { at: 0, target: 9 })
    );
    assert_eq!(
        checked(vec![Op::String { id: ConstId(0), dst: Reg(9) }, Op::Halt], 1, 0),
        Err(ValidateError::RegOutOfRange { at: 0, reg: 9 })
    );
    assert_eq!(
        checked(
            vec![
                Op::String { id: ConstId(0), dst: Reg(0) },
                Op::RowId { cur: Cursor(2), dst: Reg(0) },
                Op::Halt
            ],
            1,
            1
        ),
        Err(ValidateError::CursorOutOfRange { at: 1, cursor: 2 })
    );
}

#[test]
fn validation_errors_have_their_texts() {
    let texts = [
        (ValidateError::Empty, "empty program"),
        (ValidateError::NotHalted, "program does not end in Halt"),
        (ValidateError::UnpatchedJump { at: 3 }, "unpatched jump at op 3"),
        (
            ValidateError::JumpOutOfRange { at: 1, target: 9 },
            "jump at op 1 targets out-of-range address 9",
        ),
        (
            ValidateError::RegOutOfRange { at: 2, reg: 5 },
            "op 2 references out-of-range register r5",
        ),
        (
            ValidateError::CursorOutOfRange { at: 2, cursor: 5 },
            "op 2 references out-of-range cursor 5",
        ),
        (
            ValidateError::BadConstRef { at: 2, id: 5 },
            "op 2 references out-of-range constant #5",
        ),
    ];
    for (e, text) in texts {
        assert_eq!(e.to_text(), text);
    }
}

#[test]
fn constants_are_found_by_their_handles() {
    let mut pool = ConstPool::new();
    assert!(pool.is_empty());
    let a = pool.add(Const::Str("x".to_string()));
    let b = pool.add(Const::Str("x".to_string()));
    assert_eq!((a, b, pool.len()), (ConstId(0), ConstId(1), 2));
    assert_eq!(pool.get(b), Some(&Const::Str("x".to_string())));
    assert_eq!(pool.get(ConstId(2)), None);
}

#[test]
fn a_plan_with_an_unknown_column_cannot_be_compiled() {
    let schema = docs_meta_schema();
    let known = || docs_project(vec![colref("author", 1)], false);
    let unknown = docs_project(vec![colref("author", 1), colref("ghost", 9)], false);
    assert!(can_compile(&known(), Some(&schema)));
    assert!(!can_compile(&unknown, Some(&schema)));
    assert!(can_compile(&unknown, None), "there is no schema to miss it in");

    let outer = LogicalPlan::Project(Project {
        input: Box::new(unknown),
        columns: vec![colref("title", 2)],
        include_vector: false,
    });
    assert!(!can_compile(&outer, Some(&schema)));

    let create = || {
        LogicalPlan::CreateCollection(CreateCollection {
            name: "docs".to_string(),
            schema: docs_bind_schema(),
            capacity: 1,
        })
    };
    assert!(can_compile(&create(), None));
    assert!(!can_compile(
        &LogicalPlan::Project(Project {
            input: Box::new(create()),
            columns: Vec::new(),
            include_vector: false,
        }),
        None
    ));
}

#[test]
fn programs_are_copied_and_compared_by_their_operands() {
    let plan = docs_project(vec![colref("author", 1), colref("title", 2)], false);
    let p = compile(plan, Some(&docs_meta_schema())).expect("compiles");
    let mut q = p.clone();
    assert_eq!(p, q);
    q.ops[2] = Op::Column { cur: Cursor(0), col: 7, dst: Reg(0) };
    assert_ne!(p, q);

    let real = |f: f64| Op::Real { value: f.to_bits(), dst: Reg(0) };
    assert_eq!(real(0.0), real(-0.0));
    assert_ne!(real(f64::NAN), real(f64::NAN));
    assert_ne!(real(1.0), Op::Real { value: 1.0f64.to_bits(), dst: Reg(1) });
    assert_ne!(real(1.0), Op::Integer { value: 1, dst: Reg(0) });
    let open = |filter: Option<Reg>| Op::OpenRead {
        cur: Cursor(0),
        collection: "docs".to_string(),
        filter,
    };
    assert_eq!(open(None), open(None));
    assert_ne!(open(None), open(Some(Reg(0))));
    assert_ne!(open(Some(Reg(1))), open(Some(Reg(0))));
    assert_eq!(ConstPool::default(), ConstPool::new());
}
