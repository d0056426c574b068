//! What the texts of errors say: which numbers and names stand in them, and where.

use vstd::prelude::*;

use crate::compiler::bytecode::ValidateError;
use crate::compiler::compiler::CompileError;
use crate::compiler::schema::SchemaError;
use crate::engine::record;
use crate::engine::record::{Fault, FaultKind};
use crate::error::Error;
use crate::lexer::{LexError, LexErrorKind};
use crate::metadata::common::ColumnType;
use crate::query;
use crate::text;

verus! {

/// The text reads `a`, the number `m`, `b`, the number `n`, `c`.
pub open spec fn reads2(
    s: Seq<char>,
    a: Seq<char>,
    m: int,
    b: Seq<char>,
    n: int,
    c: Seq<char>,
) -> bool {
    s == a + text::decimal(m as nat) + b + text::decimal(n as nat) + c
}

/// The text reads `a`, the number `n`, `b`.
pub open spec fn reads1(s: Seq<char>, a: Seq<char>, n: int, b: Seq<char>) -> bool {
    s == a + text::decimal(n as nat) + b
}

/// The name of a column type in messages.
pub open spec fn type_word(ty: ColumnType) -> Seq<char> {
    if ty is Int {
        "Int"@
    } else if ty is Float {
        "Float"@
    } else {
        "Text"@
    }
}

proof fn lemma_no_end(s: Seq<char>)
    ensures
        s + ""@ == s,
{
    reveal_strlit("");
    assert(s + ""@ =~= s);
}

/// An error of the storage engine names what was expected before what was got, and every
/// number and name that belongs to it.
pub proof fn law_engine_messages(e: Error)
    ensures
        ({
            let s = e.message();
            match e {
                Error::DimensionMismatch { expected, got } => reads2(
                    s,
                    "dimension mismatch: expected "@,
                    expected as int,
                    ", got "@,
                    got as int,
                    ""@,
                ),
                Error::InvalidTopK { k } => reads1(
                    s,
                    "invalid top k: "@,
                    k as int,
                    " - k should be a natural number > 0"@,
                ),
                Error::Io(why) => s == "io error: "@ + why@,
                Error::BadMagic { got } => reads1(s, "bad magic number: "@, got as int, ""@),
                Error::UnsupportedVersion { got } => reads1(
                    s,
                    "unsupported index file version: "@,
                    got as int,
                    ""@,
                ),
                Error::CapacityExceeded { capacity } => reads1(
                    s,
                    "collection is at capacity: "@,
                    capacity as int,
                    ""@,
                ),
                Error::CapacityOverflow { dim, capacity } => reads2(
                    s,
                    "capacity overflow: dim="@,
                    dim as int,
                    ", capacity="@,
                    capacity as int,
                    " exceeds usize"@,
                ),
                Error::UnknownCollection { id } => reads1(
                    s,
                    "unknown collection: "@,
                    id as int,
                    ""@,
                ),
                Error::UnknownCollectionName { name } => s == "unknown collection: "@ + name@,
                Error::CollectionConfigMismatch { id } => reads1(
                    s,
                    "collection "@,
                    id as int,
                    "'s config conflicts with the persisted catalog"@,
                ),
                Error::CollectionExists { name } => s == "collection name already exists: "@
                    + name@,
                Error::ReservedColumn(name) => s == "reserved column name: "@ + name@,
                Error::UnknownColumn { column } => reads1(
                    s,
                    "unknown column: "@,
                    column as int,
                    ""@,
                ),
                Error::TypeMismatch { column, expected, got } => reads1(
                    s,
                    "type mismatch on column "@,
                    column as int,
                    ": expected "@ + type_word(expected) + ", got "@ + type_word(got),
                ),
                Error::NaNRejected { column } => reads1(
                    s,
                    "NaN rejected for float column "@,
                    column as int,
                    ""@,
                ),
                Error::DuplicateColumn(name) => s == "duplicate column in schema: "@ + name@,
                Error::VectorColumnCount { found } => reads1(
                    s,
                    "schema must have exactly one vector column, found "@,
                    found as int,
                    ""@,
                ),
                Error::CorruptSnapshot(why) => s == "corrupt snapshot: "@ + why@,
                Error::InvalidDimension => s == "dimension cannot be 0"@,
                Error::CorruptHeader => s == "index file's header is corrupt"@,
                Error::InvalidCollectionName => s == "collection name must be non-empty"@,
                Error::InvalidCapacity => s == "capacity must be > 0"@,
                Error::IncompleteRow => s
                    == "row does not match schema (every column exactly once, no NULLs)"@,
                Error::SchemaMismatch => s
                    == "snapshot schema does not match the schema supplied by the caller"@,
            }
        }),
{
    lemma_no_end(e.message());
    if let Error::TypeMismatch { column, expected, got } = e {
        assert(e.message() =~= "type mismatch on column "@ + text::decimal(column as nat) + (
        ": expected "@ + type_word(expected) + ", got "@ + type_word(got)));
    }
}

/// An error of a program names the instruction first, and then what that refers to.
pub proof fn law_program_messages(e: ValidateError)
    ensures
        ({
            let s = e.message();
            match e {
                ValidateError::Empty => s == "empty program"@,
                ValidateError::NotHalted => s == "program does not end in Halt"@,
                ValidateError::UnpatchedJump { at } => reads1(
                    s,
                    "unpatched jump at op "@,
                    at as int,
                    ""@,
                ),
                ValidateError::JumpOutOfRange { at, target } => reads2(
                    s,
                    "jump at op "@,
                    at as int,
                    " targets out-of-range address "@,
                    target as int,
                    ""@,
                ),
                ValidateError::RegOutOfRange { at, reg } => reads2(
                    s,
                    "op "@,
                    at as int,
                    " references out-of-range register r"@,
                    reg as int,
                    ""@,
                ),
                ValidateError::CursorOutOfRange { at, cursor } => reads2(
                    s,
                    "op "@,
                    at as int,
                    " references out-of-range cursor "@,
                    cursor as int,
                    ""@,
                ),
                ValidateError::BadConstRef { at, id } => reads2(
                    s,
                    "op "@,
                    at as int,
                    " references out-of-range constant #"@,
                    id as int,
                    ""@,
                ),
            }
        }),
{
    lemma_no_end(e.message());
}

/// An error of a declaration names the column, and its place before the one that it claims;
/// one of the engine is passed on as it is.
pub proof fn law_declaration_messages(e: SchemaError, c: CompileError)
    ensures
        match e {
            SchemaError::ZeroDimension { column } => e.message() == "column "@ + text::debug_text(
                column@,
            ) + " declares VECTOR(0); dimension must be >= 1"@,
            SchemaError::OrdinalMismatch { column, position, ordinal } => reads2(
                e.message(),
                "bound column "@ + text::debug_text(column@) + " at position "@,
                position as int,
                " claims ordinal "@,
                ordinal as int,
                ""@,
            ),
            SchemaError::Storage(inner) => e.message() == "invalid schema: "@ + inner.message(),
        },
        match c {
            CompileError::Schema(inner) => c.message() == "cannot compile CREATE COLLECTION: "@
                + inner.message(),
            CompileError::MissingSchema => c.message()
                == "no catalog schema for the target collection"@,
        },
{
    lemma_no_end(e.message());
}

/// An error of the lexer shows what it stumbled on, and at which byte.
pub proof fn law_lexer_messages(e: LexError)
    ensures
        match e.kind {
            LexErrorKind::UnexpectedChar(c) => reads1(
                e.message(),
                "unexpected character "@ + text::debug_char(c) + " at byte "@,
                e.pos as int,
                ""@,
            ),
            LexErrorKind::UnterminatedString => reads1(
                e.message(),
                "unterminated string literal"@ + " at byte "@,
                e.pos as int,
                ""@,
            ),
            LexErrorKind::InvalidNumber(s) => reads1(
                e.message(),
                "invalid number literal "@ + text::debug_text(s@) + " at byte "@,
                e.pos as int,
                ""@,
            ),
        },
{
    lemma_no_end(e.message());
}

/// An error of a query says at which stage it came up, and then what that stage said.
pub proof fn law_query_messages(e: query::Error)
    ensures
        e.message() == match e {
            query::Error::Parse(why) => "parse error: "@ + why@,
            query::Error::Bind(why) => "bind error: "@ + why@,
            query::Error::Compile(inner) => "compile error: "@ + inner.message(),
            query::Error::Validate(inner) => "malformed program: "@ + inner.message(),
            query::Error::Engine(inner) => "engine error: "@ + inner.message(),
            query::Error::Exec(why) => "execution error: "@ + why@,
            query::Error::Unsupported { feature } => "not supported yet: "@ + feature@,
        },
        query::vector_feature()
            == "selecting a vector column (the embedding is stored separately)"@,
{
}

/// To the log only a failure of the operating system is one, with its text as it is; a
/// collection that is not there is not found; and anything else is invalid data.
pub proof fn law_faults_of_records(fault: Fault, e: Error, ordinal: u64, id: u32)
    ensures
        record::stands_for(fault, e) ==> {
            &&& fault.kind is System <==> e is Io
            &&& fault.kind is InvalidData <==> !(e is Io)
            &&& e matches Error::Io(why) ==> fault.message@ == why@
            &&& !(e is Io) ==> fault.message@ == e.message()
        },
        record::is_overflow(fault, ordinal) ==> fault.kind is InvalidData && reads1(
            fault.message@,
            "ordinal "@,
            ordinal as int,
            " overflows the u32 metadata ordinal space"@,
        ),
        record::is_unknown(fault, id) ==> fault.kind is NotFound && reads1(
            fault.message@,
            "record references unknown collection "@,
            id as int,
            ""@,
        ),
{
    lemma_no_end(fault.message@);
}

} // verus!
