//! The engine's error type.

use vstd::prelude::*;
use vstd::string::*;

use crate::metadata::common::ColumnType;
use crate::text;
use crate::text::{join2, join3, numeral};

verus! {

/// What can go wrong in the storage engine.
#[derive(Debug)]
#[allow(inconsistent_fields)]
pub enum Error {
    /// A vector of another length than the collection's dimension.
    DimensionMismatch { expected: usize, got: usize },
    /// A dimension of 0.
    InvalidDimension,
    /// A search for the best 0 rows.
    InvalidTopK { k: usize },
    /// A failure of the operating system, as text.
    Io(String),
    /// Neither header slot of an index file is readable.
    CorruptHeader,
    /// A file that is not an index file.
    BadMagic { got: u32 },
    /// An index file of another version.
    UnsupportedVersion { got: u32 },
    /// No room for another row.
    CapacityExceeded { capacity: usize },
    /// A file size that does not fit in `usize`.
    CapacityOverflow { dim: usize, capacity: usize },
    /// No collection of this id.
    UnknownCollection { id: u32 },
    /// No collection of this name.
    UnknownCollectionName { name: String },
    /// A configuration that disagrees with the catalog's under the same id.
    CollectionConfigMismatch { id: u32 },
    /// A collection of this name is there already.
    CollectionExists { name: String },
    /// An empty collection name.
    InvalidCollectionName,
    /// A capacity of 0.
    InvalidCapacity,
    /// A column name that the engine keeps for itself.
    ReservedColumn(String),
    /// No column of this id.
    UnknownColumn { column: u32 },
    /// A value of another type than its column.
    TypeMismatch { column: u32, expected: ColumnType, got: ColumnType },
    /// A NaN for a float column.
    NaNRejected { column: u32 },
    /// A row that does not hold every column exactly once.
    IncompleteRow,
    /// Two columns of one name.
    DuplicateColumn(String),
    /// A schema without exactly one vector column.
    VectorColumnCount { found: usize },
    /// A snapshot that fails its checks, with the reason.
    CorruptSnapshot(String),
    /// A snapshot of another schema than the caller's.
    SchemaMismatch,
}

/// The engine's result type.
pub type Result<T> = std::result::Result<T, Error>;

/// A corrupt-snapshot error with the given reason.
pub open spec fn is_corrupt(e: Error, why: Seq<char>) -> bool {
    e matches Error::CorruptSnapshot(s) && s@ == why
}

/// A corrupt-snapshot error for a fixed reason.
pub fn corrupt(why: &str) -> (e: Error)
    ensures
        is_corrupt(e, why@),
{
    Error::CorruptSnapshot(why.to_owned())
}

/// The name of a column type in messages.
pub open spec fn type_label(ty: ColumnType) -> Seq<char> {
    match ty {
        ColumnType::Int => "Int"@,
        ColumnType::Float => "Float"@,
        ColumnType::Text => "Text"@,
    }
}

fn type_text(ty: ColumnType) -> (s: &'static str)
    ensures
        s@ == type_label(ty),
{
    match ty {
        ColumnType::Int => "Int",
        ColumnType::Float => "Float",
        ColumnType::Text => "Text",
    }
}

impl Error {
    /// The text shown to the user.
    pub open spec fn message(self) -> Seq<char> {
        match self {
            Error::DimensionMismatch { expected, got } => "dimension mismatch: expected "@
                + text::decimal(expected as nat) + ", got "@ + text::decimal(got as nat),
            Error::InvalidDimension => "dimension cannot be 0"@,
            Error::InvalidTopK { k } => "invalid top k: "@ + text::decimal(k as nat)
                + " - k should be a natural number > 0"@,
            Error::Io(s) => "io error: "@ + s@,
            Error::CorruptHeader => "index file's header is corrupt"@,
            Error::BadMagic { got } => "bad magic number: "@ + text::decimal(got as nat),
            Error::UnsupportedVersion { got } => "unsupported index file version: "@ + text::decimal(
                got as nat,
            ),
            Error::CapacityExceeded { capacity } => "collection is at capacity: "@ + text::decimal(
                capacity as nat,
            ),
            Error::CapacityOverflow { dim, capacity } => "capacity overflow: dim="@ + text::decimal(
                dim as nat,
            ) + ", capacity="@ + text::decimal(capacity as nat) + " exceeds usize"@,
            Error::UnknownCollection { id } => "unknown collection: "@ + text::decimal(id as nat),
            Error::UnknownCollectionName { name } => "unknown collection: "@ + name@,
            Error::CollectionConfigMismatch { id } => "collection "@ + text::decimal(id as nat)
                + "'s config conflicts with the persisted catalog"@,
            Error::CollectionExists { name } => "collection name already exists: "@ + name@,
            Error::InvalidCollectionName => "collection name must be non-empty"@,
            Error::InvalidCapacity => "capacity must be > 0"@,
            Error::ReservedColumn(name) => "reserved column name: "@ + name@,
            Error::UnknownColumn { column } => "unknown column: "@ + text::decimal(column as nat),
            Error::TypeMismatch { column, expected, got } => "type mismatch on column "@ + text::decimal(
                column as nat,
            ) + ": expected "@ + type_label(expected) + ", got "@ + type_label(got),
            Error::NaNRejected { column } => "NaN rejected for float column "@ + text::decimal(
                column as nat,
            ),
            Error::IncompleteRow =>
                "row does not match schema (every column exactly once, no NULLs)"@,
            Error::DuplicateColumn(name) => "duplicate column in schema: "@ + name@,
            Error::VectorColumnCount { found } =>
                "schema must have exactly one vector column, found "@ + text::decimal(found as nat),
            Error::CorruptSnapshot(why) => "corrupt snapshot: "@ + why@,
            Error::SchemaMismatch =>
                "snapshot schema does not match the schema supplied by the caller"@,
        }
    }

    /// The text shown to the user.
    pub fn to_text(&self) -> (s: String)
        ensures
            s@ == self.message(),
    {
        match self {
            Error::DimensionMismatch { expected, got } => {
                let mut s = join3(
                    "dimension mismatch: expected ",
                    numeral(*expected as u64).as_str(),
                    ", got ",
                );
                s.append(numeral(*got as u64).as_str());
                s
            },
            Error::InvalidDimension => "dimension cannot be 0".to_owned(),
            Error::InvalidTopK { k } => join3(
                "invalid top k: ",
                numeral(*k as u64).as_str(),
                " - k should be a natural number > 0",
            ),
            Error::Io(why) => join2("io error: ", why.as_str()),
            Error::CorruptHeader => "index file's header is corrupt".to_owned(),
            Error::BadMagic { got } => join2("bad magic number: ", numeral(*got as u64).as_str()),
            Error::UnsupportedVersion { got } => join2(
                "unsupported index file version: ",
                numeral(*got as u64).as_str(),
            ),
            Error::CapacityExceeded { capacity } => join2(
                "collection is at capacity: ",
                numeral(*capacity as u64).as_str(),
            ),
            Error::CapacityOverflow { dim, capacity } => {
                let mut s = join3(
                    "capacity overflow: dim=",
                    numeral(*dim as u64).as_str(),
                    ", capacity=",
                );
                s.append(numeral(*capacity as u64).as_str());
                s.append(" exceeds usize");
                s
            },
            Error::UnknownCollection { id } => join2(
                "unknown collection: ",
                numeral(*id as u64).as_str(),
            ),
            Error::UnknownCollectionName { name } => join2(
                "unknown collection: ",
                name.as_str(),
            ),
            Error::CollectionConfigMismatch { id } => join3(
                "collection ",
                numeral(*id as u64).as_str(),
                "'s config conflicts with the persisted catalog",
            ),
            Error::CollectionExists { name } => join2(
                "collection name already exists: ",
                name.as_str(),
            ),
            Error::InvalidCollectionName => "collection name must be non-empty".to_owned(),
            Error::InvalidCapacity => "capacity must be > 0".to_owned(),
            Error::ReservedColumn(name) => join2("reserved column name: ", name.as_str()),
            Error::UnknownColumn { column } => join2(
                "unknown column: ",
                numeral(*column as u64).as_str(),
            ),
            Error::TypeMismatch { column, expected, got } => {
                let mut s = join3(
                    "type mismatch on column ",
                    numeral(*column as u64).as_str(),
                    ": expected ",
                );
                s.append(type_text(*expected));
                s.append(", got ");
                s.append(type_text(*got));
                s
            },
            Error::NaNRejected { column } => join2(
                "NaN rejected for float column ",
                numeral(*column as u64).as_str(),
            ),
            Error::IncompleteRow =>
                "row does not match schema (every column exactly once, no NULLs)".to_owned(),
            Error::DuplicateColumn(name) => join2("duplicate column in schema: ", name.as_str()),
            Error::VectorColumnCount { found } => join2(
                "schema must have exactly one vector column, found ",
                numeral(*found as u64).as_str(),
            ),
            Error::CorruptSnapshot(why) => join2("corrupt snapshot: ", why.as_str()),
            Error::SchemaMismatch =>
                "snapshot schema does not match the schema supplied by the caller".to_owned(),
        }
    }
}

} // verus!
