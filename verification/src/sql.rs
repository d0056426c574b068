//! Resolved statements: the plans that the compiler takes and the schema in the
//! binder's terms.
//!
//! Floats are bit patterns: 64 bits in a scalar literal, 32 bits in a vector.

use vstd::prelude::*;

use crate::float;

verus! {

/// A column type as a statement writes it.
#[derive(Debug, Clone, Copy, PartialEq, Eq, Structural)]
pub enum ColumnType {
    /// `VECTOR(n)`.
    Vector(usize),
    /// `INT`.
    Int,
    /// `FLOAT`.
    Float,
    /// `TEXT`.
    Text,
}

/// A literal value. Floats are compared as floats are: `0.0` equals `-0.0`, and a NaN
/// equals nothing.
#[derive(Debug)]
pub enum Literal {
    /// A vector.
    Vector(Vec<u32>),
    /// A string.
    Str(String),
    /// An integer.
    Int(i64),
    /// A float.
    Float(u64),
}

impl PartialEq for Literal {
    fn eq(&self, other: &Literal) -> (r: bool) {
        match (self, other) {
            (Literal::Vector(a), Literal::Vector(b)) => float::are_equal_vectors(a, b),
            (Literal::Str(a), Literal::Str(b)) => *a == *b,
            (Literal::Int(a), Literal::Int(b)) => *a == *b,
            (Literal::Float(a), Literal::Float(b)) => float::is_equal64(*a, *b),
            _ => false,
        }
    }
}

impl vstd::std_specs::cmp::PartialEqSpecImpl for Literal {
    open spec fn obeys_eq_spec() -> bool {
        true
    }

    open spec fn eq_spec(&self, other: &Literal) -> bool {
        match (self, other) {
            (Literal::Vector(a), Literal::Vector(b)) => float::equal_vectors(a@, b@),
            (Literal::Str(a), Literal::Str(b)) => a@ == b@,
            (Literal::Int(a), Literal::Int(b)) => *a == *b,
            (Literal::Float(a), Literal::Float(b)) => float::equal64(*a, *b),
            _ => false,
        }
    }
}

/// A literal with its type.
#[derive(Debug, PartialEq)]
pub struct TypedValue {
    /// The literal.
    pub value: Literal,
    /// Its type.
    pub ty: ColumnType,
}

/// One column of a bound schema.
#[derive(Debug, PartialEq)]
pub struct ColumnSchema {
    /// Column name.
    pub name: String,
    /// Column type.
    pub ty: ColumnType,
    /// Place among all columns.
    pub ordinal: usize,
    /// Whether the type is a vector.
    pub is_vector: bool,
}

/// What a [`ColumnSchema`] holds.
pub struct ColumnSchemaView {
    /// Column name.
    pub name: Seq<char>,
    /// Column type.
    pub ty: ColumnType,
    /// Place among all columns.
    pub ordinal: usize,
    /// Whether the type is a vector.
    pub is_vector: bool,
}

impl View for ColumnSchema {
    type V = ColumnSchemaView;

    open spec fn view(&self) -> ColumnSchemaView {
        ColumnSchemaView {
            name: self.name@,
            ty: self.ty,
            ordinal: self.ordinal,
            is_vector: self.is_vector,
        }
    }
}

/// A schema in the binder's terms: every column in declaration order, the vector
/// among them.
#[derive(Debug, PartialEq)]
pub struct BoundSchema {
    /// The columns.
    pub columns: Vec<ColumnSchema>,
}

impl View for BoundSchema {
    type V = Seq<ColumnSchemaView>;

    open spec fn view(&self) -> Seq<ColumnSchemaView> {
        self.columns@.map_values(|c: ColumnSchema| c@)
    }
}

/// A resolved column of a projection.
#[derive(Debug, PartialEq)]
pub struct ColumnRef {
    /// Column name.
    pub name: String,
    /// Place among all columns of the collection.
    pub ordinal: usize,
}

/// Reads every live row of a collection.
#[derive(Debug, PartialEq)]
pub struct Scan {
    /// The collection.
    pub collection: String,
    /// Its columns.
    pub schema: BoundSchema,
}

/// Keeps some columns of each row.
#[derive(Debug, PartialEq)]
pub struct Project {
    /// Where the rows come from.
    pub input: Box<LogicalPlan>,
    /// The columns kept, in output order.
    pub columns: Vec<ColumnRef>,
    /// Whether the embedding is among them.
    pub include_vector: bool,
}

/// Writes one row.
#[derive(Debug, PartialEq)]
pub struct Insert {
    /// The collection.
    pub collection: String,
    /// Its columns.
    pub schema: BoundSchema,
    /// The row's values, in declaration order.
    pub row: Vec<TypedValue>,
}

/// Provisions a collection.
#[derive(Debug, PartialEq)]
pub struct CreateCollection {
    /// The new name.
    pub name: String,
    /// Its columns.
    pub schema: BoundSchema,
    /// How many rows it can hold.
    pub capacity: u64,
}

/// A resolved statement.
#[derive(Debug, PartialEq)]
pub enum LogicalPlan {
    /// Reads rows.
    Scan(Scan),
    /// Keeps some columns.
    Project(Project),
    /// Writes one row.
    Insert(Insert),
    /// Provisions a collection.
    CreateCollection(CreateCollection),
}

/// What the query pipeline reads of a parsed statement: the collection that it is
/// about.
#[derive(Debug, PartialEq)]
pub enum Statement {
    /// `SELECT .. FROM`.
    Select {
        /// The collection.
        from: String,
    },
    /// `INSERT INTO`.
    Insert {
        /// The collection.
        collection: String,
    },
    /// `CREATE COLLECTION`.
    CreateCollection {
        /// The new name.
        name: String,
    },
    /// `SEARCH .. FROM`.
    Search {
        /// The collection.
        collection: String,
    },
}

/// What the query pipeline reads of a bound statement: the columns that it gives.
#[derive(Debug, PartialEq)]
pub enum BoundStatement {
    /// A read.
    Select {
        /// The columns, in output order.
        projection: Vec<ColumnRef>,
    },
    /// A ranked read.
    Search {
        /// The columns, in output order.
        projection: Vec<ColumnRef>,
    },
    /// A write.
    Insert,
    /// A new collection.
    CreateCollection,
}

/// Literals are equal exactly if they are of one kind and the same: vectors number by
/// number, floats as numbers.
pub proof fn law_literal_equality(a: Literal, b: Literal)
    ensures
        vstd::std_specs::cmp::PartialEqSpec::eq_spec(&a, &b) <==> match (a, b) {
            (Literal::Vector(x), Literal::Vector(y)) => x@.len() == y@.len() && forall|i: int|
                0 <= i < x@.len() ==> float::equal32(#[trigger] x@[i], y@[i]),
            (Literal::Str(x), Literal::Str(y)) => x@ == y@,
            (Literal::Int(x), Literal::Int(y)) => x == y,
            (Literal::Float(x), Literal::Float(y)) => float::equal64(x, y),
            _ => false,
        },
{
}

} // verus!
