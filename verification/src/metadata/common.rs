//! Plain types that the metadata index, the tuple store and the engine share.

use vstd::prelude::*;

use crate::error::{Error, Result};
use crate::float;
use crate::float::is_nan64;

verus! {

/// Log sequence number. Monotonic, 1-based; 0 means that nothing is durable yet.
#[derive(Debug, Clone, Copy, PartialEq, Eq, Structural)]
pub struct Lsn(pub u64);

/// Row identity within a collection. The flat index, the metadata index and the
/// tuple store share one ordinal space.
#[derive(Debug, Clone, Copy, PartialEq, Eq, PartialOrd, Ord, Hash, Structural)]
pub struct Ordinal(pub u32);

/// Identifier of a scalar column: its place among the scalar columns.
pub type ColumnId = u32;

/// The scalar column types.
#[derive(Debug, Clone, Copy, PartialEq, Eq, Structural)]
pub enum ColumnType {
    /// A 64-bit signed integer.
    Int,
    /// A 64-bit float.
    Float,
    /// A string.
    Text,
}

/// A single metadata value. A float is held as its bit pattern, and two values are
/// equal as floats are: `0.0` equals `-0.0`, and a NaN equals nothing.
#[derive(Debug)]
pub enum Value {
    /// An integer.
    Int(i64),
    /// A float, as `f64::to_bits` gives it.
    Float(u64),
    /// A string.
    Text(String),
}

/// What a [`Value`] holds.
pub enum ValueView {
    /// An integer.
    Int(i64),
    /// The bit pattern of a float.
    Float(u64),
    /// The characters of a string.
    Text(Seq<char>),
}

impl View for Value {
    type V = ValueView;

    open spec fn view(&self) -> ValueView {
        match self {
            Value::Int(i) => ValueView::Int(*i),
            Value::Float(b) => ValueView::Float(*b),
            Value::Text(s) => ValueView::Text(s@),
        }
    }
}

impl ValueView {
    /// The column type that the value belongs to.
    pub open spec fn ty(self) -> ColumnType {
        match self {
            ValueView::Int(_) => ColumnType::Int,
            ValueView::Float(_) => ColumnType::Float,
            ValueView::Text(_) => ColumnType::Text,
        }
    }

    /// Whether the value is a NaN.
    pub open spec fn nan(self) -> bool {
        self matches ValueView::Float(b) && float::nan64(b)
    }
}

impl Clone for Value {
    fn clone(&self) -> (v: Value)
        ensures
            v@ == self@,
    {
        match self {
            Value::Int(i) => Value::Int(*i),
            Value::Float(b) => Value::Float(*b),
            Value::Text(s) => Value::Text(s.clone()),
        }
    }
}

impl Value {
    /// The column type that the value belongs to.
    pub fn column_type(&self) -> (ty: ColumnType)
        ensures
            ty == self@.ty(),
    {
        match self {
            Value::Int(_) => ColumnType::Int,
            Value::Float(_) => ColumnType::Float,
            Value::Text(_) => ColumnType::Text,
        }
    }
}

impl PartialEq for Value {
    fn eq(&self, other: &Value) -> (r: bool) {
        match (self, other) {
            (Value::Int(a), Value::Int(b)) => *a == *b,
            (Value::Float(a), Value::Float(b)) => float::is_equal64(*a, *b),
            (Value::Text(a), Value::Text(b)) => *a == *b,
            _ => false,
        }
    }
}

impl vstd::std_specs::cmp::PartialEqSpecImpl for Value {
    open spec fn obeys_eq_spec() -> bool {
        true
    }

    open spec fn eq_spec(&self, other: &Value) -> bool {
        match (self@, other@) {
            (ValueView::Int(a), ValueView::Int(b)) => a == b,
            (ValueView::Float(a), ValueView::Float(b)) => float::equal64(a, b),
            (ValueView::Text(a), ValueView::Text(b)) => a == b,
            _ => false,
        }
    }
}

/// A full metadata row: one value per scalar column, keyed by column id, in any
/// order.
pub type Row = Vec<(ColumnId, Value)>;

/// What a row holds.
pub open spec fn row_view(row: Seq<(ColumnId, Value)>) -> Seq<(ColumnId, ValueView)> {
    row.map_values(|e: (ColumnId, Value)| (e.0, e.1@))
}

/// Comparison operators of a range lookup.
#[derive(Debug, Clone, Copy, PartialEq, Eq, Structural)]
pub enum RangeOp {
    /// Below the operand.
    Lt,
    /// At or below the operand.
    Le,
    /// Above the operand.
    Gt,
    /// At or above the operand.
    Ge,
}

impl RangeOp {
    /// Whether a key of the given rank satisfies the comparison with an operand
    /// of rank `k`.
    pub open spec fn holds(self, rank: int, k: int) -> bool {
        match self {
            RangeOp::Lt => rank < k,
            RangeOp::Le => rank <= k,
            RangeOp::Gt => rank > k,
            RangeOp::Ge => rank >= k,
        }
    }
}

/// An embedding dimension: a number that is at least 1.
#[derive(Debug, Clone, Copy, PartialEq, Eq, Structural)]
pub struct Dim {
    value: usize,
}

impl Dim {
    #[verifier::type_invariant]
    spec fn positive(self) -> bool {
        self.value >= 1
    }

    /// The number.
    pub closed spec fn spec_get(self) -> usize {
        self.value
    }

    /// The dimension of the given number.
    pub closed spec fn of(n: usize) -> Dim {
        Dim { value: n }
    }

    /// Number and dimension determine each other.
    pub broadcast proof fn lemma_of(n: usize, d: Dim)
        ensures
            (#[trigger] Dim::of(n)).spec_get() == n,
            Dim::of(#[trigger] d.spec_get()) == d,
    {
    }

    /// The dimension `n`, unless `n` is 0.
    pub fn new(n: usize) -> (r: Option<Dim>)
        ensures
            n == 0 ==> r is None,
            n != 0 ==> r == Some(Dim::of(n)) && Dim::of(n).spec_get() == n,
    {
        if n == 0 {
            None
        } else {
            Some(Dim { value: n })
        }
    }

    /// The number, which is at least 1.
    pub fn get(&self) -> (n: usize)
        ensures
            n == self.spec_get(),
            n >= 1,
    {
        proof {
            use_type_invariant(self);
        }
        self.value
    }
}

/// A column's position among all columns, the vector included.
#[derive(Debug, Clone, Copy, PartialEq, Eq, Structural)]
pub struct DeclarationOrdinal(pub usize);

impl DeclarationOrdinal {
    /// The position `n`.
    pub fn new(n: usize) -> (o: DeclarationOrdinal)
        ensures
            o.0 == n,
    {
        DeclarationOrdinal(n)
    }

    /// The position as a number.
    pub fn get(&self) -> (n: usize)
        ensures
            n == self.0,
    {
        self.0
    }
}

/// Where a declared column is stored.
#[derive(Debug, Clone, Copy, PartialEq, Eq, Structural)]
pub enum ColumnLocation {
    /// In the tuple store and the metadata index, under this id.
    Scalar(ColumnId),
    /// In the flat vector index.
    Vector {
        /// Its dimension.
        dim: Dim,
    },
}

/// One scalar column of a schema.
#[derive(Debug, PartialEq)]
pub struct ColumnDef {
    /// Place among the scalar columns, from 0.
    pub id: ColumnId,
    /// Column name.
    pub name: String,
    /// Column type.
    pub ty: ColumnType,
    /// Place among all columns, the vector included.
    pub ordinal: usize,
}

/// What a [`ColumnDef`] holds.
pub struct ColumnDefView {
    /// Place among the scalar columns.
    pub id: ColumnId,
    /// Column name.
    pub name: Seq<char>,
    /// Column type.
    pub ty: ColumnType,
    /// Place among all columns.
    pub ordinal: usize,
}

impl View for ColumnDef {
    type V = ColumnDefView;

    open spec fn view(&self) -> ColumnDefView {
        ColumnDefView { id: self.id, name: self.name@, ty: self.ty, ordinal: self.ordinal }
    }
}

impl Clone for ColumnDef {
    fn clone(&self) -> (d: ColumnDef)
        ensures
            d@ == self@,
    {
        ColumnDef { id: self.id, name: self.name.clone(), ty: self.ty, ordinal: self.ordinal }
    }
}

impl ColumnDef {
    /// Whether two definitions are the same.
    pub fn same(&self, other: &ColumnDef) -> (r: bool)
        ensures
            r == (self@ == other@),
    {
        self.id == other.id && self.name == other.name && self.ty == other.ty && self.ordinal
            == other.ordinal
    }
}

/// The vector column of a schema. It has no column id: the embedding lives in the
/// flat index.
#[derive(Debug, PartialEq)]
pub struct VectorColumn {
    /// Column name.
    pub name: String,
    /// Place among all columns.
    pub ordinal: usize,
    /// Embedding dimension.
    pub dim: Dim,
}

/// What a [`VectorColumn`] holds.
pub struct VectorColumnView {
    /// Column name.
    pub name: Seq<char>,
    /// Place among all columns.
    pub ordinal: usize,
    /// Embedding dimension.
    pub dim: Dim,
}

impl View for VectorColumn {
    type V = VectorColumnView;

    open spec fn view(&self) -> VectorColumnView {
        VectorColumnView { name: self.name@, ordinal: self.ordinal, dim: self.dim }
    }
}

impl Clone for VectorColumn {
    fn clone(&self) -> (v: VectorColumn)
        ensures
            v@ == self@,
    {
        VectorColumn { name: self.name.clone(), ordinal: self.ordinal, dim: self.dim }
    }
}

/// One column of a declaration, in source order.
#[derive(Debug, PartialEq)]
pub enum ColumnSpec {
    /// A scalar column.
    Scalar {
        /// Column name.
        name: String,
        /// Column type.
        ty: ColumnType,
    },
    /// The vector column.
    Vector {
        /// Column name.
        name: String,
        /// Embedding dimension.
        dim: Dim,
    },
}

/// What a [`ColumnSpec`] holds.
pub enum ColumnSpecView {
    /// A scalar column.
    Scalar {
        /// Column name.
        name: Seq<char>,
        /// Column type.
        ty: ColumnType,
    },
    /// The vector column.
    Vector {
        /// Column name.
        name: Seq<char>,
        /// Embedding dimension.
        dim: Dim,
    },
}

impl View for ColumnSpec {
    type V = ColumnSpecView;

    open spec fn view(&self) -> ColumnSpecView {
        match self {
            ColumnSpec::Scalar { name, ty } => ColumnSpecView::Scalar { name: name@, ty: *ty },
            ColumnSpec::Vector { name, dim } => ColumnSpecView::Vector { name: name@, dim: *dim },
        }
    }
}

/// What a run of column declarations holds.
pub open spec fn specs_view(cols: Seq<ColumnSpec>) -> Seq<ColumnSpecView> {
    cols.map_values(|c: ColumnSpec| c@)
}

impl ColumnSpecView {
    /// The declared name.
    pub open spec fn label(self) -> Seq<char> {
        match self {
            ColumnSpecView::Scalar { name, .. } => name,
            ColumnSpecView::Vector { name, .. } => name,
        }
    }
}

impl Clone for ColumnSpec {
    fn clone(&self) -> (c: ColumnSpec)
        ensures
            c@ == self@,
    {
        match self {
            ColumnSpec::Scalar { name, ty } => ColumnSpec::Scalar { name: name.clone(), ty: *ty },
            ColumnSpec::Vector { name, dim } => ColumnSpec::Vector {
                name: name.clone(),
                dim: *dim,
            },
        }
    }
}

/// How many of the first `n` declared columns are vectors.
pub open spec fn vectors_in(cols: Seq<ColumnSpecView>, n: nat) -> nat
    decreases n,
{
    if n == 0 {
        0
    } else {
        vectors_in(cols, (n - 1) as nat) + if cols[n - 1] is Vector {
            1nat
        } else {
            0
        }
    }
}

/// Whether the column at `j` repeats the name of an earlier one.
pub open spec fn repeats(cols: Seq<ColumnSpecView>, j: int) -> bool {
    exists|i: int| 0 <= i < j && #[trigger] cols[i].label() == cols[j].label()
}

/// The scalar columns among the first `n` declared columns: ids count scalars
/// only, ordinals count every column.
pub open spec fn scalars_in(cols: Seq<ColumnSpecView>, n: nat) -> Seq<ColumnDefView>
    decreases n,
{
    if n == 0 {
        Seq::empty()
    } else {
        let before = scalars_in(cols, (n - 1) as nat);
        match cols[n - 1] {
            ColumnSpecView::Scalar { name, ty } => before.push(
                ColumnDefView {
                    id: before.len() as ColumnId,
                    name,
                    ty,
                    ordinal: (n - 1) as usize,
                },
            ),
            ColumnSpecView::Vector { .. } => before,
        }
    }
}

/// The collection schema: its scalar columns and its one vector column.
#[derive(Debug, PartialEq)]
pub struct Schema {
    /// The scalar columns; a column's id is its index here.
    pub columns: Vec<ColumnDef>,
    /// The vector column.
    pub vector: VectorColumn,
}

/// What a [`Schema`] holds.
pub struct SchemaView {
    /// The scalar columns.
    pub columns: Seq<ColumnDefView>,
    /// The vector column.
    pub vector: VectorColumnView,
}

impl View for Schema {
    type V = SchemaView;

    open spec fn view(&self) -> SchemaView {
        SchemaView {
            columns: self.columns@.map_values(|d: ColumnDef| d@),
            vector: self.vector@,
        }
    }
}

impl SchemaView {
    /// Whether the scalar column at `j` has the name of the vector column or of
    /// an earlier scalar column.
    pub open spec fn repeats(self, j: int) -> bool {
        ||| self.columns[j].name == self.vector.name
        ||| exists|i: int| 0 <= i < j && #[trigger] self.columns[i].name == self.columns[j].name
    }

    /// All column names are different.
    pub open spec fn distinct(self) -> bool {
        forall|j: int| 0 <= j < self.columns.len() ==> !#[trigger] self.repeats(j)
    }

    /// Where the column declared at `ordinal` is stored: the vector column if it
    /// is the one, else the first scalar column of that ordinal.
    pub open spec fn location(self, ordinal: usize) -> Option<ColumnLocation> {
        if self.vector.ordinal == ordinal {
            Some(ColumnLocation::Vector { dim: self.vector.dim })
        } else {
            scalar_at(self.columns, ordinal, 0)
        }
    }

    /// The id of the scalar column of the given name, the first if there are
    /// more.
    pub open spec fn id_of(self, name: Seq<char>) -> Option<ColumnId> {
        scalar_named(self.columns, name, 0)
    }

    /// What the row entry at `i` breaks, if anything: the id must be known, the
    /// type must match, the id must be new in the row, and a float must not be a
    /// NaN.
    pub open spec fn entry_fault(self, row: Seq<(ColumnId, ValueView)>, i: int) -> Option<Error> {
        let id = row[i].0;
        let value = row[i].1;
        if id >= self.columns.len() {
            Some(Error::UnknownColumn { column: id })
        } else if value.ty() != self.columns[id as int].ty {
            Some(
                Error::TypeMismatch {
                    column: id,
                    expected: self.columns[id as int].ty,
                    got: value.ty(),
                },
            )
        } else if exists|j: int| 0 <= j < i && #[trigger] row[j].0 == id {
            Some(Error::IncompleteRow)
        } else if value.nan() {
            Some(Error::NaNRejected { column: id })
        } else {
            None
        }
    }

    /// The first fault among the entries from `i` on.
    pub open spec fn fault_from(self, row: Seq<(ColumnId, ValueView)>, i: int) -> Option<Error>
        decreases row.len() - i,
    {
        if i < 0 || i >= row.len() {
            None
        } else {
            match self.entry_fault(row, i) {
                Some(e) => Some(e),
                None => self.fault_from(row, i + 1),
            }
        }
    }

    /// What the row breaks first, if anything. The number of entries comes before
    /// the entries themselves.
    pub open spec fn row_fault(self, row: Seq<(ColumnId, ValueView)>) -> Option<Error> {
        if row.len() != self.columns.len() {
            Some(Error::IncompleteRow)
        } else {
            self.fault_from(row, 0)
        }
    }

    /// The row fits the schema.
    pub open spec fn row_ok(self, row: Seq<(ColumnId, ValueView)>) -> bool {
        self.row_fault(row) is None
    }
}

/// The location of the first column of the given ordinal from index `i` on.
pub open spec fn scalar_at(
    columns: Seq<ColumnDefView>,
    ordinal: usize,
    i: int,
) -> Option<ColumnLocation>
    decreases columns.len() - i,
{
    if i < 0 || i >= columns.len() {
        None
    } else if columns[i].ordinal == ordinal {
        Some(ColumnLocation::Scalar(columns[i].id))
    } else {
        scalar_at(columns, ordinal, i + 1)
    }
}

/// The id of the first column of the given name from index `i` on.
pub open spec fn scalar_named(
    columns: Seq<ColumnDefView>,
    name: Seq<char>,
    i: int,
) -> Option<ColumnId>
    decreases columns.len() - i,
{
    if i < 0 || i >= columns.len() {
        None
    } else if columns[i].name == name {
        Some(columns[i].id)
    } else {
        scalar_named(columns, name, i + 1)
    }
}

/// What building a schema from a declaration gives: the number of vector columns
/// is looked at first, then repeated names, of which the first is reported.
pub open spec fn built(cols: Seq<ColumnSpecView>, r: Result<Schema>) -> bool {
    match r {
        Ok(s) => {
            &&& vectors_in(cols, cols.len()) == 1
            &&& forall|j: int| 0 <= j < cols.len() ==> !#[trigger] repeats(cols, j)
            &&& s@.columns == scalars_in(cols, cols.len())
            &&& s.vector.ordinal < cols.len()
            &&& cols[s.vector.ordinal as int] == (ColumnSpecView::Vector {
                name: s.vector.name@,
                dim: s.vector.dim,
            })
        },
        Err(Error::VectorColumnCount { found }) => {
            &&& found == vectors_in(cols, cols.len())
            &&& found != 1
        },
        Err(Error::DuplicateColumn(name)) => {
            &&& vectors_in(cols, cols.len()) == 1
            &&& exists|j: int|
                0 <= j < cols.len() && #[trigger] repeats(cols, j) && name@ == cols[j].label() && (
                forall|i: int| 0 <= i < j ==> !#[trigger] repeats(cols, i))
        },
        Err(_) => false,
    }
}

/// Whether one of the first `n` columns has the given name.
fn named_before(cols: &Vec<ColumnSpec>, n: usize) -> (r: bool)
    requires
        n < cols@.len(),
    ensures
        r == repeats(specs_view(cols@), n as int),
{
    let mut i: usize = 0;
    while i < n
        invariant
            i <= n < cols@.len(),
            forall|k: int| 0 <= k < i ==> #[trigger] specs_view(cols@)[k].label() != specs_view(
                cols@,
            )[n as int].label(),
        decreases n - i,
    {
        let a: &String = match &cols[i] {
            ColumnSpec::Scalar { name, .. } => name,
            ColumnSpec::Vector { name, .. } => name,
        };
        let b: &String = match &cols[n] {
            ColumnSpec::Scalar { name, .. } => name,
            ColumnSpec::Vector { name, .. } => name,
        };
        if *a == *b {
            assert(specs_view(cols@)[i as int].label() == specs_view(cols@)[n as int].label());
            return true;
        }
        i += 1;
    }
    false
}

impl Clone for Schema {
    fn clone(&self) -> (s: Schema)
        ensures
            s@ == self@,
    {
        let mut columns: Vec<ColumnDef> = Vec::new();
        let mut i: usize = 0;
        while i < self.columns.len()
            invariant
                i <= self.columns@.len(),
                columns@.len() == i,
                forall|k: int| 0 <= k < i ==> #[trigger] columns@[k]@ == self.columns@[k]@,
            decreases self.columns@.len() - i,
        {
            columns.push(self.columns[i].clone());
            i += 1;
        }
        let s = Schema {
            columns,
            vector: self.vector.clone(),
        };
        proof {
            assert(s@.columns =~= self@.columns);
        }
        s
    }
}

impl Schema {
    /// Builds a schema from its columns in declaration order. A column's
    /// declaration ordinal is its index in `cols`; its column id counts scalars
    /// only, so the vector gets none.
    ///
    /// Exactly one column must be the vector, and no two names may be equal. The
    /// count is looked at first; of several repeated names the first repeat is
    /// reported.
    pub fn from_columns(cols: Vec<ColumnSpec>) -> (r: Result<Schema>)
        ensures
            built(specs_view(cols@), r),
    {
        let mut vector_count: usize = 0;
        let mut i: usize = 0;
        while i < cols.len()
            invariant
                i <= cols@.len(),
                vector_count == vectors_in(specs_view(cols@), i as nat),
                vector_count <= i,
            decreases cols@.len() - i,
        {
            assert(specs_view(cols@)[i as int] == cols@[i as int]@);
            if let ColumnSpec::Vector { .. } = &cols[i] {
                vector_count += 1;
            }
            i += 1;
        }
        if vector_count != 1 {
            return Err(Error::VectorColumnCount { found: vector_count });
        }
        let mut columns: Vec<ColumnDef> = Vec::new();
        let mut vector: Option<VectorColumn> = None;
        let mut ordinal: usize = 0;
        while ordinal < cols.len()
            invariant
                ordinal <= cols@.len(),
                vectors_in(specs_view(cols@), cols@.len()) == 1,
                columns@.len() <= ordinal,
                columns@.map_values(|d: ColumnDef| d@) == scalars_in(specs_view(cols@), ordinal as nat),
                forall|j: int| 0 <= j < ordinal ==> !#[trigger] repeats(specs_view(cols@), j),
                vector is None ==> vectors_in(specs_view(cols@), ordinal as nat) == 0,
                vector matches Some(v) ==> {
                    &&& v.ordinal < ordinal
                    &&& specs_view(cols@)[v.ordinal as int] == (ColumnSpecView::Vector {
                        name: v.name@,
                        dim: v.dim,
                    })
                },
            decreases cols@.len() - ordinal,
        {
            let again: bool = named_before(&cols, ordinal);
            assert(specs_view(cols@)[ordinal as int] == cols@[ordinal as int]@);
            match &cols[ordinal] {
                ColumnSpec::Scalar { name, ty } => {
                    if again {
                        return Err(Error::DuplicateColumn(name.clone()));
                    }
                    let ghost before = columns@;
                    let id: ColumnId = columns.len() as ColumnId;
                    columns.push(ColumnDef { id, name: name.clone(), ty: *ty, ordinal });
                    proof {
                        assert(columns@.map_values(|d: ColumnDef| d@) =~= before.map_values(
                            |d: ColumnDef| d@,
                        ).push(columns@.last()@));
                    }
                },
                ColumnSpec::Vector { name, dim } => {
                    if again {
                        return Err(Error::DuplicateColumn(name.clone()));
                    }
                    vector = Some(VectorColumn { name: name.clone(), ordinal, dim: *dim });
                },
            }
            ordinal += 1;
        }
        match vector {
            Some(v) => Ok(Schema { columns, vector: v }),
            None => Err(Error::VectorColumnCount { found: 0 }),
        }
    }

    /// The vector column.
    pub fn vector(&self) -> (v: &VectorColumn)
        ensures
            *v == self.vector,
    {
        &self.vector
    }

    /// Checks that no two column names are equal, on a schema that may have been
    /// put together by hand. The vector's name counts as seen first.
    pub fn validate(&self) -> (r: Result<()>)
        ensures
            match r {
                Ok(()) => self@.distinct(),
                Err(Error::DuplicateColumn(name)) => exists|j: int|
                    0 <= j < self@.columns.len() && #[trigger] self@.repeats(j) && name@
                        == self@.columns[j].name && (forall|i: int|
                        0 <= i < j ==> !#[trigger] self@.repeats(i)),
                Err(_) => false,
            },
    {
        let mut j: usize = 0;
        while j < self.columns.len()
            invariant
                j <= self.columns@.len(),
                forall|i: int| 0 <= i < j ==> !#[trigger] self@.repeats(i),
            decreases self.columns@.len() - j,
        {
            let mut again: bool = self.columns[j].name == self.vector.name;
            let mut i: usize = 0;
            while i < j
                invariant
                    i <= j < self.columns@.len(),
                    again == (self@.columns[j as int].name == self@.vector.name || exists|k: int|
                        0 <= k < i && #[trigger] self@.columns[k].name
                            == self@.columns[j as int].name),
                decreases j - i,
            {
                if self.columns[i].name == self.columns[j].name {
                    assert(self@.columns[i as int].name == self@.columns[j as int].name);
                    again = true;
                }
                i += 1;
            }
            if again {
                assert(self@.repeats(j as int));
                return Err(Error::DuplicateColumn(self.columns[j].name.clone()));
            }
            j += 1;
        }
        Ok(())
    }

    /// The scalar column of the given id.
    pub fn column(&self, id: ColumnId) -> (r: Option<&ColumnDef>)
        ensures
            match r {
                Some(d) => id < self.columns@.len() && *d == self.columns@[id as int],
                None => id >= self.columns@.len(),
            },
    {
        if (id as usize) < self.columns.len() {
            Some(&self.columns[id as usize])
        } else {
            None
        }
    }

    /// The id of the scalar column of the given name.
    pub fn by_name(&self, name: &String) -> (r: Option<ColumnId>)
        ensures
            r == self@.id_of(name@),
    {
        let mut i: usize = 0;
        while i < self.columns.len()
            invariant
                i <= self.columns@.len(),
                self@.id_of(name@) == scalar_named(self@.columns, name@, i as int),
            decreases self.columns@.len() - i,
        {
            if self.columns[i].name == *name {
                return Some(self.columns[i].id);
            }
            i += 1;
        }
        None
    }

    /// Where the column declared at `ordinal` is stored.
    pub fn locate(&self, ordinal: DeclarationOrdinal) -> (r: Option<ColumnLocation>)
        ensures
            r == self@.location(ordinal.0),
    {
        if self.vector.ordinal == ordinal.0 {
            return Some(ColumnLocation::Vector { dim: self.vector.dim });
        }
        let mut i: usize = 0;
        while i < self.columns.len()
            invariant
                i <= self.columns@.len(),
                self.vector.ordinal != ordinal.0,
                self@.location(ordinal.0) == scalar_at(self@.columns, ordinal.0, i as int),
            decreases self.columns@.len() - i,
        {
            if self.columns[i].ordinal == ordinal.0 {
                return Some(ColumnLocation::Scalar(self.columns[i].id));
            }
            i += 1;
        }
        None
    }

    /// Whether two schemas are the same.
    pub fn same(&self, other: &Schema) -> (r: bool)
        ensures
            r == (self@ == other@),
    {
        if self.columns.len() != other.columns.len() {
            assert(self@.columns.len() != other@.columns.len());
            return false;
        }
        if self.vector.name != other.vector.name || self.vector.ordinal != other.vector.ordinal
            || self.vector.dim != other.vector.dim {
            return false;
        }
        let mut i: usize = 0;
        while i < self.columns.len()
            invariant
                i <= self.columns@.len(),
                self.columns@.len() == other.columns@.len(),
                forall|k: int| 0 <= k < i ==> #[trigger] self.columns@[k]@ == other.columns@[k]@,
            decreases self.columns@.len() - i,
        {
            if !self.columns[i].same(&other.columns[i]) {
                assert(self@.columns[i as int] != other@.columns[i as int]);
                return false;
            }
            i += 1;
        }
        proof {
            assert(self@.columns =~= other@.columns);
        }
        true
    }

    /// Checks a full row against the schema: as many entries as columns, and of
    /// each entry in turn a known id, the column's type, an id not seen before in
    /// the row, and no NaN. The first fault found is the error.
    pub fn validate_row(&self, row: &Row) -> (r: Result<()>)
        ensures
            match self@.row_fault(row_view(row@)) {
                None => r is Ok,
                Some(e) => r == Err::<(), Error>(e),
            },
    {
        if row.len() != self.columns.len() {
            return Err(Error::IncompleteRow);
        }
        let ghost view = row_view(row@);
        let mut seen: Vec<bool> = Vec::new();
        let mut n: usize = 0;
        while n < self.columns.len()
            invariant
                n <= self.columns@.len(),
                seen@.len() == n,
                forall|k: int| 0 <= k < n ==> !#[trigger] seen@[k],
            decreases self.columns@.len() - n,
        {
            seen.push(false);
            n += 1;
        }
        let mut i: usize = 0;
        while i < row.len()
            invariant
                i <= row@.len(),
                row@.len() == self.columns@.len(),
                view == row_view(row@),
                seen@.len() == self.columns@.len(),
                self@.row_fault(view) == self@.fault_from(view, i as int),
                forall|k: int|
                    0 <= k < seen@.len() ==> #[trigger] seen@[k] == exists|j: int|
                        0 <= j < i && #[trigger] view[j].0 == k,
            decreases row@.len() - i,
        {
            let id: ColumnId = row[i].0;
            assert(view[i as int] == (id, row@[i as int].1@));
            let def: &ColumnDef = match self.column(id) {
                Some(def) => def,
                None => {
                    return Err(Error::UnknownColumn { column: id });
                },
            };
            assert(self@.columns[id as int] == def@);
            let got: ColumnType = row[i].1.column_type();
            if got != def.ty {
                return Err(Error::TypeMismatch { column: id, expected: def.ty, got });
            }
            if seen[id as usize] {
                return Err(Error::IncompleteRow);
            }
            let ghost before = seen@;
            seen.set(id as usize, true);
            if let Value::Float(bits) = &row[i].1 {
                if is_nan64(*bits) {
                    return Err(Error::NaNRejected { column: id });
                }
            }
            proof {
                assert forall|k: int| 0 <= k < seen@.len() implies #[trigger] seen@[k]
                    == exists|j: int| 0 <= j < i + 1 && #[trigger] view[j].0 == k by {
                    if k == id {
                        assert(view[i as int].0 == k);
                    } else {
                        assert(seen@[k] == before[k]);
                        if exists|j: int| 0 <= j < i + 1 && #[trigger] view[j].0 == k {
                            let j = choose|j: int| 0 <= j < i + 1 && #[trigger] view[j].0 == k;
                            assert(j < i);
                        }
                    }
                }
            }
            i += 1;
        }
        Ok(())
    }
}

/// How a collection is configured.
#[derive(Debug, PartialEq)]
pub struct CollectionConfig {
    /// Stable identity, assigned once and never reused.
    pub id: u32,
    /// Name, unique in the catalog.
    pub name: String,
    /// How many rows the collection can hold.
    pub capacity: usize,
    /// The schema; its vector column holds the dimension.
    pub schema: Schema,
}

/// What a [`CollectionConfig`] holds.
pub struct ConfigView {
    /// Stable identity.
    pub id: u32,
    /// Name.
    pub name: Seq<char>,
    /// Capacity in rows.
    pub capacity: usize,
    /// The schema.
    pub schema: SchemaView,
}

impl View for CollectionConfig {
    type V = ConfigView;

    open spec fn view(&self) -> ConfigView {
        ConfigView {
            id: self.id,
            name: self.name@,
            capacity: self.capacity,
            schema: self.schema@,
        }
    }
}

impl Clone for CollectionConfig {
    fn clone(&self) -> (c: CollectionConfig)
        ensures
            c@ == self@,
    {
        CollectionConfig {
            id: self.id,
            name: self.name.clone(),
            capacity: self.capacity,
            schema: self.schema.clone(),
        }
    }
}

impl CollectionConfig {
    /// Whether two configurations are the same.
    pub fn same(&self, other: &CollectionConfig) -> (r: bool)
        ensures
            r == (self@ == other@),
    {
        self.id == other.id && self.name == other.name && self.capacity == other.capacity
            && self.schema.same(&other.schema)
    }
}

/// Column ids count the scalars without a gap, declaration ordinals rise with the
/// ids and name a scalar column of the declaration, whose name and type the
/// definition has.
pub proof fn law_numbering(cols: Seq<ColumnSpecView>, n: nat)
    requires
        n <= cols.len() <= u32::MAX,
    ensures
        scalars_in(cols, n).len() + vectors_in(cols, n) == n,
        forall|i: int|
            0 <= i < scalars_in(cols, n).len() ==> {
                let def = #[trigger] scalars_in(cols, n)[i];
                &&& def.id == i
                &&& def.ordinal < n
                &&& cols[def.ordinal as int] matches ColumnSpecView::Scalar { name, ty } && def.name
                    == name && def.ty == ty
            },
        forall|i: int, j: int|
            0 <= i < j < scalars_in(cols, n).len() ==> (#[trigger] scalars_in(cols, n)[i]).ordinal
                < (#[trigger] scalars_in(cols, n)[j]).ordinal,
    decreases n,
{
    if n > 0 {
        law_numbering(cols, (n - 1) as nat);
        let before = scalars_in(cols, (n - 1) as nat);
        let now = scalars_in(cols, n);
        assert forall|i: int| 0 <= i < now.len() implies {
            let def = #[trigger] now[i];
            &&& def.id == i
            &&& def.ordinal < n
            &&& cols[def.ordinal as int] matches ColumnSpecView::Scalar { name, ty } && def.name
                == name && def.ty == ty
        } by {
            if i < before.len() {
                assert(now[i] == before[i]);
            }
        }
        assert forall|i: int, j: int| 0 <= i < j < now.len() implies (#[trigger] now[i]).ordinal < (
        #[trigger] now[j]).ordinal by {
            assert(now[i] == before[i]);
            if j < before.len() {
                assert(now[j] == before[j]);
            }
        }
    }
}

/// Entries before `i` have no fault when the first fault is not among them.
proof fn lemma_no_fault(schema: SchemaView, row: Seq<(ColumnId, ValueView)>, i: int, k: int)
    requires
        0 <= i <= k < row.len(),
        schema.fault_from(row, i) is None,
    ensures
        schema.entry_fault(row, k) is None,
    decreases k - i,
{
    if i < k {
        lemma_no_fault(schema, row, i + 1, k);
    }
}

/// Nothing breaks when no entry does.
proof fn lemma_all_clear(schema: SchemaView, row: Seq<(ColumnId, ValueView)>, i: int)
    requires
        0 <= i <= row.len(),
        forall|k: int| i <= k < row.len() ==> #[trigger] schema.entry_fault(row, k) is None,
    ensures
        schema.fault_from(row, i) is None,
    decreases row.len() - i,
{
    if i < row.len() {
        assert(schema.entry_fault(row, i) is None);
        lemma_all_clear(schema, row, i + 1);
    }
}

/// Whether some entry of the row is for column `c`.
pub open spec fn holds_column(row: Seq<(ColumnId, ValueView)>, c: int) -> bool {
    exists|i: int| 0 <= i < row.len() && #[trigger] row[i].0 == c
}

/// An accepted row holds every column of the schema exactly once, each with a
/// value of the column's type that is not a NaN.
pub proof fn law_accepted_row_is_complete(schema: SchemaView, row: Seq<(ColumnId, ValueView)>)
    requires
        schema.row_ok(row),
    ensures
        forall|c: int| 0 <= c < schema.columns.len() ==> #[trigger] holds_column(row, c),
        forall|i: int, j: int|
            0 <= i < j < row.len() ==> (#[trigger] row[i]).0 != (#[trigger] row[j]).0,
        forall|i: int|
            0 <= i < row.len() ==> {
                let e = #[trigger] row[i];
                &&& e.0 < schema.columns.len()
                &&& e.1.ty() == schema.columns[e.0 as int].ty
                &&& !e.1.nan()
            },
{
    let n = row.len() as int;
    assert forall|i: int| 0 <= i < n implies {
        let e = #[trigger] row[i];
        &&& e.0 < schema.columns.len()
        &&& e.1.ty() == schema.columns[e.0 as int].ty
        &&& !e.1.nan()
    } by {
        lemma_no_fault(schema, row, 0, i);
    }
    assert forall|i: int, j: int| 0 <= i < j < n implies (#[trigger] row[i]).0 != (
    #[trigger] row[j]).0 by {
        lemma_no_fault(schema, row, 0, j);
    }
    let ids = Seq::new(row.len(), |i: int| row[i].0 as int);
    assert(ids.no_duplicates());
    ids.unique_seq_to_set();
    vstd::set_lib::lemma_int_range(0, n);
    assert(ids.to_set().subset_of(vstd::set_lib::set_int_range(0, n))) by {
        assert forall|x: int| ids.to_set().contains(x) implies vstd::set_lib::set_int_range(
            0,
            n,
        ).contains(x) by {
            let i = choose|i: int| 0 <= i < ids.len() && ids[i] == x;
            assert(row[i].0 < schema.columns.len());
        }
    }
    vstd::set_lib::lemma_subset_equality(ids.to_set(), vstd::set_lib::set_int_range(0, n));
    assert forall|c: int| 0 <= c < schema.columns.len() implies #[trigger] holds_column(row, c) by {
        assert(ids.to_set().contains(c));
        let i = choose|i: int| 0 <= i < ids.len() && ids[i] == c;
        assert(row[i].0 == c);
    }
}

/// A row is accepted in any order of its entries: what counts is that every
/// entry is known, typed, no NaN, and that no id comes twice.
pub proof fn law_row_order_is_free(schema: SchemaView, row: Seq<(ColumnId, ValueView)>)
    requires
        row.len() == schema.columns.len(),
        forall|i: int|
            0 <= i < row.len() ==> {
                let e = #[trigger] row[i];
                &&& e.0 < schema.columns.len()
                &&& e.1.ty() == schema.columns[e.0 as int].ty
                &&& !e.1.nan()
            },
        forall|i: int, j: int|
            0 <= i < j < row.len() ==> (#[trigger] row[i]).0 != (#[trigger] row[j]).0,
    ensures
        schema.row_ok(row),
{
    assert forall|k: int| 0 <= k < row.len() implies #[trigger] schema.entry_fault(
        row,
        k,
    ) is None by {
        assert(row[k].0 < schema.columns.len());
    }
    lemma_all_clear(schema, row, 0);
}

/// A schema holds what was declared: every scalar column once, under the place, name and
/// type of its declaration, with ids that count the scalars; and the vector column under
/// its own place, name and dimension.
pub proof fn law_schema_holds_the_declaration(cols: Seq<ColumnSpecView>, schema: Schema, i: int)
    requires
        cols.len() <= u32::MAX,
        built(cols, Ok(schema)),
        0 <= i < cols.len(),
    ensures
        schema@.columns.len() + 1 == cols.len(),
        match cols[i] {
            ColumnSpecView::Scalar { name, ty } => exists|j: int|
                {
                    &&& 0 <= j < schema@.columns.len()
                    &&& (#[trigger] schema@.columns[j]).id == j
                    &&& schema@.columns[j].ordinal == i
                    &&& schema@.columns[j].name == name
                    &&& schema@.columns[j].ty == ty
                },
            ColumnSpecView::Vector { name, dim } => {
                &&& schema@.vector.ordinal == i
                &&& schema@.vector.name == name
                &&& schema@.vector.dim == dim
            },
        },
{
    let n = cols.len();
    law_numbering(cols, n);
    match cols[i] {
        ColumnSpecView::Scalar { name, ty } => {
            let j = lemma_declared(cols, i, n);
            assert(schema@.columns[j].ordinal == i);
        },
        ColumnSpecView::Vector { .. } => {
            let vo = schema.vector.ordinal as int;
            if i != vo {
                lemma_two_vectors(cols, if i < vo {
                    i
                } else {
                    vo
                }, if i < vo {
                    vo
                } else {
                    i
                }, n);
            }
        },
    }
}

proof fn lemma_declared(cols: Seq<ColumnSpecView>, i: int, n: nat) -> (j: int)
    requires
        0 <= i < n <= cols.len() <= u32::MAX,
        cols[i] is Scalar,
    ensures
        0 <= j < scalars_in(cols, n).len(),
        scalars_in(cols, n)[j].ordinal == i,
        scalars_in(cols, n)[j].name == cols[i].label(),
        scalars_in(cols, n)[j].ty == cols[i]->Scalar_ty,
    decreases n,
{
    let before = scalars_in(cols, (n - 1) as nat);
    if i == n - 1 {
        before.len() as int
    } else {
        lemma_declared(cols, i, (n - 1) as nat)
    }
}

proof fn lemma_two_vectors(cols: Seq<ColumnSpecView>, a: int, b: int, n: nat)
    requires
        0 <= a < b < n <= cols.len(),
        cols[a] is Vector,
        cols[b] is Vector,
    ensures
        vectors_in(cols, n) >= 2,
    decreases n,
{
    if b < n - 1 {
        lemma_two_vectors(cols, a, b, (n - 1) as nat);
    } else {
        lemma_one_vector_at_least(cols, a, (n - 1) as nat);
    }
}

proof fn lemma_one_vector_at_least(cols: Seq<ColumnSpecView>, a: int, n: nat)
    requires
        0 <= a < n <= cols.len(),
        cols[a] is Vector,
    ensures
        vectors_in(cols, n) >= 1,
    decreases n,
{
    if a < n - 1 {
        lemma_one_vector_at_least(cols, a, (n - 1) as nat);
    }
}

/// The number of vector columns counts them.
pub proof fn law_vectors_are_counted(cols: Seq<ColumnSpecView>, n: nat)
    requires
        n <= cols.len(),
    ensures
        vectors_in(cols, n) == cols.take(n as int).filter(|c: ColumnSpecView| c is Vector).len(),
    decreases n,
{
    reveal(Seq::filter);
    if n > 0 {
        law_vectors_are_counted(cols, (n - 1) as nat);
        let now = cols.take(n as int);
        assert(now.drop_last() =~= cols.take(n - 1));
        assert(now.last() == cols[n - 1]);
    }
}

/// Where a column is stored: the vector column at its own place, and at any other the first
/// scalar column that was declared there, under its id; nowhere if there is none.
pub proof fn law_location(schema: SchemaView, ordinal: usize)
    ensures
        match schema.location(ordinal) {
            Some(ColumnLocation::Vector { dim }) => schema.vector.ordinal == ordinal && dim
                == schema.vector.dim,
            Some(ColumnLocation::Scalar(id)) => schema.vector.ordinal != ordinal && exists|i: int|
                {
                    &&& 0 <= i < schema.columns.len()
                    &&& (#[trigger] schema.columns[i]).ordinal == ordinal
                    &&& schema.columns[i].id == id
                    &&& forall|j: int|
                        0 <= j < i ==> (#[trigger] schema.columns[j]).ordinal != ordinal
                },
            None => schema.vector.ordinal != ordinal && forall|i: int|
                0 <= i < schema.columns.len() ==> (#[trigger] schema.columns[i]).ordinal != ordinal,
        },
{
    lemma_scalar_at(schema.columns, ordinal, 0);
}

proof fn lemma_scalar_at(columns: Seq<ColumnDefView>, ordinal: usize, from: int)
    requires
        0 <= from <= columns.len(),
    ensures
        match scalar_at(columns, ordinal, from) {
            Some(ColumnLocation::Scalar(id)) => exists|i: int|
                {
                    &&& from <= i < columns.len()
                    &&& (#[trigger] columns[i]).ordinal == ordinal
                    &&& columns[i].id == id
                    &&& forall|j: int| from <= j < i ==> (#[trigger] columns[j]).ordinal != ordinal
                },
            Some(_) => false,
            None => forall|i: int|
                from <= i < columns.len() ==> (#[trigger] columns[i]).ordinal != ordinal,
        },
    decreases columns.len() - from,
{
    if from < columns.len() {
        if columns[from].ordinal == ordinal {
            assert(columns[from].id == columns[from].id);
        } else {
            lemma_scalar_at(columns, ordinal, from + 1);
            if let Some(ColumnLocation::Scalar(id)) = scalar_at(columns, ordinal, from + 1) {
                let i = choose|i: int|
                    {
                        &&& from + 1 <= i < columns.len()
                        &&& (#[trigger] columns[i]).ordinal == ordinal
                        &&& columns[i].id == id
                        &&& forall|j: int|
                            from + 1 <= j < i ==> (#[trigger] columns[j]).ordinal != ordinal
                    };
                assert(columns[i].id == id);
            }
        }
    }
}

/// The id of a name is that of the first scalar column of that name.
pub proof fn law_id_of_name(schema: SchemaView, name: Seq<char>)
    ensures
        match schema.id_of(name) {
            Some(id) => exists|i: int|
                {
                    &&& 0 <= i < schema.columns.len()
                    &&& (#[trigger] schema.columns[i]).name == name
                    &&& schema.columns[i].id == id
                    &&& forall|j: int| 0 <= j < i ==> (#[trigger] schema.columns[j]).name != name
                },
            None => forall|i: int|
                0 <= i < schema.columns.len() ==> (#[trigger] schema.columns[i]).name != name,
        },
{
    lemma_scalar_named(schema.columns, name, 0);
}

proof fn lemma_scalar_named(columns: Seq<ColumnDefView>, name: Seq<char>, from: int)
    requires
        0 <= from <= columns.len(),
    ensures
        match scalar_named(columns, name, from) {
            Some(id) => exists|i: int|
                {
                    &&& from <= i < columns.len()
                    &&& (#[trigger] columns[i]).name == name
                    &&& columns[i].id == id
                    &&& forall|j: int| from <= j < i ==> (#[trigger] columns[j]).name != name
                },
            None => forall|i: int|
                from <= i < columns.len() ==> (#[trigger] columns[i]).name != name,
        },
    decreases columns.len() - from,
{
    if from < columns.len() {
        if columns[from].name == name {
            assert(columns[from].id == columns[from].id);
        } else {
            lemma_scalar_named(columns, name, from + 1);
            if let Some(id) = scalar_named(columns, name, from + 1) {
                let i = choose|i: int|
                    {
                        &&& from + 1 <= i < columns.len()
                        &&& (#[trigger] columns[i]).name == name
                        &&& columns[i].id == id
                        &&& forall|j: int|
                            from + 1 <= j < i ==> (#[trigger] columns[j]).name != name
                    };
                assert(columns[i].id == id);
            }
        }
    }
}

/// Comparisons are those of numbers.
pub proof fn law_comparisons(a: int, b: int)
    ensures
        RangeOp::Lt.holds(a, b) <==> a < b,
        RangeOp::Le.holds(a, b) <==> a <= b,
        RangeOp::Gt.holds(a, b) <==> a > b,
        RangeOp::Ge.holds(a, b) <==> a >= b,
{
}

/// The names of a schema are distinct exactly if no two columns, the vector among them,
/// have the same.
pub proof fn law_distinct_names(schema: SchemaView)
    ensures
        schema.distinct() <==> {
            &&& forall|i: int|
                0 <= i < schema.columns.len() ==> (#[trigger] schema.columns[i]).name
                    != schema.vector.name
            &&& forall|i: int, j: int|
                0 <= i < j < schema.columns.len() ==> (#[trigger] schema.columns[i]).name != (
                #[trigger] schema.columns[j]).name
        },
{
    if schema.distinct() {
        assert forall|i: int, j: int| 0 <= i < j < schema.columns.len() implies (
        #[trigger] schema.columns[i]).name != (#[trigger] schema.columns[j]).name by {
            assert(!schema.repeats(j));
        }
        assert forall|i: int| 0 <= i < schema.columns.len() implies (
        #[trigger] schema.columns[i]).name != schema.vector.name by {
            assert(!schema.repeats(i));
        }
    }
    if (forall|i: int|
        0 <= i < schema.columns.len() ==> (#[trigger] schema.columns[i]).name
            != schema.vector.name) && (forall|i: int, j: int|
        0 <= i < j < schema.columns.len() ==> (#[trigger] schema.columns[i]).name != (
        #[trigger] schema.columns[j]).name) {
        assert forall|j: int| 0 <= j < schema.columns.len() implies !#[trigger] schema.repeats(
            j,
        ) by {
            let _ = schema.columns[j];
        }
    }
}

/// Which columns repeat a name, and what a value's type is.
pub proof fn law_repeats_and_types(cols: Seq<ColumnSpecView>, j: int, value: ValueView)
    ensures
        repeats(cols, j) <==> exists|i: int|
            0 <= i < j && (#[trigger] cols[i]).label() == cols[j].label(),
        value is Int <==> value.ty() is Int,
        value is Float <==> value.ty() is Float,
        value is Text <==> value.ty() is Text,
{
    if repeats(cols, j) {
        let i = choose|i: int| 0 <= i < j && #[trigger] cols[i].label() == cols[j].label();
        let _ = cols[i];
    }
    if exists|i: int| 0 <= i < j && (#[trigger] cols[i]).label() == cols[j].label() {
        let i = choose|i: int| 0 <= i < j && (#[trigger] cols[i]).label() == cols[j].label();
        assert(cols[i].label() == cols[j].label());
    }
}

} // verus!
