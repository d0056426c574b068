//! Schema lowering: from the binder's terms to storage's, and back.
//!
//! The binder numbers every column, the vector included. Storage numbers the
//! scalars alone and keeps the vector apart. Both numberings come from the order
//! of the declaration, so nothing here sorts, drops or reorders a column.

use vstd::prelude::*;
use vstd::string::*;

use crate::error::Error;
use crate::metadata::common;
use crate::metadata::common::{
    ColumnSpec, ColumnSpecView, ColumnType as MetaType, Dim, Schema, SchemaView,
};
use crate::sql::{BoundSchema, ColumnSchema, ColumnSchemaView, ColumnType};
use crate::text;
use crate::text::{join2, join3, numeral, quoted_str};

verus! {

/// Why a bound schema could not be lowered.
#[derive(Debug)]
pub enum SchemaError {
    /// `VECTOR(0)`.
    ZeroDimension {
        /// The column.
        column: String,
    },
    /// A column whose ordinal is not its index.
    OrdinalMismatch {
        /// The column.
        column: String,
        /// Its index.
        position: usize,
        /// The ordinal it has instead.
        ordinal: usize,
    },
    /// Storage refuses the schema.
    Storage(Error),
}

impl SchemaError {
    /// The text shown to the user.
    pub open spec fn message(self) -> Seq<char> {
        match self {
            SchemaError::ZeroDimension { column } => "column "@ + text::debug_text(column@)
                + " declares VECTOR(0); dimension must be >= 1"@,
            SchemaError::OrdinalMismatch { column, position, ordinal } => "bound column "@
                + text::debug_text(column@) + " at position "@ + text::decimal(position as nat)
                + " claims ordinal "@ + text::decimal(ordinal as nat),
            SchemaError::Storage(e) => "invalid schema: "@ + e.message(),
        }
    }

    /// The text shown to the user.
    pub fn to_text(&self) -> (s: String)
        ensures
            s@ == self.message(),
    {
        match self {
            SchemaError::ZeroDimension { column } => join3(
                "column ",
                quoted_str(column.as_str()).as_str(),
                " declares VECTOR(0); dimension must be >= 1",
            ),
            SchemaError::OrdinalMismatch { column, position, ordinal } => {
                let mut s = join3(
                    "bound column ",
                    quoted_str(column.as_str()).as_str(),
                    " at position ",
                );
                s.append(numeral(*position as u64).as_str());
                s.append(" claims ordinal ");
                s.append(numeral(*ordinal as u64).as_str());
                s
            },
            SchemaError::Storage(e) => join2("invalid schema: ", e.to_text().as_str()),
        }
    }
}

/// The storage form of one column.
pub open spec fn lowered_column(column: ColumnSchemaView) -> ColumnSpecView {
    match column.ty {
        ColumnType::Vector(dim) => ColumnSpecView::Vector { name: column.name, dim: Dim::of(dim) },
        ColumnType::Int => ColumnSpecView::Scalar { name: column.name, ty: MetaType::Int },
        ColumnType::Float => ColumnSpecView::Scalar { name: column.name, ty: MetaType::Float },
        ColumnType::Text => ColumnSpecView::Scalar { name: column.name, ty: MetaType::Text },
    }
}

/// The storage form of a declaration, column by column.
pub open spec fn lowered(bound: Seq<ColumnSchemaView>) -> Seq<ColumnSpecView> {
    bound.map_values(|c: ColumnSchemaView| lowered_column(c))
}

/// A column that cannot be lowered: one whose ordinal is not its index, or a
/// vector without a dimension.
pub open spec fn faulty(bound: Seq<ColumnSchemaView>, i: int) -> bool {
    bound[i].ordinal != i || bound[i].ty == ColumnType::Vector(0)
}

/// What lowering gives: the first faulty column is the error; without one,
/// storage builds or refuses the schema.
pub open spec fn lowers(
    bound: Seq<ColumnSchemaView>,
    r: Result<Schema, SchemaError>,
) -> bool {
    match r {
        Err(SchemaError::OrdinalMismatch { column, position, ordinal }) => {
            &&& position < bound.len()
            &&& forall|i: int| 0 <= i < position ==> !#[trigger] faulty(bound, i)
            &&& ordinal == bound[position as int].ordinal
            &&& ordinal != position
            &&& column@ == bound[position as int].name
        },
        Err(SchemaError::ZeroDimension { column }) => exists|p: int|
            0 <= p < bound.len() && #[trigger] faulty(bound, p) && bound[p].ordinal == p
                && column@ == bound[p].name && (forall|i: int|
                0 <= i < p ==> !#[trigger] faulty(bound, i)),
        Err(SchemaError::Storage(e)) => {
            &&& forall|i: int| 0 <= i < bound.len() ==> !#[trigger] faulty(bound, i)
            &&& common::built(lowered(bound), Err(e))
        },
        Ok(s) => {
            &&& forall|i: int| 0 <= i < bound.len() ==> !#[trigger] faulty(bound, i)
            &&& common::built(lowered(bound), Ok(s))
        },
    }
}

/// Lowers a bound schema to its storage form, in declaration order.
pub fn to_metadata_schema(bound: &BoundSchema) -> (r: Result<Schema, SchemaError>)
    ensures
        lowers(bound@, r),
{
    let mut specs: Vec<ColumnSpec> = Vec::new();
    let mut position: usize = 0;
    while position < bound.columns.len()
        invariant
            position <= bound.columns@.len(),
            forall|i: int| 0 <= i < position ==> !#[trigger] faulty(bound@, i),
            common::specs_view(specs@) == lowered(bound@).take(position as int),
            specs@.len() == position,
        decreases bound.columns@.len() - position,
    {
        let column: &ColumnSchema = &bound.columns[position];
        assert(bound@[position as int] == column@);
        if column.ordinal != position {
            return Err(
                SchemaError::OrdinalMismatch {
                    column: column.name.clone(),
                    position,
                    ordinal: column.ordinal,
                },
            );
        }
        let spec: ColumnSpec = match column.ty {
            ColumnType::Vector(dim) => match Dim::new(dim) {
                Some(dim) => ColumnSpec::Vector { name: column.name.clone(), dim },
                None => {
                    assert(faulty(bound@, position as int));
                    return Err(SchemaError::ZeroDimension { column: column.name.clone() });
                },
            },
            ColumnType::Int => ColumnSpec::Scalar {
                name: column.name.clone(),
                ty: MetaType::Int,
            },
            ColumnType::Float => ColumnSpec::Scalar {
                name: column.name.clone(),
                ty: MetaType::Float,
            },
            ColumnType::Text => ColumnSpec::Scalar {
                name: column.name.clone(),
                ty: MetaType::Text,
            },
        };
        let ghost before = specs@;
        specs.push(spec);
        proof {
            assert(common::specs_view(specs@) =~= common::specs_view(before).push(spec@));
            assert(lowered(bound@).take(position + 1) =~= lowered(bound@).take(
                position as int,
            ).push(lowered(bound@)[position as int]));
        }
        position += 1;
    }
    proof {
        assert(lowered(bound@).take(position as int) =~= lowered(bound@));
    }
    match Schema::from_columns(specs) {
        Ok(s) => Ok(s),
        Err(e) => Err(SchemaError::Storage(e)),
    }
}

/// The binder's type of a scalar column.
pub open spec fn raised_type(ty: MetaType) -> ColumnType {
    match ty {
        MetaType::Int => ColumnType::Int,
        MetaType::Float => ColumnType::Float,
        MetaType::Text => ColumnType::Text,
    }
}

/// Where a column of the given ordinal goes among columns in ordinal order:
/// behind every one that is not greater.
pub open spec fn seat(columns: Seq<ColumnSchemaView>, ordinal: usize) -> int
    decreases columns.len(),
{
    if columns.len() == 0 {
        0
    } else if columns.last().ordinal <= ordinal {
        columns.len() as int
    } else {
        seat(columns.drop_last(), ordinal)
    }
}

/// The vector column in the binder's terms.
pub open spec fn raised_vector(schema: SchemaView) -> ColumnSchemaView {
    ColumnSchemaView {
        name: schema.vector.name,
        ty: ColumnType::Vector(schema.vector.dim.spec_get()),
        ordinal: schema.vector.ordinal,
        is_vector: true,
    }
}

/// A scalar column in the binder's terms.
pub open spec fn raised_scalar(def: common::ColumnDefView) -> ColumnSchemaView {
    ColumnSchemaView {
        name: def.name,
        ty: raised_type(def.ty),
        ordinal: def.ordinal,
        is_vector: false,
    }
}

/// The vector and the first `n` scalars in ordinal order; of equal ordinals the
/// vector comes first, then the scalars as they stand.
pub open spec fn raised(schema: SchemaView, n: nat) -> Seq<ColumnSchemaView>
    decreases n,
{
    if n == 0 {
        seq![raised_vector(schema)]
    } else {
        let before = raised(schema, (n - 1) as nat);
        let column = raised_scalar(schema.columns[n - 1]);
        before.insert(seat(before, column.ordinal), column)
    }
}

proof fn lemma_seat(columns: Seq<ColumnSchemaView>, ordinal: usize)
    ensures
        0 <= seat(columns, ordinal) <= columns.len(),
    decreases columns.len(),
{
    if columns.len() > 0 && columns.last().ordinal > ordinal {
        lemma_seat(columns.drop_last(), ordinal);
    }
}

/// The storage schema in the binder's terms: every column, the vector among them,
/// by declaration ordinal.
pub fn bind_schema(schema: &Schema) -> (b: BoundSchema)
    ensures
        b@ == raised(schema@, schema@.columns.len()),
{
    let mut columns: Vec<ColumnSchema> = Vec::new();
    columns.push(
        ColumnSchema {
            name: schema.vector.name.clone(),
            ty: ColumnType::Vector(schema.vector.dim.get()),
            ordinal: schema.vector.ordinal,
            is_vector: true,
        },
    );
    proof {
        assert(columns@.map_values(|c: ColumnSchema| c@) =~= raised(schema@, 0));
    }
    let mut i: usize = 0;
    while i < schema.columns.len()
        invariant
            i <= schema.columns@.len(),
            columns@.map_values(|c: ColumnSchema| c@) == raised(schema@, i as nat),
        decreases schema.columns@.len() - i,
    {
        let ty: ColumnType = match schema.columns[i].ty {
            MetaType::Int => ColumnType::Int,
            MetaType::Float => ColumnType::Float,
            MetaType::Text => ColumnType::Text,
        };
        let ordinal: usize = schema.columns[i].ordinal;
        let column = ColumnSchema {
            name: schema.columns[i].name.clone(),
            ty,
            ordinal,
            is_vector: false,
        };
        let ghost view = columns@.map_values(|c: ColumnSchema| c@);
        let ghost before = columns@;
        let mut at: usize = columns.len();
        proof {
            assert(view.take(at as int) =~= view);
        }
        while at > 0 && columns[at - 1].ordinal > ordinal
            invariant
                at <= columns@.len(),
                columns@ == before,
                view == columns@.map_values(|c: ColumnSchema| c@),
                seat(view, ordinal) == seat(view.take(at as int), ordinal),
            decreases at,
        {
            proof {
                assert(view.take(at as int).last() == columns@[at - 1]@);
                assert(view.take(at as int).drop_last() =~= view.take(at - 1));
            }
            at -= 1;
        }
        proof {
            if at > 0 {
                assert(view.take(at as int).last() == columns@[at - 1]@);
            }
            assert(seat(view, ordinal) == at);
            assert(schema@.columns[i as int] == schema.columns@[i as int]@);
        }
        columns.insert(at, column);
        proof {
            assert(columns@.map_values(|c: ColumnSchema| c@) =~= view.insert(
                at as int,
                column@,
            ));
        }
        i += 1;
    }
    BoundSchema { columns }
}

/// The schema holds what was declared: of the column declared at `i`, the vector column
/// has the name, the dimension and the place `i`, if it is a vector, and otherwise one
/// scalar column has the name, the type and the place `i`. There are no other columns,
/// and the scalars are numbered by their places.
pub open spec fn is_declared(bound: Seq<ColumnSchemaView>, schema: SchemaView) -> bool {
    &&& schema.columns.len() + 1 == bound.len()
    &&& forall|i: int|
        0 <= i < bound.len() ==> match (#[trigger] bound[i]).ty {
            ColumnType::Vector(dim) => {
                &&& schema.vector.ordinal == i
                &&& schema.vector.name == bound[i].name
                &&& schema.vector.dim.spec_get() == dim
            },
            ty => exists|j: int|
                {
                    &&& 0 <= j < schema.columns.len()
                    &&& (#[trigger] schema.columns[j]).ordinal == i
                    &&& schema.columns[j].name == bound[i].name
                    &&& match ty {
                        ColumnType::Int => schema.columns[j].ty is Int,
                        ColumnType::Float => schema.columns[j].ty is Float,
                        _ => schema.columns[j].ty is Text,
                    }
                },
        }
    &&& forall|j: int| 0 <= j < schema.columns.len() ==> (#[trigger] schema.columns[j]).id == j
    &&& forall|i: int, j: int|
        0 <= i < j < schema.columns.len() ==> (#[trigger] schema.columns[i]).ordinal < (
        #[trigger] schema.columns[j]).ordinal
}

/// A schema that a declaration is lowered to holds what was declared.
pub proof fn law_lowering_keeps_the_declaration(bound: Seq<ColumnSchemaView>, schema: Schema)
    requires
        lowers(bound, Ok(schema)),
    ensures
        bound.len() <= u32::MAX ==> is_declared(bound, schema@),
{
    broadcast use Dim::lemma_of;

    let specs = lowered(bound);
    let n = bound.len();
    if n <= u32::MAX {
        common::law_numbering(specs, n);
        assert forall|i: int| 0 <= i < n implies match (#[trigger] bound[i]).ty {
            ColumnType::Vector(dim) => {
                &&& schema@.vector.ordinal == i
                &&& schema@.vector.name == bound[i].name
                &&& schema@.vector.dim.spec_get() == dim
            },
            ty => exists|j: int|
                {
                    &&& 0 <= j < schema@.columns.len()
                    &&& (#[trigger] schema@.columns[j]).ordinal == i
                    &&& schema@.columns[j].name == bound[i].name
                    &&& match ty {
                        ColumnType::Int => schema@.columns[j].ty is Int,
                        ColumnType::Float => schema@.columns[j].ty is Float,
                        _ => schema@.columns[j].ty is Text,
                    }
                },
        } by {
            let vo = schema.vector.ordinal as int;
            assert(specs[i] == lowered_column(bound[i]));
            assert(!faulty(bound, i));
            if bound[i].ty is Vector {
                lemma_one_vector(specs, vo, i);
            } else {
                lemma_scalar_listed(specs, i, n);
            }
        }
    }
}

/// A scalar declared at `i` is among the scalars of the first `n` columns.
proof fn lemma_scalar_listed(specs: Seq<ColumnSpecView>, i: int, n: nat)
    requires
        0 <= i < n <= specs.len() <= u32::MAX,
        specs[i] is Scalar,
    ensures
        exists|j: int|
            0 <= j < common::scalars_in(specs, n).len() && (#[trigger] common::scalars_in(
                specs,
                n,
            )[j]).ordinal == i && common::scalars_in(specs, n)[j].name == specs[i].label()
                && common::scalars_in(specs, n)[j].ty == specs[i]->Scalar_ty,
    decreases n,
{
    let before = common::scalars_in(specs, (n - 1) as nat);
    let now = common::scalars_in(specs, n);
    if i == n - 1 {
        assert(now[before.len() as int].ordinal == i);
    } else {
        lemma_scalar_listed(specs, i, (n - 1) as nat);
        let j = choose|j: int|
            0 <= j < before.len() && (#[trigger] before[j]).ordinal == i && before[j].name
                == specs[i].label() && before[j].ty == specs[i]->Scalar_ty;
        assert(now[j] == before[j]);
    }
}

/// A bound schema whose vector flags agree with the types.
pub open spec fn flagged(bound: Seq<ColumnSchemaView>) -> bool {
    forall|i: int|
        0 <= i < bound.len() ==> (#[trigger] bound[i]).is_vector == (bound[i].ty is Vector)
}

/// Lowering a schema and raising it again gives the schema back: the same
/// columns, types and order.
pub proof fn law_lower_then_raise(bound: Seq<ColumnSchemaView>, schema: Schema)
    requires
        lowers(bound, Ok(schema)),
        flagged(bound),
        bound.len() <= usize::MAX,
    ensures
        raised(schema@, schema@.columns.len()) == bound,
{
    let specs = lowered(bound);
    let n = bound.len();
    lemma_raise_prefix(bound, schema, n);
    assert(bound.take(n as int) =~= bound);
    assert(schema@.columns.len() == common::scalars_in(specs, n).len());
}

/// After the scalars among the first `n` declared columns, the raised columns are
/// the declared ones, with the vector behind them if it comes later.
proof fn lemma_raise_prefix(bound: Seq<ColumnSchemaView>, schema: Schema, n: nat)
    requires
        lowers(bound, Ok(schema)),
        flagged(bound),
        bound.len() <= usize::MAX,
        n <= bound.len(),
    ensures
        common::scalars_in(lowered(bound), n).len() <= schema@.columns.len(),
        raised(schema@, common::scalars_in(lowered(bound), n).len()) == if schema.vector.ordinal
            < n {
            bound.take(n as int)
        } else {
            bound.take(n as int).push(raised_vector(schema@))
        },
    decreases n,
{
    broadcast use Dim::lemma_of;

    let specs = lowered(bound);
    let vo = schema.vector.ordinal as int;
    lemma_scalars_prefix(specs, n, specs.len());
    assert(specs[vo] == lowered_column(bound[vo]));
    assert(!faulty(bound, vo));
    assert(bound[vo] == raised_vector(schema@));
    if n == 0 {
        assert(bound.take(0).push(raised_vector(schema@)) =~= seq![raised_vector(schema@)]);
    } else {
        let m = (n - 1) as nat;
        lemma_raise_prefix(bound, schema, m);
        let before = raised(schema@, common::scalars_in(specs, m).len());
        assert(specs[n - 1] == lowered_column(bound[n - 1]));
        assert(!faulty(bound, n - 1));
        assert(bound.take(n as int) =~= bound.take(m as int).push(bound[n - 1]));
        if n - 1 == vo {
            lemma_one_vector(specs, vo, n - 1);
        } else {
            lemma_one_vector(specs, vo, n - 1);
            let k = common::scalars_in(specs, n).len();
            let def = common::scalars_in(specs, n)[k - 1];
            assert(schema@.columns[k - 1] == def);
            let column = raised_scalar(def);
            assert(column == bound[n - 1]);
            if vo < m {
                if m > 0 {
                    assert(!faulty(bound, m - 1));
                    assert(before.last() == bound[m - 1]);
                }
                assert(seat(before, column.ordinal) == m);
                assert(before.insert(m as int, column) =~= bound.take(n as int));
            } else {
                assert(before.drop_last() =~= bound.take(m as int));
                if m > 0 {
                    assert(!faulty(bound, m - 1));
                    assert(bound.take(m as int).last() == bound[m - 1]);
                }
                assert(seat(bound.take(m as int), column.ordinal) == m);
                assert(seat(before, column.ordinal) == m);
                assert(before.insert(m as int, column) =~= bound.take(n as int).push(
                    raised_vector(schema@),
                ));
            }
        }
    }
}

/// With one vector column, a column is the vector exactly if it stands at its
/// place.
proof fn lemma_one_vector(specs: Seq<ColumnSpecView>, vo: int, i: int)
    requires
        common::vectors_in(specs, specs.len()) == 1,
        0 <= vo < specs.len(),
        specs[vo] is Vector,
        0 <= i < specs.len(),
    ensures
        specs[i] is Vector <==> i == vo,
{
    if i != vo && specs[i] is Vector {
        let (a, b) = if i < vo {
            (i, vo)
        } else {
            (vo, i)
        };
        lemma_vector_counted(specs, (a + 1) as nat, a);
        lemma_vectors_rise(specs, (a + 1) as nat, b as nat);
        lemma_vectors_rise(specs, (b + 1) as nat, specs.len());
    }
}

proof fn lemma_vector_counted(specs: Seq<ColumnSpecView>, n: nat, i: int)
    requires
        n == i + 1,
        0 <= i < specs.len(),
        specs[i] is Vector,
    ensures
        common::vectors_in(specs, n) >= 1,
{
}

proof fn lemma_vectors_rise(specs: Seq<ColumnSpecView>, m: nat, n: nat)
    requires
        m <= n <= specs.len(),
    ensures
        common::vectors_in(specs, m) <= common::vectors_in(specs, n),
    decreases n - m,
{
    if m < n {
        lemma_vectors_rise(specs, m, (n - 1) as nat);
    }
}

/// The scalars of a prefix are a prefix of the scalars.
proof fn lemma_scalars_prefix(specs: Seq<ColumnSpecView>, m: nat, n: nat)
    requires
        m <= n <= specs.len(),
    ensures
        common::scalars_in(specs, m).len() <= common::scalars_in(specs, n).len(),
        forall|i: int|
            0 <= i < common::scalars_in(specs, m).len() ==> #[trigger] common::scalars_in(
                specs,
                m,
            )[i] == common::scalars_in(specs, n)[i],
    decreases n - m,
{
    if m < n {
        lemma_scalars_prefix(specs, m, (n - 1) as nat);
    }
}

/// Column ordinals rise or stay.
pub open spec fn in_order(columns: Seq<ColumnSchemaView>) -> bool {
    forall|i: int, j: int|
        0 <= i < j < columns.len() ==> (#[trigger] columns[i]).ordinal <= (
        #[trigger] columns[j]).ordinal
}

/// The columns of a schema in the binder's terms: each keeps its name and its place, an
/// integer column is an integer column, a float column a float column, a text column a text
/// column, and the vector keeps its dimension.
pub proof fn law_raised_columns(schema: SchemaView, def: common::ColumnDefView)
    ensures
        ({
            let scalar = raised_scalar(def);
            let vector = raised_vector(schema);
            &&& scalar.name == def.name && scalar.ordinal == def.ordinal && !scalar.is_vector
            &&& def.ty is Int ==> scalar.ty is Int
            &&& def.ty is Float ==> scalar.ty is Float
            &&& def.ty is Text ==> scalar.ty is Text
            &&& vector.name == schema.vector.name && vector.ordinal == schema.vector.ordinal
            &&& vector.is_vector
            &&& vector.ty == ColumnType::Vector(schema.vector.dim.spec_get())
        }),
{
}

/// A schema in the binder's terms has the vector and every scalar, each as often as the
/// schema does, in the order of their places.
pub proof fn law_raised_in_order(schema: SchemaView, n: nat)
    requires
        n <= schema.columns.len(),
    ensures
        in_order(raised(schema, n)),
        raised(schema, n).len() == n + 1,
        raised(schema, n).to_multiset() == schema.columns.take(n as int).map_values(
            |def: common::ColumnDefView| raised_scalar(def),
        ).push(raised_vector(schema)).to_multiset(),
    decreases n,
{
    broadcast use vstd::seq_lib::group_to_multiset_ensures;

    let raise = |def: common::ColumnDefView| raised_scalar(def);
    let stored = schema.columns.take(n as int).map_values(raise);
    if n == 0 {
        assert(stored.push(raised_vector(schema)) =~= raised(schema, 0));
    } else {
        law_raised_in_order(schema, (n - 1) as nat);
        let before = raised(schema, (n - 1) as nat);
        let column = raised_scalar(schema.columns[n - 1]);
        let at = seat(before, column.ordinal);
        lemma_seat_parts(before, column.ordinal);
        let now = before.insert(at, column);
        assert forall|i: int, j: int| 0 <= i < j < now.len() implies (#[trigger] now[i]).ordinal
            <= (#[trigger] now[j]).ordinal by {
            if i < at {
                assert(now[i] == before[i]);
            } else if i > at {
                assert(now[i] == before[i - 1]);
            }
            if j < at {
                assert(now[j] == before[j]);
            } else if j > at {
                assert(now[j] == before[j - 1]);
            }
        }
        let earlier = schema.columns.take(n - 1).map_values(raise);
        assert(stored =~= earlier.push(column));
        assert(now.to_multiset() =~= stored.push(raised_vector(schema)).to_multiset());
    }
}

proof fn lemma_seat_parts(columns: Seq<ColumnSchemaView>, ordinal: usize)
    requires
        in_order(columns),
    ensures
        0 <= seat(columns, ordinal) <= columns.len(),
        forall|i: int|
            0 <= i < seat(columns, ordinal) ==> (#[trigger] columns[i]).ordinal <= ordinal,
        forall|i: int|
            seat(columns, ordinal) <= i < columns.len() ==> (#[trigger] columns[i]).ordinal
                > ordinal,
    decreases columns.len(),
{
    if columns.len() > 0 && columns.last().ordinal > ordinal {
        let rest = columns.drop_last();
        assert(in_order(rest));
        lemma_seat_parts(rest, ordinal);
        assert forall|i: int| 0 <= i < columns.len() implies ((#[trigger] columns[i]).ordinal
            <= ordinal <==> i < seat(columns, ordinal)) by {
            if i < rest.len() {
                assert(rest[i] == columns[i]);
            }
        }
    }
}

/// A declaration is lowered only if every column stands where it says it does and no vector
/// has dimension 0. One that is refused for a column has it, and none before it is wrong.
pub proof fn law_refused_declarations(
    bound: Seq<ColumnSchemaView>,
    r: Result<Schema, SchemaError>,
)
    requires
        lowers(bound, r),
    ensures
        r is Ok || (r matches Err(SchemaError::Storage(_))) ==> forall|i: int|
            0 <= i < bound.len() ==> (#[trigger] bound[i]).ordinal == i && !(bound[i].ty matches ColumnType::Vector(
                d,
            ) && d == 0),
        r matches Err(SchemaError::OrdinalMismatch { column, position, ordinal }) ==> {
            &&& position < bound.len()
            &&& bound[position as int].ordinal == ordinal
            &&& ordinal != position
            &&& bound[position as int].name == column@
            &&& forall|i: int|
                0 <= i < position ==> (#[trigger] bound[i]).ordinal == i
                    && !(bound[i].ty matches ColumnType::Vector(d) && d == 0)
        },
        r matches Err(SchemaError::ZeroDimension { column }) ==> exists|p: int|
            {
                &&& 0 <= p < bound.len()
                &&& (#[trigger] bound[p]).name == column@
                &&& bound[p].ordinal == p
                &&& bound[p].ty == ColumnType::Vector(0)
                &&& forall|i: int|
                    0 <= i < p ==> (#[trigger] bound[i]).ordinal == i
                        && !(bound[i].ty matches ColumnType::Vector(d) && d == 0)
            },
{
    match r {
        Err(SchemaError::OrdinalMismatch { position, .. }) => {
            assert forall|i: int| 0 <= i < position implies (#[trigger] bound[i]).ordinal == i
                && !(bound[i].ty matches ColumnType::Vector(d) && d == 0) by {
                assert(!faulty(bound, i));
            }
        },
        Err(SchemaError::ZeroDimension { column }) => {
            let p = choose|p: int|
                0 <= p < bound.len() && #[trigger] faulty(bound, p) && bound[p].ordinal == p
                    && column@ == bound[p].name && (forall|i: int|
                    0 <= i < p ==> !#[trigger] faulty(bound, i));
            assert forall|i: int| 0 <= i < p implies (#[trigger] bound[i]).ordinal == i
                && !(bound[i].ty matches ColumnType::Vector(d) && d == 0) by {
                assert(!faulty(bound, i));
            }
            assert(bound[p].name == column@);
        },
        _ => {
            assert forall|i: int| 0 <= i < bound.len() implies (#[trigger] bound[i]).ordinal == i
                && !(bound[i].ty matches ColumnType::Vector(d) && d == 0) by {
                assert(!faulty(bound, i));
            }
        },
    }
}

} // verus!
