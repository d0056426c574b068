//! The lowering pass from a resolved plan to a program.
//!
//! The plan speaks of declaration ordinals, in which the vector counts. Storage
//! knows scalar column ids and the flat index. Every column goes through
//! [`Schema::locate`]; no column id is computed here.
//!
//! A scan owns the loop, and the code of the projections above it lands inside
//! that loop: the code of the nearest one first.

use vstd::prelude::*;

use crate::compiler::bytecode::{Addr, Cursor, Op, Program, Reg, PLACEHOLDER};
use crate::compiler::bytecode;
use crate::compiler::constants::{Const, ConstId, ConstPool, ConstView};
use crate::compiler::schema;
use crate::compiler::schema::{to_metadata_schema, SchemaError};
use crate::metadata::common::{ColumnLocation, DeclarationOrdinal, Schema, SchemaView};
use crate::sql::{Literal, LogicalPlan, Project, TypedValue};
use crate::text::join2;

verus! {

/// Why a plan could not be compiled.
#[derive(Debug)]
pub enum CompileError {
    /// The schema of a new collection could not be lowered.
    Schema(SchemaError),
    /// A statement against an existing collection came without its schema.
    MissingSchema,
}

impl CompileError {
    /// The text shown to the user.
    pub open spec fn message(self) -> Seq<char> {
        match self {
            CompileError::Schema(e) => "cannot compile CREATE COLLECTION: "@ + e.message(),
            CompileError::MissingSchema => "no catalog schema for the target collection"@,
        }
    }

    /// The text shown to the user.
    pub fn to_text(&self) -> (s: String)
        ensures
            s@ == self.message(),
    {
        match self {
            CompileError::Schema(e) => join2(
                "cannot compile CREATE COLLECTION: ",
                e.to_text().as_str(),
            ),
            CompileError::MissingSchema => {
                "no catalog schema for the target collection".to_owned()
            },
        }
    }
}

/// The statement at the bottom of a plan.
pub open spec fn leaf(plan: LogicalPlan) -> LogicalPlan
    decreases plan,
{
    match plan {
        LogicalPlan::Project(p) => leaf(*p.input),
        _ => plan,
    }
}

/// The projections of a plan, the nearest to the bottom first, before those
/// further out.
pub open spec fn projections(plan: LogicalPlan, outer: Seq<Project>) -> Seq<Project>
    decreases plan,
{
    match plan {
        LogicalPlan::Project(p) => projections(*p.input, seq![p] + outer),
        _ => outer,
    }
}

/// The instruction that loads column `i` of a projection into a register: none
/// for an embedding that was not asked for.
pub open spec fn load(schema: SchemaView, p: Project, i: int, reg: int) -> Option<Op> {
    match schema.location(p.columns@[i].ordinal) {
        Some(ColumnLocation::Scalar(id)) => Some(
            Op::Column { cur: Cursor(0), col: id, dst: Reg(reg as u32) },
        ),
        Some(ColumnLocation::Vector { .. }) => if p.include_vector {
            Some(Op::VectorFetch { cur: Cursor(0), dst: Reg(reg as u32) })
        } else {
            None
        },
        None => None,
    }
}

/// The loads of the columns from `i` on, into registers from `reg` on.
pub open spec fn loads(schema: SchemaView, p: Project, i: int, reg: int) -> Seq<Op>
    decreases p.columns@.len() - i,
{
    if i < 0 || i >= p.columns@.len() {
        Seq::empty()
    } else {
        match load(schema, p, i, reg) {
            Some(op) => seq![op] + loads(schema, p, i + 1, reg + 1),
            None => loads(schema, p, i + 1, reg),
        }
    }
}

/// The code of one projection: its loads, then the row that they make up.
pub open spec fn row_code(schema: SchemaView, p: Project, reg: int) -> Seq<Op> {
    let l = loads(schema, p, 0, reg);
    l.push(Op::ResultRow { start: Reg(reg as u32), count: l.len() as u32 })
}

/// The code of the projections from `k` on, with registers from `reg` on.
pub open spec fn body_code(schema: SchemaView, ps: Seq<Project>, k: int, reg: int) -> Seq<Op>
    decreases ps.len() - k,
{
    if k < 0 || k >= ps.len() {
        Seq::empty()
    } else {
        let code = row_code(schema, ps[k], reg);
        code + body_code(schema, ps, k + 1, reg + code.len() - 1)
    }
}

/// How many columns the projections from `k` on have, with one more for each.
pub open spec fn weight(ps: Seq<Project>, k: int) -> nat
    decreases ps.len() - k,
{
    if k < 0 || k >= ps.len() {
        0
    } else {
        ps[k].columns@.len() + 1 + weight(ps, k + 1)
    }
}

/// The pooled constant that a literal needs, if any.
pub open spec fn pooled(value: Literal) -> Option<ConstView> {
    match value {
        Literal::Vector(v) => Some(ConstView::Vector(v@)),
        Literal::Str(s) => Some(ConstView::Str(s@)),
        _ => None,
    }
}

/// The constants of the first `n` values of a row.
pub open spec fn pool_of(row: Seq<TypedValue>, n: nat) -> Seq<ConstView>
    decreases n,
{
    if n == 0 {
        Seq::empty()
    } else {
        let before = pool_of(row, (n - 1) as nat);
        match pooled(row[n - 1].value) {
            Some(c) => before.push(c),
            None => before,
        }
    }
}

/// The instruction that loads value `i` of a row into register `i`.
pub open spec fn value_load(row: Seq<TypedValue>, i: int) -> Op {
    let dst = Reg(i as u32);
    let id = ConstId(pool_of(row, i as nat).len() as u32);
    match row[i].value {
        Literal::Vector(_) => Op::VectorConst { id, dst },
        Literal::Str(_) => Op::String { id, dst },
        Literal::Int(n) => Op::Integer { value: n, dst },
        Literal::Float(f) => Op::Real { value: f, dst },
    }
}

/// The program of a read: open, seek, the code of the projections as the loop
/// body, next, stop. An empty collection jumps from the seek to the stop.
pub open spec fn is_read(
    program: Program,
    collection: Seq<char>,
    schema: SchemaView,
    ps: Seq<Project>,
) -> bool {
    let body = body_code(schema, ps, 0, 0);
    let ops = program.ops@;
    &&& ops.len() == body.len() + 4
    &&& ops[0] matches Op::OpenRead { cur, collection: c, filter } && cur == Cursor(0) && c@
        == collection && filter is None
    &&& ops[1] == (Op::SeekFirst { cur: Cursor(0), end: Addr((body.len() + 3) as u32) })
    &&& ops.subrange(2, 2 + body.len() as int) == body
    &&& ops[2 + body.len() as int] == (Op::Next { cur: Cursor(0), body: Addr(2) })
    &&& ops[3 + body.len() as int] == Op::Halt
    &&& program.consts@ == Seq::<ConstView>::empty()
    &&& program.n_regs == body.len() - ps.len()
    &&& program.n_cursors == 1
}

/// The program of a write: open, one load per value, the record of them, the
/// write, stop.
pub open spec fn is_write(program: Program, collection: Seq<char>, row: Seq<TypedValue>) -> bool {
    let n = row.len() as int;
    let ops = program.ops@;
    &&& ops.len() == n + 4
    &&& ops[0] matches Op::OpenWrite { cur, collection: c } && cur == Cursor(0) && c@ == collection
    &&& forall|i: int| 0 <= i < n ==> #[trigger] ops[i + 1] == value_load(row, i)
    &&& ops[n + 1] == (Op::MakeRecord { start: Reg(0), count: n as u32, dst: Reg(n as u32) })
    &&& ops[n + 2] == (Op::Insert { cur: Cursor(0), rec: Reg(n as u32) })
    &&& ops[n + 3] == Op::Halt
    &&& program.consts@ == pool_of(row, row.len())
    &&& program.n_regs == n + 1
    &&& program.n_cursors == 1
}

/// The program of a new collection: one instruction and a stop, with the lowered
/// schema as its only constant.
pub open spec fn is_create(
    program: Program,
    name: Seq<char>,
    capacity: u64,
    schema: SchemaView,
) -> bool {
    let ops = program.ops@;
    &&& ops.len() == 2
    &&& ops[0] matches Op::CreateCollection { name: n, schema: s, capacity: c } && n@ == name && s
        == ConstId(0) && c == capacity
    &&& ops[1] == Op::Halt
    &&& program.consts@ == seq![ConstView::Schema(schema)]
    &&& program.n_regs == 0
    &&& program.n_cursors == 0
}

/// Every projected column is one of the schema.
pub open spec fn resolved(schema: SchemaView, ps: Seq<Project>) -> bool {
    forall|k: int, i: int|
        0 <= k < ps.len() && 0 <= i < ps[k].columns@.len() ==> (#[trigger] schema.location(
            #[trigger] ps[k].columns@[i].ordinal,
        )) is Some
}

/// What a plan must satisfy beside its schema: a statement that is resolved and
/// whose code an address can count.
pub open spec fn compilable(plan: LogicalPlan, schema: Option<SchemaView>) -> bool {
    &&& leaf(plan) is CreateCollection ==> plan is CreateCollection
    &&& leaf(plan) is Scan && schema is Some ==> resolved(
        schema->0,
        projections(plan, Seq::empty()),
    )
    &&& weight(projections(plan, Seq::empty()), 0) + 4 < u32::MAX
    &&& leaf(plan) matches LogicalPlan::Insert(insert) ==> insert.row@.len() + 4 < u32::MAX
}

spec fn chain_weight(plan: LogicalPlan) -> nat
    decreases plan,
{
    match plan {
        LogicalPlan::Project(p) => p.columns@.len() + 1 + chain_weight(*p.input),
        _ => 0,
    }
}

spec fn placed(schema: SchemaView, p: Project) -> bool {
    forall|i: int|
        0 <= i < p.columns@.len() ==> schema.location(
            (#[trigger] p.columns@[i]).ordinal,
        ) is Some
}

spec fn chain_placed(plan: LogicalPlan, schema: SchemaView) -> bool
    decreases plan,
{
    match plan {
        LogicalPlan::Project(p) => placed(schema, p) && chain_placed(*p.input, schema),
        _ => true,
    }
}

proof fn lemma_weight_behind(p: Project, outer: Seq<Project>, k: int)
    requires
        0 <= k,
    ensures
        weight(seq![p] + outer, k + 1) == weight(outer, k),
    decreases outer.len() - k,
{
    if k < outer.len() {
        lemma_weight_behind(p, outer, k + 1);
        assert((seq![p] + outer)[k + 1] == outer[k]);
    }
}

proof fn lemma_chain(plan: LogicalPlan, outer: Seq<Project>, schema: SchemaView)
    ensures
        weight(projections(plan, outer), 0) == chain_weight(plan) + weight(outer, 0),
        resolved(schema, projections(plan, outer)) <==> chain_placed(plan, schema) && resolved(
            schema,
            outer,
        ),
    decreases plan,
{
    if let LogicalPlan::Project(p) = plan {
        let longer = seq![p] + outer;
        lemma_chain(*p.input, longer, schema);
        lemma_weight_behind(p, outer, 0);
        assert(longer[0] == p);
        assert(resolved(schema, longer) <==> placed(schema, p) && resolved(schema, outer)) by {
            if resolved(schema, longer) {
                assert forall|i: int| 0 <= i < p.columns@.len() implies schema.location(
                    (#[trigger] p.columns@[i]).ordinal,
                ) is Some by {
                    assert(schema.location(longer[0].columns@[i].ordinal) is Some);
                }
                assert forall|k: int, i: int|
                    0 <= k < outer.len() && 0 <= i < outer[k].columns@.len() implies (
                #[trigger] schema.location(#[trigger] outer[k].columns@[i].ordinal)) is Some by {
                    assert(schema.location(longer[k + 1].columns@[i].ordinal) is Some);
                }
            }
            if placed(schema, p) && resolved(schema, outer) {
                assert forall|k: int, i: int|
                    0 <= k < longer.len() && 0 <= i < longer[k].columns@.len() implies (
                #[trigger] schema.location(#[trigger] longer[k].columns@[i].ordinal)) is Some by {
                    if k == 0 {
                        assert(schema.location(p.columns@[i].ordinal) is Some);
                    } else {
                        assert(schema.location(outer[k - 1].columns@[i].ordinal) is Some);
                    }
                }
            }
        }
    }
}

fn chain_weight_of(plan: &LogicalPlan) -> (r: Option<u32>)
    ensures
        match r {
            Some(n) => n == chain_weight(*plan) && n + 4 < u32::MAX,
            None => chain_weight(*plan) + 4 >= u32::MAX,
        },
    decreases *plan,
{
    match plan {
        LogicalPlan::Project(p) => {
            let below: u32 = match chain_weight_of(&p.input) {
                Some(n) => n,
                None => {
                    return None;
                },
            };
            let here: usize = p.columns.len();
            if here >= 0xffff_ffff {
                return None;
            }
            let total: u64 = here as u64 + 1 + below as u64;
            if total + 4 < 0xffff_ffff {
                Some(total as u32)
            } else {
                None
            }
        },
        _ => Some(0),
    }
}

fn is_chain_placed(plan: &LogicalPlan, schema: &Schema) -> (r: bool)
    ensures
        r == chain_placed(*plan, schema@),
    decreases *plan,
{
    match plan {
        LogicalPlan::Project(p) => {
            let mut i: usize = 0;
            while i < p.columns.len()
                invariant
                    i <= p.columns@.len(),
                    *plan == LogicalPlan::Project(*p),
                    forall|k: int|
                        0 <= k < i ==> schema@.location(
                            (#[trigger] p.columns@[k]).ordinal,
                        ) is Some,
                decreases p.columns@.len() - i,
            {
                if schema.locate(DeclarationOrdinal::new(p.columns[i].ordinal)).is_none() {
                    assert(schema@.location(p.columns@[i as int].ordinal) is None);
                    return false;
                }
                i += 1;
            }
            is_chain_placed(&p.input, schema)
        },
        _ => true,
    }
}

fn leaf_of(plan: &LogicalPlan) -> (r: &LogicalPlan)
    ensures
        *r == leaf(*plan),
    decreases *plan,
{
    match plan {
        LogicalPlan::Project(p) => leaf_of(&p.input),
        _ => plan,
    }
}

/// Whether a plan can be compiled against the given schema: what a binder gives
/// can, unless the statement is too long to be addressed.
pub fn can_compile(plan: &LogicalPlan, schema: Option<&Schema>) -> (r: bool)
    ensures
        r == compilable(*plan, schema_of(schema)),
{
    proof {
        lemma_leaf(*plan);
        lemma_chain(*plan, Seq::empty(), arbitrary());
        if let Some(s) = schema {
            lemma_chain(*plan, Seq::empty(), s@);
        }
    }
    if chain_weight_of(plan).is_none() {
        return false;
    }
    match leaf_of(plan) {
        LogicalPlan::CreateCollection(_) => match plan {
            LogicalPlan::CreateCollection(_) => true,
            _ => false,
        },
        LogicalPlan::Insert(insert) => insert.row.len() < 0xffff_fffb,
        _ => match schema {
            Some(schema) => is_chain_placed(plan, schema),
            None => true,
        },
    }
}

/// The schema of the collection that a statement is about, if there is one.
pub open spec fn schema_of(schema: Option<&Schema>) -> Option<SchemaView> {
    match schema {
        Some(s) => Some(s@),
        None => None,
    }
}

/// What compiling a plan gives. A new collection depends on its own declaration
/// alone; every other statement needs the schema of its collection.
pub open spec fn compiled(
    plan: LogicalPlan,
    schema: Option<SchemaView>,
    r: Result<Program, CompileError>,
) -> bool {
    match plan {
        LogicalPlan::CreateCollection(create) => match r {
            Ok(p) => exists|s: Schema| #[trigger]
                schema::lowers(create.schema@, Ok(s)) && is_create(
                    p,
                    create.name@,
                    create.capacity,
                    s@,
                ),
            Err(CompileError::Schema(e)) => schema::lowers(create.schema@, Err(e)),
            Err(_) => false,
        },
        _ => match schema {
            None => r == Err::<Program, CompileError>(CompileError::MissingSchema),
            Some(s) => match leaf(plan) {
                LogicalPlan::Scan(scan) => r matches Ok(p) && is_read(
                    p,
                    scan.collection@,
                    s,
                    projections(plan, Seq::empty()),
                ),
                LogicalPlan::Insert(insert) => r matches Ok(p) && is_write(
                    p,
                    insert.collection@,
                    insert.row@,
                ),
                _ => false,
            },
        },
    }
}

/// Compiles a resolved plan. `schema` is the schema of the collection that the
/// statement is about, as the catalog holds it; none if there is no such
/// collection yet, which is right for a new collection alone. The program always
/// passes [`Program::validate`].
pub fn compile(plan: LogicalPlan, schema: Option<&Schema>) -> (r: Result<Program, CompileError>)
    requires
        compilable(plan, schema_of(schema)),
    ensures
        compiled(plan, schema_of(schema), r),
        r matches Ok(p) ==> p.fault() is None,
{
    let created: Option<Schema> = match &plan {
        LogicalPlan::CreateCollection(create) => match to_metadata_schema(&create.schema) {
            Ok(s) => Some(s),
            Err(e) => {
                return Err(CompileError::Schema(e));
            },
        },
        _ => {
            if schema.is_none() {
                return Err(CompileError::MissingSchema);
            }
            None
        },
    };
    let ghost lowered = created;
    let mut compiler = Compiler::new(schema, created);
    let above: Vec<&Project> = Vec::new();
    proof {
        assert(refs(above@).reverse() =~= Seq::<Project>::empty());
    }
    compiler.emit_node(&plan, above);
    compiler.emit(Op::Halt);
    let program: Program = compiler.finish();
    proof {
        match leaf(plan) {
            LogicalPlan::Scan(scan) => {
                let ps = projections(plan, Seq::empty());
                let body = body_code(schema->0@, ps, 0, 0);
                assert(program.ops@.subrange(2, 2 + body.len() as int) =~= body);
                lemma_read_is_valid(program, scan.collection@, schema->0@, ps);
            },
            LogicalPlan::Insert(insert) => {
                lemma_write_is_valid(program, insert.collection@, insert.row@);
            },
            LogicalPlan::CreateCollection(create) => {
                let s = lowered->0;
                assert(schema::lowers(create.schema@, Ok(s)));
                lemma_create_is_valid(program, create.name@, create.capacity, s@);
            },
            LogicalPlan::Project(_) => {
                lemma_leaf(plan);
            },
        }
    }
    Ok(program)
}

proof fn lemma_leaf(plan: LogicalPlan)
    ensures
        leaf(plan) !is Project,
    decreases plan,
{
    if let LogicalPlan::Project(p) = plan {
        lemma_leaf(*p.input);
    }
}

/// The projections behind a run of references.
pub open spec fn refs<'p>(above: Seq<&'p Project>) -> Seq<Project> {
    above.map_values(|p: &Project| *p)
}

/// The working state of a compilation.
struct Compiler<'a> {
    ops: Vec<Op>,
    consts: ConstPool,
    next_reg: u32,
    next_cursor: u8,
    cursor: Option<Cursor>,
    schema: Option<&'a Schema>,
    created: Option<Schema>,
}

impl<'a> Compiler<'a> {
    fn new(schema: Option<&'a Schema>, created: Option<Schema>) -> (c: Compiler<'a>)
        ensures
            c.ops@ == Seq::<Op>::empty(),
            c.consts@ == Seq::<ConstView>::empty(),
            c.next_reg == 0,
            c.next_cursor == 0,
            c.cursor is None,
            c.schema == schema,
            c.created == created,
    {
        Compiler {
            ops: Vec::new(),
            consts: ConstPool::new(),
            next_reg: 0,
            next_cursor: 0,
            cursor: None,
            schema,
            created,
        }
    }

    /// Appends an instruction and gives its index.
    fn emit(&mut self, op: Op) -> (at: usize)
        ensures
            at == old(self).ops@.len(),
            final(self).ops@ == old(self).ops@.push(op),
            final(self).consts == old(self).consts,
            final(self).next_reg == old(self).next_reg,
            final(self).next_cursor == old(self).next_cursor,
            final(self).cursor == old(self).cursor,
            final(self).schema == old(self).schema,
            final(self).created == old(self).created,
    {
        let at: usize = self.ops.len();
        self.ops.push(op);
        at
    }

    /// The address of the next instruction.
    fn here(&self) -> (a: Addr)
        ensures
            a == Addr(self.ops@.len() as u32),
    {
        Addr(self.ops.len() as u32)
    }

    /// Points the jump at index `at` to `target`.
    fn patch(&mut self, at: usize, target: Addr)
        requires
            at < old(self).ops@.len(),
            old(self).ops@[at as int] is SeekFirst,
        ensures
            final(self).ops@ == old(self).ops@.update(
                at as int,
                Op::SeekFirst { cur: old(self).ops@[at as int]->SeekFirst_cur, end: target },
            ),
            final(self).consts == old(self).consts,
            final(self).next_reg == old(self).next_reg,
            final(self).next_cursor == old(self).next_cursor,
            final(self).cursor == old(self).cursor,
            final(self).schema == old(self).schema,
            final(self).created == old(self).created,
    {
        if let Op::SeekFirst { cur, .. } = &self.ops[at] {
            let cur: Cursor = *cur;
            self.ops.set(at, Op::SeekFirst { cur, end: target });
        }
    }

    /// The next register.
    fn alloc_reg(&mut self) -> (r: Reg)
        requires
            old(self).next_reg < u32::MAX,
        ensures
            r == Reg(old(self).next_reg),
            final(self).next_reg == old(self).next_reg + 1,
            final(self).ops == old(self).ops,
            final(self).consts == old(self).consts,
            final(self).next_cursor == old(self).next_cursor,
            final(self).cursor == old(self).cursor,
            final(self).schema == old(self).schema,
            final(self).created == old(self).created,
    {
        let r = Reg(self.next_reg);
        self.next_reg += 1;
        r
    }

    /// The next cursor slot.
    fn alloc_cursor(&mut self) -> (c: Cursor)
        requires
            old(self).next_cursor < u8::MAX,
        ensures
            c == Cursor(old(self).next_cursor),
            final(self).next_cursor == old(self).next_cursor + 1,
            final(self).ops == old(self).ops,
            final(self).consts == old(self).consts,
            final(self).next_reg == old(self).next_reg,
            final(self).cursor == old(self).cursor,
            final(self).schema == old(self).schema,
            final(self).created == old(self).created,
    {
        let c = Cursor(self.next_cursor);
        self.next_cursor += 1;
        c
    }

    /// Emits the code of a plan node. `above` holds the projections above it,
    /// the nearest last; their code goes into the loop of the scan below.
    fn emit_node<'p>(&mut self, node: &'p LogicalPlan, above: Vec<&'p Project>)
        requires
            old(self).ops@.len() == 0,
            old(self).consts@.len() == 0,
            old(self).next_reg == 0,
            old(self).next_cursor == 0,
            ({
                let ps = projections(*node, refs(above@).reverse());
                match leaf(*node) {
                    LogicalPlan::Scan(_) => {
                        &&& old(self).schema is Some
                        &&& resolved(old(self).schema->0@, ps)
                        &&& weight(ps, 0) + 4 < u32::MAX
                    },
                    LogicalPlan::Insert(insert) => insert.row@.len() + 4 < u32::MAX,
                    LogicalPlan::CreateCollection(_) => old(self).created is Some,
                    LogicalPlan::Project(_) => true,
                }
            }),
        ensures
            ({
                let ps = projections(*node, refs(above@).reverse());
                let ops = final(self).ops@;
                match leaf(*node) {
                    LogicalPlan::Scan(scan) => {
                        let body = body_code(old(self).schema->0@, ps, 0, 0);
                        &&& ops.len() == body.len() + 3
                        &&& ops[0] matches Op::OpenRead { cur, collection: c, filter } && cur
                            == Cursor(0) && c@ == scan.collection@ && filter is None
                        &&& ops[1] == (Op::SeekFirst {
                            cur: Cursor(0),
                            end: Addr((body.len() + 3) as u32),
                        })
                        &&& ops.subrange(2, 2 + body.len() as int) == body
                        &&& ops[2 + body.len() as int] == (Op::Next {
                            cur: Cursor(0),
                            body: Addr(2),
                        })
                        &&& final(self).consts@ == Seq::<ConstView>::empty()
                        &&& final(self).next_reg == body.len() - ps.len()
                        &&& final(self).next_cursor == 1
                    },
                    LogicalPlan::Insert(insert) => {
                        let row = insert.row@;
                        let n = row.len() as int;
                        &&& ops.len() == n + 3
                        &&& ops[0] matches Op::OpenWrite { cur, collection: c } && cur == Cursor(
                            0,
                        ) && c@ == insert.collection@
                        &&& forall|i: int|
                            0 <= i < n ==> #[trigger] ops[i + 1] == value_load(row, i)
                        &&& ops[n + 1] == (Op::MakeRecord {
                            start: Reg(0),
                            count: n as u32,
                            dst: Reg(n as u32),
                        })
                        &&& ops[n + 2] == (Op::Insert { cur: Cursor(0), rec: Reg(n as u32) })
                        &&& final(self).consts@ == pool_of(row, row.len())
                        &&& final(self).next_reg == n + 1
                        &&& final(self).next_cursor == 1
                    },
                    LogicalPlan::CreateCollection(create) => {
                        &&& ops.len() == 1
                        &&& ops[0] matches Op::CreateCollection { name, schema, capacity } && name@
                            == create.name@ && schema == ConstId(0) && capacity
                            == create.capacity
                        &&& final(self).consts@ == seq![
                            ConstView::Schema(old(self).created->0@),
                        ]
                        &&& final(self).next_reg == 0
                        &&& final(self).next_cursor == 0
                    },
                    LogicalPlan::Project(_) => true,
                }
            }),
        decreases *node,
    {
        match node {
            LogicalPlan::Scan(scan) => {
                let ghost ps = refs(above@).reverse();
                let ghost view = self.schema->0@;
                let cur: Cursor = self.alloc_cursor();
                self.emit(
                    Op::OpenRead { cur, collection: scan.collection.clone(), filter: None },
                );
                let seek: usize = self.emit(Op::SeekFirst { cur, end: Addr(PLACEHOLDER) });
                let top: Addr = self.here();
                self.cursor = Some(cur);
                let ghost head = self.ops@;
                let ghost body = body_code(view, ps, 0, 0);
                let mut k: usize = above.len();
                proof {
                    lemma_body_len(view, ps, 0, 0);
                    assert(head + body =~= head + body_code(view, ps, 0, 0));
                }
                while k > 0
                    invariant
                        k <= above@.len(),
                        ps == refs(above@).reverse(),
                        ps.len() == above@.len(),
                        self.schema is Some,
                        view == self.schema->0@,
                        resolved(view, ps),
                        self.cursor == Some(Cursor(0)),
                        self.next_cursor == 1,
                        self.consts@.len() == 0,
                        head.len() == 2,
                        weight(ps, 0) + 4 < u32::MAX,
                        self.next_reg + weight(ps, ps.len() - k) <= weight(ps, 0),
                        body == body_code(view, ps, 0, 0),
                        body.len() <= weight(ps, 0),
                        self.ops@.len() - 2 + body_code(
                            view,
                            ps,
                            ps.len() - k,
                            self.next_reg as int,
                        ).len() == body.len(),
                        self.next_reg == self.ops@.len() - 2 - (ps.len() - k),
                        self.ops@ + body_code(view, ps, ps.len() - k, self.next_reg as int) == head
                            + body,
                    decreases k,
                {
                    let ghost at = ps.len() - k;
                    let p: &Project = above[k - 1];
                    assert(ps[at] == *p);
                    let ghost before = self.ops@;
                    let ghost reg = self.next_reg as int;
                    let ghost rest = body_code(
                        view,
                        ps,
                        at + 1,
                        reg + row_code(view, *p, reg).len() - 1,
                    );
                    proof {
                        assert(before + body_code(view, ps, at, reg) =~= before + row_code(
                            view,
                            *p,
                            reg,
                        ) + rest);
                    }
                    self.emit_row(p, Ghost(ps), Ghost(at));
                    k -= 1;
                }
                proof {
                    assert(self.ops@ =~= head + body);
                }
                self.emit(Op::Next { cur, body: top });
                let after: Addr = self.here();
                self.patch(seek, after);
                proof {
                    assert(self.ops@.subrange(2, 2 + body.len() as int) =~= body);
                }
            },
            LogicalPlan::Project(p) => {
                let mut above = above;
                let ghost was = above@;
                above.push(p);
                proof {
                    assert(refs(above@).reverse() =~= seq![*p] + refs(was).reverse());
                }
                self.emit_node(&p.input, above);
            },
            LogicalPlan::Insert(insert) => {
                let cur: Cursor = self.alloc_cursor();
                self.emit(Op::OpenWrite { cur, collection: insert.collection.clone() });
                let ghost row = insert.row@;
                let ghost first = self.ops@[0];
                let mut i: usize = 0;
                while i < insert.row.len()
                    invariant
                        i <= insert.row@.len(),
                        row == insert.row@,
                        row.len() + 4 < u32::MAX,
                        self.ops@.len() == i + 1,
                        self.ops@[0] == first,
                        forall|k: int| 0 <= k < i ==> #[trigger] self.ops@[k + 1] == value_load(
                            row,
                            k,
                        ),
                        self.consts@ == pool_of(row, i as nat),
                        self.next_reg == i,
                        self.next_cursor == 1,
                    decreases insert.row@.len() - i,
                {
                    let ghost before = self.ops@;
                    let dst: Reg = self.alloc_reg();
                    let op: Op = match &insert.row[i].value {
                        Literal::Vector(v) => {
                            let id: ConstId = self.consts.add(Const::Vector(copy_vector(v)));
                            Op::VectorConst { id, dst }
                        },
                        Literal::Str(s) => {
                            let id: ConstId = self.consts.add(Const::Str(s.clone()));
                            Op::String { id, dst }
                        },
                        Literal::Int(n) => Op::Integer { value: *n, dst },
                        Literal::Float(f) => Op::Real { value: *f, dst },
                    };
                    self.emit(op);
                    proof {
                        assert(op == value_load(row, i as int));
                        assert forall|k: int| 0 <= k < i + 1 implies #[trigger] self.ops@[k + 1]
                            == value_load(row, k) by {
                            if k < i {
                                assert(self.ops@[k + 1] == before[k + 1]);
                            }
                        }
                    }
                    i += 1;
                }
                let count: u32 = self.next_reg;
                let rec: Reg = self.alloc_reg();
                let ghost loaded = self.ops@;
                self.emit(Op::MakeRecord { start: Reg(0), count, dst: rec });
                self.emit(Op::Insert { cur, rec });
                proof {
                    assert forall|k: int| 0 <= k < row.len() implies #[trigger] self.ops@[k + 1]
                        == value_load(row, k) by {
                        assert(self.ops@[k + 1] == loaded[k + 1]);
                    }
                }
            },
            LogicalPlan::CreateCollection(create) => {
                let ghost lowered = self.created->0@;
                match self.created.take() {
                    Some(s) => {
                        let id: ConstId = self.consts.add(Const::Schema(s));
                        self.emit(
                            Op::CreateCollection {
                                name: create.name.clone(),
                                schema: id,
                                capacity: create.capacity,
                            },
                        );
                        proof {
                            assert(self.consts@ =~= seq![ConstView::Schema(lowered)]);
                        }
                    },
                    None => {},
                }
            },
        }
    }

    /// Emits the code of one projection.
    fn emit_row(&mut self, p: &Project, Ghost(ps): Ghost<Seq<Project>>, Ghost(at): Ghost<int>)
        requires
            old(self).schema is Some,
            old(self).cursor == Some(Cursor(0)),
            0 <= at < ps.len(),
            ps[at] == *p,
            resolved(old(self).schema->0@, ps),
            old(self).next_reg + p.columns@.len() < u32::MAX,
        ensures
            final(self).ops@ == old(self).ops@ + row_code(
                old(self).schema->0@,
                *p,
                old(self).next_reg as int,
            ),
            final(self).next_reg == old(self).next_reg + row_code(
                old(self).schema->0@,
                *p,
                old(self).next_reg as int,
            ).len() - 1,
            final(self).next_reg <= old(self).next_reg + p.columns@.len(),
            final(self).consts == old(self).consts,
            final(self).next_cursor == old(self).next_cursor,
            final(self).cursor == old(self).cursor,
            final(self).schema == old(self).schema,
    {
        let base: u32 = self.next_reg;
        let ghost was = self.ops@;
        let ghost view = self.schema->0@;
        let ghost all = loads(view, *p, 0, base as int);
        let mut i: usize = 0;
        proof {
            assert(was + all =~= self.ops@ + loads(view, *p, 0, base as int));
        }
        while i < p.columns.len()
            invariant
                i <= p.columns@.len(),
                self.schema is Some,
                self.schema == old(self).schema,
                view == self.schema->0@,
                self.cursor == Some(Cursor(0)),
                self.cursor == old(self).cursor,
                self.consts == old(self).consts,
                self.next_cursor == old(self).next_cursor,
                0 <= at < ps.len(),
                ps[at] == *p,
                resolved(view, ps),
                base + p.columns@.len() < u32::MAX,
                base <= self.next_reg <= base + i,
                self.next_reg - base == self.ops@.len() - was.len(),
                was + all == self.ops@ + loads(view, *p, i as int, self.next_reg as int),
            decreases p.columns@.len() - i,
        {
            let ghost before = self.ops@;
            let ghost reg = self.next_reg as int;
            assert(view.location(ps[at].columns@[i as int].ordinal) is Some);
            if let (Some(schema), Some(cur)) = (self.schema, self.cursor) {
                match schema.locate(DeclarationOrdinal::new(p.columns[i].ordinal)) {
                    Some(ColumnLocation::Scalar(id)) => {
                        let dst: Reg = self.alloc_reg();
                        self.emit(Op::Column { cur, col: id, dst });
                        proof {
                            assert(before + loads(view, *p, i as int, reg) =~= self.ops@ + loads(
                                view,
                                *p,
                                i + 1,
                                reg + 1,
                            ));
                        }
                    },
                    Some(ColumnLocation::Vector { .. }) => {
                        if p.include_vector {
                            let dst: Reg = self.alloc_reg();
                            self.emit(Op::VectorFetch { cur, dst });
                            proof {
                                assert(before + loads(view, *p, i as int, reg) =~= self.ops@
                                    + loads(view, *p, i + 1, reg + 1));
                            }
                        }
                    },
                    None => {},
                }
            }
            i += 1;
        }
        proof {
            assert(self.ops@ =~= was + all);
        }
        let count: u32 = self.next_reg - base;
        self.emit(Op::ResultRow { start: Reg(base), count });
        proof {
            assert(self.ops@ =~= was + row_code(view, *p, base as int));
        }
    }

    fn finish(self) -> (p: Program)
        ensures
            p.ops == self.ops,
            p.consts == self.consts,
            p.n_regs == self.next_reg,
            p.n_cursors == self.next_cursor,
    {
        Program {
            ops: self.ops,
            consts: self.consts,
            n_regs: self.next_reg,
            n_cursors: self.next_cursor,
        }
    }
}

fn copy_vector(v: &Vec<u32>) -> (c: Vec<u32>)
    ensures
        c@ == v@,
{
    vstd::slice::slice_to_vec(v.as_slice())
}

/// The loads of a projection are at most its columns, and each is a load into a
/// register of its own.
proof fn lemma_loads(schema: SchemaView, p: Project, i: int, reg: int)
    requires
        0 <= i <= p.columns@.len(),
        0 <= reg,
        reg + p.columns@.len() - i < u32::MAX,
    ensures
        loads(schema, p, i, reg).len() <= p.columns@.len() - i,
        forall|k: int|
            0 <= k < loads(schema, p, i, reg).len() ==> is_load(
                #[trigger] loads(schema, p, i, reg)[k],
                reg + k,
            ),
    decreases p.columns@.len() - i,
{
    if i < p.columns@.len() {
        match load(schema, p, i, reg) {
            Some(op) => {
                lemma_loads(schema, p, i + 1, reg + 1);
                let all = loads(schema, p, i, reg);
                let rest = loads(schema, p, i + 1, reg + 1);
                assert forall|k: int| 0 <= k < all.len() implies is_load(
                    #[trigger] all[k],
                    reg + k,
                ) by {
                    if k > 0 {
                        assert(all[k] == rest[k - 1]);
                        assert(is_load(rest[k - 1], reg + 1 + (k - 1)));
                    }
                }
            },
            None => {
                lemma_loads(schema, p, i + 1, reg);
            },
        }
    }
}

/// A load from cursor 0 into the given register.
pub open spec fn is_load(op: Op, reg: int) -> bool {
    match op {
        Op::Column { cur, dst, .. } => cur == Cursor(0) && dst.0 == reg,
        Op::VectorFetch { cur, dst } => cur == Cursor(0) && dst.0 == reg,
        _ => false,
    }
}

/// An instruction of a loop body: a load into a register below `n`, or a row of
/// registers that ends at or below `n`.
pub open spec fn is_body_op(op: Op, n: int) -> bool {
    match op {
        Op::Column { cur, dst, .. } => cur == Cursor(0) && dst.0 < n,
        Op::VectorFetch { cur, dst } => cur == Cursor(0) && dst.0 < n,
        Op::ResultRow { start, count } => start.0 + count <= n,
        _ => false,
    }
}

/// The code of the projections is no longer than their weight.
proof fn lemma_body_len(schema: SchemaView, ps: Seq<Project>, k: int, reg: int)
    requires
        0 <= k <= ps.len(),
        0 <= reg,
        reg + weight(ps, k) < u32::MAX,
    ensures
        ps.len() - k <= body_code(schema, ps, k, reg).len() <= weight(ps, k),
    decreases ps.len() - k,
{
    if k < ps.len() {
        lemma_loads(schema, ps[k], 0, reg);
        let code = row_code(schema, ps[k], reg);
        lemma_body_len(schema, ps, k + 1, reg + code.len() - 1);
    }
}

/// Every instruction of the loop body uses registers that the program has.
proof fn lemma_body_ops(schema: SchemaView, ps: Seq<Project>, k: int, reg: int, n: int)
    requires
        0 <= k <= ps.len(),
        0 <= reg,
        reg + weight(ps, k) < u32::MAX,
        n == reg + body_code(schema, ps, k, reg).len() - (ps.len() - k),
    ensures
        forall|i: int|
            0 <= i < body_code(schema, ps, k, reg).len() ==> is_body_op(
                #[trigger] body_code(schema, ps, k, reg)[i],
                n,
            ),
    decreases ps.len() - k,
{
    if k < ps.len() {
        let code = row_code(schema, ps[k], reg);
        let l = loads(schema, ps[k], 0, reg);
        lemma_loads(schema, ps[k], 0, reg);
        let next = reg + code.len() - 1;
        lemma_body_len(schema, ps, k + 1, next);
        lemma_body_ops(schema, ps, k + 1, next, n);
        let all = body_code(schema, ps, k, reg);
        let rest = body_code(schema, ps, k + 1, next);
        assert forall|i: int| 0 <= i < all.len() implies is_body_op(#[trigger] all[i], n) by {
            if i < l.len() {
                assert(all[i] == l[i]);
                assert(is_load(l[i], reg + i));
            } else if i == l.len() {
                assert(all[i] == code[i]);
            } else {
                assert(all[i] == rest[i - code.len()]);
            }
        }
    }
}

proof fn lemma_read_is_valid(
    program: Program,
    collection: Seq<char>,
    schema: SchemaView,
    ps: Seq<Project>,
)
    requires
        is_read(program, collection, schema, ps),
        weight(ps, 0) + 4 < u32::MAX,
    ensures
        program.fault() is None,
{
    let body = body_code(schema, ps, 0, 0);
    lemma_body_len(schema, ps, 0, 0);
    lemma_body_ops(schema, ps, 0, 0, program.n_regs as int);
    let ops = program.ops@;
    assert forall|i: int| 0 <= i < ops.len() implies #[trigger] program.op_fault(
        i,
        ops[i],
    ) is None by {
        if 2 <= i < 2 + body.len() {
            assert(ops.subrange(2, 2 + body.len() as int)[i - 2] == ops[i]);
            assert(is_body_op(body[i - 2], program.n_regs as int));
        }
    }
    bytecode::law_valid_means_no_fault(program);
}

proof fn lemma_create_is_valid(
    program: Program,
    name: Seq<char>,
    capacity: u64,
    schema: SchemaView,
)
    requires
        is_create(program, name, capacity, schema),
    ensures
        program.fault() is None,
{
    bytecode::law_valid_means_no_fault(program);
}

proof fn lemma_pool_len(row: Seq<TypedValue>, n: nat)
    requires
        n <= row.len(),
    ensures
        pool_of(row, n).len() <= n,
        n < row.len() ==> pool_of(row, n).len() <= pool_of(row, n + 1).len(),
        n < row.len() && pooled(row[n as int].value) is Some ==> pool_of(row, n).len() < pool_of(
            row,
            n + 1,
        ).len(),
    decreases n,
{
    if n > 0 {
        lemma_pool_len(row, (n - 1) as nat);
    }
}

proof fn lemma_pool_rises(row: Seq<TypedValue>, m: nat, n: nat)
    requires
        m <= n <= row.len(),
    ensures
        pool_of(row, m).len() <= pool_of(row, n).len(),
    decreases n - m,
{
    if m < n {
        lemma_pool_rises(row, m, (n - 1) as nat);
        lemma_pool_len(row, (n - 1) as nat);
    }
}

proof fn lemma_write_is_valid(program: Program, collection: Seq<char>, row: Seq<TypedValue>)
    requires
        is_write(program, collection, row),
        row.len() + 4 < u32::MAX,
    ensures
        program.fault() is None,
{
    let ops = program.ops@;
    let n = row.len() as int;
    assert forall|i: int| 0 <= i < ops.len() implies #[trigger] program.op_fault(
        i,
        ops[i],
    ) is None by {
        if 1 <= i <= n {
            assert(ops[(i - 1) + 1] == value_load(row, i - 1));
            lemma_pool_len(row, (i - 1) as nat);
            lemma_pool_rises(row, i as nat, row.len());
            lemma_pool_len(row, row.len());
        }
    }
    bytecode::law_valid_means_no_fault(program);
}

} // verus!
