//! What a program does: the meaning of the instructions that the compiler emits, and
//! what the program of a statement comes to.
//!
//! The machine here is a model. Its database gives the rows of a collection, each as
//! its scalar values by storage column and its embedding.

use vstd::prelude::*;

use crate::compiler::bytecode::{Op, Program};
use crate::compiler::compiler;
use crate::compiler::constants::ConstView;
use crate::compiler::schema;
use crate::metadata::common;
use crate::metadata::common::{ColumnLocation, SchemaView};
use crate::sql::{ColumnRef, Insert, Literal, LogicalPlan, Project, Scan, TypedValue};

verus! {

/// What a register holds.
pub enum Cell {
    /// Nothing.
    Unset,
    /// An integer.
    Int(i64),
    /// The bit pattern of a float.
    Real(u64),
    /// A string.
    Str(Seq<char>),
    /// The bit patterns of a vector.
    Vector(Seq<u32>),
    /// A packed row.
    Record(Seq<Cell>),
}

/// A row of a collection.
pub struct Stored {
    /// The scalar values, by storage column.
    pub values: Seq<Cell>,
    /// The embedding.
    pub vector: Seq<u32>,
}

/// A collection as a statement provisions it.
pub struct Made {
    /// Its name.
    pub name: Seq<char>,
    /// The constant that its schema is.
    pub schema: ConstView,
    /// Its capacity.
    pub capacity: u64,
}

/// The machine between two instructions.
pub struct State {
    /// The instruction to run next.
    pub pc: int,
    /// The registers.
    pub regs: Map<int, Cell>,
    /// The collection that each cursor is open on.
    pub open: Map<int, Seq<char>>,
    /// The row that each cursor is on.
    pub at: Map<int, int>,
    /// The rows given out.
    pub out: Seq<Seq<Cell>>,
    /// The records written, each with its collection.
    pub written: Seq<(Seq<char>, Seq<Cell>)>,
    /// The collections made.
    pub made: Seq<Made>,
    /// Whether the machine has stopped.
    pub halted: bool,
}

impl State {
    /// Before the first instruction.
    pub open spec fn start() -> State {
        State {
            pc: 0,
            regs: Map::empty(),
            open: Map::empty(),
            at: Map::empty(),
            out: Seq::empty(),
            written: Seq::empty(),
            made: Seq::empty(),
            halted: false,
        }
    }

    /// The same with a register set, behind the instruction.
    pub open spec fn set(self, reg: int, cell: Cell) -> State {
        State { pc: self.pc + 1, regs: self.regs.insert(reg, cell), ..self }
    }

    /// A run of registers.
    pub open spec fn run_of(self, start: int, count: int) -> Seq<Cell> {
        Seq::new(count as nat, |i: int| self.regs[start + i])
    }

    /// The row that a cursor is on.
    pub open spec fn row(self, db: spec_fn(Seq<char>) -> Seq<Stored>, cursor: int) -> Stored {
        db(self.open[cursor])[self.at[cursor]]
    }
}

/// What a pooled constant is in a register.
pub open spec fn constant(c: ConstView) -> Cell {
    match c {
        ConstView::Str(s) => Cell::Str(s),
        ConstView::Vector(v) => Cell::Vector(v),
        ConstView::Schema(_) => Cell::Unset,
    }
}

/// One instruction. An instruction that no plan is compiled to stops the machine.
pub open spec fn step(
    program: Program,
    db: spec_fn(Seq<char>) -> Seq<Stored>,
    s: State,
) -> State {
    match program.ops@[s.pc] {
        Op::OpenRead { cur, collection, filter } => State {
            pc: s.pc + 1,
            open: s.open.insert(cur.0 as int, collection@),
            ..s
        },
        Op::OpenWrite { cur, collection } => State {
            pc: s.pc + 1,
            open: s.open.insert(cur.0 as int, collection@),
            ..s
        },
        Op::SeekFirst { cur, end } => if db(s.open[cur.0 as int]).len() == 0 {
            State { pc: end.0 as int, ..s }
        } else {
            State { pc: s.pc + 1, at: s.at.insert(cur.0 as int, 0), ..s }
        },
        Op::Next { cur, body } => if s.at[cur.0 as int] + 1 < db(s.open[cur.0 as int]).len() {
            State {
                pc: body.0 as int,
                at: s.at.insert(cur.0 as int, s.at[cur.0 as int] + 1),
                ..s
            }
        } else {
            State { pc: s.pc + 1, ..s }
        },
        Op::Column { cur, col, dst } => s.set(
            dst.0 as int,
            s.row(db, cur.0 as int).values[col as int],
        ),
        Op::VectorFetch { cur, dst } => s.set(
            dst.0 as int,
            Cell::Vector(s.row(db, cur.0 as int).vector),
        ),
        Op::Integer { value, dst } => s.set(dst.0 as int, Cell::Int(value)),
        Op::Real { value, dst } => s.set(dst.0 as int, Cell::Real(value)),
        Op::String { id, dst } => s.set(dst.0 as int, constant(program.consts@[id.0 as int])),
        Op::VectorConst { id, dst } => s.set(dst.0 as int, constant(program.consts@[id.0 as int])),
        Op::ResultRow { start, count } => State {
            pc: s.pc + 1,
            out: s.out.push(s.run_of(start.0 as int, count as int)),
            ..s
        },
        Op::MakeRecord { start, count, dst } => s.set(
            dst.0 as int,
            Cell::Record(s.run_of(start.0 as int, count as int)),
        ),
        Op::Insert { cur, rec } => State {
            pc: s.pc + 1,
            written: match s.regs[rec.0 as int] {
                Cell::Record(cells) => s.written.push((s.open[cur.0 as int], cells)),
                _ => s.written,
            },
            ..s
        },
        Op::CreateCollection { name, schema, capacity } => State {
            pc: s.pc + 1,
            made: s.made.push(
                Made { name: name@, schema: program.consts@[schema.0 as int], capacity },
            ),
            ..s
        },
        _ => State { halted: true, ..s },
    }
}

/// At most `n` instructions.
pub open spec fn run(
    program: Program,
    db: spec_fn(Seq<char>) -> Seq<Stored>,
    s: State,
    n: nat,
) -> State
    decreases n,
{
    if n == 0 || s.halted {
        s
    } else {
        run(program, db, step(program, db, s), (n - 1) as nat)
    }
}

/// The machine gets from one state to another.
pub open spec fn reaches(
    program: Program,
    db: spec_fn(Seq<char>) -> Seq<Stored>,
    a: State,
    b: State,
) -> bool {
    exists|n: nat| #[trigger] run(program, db, a, n) == b
}

proof fn lemma_run_adds(
    program: Program,
    db: spec_fn(Seq<char>) -> Seq<Stored>,
    s: State,
    m: nat,
    n: nat,
)
    ensures
        run(program, db, run(program, db, s, m), n) == run(program, db, s, m + n),
    decreases m,
{
    if m > 0 && !s.halted {
        lemma_run_adds(program, db, step(program, db, s), (m - 1) as nat, n);
    } else if s.halted {
        assert(run(program, db, s, n) == s);
    }
}

proof fn lemma_reaches_on(
    program: Program,
    db: spec_fn(Seq<char>) -> Seq<Stored>,
    a: State,
    b: State,
    c: State,
)
    requires
        reaches(program, db, a, b),
        reaches(program, db, b, c),
    ensures
        reaches(program, db, a, c),
{
    let m = choose|n: nat| #[trigger] run(program, db, a, n) == b;
    let n = choose|n: nat| #[trigger] run(program, db, b, n) == c;
    lemma_run_adds(program, db, a, m, n);
    assert(run(program, db, a, m + n) == c);
}

proof fn lemma_one_step(program: Program, db: spec_fn(Seq<char>) -> Seq<Stored>, s: State)
    requires
        !s.halted,
    ensures
        reaches(program, db, s, step(program, db, s)),
{
    assert(run(program, db, s, 1) == step(program, db, s)) by {
        assert(run(program, db, step(program, db, s), 0) == step(program, db, s));
    }
}

proof fn lemma_reaches_itself(program: Program, db: spec_fn(Seq<char>) -> Seq<Stored>, s: State)
    ensures
        reaches(program, db, s, s),
{
    assert(run(program, db, s, 0) == s);
}

// ---------------------------------------------------------------------------
// Reads
// ---------------------------------------------------------------------------

/// The cell is what the row has for the column declared at `ordinal`: its embedding, if
/// that is the vector column, and otherwise the value stored under the id of the scalar
/// column of that ordinal, the first if there are more.
pub open spec fn is_cell(schema: SchemaView, ordinal: usize, row: Stored, cell: Cell) -> bool {
    if schema.vector.ordinal == ordinal {
        cell == Cell::Vector(row.vector)
    } else {
        exists|i: int|
            {
                &&& 0 <= i < schema.columns.len()
                &&& (#[trigger] schema.columns[i]).ordinal == ordinal
                &&& forall|j: int|
                    0 <= j < i ==> (#[trigger] schema.columns[j]).ordinal != ordinal
                &&& cell == row.values[schema.columns[i].id as int]
            }
    }
}

/// The columns of a projection from `i` on that it gives out: all, but for an embedding
/// that was not asked for.
pub open spec fn given(schema: SchemaView, p: Project, i: int) -> Seq<ColumnRef>
    decreases p.columns@.len() - i,
{
    if i < 0 || i >= p.columns@.len() {
        Seq::empty()
    } else {
        let rest = given(schema, p, i + 1);
        if p.columns@[i].ordinal == schema.vector.ordinal && !p.include_vector {
            rest
        } else {
            seq![p.columns@[i]] + rest
        }
    }
}

/// The output row is what a projection makes of a stored row: a cell for each column
/// given out, in the order of the projection.
pub open spec fn is_projected(
    schema: SchemaView,
    p: Project,
    row: Stored,
    output: Seq<Cell>,
) -> bool {
    let columns = given(schema, p, 0);
    &&& output.len() == columns.len()
    &&& forall|k: int|
        0 <= k < columns.len() ==> #[trigger] is_cell(schema, columns[k].ordinal, row, output[k])
}

/// The outputs are what projections make of rows: those of the first row first, and of
/// one row in the order of the projections.
pub open spec fn is_output(
    schema: SchemaView,
    ps: Seq<Project>,
    rows: Seq<Stored>,
    out: Seq<Seq<Cell>>,
) -> bool {
    &&& out.len() == rows.len() * ps.len()
    &&& forall|r: int, k: int|
        0 <= r < rows.len() && 0 <= k < ps.len() ==> #[trigger] is_projected(
            schema,
            ps[k],
            rows[r],
            out[r * ps.len() + k],
        )
}

proof fn lemma_location(schema: SchemaView, ordinal: usize, row: Stored, i: int)
    requires
        0 <= i <= schema.columns.len(),
        schema.vector.ordinal != ordinal,
        forall|j: int| 0 <= j < i ==> (#[trigger] schema.columns[j]).ordinal != ordinal,
    ensures
        match common::scalar_at(schema.columns, ordinal, i) {
            Some(ColumnLocation::Scalar(id)) => is_cell(
                schema,
                ordinal,
                row,
                row.values[id as int],
            ),
            Some(_) => false,
            None => true,
        },
    decreases schema.columns.len() - i,
{
    if i < schema.columns.len() {
        if schema.columns[i].ordinal == ordinal {
            let id = schema.columns[i].id;
            assert(is_cell(schema, ordinal, row, row.values[id as int]));
        } else {
            lemma_location(schema, ordinal, row, i + 1);
        }
    }
}

/// The state after the loads of the columns from `i` on.
proof fn lemma_loads(
    program: Program,
    db: spec_fn(Seq<char>) -> Seq<Stored>,
    schema: SchemaView,
    p: Project,
    i: int,
    reg: int,
    s: State,
) -> (t: State)
    requires
        0 <= i <= p.columns@.len(),
        0 <= reg,
        reg + p.columns@.len() - i <= u32::MAX,
        !s.halted,
        0 <= s.pc,
        s.pc + compiler::loads(schema, p, i, reg).len() <= program.ops@.len(),
        forall|k: int|
            0 <= k < compiler::loads(schema, p, i, reg).len() ==> program.ops@[s.pc + k]
                == #[trigger] compiler::loads(schema, p, i, reg)[k],
        forall|k: int|
            i <= k < p.columns@.len() ==> schema.location(
                (#[trigger] p.columns@[k]).ordinal,
            ) is Some,
    ensures
        reaches(program, db, s, t),
        t == (State { pc: t.pc, regs: t.regs, ..s }),
        t.pc == s.pc + compiler::loads(schema, p, i, reg).len(),
        compiler::loads(schema, p, i, reg).len() == given(schema, p, i).len(),
        forall|r: int| 0 <= r < reg ==> #[trigger] t.regs[r] == s.regs[r],
        forall|k: int|
            0 <= k < given(schema, p, i).len() ==> is_cell(
                schema,
                (#[trigger] given(schema, p, i)[k]).ordinal,
                s.row(db, 0),
                t.regs[reg + k],
            ),
    decreases p.columns@.len() - i,
{
    let l = compiler::loads(schema, p, i, reg);
    if i == p.columns@.len() {
        lemma_reaches_itself(program, db, s);
        s
    } else {
        let ordinal = p.columns@[i].ordinal;
        assert(schema.location(p.columns@[i].ordinal) is Some);
        let is_vector = schema.vector.ordinal == ordinal;
        if !is_vector {
            lemma_location(schema, ordinal, s.row(db, 0), 0);
        }
        match compiler::load(schema, p, i, reg) {
            None => {
                assert(is_vector && !p.include_vector);
                lemma_loads(program, db, schema, p, i + 1, reg, s)
            },
            Some(op) => {
                let rest = compiler::loads(schema, p, i + 1, reg + 1);
                assert(l =~= seq![op] + rest);
                assert(l[0] == op);
                assert(program.ops@[s.pc + 0] == l[0]);
                let m = step(program, db, s);
                lemma_one_step(program, db, s);
                assert forall|k: int| 0 <= k < rest.len() implies program.ops@[m.pc + k]
                    == #[trigger] rest[k] by {
                    assert(program.ops@[s.pc + (k + 1)] == l[k + 1]);
                }
                let t = lemma_loads(program, db, schema, p, i + 1, reg + 1, m);
                lemma_reaches_on(program, db, s, m, t);
                let columns = given(schema, p, i);
                let later = given(schema, p, i + 1);
                assert(columns =~= seq![p.columns@[i]] + later);
                assert(t.regs[reg] == m.regs[reg]);
                assert forall|k: int| 0 <= k < columns.len() implies is_cell(
                    schema,
                    (#[trigger] columns[k]).ordinal,
                    s.row(db, 0),
                    t.regs[reg + k],
                ) by {
                    if k > 0 {
                        assert(columns[k] == later[k - 1]);
                    }
                }
                assert forall|r: int| 0 <= r < reg implies #[trigger] t.regs[r] == s.regs[r] by {
                    assert(m.regs[r] == s.regs[r]);
                }
                t
            },
        }
    }
}

/// The state after the code of the projections from `k` on, for the row that the cursor
/// is on.
proof fn lemma_body(
    program: Program,
    db: spec_fn(Seq<char>) -> Seq<Stored>,
    schema: SchemaView,
    ps: Seq<Project>,
    k: int,
    reg: int,
    s: State,
) -> (t: State)
    requires
        0 <= k <= ps.len(),
        0 <= reg,
        reg + compiler::weight(ps, k) <= u32::MAX,
        !s.halted,
        0 <= s.pc,
        s.pc + compiler::body_code(schema, ps, k, reg).len() <= program.ops@.len(),
        forall|i: int|
            0 <= i < compiler::body_code(schema, ps, k, reg).len() ==> program.ops@[s.pc + i]
                == #[trigger] compiler::body_code(schema, ps, k, reg)[i],
        compiler::resolved(schema, ps),
    ensures
        reaches(program, db, s, t),
        t == (State { pc: t.pc, regs: t.regs, out: t.out, ..s }),
        t.pc == s.pc + compiler::body_code(schema, ps, k, reg).len(),
        t.out.len() == s.out.len() + (ps.len() - k),
        t.out.take(s.out.len() as int) == s.out,
        forall|i: int|
            k <= i < ps.len() ==> is_projected(
                schema,
                #[trigger] ps[i],
                s.row(db, 0),
                t.out[s.out.len() + (i - k)],
            ),
    decreases ps.len() - k,
{
    let body = compiler::body_code(schema, ps, k, reg);
    if k == ps.len() {
        lemma_reaches_itself(program, db, s);
        assert(s.out.take(s.out.len() as int) =~= s.out);
        s
    } else {
        let p = ps[k];
        let l = compiler::loads(schema, p, 0, reg);
        let code = compiler::row_code(schema, p, reg);
        let rest = compiler::body_code(schema, ps, k + 1, reg + code.len() - 1);
        assert(body =~= code + rest);
        assert forall|i: int| 0 <= i < l.len() implies program.ops@[s.pc + i]
            == #[trigger] l[i] by {
            assert(body[i] == l[i]);
        }
        assert forall|i: int| 0 <= i < p.columns@.len() implies schema.location(
            (#[trigger] p.columns@[i]).ordinal,
        ) is Some by {
            assert(schema.location(ps[k].columns@[i].ordinal) is Some);
        }
        let a = lemma_loads(program, db, schema, p, 0, reg, s);
        assert(body[l.len() as int] == code[l.len() as int]);
        assert(program.ops@[s.pc + l.len()] == body[l.len() as int]);
        lemma_given_len(schema, p, 0);
        let b = step(program, db, a);
        lemma_one_step(program, db, a);
        lemma_reaches_on(program, db, s, a, b);
        let output = b.out.last();
        assert(output =~= a.run_of(reg, l.len() as int));
        let columns = given(schema, p, 0);
        assert forall|j: int| 0 <= j < columns.len() implies #[trigger] is_cell(
            schema,
            columns[j].ordinal,
            s.row(db, 0),
            output[j],
        ) by {
            assert(output[j] == a.regs[reg + j]);
            let _ = given(schema, p, 0)[j];
        }
        assert(is_projected(schema, p, s.row(db, 0), output));
        assert forall|i: int| 0 <= i < rest.len() implies program.ops@[b.pc + i]
            == #[trigger] rest[i] by {
            assert(program.ops@[s.pc + (code.len() + i)] == body[code.len() + i]);
        }
        let t = lemma_body(program, db, schema, ps, k + 1, reg + code.len() - 1, b);
        lemma_reaches_on(program, db, s, b, t);
        assert(t.out.take(b.out.len() as int) == b.out);
        assert(t.out.take(s.out.len() as int) =~= s.out) by {
            assert forall|i: int| 0 <= i < s.out.len() implies t.out[i] == s.out[i] by {
                assert(t.out.take(b.out.len() as int)[i] == b.out[i]);
            }
        }
        assert(t.out[s.out.len() as int] == output) by {
            assert(t.out.take(b.out.len() as int)[s.out.len() as int] == b.out[s.out.len() as int]);
        }
        assert forall|i: int| k <= i < ps.len() implies is_projected(
            schema,
            #[trigger] ps[i],
            s.row(db, 0),
            t.out[s.out.len() + (i - k)],
        ) by {
            if i > k {
                assert(b.out.len() + (i - (k + 1)) == s.out.len() + (i - k));
            }
        }
        t
    }
}

proof fn lemma_given_len(schema: SchemaView, p: Project, i: int)
    requires
        0 <= i <= p.columns@.len(),
    ensures
        given(schema, p, i).len() <= p.columns@.len() - i,
    decreases p.columns@.len() - i,
{
    if i < p.columns@.len() {
        lemma_given_len(schema, p, i + 1);
    }
}

/// The state after the loop has gone over the rows from `r` on.
proof fn lemma_loop(
    program: Program,
    db: spec_fn(Seq<char>) -> Seq<Stored>,
    collection: Seq<char>,
    schema: SchemaView,
    ps: Seq<Project>,
    r: int,
    s: State,
) -> (t: State)
    requires
        compiler::is_read(program, collection, schema, ps),
        compiler::weight(ps, 0) + 4 < u32::MAX,
        compiler::resolved(schema, ps),
        0 <= r < db(collection).len(),
        !s.halted,
        s.pc == 2,
        s.open.contains_pair(0, collection),
        s.at.contains_pair(0, r),
        is_output(schema, ps, db(collection).take(r), s.out),
    ensures
        reaches(program, db, s, t),
        t == (State { pc: t.pc, regs: t.regs, at: t.at, out: t.out, ..s }),
        t.pc == program.ops@.len() - 1,
        is_output(schema, ps, db(collection), t.out),
    decreases db(collection).len() - r,
{
    let rows = db(collection);
    let m = ps.len() as int;
    let body = compiler::body_code(schema, ps, 0, 0);
    assert forall|i: int| 0 <= i < body.len() implies program.ops@[s.pc + i]
        == #[trigger] body[i] by {
        assert(program.ops@.subrange(2, 2 + body.len() as int)[i] == body[i]);
    }
    let a = lemma_body(program, db, schema, ps, 0, 0, s);
    let b = step(program, db, a);
    lemma_one_step(program, db, a);
    lemma_reaches_on(program, db, s, a, b);
    assert(rows.take(r).len() == r);
    assert(s.out.len() == r * m);
    assert((r + 1) * m == r * m + m) by (nonlinear_arith);
    assert(is_output(schema, ps, rows.take(r + 1), a.out)) by {
        assert forall|q: int, k: int|
            0 <= q < rows.take(r + 1).len() && 0 <= k < ps.len() implies #[trigger] is_projected(
            schema,
            ps[k],
            rows.take(r + 1)[q],
            a.out[q * ps.len() + k],
        ) by {
            if q < r {
                assert(q * m + k < r * m) by (nonlinear_arith)
                    requires
                        q + 1 <= r,
                        k < m,
                        0 <= m,
                ;
                assert(0 <= q * m) by (nonlinear_arith)
                    requires
                        0 <= q,
                        0 <= m,
                ;
                assert(a.out.take(s.out.len() as int)[q * m + k] == s.out[q * m + k]);
                assert(rows.take(r)[q] == rows.take(r + 1)[q]);
                assert(is_projected(schema, ps[k], rows.take(r)[q], s.out[q * ps.len() + k]));
            } else {
                assert(rows.take(r + 1)[q] == s.row(db, 0));
                assert(is_projected(schema, ps[k], s.row(db, 0), a.out[s.out.len() + (k - 0)]));
            }
        }
    }
    if r + 1 < rows.len() {
        let t = lemma_loop(program, db, collection, schema, ps, r + 1, b);
        lemma_reaches_on(program, db, s, b, t);
        t
    } else {
        assert(rows.take(r + 1) =~= rows);
        b
    }
}

/// What a read comes to, whatever the collection holds: the machine stops, every row of
/// the collection that the plan scans has given one output row for each projection, in
/// which place `k` holds what the row has for the column that the projection names at
/// place `k`, and nothing was changed.
pub proof fn law_read_gives_the_named_columns(
    plan: LogicalPlan,
    schema: SchemaView,
    program: Program,
    db: spec_fn(Seq<char>) -> Seq<Stored>,
) -> (end: State)
    requires
        compiler::compilable(plan, Some(schema)),
        compiler::leaf(plan) is Scan,
        compiler::compiled(plan, Some(schema), Ok(program)),
    ensures
        reaches(program, db, State::start(), end),
        end.halted,
        is_output(
            schema,
            compiler::projections(plan, Seq::empty()),
            db(compiler::leaf(plan)->Scan_0.collection@),
            end.out,
        ),
        end.written.len() == 0,
        end.made.len() == 0,
{
    let collection = compiler::leaf(plan)->Scan_0.collection@;
    let ps = compiler::projections(plan, Seq::empty());
    let rows = db(collection);
    let start = State::start();
    let a = step(program, db, start);
    lemma_one_step(program, db, start);
    let b = step(program, db, a);
    lemma_one_step(program, db, a);
    lemma_reaches_on(program, db, start, a, b);
    let body = compiler::body_code(schema, ps, 0, 0);
    lemma_body_len(schema, ps, 0, 0);
    assert(0 * ps.len() == 0) by (nonlinear_arith);
    let t = if rows.len() == 0 {
        assert(b.pc == program.ops@.len() - 1);
        assert(is_output(schema, ps, rows, b.out));
        lemma_reaches_itself(program, db, b);
        b
    } else {
        assert(is_output(schema, ps, rows.take(0), b.out));
        lemma_loop(program, db, collection, schema, ps, 0, b)
    };
    lemma_reaches_on(program, db, start, b, t);
    let end = step(program, db, t);
    lemma_one_step(program, db, t);
    lemma_reaches_on(program, db, start, t, end);
    end
}

/// What a `SELECT` comes to: a projection right above a scan gives, for every row of the
/// scanned collection in turn, one output row with what the row has for the columns that
/// the projection names, in its order.
pub proof fn law_select_gives_the_named_columns(
    p: Project,
    scan: Scan,
    schema: SchemaView,
    program: Program,
    db: spec_fn(Seq<char>) -> Seq<Stored>,
) -> (end: State)
    requires
        *p.input == LogicalPlan::Scan(scan),
        compiler::compilable(LogicalPlan::Project(p), Some(schema)),
        compiler::compiled(LogicalPlan::Project(p), Some(schema), Ok(program)),
    ensures
        reaches(program, db, State::start(), end),
        end.halted,
        end.out.len() == db(scan.collection@).len(),
        forall|r: int|
            0 <= r < end.out.len() ==> is_projected(
                schema,
                p,
                db(scan.collection@)[r],
                #[trigger] end.out[r],
            ),
        end.written.len() == 0,
        end.made.len() == 0,
{
    let plan = LogicalPlan::Project(p);
    law_projections_from_the_scan_up(p);
    law_scan_has_no_projection(scan);
    let ps = compiler::projections(plan, Seq::empty());
    assert(ps =~= seq![p]);
    assert(compiler::leaf(plan) == *p.input) by {
        assert(compiler::leaf(*p.input) == *p.input);
    }
    let end = law_read_gives_the_named_columns(plan, schema, program, db);
    let rows = db(scan.collection@);
    assert(rows.len() * ps.len() == rows.len()) by (nonlinear_arith)
        requires
            ps.len() == 1,
    ;
    assert forall|r: int| 0 <= r < end.out.len() implies is_projected(
        schema,
        p,
        rows[r],
        #[trigger] end.out[r],
    ) by {
        assert(r * ps.len() + 0 == r) by (nonlinear_arith)
            requires
                ps.len() == 1,
        ;
        assert(is_projected(schema, ps[0], rows[r], end.out[r * ps.len() + 0]));
    }
    end
}

/// A projection comes behind those below it.
pub proof fn law_projections_from_the_scan_up(p: Project)
    ensures
        compiler::projections(LogicalPlan::Project(p), Seq::empty()) == compiler::projections(
            *p.input,
            Seq::empty(),
        ).push(p),
        compiler::leaf(LogicalPlan::Project(p)) == compiler::leaf(*p.input),
{
    let outer = seq![p] + Seq::<Project>::empty();
    lemma_projections_behind(*p.input, outer);
    assert(compiler::projections(*p.input, Seq::empty()) + outer =~= compiler::projections(
        *p.input,
        Seq::empty(),
    ).push(p));
}

proof fn lemma_projections_behind(plan: LogicalPlan, outer: Seq<Project>)
    ensures
        compiler::projections(plan, outer) == compiler::projections(plan, Seq::empty()) + outer,
    decreases plan,
{
    if let LogicalPlan::Project(p) = plan {
        lemma_projections_behind(*p.input, seq![p] + outer);
        lemma_projections_behind(*p.input, seq![p] + Seq::<Project>::empty());
        assert(compiler::projections(plan, outer) =~= compiler::projections(plan, Seq::empty())
            + outer);
    } else {
        assert(Seq::<Project>::empty() + outer =~= outer);
    }
}

/// What is no projection is its own bottom, without any projection above.
pub proof fn law_scan_has_no_projection(scan: Scan)
    ensures
        compiler::projections(LogicalPlan::Scan(scan), Seq::empty()).len() == 0,
        compiler::leaf(LogicalPlan::Scan(scan)) == LogicalPlan::Scan(scan),
{
}

proof fn lemma_body_len(schema: SchemaView, ps: Seq<Project>, k: int, reg: int)
    requires
        0 <= k <= ps.len(),
    ensures
        compiler::body_code(schema, ps, k, reg).len() <= compiler::weight(ps, k),
    decreases ps.len() - k,
{
    if k < ps.len() {
        let code = compiler::row_code(schema, ps[k], reg);
        lemma_loads_len(schema, ps[k], 0, reg);
        lemma_body_len(schema, ps, k + 1, reg + code.len() - 1);
    }
}

proof fn lemma_loads_len(schema: SchemaView, p: Project, i: int, reg: int)
    requires
        0 <= i <= p.columns@.len(),
    ensures
        compiler::loads(schema, p, i, reg).len() <= p.columns@.len() - i,
    decreases p.columns@.len() - i,
{
    if i < p.columns@.len() {
        lemma_loads_len(schema, p, i + 1, reg);
        lemma_loads_len(schema, p, i + 1, reg + 1);
    }
}

// ---------------------------------------------------------------------------
// Writes
// ---------------------------------------------------------------------------

/// What a literal is in a register.
pub open spec fn literal(value: Literal) -> Cell {
    match value {
        Literal::Vector(v) => Cell::Vector(v@),
        Literal::Str(s) => Cell::Str(s@),
        Literal::Int(n) => Cell::Int(n),
        Literal::Float(f) => Cell::Real(f),
    }
}

proof fn lemma_pool(row: Seq<TypedValue>, i: nat, n: nat)
    requires
        i < n <= row.len(),
    ensures
        compiler::pool_of(row, i).len() <= compiler::pool_of(row, n).len() <= n,
        compiler::pooled(row[i as int].value) matches Some(c) ==> {
            &&& compiler::pool_of(row, i).len() < compiler::pool_of(row, n).len()
            &&& compiler::pool_of(row, n)[compiler::pool_of(row, i).len() as int] == c
        },
    decreases n,
{
    lemma_pool_len(row, n);
    lemma_pool_len(row, i);
    if i + 1 < n {
        lemma_pool(row, i, (n - 1) as nat);
    }
}

proof fn lemma_pool_len(row: Seq<TypedValue>, n: nat)
    requires
        n <= row.len(),
    ensures
        compiler::pool_of(row, n).len() <= n,
    decreases n,
{
    if n > 0 {
        lemma_pool_len(row, (n - 1) as nat);
    }
}

/// The state after the loads of the values from `i` on.
proof fn lemma_values(
    program: Program,
    db: spec_fn(Seq<char>) -> Seq<Stored>,
    collection: Seq<char>,
    row: Seq<TypedValue>,
    i: int,
    s: State,
) -> (t: State)
    requires
        compiler::is_write(program, collection, row),
        row.len() + 4 < u32::MAX,
        0 <= i <= row.len(),
        !s.halted,
        s.pc == i + 1,
        forall|k: int| 0 <= k < i ==> #[trigger] s.regs[k] == literal(row[k].value),
    ensures
        reaches(program, db, s, t),
        t == (State { pc: t.pc, regs: t.regs, ..s }),
        t.pc == row.len() + 1,
        forall|k: int| 0 <= k < row.len() ==> #[trigger] t.regs[k] == literal(row[k].value),
    decreases row.len() - i,
{
    if i == row.len() {
        lemma_reaches_itself(program, db, s);
        s
    } else {
        assert(program.ops@[i + 1] == compiler::value_load(row, i));
        lemma_pool(row, i as nat, row.len());
        let m = step(program, db, s);
        lemma_one_step(program, db, s);
        assert(m.regs[i] == literal(row[i].value));
        assert forall|k: int| 0 <= k < i + 1 implies #[trigger] m.regs[k] == literal(
            row[k].value,
        ) by {
            if k < i {
                assert(m.regs[k] == s.regs[k]);
            }
        }
        let t = lemma_values(program, db, collection, row, i + 1, m);
        lemma_reaches_on(program, db, s, m, t);
        t
    }
}

/// What a write comes to: the machine stops, and one record was written to the collection
/// of the plan, which holds at every place the literal that the statement gives there.
/// Nothing is given out.
pub proof fn law_write_stores_the_literals(
    plan: LogicalPlan,
    schema: SchemaView,
    program: Program,
    db: spec_fn(Seq<char>) -> Seq<Stored>,
) -> (end: State)
    requires
        compiler::compilable(plan, Some(schema)),
        compiler::leaf(plan) is Insert,
        compiler::compiled(plan, Some(schema), Ok(program)),
    ensures
        reaches(program, db, State::start(), end),
        end.halted,
        end.out.len() == 0,
        end.made.len() == 0,
        end.written.len() == 1,
        end.written[0].0 == compiler::leaf(plan)->Insert_0.collection@,
        ({
            let row = compiler::leaf(plan)->Insert_0.row@;
            let record = end.written[0].1;
            &&& record.len() == row.len()
            &&& forall|i: int|
                0 <= i < row.len() ==> #[trigger] record[i] == literal(row[i].value)
        }),
{
    let collection = compiler::leaf(plan)->Insert_0.collection@;
    let row = compiler::leaf(plan)->Insert_0.row@;
    let n = row.len() as int;
    let start = State::start();
    let a = step(program, db, start);
    lemma_one_step(program, db, start);
    let b = lemma_values(program, db, collection, row, 0, a);
    lemma_reaches_on(program, db, start, a, b);
    let c = step(program, db, b);
    lemma_one_step(program, db, b);
    lemma_reaches_on(program, db, start, b, c);
    let record = b.run_of(0, n);
    assert forall|i: int| 0 <= i < n implies #[trigger] record[i] == literal(row[i].value) by {
        assert(b.regs[0 + i] == literal(row[i].value));
    }
    let d = step(program, db, c);
    lemma_one_step(program, db, c);
    lemma_reaches_on(program, db, start, c, d);
    let end = step(program, db, d);
    lemma_one_step(program, db, d);
    lemma_reaches_on(program, db, start, d, end);
    end
}

/// What an `INSERT` comes to: one record in its collection, with its literals in order.
pub proof fn law_insert_stores_the_literals(
    insert: Insert,
    schema: SchemaView,
    program: Program,
    db: spec_fn(Seq<char>) -> Seq<Stored>,
) -> (end: State)
    requires
        compiler::compilable(LogicalPlan::Insert(insert), Some(schema)),
        compiler::compiled(LogicalPlan::Insert(insert), Some(schema), Ok(program)),
    ensures
        reaches(program, db, State::start(), end),
        end.halted,
        end.written.len() == 1,
        end.written[0].0 == insert.collection@,
        end.written[0].1.len() == insert.row@.len(),
        forall|i: int|
            0 <= i < insert.row@.len() ==> #[trigger] end.written[0].1[i] == literal(
                insert.row@[i].value,
            ),
        end.out.len() == 0,
        end.made.len() == 0,
{
    law_write_stores_the_literals(LogicalPlan::Insert(insert), schema, program, db)
}

// ---------------------------------------------------------------------------
// New collections
// ---------------------------------------------------------------------------

/// What a new collection comes to: the machine stops, and one collection was made, with
/// the name and the capacity of the statement and with a schema that its declaration
/// lowers to.
pub proof fn law_create_makes_the_declared_collection(
    plan: LogicalPlan,
    existing: Option<SchemaView>,
    program: Program,
    db: spec_fn(Seq<char>) -> Seq<Stored>,
) -> (end: State)
    requires
        plan is CreateCollection,
        compiler::compiled(plan, existing, Ok(program)),
    ensures
        reaches(program, db, State::start(), end),
        end.halted,
        end.out.len() == 0,
        end.written.len() == 0,
        end.made.len() == 1,
        end.made[0].name == plan->CreateCollection_0.name@,
        end.made[0].capacity == plan->CreateCollection_0.capacity,
        end.made[0].schema is Schema,
        plan->CreateCollection_0.schema@.len() <= u32::MAX ==> schema::is_declared(
            plan->CreateCollection_0.schema@,
            end.made[0].schema->Schema_0,
        ),
{
    let create = plan->CreateCollection_0;
    let s = choose|s: common::Schema| #[trigger]
        schema::lowers(create.schema@, Ok(s)) && compiler::is_create(
            program,
            create.name@,
            create.capacity,
            s@,
        );
    schema::law_lowering_keeps_the_declaration(create.schema@, s);
    let start = State::start();
    let a = step(program, db, start);
    lemma_one_step(program, db, start);
    let end = step(program, db, a);
    lemma_one_step(program, db, a);
    lemma_reaches_on(program, db, start, a, end);
    end
}

/// A read can be compiled if every column that its projection names is one of the schema,
/// and it is short enough to be addressed; an insert if it is short enough; and a new
/// collection always.
pub proof fn law_what_can_be_compiled(
    p: Project,
    scan: Scan,
    insert: Insert,
    create: crate::sql::CreateCollection,
    schema: SchemaView,
)
    requires
        *p.input == LogicalPlan::Scan(scan),
    ensures
        compiler::compilable(LogicalPlan::Project(p), Some(schema)) <==> {
            &&& p.columns@.len() + 5 < u32::MAX
            &&& forall|k: int|
                0 <= k < p.columns@.len() ==> {
                    ||| (#[trigger] p.columns@[k]).ordinal == schema.vector.ordinal
                    ||| exists|i: int|
                        0 <= i < schema.columns.len() && (#[trigger] schema.columns[i]).ordinal
                            == p.columns@[k].ordinal
                }
        },
        compiler::compilable(LogicalPlan::Insert(insert), Some(schema)) <==> insert.row@.len() + 4
            < u32::MAX,
        compiler::compilable(LogicalPlan::CreateCollection(create), None),
{
    let plan = LogicalPlan::Project(p);
    law_projections_from_the_scan_up(p);
    law_scan_has_no_projection(scan);
    let ps = compiler::projections(plan, Seq::empty());
    assert(ps =~= seq![p]);
    assert(compiler::leaf(plan) == *p.input) by {
        assert(compiler::leaf(*p.input) == *p.input);
    }
    assert(compiler::weight(ps, 0) == p.columns@.len() + 1) by {
        assert(compiler::weight(ps, 1) == 0);
    }
    assert forall|k: int| 0 <= k < p.columns@.len() implies (schema.location(
        (#[trigger] p.columns@[k]).ordinal,
    ) is Some <==> {
        ||| p.columns@[k].ordinal == schema.vector.ordinal
        ||| exists|i: int|
            0 <= i < schema.columns.len() && (#[trigger] schema.columns[i]).ordinal
                == p.columns@[k].ordinal
    }) by {
        common::law_location(schema, p.columns@[k].ordinal);
    }
    assert(compiler::resolved(schema, ps) <==> forall|k: int|
        0 <= k < p.columns@.len() ==> schema.location(
            (#[trigger] p.columns@[k]).ordinal,
        ) is Some) by {
        if compiler::resolved(schema, ps) {
            assert forall|k: int| 0 <= k < p.columns@.len() implies schema.location(
                (#[trigger] p.columns@[k]).ordinal,
            ) is Some by {
                assert(schema.location(ps[0].columns@[k].ordinal) is Some);
            }
        }
        if forall|k: int|
            0 <= k < p.columns@.len() ==> schema.location(
                (#[trigger] p.columns@[k]).ordinal,
            ) is Some {
            assert forall|q: int, i: int|
                0 <= q < ps.len() && 0 <= i < ps[q].columns@.len() implies (
            #[trigger] schema.location(#[trigger] ps[q].columns@[i].ordinal)) is Some by {
                assert(schema.location(p.columns@[i].ordinal) is Some);
            }
        }
    }
    let e = compiler::projections(LogicalPlan::Insert(insert), Seq::empty());
    assert(compiler::weight(e, 0) == 0);
    let f = compiler::projections(LogicalPlan::CreateCollection(create), Seq::empty());
    assert(compiler::weight(f, 0) == 0);
}

} // verus!
