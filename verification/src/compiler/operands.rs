//! What the instructions of a program refer to: which operand a refused program is refused
//! for, and when two instructions are the same.

use vstd::prelude::*;

use crate::compiler::bytecode::{Addr, Check, Cursor, Op, Program, Reg, ValidateError};
use crate::compiler::constants::{Const, ConstId, ConstView};
use crate::metadata::common::RangeOp;
use crate::number;

verus! {

/// What one instruction refers to.
pub struct Operands {
    /// The instruction that it may go on with.
    pub target: Option<Addr>,
    /// The cursor.
    pub cursor: Option<Cursor>,
    /// A run of registers: the first, and how many.
    pub run: Option<(Reg, u32)>,
    /// The single registers: what is read before what is written.
    pub regs: Seq<Reg>,
    /// The constant.
    pub constant: Option<ConstId>,
}

/// No operands.
pub open spec fn none() -> Operands {
    Operands { target: None, cursor: None, run: None, regs: Seq::empty(), constant: None }
}

/// Registers, and behind them that of the filter, if there is one.
pub open spec fn and_filter(regs: Seq<Reg>, filter: Option<Reg>) -> Seq<Reg> {
    if filter is Some {
        regs.push(filter->0)
    } else {
        regs
    }
}

/// The operands of an instruction.
pub open spec fn operands(op: Op) -> Operands {
    match op {
        Op::OpenRead { cur, filter, .. } => Operands {
            cursor: Some(cur),
            regs: and_filter(Seq::empty(), filter),
            ..none()
        },
        Op::OpenWrite { cur, .. } => Operands { cursor: Some(cur), ..none() },
        Op::SeekFirst { cur, end } => Operands { cursor: Some(cur), target: Some(end), ..none() },
        Op::Next { cur, body } => Operands { cursor: Some(cur), target: Some(body), ..none() },
        Op::Column { cur, dst, .. } => Operands { cursor: Some(cur), regs: seq![dst], ..none() },
        Op::VectorFetch { cur, dst } => Operands { cursor: Some(cur), regs: seq![dst], ..none() },
        Op::RowId { cur, dst } => Operands { cursor: Some(cur), regs: seq![dst], ..none() },
        Op::Score { cur, dst } => Operands { cursor: Some(cur), regs: seq![dst], ..none() },
        Op::Integer { dst, .. } => Operands { regs: seq![dst], ..none() },
        Op::Real { dst, .. } => Operands { regs: seq![dst], ..none() },
        Op::String { id, dst } => Operands { regs: seq![dst], constant: Some(id), ..none() },
        Op::VectorConst { id, dst } => Operands { regs: seq![dst], constant: Some(id), ..none() },
        Op::ResultRow { start, count } => Operands { run: Some((start, count)), ..none() },
        Op::MakeRecord { start, count, dst } => Operands {
            run: Some((start, count)),
            regs: seq![dst],
            ..none()
        },
        Op::Insert { cur, rec } => Operands { cursor: Some(cur), regs: seq![rec], ..none() },
        Op::KnnScan { cur, query, filter, .. } => Operands {
            cursor: Some(cur),
            regs: and_filter(seq![query], filter),
            ..none()
        },
        Op::BitmapEq { value, dst, .. } => Operands { regs: seq![value, dst], ..none() },
        Op::BitmapRange { value, dst, .. } => Operands { regs: seq![value, dst], ..none() },
        Op::BitmapAnd { a, b, dst } => Operands { regs: seq![a, b, dst], ..none() },
        Op::BitmapOr { a, b, dst } => Operands { regs: seq![a, b, dst], ..none() },
        Op::BitmapNot { src, dst, .. } => Operands { regs: seq![src, dst], ..none() },
        Op::CreateCollection { schema, .. } => Operands { constant: Some(schema), ..none() },
        Op::Halt => none(),
    }
}

/// A jump goes to an instruction of the program, and not to the address that stands for one
/// that is not known yet.
pub open spec fn jump_fits(program: Program, op: Op) -> bool {
    operands(op).target matches Some(a) ==> a.0 != 0xffff_ffff && a.0 < program.ops@.len()
}

/// The cursor is one of the program's.
pub open spec fn cursor_fits(program: Program, op: Op) -> bool {
    operands(op).cursor matches Some(c) ==> c.0 < program.n_cursors
}

/// The run of registers ends among the program's.
pub open spec fn run_fits(program: Program, op: Op) -> bool {
    operands(op).run matches Some((start, count)) ==> start.0 + count <= program.n_regs
}

/// The first `n` single registers are the program's.
pub open spec fn regs_fit(program: Program, op: Op, n: int) -> bool {
    forall|k: int| 0 <= k < n ==> (#[trigger] operands(op).regs[k]).0 < program.n_regs
}

/// The cursor and the registers are the program's.
pub open spec fn slots_fit(program: Program, op: Op) -> bool {
    &&& cursor_fits(program, op)
    &&& run_fits(program, op)
    &&& regs_fit(program, op, operands(op).regs.len() as int)
}

/// The constant is one of the program's.
pub open spec fn constant_fits(program: Program, op: Op) -> bool {
    operands(op).constant matches Some(id) ==> id.0 < program.consts@.len()
}

/// An operand of the kind that a check looks at fits.
pub open spec fn fits(program: Program, check: Check, op: Op) -> bool {
    match check {
        Check::Jumps => jump_fits(program, op),
        Check::Operands => slots_fit(program, op),
        Check::Constants => constant_fits(program, op),
    }
}

/// The error names the instruction at `at` and, of the operands that a check looks at, the
/// first that does not fit: the cursor, the run of registers, the single registers in turn.
/// Of a run that starts among the program's registers, it names the first beyond them.
pub open spec fn names_misfit(program: Program, check: Check, i: int, e: ValidateError) -> bool {
    let op = program.ops@[i];
    match e {
        ValidateError::UnpatchedJump { at } => check is Jumps && at == i
            && operands(op).target == Some(Addr(0xffff_ffff)),
        ValidateError::JumpOutOfRange { at, target } => check is Jumps && at == i
            && target != 0xffff_ffff && target >= program.ops@.len() && operands(op).target
            == Some(Addr(target as u32)) && target <= u32::MAX,
        ValidateError::CursorOutOfRange { at, cursor } => check is Operands && at == i
            && !cursor_fits(program, op) && operands(op).cursor == Some(Cursor(cursor)),
        ValidateError::RegOutOfRange { at, reg } => check is Operands && at == i && cursor_fits(
            program,
            op,
        ) && if run_fits(program, op) {
            exists|k: int|
                {
                    &&& 0 <= k < operands(op).regs.len()
                    &&& #[trigger] operands(op).regs[k] == Reg(reg)
                    &&& reg >= program.n_regs
                    &&& regs_fit(program, op, k)
                }
        } else {
            operands(op).run matches Some((start, _)) && reg == if start.0 < program.n_regs {
                program.n_regs
            } else {
                start.0
            }
        },
        ValidateError::BadConstRef { at, id } => check is Constants && at == i && !constant_fits(
            program,
            op,
        ) && (operands(op).constant matches Some(c) && c.0 == id),
        _ => false,
    }
}

proof fn lemma_jump(program: Program, i: int)
    requires
        0 <= i < program.ops@.len() <= usize::MAX,
    ensures
        match program.check_fault(Check::Jumps, i, program.ops@[i]) {
            None => jump_fits(program, program.ops@[i]),
            Some(e) => !jump_fits(program, program.ops@[i]) && names_misfit(
                program,
                Check::Jumps,
                i,
                e,
            ),
        },
{
}

proof fn lemma_constant(program: Program, i: int)
    requires
        0 <= i < program.ops@.len() <= usize::MAX,
    ensures
        match program.check_fault(Check::Constants, i, program.ops@[i]) {
            None => constant_fits(program, program.ops@[i]),
            Some(e) => !constant_fits(program, program.ops@[i]) && names_misfit(
                program,
                Check::Constants,
                i,
                e,
            ),
        },
{
}

proof fn lemma_slots(program: Program, i: int)
    requires
        0 <= i < program.ops@.len() <= usize::MAX,
    ensures
        match program.check_fault(Check::Operands, i, program.ops@[i]) {
            None => slots_fit(program, program.ops@[i]),
            Some(e) => !slots_fit(program, program.ops@[i]) && names_misfit(
                program,
                Check::Operands,
                i,
                e,
            ),
        },
{
    let op = program.ops@[i];
    let regs = operands(op).regs;
    assert(regs_fit(program, op, 0));
    if regs.len() > 0 {
        let _ = regs[0];
        if regs[0].0 < program.n_regs {
            assert(regs_fit(program, op, 1));
        }
    }
    if regs.len() > 1 {
        let _ = regs[1];
        if regs[0].0 < program.n_regs && regs[1].0 < program.n_regs {
            assert(regs_fit(program, op, 2));
        }
    }
    if regs.len() > 2 {
        let _ = regs[2];
        if regs[0].0 < program.n_regs && regs[1].0 < program.n_regs && regs[2].0
            < program.n_regs {
            assert(regs_fit(program, op, 3));
        }
    }
}

proof fn lemma_check(program: Program, check: Check, i: int)
    requires
        0 <= i < program.ops@.len() <= usize::MAX,
    ensures
        match program.check_fault(check, i, program.ops@[i]) {
            None => fits(program, check, program.ops@[i]),
            Some(e) => !fits(program, check, program.ops@[i]) && names_misfit(
                program,
                check,
                i,
                e,
            ),
        },
{
    match check {
        Check::Jumps => lemma_jump(program, i),
        Check::Operands => lemma_slots(program, i),
        Check::Constants => lemma_constant(program, i),
    }
}

/// All jumps are looked at first, then all cursors and registers, then all constants. The
/// error is about the first instruction with an operand that does not fit, and names that
/// operand.
pub proof fn law_first_misfit_is_named(program: Program, check: Check)
    ensures
        match program.fault_from(check, 0) {
            None => forall|i: int|
                0 <= i < program.ops@.len() ==> fits(program, check, #[trigger] program.ops@[i]),
            Some(e) => exists|i: int|
                {
                    &&& 0 <= i < program.ops@.len()
                    &&& #[trigger] names_misfit(program, check, i, e)
                    &&& !fits(program, check, program.ops@[i])
                    &&& forall|k: int|
                        0 <= k < i ==> fits(program, check, #[trigger] program.ops@[k])
                },
        },
        program.ops@.len() > 0 && program.ops@.last() is Halt ==> program.fault() == if program.fault_from(
            Check::Jumps,
            0,
        ) is Some {
            program.fault_from(Check::Jumps, 0)
        } else if program.fault_from(Check::Operands, 0) is Some {
            program.fault_from(Check::Operands, 0)
        } else {
            program.fault_from(Check::Constants, 0)
        },
        program.ops@.len() == 0 ==> program.fault() == Some(ValidateError::Empty),
        program.ops@.len() > 0 && !(program.ops@.last() is Halt) ==> program.fault() == Some(
            ValidateError::NotHalted,
        ),
{
    assert(program.ops.len() == program.ops@.len());
    crate::compiler::bytecode::law_first_fault(program, check);
    match program.fault_from(check, 0) {
        None => {
            assert forall|i: int| 0 <= i < program.ops@.len() implies fits(
                program,
                check,
                #[trigger] program.ops@[i],
            ) by {
                lemma_check(program, check, i);
                assert(program.check_fault(check, i, program.ops@[i]) is None);
            }
        },
        Some(e) => {
            let i = choose|i: int|
                {
                    &&& 0 <= i < program.ops@.len()
                    &&& #[trigger] program.check_fault(check, i, program.ops@[i]) == Some(e)
                    &&& forall|k: int|
                        0 <= k < i ==> #[trigger] program.check_fault(
                            check,
                            k,
                            program.ops@[k],
                        ) is None
                };
            lemma_check(program, check, i);
            assert forall|k: int| 0 <= k < i implies fits(
                program,
                check,
                #[trigger] program.ops@[k],
            ) by {
                lemma_check(program, check, k);
                assert(program.check_fault(check, k, program.ops@[k]) is None);
            }
            assert(names_misfit(program, check, i, e));
        },
    }
}

/// Everything that an instruction is made of, but for its operands.
pub struct Parts {
    /// Which instruction it is.
    pub kind: int,
    /// The collection that it names.
    pub name: Seq<char>,
    /// The column.
    pub column: int,
    /// The comparison.
    pub comparison: Option<RangeOp>,
    /// The integer: a value, a number of hits, or a capacity.
    pub integer: int,
    /// The bit pattern of its float.
    pub float: u64,
}

/// An instruction that is made of nothing else.
pub open spec fn bare(kind: int) -> Parts {
    Parts { kind, name: Seq::empty(), column: 0, comparison: None, integer: 0, float: 0 }
}

/// What an instruction is made of, but for its operands.
pub open spec fn parts(op: Op) -> Parts {
    match op {
        Op::OpenRead { collection, .. } => Parts { name: collection@, ..bare(0) },
        Op::OpenWrite { collection, .. } => Parts { name: collection@, ..bare(1) },
        Op::SeekFirst { .. } => bare(2),
        Op::Next { .. } => bare(3),
        Op::Column { col, .. } => Parts { column: col as int, ..bare(4) },
        Op::VectorFetch { .. } => bare(5),
        Op::RowId { .. } => bare(6),
        Op::Score { .. } => bare(7),
        Op::Integer { value, .. } => Parts { integer: value as int, ..bare(8) },
        Op::Real { value, .. } => Parts { float: value, ..bare(9) },
        Op::String { .. } => bare(10),
        Op::VectorConst { .. } => bare(11),
        Op::ResultRow { .. } => bare(12),
        Op::MakeRecord { .. } => bare(13),
        Op::Insert { .. } => bare(14),
        Op::KnnScan { collection, k, .. } => Parts {
            name: collection@,
            integer: k as int,
            ..bare(15)
        },
        Op::BitmapEq { collection, col, .. } => Parts {
            name: collection@,
            column: col as int,
            ..bare(16)
        },
        Op::BitmapRange { collection, col, op, .. } => Parts {
            name: collection@,
            column: col as int,
            comparison: Some(op),
            ..bare(17)
        },
        Op::BitmapAnd { .. } => bare(18),
        Op::BitmapOr { .. } => bare(19),
        Op::BitmapNot { collection, .. } => Parts { name: collection@, ..bare(20) },
        Op::CreateCollection { name, capacity, .. } => Parts {
            name: name@,
            integer: capacity as int,
            ..bare(21)
        },
        Op::Halt => bare(22),
    }
}

/// Two instructions are equal exactly if they are of one kind, refer to the same things and
/// carry the same values, a float being the same if it is the same number.
pub proof fn law_instruction_equality(a: Op, b: Op)
    ensures
        vstd::std_specs::cmp::PartialEqSpec::eq_spec(&a, &b) <==> {
            let (x, y) = (parts(a), parts(b));
            &&& operands(a) == operands(b)
            &&& x.kind == y.kind
            &&& x.name == y.name
            &&& x.column == y.column
            &&& x.comparison == y.comparison
            &&& x.integer == y.integer
            &&& !number::no_number64(x.float) && !number::no_number64(y.float)
            &&& number::number64(x.float) == number::number64(y.float)
        },
{
    number::law_order_is_numeric64(parts(a).float, parts(b).float);
    number::law_order_is_numeric64(0, 0);
    let (p, q) = (operands(a).regs, operands(b).regs);
    if p == q {
        if p.len() > 0 {
            assert(p[0] == q[0]);
        }
        if p.len() > 1 {
            assert(p[1] == q[1]);
        }
        if p.len() > 2 {
            assert(p[2] == q[2]);
        }
    }
}

/// Two constants are equal exactly if they are of one kind and the same, vectors number by
/// number.
pub proof fn law_constant_equality(a: Const, b: Const)
    ensures
        vstd::std_specs::cmp::PartialEqSpec::eq_spec(&a, &b) <==> match (a@, b@) {
            (ConstView::Vector(x), ConstView::Vector(y)) => x.len() == y.len() && forall|i: int|
                0 <= i < x.len() ==> !number::no_number32(#[trigger] x[i]) && !number::no_number32(
                    y[i],
                ) && number::number32(x[i]) == number::number32(y[i]),
            (ConstView::Str(x), ConstView::Str(y)) => x == y,
            (ConstView::Schema(x), ConstView::Schema(y)) => x == y,
            _ => false,
        },
{
    if let (ConstView::Vector(x), ConstView::Vector(y)) = (a@, b@) {
        crate::ranking::law_vector_equality(x, y);
    }
}

} // verus!
