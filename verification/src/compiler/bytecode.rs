//! The instruction set and the structural check of a program.

use vstd::prelude::*;
use vstd::string::*;

use crate::compiler::constants::{ConstId, ConstPool};
use crate::float;
use crate::metadata::common::{ColumnId, RangeOp};
use crate::text;
use crate::text::{join2, join3, numeral};

verus! {

/// A register.
#[derive(Debug, Clone, Copy, PartialEq, Eq, Hash, Structural)]
pub struct Reg(pub u32);

/// A cursor slot.
#[derive(Debug, Clone, Copy, PartialEq, Eq, Hash, Structural)]
pub struct Cursor(pub u8);

/// An instruction index.
#[derive(Debug, Clone, Copy, PartialEq, Eq, Hash, Structural)]
pub struct Addr(pub u32);

/// The address that a forward jump carries until its target is known.
pub const PLACEHOLDER: u32 = 0xffff_ffff;

/// One instruction. Two are equal if all their operands are, floats compared as floats
/// are.
#[derive(Debug, Clone)]
#[allow(inconsistent_fields)]
pub enum Op {
    /// Opens a read cursor before the first row.
    OpenRead {
        /// Cursor slot.
        cur: Cursor,
        /// Collection name.
        collection: String,
        /// A register with the bitmap of rows to walk, or none for every live
        /// row.
        filter: Option<Reg>,
    },
    /// Opens a write cursor.
    OpenWrite {
        /// Cursor slot.
        cur: Cursor,
        /// Collection name.
        collection: String,
    },
    /// Moves to the first row, or jumps to `end` if there is none.
    SeekFirst {
        /// Cursor.
        cur: Cursor,
        /// Loop exit.
        end: Addr,
    },
    /// Moves to the next row and jumps to `body` if there is one.
    Next {
        /// Cursor.
        cur: Cursor,
        /// Loop body.
        body: Addr,
    },
    /// Reads a scalar column of the current row.
    Column {
        /// Cursor.
        cur: Cursor,
        /// Storage column id.
        col: ColumnId,
        /// Destination.
        dst: Reg,
    },
    /// Fetches the embedding of the current row.
    VectorFetch {
        /// Cursor.
        cur: Cursor,
        /// Destination.
        dst: Reg,
    },
    /// Reads the ordinal of the current row.
    RowId {
        /// Cursor.
        cur: Cursor,
        /// Destination.
        dst: Reg,
    },
    /// Reads the similarity score of the current row.
    Score {
        /// Cursor.
        cur: Cursor,
        /// Destination.
        dst: Reg,
    },
    /// Loads an integer.
    Integer {
        /// The value.
        value: i64,
        /// Destination.
        dst: Reg,
    },
    /// Loads a float: the bit pattern.
    Real {
        /// The value.
        value: u64,
        /// Destination.
        dst: Reg,
    },
    /// Loads a pooled string.
    String {
        /// The constant.
        id: ConstId,
        /// Destination.
        dst: Reg,
    },
    /// Loads a pooled vector.
    VectorConst {
        /// The constant.
        id: ConstId,
        /// Destination.
        dst: Reg,
    },
    /// Emits a run of registers as a row.
    ResultRow {
        /// First register.
        start: Reg,
        /// How many.
        count: u32,
    },
    /// Packs a run of registers into a record.
    MakeRecord {
        /// First register.
        start: Reg,
        /// How many.
        count: u32,
        /// Destination.
        dst: Reg,
    },
    /// Writes a record.
    Insert {
        /// Write cursor.
        cur: Cursor,
        /// The record.
        rec: Reg,
    },
    /// Opens a cursor over the `k` nearest rows, nearest first.
    KnnScan {
        /// Cursor slot.
        cur: Cursor,
        /// Collection name.
        collection: String,
        /// Register with the query vector.
        query: Reg,
        /// How many rows.
        k: u64,
        /// A register with the bitmap of rows to rank, or none for every live
        /// row.
        filter: Option<Reg>,
    },
    /// The rows whose column equals a value.
    BitmapEq {
        /// Collection name.
        collection: String,
        /// Storage column id.
        col: ColumnId,
        /// Register with the value.
        value: Reg,
        /// Destination.
        dst: Reg,
    },
    /// The rows whose column compares with a value.
    BitmapRange {
        /// Collection name.
        collection: String,
        /// Storage column id.
        col: ColumnId,
        /// The comparison.
        op: RangeOp,
        /// Register with the value.
        value: Reg,
        /// Destination.
        dst: Reg,
    },
    /// Rows in both bitmaps.
    BitmapAnd {
        /// Left operand.
        a: Reg,
        /// Right operand.
        b: Reg,
        /// Destination.
        dst: Reg,
    },
    /// Rows in either bitmap.
    BitmapOr {
        /// Left operand.
        a: Reg,
        /// Right operand.
        b: Reg,
        /// Destination.
        dst: Reg,
    },
    /// Live rows that are not in a bitmap.
    BitmapNot {
        /// Collection name.
        collection: String,
        /// Operand.
        src: Reg,
        /// Destination.
        dst: Reg,
    },
    /// Provisions a collection.
    CreateCollection {
        /// The new name.
        name: String,
        /// The schema.
        schema: ConstId,
        /// The capacity.
        capacity: u64,
    },
    /// Stops.
    Halt,
}

impl PartialEq for Op {
    fn eq(&self, other: &Op) -> (r: bool) {
        match (self, other) {
            (
                Op::OpenRead { cur: cur1, collection: collection1, filter: filter1 },
                Op::OpenRead { cur: cur2, collection: collection2, filter: filter2 },
            ) => *cur1 == *cur2 && *collection1 == *collection2 && same_filter(*filter1, *filter2),
            (
                Op::OpenWrite { cur: cur1, collection: collection1 },
                Op::OpenWrite { cur: cur2, collection: collection2 },
            ) => *cur1 == *cur2 && *collection1 == *collection2,
            (
                Op::SeekFirst { cur: cur1, end: end1 },
                Op::SeekFirst { cur: cur2, end: end2 },
            ) => *cur1 == *cur2 && *end1 == *end2,
            (
                Op::Next { cur: cur1, body: body1 },
                Op::Next { cur: cur2, body: body2 },
            ) => *cur1 == *cur2 && *body1 == *body2,
            (
                Op::Column { cur: cur1, col: col1, dst: dst1 },
                Op::Column { cur: cur2, col: col2, dst: dst2 },
            ) => *cur1 == *cur2 && *col1 == *col2 && *dst1 == *dst2,
            (
                Op::VectorFetch { cur: cur1, dst: dst1 },
                Op::VectorFetch { cur: cur2, dst: dst2 },
            ) => *cur1 == *cur2 && *dst1 == *dst2,
            (
                Op::RowId { cur: cur1, dst: dst1 },
                Op::RowId { cur: cur2, dst: dst2 },
            ) => *cur1 == *cur2 && *dst1 == *dst2,
            (
                Op::Score { cur: cur1, dst: dst1 },
                Op::Score { cur: cur2, dst: dst2 },
            ) => *cur1 == *cur2 && *dst1 == *dst2,
            (
                Op::Integer { value: value1, dst: dst1 },
                Op::Integer { value: value2, dst: dst2 },
            ) => *value1 == *value2 && *dst1 == *dst2,
            (
                Op::Real { value: value1, dst: dst1 },
                Op::Real { value: value2, dst: dst2 },
            ) => float::is_equal64(*value1, *value2) && *dst1 == *dst2,
            (
                Op::String { id: id1, dst: dst1 },
                Op::String { id: id2, dst: dst2 },
            ) => *id1 == *id2 && *dst1 == *dst2,
            (
                Op::VectorConst { id: id1, dst: dst1 },
                Op::VectorConst { id: id2, dst: dst2 },
            ) => *id1 == *id2 && *dst1 == *dst2,
            (
                Op::ResultRow { start: start1, count: count1 },
                Op::ResultRow { start: start2, count: count2 },
            ) => *start1 == *start2 && *count1 == *count2,
            (
                Op::MakeRecord { start: start1, count: count1, dst: dst1 },
                Op::MakeRecord { start: start2, count: count2, dst: dst2 },
            ) => *start1 == *start2 && *count1 == *count2 && *dst1 == *dst2,
            (
                Op::Insert { cur: cur1, rec: rec1 },
                Op::Insert { cur: cur2, rec: rec2 },
            ) => *cur1 == *cur2 && *rec1 == *rec2,
            (
                Op::KnnScan {
                    cur: cur1,
                    collection: collection1,
                    query: query1,
                    k: k1,
                    filter: filter1,
                },
                Op::KnnScan {
                    cur: cur2,
                    collection: collection2,
                    query: query2,
                    k: k2,
                    filter: filter2,
                },
            ) => *cur1 == *cur2 && *collection1 == *collection2 && *query1 == *query2
                && *k1 == *k2 && same_filter(*filter1, *filter2),
            (
                Op::BitmapEq { collection: collection1, col: col1, value: value1, dst: dst1 },
                Op::BitmapEq { collection: collection2, col: col2, value: value2, dst: dst2 },
            ) => *collection1 == *collection2 && *col1 == *col2 && *value1 == *value2
                && *dst1 == *dst2,
            (
                Op::BitmapRange {
                    collection: collection1,
                    col: col1,
                    op: op1,
                    value: value1,
                    dst: dst1,
                },
                Op::BitmapRange {
                    collection: collection2,
                    col: col2,
                    op: op2,
                    value: value2,
                    dst: dst2,
                },
            ) => *collection1 == *collection2 && *col1 == *col2 && *op1 == *op2
                && *value1 == *value2 && *dst1 == *dst2,
            (
                Op::BitmapAnd { a: a1, b: b1, dst: dst1 },
                Op::BitmapAnd { a: a2, b: b2, dst: dst2 },
            ) => *a1 == *a2 && *b1 == *b2 && *dst1 == *dst2,
            (
                Op::BitmapOr { a: a1, b: b1, dst: dst1 },
                Op::BitmapOr { a: a2, b: b2, dst: dst2 },
            ) => *a1 == *a2 && *b1 == *b2 && *dst1 == *dst2,
            (
                Op::BitmapNot { collection: collection1, src: src1, dst: dst1 },
                Op::BitmapNot { collection: collection2, src: src2, dst: dst2 },
            ) => *collection1 == *collection2 && *src1 == *src2 && *dst1 == *dst2,
            (
                Op::CreateCollection { name: name1, schema: schema1, capacity: capacity1 },
                Op::CreateCollection { name: name2, schema: schema2, capacity: capacity2 },
            ) => *name1 == *name2 && *schema1 == *schema2 && *capacity1 == *capacity2,
            (
                Op::Halt,
                Op::Halt,
            ) => true,
            _ => false,
        }
    }
}

impl vstd::std_specs::cmp::PartialEqSpecImpl for Op {
    open spec fn obeys_eq_spec() -> bool {
        true
    }

    open spec fn eq_spec(&self, other: &Op) -> bool {
        match (self, other) {
            (
                Op::OpenRead { cur: cur1, collection: collection1, filter: filter1 },
                Op::OpenRead { cur: cur2, collection: collection2, filter: filter2 },
            ) => *cur1 == *cur2 && collection1@ == collection2@ && *filter1 == *filter2,
            (
                Op::OpenWrite { cur: cur1, collection: collection1 },
                Op::OpenWrite { cur: cur2, collection: collection2 },
            ) => *cur1 == *cur2 && collection1@ == collection2@,
            (
                Op::SeekFirst { cur: cur1, end: end1 },
                Op::SeekFirst { cur: cur2, end: end2 },
            ) => *cur1 == *cur2 && *end1 == *end2,
            (
                Op::Next { cur: cur1, body: body1 },
                Op::Next { cur: cur2, body: body2 },
            ) => *cur1 == *cur2 && *body1 == *body2,
            (
                Op::Column { cur: cur1, col: col1, dst: dst1 },
                Op::Column { cur: cur2, col: col2, dst: dst2 },
            ) => *cur1 == *cur2 && *col1 == *col2 && *dst1 == *dst2,
            (
                Op::VectorFetch { cur: cur1, dst: dst1 },
                Op::VectorFetch { cur: cur2, dst: dst2 },
            ) => *cur1 == *cur2 && *dst1 == *dst2,
            (
                Op::RowId { cur: cur1, dst: dst1 },
                Op::RowId { cur: cur2, dst: dst2 },
            ) => *cur1 == *cur2 && *dst1 == *dst2,
            (
                Op::Score { cur: cur1, dst: dst1 },
                Op::Score { cur: cur2, dst: dst2 },
            ) => *cur1 == *cur2 && *dst1 == *dst2,
            (
                Op::Integer { value: value1, dst: dst1 },
                Op::Integer { value: value2, dst: dst2 },
            ) => *value1 == *value2 && *dst1 == *dst2,
            (
                Op::Real { value: value1, dst: dst1 },
                Op::Real { value: value2, dst: dst2 },
            ) => float::equal64(*value1, *value2) && *dst1 == *dst2,
            (
                Op::String { id: id1, dst: dst1 },
                Op::String { id: id2, dst: dst2 },
            ) => *id1 == *id2 && *dst1 == *dst2,
            (
                Op::VectorConst { id: id1, dst: dst1 },
                Op::VectorConst { id: id2, dst: dst2 },
            ) => *id1 == *id2 && *dst1 == *dst2,
            (
                Op::ResultRow { start: start1, count: count1 },
                Op::ResultRow { start: start2, count: count2 },
            ) => *start1 == *start2 && *count1 == *count2,
            (
                Op::MakeRecord { start: start1, count: count1, dst: dst1 },
                Op::MakeRecord { start: start2, count: count2, dst: dst2 },
            ) => *start1 == *start2 && *count1 == *count2 && *dst1 == *dst2,
            (
                Op::Insert { cur: cur1, rec: rec1 },
                Op::Insert { cur: cur2, rec: rec2 },
            ) => *cur1 == *cur2 && *rec1 == *rec2,
            (
                Op::KnnScan {
                    cur: cur1,
                    collection: collection1,
                    query: query1,
                    k: k1,
                    filter: filter1,
                },
                Op::KnnScan {
                    cur: cur2,
                    collection: collection2,
                    query: query2,
                    k: k2,
                    filter: filter2,
                },
            ) => *cur1 == *cur2 && collection1@ == collection2@ && *query1 == *query2
                && *k1 == *k2 && *filter1 == *filter2,
            (
                Op::BitmapEq { collection: collection1, col: col1, value: value1, dst: dst1 },
                Op::BitmapEq { collection: collection2, col: col2, value: value2, dst: dst2 },
            ) => collection1@ == collection2@ && *col1 == *col2 && *value1 == *value2
                && *dst1 == *dst2,
            (
                Op::BitmapRange {
                    collection: collection1,
                    col: col1,
                    op: op1,
                    value: value1,
                    dst: dst1,
                },
                Op::BitmapRange {
                    collection: collection2,
                    col: col2,
                    op: op2,
                    value: value2,
                    dst: dst2,
                },
            ) => collection1@ == collection2@ && *col1 == *col2 && *op1 == *op2
                && *value1 == *value2 && *dst1 == *dst2,
            (
                Op::BitmapAnd { a: a1, b: b1, dst: dst1 },
                Op::BitmapAnd { a: a2, b: b2, dst: dst2 },
            ) => *a1 == *a2 && *b1 == *b2 && *dst1 == *dst2,
            (
                Op::BitmapOr { a: a1, b: b1, dst: dst1 },
                Op::BitmapOr { a: a2, b: b2, dst: dst2 },
            ) => *a1 == *a2 && *b1 == *b2 && *dst1 == *dst2,
            (
                Op::BitmapNot { collection: collection1, src: src1, dst: dst1 },
                Op::BitmapNot { collection: collection2, src: src2, dst: dst2 },
            ) => collection1@ == collection2@ && *src1 == *src2 && *dst1 == *dst2,
            (
                Op::CreateCollection { name: name1, schema: schema1, capacity: capacity1 },
                Op::CreateCollection { name: name2, schema: schema2, capacity: capacity2 },
            ) => name1@ == name2@ && *schema1 == *schema2 && *capacity1 == *capacity2,
            (
                Op::Halt,
                Op::Halt,
            ) => true,
            _ => false,
        }
    }
}

fn same_filter(a: Option<Reg>, b: Option<Reg>) -> (r: bool)
    ensures
        r == (a == b),
{
    match (a, b) {
        (Some(a), Some(b)) => a == b,
        (None, None) => true,
        _ => false,
    }
}

/// A compiled program.
#[derive(Debug, Clone, PartialEq)]
pub struct Program {
    /// The instructions.
    pub ops: Vec<Op>,
    /// The constants.
    pub consts: ConstPool,
    /// How many registers it uses.
    pub n_regs: u32,
    /// How many cursor slots it uses.
    pub n_cursors: u8,
}

/// Why a program is malformed. `at` is the index of the instruction.
#[derive(Debug, Clone, Copy, PartialEq, Eq, Structural)]
pub enum ValidateError {
    /// No instruction.
    Empty,
    /// The last instruction does not stop.
    NotHalted,
    /// A jump without a target.
    UnpatchedJump {
        /// The jump.
        at: usize,
    },
    /// A jump past the end.
    JumpOutOfRange {
        /// The jump.
        at: usize,
        /// Its target.
        target: usize,
    },
    /// A register that the program does not have.
    RegOutOfRange {
        /// The instruction.
        at: usize,
        /// The register.
        reg: u32,
    },
    /// A cursor that the program does not have.
    CursorOutOfRange {
        /// The instruction.
        at: usize,
        /// The cursor.
        cursor: u8,
    },
    /// A constant that the pool does not have.
    BadConstRef {
        /// The instruction.
        at: usize,
        /// The handle.
        id: usize,
    },
}

impl ValidateError {
    /// The text shown to the user.
    pub open spec fn message(self) -> Seq<char> {
        match self {
            ValidateError::Empty => "empty program"@,
            ValidateError::NotHalted => "program does not end in Halt"@,
            ValidateError::UnpatchedJump { at } => "unpatched jump at op "@ + text::decimal(
                at as nat,
            ),
            ValidateError::JumpOutOfRange { at, target } => "jump at op "@ + text::decimal(
                at as nat,
            ) + " targets out-of-range address "@ + text::decimal(target as nat),
            ValidateError::RegOutOfRange { at, reg } => "op "@ + text::decimal(at as nat)
                + " references out-of-range register r"@ + text::decimal(reg as nat),
            ValidateError::CursorOutOfRange { at, cursor } => "op "@ + text::decimal(at as nat)
                + " references out-of-range cursor "@ + text::decimal(cursor as nat),
            ValidateError::BadConstRef { at, id } => "op "@ + text::decimal(at as nat)
                + " references out-of-range constant #"@ + text::decimal(id as nat),
        }
    }

    /// The text shown to the user.
    pub fn to_text(&self) -> (s: String)
        ensures
            s@ == self.message(),
    {
        match self {
            ValidateError::Empty => "empty program".to_owned(),
            ValidateError::NotHalted => "program does not end in Halt".to_owned(),
            ValidateError::UnpatchedJump { at } => join2(
                "unpatched jump at op ",
                numeral(*at as u64).as_str(),
            ),
            ValidateError::JumpOutOfRange { at, target } => {
                let mut s = join3(
                    "jump at op ",
                    numeral(*at as u64).as_str(),
                    " targets out-of-range address ",
                );
                s.append(numeral(*target as u64).as_str());
                s
            },
            ValidateError::RegOutOfRange { at, reg } => {
                let mut s = join3(
                    "op ",
                    numeral(*at as u64).as_str(),
                    " references out-of-range register r",
                );
                s.append(numeral(*reg as u64).as_str());
                s
            },
            ValidateError::CursorOutOfRange { at, cursor } => {
                let mut s = join3(
                    "op ",
                    numeral(*at as u64).as_str(),
                    " references out-of-range cursor ",
                );
                s.append(numeral(*cursor as u64).as_str());
                s
            },
            ValidateError::BadConstRef { at, id } => {
                let mut s = join3(
                    "op ",
                    numeral(*at as u64).as_str(),
                    " references out-of-range constant #",
                );
                s.append(numeral(*id as u64).as_str());
                s
            },
        }
    }
}

/// One of the checks that go over all instructions of a program.
#[derive(Debug, Clone, Copy, PartialEq, Eq, Structural)]
pub enum Check {
    /// Every jump has a target, within the program.
    Jumps,
    /// Every register and every cursor is one of the program's.
    Operands,
    /// Every constant is in the pool.
    Constants,
}

/// The first of two faults.
pub open spec fn first_of(
    a: Option<ValidateError>,
    b: Option<ValidateError>,
) -> Option<ValidateError> {
    if a is Some {
        a
    } else {
        b
    }
}

impl Program {
    /// A register beyond the program's.
    pub open spec fn reg_fault(self, at: int, r: Reg) -> Option<ValidateError> {
        if r.0 < self.n_regs {
            None
        } else {
            Some(ValidateError::RegOutOfRange { at: at as usize, reg: r.0 })
        }
    }

    /// A register that may be absent.
    pub open spec fn filter_fault(self, at: int, r: Option<Reg>) -> Option<ValidateError> {
        match r {
            Some(r) => self.reg_fault(at, r),
            None => None,
        }
    }

    /// A run of registers that ends beyond the program's: the fault names the
    /// first register of the run that is out of range.
    pub open spec fn run_fault(self, at: int, start: Reg, count: u32) -> Option<ValidateError> {
        if start.0 + count <= self.n_regs {
            None
        } else {
            Some(
                ValidateError::RegOutOfRange {
                    at: at as usize,
                    reg: if start.0 < self.n_regs {
                        self.n_regs
                    } else {
                        start.0
                    },
                },
            )
        }
    }

    /// A cursor beyond the program's.
    pub open spec fn cursor_fault(self, at: int, c: Cursor) -> Option<ValidateError> {
        if c.0 < self.n_cursors {
            None
        } else {
            Some(ValidateError::CursorOutOfRange { at: at as usize, cursor: c.0 })
        }
    }

    /// A jump without a target, or past the end.
    pub open spec fn addr_fault(self, at: int, a: Addr) -> Option<ValidateError> {
        if a.0 == PLACEHOLDER {
            Some(ValidateError::UnpatchedJump { at: at as usize })
        } else if a.0 < self.ops@.len() {
            None
        } else {
            Some(ValidateError::JumpOutOfRange { at: at as usize, target: a.0 as usize })
        }
    }

    /// A constant that the pool does not have.
    pub open spec fn const_fault(self, at: int, id: ConstId) -> Option<ValidateError> {
        if id.0 < self.consts@.len() {
            None
        } else {
            Some(ValidateError::BadConstRef { at: at as usize, id: id.0 as usize })
        }
    }

    /// What is wrong with the jump of one instruction, if anything.
    pub open spec fn jump_fault(self, at: int, op: Op) -> Option<ValidateError> {
        match op {
            Op::SeekFirst { end, .. } => self.addr_fault(at, end),
            Op::Next { body, .. } => self.addr_fault(at, body),
            _ => None,
        }
    }

    /// What is wrong with the cursor and the registers of one instruction, if
    /// anything: the cursor before the registers, and these in order.
    pub open spec fn operand_fault(self, at: int, op: Op) -> Option<ValidateError> {
        match op {
            Op::OpenRead { cur, filter, .. } => first_of(
                self.cursor_fault(at, cur),
                self.filter_fault(at, filter),
            ),
            Op::OpenWrite { cur, .. } => self.cursor_fault(at, cur),
            Op::SeekFirst { cur, .. } => self.cursor_fault(at, cur),
            Op::Next { cur, .. } => self.cursor_fault(at, cur),
            Op::Column { cur, dst, .. } => first_of(
                self.cursor_fault(at, cur),
                self.reg_fault(at, dst),
            ),
            Op::VectorFetch { cur, dst } => first_of(
                self.cursor_fault(at, cur),
                self.reg_fault(at, dst),
            ),
            Op::RowId { cur, dst } => first_of(
                self.cursor_fault(at, cur),
                self.reg_fault(at, dst),
            ),
            Op::Score { cur, dst } => first_of(
                self.cursor_fault(at, cur),
                self.reg_fault(at, dst),
            ),
            Op::Integer { dst, .. } => self.reg_fault(at, dst),
            Op::Real { dst, .. } => self.reg_fault(at, dst),
            Op::String { dst, .. } => self.reg_fault(at, dst),
            Op::VectorConst { dst, .. } => self.reg_fault(at, dst),
            Op::ResultRow { start, count } => self.run_fault(at, start, count),
            Op::MakeRecord { start, count, dst } => first_of(
                self.run_fault(at, start, count),
                self.reg_fault(at, dst),
            ),
            Op::Insert { cur, rec } => first_of(
                self.cursor_fault(at, cur),
                self.reg_fault(at, rec),
            ),
            Op::KnnScan { cur, query, filter, .. } => first_of(
                self.cursor_fault(at, cur),
                first_of(self.reg_fault(at, query), self.filter_fault(at, filter)),
            ),
            Op::BitmapEq { value, dst, .. } => first_of(
                self.reg_fault(at, value),
                self.reg_fault(at, dst),
            ),
            Op::BitmapRange { value, dst, .. } => first_of(
                self.reg_fault(at, value),
                self.reg_fault(at, dst),
            ),
            Op::BitmapAnd { a, b, dst } => first_of(
                self.reg_fault(at, a),
                first_of(self.reg_fault(at, b), self.reg_fault(at, dst)),
            ),
            Op::BitmapOr { a, b, dst } => first_of(
                self.reg_fault(at, a),
                first_of(self.reg_fault(at, b), self.reg_fault(at, dst)),
            ),
            Op::BitmapNot { src, dst, .. } => first_of(
                self.reg_fault(at, src),
                self.reg_fault(at, dst),
            ),
            Op::CreateCollection { .. } => None,
            Op::Halt => None,
        }
    }

    /// What is wrong with the constant of one instruction, if anything.
    pub open spec fn pool_fault(self, at: int, op: Op) -> Option<ValidateError> {
        match op {
            Op::String { id, .. } => self.const_fault(at, id),
            Op::VectorConst { id, .. } => self.const_fault(at, id),
            Op::CreateCollection { schema, .. } => self.const_fault(at, schema),
            _ => None,
        }
    }

    /// What one check says of one instruction.
    pub open spec fn check_fault(self, check: Check, at: int, op: Op) -> Option<ValidateError> {
        match check {
            Check::Jumps => self.jump_fault(at, op),
            Check::Operands => self.operand_fault(at, op),
            Check::Constants => self.pool_fault(at, op),
        }
    }

    /// What is wrong with one instruction, if anything.
    pub open spec fn op_fault(self, at: int, op: Op) -> Option<ValidateError> {
        first_of(
            self.jump_fault(at, op),
            first_of(self.operand_fault(at, op), self.pool_fault(at, op)),
        )
    }

    /// The first fault that one check finds among the instructions from `i` on.
    pub open spec fn fault_from(self, check: Check, i: int) -> Option<ValidateError>
        decreases self.ops@.len() - i,
    {
        if i < 0 || i >= self.ops@.len() {
            None
        } else {
            first_of(self.check_fault(check, i, self.ops@[i]), self.fault_from(check, i + 1))
        }
    }

    /// What is wrong with the program, if anything. It must not be empty, and it
    /// must end in a stop; then every jump is checked, then every register and
    /// cursor, and then every constant.
    pub open spec fn fault(self) -> Option<ValidateError> {
        if self.ops@.len() == 0 {
            Some(ValidateError::Empty)
        } else if self.ops@.last() !is Halt {
            Some(ValidateError::NotHalted)
        } else {
            first_of(
                self.fault_from(Check::Jumps, 0),
                first_of(
                    self.fault_from(Check::Operands, 0),
                    self.fault_from(Check::Constants, 0),
                ),
            )
        }
    }

    /// Checks that the program is well-formed, whatever its instructions do. In
    /// order: it is not empty and ends in a stop; every jump has a target within
    /// the program; every register and every cursor is one of the program's; every
    /// constant is in the pool.
    pub fn validate(&self) -> (r: Result<(), ValidateError>)
        ensures
            match self.fault() {
                Some(e) => r == Err::<(), ValidateError>(e),
                None => r is Ok,
            },
    {
        let n: usize = self.ops.len();
        if n == 0 {
            return Err(ValidateError::Empty);
        }
        match &self.ops[n - 1] {
            Op::Halt => {},
            _ => {
                return Err(ValidateError::NotHalted);
            },
        }
        self.check_all(Check::Jumps)?;
        self.check_all(Check::Operands)?;
        self.check_all(Check::Constants)
    }

    /// Runs one check over all instructions.
    fn check_all(&self, check: Check) -> (r: Result<(), ValidateError>)
        ensures
            match self.fault_from(check, 0) {
                Some(e) => r == Err::<(), ValidateError>(e),
                None => r is Ok,
            },
    {
        let n: usize = self.ops.len();
        let mut at: usize = 0;
        while at < n
            invariant
                at <= n,
                n == self.ops@.len(),
                self.fault_from(check, 0) == self.fault_from(check, at as int),
            decreases n - at,
        {
            let r: Result<(), ValidateError> = match check {
                Check::Jumps => self.check_jump(at),
                Check::Operands => self.check_operands(at),
                Check::Constants => self.check_constant(at),
            };
            match r {
                Ok(()) => {},
                Err(e) => {
                    return Err(e);
                },
            }
            at += 1;
        }
        Ok(())
    }

    fn check_jump(&self, at: usize) -> (r: Result<(), ValidateError>)
        requires
            at < self.ops@.len(),
        ensures
            match self.jump_fault(at as int, self.ops@[at as int]) {
                Some(e) => r == Err::<(), ValidateError>(e),
                None => r is Ok,
            },
    {
        match &self.ops[at] {
            Op::SeekFirst { end, .. } => self.check_addr(at, *end),
            Op::Next { body, .. } => self.check_addr(at, *body),
            _ => Ok(()),
        }
    }

    fn check_constant(&self, at: usize) -> (r: Result<(), ValidateError>)
        requires
            at < self.ops@.len(),
        ensures
            match self.pool_fault(at as int, self.ops@[at as int]) {
                Some(e) => r == Err::<(), ValidateError>(e),
                None => r is Ok,
            },
    {
        match &self.ops[at] {
            Op::String { id, .. } | Op::VectorConst { id, .. } => self.check_const(at, *id),
            Op::CreateCollection { schema, .. } => self.check_const(at, *schema),
            _ => Ok(()),
        }
    }

    fn check_operands(&self, at: usize) -> (r: Result<(), ValidateError>)
        requires
            at < self.ops@.len(),
        ensures
            match self.operand_fault(at as int, self.ops@[at as int]) {
                Some(e) => r == Err::<(), ValidateError>(e),
                None => r is Ok,
            },
    {
        match &self.ops[at] {
            Op::OpenRead { cur, filter, .. } => {
                self.check_cursor(at, *cur)?;
                if let Some(r) = filter {
                    self.check_reg(at, *r)?;
                }
            },
            Op::OpenWrite { cur, .. } | Op::SeekFirst { cur, .. } | Op::Next { cur, .. } => {
                self.check_cursor(at, *cur)?;
            },
            Op::Column { cur, dst, .. } => {
                self.check_cursor(at, *cur)?;
                self.check_reg(at, *dst)?;
            },
            Op::VectorFetch { cur, dst } | Op::RowId { cur, dst } | Op::Score { cur, dst } => {
                self.check_cursor(at, *cur)?;
                self.check_reg(at, *dst)?;
            },
            Op::Integer { dst, .. } | Op::Real { dst, .. } | Op::String { dst, .. }
            | Op::VectorConst { dst, .. } => {
                self.check_reg(at, *dst)?;
            },
            Op::ResultRow { start, count } => {
                self.check_reg_run(at, *start, *count)?;
            },
            Op::MakeRecord { start, count, dst } => {
                self.check_reg_run(at, *start, *count)?;
                self.check_reg(at, *dst)?;
            },
            Op::Insert { cur, rec } => {
                self.check_cursor(at, *cur)?;
                self.check_reg(at, *rec)?;
            },
            Op::KnnScan { cur, query, filter, .. } => {
                self.check_cursor(at, *cur)?;
                self.check_reg(at, *query)?;
                if let Some(r) = filter {
                    self.check_reg(at, *r)?;
                }
            },
            Op::BitmapEq { value, dst, .. } | Op::BitmapRange { value, dst, .. } => {
                self.check_reg(at, *value)?;
                self.check_reg(at, *dst)?;
            },
            Op::BitmapAnd { a, b, dst } | Op::BitmapOr { a, b, dst } => {
                self.check_reg(at, *a)?;
                self.check_reg(at, *b)?;
                self.check_reg(at, *dst)?;
            },
            Op::BitmapNot { src, dst, .. } => {
                self.check_reg(at, *src)?;
                self.check_reg(at, *dst)?;
            },
            Op::CreateCollection { .. } | Op::Halt => {},
        }
        Ok(())
    }

    fn check_reg(&self, at: usize, r: Reg) -> (res: Result<(), ValidateError>)
        ensures
            match self.reg_fault(at as int, r) {
                Some(e) => res == Err::<(), ValidateError>(e),
                None => res is Ok,
            },
    {
        if r.0 < self.n_regs {
            Ok(())
        } else {
            Err(ValidateError::RegOutOfRange { at, reg: r.0 })
        }
    }

    fn check_reg_run(&self, at: usize, start: Reg, count: u32) -> (res: Result<(), ValidateError>)
        ensures
            match self.run_fault(at as int, start, count) {
                Some(e) => res == Err::<(), ValidateError>(e),
                None => res is Ok,
            },
    {
        let end: u64 = start.0 as u64 + count as u64;
        if end <= self.n_regs as u64 {
            Ok(())
        } else {
            let reg: u32 = if start.0 < self.n_regs {
                self.n_regs
            } else {
                start.0
            };
            Err(ValidateError::RegOutOfRange { at, reg })
        }
    }

    fn check_cursor(&self, at: usize, c: Cursor) -> (res: Result<(), ValidateError>)
        ensures
            match self.cursor_fault(at as int, c) {
                Some(e) => res == Err::<(), ValidateError>(e),
                None => res is Ok,
            },
    {
        if c.0 < self.n_cursors {
            Ok(())
        } else {
            Err(ValidateError::CursorOutOfRange { at, cursor: c.0 })
        }
    }

    fn check_addr(&self, at: usize, a: Addr) -> (res: Result<(), ValidateError>)
        ensures
            match self.addr_fault(at as int, a) {
                Some(e) => res == Err::<(), ValidateError>(e),
                None => res is Ok,
            },
    {
        if a.0 == PLACEHOLDER {
            return Err(ValidateError::UnpatchedJump { at });
        }
        if (a.0 as usize) < self.ops.len() {
            Ok(())
        } else {
            Err(ValidateError::JumpOutOfRange { at, target: a.0 as usize })
        }
    }

    fn check_const(&self, at: usize, id: ConstId) -> (res: Result<(), ValidateError>)
        ensures
            match self.const_fault(at as int, id) {
                Some(e) => res == Err::<(), ValidateError>(e),
                None => res is Ok,
            },
    {
        if (id.0 as usize) < self.consts.len() {
            Ok(())
        } else {
            Err(ValidateError::BadConstRef { at, id: id.0 as usize })
        }
    }
}

/// A program passes exactly if it ends in a stop and no instruction has a fault.
pub proof fn law_valid_means_no_fault(program: Program)
    ensures
        program.fault() is None <==> {
            &&& program.ops@.len() > 0
            &&& program.ops@.last() is Halt
            &&& forall|i: int|
                0 <= i < program.ops@.len() ==> #[trigger] program.op_fault(
                    i,
                    program.ops@[i],
                ) is None
        },
{
    let ops = program.ops@;
    law_first_fault(program, Check::Jumps);
    law_first_fault(program, Check::Operands);
    law_first_fault(program, Check::Constants);
    if program.fault() is None {
        assert forall|i: int| 0 <= i < ops.len() implies #[trigger] program.op_fault(
            i,
            ops[i],
        ) is None by {
            assert(program.check_fault(Check::Jumps, i, ops[i]) is None);
            assert(program.check_fault(Check::Operands, i, ops[i]) is None);
            assert(program.check_fault(Check::Constants, i, ops[i]) is None);
        }
    } else if ops.len() > 0 && ops.last() is Halt {
        let check = if program.fault_from(Check::Jumps, 0) is Some {
            Check::Jumps
        } else if program.fault_from(Check::Operands, 0) is Some {
            Check::Operands
        } else {
            Check::Constants
        };
        let i = choose|i: int|
            0 <= i < ops.len() && #[trigger] program.check_fault(check, i, ops[i]) is Some;
        assert(program.op_fault(i, ops[i]) is Some);
    }
}

/// A check passes exactly if it finds nothing wrong with any instruction; otherwise
/// it reports the first instruction that it finds wrong.
pub proof fn law_first_fault(program: Program, check: Check)
    ensures
        match program.fault_from(check, 0) {
            None => forall|i: int|
                0 <= i < program.ops@.len() ==> #[trigger] program.check_fault(
                    check,
                    i,
                    program.ops@[i],
                ) is None,
            Some(e) => exists|i: int|
                {
                    &&& 0 <= i < program.ops@.len()
                    &&& #[trigger] program.check_fault(check, i, program.ops@[i]) == Some(e)
                    &&& forall|k: int|
                        0 <= k < i ==> #[trigger] program.check_fault(
                            check,
                            k,
                            program.ops@[k],
                        ) is None
                },
        },
{
    lemma_first_fault(program, check, 0);
}

proof fn lemma_first_fault(program: Program, check: Check, from: int)
    requires
        0 <= from <= program.ops@.len(),
    ensures
        match program.fault_from(check, from) {
            None => forall|i: int|
                from <= i < program.ops@.len() ==> #[trigger] program.check_fault(
                    check,
                    i,
                    program.ops@[i],
                ) is None,
            Some(e) => exists|i: int|
                {
                    &&& from <= i < program.ops@.len()
                    &&& #[trigger] program.check_fault(check, i, program.ops@[i]) == Some(e)
                    &&& forall|k: int|
                        from <= k < i ==> #[trigger] program.check_fault(
                            check,
                            k,
                            program.ops@[k],
                        ) is None
                },
        },
    decreases program.ops@.len() - from,
{
    let ops = program.ops@;
    if from < ops.len() {
        lemma_first_fault(program, check, from + 1);
        if program.check_fault(check, from, ops[from]) is None {
            if let Some(e) = program.fault_from(check, from + 1) {
                let i = choose|i: int|
                    {
                        &&& from + 1 <= i < ops.len()
                        &&& #[trigger] program.check_fault(check, i, ops[i]) == Some(e)
                        &&& forall|k: int|
                            from + 1 <= k < i ==> #[trigger] program.check_fault(
                                check,
                                k,
                                ops[k],
                            ) is None
                    };
                assert(program.check_fault(check, i, ops[i]) == Some(e));
            }
        }
    }
}

/// Every register, cursor, jump and constant that an instruction names is one of the
/// program's.
pub open spec fn names_only_its_own(program: Program, op: Op) -> bool {
    let reg = |r: Reg| r.0 < program.n_regs;
    let may = |r: Option<Reg>| r matches Some(r) ==> r.0 < program.n_regs;
    let cursor = |c: Cursor| c.0 < program.n_cursors;
    let jump = |a: Addr| a.0 != 0xffff_ffff && a.0 < program.ops@.len();
    let constant = |id: ConstId| id.0 < program.consts@.len();
    match op {
        Op::OpenRead { cur, filter, .. } => cursor(cur) && may(filter),
        Op::OpenWrite { cur, .. } => cursor(cur),
        Op::SeekFirst { cur, end } => cursor(cur) && jump(end),
        Op::Next { cur, body } => cursor(cur) && jump(body),
        Op::Column { cur, dst, .. } => cursor(cur) && reg(dst),
        Op::VectorFetch { cur, dst } => cursor(cur) && reg(dst),
        Op::RowId { cur, dst } => cursor(cur) && reg(dst),
        Op::Score { cur, dst } => cursor(cur) && reg(dst),
        Op::Integer { dst, .. } => reg(dst),
        Op::Real { dst, .. } => reg(dst),
        Op::String { id, dst } => constant(id) && reg(dst),
        Op::VectorConst { id, dst } => constant(id) && reg(dst),
        Op::ResultRow { start, count } => start.0 + count <= program.n_regs,
        Op::MakeRecord { start, count, dst } => start.0 + count <= program.n_regs && reg(dst),
        Op::Insert { cur, rec } => cursor(cur) && reg(rec),
        Op::KnnScan { cur, query, filter, .. } => cursor(cur) && reg(query) && may(filter),
        Op::BitmapEq { value, dst, .. } => reg(value) && reg(dst),
        Op::BitmapRange { value, dst, .. } => reg(value) && reg(dst),
        Op::BitmapAnd { a, b, dst } => reg(a) && reg(b) && reg(dst),
        Op::BitmapOr { a, b, dst } => reg(a) && reg(b) && reg(dst),
        Op::BitmapNot { src, dst, .. } => reg(src) && reg(dst),
        Op::CreateCollection { schema, .. } => constant(schema),
        Op::Halt => true,
    }
}

/// A program passes exactly if it ends in a stop and every instruction names only what the
/// program has.
pub proof fn law_valid_program_names_only_its_own(program: Program)
    ensures
        program.fault() is None <==> {
            &&& program.ops@.len() > 0
            &&& program.ops@[program.ops@.len() - 1] is Halt
            &&& forall|i: int|
                0 <= i < program.ops@.len() ==> names_only_its_own(
                    program,
                    #[trigger] program.ops@[i],
                )
        },
{
    law_valid_means_no_fault(program);
    let ops = program.ops@;
    assert forall|i: int| 0 <= i < ops.len() implies (program.op_fault(i, #[trigger] ops[i]) is None
        <==> names_only_its_own(program, ops[i])) by {}
    if program.fault() is None {
        assert forall|i: int| 0 <= i < ops.len() implies names_only_its_own(
            program,
            #[trigger] ops[i],
        ) by {
            assert(program.op_fault(i, ops[i]) is None);
        }
    }
}

/// What a refusal says of a program is true: there is such an instruction, and it has an
/// operand that the program does not have. A jump is reported before a register or cursor,
/// and these before a constant.
pub proof fn law_refusal_is_true(program: Program)
    ensures
        match program.fault() {
            None => true,
            Some(ValidateError::Empty) => program.ops@.len() == 0,
            Some(ValidateError::NotHalted) => program.ops@.len() > 0
                && !(program.ops@[program.ops@.len() - 1] is Halt),
            Some(ValidateError::UnpatchedJump { at }) => at < program.ops@.len() && (
            (program.ops@[at as int] matches Op::SeekFirst { end, .. } && end.0 == 0xffff_ffff) || (
            program.ops@[at as int] matches Op::Next { body, .. } && body.0 == 0xffff_ffff)),
            Some(ValidateError::JumpOutOfRange { at, target }) => at < program.ops@.len() && target
                >= program.ops@.len(),
            Some(ValidateError::RegOutOfRange { at, reg }) => at < program.ops@.len() && reg
                >= program.n_regs,
            Some(ValidateError::CursorOutOfRange { at, cursor }) => at < program.ops@.len()
                && cursor >= program.n_cursors,
            Some(ValidateError::BadConstRef { at, id }) => at < program.ops@.len() && id
                >= program.consts@.len(),
        },
        program.fault() is Some && (program.fault()->0 is RegOutOfRange
            || program.fault()->0 is CursorOutOfRange) ==> program.fault_from(
            Check::Jumps,
            0,
        ) is None,
        program.fault() is Some && program.fault()->0 is BadConstRef ==> program.fault_from(
            Check::Jumps,
            0,
        ) is None && program.fault_from(Check::Operands, 0) is None,
{
    assert(program.ops.len() == program.ops@.len());
    lemma_fault_at(program, Check::Jumps);
    lemma_fault_at(program, Check::Operands);
    lemma_fault_at(program, Check::Constants);
}

proof fn lemma_fault_at(program: Program, check: Check)
    ensures
        program.fault_from(check, 0) matches Some(e) ==> exists|i: int|
            {
                &&& 0 <= i < program.ops@.len() <= usize::MAX
                &&& #[trigger] program.check_fault(check, i, program.ops@[i]) == Some(e)
            },
{
    assert(program.ops.len() == program.ops@.len());
    law_first_fault(program, check);
    if let Some(e) = program.fault_from(check, 0) {
        let i = choose|i: int|
            {
                &&& 0 <= i < program.ops@.len()
                &&& #[trigger] program.check_fault(check, i, program.ops@[i]) == Some(e)
                &&& forall|k: int|
                    0 <= k < i ==> #[trigger] program.check_fault(
                        check,
                        k,
                        program.ops@[k],
                    ) is None
            };
        assert(program.check_fault(check, i, program.ops@[i]) == Some(e));
    }
}

} // verus!
