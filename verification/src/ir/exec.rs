use vstd::prelude::*;
use std::collections::VecDeque;
use super::block::BlockID;
use super::instruction::{
    BinaryOp, ConstInt, Expr, Instruction, LeafExpr, Op, Target, TargetBlock, TestOp, UnaryOp,
};
use super::register::RegisterID;
use super::{Module, ModuleView};

verus! {

/// What a register holds.
#[derive(Copy, Clone, Debug, PartialEq, Eq, Structural)]
pub enum Value {
    Uninit,
    I1(bool),
    I8(u8),
    I64(u64),
}

/// The number that eight bits stand for.
pub open spec fn wrap8(x: int) -> u8 {
    (x % 0x100) as u8
}

/// The number that sixty-four bits stand for.
pub open spec fn wrap64(x: int) -> u64 {
    (x % 0x1_0000_0000_0000_0000) as u64
}

/// Eight bits read as a signed number.
pub open spec fn signed8(a: u8) -> int {
    if a < 0x80 {
        a as int
    } else {
        a - 0x100
    }
}

/// Sixty-four bits read as a signed number.
pub open spec fn signed64(a: u64) -> int {
    if a < 0x8000_0000_0000_0000 {
        a as int
    } else {
        a - 0x1_0000_0000_0000_0000
    }
}

pub open spec fn magnitude(x: int) -> int {
    if x < 0 {
        -x
    } else {
        x
    }
}

/// The quotient rounded towards zero.
pub open spec fn trunc_div(x: int, y: int) -> int {
    let q = magnitude(x) / magnitude(y);
    if (x < 0) != (y < 0) {
        -q
    } else {
        q
    }
}

/// The remainder that goes with `trunc_div`: it has the sign of `x`.
pub open spec fn trunc_rem(x: int, y: int) -> int {
    let r = magnitude(x) % magnitude(y);
    if x < 0 {
        -r
    } else {
        r
    }
}

impl Value {
    /// Whether the operation has a result on these operands: both hold a
    /// value of one width, no division is by zero, and no signed division is
    /// on single bits.
    pub open spec fn binary_defined(a: Value, b: Value, op: BinaryOp) -> bool {
        match (a, b) {
            (Value::I1(_), Value::I1(_)) => op != BinaryOp::IDiv && op != BinaryOp::IMod,
            (Value::I8(_), Value::I8(y)) => Self::divides(op) ==> y != 0,
            (Value::I64(_), Value::I64(y)) => Self::divides(op) ==> y != 0,
            _ => false,
        }
    }

    pub open spec fn divides(op: BinaryOp) -> bool {
        op == BinaryOp::UDiv || op == BinaryOp::IDiv || op == BinaryOp::UMod || op
            == BinaryOp::IMod
    }

    /// The result of an operation on two single bits.
    pub open spec fn binary_bit(x: bool, y: bool, op: BinaryOp) -> bool {
        match op {
            BinaryOp::Add => x != y,
            BinaryOp::Sub => x != y,
            BinaryOp::Mul => x && y,
            BinaryOp::UDiv => x,
            BinaryOp::UMod => false,
            BinaryOp::And => x && y,
            BinaryOp::Or => x || y,
            BinaryOp::Xor => x != y,
            _ => false,
        }
    }

    /// The result of an operation on two bytes. Sums, differences and
    /// products wrap around; signed division rounds towards zero.
    pub open spec fn binary_byte(x: u8, y: u8, op: BinaryOp) -> u8 {
        match op {
            BinaryOp::Add => wrap8(x + y),
            BinaryOp::Sub => wrap8(x - y),
            BinaryOp::Mul => wrap8(x * y),
            BinaryOp::UDiv => (x / y) as u8,
            BinaryOp::IDiv => wrap8(trunc_div(signed8(x), signed8(y))),
            BinaryOp::UMod => (x % y) as u8,
            BinaryOp::IMod => wrap8(trunc_rem(signed8(x), signed8(y))),
            BinaryOp::And => x & y,
            BinaryOp::Or => x | y,
            BinaryOp::Xor => x ^ y,
        }
    }

    /// The result of an operation on two words.
    pub open spec fn binary_word(x: u64, y: u64, op: BinaryOp) -> u64 {
        match op {
            BinaryOp::Add => wrap64(x + y),
            BinaryOp::Sub => wrap64(x - y),
            BinaryOp::Mul => wrap64(x * y),
            BinaryOp::UDiv => (x / y) as u64,
            BinaryOp::IDiv => wrap64(trunc_div(signed64(x), signed64(y))),
            BinaryOp::UMod => (x % y) as u64,
            BinaryOp::IMod => wrap64(trunc_rem(signed64(x), signed64(y))),
            BinaryOp::And => x & y,
            BinaryOp::Or => x | y,
            BinaryOp::Xor => x ^ y,
        }
    }

    /// The result of a binary operation, where it is defined.
    pub open spec fn binary(a: Value, b: Value, op: BinaryOp) -> Value {
        match (a, b) {
            (Value::I1(x), Value::I1(y)) => Value::I1(Self::binary_bit(x, y, op)),
            (Value::I8(x), Value::I8(y)) => Value::I8(Self::binary_byte(x, y, op)),
            (Value::I64(x), Value::I64(y)) => Value::I64(Self::binary_word(x, y, op)),
            _ => Value::Uninit,
        }
    }

    /// The result of a unary operation on a value that is set. The
    /// complement is bit by bit; the negation is in two's complement, and
    /// leaves a single bit as it is.
    pub open spec fn unary(a: Value, op: UnaryOp) -> Value {
        match a {
            Value::Uninit => Value::Uninit,
            Value::I1(x) => Value::I1(
                match op {
                    UnaryOp::Not => !x,
                    UnaryOp::Neg => x,
                },
            ),
            Value::I8(x) => Value::I8(
                match op {
                    UnaryOp::Not => !x,
                    UnaryOp::Neg => wrap8(-(x as int)),
                },
            ),
            Value::I64(x) => Value::I64(
                match op {
                    UnaryOp::Not => !x,
                    UnaryOp::Neg => wrap64(-(x as int)),
                },
            ),
        }
    }

    /// Whether both hold a value of one width.
    pub open spec fn same_width(a: Value, b: Value) -> bool {
        match (a, b) {
            (Value::I1(_), Value::I1(_)) => true,
            (Value::I8(_), Value::I8(_)) => true,
            (Value::I64(_), Value::I64(_)) => true,
            _ => false,
        }
    }

    /// The result of a comparison of two values of one width.
    pub open spec fn test(a: Value, b: Value, op: TestOp) -> Value {
        match op {
            TestOp::Equal => Value::I1(a == b),
            TestOp::NotEqual => Value::I1(a != b),
        }
    }

    /// The constant that stands for a value.
    pub open spec fn leaf(self) -> LeafExpr {
        match self {
            Value::Uninit => LeafExpr::Int(ConstInt::Bool(false)),
            Value::I1(val) => LeafExpr::Int(ConstInt::Bool(val)),
            Value::I8(val) => LeafExpr::Int(ConstInt::U8(val)),
            Value::I64(val) => LeafExpr::Int(ConstInt::U64(val)),
        }
    }

    pub fn do_binary_op(a: Value, b: Value, op: BinaryOp) -> (r: Value)
        requires
            Self::binary_defined(a, b, op),
        ensures
            r == Self::binary(a, b, op),
    {
        match op {
            BinaryOp::Add => a.add(b),
            BinaryOp::Sub => a.sub(b),
            BinaryOp::Mul => a.mul(b),
            BinaryOp::UDiv => a.udiv(b),
            BinaryOp::IDiv => a.idiv(b),
            BinaryOp::UMod => a.umod(b),
            BinaryOp::IMod => a.imod(b),
            BinaryOp::And => a.and(b),
            BinaryOp::Or => a.or(b),
            BinaryOp::Xor => a.xor(b),
        }
    }

    /// Whether `do_binary_op` has a result on these operands.
    pub fn binary_op_defined(a: Value, b: Value, op: BinaryOp) -> (r: bool)
        ensures
            r == Self::binary_defined(a, b, op),
    {
        let divides = match op {
            BinaryOp::UDiv => true,
            BinaryOp::IDiv => true,
            BinaryOp::UMod => true,
            BinaryOp::IMod => true,
            _ => false,
        };
        match (a, b) {
            (Value::I1(_), Value::I1(_)) => match op {
                BinaryOp::IDiv => false,
                BinaryOp::IMod => false,
                _ => true,
            },
            (Value::I8(_), Value::I8(y)) => !divides || y != 0,
            (Value::I64(_), Value::I64(y)) => !divides || y != 0,
            _ => false,
        }
    }

    fn add(self, b: Value) -> (r: Value)
        requires
            Self::same_width(self, b),
        ensures
            r == Self::binary(self, b, BinaryOp::Add),
    {
        match (self, b) {
            (Value::I1(x), Value::I1(y)) => Value::I1(x ^ y),
            (Value::I8(x), Value::I8(y)) => Value::I8(x.wrapping_add(y)),
            (Value::I64(x), Value::I64(y)) => Value::I64(x.wrapping_add(y)),
            _ => Value::Uninit,
        }
    }

    fn sub(self, b: Value) -> (r: Value)
        requires
            Self::same_width(self, b),
        ensures
            r == Self::binary(self, b, BinaryOp::Sub),
    {
        match (self, b) {
            (Value::I1(x), Value::I1(y)) => Value::I1(x ^ y),
            (Value::I8(x), Value::I8(y)) => Value::I8(x.wrapping_sub(y)),
            (Value::I64(x), Value::I64(y)) => Value::I64(x.wrapping_sub(y)),
            _ => Value::Uninit,
        }
    }

    fn mul(self, b: Value) -> (r: Value)
        requires
            Self::same_width(self, b),
        ensures
            r == Self::binary(self, b, BinaryOp::Mul),
    {
        match (self, b) {
            (Value::I1(x), Value::I1(y)) => Value::I1(x && y),
            (Value::I8(x), Value::I8(y)) => Value::I8(x.wrapping_mul(y)),
            (Value::I64(x), Value::I64(y)) => Value::I64(x.wrapping_mul(y)),
            _ => Value::Uninit,
        }
    }

    fn udiv(self, b: Value) -> (r: Value)
        requires
            Self::binary_defined(self, b, BinaryOp::UDiv),
        ensures
            r == Self::binary(self, b, BinaryOp::UDiv),
    {
        match (self, b) {
            (Value::I1(x), Value::I1(_)) => Value::I1(x),
            (Value::I8(x), Value::I8(y)) => Value::I8(x / y),
            (Value::I64(x), Value::I64(y)) => Value::I64(x / y),
            _ => Value::Uninit,
        }
    }

    fn idiv(self, b: Value) -> (r: Value)
        requires
            Self::binary_defined(self, b, BinaryOp::IDiv),
        ensures
            r == Self::binary(self, b, BinaryOp::IDiv),
    {
        match (self, b) {
            (Value::I8(x), Value::I8(y)) => {
                let q: u8 = magnitude8(x) / magnitude8(y);
                Value::I8(
                    if (x >= 0x80) != (y >= 0x80) {
                        negated8(q)
                    } else {
                        q
                    },
                )
            },
            (Value::I64(x), Value::I64(y)) => {
                let q: u64 = magnitude64(x) / magnitude64(y);
                Value::I64(
                    if (x >= 0x8000_0000_0000_0000) != (y >= 0x8000_0000_0000_0000) {
                        negated64(q)
                    } else {
                        q
                    },
                )
            },
            _ => Value::Uninit,
        }
    }

    fn umod(self, b: Value) -> (r: Value)
        requires
            Self::binary_defined(self, b, BinaryOp::UMod),
        ensures
            r == Self::binary(self, b, BinaryOp::UMod),
    {
        match (self, b) {
            (Value::I1(_), Value::I1(_)) => Value::I1(false),
            (Value::I8(x), Value::I8(y)) => Value::I8(x % y),
            (Value::I64(x), Value::I64(y)) => Value::I64(x % y),
            _ => Value::Uninit,
        }
    }

    fn imod(self, b: Value) -> (r: Value)
        requires
            Self::binary_defined(self, b, BinaryOp::IMod),
        ensures
            r == Self::binary(self, b, BinaryOp::IMod),
    {
        match (self, b) {
            (Value::I8(x), Value::I8(y)) => {
                let m: u8 = magnitude8(x) % magnitude8(y);
                Value::I8(
                    if x >= 0x80 {
                        negated8(m)
                    } else {
                        m
                    },
                )
            },
            (Value::I64(x), Value::I64(y)) => {
                let m: u64 = magnitude64(x) % magnitude64(y);
                Value::I64(
                    if x >= 0x8000_0000_0000_0000 {
                        negated64(m)
                    } else {
                        m
                    },
                )
            },
            _ => Value::Uninit,
        }
    }

    fn and(self, b: Value) -> (r: Value)
        requires
            Self::same_width(self, b),
        ensures
            r == Self::binary(self, b, BinaryOp::And),
    {
        match (self, b) {
            (Value::I1(x), Value::I1(y)) => Value::I1(x && y),
            (Value::I8(x), Value::I8(y)) => Value::I8(x & y),
            (Value::I64(x), Value::I64(y)) => Value::I64(x & y),
            _ => Value::Uninit,
        }
    }

    fn or(self, b: Value) -> (r: Value)
        requires
            Self::same_width(self, b),
        ensures
            r == Self::binary(self, b, BinaryOp::Or),
    {
        match (self, b) {
            (Value::I1(x), Value::I1(y)) => Value::I1(x || y),
            (Value::I8(x), Value::I8(y)) => Value::I8(x | y),
            (Value::I64(x), Value::I64(y)) => Value::I64(x | y),
            _ => Value::Uninit,
        }
    }

    fn xor(self, b: Value) -> (r: Value)
        requires
            Self::same_width(self, b),
        ensures
            r == Self::binary(self, b, BinaryOp::Xor),
    {
        match (self, b) {
            (Value::I1(x), Value::I1(y)) => Value::I1(x ^ y),
            (Value::I8(x), Value::I8(y)) => Value::I8(x ^ y),
            (Value::I64(x), Value::I64(y)) => Value::I64(x ^ y),
            _ => Value::Uninit,
        }
    }

    pub fn do_unary_op(a: Value, op: UnaryOp) -> (r: Value)
        requires
            a != Value::Uninit,
        ensures
            r == Self::unary(a, op),
    {
        match op {
            UnaryOp::Not => a.not(),
            UnaryOp::Neg => a.neg(),
        }
    }

    fn not(self) -> (r: Value)
        requires
            self != Value::Uninit,
        ensures
            r == Self::unary(self, UnaryOp::Not),
    {
        match self {
            Value::Uninit => Value::Uninit,
            Value::I1(x) => Value::I1(!x),
            Value::I8(x) => Value::I8(!x),
            Value::I64(x) => Value::I64(!x),
        }
    }

    fn neg(self) -> (r: Value)
        requires
            self != Value::Uninit,
        ensures
            r == Self::unary(self, UnaryOp::Neg),
    {
        match self {
            Value::Uninit => Value::Uninit,
            Value::I1(x) => Value::I1(x),
            Value::I8(x) => {
                assert(!x == 255 - x) by (bit_vector);
                Value::I8((!x).wrapping_add(1))
            },
            Value::I64(x) => {
                assert(!x == 0xffff_ffff_ffff_ffff - x) by (bit_vector);
                Value::I64((!x).wrapping_add(1))
            },
        }
    }

    pub fn do_test_op(a: Value, b: Value, op: TestOp) -> (r: Value)
        requires
            Self::same_width(a, b),
        ensures
            r == Self::test(a, b, op),
    {
        match op {
            TestOp::Equal => a.test_equal(b),
            TestOp::NotEqual => a.test_not_equal(b),
        }
    }

    fn test_equal(self, b: Value) -> (r: Value)
        requires
            Self::same_width(self, b),
        ensures
            r == Value::I1(self == b),
    {
        match (self, b) {
            (Value::I1(x), Value::I1(y)) => Value::I1(x == y),
            (Value::I8(x), Value::I8(y)) => Value::I1(x == y),
            (Value::I64(x), Value::I64(y)) => Value::I1(x == y),
            _ => Value::Uninit,
        }
    }

    fn test_not_equal(self, b: Value) -> (r: Value)
        requires
            Self::same_width(self, b),
        ensures
            r == Value::I1(self != b),
    {
        match (self, b) {
            (Value::I1(x), Value::I1(y)) => Value::I1(x != y),
            (Value::I8(x), Value::I8(y)) => Value::I1(x != y),
            (Value::I64(x), Value::I64(y)) => Value::I1(x != y),
            _ => Value::Uninit,
        }
    }

    pub fn to_leaf_expr(self) -> (r: LeafExpr)
        requires
            self != Value::Uninit,
        ensures
            r == self.leaf(),
    {
        match self {
            Self::Uninit => LeafExpr::Int(ConstInt::Bool(false)),
            Self::I1(val) => LeafExpr::Int(ConstInt::Bool(val)),
            Self::I8(val) => LeafExpr::Int(ConstInt::U8(val)),
            Self::I64(val) => LeafExpr::Int(ConstInt::U64(val)),
        }
    }
}

fn magnitude8(x: u8) -> (r: u8)
    ensures
        r == magnitude(signed8(x)),
{
    if x >= 0x80 {
        (255 - x) + 1
    } else {
        x
    }
}

fn negated8(q: u8) -> (r: u8)
    ensures
        r == wrap8(-(q as int)),
{
    if q == 0 {
        0
    } else {
        (255 - q) + 1
    }
}

fn magnitude64(x: u64) -> (r: u64)
    ensures
        r == magnitude(signed64(x)),
{
    if x >= 0x8000_0000_0000_0000 {
        (0xffff_ffff_ffff_ffff - x) + 1
    } else {
        x
    }
}

fn negated64(q: u64) -> (r: u64)
    ensures
        r == wrap64(-(q as int)),
{
    if q == 0 {
        0
    } else {
        (0xffff_ffff_ffff_ffff - q) + 1
    }
}

// ---------------------------------------------------------------------------
// The machine
// ---------------------------------------------------------------------------

/// Why a run cannot go on.
#[derive(Copy, Clone, Debug, PartialEq, Eq, Structural)]
pub enum Fault {
    /// The module names no block to start in.
    NoEntry,
    /// An edge leads to a block that the module does not have.
    NoSuchBlock,
    /// An instruction names a register that the module does not have.
    NoSuchRegister,
    /// An operand holds no value, or one of the wrong width.
    WrongType,
    /// A division or a remainder by zero.
    DivisionByZero,
    /// A cell is read or written that the tape does not have.
    OutOfBounds,
}

/// Whether a machine can still take a step.
#[derive(Copy, Clone, Debug, PartialEq, Eq, Structural)]
pub enum Status {
    Running,
    Halted,
    Failed(Fault),
}

/// How a run ended.
#[derive(Copy, Clone, Debug, PartialEq, Eq, Structural)]
pub enum Outcome {
    /// The program came to its end.
    Halted,
    /// The steps that were granted are used up.
    OutOfFuel,
    /// The program reads a byte, none is left, and more may come.
    NeedInput,
    /// The program cannot go on.
    Fault(Fault),
}

/// The state of the machine: the tape, the registers, the bytes not yet
/// read, whether more bytes may come, the bytes written, and the place of the
/// instruction that runs next.
pub struct Machine {
    pub cells: Seq<u8>,
    pub registers: Seq<Value>,
    pub input: Seq<u8>,
    pub open: bool,
    pub output: Seq<u8>,
    pub status: Status,
    pub block: int,
    pub index: int,
}

/// The value of a constant: its bits, whatever signedness it was written with.
pub open spec fn const_value(c: ConstInt) -> Value {
    match c {
        ConstInt::Bool(b) => Value::I1(b),
        ConstInt::U8(v) => Value::I8(v),
        ConstInt::I8(v) => Value::I8(wrap8(v as int)),
        ConstInt::U64(v) => Value::I64(v),
        ConstInt::I64(v) => Value::I64(wrap64(v as int)),
    }
}

/// The value of an operand.
pub open spec fn eval_leaf(registers: Seq<Value>, l: LeafExpr) -> Result<Value, Fault> {
    match l {
        LeafExpr::Register(r) => if r.0 < registers.len() {
            Ok(registers[r.0 as int])
        } else {
            Err(Fault::NoSuchRegister)
        },
        LeafExpr::Int(c) => Ok(const_value(c)),
    }
}

/// Why a binary operation has no result.
pub open spec fn binary_fault(a: Value, b: Value) -> Fault {
    if Value::same_width(a, b) && !(a is I1) {
        Fault::DivisionByZero
    } else {
        Fault::WrongType
    }
}

/// The value of an expression.
pub open spec fn eval_expr(registers: Seq<Value>, e: Expr) -> Result<Value, Fault> {
    match e {
        Expr::Leaf(l) => eval_leaf(registers, l),
        Expr::Binary(a, op, b) => match (eval_leaf(registers, a), eval_leaf(registers, b)) {
            (Ok(x), Ok(y)) => if Value::binary_defined(x, y, op) {
                Ok(Value::binary(x, y, op))
            } else {
                Err(binary_fault(x, y))
            },
            (Err(f), _) => Err(f),
            (_, Err(f)) => Err(f),
        },
        Expr::Unary(a, op) => match eval_leaf(registers, a) {
            Ok(x) => if x != Value::Uninit {
                Ok(Value::unary(x, op))
            } else {
                Err(Fault::WrongType)
            },
            Err(f) => Err(f),
        },
        Expr::Test(a, op, b) => match (eval_leaf(registers, a), eval_leaf(registers, b)) {
            (Ok(x), Ok(y)) => if Value::same_width(x, y) {
                Ok(Value::test(x, y, op))
            } else {
                Err(Fault::WrongType)
            },
            (Err(f), _) => Err(f),
            (_, Err(f)) => Err(f),
        },
    }
}

/// The values of the first `n` arguments of an edge.
pub open spec fn eval_args(registers: Seq<Value>, args: Seq<LeafExpr>, n: int) -> Result<
    Seq<Value>,
    Fault,
>
    decreases n,
{
    if n <= 0 {
        Ok(Seq::empty())
    } else {
        match eval_args(registers, args, n - 1) {
            Err(f) => Err(f),
            Ok(vals) => match eval_leaf(registers, args[n - 1]) {
                Ok(v) => Ok(vals.push(v)),
                Err(f) => Err(f),
            },
        }
    }
}

/// The registers after the first `n` parameters have taken their values,
/// one after the other.
pub open spec fn bound(
    registers: Seq<Value>,
    parameters: Seq<RegisterID>,
    vals: Seq<Value>,
    n: int,
) -> Result<Seq<Value>, Fault>
    decreases n,
{
    if n <= 0 {
        Ok(registers)
    } else {
        match bound(registers, parameters, vals, n - 1) {
            Err(f) => Err(f),
            Ok(regs) => if parameters[n - 1].0 < regs.len() {
                Ok(regs.update(parameters[n - 1].0 as int, vals[n - 1]))
            } else {
                Err(Fault::NoSuchRegister)
            },
        }
    }
}

/// Registers that hold nothing yet.
pub open spec fn unset(n: nat) -> Seq<Value> {
    Seq::new(n, |k: int| Value::Uninit)
}

pub open spec fn smaller(a: int, b: int) -> int {
    if a <= b {
        a
    } else {
        b
    }
}

impl Machine {
    pub open spec fn running(self) -> bool {
        self.status == Status::Running
    }

    pub open spec fn failed(self, f: Fault) -> Machine {
        Machine { status: Status::Failed(f), ..self }
    }

    /// The machine past the instruction it stands at.
    pub open spec fn advanced(self) -> Machine {
        Machine { index: self.index + 1, ..self }
    }

    /// The machine after an instruction has written a register.
    pub open spec fn written(self, r: RegisterID, v: Value) -> Result<Machine, Fault> {
        if r.0 < self.registers.len() {
            Ok(Machine { registers: self.registers.update(r.0 as int, v), ..self }.advanced())
        } else {
            Err(Fault::NoSuchRegister)
        }
    }

    /// The machine at the head of the block an edge leads to: the arguments
    /// are evaluated, then as many parameters as there are arguments take
    /// their values.
    pub open spec fn entered(self, m: ModuleView, t: Target) -> Result<Machine, Fault> {
        match eval_args(self.registers, t.args, t.args.len() as int) {
            Err(f) => Err(f),
            Ok(vals) => if t.id.0 >= m.blocks.len() {
                Err(Fault::NoSuchBlock)
            } else {
                let parameters = m.blocks[t.id.0 as int].parameters;
                match bound(
                    self.registers,
                    parameters,
                    vals,
                    smaller(parameters.len() as int, vals.len() as int),
                ) {
                    Err(f) => Err(f),
                    Ok(regs) => Ok(
                        Machine { registers: regs, block: t.id.0 as int, index: 0, ..self },
                    ),
                }
            },
        }
    }

    /// The machine after a cell has been read into a register.
    pub open spec fn loaded(self, target: RegisterID, index: LeafExpr) -> Result<Machine, Fault> {
        match eval_leaf(self.registers, index) {
            Ok(Value::I64(a)) => if a < self.cells.len() {
                self.written(target, Value::I8(self.cells[a as int]))
            } else {
                Err(Fault::OutOfBounds)
            },
            Ok(_) => Err(Fault::WrongType),
            Err(f) => Err(f),
        }
    }

    /// The machine after a cell has been written.
    pub open spec fn stored(self, index: LeafExpr, value: LeafExpr) -> Result<Machine, Fault> {
        match (eval_leaf(self.registers, index), eval_leaf(self.registers, value)) {
            (Ok(Value::I64(a)), Ok(Value::I8(v))) => if a < self.cells.len() {
                Ok(Machine { cells: self.cells.update(a as int, v), ..self }.advanced())
            } else {
                Err(Fault::OutOfBounds)
            },
            (Err(f), _) => Err(f),
            (_, Err(f)) => Err(f),
            _ => Err(Fault::WrongType),
        }
    }

    /// The machine after the tape has been made to reach up to `end`: cells
    /// that are added hold zero, and the tape never shrinks.
    pub open spec fn checked(self, end: LeafExpr) -> Result<Machine, Fault> {
        match eval_leaf(self.registers, end) {
            Ok(Value::I64(e)) => if e <= self.cells.len() {
                Ok(self.advanced())
            } else if e <= usize::MAX {
                Ok(
                    Machine {
                        cells: self.cells + Seq::new((e - self.cells.len()) as nat, |k: int| 0u8),
                        ..self
                    }.advanced(),
                )
            } else {
                Err(Fault::OutOfBounds)
            },
            Ok(_) => Err(Fault::WrongType),
            Err(f) => Err(f),
        }
    }

    /// The machine after an assignment.
    pub open spec fn assigned(self, target: RegisterID, expr: Expr) -> Result<Machine, Fault> {
        match eval_expr(self.registers, expr) {
            Ok(v) => self.written(target, v),
            Err(f) => Err(f),
        }
    }

    /// The machine after a byte has been written out.
    pub open spec fn put(self, value: LeafExpr) -> Result<Machine, Fault> {
        match eval_leaf(self.registers, value) {
            Ok(Value::I8(v)) => Ok(Machine { output: self.output.push(v), ..self }.advanced()),
            Ok(_) => Err(Fault::WrongType),
            Err(f) => Err(f),
        }
    }

    /// The machine after a byte has been read in: the next byte of the input,
    /// or the default where the input is at its end.
    pub open spec fn got(self, target: RegisterID, default: LeafExpr) -> Result<Machine, Fault> {
        match eval_leaf(self.registers, default) {
            Ok(Value::I8(d)) => if target.0 >= self.registers.len() {
                Err(Fault::NoSuchRegister)
            } else if self.input.len() > 0 {
                Machine { input: self.input.skip(1), ..self }.written(
                    target,
                    Value::I8(self.input[0]),
                )
            } else {
                self.written(target, Value::I8(d))
            },
            Ok(_) => Err(Fault::WrongType),
            Err(f) => Err(f),
        }
    }

    /// The machine after a branch: at the head of one of the two blocks.
    pub open spec fn branched(self, m: ModuleView, c: LeafExpr, then: Target, els: Target) -> Result<
        Machine,
        Fault,
    > {
        match eval_leaf(self.registers, c) {
            Ok(Value::I1(c)) => if c {
                self.entered(m, then)
            } else {
                self.entered(m, els)
            },
            Ok(_) => Err(Fault::WrongType),
            Err(f) => Err(f),
        }
    }

    /// What one instruction does to the machine.
    pub open spec fn effect(self, m: ModuleView, op: Op) -> Result<Machine, Fault> {
        match op {
            Op::Nop => Ok(self.advanced()),
            Op::LoadCell(target, index) => self.loaded(target, index),
            Op::StoreCell(index, value) => self.stored(index, value),
            Op::BoundsCheck(_, end) => self.checked(end),
            Op::Assign(target, expr) => self.assigned(target, expr),
            Op::Output(value) => self.put(value),
            Op::Input(target, default) => self.got(target, default),
            Op::Jump(target) => self.entered(m, target),
            Op::Branch(c, then, els) => self.branched(m, c, then, els),
        }
    }

    /// The instruction that runs next, if the machine stands at one.
    pub open spec fn current(self, m: ModuleView) -> Option<Op> {
        if 0 <= self.block < m.blocks.len() && 0 <= self.index < m.blocks[self.block].body.len() {
            Some(m.blocks[self.block].body[self.index])
        } else {
            None
        }
    }

    /// The machine after the next step. A machine that stands past the last
    /// instruction of its block halts.
    pub open spec fn step(self, m: ModuleView) -> Machine {
        if !(0 <= self.block < m.blocks.len()) {
            self.failed(Fault::NoSuchBlock)
        } else {
            match self.current(m) {
                None => Machine { status: Status::Halted, ..self },
                Some(op) => match self.effect(m, op) {
                    Ok(next) => next,
                    Err(f) => self.failed(f),
                },
            }
        }
    }

    /// The machine stands at a read, no byte is left, and more may come.
    pub open spec fn blocked(self, m: ModuleView) -> bool {
        self.open && self.input.len() == 0 && (self.current(m) matches Some(Op::Input(_, _)))
    }

    /// The machine after at most `fuel` steps: it stops where it has halted
    /// or failed, and where it waits for input.
    pub open spec fn run(self, m: ModuleView, fuel: nat) -> Machine
        decreases fuel,
    {
        if fuel == 0 || !self.running() || self.blocked(m) {
            self
        } else {
            self.step(m).run(m, (fuel - 1) as nat)
        }
    }

    /// The machine made ready to run a module from its entry: every register
    /// is unset, and the entry is entered with no arguments. The tape and the
    /// streams stay as they are.
    pub open spec fn started(self, m: ModuleView) -> Machine {
        let cleared = Machine {
            registers: unset(m.registers.len()),
            status: Status::Running,
            ..self
        };
        match m.entry {
            None => cleared.failed(Fault::NoEntry),
            Some(entry) => match cleared.entered(m, Target { id: entry, args: Seq::empty() }) {
                Ok(next) => next,
                Err(f) => cleared.failed(f),
            },
        }
    }

    /// How a run that has stopped in this state has ended.
    pub open spec fn outcome(self, m: ModuleView) -> Outcome {
        match self.status {
            Status::Halted => Outcome::Halted,
            Status::Failed(f) => Outcome::Fault(f),
            Status::Running => if self.blocked(m) {
                Outcome::NeedInput
            } else {
                Outcome::OutOfFuel
            },
        }
    }
}

/// The executable machine. Its streams are held in memory: what is written
/// is gathered, and what is read has been handed over beforehand.
pub struct Exec {
    cells: Vec<u8>,
    registers: Vec<Value>,
    stdout: Vec<u8>,
    stdin: VecDeque<u8>,
    open: bool,
    status: Status,
    block: usize,
    index: usize,
}

impl View for Exec {
    type V = Machine;

    closed spec fn view(&self) -> Machine {
        Machine {
            cells: self.cells@,
            registers: self.registers@,
            input: self.stdin@,
            open: self.open,
            output: self.stdout@,
            status: self.status,
            block: self.block as int,
            index: self.index as int,
        }
    }
}

/// The value of a constant.
pub fn eval_constant(c: ConstInt) -> (r: Value)
    ensures
        r == const_value(c),
{
    match c {
        ConstInt::Bool(b) => Value::I1(b),
        ConstInt::U8(v) => Value::I8(v),
        ConstInt::I8(v) => Value::I8(
            if v >= 0 {
                v as u8
            } else {
                ((v + 127 + 1) as u8) + 0x80
            },
        ),
        ConstInt::U64(v) => Value::I64(v),
        ConstInt::I64(v) => Value::I64(
            if v >= 0 {
                v as u64
            } else {
                ((v + 0x7fff_ffff_ffff_ffff + 1) as u64) + 0x8000_0000_0000_0000
            },
        ),
    }
}

/// The value of an expression on given operands, as the machine computes it.
pub fn eval_on(e: &Expr, a: Result<Value, Fault>, b: Result<Value, Fault>) -> (r: Result<
    Value,
    Fault,
>)
    ensures
        forall|registers: Seq<Value>|
            (match *e {
                Expr::Leaf(l) => eval_leaf(registers, l) == a,
                Expr::Binary(x, _, y) => eval_leaf(registers, x) == a && eval_leaf(registers, y)
                    == b,
                Expr::Unary(x, _) => eval_leaf(registers, x) == a,
                Expr::Test(x, _, y) => eval_leaf(registers, x) == a && eval_leaf(registers, y)
                    == b,
            }) ==> r == #[trigger] eval_expr(registers, *e),
{
    match e {
        Expr::Leaf(_) => a,
        Expr::Binary(_, op, _) => match (a, b) {
            (Ok(x), Ok(y)) => if Value::binary_op_defined(x, y, *op) {
                Ok(Value::do_binary_op(x, y, *op))
            } else {
                let same = match (x, y) {
                    (Value::I8(_), Value::I8(_)) => true,
                    (Value::I64(_), Value::I64(_)) => true,
                    _ => false,
                };
                if same {
                    Err(Fault::DivisionByZero)
                } else {
                    Err(Fault::WrongType)
                }
            },
            (Err(f), _) => Err(f),
            (_, Err(f)) => Err(f),
        },
        Expr::Unary(_, op) => match a {
            Ok(x) => match x {
                Value::Uninit => Err(Fault::WrongType),
                _ => Ok(Value::do_unary_op(x, *op)),
            },
            Err(f) => Err(f),
        },
        Expr::Test(_, op, _) => match (a, b) {
            (Ok(x), Ok(y)) => {
                let same = match (x, y) {
                    (Value::I1(_), Value::I1(_)) => true,
                    (Value::I8(_), Value::I8(_)) => true,
                    (Value::I64(_), Value::I64(_)) => true,
                    _ => false,
                };
                if same {
                    Ok(Value::do_test_op(x, y, *op))
                } else {
                    Err(Fault::WrongType)
                }
            },
            (Err(f), _) => Err(f),
            (_, Err(f)) => Err(f),
        },
    }
}

impl Exec {
    /// A machine with an empty tape and no registers, that has written
    /// `stdout` so far and will read the bytes of `stdin` and no more.
    pub fn new(stdout: Vec<u8>, stdin: Vec<u8>) -> (r: Self)
        ensures
            r@ == (Machine {
                cells: Seq::empty(),
                registers: Seq::empty(),
                input: stdin@,
                open: false,
                output: stdout@,
                status: Status::Halted,
                block: 0,
                index: 0,
            }),
    {
        let mut queue: VecDeque<u8> = VecDeque::new();
        let mut k: usize = 0;
        while k < stdin.len()
            invariant
                k <= stdin.len(),
                queue@ == stdin@.take(k as int),
            decreases stdin.len() - k,
        {
            assert(stdin@.take(k as int + 1) =~= stdin@.take(k as int).push(stdin@[k as int]));
            queue.push_back(stdin[k]);
            k += 1;
        }
        assert(stdin@.take(stdin.len() as int) =~= stdin@);
        Self {
            cells: Vec::new(),
            registers: Vec::new(),
            stdout,
            stdin: queue,
            open: false,
            status: Status::Halted,
            block: 0,
            index: 0,
        }
    }

    /// Says whether more input may come after the bytes that were handed over.
    pub fn set_input_open(&mut self, open: bool)
        ensures
            final(self)@ == (Machine { open, ..old(self)@ }),
    {
        self.open = open;
    }

    /// Hands the machine one more byte to read.
    pub fn feed(&mut self, byte: u8)
        ensures
            final(self)@ == (Machine { input: old(self)@.input.push(byte), ..old(self)@ }),
    {
        self.stdin.push_back(byte);
    }

    /// The bytes written so far.
    pub fn stdout(&self) -> (r: &Vec<u8>)
        ensures
            r@ == self@.output,
    {
        &self.stdout
    }

    /// The tape.
    pub fn cells(&self) -> (r: &Vec<u8>)
        ensures
            r@ == self@.cells,
    {
        &self.cells
    }

    /// Takes the bytes written so far out of the machine.
    pub fn take_output(&mut self) -> (r: Vec<u8>)
        ensures
            r@ == old(self)@.output,
            final(self)@ == (Machine { output: Seq::empty(), ..old(self)@ }),
    {
        let mut out: Vec<u8> = Vec::new();
        std::mem::swap(&mut out, &mut self.stdout);
        out
    }

    /// Runs a module from its entry, for at most `fuel` steps.
    pub fn exec_program(&mut self, module: &Module, fuel: u64) -> (r: Outcome)
        ensures
            final(self)@ == old(self)@.started(module@).run(module@, fuel as nat),
            r == final(self)@.outcome(module@),
    {
        self.start(module);
        self.resume(module, fuel)
    }

    /// Goes on with a run that has stopped for want of fuel or of input, for
    /// at most `fuel` steps.
    pub fn resume(&mut self, module: &Module, fuel: u64) -> (r: Outcome)
        ensures
            final(self)@ == old(self)@.run(module@, fuel as nat),
            r == final(self)@.outcome(module@),
    {
        let mut left: u64 = fuel;
        while left > 0 && self.is_running() && !self.is_blocked(module)
            invariant
                self@.run(module@, left as nat) == old(self)@.run(module@, fuel as nat),
            decreases left,
        {
            self.step(module);
            left -= 1;
        }
        match self.status {
            Status::Halted => Outcome::Halted,
            Status::Failed(f) => Outcome::Fault(f),
            Status::Running => if self.is_blocked(module) {
                Outcome::NeedInput
            } else {
                Outcome::OutOfFuel
            },
        }
    }

    /// Everything but the registers is as in `other`.
    spec fn keeps_place(&self, other: &Exec) -> bool {
        &&& self.cells == other.cells
        &&& self.stdout == other.stdout
        &&& self.stdin == other.stdin
        &&& self.open == other.open
        &&& self.status == other.status
        &&& self.block == other.block
        &&& self.index == other.index
    }

    fn is_running(&self) -> (r: bool)
        ensures
            r == self@.running(),
    {
        match self.status {
            Status::Running => true,
            _ => false,
        }
    }

    fn current<'a>(&self, module: &'a Module) -> (r: Option<&'a Instruction>)
        ensures
            match r {
                Some(i) => self@.current(module@) == Some(i@) && self.index < usize::MAX,
                None => self@.current(module@) is None,
            },
    {
        if self.block < module.blocks.len() {
            let block = &module.blocks[self.block];
            if self.index < block.body.len() {
                Some(&block.body[self.index])
            } else {
                None
            }
        } else {
            None
        }
    }

    fn is_blocked(&self, module: &Module) -> (r: bool)
        ensures
            r == self@.blocked(module@),
    {
        if self.open && self.stdin.len() == 0 {
            match self.current(module) {
                Some(Instruction::Input(_, _)) => true,
                _ => false,
            }
        } else {
            false
        }
    }

    fn start(&mut self, module: &Module)
        ensures
            final(self)@ == old(self)@.started(module@),
    {
        self.registers = Vec::new();
        let mut k: usize = 0;
        while k < module.registers.len()
            invariant
                k <= module.registers.len(),
                self.registers@ == unset(k as nat),
                self.cells == old(self).cells,
                self.stdout == old(self).stdout,
                self.stdin == old(self).stdin,
                self.open == old(self).open,
                self.block == old(self).block,
                self.index == old(self).index,
            decreases module.registers.len() - k,
        {
            self.registers.push(Value::Uninit);
            assert(self.registers@ =~= unset((k + 1) as nat));
            k += 1;
        }
        self.status = Status::Running;
        match module.entry {
            None => {
                self.status = Status::Failed(Fault::NoEntry);
            },
            Some(entry) => {
                let target = TargetBlock::new(entry, Vec::new());
                match self.jump(module, &target) {
                    Ok(()) => {},
                    Err(f) => {
                        self.status = Status::Failed(f);
                    },
                }
            },
        }
    }

    /// Takes one step.
    fn step(&mut self, module: &Module)
        requires
            old(self)@.running(),
            !old(self)@.blocked(module@),
        ensures
            final(self)@ == old(self)@.step(module@),
    {
        if self.block >= module.blocks.len() {
            self.status = Status::Failed(Fault::NoSuchBlock);
            return ;
        }
        let done = match self.current(module) {
            None => {
                self.status = Status::Halted;
                return ;
            },
            Some(instruction) => match instruction {
                Instruction::Nop => {
                    self.advance();
                    Ok(())
                },
                Instruction::LoadCell(target, index) => self.load_cell(*target, index),
                Instruction::StoreCell(index, value) => self.store_cell(index, value),
                Instruction::BoundsCheck(start, end) => self.bounds_check(start, end),
                Instruction::Assign(target, expr) => self.assign(*target, expr),
                Instruction::Output(value) => self.output(value),
                Instruction::Input(target, default) => self.input(*target, default),
                Instruction::Jump(target) => self.jump(module, target),
                Instruction::Branch(c, then, els) => self.branch(module, c, then, els),
            },
        };
        match done {
            Ok(()) => {},
            Err(f) => {
                self.status = Status::Failed(f);
            },
        }
    }

    fn advance(&mut self)
        requires
            old(self).index < usize::MAX,
        ensures
            final(self)@ == old(self)@.advanced(),
    {
        self.index = self.index + 1;
    }

    fn write(&mut self, target: RegisterID, value: Value) -> (r: Result<(), Fault>)
        requires
            old(self).index < usize::MAX,
        ensures
            match r {
                Ok(()) => old(self)@.written(target, value) == Ok::<Machine, Fault>(final(self)@),
                Err(f) => old(self)@.written(target, value) == Err::<Machine, Fault>(f)
                    && final(self)@ == old(self)@,
            },
    {
        if target.0 < self.registers.len() {
            self.registers[target.0] = value;
            self.index = self.index + 1;
            Ok(())
        } else {
            Err(Fault::NoSuchRegister)
        }
    }

    fn load_cell(&mut self, target: RegisterID, index: &LeafExpr) -> (r: Result<(), Fault>)
        requires
            old(self).index < usize::MAX,
        ensures
            match r {
                Ok(()) => old(self)@.loaded(target, *index) == Ok::<Machine, Fault>(
                    final(self)@,
                ),
                Err(f) => old(self)@.loaded(target, *index) == Err::<Machine, Fault>(f)
                    && final(self)@ == old(self)@,
            },
    {
        match self.eval_leaf_expr(index) {
            Ok(Value::I64(a)) => {
                if a < self.cells.len() as u64 {
                    let cell = self.cells[a as usize];
                    self.write(target, Value::I8(cell))
                } else {
                    Err(Fault::OutOfBounds)
                }
            },
            Ok(_) => Err(Fault::WrongType),
            Err(f) => Err(f),
        }
    }

    fn store_cell(&mut self, index: &LeafExpr, value: &LeafExpr) -> (r: Result<(), Fault>)
        requires
            old(self).index < usize::MAX,
        ensures
            match r {
                Ok(()) => old(self)@.stored(*index, *value) == Ok::<Machine, Fault>(
                    final(self)@,
                ),
                Err(f) => old(self)@.stored(*index, *value) == Err::<Machine, Fault>(f)
                    && final(self)@ == old(self)@,
            },
    {
        let index = self.eval_leaf_expr(index);
        let value = self.eval_leaf_expr(value);
        match (index, value) {
            (Ok(Value::I64(a)), Ok(Value::I8(v))) => {
                if a < self.cells.len() as u64 {
                    self.cells[a as usize] = v;
                    self.index = self.index + 1;
                    Ok(())
                } else {
                    Err(Fault::OutOfBounds)
                }
            },
            (Err(f), _) => Err(f),
            (_, Err(f)) => Err(f),
            _ => Err(Fault::WrongType),
        }
    }

    fn bounds_check(&mut self, _start: &LeafExpr, end: &LeafExpr) -> (r: Result<(), Fault>)
        requires
            old(self).index < usize::MAX,
        ensures
            match r {
                Ok(()) => old(self)@.checked(*end) == Ok::<Machine, Fault>(final(self)@),
                Err(f) => old(self)@.checked(*end) == Err::<Machine, Fault>(f)
                    && final(self)@ == old(self)@,
            },
    {
        match self.eval_leaf_expr(end) {
            Ok(Value::I64(e)) => {
                if e <= self.cells.len() as u64 {
                    self.index = self.index + 1;
                    Ok(())
                } else if e <= usize::MAX as u64 {
                    let needs_length: usize = e as usize;
                    let ghost before = self.cells@;
                    while self.cells.len() < needs_length
                        invariant
                            before.len() <= self.cells.len() <= needs_length,
                            self.cells@ == before + Seq::new(
                                (self.cells.len() - before.len()) as nat,
                                |k: int| 0u8,
                            ),
                            self.registers == old(self).registers,
                            self.stdout == old(self).stdout,
                            self.stdin == old(self).stdin,
                            self.open == old(self).open,
                            self.status == old(self).status,
                            self.block == old(self).block,
                            self.index == old(self).index,
                        decreases needs_length - self.cells.len(),
                    {
                        self.cells.push(0);
                        assert(self.cells@ =~= before + Seq::new(
                            (self.cells.len() - before.len()) as nat,
                            |k: int| 0u8,
                        ));
                    }
                    self.index = self.index + 1;
                    Ok(())
                } else {
                    Err(Fault::OutOfBounds)
                }
            },
            Ok(_) => Err(Fault::WrongType),
            Err(f) => Err(f),
        }
    }

    fn assign(&mut self, target: RegisterID, expr: &Expr) -> (r: Result<(), Fault>)
        requires
            old(self).index < usize::MAX,
        ensures
            match r {
                Ok(()) => old(self)@.assigned(target, *expr) == Ok::<
                    Machine,
                    Fault,
                >(final(self)@),
                Err(f) => old(self)@.assigned(target, *expr) == Err::<
                    Machine,
                    Fault,
                >(f) && final(self)@ == old(self)@,
            },
    {
        match self.eval_expr(expr) {
            Ok(value) => self.write(target, value),
            Err(f) => Err(f),
        }
    }

    fn eval_expr(&self, expr: &Expr) -> (r: Result<Value, Fault>)
        ensures
            r == eval_expr(self@.registers, *expr),
    {
        match expr {
            Expr::Leaf(e) => self.eval_leaf_expr(e),
            Expr::Binary(a, op, b) => self.binary_op(*op, a, b),
            Expr::Unary(a, op) => self.unary_op(*op, a),
            Expr::Test(a, op, b) => self.test_op(*op, a, b),
        }
    }

    fn binary_op(&self, op: BinaryOp, a: &LeafExpr, b: &LeafExpr) -> (r: Result<Value, Fault>)
        ensures
            r == eval_expr(self@.registers, Expr::Binary(*a, op, *b)),
    {
        let x = self.eval_leaf_expr(a);
        let y = self.eval_leaf_expr(b);
        eval_on(&Expr::Binary(*a, op, *b), x, y)
    }

    fn unary_op(&self, op: UnaryOp, a: &LeafExpr) -> (r: Result<Value, Fault>)
        ensures
            r == eval_expr(self@.registers, Expr::Unary(*a, op)),
    {
        let x = self.eval_leaf_expr(a);
        eval_on(&Expr::Unary(*a, op), x, x)
    }

    fn test_op(&self, op: TestOp, a: &LeafExpr, b: &LeafExpr) -> (r: Result<Value, Fault>)
        ensures
            r == eval_expr(self@.registers, Expr::Test(*a, op, *b)),
    {
        let x = self.eval_leaf_expr(a);
        let y = self.eval_leaf_expr(b);
        eval_on(&Expr::Test(*a, op, *b), x, y)
    }

    fn output(&mut self, value: &LeafExpr) -> (r: Result<(), Fault>)
        requires
            old(self).index < usize::MAX,
        ensures
            match r {
                Ok(()) => old(self)@.put(*value) == Ok::<
                    Machine,
                    Fault,
                >(final(self)@),
                Err(f) => old(self)@.put(*value) == Err::<
                    Machine,
                    Fault,
                >(f) && final(self)@ == old(self)@,
            },
    {
        match self.eval_leaf_expr(value) {
            Ok(Value::I8(v)) => {
                self.stdout.push(v);
                self.index = self.index + 1;
                Ok(())
            },
            Ok(_) => Err(Fault::WrongType),
            Err(f) => Err(f),
        }
    }

    fn input(&mut self, target: RegisterID, default: &LeafExpr) -> (r: Result<(), Fault>)
        requires
            old(self).index < usize::MAX,
        ensures
            match r {
                Ok(()) => old(self)@.got(target, *default) == Ok::<
                    Machine,
                    Fault,
                >(final(self)@),
                Err(f) => old(self)@.got(target, *default) == Err::<
                    Machine,
                    Fault,
                >(f) && final(self)@ == old(self)@,
            },
    {
        match self.eval_leaf_expr(default) {
            Ok(Value::I8(d)) => {
                if target.0 < self.registers.len() {
                    let result = match self.stdin.pop_front() {
                        Some(byte) => byte,
                        None => d,
                    };
                    self.write(target, Value::I8(result))
                } else {
                    Err(Fault::NoSuchRegister)
                }
            },
            Ok(_) => Err(Fault::WrongType),
            Err(f) => Err(f),
        }
    }

    fn jump(&mut self, module: &Module, target: &TargetBlock) -> (r: Result<(), Fault>)
        ensures
            match r {
                Ok(()) => old(self)@.entered(module@, target@) == Ok::<Machine, Fault>(
                    final(self)@,
                ),
                Err(f) => old(self)@.entered(module@, target@) == Err::<Machine, Fault>(f)
                    && final(self)@ == old(self)@,
            },
    {
        let mut args: Vec<Value> = Vec::new();
        let mut k: usize = 0;
        while k < target.args.len()
            invariant
                k <= target.args.len(),
                args.len() == k,
                eval_args(self@.registers, target@.args, k as int) == Ok::<Seq<Value>, Fault>(
                    args@,
                ),
            decreases target.args.len() - k,
        {
            match self.eval_leaf_expr(&target.args[k]) {
                Ok(v) => args.push(v),
                Err(f) => {
                    proof {
                        lemma_eval_args_fails(
                            self@.registers,
                            target@.args,
                            k as int + 1,
                            target.args.len() as int,
                        );
                    }
                    return Err(f);
                },
            }
            k += 1;
        }
        if target.id.0 >= module.blocks.len() {
            return Err(Fault::NoSuchBlock);
        }
        let block = &module.blocks[target.id.0];
        let ghost before = self@.registers;
        let n: usize = if block.parameters.len() <= args.len() {
            block.parameters.len()
        } else {
            args.len()
        };
        let mut j: usize = 0;
        while j < n
            invariant
                j <= n,
                n <= block.parameters.len(),
                n == smaller(block.parameters.len() as int, args.len() as int),
                eval_args(before, target@.args, target.args.len() as int) == Ok::<
                    Seq<Value>,
                    Fault,
                >(args@),
                target.id.0 < module.blocks.len(),
                *block == module.blocks[target.id.0 as int],
                before == self.registers@,
                self@ == old(self)@,
                forall|i: int| 0 <= i < j ==> (#[trigger] block.parameters@[i]).0 < before.len(),
            decreases n - j,
        {
            if block.parameters[j].0 >= self.registers.len() {
                proof {
                    lemma_bound_keeps_len(before, block.parameters@, args@, j as int);
                    lemma_bound_fails(before, block.parameters@, args@, j as int + 1, n as int);
                }
                return Err(Fault::NoSuchRegister);
            }
            j += 1;
        }
        j = 0;
        while j < n
            invariant
                j <= n,
                n <= block.parameters.len(),
                n <= args.len(),
                n == smaller(block.parameters.len() as int, args.len() as int),
                eval_args(before, target@.args, target.args.len() as int) == Ok::<
                    Seq<Value>,
                    Fault,
                >(args@),
                target.id.0 < module.blocks.len(),
                *block == module.blocks[target.id.0 as int],
                before == old(self)@.registers,
                forall|i: int| 0 <= i < n ==> (#[trigger] block.parameters@[i]).0 < before.len(),
                bound(before, block.parameters@, args@, j as int) == Ok::<Seq<Value>, Fault>(
                    self.registers@,
                ),
                self.keeps_place(old(self)),
            decreases n - j,
        {
            proof {
                lemma_bound_keeps_len(before, block.parameters@, args@, j as int);
            }
            let param = block.parameters[j];
            self.registers[param.0] = args[j];
            j += 1;
        }
        self.block = target.id.0;
        self.index = 0;
        Ok(())
    }

    fn branch(&mut self, module: &Module, c: &LeafExpr, then: &TargetBlock, els: &TargetBlock) -> (r:
        Result<(), Fault>)
        ensures
            match r {
                Ok(()) => old(self)@.branched(module@, *c, then@, els@) == Ok::<
                    Machine,
                    Fault,
                >(final(self)@),
                Err(f) => old(self)@.branched(module@, *c, then@, els@) == Err::<
                    Machine,
                    Fault,
                >(f) && final(self)@ == old(self)@,
            },
    {
        match self.eval_leaf_expr(c) {
            Ok(Value::I1(c)) => {
                if c {
                    self.jump(module, then)
                } else {
                    self.jump(module, els)
                }
            },
            Ok(_) => Err(Fault::WrongType),
            Err(f) => Err(f),
        }
    }

    fn eval_leaf_expr(&self, expr: &LeafExpr) -> (r: Result<Value, Fault>)
        ensures
            r == eval_leaf(self@.registers, *expr),
    {
        match expr {
            LeafExpr::Register(r) => if r.0 < self.registers.len() {
                Ok(self.registers[r.0])
            } else {
                Err(Fault::NoSuchRegister)
            },
            LeafExpr::Int(c) => Ok(eval_constant(*c)),
        }
    }
}

/// Once the evaluation of the arguments has failed, it fails for good.
proof fn lemma_eval_args_fails(registers: Seq<Value>, args: Seq<LeafExpr>, k: int, n: int)
    requires
        0 <= k <= n,
        eval_args(registers, args, k) is Err,
    ensures
        eval_args(registers, args, n) == eval_args(registers, args, k),
    decreases n - k,
{
    if k < n {
        lemma_eval_args_fails(registers, args, k, n - 1);
    }
}

/// Binding parameters leaves the number of registers as it is.
proof fn lemma_bound_keeps_len(
    registers: Seq<Value>,
    parameters: Seq<RegisterID>,
    vals: Seq<Value>,
    n: int,
)
    ensures
        bound(registers, parameters, vals, n) matches Ok(regs) ==> regs.len() == registers.len(),
        (forall|i: int| 0 <= i < n ==> (#[trigger] parameters[i]).0 < registers.len()) ==> bound(
            registers,
            parameters,
            vals,
            n,
        ) is Ok,
    decreases n,
{
    if n > 0 {
        lemma_bound_keeps_len(registers, parameters, vals, n - 1);
    }
}

/// Once the binding of the parameters has failed, it fails for good.
proof fn lemma_bound_fails(
    registers: Seq<Value>,
    parameters: Seq<RegisterID>,
    vals: Seq<Value>,
    k: int,
    n: int,
)
    requires
        0 <= k <= n,
        bound(registers, parameters, vals, k) is Err,
    ensures
        bound(registers, parameters, vals, n) == bound(registers, parameters, vals, k),
    decreases n - k,
{
    if k < n {
        lemma_bound_fails(registers, parameters, vals, k, n - 1);
    }
}

} // verus!
