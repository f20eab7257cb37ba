use vstd::prelude::*;
use std::collections::{HashMap, HashSet};
use super::block::BlockID;
use super::exec::{eval_constant, eval_expr, eval_on, Value};
use super::register::RegisterID;
use super::types::Type;
use super::{Module, ModuleView};

verus! {

#[derive(Copy, Clone, Debug, PartialEq, Eq, Hash, Structural)]
pub enum BinaryOp {
    Add,
    Sub,
    Mul,
    UDiv,
    IDiv,
    UMod,
    IMod,
    And,
    Or,
    Xor,
}

#[derive(Copy, Clone, Debug, PartialEq, Eq, Hash, Structural)]
pub enum UnaryOp {
    Not,
    Neg,
}

#[derive(Copy, Clone, Debug, PartialEq, Eq, Hash, Structural)]
pub enum TestOp {
    Equal,
    NotEqual,
}

/// A constant with its width and the signedness it was written with.
#[derive(Copy, Clone, Debug, PartialEq, Eq, Hash, Structural)]
pub enum ConstInt {
    Bool(bool),
    I8(i8),
    U8(u8),
    U64(u64),
    I64(i64),
}

/// An operand: a register or a constant.
#[derive(Copy, Clone, Debug, PartialEq, Eq, Hash, Structural)]
pub enum LeafExpr {
    Register(RegisterID),
    Int(ConstInt),
}

/// What an assignment computes.
#[derive(Copy, Clone, Debug, PartialEq, Eq, Hash, Structural)]
pub enum Expr {
    Leaf(LeafExpr),
    Binary(LeafExpr, BinaryOp, LeafExpr),
    Unary(LeafExpr, UnaryOp),
    Test(LeafExpr, TestOp, LeafExpr),
}

/// An edge: the block it leads to and the values for that block's parameters.
#[derive(Debug, PartialEq, Eq, Hash)]
pub struct TargetBlock {
    pub id: BlockID,
    pub args: Vec<LeafExpr>,
}

/// One instruction of a block.
#[derive(Debug, PartialEq, Eq, Hash)]
pub enum Instruction {
    Nop,
    LoadCell(RegisterID, LeafExpr),
    StoreCell(LeafExpr, LeafExpr),
    BoundsCheck(LeafExpr, LeafExpr),
    Assign(RegisterID, Expr),
    Output(LeafExpr),
    Input(RegisterID, LeafExpr),
    Jump(TargetBlock),
    Branch(LeafExpr, TargetBlock, TargetBlock),
}

/// The mathematical form of an edge.
pub struct Target {
    pub id: BlockID,
    pub args: Seq<LeafExpr>,
}

/// The mathematical form of an instruction.
pub enum Op {
    Nop,
    LoadCell(RegisterID, LeafExpr),
    StoreCell(LeafExpr, LeafExpr),
    BoundsCheck(LeafExpr, LeafExpr),
    Assign(RegisterID, Expr),
    Output(LeafExpr),
    Input(RegisterID, LeafExpr),
    Jump(Target),
    Branch(LeafExpr, Target, Target),
}

impl View for TargetBlock {
    type V = Target;

    open spec fn view(&self) -> Target {
        Target { id: self.id, args: self.args@ }
    }
}

impl View for Instruction {
    type V = Op;

    open spec fn view(&self) -> Op {
        match self {
            Instruction::Nop => Op::Nop,
            Instruction::LoadCell(r, e) => Op::LoadCell(*r, *e),
            Instruction::StoreCell(d, e) => Op::StoreCell(*d, *e),
            Instruction::BoundsCheck(l, h) => Op::BoundsCheck(*l, *h),
            Instruction::Assign(r, e) => Op::Assign(*r, *e),
            Instruction::Output(e) => Op::Output(*e),
            Instruction::Input(r, e) => Op::Input(*r, *e),
            Instruction::Jump(t) => Op::Jump(t@),
            Instruction::Branch(c, t, e) => Op::Branch(*c, t@, e@),
        }
    }
}

/// The mathematical form of a list of instructions.
pub open spec fn ops_view(s: Seq<Instruction>) -> Seq<Op> {
    Seq::new(s.len(), |k: int| s[k]@)
}

/// Registers are replaced by what `map` holds for them.
pub type Replacements = Map<usize, LeafExpr>;

impl ConstInt {
    /// The constant by which multiplying negates: all bits set, at the widths
    /// that have a negation of their own. No one-bit constant is one.
    pub open spec fn negates(self) -> bool {
        match self {
            ConstInt::Bool(_) => false,
            ConstInt::I8(val) => val == -1,
            ConstInt::U8(val) => val == 255,
            ConstInt::I64(val) => val == -1,
            ConstInt::U64(val) => val == u64::MAX,
        }
    }

    /// The constant by which multiplying changes nothing.
    pub open spec fn is_one(self) -> bool {
        match self {
            ConstInt::Bool(b) => b,
            ConstInt::I8(val) => val == 1,
            ConstInt::U8(val) => val == 1,
            ConstInt::I64(val) => val == 1,
            ConstInt::U64(val) => val == 1,
        }
    }

    pub open spec fn width(self) -> Type {
        match self {
            ConstInt::Bool(_) => Type::I1,
            ConstInt::U8(_) => Type::I8,
            ConstInt::I8(_) => Type::I8,
            ConstInt::U64(_) => Type::I64,
            ConstInt::I64(_) => Type::I64,
        }
    }

    pub fn is_multiplicative_negation(self) -> (r: bool)
        ensures
            r == self.negates(),
    {
        match self {
            Self::Bool(_) => false,
            Self::I8(val) => val == -1,
            Self::U8(val) => val == 255,
            Self::I64(val) => val == -1,
            Self::U64(val) => val == u64::MAX,
        }
    }

    pub fn is_multiplicative_identity(self) -> (r: bool)
        ensures
            r == self.is_one(),
    {
        match self {
            Self::Bool(b) => b,
            Self::I8(val) => val == 1,
            Self::U8(val) => val == 1,
            Self::I64(val) => val == 1,
            Self::U64(val) => val == 1,
        }
    }

    pub fn int_type(self) -> (r: Type)
        ensures
            r == self.width(),
    {
        match self {
            Self::Bool(_) => Type::I1,
            Self::U8(_) => Type::I8,
            Self::I8(_) => Type::I8,
            Self::U64(_) => Type::I64,
            Self::I64(_) => Type::I64,
        }
    }
}

impl LeafExpr {
    /// Whether the operand is the register `reg`.
    pub open spec fn reads(self, reg: RegisterID) -> bool {
        self == LeafExpr::Register(reg)
    }

    /// The operand with its register replaced, where `map` holds one for it.
    pub open spec fn replaced(self, map: Replacements) -> LeafExpr {
        match self {
            LeafExpr::Register(r) => if map.contains_key(r.0) {
                map[r.0]
            } else {
                self
            },
            LeafExpr::Int(_) => self,
        }
    }

    pub open spec fn negates(self) -> bool {
        self matches LeafExpr::Int(c) && c.negates()
    }

    pub open spec fn is_one(self) -> bool {
        self matches LeafExpr::Int(c) && c.is_one()
    }

    /// The registers that the operand reads.
    pub open spec fn read_set(self) -> Set<usize> {
        match self {
            LeafExpr::Register(r) => set![r.0],
            LeafExpr::Int(_) => Set::empty(),
        }
    }

    /// The width of the operand: that of the constant, or that of the
    /// register in the module.
    pub open spec fn width(self, m: ModuleView) -> Type {
        match self {
            LeafExpr::Int(c) => c.width(),
            LeafExpr::Register(r) => m.registers[r.0 as int].register_type,
        }
    }

    /// Whether the operand is a constant, or a register that the module has.
    pub open spec fn known(self, m: ModuleView) -> bool {
        self matches LeafExpr::Register(r) ==> r.0 < m.registers.len()
    }

    pub fn contains(self, reg: RegisterID) -> (r: bool)
        ensures
            r == self.reads(reg),
    {
        match self {
            LeafExpr::Register(r) => r.0 == reg.0,
            LeafExpr::Int(_) => false,
        }
    }

    pub(super) fn populate_used(self, used: &mut HashSet<usize>)
        ensures
            final(used)@ == old(used)@.union(self.read_set()),
    {
        broadcast use vstd::std_specs::hash::group_hash_axioms;

        if let Some(reg) = self.as_register() {
            used.insert(reg.0);
            assert(used@ =~= old(used)@.union(self.read_set()));
        } else {
            assert(used@ =~= old(used)@.union(self.read_set()));
        }
    }

    /// The value of the operand, where it is a constant.
    pub fn eval_const(self) -> (r: Option<Value>)
        ensures
            r == match self {
                LeafExpr::Register(_) => None,
                LeafExpr::Int(c) => Some(super::exec::const_value(c)),
            },
    {
        match self {
            LeafExpr::Register(_) => None,
            LeafExpr::Int(i) => Some(eval_constant(i)),
        }
    }

    /// Replaces the register by what `map` holds for it, if anything, and
    /// tells whether the operand is another than it was.
    pub fn replace_usage(&mut self, map: &HashMap<usize, LeafExpr>) -> (r: bool)
        ensures
            *final(self) == old(self).replaced(map@),
            r == (*final(self) != *old(self)),
    {
        broadcast use vstd::std_specs::hash::group_hash_axioms;

        if let LeafExpr::Register(reg) = *self {
            if let Some(new) = map.get(&reg.0) {
                let before = *self;
                *self = *new;
                return !(*new == before);
            }
        }
        false
    }

    /// The width of the operand.
    pub fn expr_type(&self, module: &Module) -> (r: Type)
        requires
            self.known(module@),
        ensures
            r == self.width(module@),
    {
        match self {
            Self::Int(c) => c.int_type(),
            Self::Register(r) => module.registers[r.0].register_type(),
        }
    }

    pub fn as_register(self) -> (r: Option<RegisterID>)
        ensures
            r == match self {
                LeafExpr::Register(reg) => Some(reg),
                LeafExpr::Int(_) => None,
            },
    {
        match self {
            LeafExpr::Register(r) => Some(r),
            LeafExpr::Int(_) => None,
        }
    }

    pub fn is_constant_multiplicative_negation(self) -> (r: bool)
        ensures
            r == self.negates(),
    {
        match self {
            Self::Register(_) => false,
            Self::Int(c) => c.is_multiplicative_negation(),
        }
    }

    pub fn is_constant_multiplicative_identity(self) -> (r: bool)
        ensures
            r == self.is_one(),
    {
        match self {
            Self::Register(_) => false,
            Self::Int(c) => c.is_multiplicative_identity(),
        }
    }
}

impl Expr {
    pub open spec fn reads(self, reg: RegisterID) -> bool {
        match self {
            Expr::Leaf(l) => l.reads(reg),
            Expr::Binary(a, _, b) => a.reads(reg) || b.reads(reg),
            Expr::Unary(a, _) => a.reads(reg),
            Expr::Test(a, _, b) => a.reads(reg) || b.reads(reg),
        }
    }

    pub open spec fn replaced(self, map: Replacements) -> Expr {
        match self {
            Expr::Leaf(l) => Expr::Leaf(l.replaced(map)),
            Expr::Binary(a, op, b) => Expr::Binary(a.replaced(map), op, b.replaced(map)),
            Expr::Unary(a, op) => Expr::Unary(a.replaced(map), op),
            Expr::Test(a, op, b) => Expr::Test(a.replaced(map), op, b.replaced(map)),
        }
    }

    pub fn contains(self, reg: RegisterID) -> (r: bool)
        ensures
            r == self.reads(reg),
    {
        match self {
            Self::Leaf(l) => l.contains(reg),
            Self::Binary(a, _, b) => a.contains(reg) || b.contains(reg),
            Self::Unary(a, _) => a.contains(reg),
            Self::Test(a, _, b) => a.contains(reg) || b.contains(reg),
        }
    }

    pub fn is_leaf(self) -> (r: bool)
        ensures
            r == (self is Leaf),
    {
        match self {
            Self::Leaf(_) => true,
            _ => false,
        }
    }

    pub open spec fn read_set(self) -> Set<usize> {
        match self {
            Expr::Leaf(l) => l.read_set(),
            Expr::Binary(a, _, b) => a.read_set().union(b.read_set()),
            Expr::Unary(a, _) => a.read_set(),
            Expr::Test(a, _, b) => a.read_set().union(b.read_set()),
        }
    }

    /// Whether every operand is a constant.
    pub open spec fn is_constant(self) -> bool {
        match self {
            Expr::Leaf(l) => l is Int,
            Expr::Binary(a, _, b) => a is Int && b is Int,
            Expr::Unary(a, _) => a is Int,
            Expr::Test(a, _, b) => a is Int && b is Int,
        }
    }

    /// The value of an expression of constants, as the machine computes it;
    /// none where an operand is a register or the operation has no result.
    pub open spec fn constant_value(self) -> Option<Value> {
        if self.is_constant() {
            match eval_expr(Seq::empty(), self) {
                Ok(v) => Some(v),
                Err(_) => None,
            }
        } else {
            None
        }
    }

    pub(super) fn populate_used(self, used: &mut HashSet<usize>)
        ensures
            final(used)@ == old(used)@.union(self.read_set()),
    {
        match self {
            Self::Leaf(l) => l.populate_used(used),
            Self::Binary(a, _, b) => {
                a.populate_used(used);
                b.populate_used(used);
                assert(used@ =~= old(used)@.union(self.read_set()));
            },
            Self::Unary(a, _) => a.populate_used(used),
            Self::Test(a, _, b) => {
                a.populate_used(used);
                b.populate_used(used);
                assert(used@ =~= old(used)@.union(self.read_set()));
            },
        }
    }

    /// The value of the expression, where it can be computed ahead of the run.
    pub fn eval_const(self) -> (r: Option<Value>)
        ensures
            r == self.constant_value(),
    {
        let (a, b) = match self {
            Self::Leaf(l) => (l.eval_const(), None),
            Self::Binary(a, _, b) => (a.eval_const(), b.eval_const()),
            Self::Test(a, _, b) => (a.eval_const(), b.eval_const()),
            Self::Unary(a, _) => (a.eval_const(), None),
        };
        let unary = match self {
            Self::Leaf(_) => true,
            Self::Unary(_, _) => true,
            _ => false,
        };
        match (a, b) {
            (Some(x), Some(y)) => match eval_on(&self, Ok(x), Ok(y)) {
                Ok(v) => Some(v),
                Err(_) => None,
            },
            (Some(x), None) => if unary {
                match eval_on(&self, Ok(x), Ok(x)) {
                    Ok(v) => Some(v),
                    Err(_) => None,
                }
            } else {
                None
            },
            _ => None,
        }
    }

    /// Replaces each register by what `map` holds for it, if anything, and
    /// tells whether the expression is another than it was.
    pub fn replace_usages(&mut self, map: &HashMap<usize, LeafExpr>) -> (r: bool)
        ensures
            *final(self) == old(self).replaced(map@),
            r == (*final(self) != *old(self)),
    {
        let (new, changed) = match *self {
            Expr::Leaf(l) => {
                let mut l = l;
                let c = l.replace_usage(map);
                (Expr::Leaf(l), c)
            },
            Expr::Binary(a, op, b) => {
                let mut a = a;
                let mut b = b;
                let c = a.replace_usage(map);
                let d = b.replace_usage(map);
                (Expr::Binary(a, op, b), c || d)
            },
            Expr::Unary(a, op) => {
                let mut a = a;
                let c = a.replace_usage(map);
                (Expr::Unary(a, op), c)
            },
            Expr::Test(a, op, b) => {
                let mut a = a;
                let mut b = b;
                let c = a.replace_usage(map);
                let d = b.replace_usage(map);
                (Expr::Test(a, op, b), c || d)
            },
        };
        *self = new;
        changed
    }
}

impl Target {
    pub open spec fn reads(self, reg: RegisterID) -> bool {
        exists|k: int| 0 <= k < self.args.len() && (#[trigger] self.args[k]).reads(reg)
    }

    pub open spec fn replaced(self, map: Replacements) -> Target {
        Target {
            id: self.id,
            args: Seq::new(self.args.len(), |k: int| self.args[k].replaced(map)),
        }
    }
}

impl Target {
    pub open spec fn read_set(self) -> Set<usize> {
        Set::new(|r: usize| self.reads(RegisterID(r)))
    }
}

impl Op {
    /// The registers that the instruction reads.
    pub open spec fn read_set(self) -> Set<usize> {
        Set::new(|r: usize| self.reads(RegisterID(r)))
    }

    /// Whether the instruction reads the register `reg`.
    pub open spec fn reads(self, reg: RegisterID) -> bool {
        match self {
            Op::Nop => false,
            Op::LoadCell(_, e) => e.reads(reg),
            Op::StoreCell(d, e) => d.reads(reg) || e.reads(reg),
            Op::BoundsCheck(l, h) => l.reads(reg) || h.reads(reg),
            Op::Assign(_, e) => e.reads(reg),
            Op::Output(e) => e.reads(reg),
            Op::Input(_, e) => e.reads(reg),
            Op::Jump(t) => t.reads(reg),
            Op::Branch(c, t, e) => c.reads(reg) || t.reads(reg) || e.reads(reg),
        }
    }

    /// The instruction with every register that it reads replaced by what
    /// `map` holds for it; the register that it writes stays.
    pub open spec fn replaced(self, map: Replacements) -> Op {
        match self {
            Op::Nop => Op::Nop,
            Op::LoadCell(r, e) => Op::LoadCell(r, e.replaced(map)),
            Op::StoreCell(d, e) => Op::StoreCell(d.replaced(map), e.replaced(map)),
            Op::BoundsCheck(l, h) => Op::BoundsCheck(l.replaced(map), h.replaced(map)),
            Op::Assign(r, e) => Op::Assign(r, e.replaced(map)),
            Op::Output(e) => Op::Output(e.replaced(map)),
            Op::Input(r, e) => Op::Input(r, e.replaced(map)),
            Op::Jump(t) => Op::Jump(t.replaced(map)),
            Op::Branch(c, t, e) => Op::Branch(c.replaced(map), t.replaced(map), e.replaced(map)),
        }
    }

    /// The register that the instruction writes, if any.
    pub open spec fn target(self) -> Option<RegisterID> {
        match self {
            Op::LoadCell(r, _) => Some(r),
            Op::Assign(r, _) => Some(r),
            Op::Input(r, _) => Some(r),
            _ => None,
        }
    }

    /// Whether the instruction ends its block.
    pub open spec fn is_terminator(self) -> bool {
        self is Jump || self is Branch
    }
}

impl TargetBlock {
    pub fn new(id: BlockID, args: Vec<LeafExpr>) -> (r: Self)
        ensures
            r@ == (Target { id, args: args@ }),
    {
        Self { id, args }
    }

    pub fn uses(&self, reg: RegisterID) -> (r: bool)
        ensures
            r == self@.reads(reg),
    {
        let mut k: usize = 0;
        while k < self.args.len()
            invariant
                k <= self.args.len(),
                forall|j: int| 0 <= j < k ==> !(#[trigger] self.args@[j]).reads(reg),
            decreases self.args.len() - k,
        {
            if self.args[k].contains(reg) {
                assert(self@.args[k as int].reads(reg));
                return true;
            }
            k += 1;
        }
        false
    }
}

impl TargetBlock {
    pub(super) fn populate_used(&self, used: &mut HashSet<usize>)
        ensures
            final(used)@ == old(used)@.union(self@.read_set()),
    {
        let mut k: usize = 0;
        while k < self.args.len()
            invariant
                k <= self.args.len(),
                forall|r: usize|
                    used@.contains(r) <==> old(used)@.contains(r) || exists|j: int|
                        0 <= j < k && (#[trigger] self@.args[j]).reads(RegisterID(r)),
            decreases self.args.len() - k,
        {
            let ghost before = used@;
            self.args[k].populate_used(used);
            assert forall|r: usize|
                used@.contains(r) <==> old(used)@.contains(r) || exists|j: int|
                    0 <= j < k + 1 && (#[trigger] self@.args[j]).reads(RegisterID(r)) by {
                if self@.args[k as int].reads(RegisterID(r)) {
                    assert(used@.contains(r));
                }
                if used@.contains(r) && !before.contains(r) {
                    assert(self@.args[k as int].reads(RegisterID(r)));
                }
            }
            k += 1;
        }
        assert(used@ =~= old(used)@.union(self@.read_set()));
    }

    /// Replaces each register among the arguments by what `map` holds for
    /// it, and tells whether an argument is another than it was.
    pub fn replace_usages(&mut self, map: &HashMap<usize, LeafExpr>) -> (r: bool)
        ensures
            final(self)@ == old(self)@.replaced(map@),
            r == (final(self)@ != old(self)@),
    {
        let mut changed = false;
        let mut k: usize = 0;
        while k < self.args.len()
            invariant
                k <= self.args.len(),
                self.id == old(self).id,
                self.args.len() == old(self).args.len(),
                changed == (exists|j: int| 0 <= j < k && #[trigger] self.args@[j] != old(self).args@[j]),
                forall|j: int| 0 <= j < k ==> self.args@[j] == old(self).args@[j].replaced(map@),
                forall|j: int| k <= j < self.args.len() ==> self.args@[j] == old(self).args@[j],
            decreases self.args.len() - k,
        {
            let mut arg = self.args[k];
            let c = arg.replace_usage(map);
            let ghost before = self.args@;
            self.args[k] = arg;
            proof {
                if changed {
                    let j = choose|j: int| 0 <= j < k && #[trigger] before[j] != old(self).args@[j];
                    assert(self.args@[j] != old(self).args@[j]);
                } else if !c {
                    assert forall|j: int| 0 <= j < k + 1 implies #[trigger] self.args@[j] == old(
                        self,
                    ).args@[j] by {
                        if j < k {
                            assert(before[j] == old(self).args@[j]);
                        }
                    }
                } else {
                    assert(self.args@[k as int] != old(self).args@[k as int]);
                }
            }
            changed = changed || c;
            k += 1;
        }
        assert(self@.args =~= old(self)@.replaced(map@).args);
        proof {
            if changed {
                let j = choose|j: int| 0 <= j < k && #[trigger] self.args@[j] != old(self).args@[j];
                assert(self@.args[j] != old(self)@.args[j]);
            } else {
                assert(self@.args =~= old(self)@.args);
            }
        }
        changed
    }
}

/// A fresh copy of an edge.
pub fn copy_target(t: &TargetBlock) -> (r: TargetBlock)
    ensures
        r@ == t@,
{
    let mut args: Vec<LeafExpr> = Vec::new();
    let mut k: usize = 0;
    while k < t.args.len()
        invariant
            k <= t.args.len(),
            args@ == t.args@.take(k as int),
        decreases t.args.len() - k,
    {
        assert(t.args@.take(k as int + 1) =~= t.args@.take(k as int).push(t.args@[k as int]));
        args.push(t.args[k]);
        k += 1;
    }
    assert(t.args@.take(t.args.len() as int) =~= t.args@);
    TargetBlock { id: t.id, args }
}

/// A fresh copy of an instruction.
pub fn copy_instruction(i: &Instruction) -> (r: Instruction)
    ensures
        r@ == i@,
{
    match i {
        Instruction::Nop => Instruction::Nop,
        Instruction::LoadCell(r, e) => Instruction::LoadCell(*r, *e),
        Instruction::StoreCell(d, e) => Instruction::StoreCell(*d, *e),
        Instruction::BoundsCheck(l, h) => Instruction::BoundsCheck(*l, *h),
        Instruction::Assign(r, e) => Instruction::Assign(*r, *e),
        Instruction::Output(e) => Instruction::Output(*e),
        Instruction::Input(r, e) => Instruction::Input(*r, *e),
        Instruction::Jump(t) => Instruction::Jump(copy_target(t)),
        Instruction::Branch(c, t, e) => Instruction::Branch(*c, copy_target(t), copy_target(e)),
    }
}

impl Instruction {
    pub fn uses(&self, reg: RegisterID) -> (r: bool)
        ensures
            r == self@.reads(reg),
    {
        match self {
            Self::Nop => false,
            Self::LoadCell(_, e) => e.contains(reg),
            Self::StoreCell(d, e) => d.contains(reg) || e.contains(reg),
            Self::BoundsCheck(l, h) => l.contains(reg) || h.contains(reg),
            Self::Assign(_, e) => e.contains(reg),
            Self::Output(e) => e.contains(reg),
            Self::Input(_, e) => e.contains(reg),
            Self::Jump(t) => t.uses(reg),
            Self::Branch(c, t, e) => c.contains(reg) || t.uses(reg) || e.uses(reg),
        }
    }
}

impl Instruction {
    /// Replaces each register that the instruction reads by what `map` holds
    /// for it, if anything, and tells whether the instruction is another
    /// than it was.
    pub fn replace_usages(&mut self, map: &HashMap<usize, LeafExpr>) -> (r: bool)
        ensures
            final(self)@ == old(self)@.replaced(map@),
            r == (final(self)@ != old(self)@),
    {
        match self {
            Instruction::Nop => false,
            Instruction::LoadCell(_, e) => e.replace_usage(map),
            Instruction::StoreCell(d, e) => {
                let a = d.replace_usage(map);
                let b = e.replace_usage(map);
                a || b
            },
            Instruction::BoundsCheck(l, h) => {
                let a = l.replace_usage(map);
                let b = h.replace_usage(map);
                a || b
            },
            Instruction::Assign(_, e) => e.replace_usages(map),
            Instruction::Output(e) => e.replace_usage(map),
            Instruction::Input(_, e) => e.replace_usage(map),
            Instruction::Jump(target) => target.replace_usages(map),
            Instruction::Branch(c, t, e) => {
                let a = c.replace_usage(map);
                let b = t.replace_usages(map);
                let c = e.replace_usages(map);
                a || b || c
            },
        }
    }

    pub(super) fn populate_used(&self, used: &mut HashSet<usize>)
        ensures
            final(used)@ == old(used)@.union(self@.read_set()),
    {
        match self {
            Instruction::Nop => {},
            Instruction::LoadCell(_, e) => e.populate_used(used),
            Instruction::StoreCell(d, e) => {
                d.populate_used(used);
                e.populate_used(used);
            },
            Instruction::BoundsCheck(l, h) => {
                l.populate_used(used);
                h.populate_used(used);
            },
            Instruction::Assign(_, e) => e.populate_used(used),
            Instruction::Output(e) => e.populate_used(used),
            Instruction::Input(_, e) => e.populate_used(used),
            Instruction::Jump(t) => t.populate_used(used),
            Instruction::Branch(c, t, e) => {
                c.populate_used(used);
                t.populate_used(used);
                e.populate_used(used)
            },
        }
        assert(used@ =~= old(used)@.union(self@.read_set()));
    }
}

impl Clone for TargetBlock {
    fn clone(&self) -> (r: Self)
        ensures
            r@ == self@,
    {
        copy_target(self)
    }
}

impl Clone for Instruction {
    fn clone(&self) -> (r: Self)
        ensures
            r@ == self@,
    {
        copy_instruction(self)
    }
}

impl From<bool> for ConstInt {
    fn from(value: bool) -> (r: Self) {
        ConstInt::Bool(value)
    }
}

impl vstd::std_specs::convert::FromSpecImpl<bool> for ConstInt {
    open spec fn obeys_from_spec() -> bool {
        true
    }

    open spec fn from_spec(v: bool) -> Self {
        ConstInt::Bool(v)
    }
}

impl From<i8> for ConstInt {
    fn from(value: i8) -> (r: Self) {
        ConstInt::I8(value)
    }
}

impl vstd::std_specs::convert::FromSpecImpl<i8> for ConstInt {
    open spec fn obeys_from_spec() -> bool {
        true
    }

    open spec fn from_spec(v: i8) -> Self {
        ConstInt::I8(v)
    }
}

impl From<u8> for ConstInt {
    fn from(value: u8) -> (r: Self) {
        ConstInt::U8(value)
    }
}

impl vstd::std_specs::convert::FromSpecImpl<u8> for ConstInt {
    open spec fn obeys_from_spec() -> bool {
        true
    }

    open spec fn from_spec(v: u8) -> Self {
        ConstInt::U8(v)
    }
}

impl From<i64> for ConstInt {
    fn from(value: i64) -> (r: Self) {
        ConstInt::I64(value)
    }
}

impl vstd::std_specs::convert::FromSpecImpl<i64> for ConstInt {
    open spec fn obeys_from_spec() -> bool {
        true
    }

    open spec fn from_spec(v: i64) -> Self {
        ConstInt::I64(v)
    }
}

impl From<u64> for ConstInt {
    fn from(value: u64) -> (r: Self) {
        ConstInt::U64(value)
    }
}

impl vstd::std_specs::convert::FromSpecImpl<u64> for ConstInt {
    open spec fn obeys_from_spec() -> bool {
        true
    }

    open spec fn from_spec(v: u64) -> Self {
        ConstInt::U64(v)
    }
}

impl From<bool> for LeafExpr {
    fn from(value: bool) -> (r: Self) {
        LeafExpr::Int(ConstInt::Bool(value))
    }
}

impl vstd::std_specs::convert::FromSpecImpl<bool> for LeafExpr {
    open spec fn obeys_from_spec() -> bool {
        true
    }

    open spec fn from_spec(v: bool) -> Self {
        LeafExpr::Int(ConstInt::Bool(v))
    }
}

impl From<i8> for LeafExpr {
    fn from(value: i8) -> (r: Self) {
        LeafExpr::Int(ConstInt::I8(value))
    }
}

impl vstd::std_specs::convert::FromSpecImpl<i8> for LeafExpr {
    open spec fn obeys_from_spec() -> bool {
        true
    }

    open spec fn from_spec(v: i8) -> Self {
        LeafExpr::Int(ConstInt::I8(v))
    }
}

impl From<u8> for LeafExpr {
    fn from(value: u8) -> (r: Self) {
        LeafExpr::Int(ConstInt::U8(value))
    }
}

impl vstd::std_specs::convert::FromSpecImpl<u8> for LeafExpr {
    open spec fn obeys_from_spec() -> bool {
        true
    }

    open spec fn from_spec(v: u8) -> Self {
        LeafExpr::Int(ConstInt::U8(v))
    }
}

impl From<i64> for LeafExpr {
    fn from(value: i64) -> (r: Self) {
        LeafExpr::Int(ConstInt::I64(value))
    }
}

impl vstd::std_specs::convert::FromSpecImpl<i64> for LeafExpr {
    open spec fn obeys_from_spec() -> bool {
        true
    }

    open spec fn from_spec(v: i64) -> Self {
        LeafExpr::Int(ConstInt::I64(v))
    }
}

impl From<u64> for LeafExpr {
    fn from(value: u64) -> (r: Self) {
        LeafExpr::Int(ConstInt::U64(value))
    }
}

impl vstd::std_specs::convert::FromSpecImpl<u64> for LeafExpr {
    open spec fn obeys_from_spec() -> bool {
        true
    }

    open spec fn from_spec(v: u64) -> Self {
        LeafExpr::Int(ConstInt::U64(v))
    }
}

impl From<RegisterID> for LeafExpr {
    fn from(value: RegisterID) -> (r: Self) {
        LeafExpr::Register(value)
    }
}

impl vstd::std_specs::convert::FromSpecImpl<RegisterID> for LeafExpr {
    open spec fn obeys_from_spec() -> bool {
        true
    }

    open spec fn from_spec(v: RegisterID) -> Self {
        LeafExpr::Register(v)
    }
}

impl From<ConstInt> for LeafExpr {
    fn from(value: ConstInt) -> (r: Self) {
        LeafExpr::Int(value)
    }
}

impl vstd::std_specs::convert::FromSpecImpl<ConstInt> for LeafExpr {
    open spec fn obeys_from_spec() -> bool {
        true
    }

    open spec fn from_spec(v: ConstInt) -> Self {
        LeafExpr::Int(v)
    }
}

impl From<BlockID> for TargetBlock {
    fn from(value: BlockID) -> (r: Self)
        ensures
            r@ == (Target { id: value, args: Seq::empty() }),
    {
        TargetBlock::new(value, Vec::new())
    }
}

impl vstd::std_specs::convert::FromSpecImpl<BlockID> for TargetBlock {
    open spec fn obeys_from_spec() -> bool {
        false
    }

    open spec fn from_spec(v: BlockID) -> Self {
        arbitrary()
    }
}

impl vstd::std_specs::convert::FromSpecImpl<(BlockID, LeafExpr)> for TargetBlock {
    open spec fn obeys_from_spec() -> bool {
        false
    }

    open spec fn from_spec(v: (BlockID, LeafExpr)) -> Self {
        arbitrary()
    }
}

impl From<(BlockID, LeafExpr)> for TargetBlock {
    fn from(value: (BlockID, LeafExpr)) -> (r: Self)
        ensures
            r@ == (Target { id: value.0, args: seq![value.1] }),
    {
        let mut args: Vec<LeafExpr> = Vec::new();
        args.push(value.1);
        assert(args@ =~= seq![value.1]);
        TargetBlock::new(value.0, args)
    }
}

} // verus!
