use vstd::prelude::*;
use super::expr_tree::{
    lemma_list_view_take, lemma_take_all, lemma_take_step, list_view, CellOffset, Instr,
    Instruction, Program,
};
use crate::ir::block::BlockID;
use crate::ir::builder::Builder;
use crate::ir::instruction::{BinaryOp, ConstInt, Expr, LeafExpr, Op, Target, TargetBlock, TestOp};
use crate::ir::register::RegisterID;
use crate::ir::types::Type;
use crate::ir::valid::{
    lemma_defining_orderly, lemma_with_block_orderly, lemma_with_instruction_orderly,
    lemma_with_parameter_orderly, lemma_with_register_orderly, lemma_with_register_valid, op_local,
    reads_below, written_before,
};
use crate::ir::{lemma_module_bounds, Module, ModuleView};

verus! {

/// What is known of one cell: at which offset from the data pointer it lies,
/// the register that stands for it, and whether the register holds a value
/// that the tape does not hold yet.
#[derive(Copy, Clone, Debug, PartialEq, Eq, Structural)]
pub struct CacheEntry {
    pub offset: CellOffset,
    pub register: RegisterID,
    pub written: bool,
}

/// The place of the first entry for `offset` at or after `from`.
pub open spec fn position(s: Seq<CacheEntry>, offset: CellOffset, from: int) -> Option<int>
    decreases s.len() - from,
{
    if from < 0 || from >= s.len() {
        None
    } else if s[from].offset == offset {
        Some(from)
    } else {
        position(s, offset, from + 1)
    }
}

/// The register that the cache holds for `offset`.
pub open spec fn cached(s: Seq<CacheEntry>, offset: CellOffset) -> Option<RegisterID> {
    match position(s, offset, 0) {
        Some(k) => Some(s[k].register),
        None => None,
    }
}

/// The cache with an entry put in: in the place of the entry for the same
/// offset, or at the end.
pub open spec fn put(s: Seq<CacheEntry>, e: CacheEntry) -> Seq<CacheEntry> {
    match position(s, e.offset, 0) {
        Some(k) => s.update(k, e),
        None => s.push(e),
    }
}

/// The cache after the data pointer has moved by `by`: every cell lies that
/// much nearer.
pub open spec fn moved(s: Seq<CacheEntry>, by: isize) -> Seq<CacheEntry> {
    Seq::new(s.len(), |k: int| CacheEntry { offset: s[k].offset.wrapping_sub(by), ..s[k] })
}

/// The edge to a block, with the tape index as its argument where the block
/// takes it as a parameter.
pub open spec fn edge(block: BlockID, index: RegisterID, unbalanced: bool) -> Target {
    Target {
        id: block,
        args: if unbalanced {
            seq![LeafExpr::Register(index)]
        } else {
            Seq::empty()
        },
    }
}

/// A module that holds all of another and more.
pub open spec fn extends(new: ModuleView, old: ModuleView) -> bool {
    new.extends(old)
}

/// The module is valid and in the order that the rewrites of modules rely on.
#[verifier::opaque]
pub open spec fn in_order(m: ModuleView) -> bool {
    m.orderly()
}

/// The state of the lowering: the module so far, the block that instructions
/// go to, the register that holds the tape index, and what is cached of the
/// cells around it.
pub struct GenState {
    pub module: ModuleView,
    pub block: BlockID,
    pub index: RegisterID,
    /// For an offset, the register that holds the tape index of that cell.
    pub indices: Seq<CacheEntry>,
    /// For an offset, the register that holds the value of that cell.
    pub cells: Seq<CacheEntry>,
}

impl GenState {
    /// A register that the module has, of the given type.
    pub open spec fn holds(self, r: RegisterID, t: Type) -> bool {
        r.0 < self.module.registers.len() && self.module.registers[r.0 as int].register_type == t
    }

    /// The register is written by an instruction of the current block.
    pub open spec fn local(self, r: RegisterID) -> bool {
        written_before(
            self.module.blocks[self.block.0 as int].body,
            self.module.blocks[self.block.0 as int].body.len() as int,
            r,
        )
    }

    /// The lowering stands in a block of the module, the tape index and the
    /// cached indices are words, and the cached cells are bytes.
    pub open spec fn typed(self) -> bool {
        &&& self.block.0 < self.module.blocks.len()
        &&& self.holds(self.index, Type::I64)
        &&& forall|k: int|
            0 <= k < self.indices.len() ==> self.holds(
                (#[trigger] self.indices[k]).register,
                Type::I64,
            )
        &&& forall|k: int|
            0 <= k < self.cells.len() ==> self.holds((#[trigger] self.cells[k]).register, Type::I8)
    }

    /// What the lowering relies on while it fills a block: the module is
    /// orderly, the caches are typed, the block has no jump or branch yet,
    /// and every cached cell stands in a register that the block has written.
    pub open spec fn sound(self) -> bool {
        &&& in_order(self.module)
        &&& self.typed()
        &&& self.module.open_block(self.block.0 as int)
        &&& forall|k: int| 0 <= k < self.cells.len() ==> self.local((#[trigger] self.cells[k]).register)
    }

    /// What holds between two blocks: the module is orderly, the caches are
    /// typed, and no cell is cached.
    pub open spec fn parked(self) -> bool {
        &&& in_order(self.module)
        &&& self.typed()
        &&& self.cells.len() == 0
    }

    /// Every block that was there has the body that it had.
    pub open spec fn same_bodies(self, old: GenState) -> bool {
        forall|b: int|
            0 <= b < old.module.blocks.len() ==> (#[trigger] self.module.blocks[b]).body
                == old.module.blocks[b].body
    }

    /// The state has come from `old` by lowering: the module has grown, the
    /// lowering stands in the same block or in a new one, and every other
    /// block that was there is as it was.
    pub open spec fn follows(self, old: GenState) -> bool {
        &&& self.module.extends(old.module)
        &&& (self.block == old.block || self.block.0 >= old.module.blocks.len())
        &&& forall|b: int|
            0 <= b < old.module.blocks.len() && b != old.block.0 ==> (
            #[trigger] self.module.blocks[b]).body == old.module.blocks[b].body
    }

    /// The state with one instruction more in the current block.
    pub open spec fn emit(self, op: Op) -> GenState {
        GenState { module: self.module.with_instruction(self.block.0 as int, op), ..self }
    }

    /// The state with one instruction more that writes a new register of
    /// the given type.
    pub open spec fn define(self, t: Type, op: Op) -> GenState {
        GenState { module: self.module.defining(self.block.0 as int, t, op), ..self }
    }

    /// The state with an assignment of a binary operation to a new register.
    pub open spec fn binary(self, op: BinaryOp, a: LeafExpr, b: LeafExpr) -> (GenState, RegisterID) {
        let target = self.module.next_register();
        (self.define(a.width(self.module), Op::Assign(target, Expr::Binary(a, op, b))), target)
    }

    /// The state with a load of a cell into a new register.
    pub open spec fn load(self, index: LeafExpr) -> (GenState, RegisterID) {
        let target = self.module.next_register();
        (self.define(Type::I8, Op::LoadCell(target, index)), target)
    }

    /// The state with a read of a byte into a new register.
    pub open spec fn read(self, default: LeafExpr) -> (GenState, RegisterID) {
        let target = self.module.next_register();
        (self.define(Type::I8, Op::Input(target, default)), target)
    }

    /// The state with a constant in a new register.
    pub open spec fn constant(self, c: ConstInt) -> (GenState, RegisterID) {
        let target = self.module.next_register();
        (self.define(c.width(), Op::Assign(target, Expr::Leaf(LeafExpr::Int(c)))), target)
    }

    /// The state with the test of a register against zero in a new register.
    pub open spec fn nonzero(self, value: RegisterID) -> (GenState, RegisterID) {
        let target = self.module.next_register();
        (
            self.define(
                Type::I1,
                Op::Assign(
                    target,
                    Expr::Test(
                        LeafExpr::Register(value),
                        TestOp::NotEqual,
                        LeafExpr::Int(ConstInt::I8(0)),
                    ),
                ),
            ),
            target,
        )
    }

    /// The register that holds the tape index of the cell at `offset`:
    /// the cached one, or a new one that is then cached.
    pub open spec fn cell_index(self, offset: CellOffset) -> (GenState, RegisterID) {
        match cached(self.indices, offset) {
            Some(r) => (self, r),
            None => {
                let (s, r) = self.binary(
                    BinaryOp::Add,
                    LeafExpr::Register(self.index),
                    LeafExpr::Int(ConstInt::I64(offset as i64)),
                );
                (
                    GenState {
                        indices: s.indices.push(
                            CacheEntry { offset, register: r, written: false },
                        ),
                        ..s
                    },
                    r,
                )
            },
        }
    }

    /// The register that holds the value of the cell at `offset`: the cached
    /// one, or a new one that the cell is loaded into and that is then cached.
    pub open spec fn cell(self, offset: CellOffset) -> (GenState, RegisterID) {
        match cached(self.cells, offset) {
            Some(r) => (self, r),
            None => {
                let (s1, index) = self.cell_index(offset);
                let (s2, value) = s1.load(LeafExpr::Register(index));
                (
                    GenState {
                        cells: s2.cells.push(
                            CacheEntry { offset, register: value, written: false },
                        ),
                        ..s2
                    },
                    value,
                )
            },
        }
    }

    /// The state after the cell at `offset` has been given a value: a
    /// constant goes to a new register first; the cell is then cached as
    /// written.
    pub open spec fn with_cell(self, offset: CellOffset, value: LeafExpr) -> GenState {
        match value {
            LeafExpr::Register(r) => GenState {
                cells: put(self.cells, CacheEntry { offset, register: r, written: true }),
                ..self
            },
            LeafExpr::Int(c) => {
                let (s, target) = self.constant(c);
                GenState {
                    cells: put(s.cells, CacheEntry { offset, register: target, written: true }),
                    ..s
                }
            },
        }
    }

    /// The state after the data pointer has moved by `by`.
    pub open spec fn after_move(self, by: isize) -> GenState {
        let (s, r) = self.binary(
            BinaryOp::Add,
            LeafExpr::Register(self.index),
            LeafExpr::Int(ConstInt::I64(by as i64)),
        );
        GenState { index: r, indices: moved(s.indices, by), cells: moved(s.cells, by), ..s }
    }

    /// The state after the first `n` cached cells have been written back,
    /// those that are marked as written, in the order of the cache.
    pub open spec fn spilled_upto(self, n: int) -> GenState
        decreases n,
    {
        if n <= 0 {
            self
        } else {
            let before = self.spilled_upto(n - 1);
            let entry = self.cells[n - 1];
            if entry.written {
                let (s, index) = before.cell_index(entry.offset);
                s.emit(Op::StoreCell(LeafExpr::Register(index), LeafExpr::Register(entry.register)))
            } else {
                before
            }
        }
    }

    /// The state after every written cell has been stored. Nothing is known
    /// of the cells afterwards.
    pub open spec fn spilled(self) -> GenState {
        GenState { cells: Seq::empty(), ..self.spilled_upto(self.cells.len() as int) }
    }

    /// The state at the end of a block that hands over to `block`.
    pub open spec fn left(self, unbalanced: bool) -> GenState {
        if unbalanced {
            GenState { indices: Seq::empty(), ..self.spilled() }
        } else {
            self.spilled()
        }
    }

    /// The state after a jump to `block`.
    pub open spec fn jumped(self, block: BlockID, unbalanced: bool) -> GenState {
        let s = self.left(unbalanced);
        s.emit(Op::Jump(edge(block, s.index, unbalanced)))
    }

    /// The state after a branch on `c`. Only the edge to `els` carries the
    /// tape index.
    pub open spec fn branched(self, c: LeafExpr, then: BlockID, els: BlockID, unbalanced: bool) -> GenState {
        let s = self.left(unbalanced);
        s.emit(Op::Branch(c, edge(then, s.index, false), edge(els, s.index, unbalanced)))
    }

    /// The state at the head of `block`, which takes the tape index as a
    /// parameter where it is entered unbalanced.
    pub open spec fn entered(self, block: BlockID, unbalanced: bool) -> GenState {
        if unbalanced {
            let id = self.module.next_register();
            GenState {
                module: self.module.with_register(Type::I64).with_parameter(block.0 as int, id),
                block,
                index: id,
                ..self
            }
        } else {
            GenState { block, ..self }
        }
    }

    /// The state with the test of a cell against zero in a new register.
    pub open spec fn tested(self, condition: CellOffset) -> (GenState, RegisterID) {
        let (s, cell_val) = self.cell(condition);
        s.nonzero(cell_val)
    }

    /// The state after a loop: a header that tests the cell, the body, and
    /// the block that follows. What was cached of the indices at the jump to
    /// the header is taken up again after the loop.
    pub open spec fn after_loop(self, unbalanced: bool, condition: CellOffset, body: Seq<Instr>) -> GenState
        decreases body, 2int,
    {
        let header = BlockID(self.module.blocks.len() as usize);
        let inner = BlockID((self.module.blocks.len() + 1) as usize);
        let end = BlockID((self.module.blocks.len() + 2) as usize);
        let s0 = GenState { module: self.module.with_block().with_block().with_block(), ..self };
        let s1 = s0.jumped(header, unbalanced);
        let s2 = s1.entered(header, unbalanced);
        let (s3, not_zero) = s2.tested(condition);
        let s4 = s3.branched(LeafExpr::Register(not_zero), inner, end, unbalanced);
        let s5 = s4.entered(inner, false);
        let s6 = s5.after_list(body);
        let s7 = s6.jumped(header, unbalanced);
        let s8 = s7.entered(end, unbalanced);
        GenState { cells: s1.cells, indices: s1.indices, ..s8 }
    }

    /// The state after a conditional: the test of the cell, the body, and the
    /// block that follows. What was cached at the branch is taken up again
    /// after the conditional.
    pub open spec fn after_if(self, unbalanced: bool, condition: CellOffset, body: Seq<Instr>) -> GenState
        decreases body, 2int,
    {
        let inner = BlockID(self.module.blocks.len() as usize);
        let end = BlockID((self.module.blocks.len() + 1) as usize);
        let s0 = GenState { module: self.module.with_block().with_block(), ..self };
        let (s1, not_zero) = s0.tested(condition);
        let s2 = s1.branched(LeafExpr::Register(not_zero), inner, end, unbalanced);
        let s3 = s2.entered(inner, false);
        let s4 = s3.after_list(body);
        let s5 = s4.jumped(end, unbalanced);
        let s6 = s5.entered(end, unbalanced);
        GenState { cells: s2.cells, indices: s2.indices, ..s6 }
    }

    /// The state after one instruction has been lowered.
    pub open spec fn after(self, i: Instr) -> GenState
        decreases i, 0int,
    {
        match i {
            Instr::Modify(offset, amount) => {
                let (s1, old) = self.cell(offset as isize);
                let (s2, new) = s1.binary(
                    BinaryOp::Add,
                    LeafExpr::Register(old),
                    LeafExpr::Int(ConstInt::I8(amount)),
                );
                s2.with_cell(offset as isize, LeafExpr::Register(new))
            },
            Instr::Move(amount) => self.after_move(amount as isize),
            Instr::Output(cell) => {
                let (s1, val) = self.cell(cell as isize);
                s1.emit(Op::Output(LeafExpr::Register(val)))
            },
            Instr::Input(cell) => {
                let (s1, old) = self.cell(cell as isize);
                let (s2, read) = s1.read(LeafExpr::Register(old));
                s2.with_cell(cell as isize, LeafExpr::Register(read))
            },
            Instr::SetCell(cell, val) => self.with_cell(
                cell as isize,
                LeafExpr::Int(ConstInt::U8(val)),
            ),
            Instr::AddMultiple { target, base, factor } => {
                let (s1, target_val) = self.cell(target as isize);
                let (s2, base_val) = s1.cell(base as isize);
                let (s3, addend) = s2.binary(
                    BinaryOp::Mul,
                    LeafExpr::Register(base_val),
                    LeafExpr::Int(ConstInt::I8(factor)),
                );
                let (s4, total) = s3.binary(
                    BinaryOp::Add,
                    LeafExpr::Register(target_val),
                    LeafExpr::Register(addend),
                );
                s4.with_cell(target as isize, LeafExpr::Register(total))
            },
            Instr::BoundsCheck { start, length } => {
                let (s1, lo) = self.binary(
                    BinaryOp::Add,
                    LeafExpr::Register(self.index),
                    LeafExpr::Int(ConstInt::I64(start as i64)),
                );
                let (s2, hi) = s1.binary(
                    BinaryOp::Add,
                    LeafExpr::Register(lo),
                    LeafExpr::Int(ConstInt::U64(length as u64)),
                );
                s2.emit(Op::BoundsCheck(LeafExpr::Register(lo), LeafExpr::Register(hi)))
            },
            Instr::Loop(balanced, condition, body) => self.after_loop(
                !balanced,
                condition as isize,
                body,
            ),
            Instr::If(balanced, condition, body) => self.after_if(
                !balanced,
                condition as isize,
                body,
            ),
        }
    }

    /// The state after a list of instructions has been lowered.
    pub open spec fn after_list(self, s: Seq<Instr>) -> GenState
        decreases s, 1int,
    {
        if s.len() == 0 {
            self
        } else {
            self.after_list(s.drop_last()).after(s.last())
        }
    }

    /// The state that the lowering starts from: one block, which is the
    /// entry, and in it the tape index zero.
    pub open spec fn initial(m: ModuleView) -> GenState {
        let entry = BlockID(m.blocks.len() as usize);
        let with_entry = ModuleView { entry: Some(entry), ..m.with_block() };
        let index = with_entry.next_register();
        let (s, _) = GenState {
            module: with_entry,
            block: entry,
            index,
            indices: Seq::empty(),
            cells: Seq::empty(),
        }.constant(ConstInt::U64(0));
        s
    }
}

/// The module that a program is lowered to.
pub open spec fn lowered(program: Seq<Instr>) -> ModuleView {
    GenState::initial(
        ModuleView { entry: None, blocks: Seq::empty(), registers: Seq::empty() },
    ).after_list(program).module
}

fn find(entries: &Vec<CacheEntry>, offset: CellOffset) -> (r: Option<usize>)
    ensures
        match r {
            Some(k) => position(entries@, offset, 0) == Some(k as int) && k < entries.len(),
            None => position(entries@, offset, 0) is None,
        },
{
    let mut k: usize = 0;
    while k < entries.len()
        invariant
            k <= entries.len(),
            position(entries@, offset, 0) == position(entries@, offset, k as int),
        decreases entries.len() - k,
    {
        if entries[k].offset == offset {
            return Some(k);
        }
        k += 1;
    }
    None
}

fn put_entry(entries: &mut Vec<CacheEntry>, e: CacheEntry)
    ensures
        final(entries)@ == put(old(entries)@, e),
{
    match find(entries, e.offset) {
        Some(k) => {
            entries[k] = e;
        },
        None => {
            entries.push(e);
        },
    }
}

fn move_entries(entries: &mut Vec<CacheEntry>, by: isize)
    ensures
        final(entries)@ == moved(old(entries)@, by),
{
    let mut k: usize = 0;
    while k < entries.len()
        invariant
            k <= entries.len(),
            entries.len() == old(entries).len(),
            forall|j: int| 0 <= j < k ==> entries@[j] == moved(old(entries)@, by)[j],
            forall|j: int| k <= j < entries.len() ==> entries@[j] == old(entries)@[j],
        decreases entries.len() - k,
    {
        let e = entries[k];
        entries[k] = CacheEntry { offset: e.offset.wrapping_sub(by), ..e };
        k += 1;
    }
    assert(entries@ =~= moved(old(entries)@, by));
}

fn copy_entries(entries: &Vec<CacheEntry>) -> (r: Vec<CacheEntry>)
    ensures
        r@ == entries@,
{
    let mut out: Vec<CacheEntry> = Vec::new();
    let mut k: usize = 0;
    while k < entries.len()
        invariant
            k <= entries.len(),
            out@ == entries@.take(k as int),
        decreases entries.len() - k,
    {
        proof {
            lemma_take_step(entries@, k as int);
        }
        out.push(entries[k]);
        k += 1;
    }
    proof {
        lemma_take_all(entries@);
    }
    out
}

/// A longer module holds what a shorter one held.
pub proof fn lemma_extends_chain(a: ModuleView, b: ModuleView, c: ModuleView)
    requires
        extends(b, a),
        extends(c, b),
    ensures
        extends(c, a),
{
}

/// What follows what follows a state follows the state.
pub proof fn lemma_follows_chain(a: GenState, b: GenState, c: GenState)
    requires
        b.follows(a),
        c.follows(b),
        a.block.0 < a.module.blocks.len(),
    ensures
        c.follows(a),
{
    assert forall|k: int| 0 <= k < a.module.blocks.len() && k != a.block.0 implies (
    #[trigger] c.module.blocks[k]).body == a.module.blocks[k].body by {
        assert(b.module.blocks[k].body == a.module.blocks[k].body);
        assert(k != b.block.0);
        assert(c.module.blocks[k].body == b.module.blocks[k].body);
    }
}

/// Typed caches stay typed when the module grows.
pub proof fn lemma_typed_in(s: GenState, m: ModuleView)
    requires
        s.typed(),
        extends(m, s.module),
    ensures
        (GenState { module: m, ..s }).typed(),
{
    let t = GenState { module: m, ..s };
    assert forall|k: int| 0 <= k < t.indices.len() implies t.holds(
        (#[trigger] t.indices[k]).register,
        Type::I64,
    ) by {
        assert(s.holds(s.indices[k].register, Type::I64));
    }
    assert forall|k: int| 0 <= k < t.cells.len() implies t.holds(
        (#[trigger] t.cells[k]).register,
        Type::I8,
    ) by {
        assert(s.holds(s.cells[k].register, Type::I8));
    }
}

/// What the current block has written, it has written once it is longer.
proof fn lemma_local_kept(s: GenState, m: ModuleView)
    requires
        s.block.0 < s.module.blocks.len(),
        s.module.blocks.len() <= m.blocks.len(),
        s.module.blocks[s.block.0 as int].body.len() <= m.blocks[s.block.0 as int].body.len(),
        forall|j: int|
            0 <= j < s.module.blocks[s.block.0 as int].body.len() ==> m.blocks[s.block.0 as int].body[j]
                == s.module.blocks[s.block.0 as int].body[j],
    ensures
        forall|r: RegisterID| s.local(r) ==> #[trigger] (GenState { module: m, ..s }).local(r),
{
    let body = s.module.blocks[s.block.0 as int].body;
    let longer = m.blocks[s.block.0 as int].body;
    assert forall|r: RegisterID| s.local(r) implies #[trigger] (GenState { module: m, ..s }).local(
        r,
    ) by {
        let j = choose|j: int|
            0 <= j < body.len() && j < body.len() && (#[trigger] body[j]).target() == Some(r);
        assert(longer[j].target() == Some(r));
    }
}

/// A new register, written by an instruction that keeps the rules, leaves
/// the state sound; the register is of the type it was made with, and the
/// current block has written it.
pub proof fn lemma_define(s: GenState, t: Type, op: Op)
    requires
        s.sound(),
        s.define(t, op).module.registers.len() <= usize::MAX,
        op.target() == Some(s.module.next_register()),
        s.module.with_register(t).op_typed(op),
        reads_below(op, s.module.registers.len() as int),
        op_local(
            s.module.blocks[s.block.0 as int].body,
            s.module.blocks[s.block.0 as int].body.len() as int,
            op,
        ),
    ensures
        s.define(t, op).sound(),
        s.define(t, op).holds(s.module.next_register(), t),
        s.define(t, op).local(s.module.next_register()),
        s.define(t, op).follows(s),
        s.define(t, op).module.blocks.len() == s.module.blocks.len(),
{
    reveal(in_order);
    let n = s.define(t, op);
    lemma_defining_orderly(s.module, s.block.0 as int, t, op);
    lemma_typed_in(s, n.module);
    lemma_local_kept(s, n.module);
    assert forall|k: int| 0 <= k < n.cells.len() implies n.local((#[trigger] n.cells[k]).register) by {
        assert(s.local(s.cells[k].register));
    }
    assert forall|b: int| 0 <= b < s.module.blocks.len() && b != s.block.0 implies (
    #[trigger] n.module.blocks[b]).body == s.module.blocks[b].body by {}
}

/// One instruction more that keeps the rules, writes no register and ends
/// no block leaves the state sound.
pub proof fn lemma_emit(s: GenState, op: Op)
    requires
        s.sound(),
        op.target() is None,
        !op.is_terminator(),
        s.module.op_typed(op),
    ensures
        s.emit(op).sound(),
        s.emit(op).follows(s),
        s.emit(op).module.registers == s.module.registers,
        s.emit(op).module.blocks.len() == s.module.blocks.len(),
{
    reveal(in_order);
    let n = s.emit(op);
    lemma_with_instruction_orderly(s.module, s.block.0 as int, op);
    lemma_typed_in(s, n.module);
    lemma_local_kept(s, n.module);
    assert forall|k: int| 0 <= k < n.cells.len() implies n.local((#[trigger] n.cells[k]).register) by {
        assert(s.local(s.cells[k].register));
    }
    assert forall|b: int| 0 <= b < s.module.blocks.len() && b != s.block.0 implies (
    #[trigger] n.module.blocks[b]).body == s.module.blocks[b].body by {}
}

/// A jump or a branch that keeps the rules ends the block: the state is
/// left between two blocks.
pub proof fn lemma_close(s: GenState, op: Op)
    requires
        s.sound(),
        s.cells.len() == 0,
        op.target() is None,
        s.module.op_typed(op),
    ensures
        s.emit(op).parked(),
        s.emit(op).follows(s),
        s.emit(op).module.registers == s.module.registers,
        s.emit(op).module.blocks.len() == s.module.blocks.len(),
{
    reveal(in_order);
    let n = s.emit(op);
    lemma_with_instruction_orderly(s.module, s.block.0 as int, op);
    lemma_typed_in(s, n.module);
    assert forall|b: int| 0 <= b < s.module.blocks.len() && b != s.block.0 implies (
    #[trigger] n.module.blocks[b]).body == s.module.blocks[b].body by {}
}

/// Putting a register of the right type into a cache keeps every entry of
/// that type.
pub proof fn lemma_put_holds(s: GenState, cache: Seq<CacheEntry>, e: CacheEntry, t: Type)
    requires
        forall|k: int| 0 <= k < cache.len() ==> s.holds((#[trigger] cache[k]).register, t),
        s.holds(e.register, t),
    ensures
        forall|k: int|
            0 <= k < put(cache, e).len() ==> s.holds((#[trigger] put(cache, e)[k]).register, t),
{
    lemma_position_in_range(cache, e.offset, 0);
    assert forall|k: int| 0 <= k < put(cache, e).len() implies s.holds(
        (#[trigger] put(cache, e)[k]).register,
        t,
    ) by {
        match position(cache, e.offset, 0) {
            Some(p) => {
                if k != p {
                    assert(put(cache, e)[k] == cache[k]);
                }
            },
            None => {
                if k < cache.len() {
                    assert(put(cache, e)[k] == cache[k]);
                }
            },
        }
    }
}

/// Putting a register that the block has written into a cache of such
/// registers keeps it one.
pub proof fn lemma_put_local(s: GenState, cache: Seq<CacheEntry>, e: CacheEntry)
    requires
        forall|k: int| 0 <= k < cache.len() ==> s.local((#[trigger] cache[k]).register),
        s.local(e.register),
    ensures
        forall|k: int| 0 <= k < put(cache, e).len() ==> s.local((#[trigger] put(cache, e)[k]).register),
{
    lemma_position_in_range(cache, e.offset, 0);
    assert forall|k: int| 0 <= k < put(cache, e).len() implies s.local(
        (#[trigger] put(cache, e)[k]).register,
    ) by {
        match position(cache, e.offset, 0) {
            Some(p) => {
                if k != p {
                    assert(put(cache, e)[k] == cache[k]);
                }
            },
            None => {
                if k < cache.len() {
                    assert(put(cache, e)[k] == cache[k]);
                }
            },
        }
    }
}

/// A place that is found lies in the cache and holds the offset.
pub proof fn lemma_position_in_range(s: Seq<CacheEntry>, offset: CellOffset, from: int)
    requires
        0 <= from,
    ensures
        position(s, offset, from) matches Some(k) ==> from <= k < s.len() && s[k].offset == offset,
    decreases s.len() - from,
{
    if from < s.len() && s[from].offset != offset {
        lemma_position_in_range(s, offset, from + 1);
    }
}

/// Lowers a program of the expression tree to a module in block form. The
/// module starts in its first block, is in single-assignment form, keeps
/// the rules on types, and is in the order that the rewrites of modules
/// rely on.
pub fn gen_program(program: &Program) -> (module: Module)
    ensures
        module@ == lowered(program@),
        module@.entry == Some(BlockID(0)),
        module@.valid(),
        module@.orderly(),
{
    proof {
        super::lowering::structure::lemma_lowered_entry(program@);
    }
    let mut module = Module::new();
    proof {
        crate::ir::valid::lemma_empty_orderly(None);
    }
    let code_gen = CodeGen::new(&mut module);
    code_gen.gen_program(program);
    module
}

/// The lowering at work on a module.
pub struct CodeGen<'a> {
    pub builder: Builder<'a>,
    pub index: RegisterID,
    pub indices: Vec<CacheEntry>,
    pub cells: Vec<CacheEntry>,
}

impl<'a> View for CodeGen<'a> {
    type V = GenState;

    open spec fn view(&self) -> GenState {
        GenState {
            module: self.builder.now(),
            block: self.builder.block,
            index: self.index,
            indices: self.indices@,
            cells: self.cells@,
        }
    }
}

impl<'a> CodeGen<'a> {
    fn new(module: &'a mut Module) -> (r: Self)
        requires
            old(module)@.orderly(),
        ensures
            r@ == GenState::initial(old(module)@),
            r@.sound(),
            *final(r.builder.module) == *final(module),
    {
        proof {
            lemma_module_bounds(module);
            lemma_with_block_orderly(module@);
        }
        let entry = module.add_block();
        module.set_entry_block(entry);
        proof {
            let before = old(module)@.with_block();
            let after = module@;
            assert(after.blocks == before.blocks);
            assert(after.registers == before.registers);
            assert forall|site: crate::ir::valid::Site, r: RegisterID|
                after.defines(site, r) == before.defines(site, r) by {}
            assert forall|b: int, i: int|
                0 <= b < after.blocks.len() && 0 <= i < after.blocks[b].body.len()
                    implies after.op_typed(#[trigger] after.blocks[b].body[i]) by {
                crate::ir::valid::lemma_typed_in_larger(before, after, before.blocks[b].body[i]);
            }
            assert(after.valid());
            assert(after.orderly());
        }
        let mut builder = Builder::new(module, entry);
        let ghost start = GenState {
            module: builder.now(),
            block: entry,
            index: builder.now().next_register(),
            indices: Seq::empty(),
            cells: Seq::empty(),
        };
        let index = builder.set(LeafExpr::Int(ConstInt::U64(0)));
        let r = Self { builder, index, indices: Vec::new(), cells: Vec::new() };
        proof {
            reveal(in_order);
            let t = start.constant(ConstInt::U64(0)).0;
            assert(r@ == t);
            lemma_module_bounds(r.builder.module);
            let op = Op::Assign(start.index, Expr::Leaf(LeafExpr::Int(ConstInt::U64(0))));
            assert(start.module.open_block(entry.0 as int));
            crate::ir::valid::lemma_operands_below(op, start.module.registers.len() as int);
            lemma_defining_orderly(start.module, entry.0 as int, Type::I64, op);
            assert(t.block.0 < t.module.blocks.len());
            assert(t.holds(t.index, Type::I64));
        }
        r
    }

    fn gen_program(self, program: &Program)
        requires
            self@.sound(),
        ensures
            final(self.builder.module)@ == self@.after_list(program@).module,
            final(self.builder.module)@.orderly(),
    {
        let mut code_gen = self;
        code_gen.gen_list(&program.0);
        proof {
            reveal(in_order);
        }
    }

    fn gen_list(&mut self, instructions: &Vec<Instruction>)
        requires
            old(self)@.sound(),
        ensures
            final(self)@ == old(self)@.after_list(list_view(instructions@)),
            final(self)@.sound(),
            final(self)@.follows(old(self)@),
            *final(final(self).builder.module) == *final(old(self).builder.module),
        decreases instructions, 1int,
    {
        let ghost s = list_view(instructions@);
        let mut k: usize = 0;
        proof {
            lemma_take_all(s);
        }
        while k < instructions.len()
            invariant
                k <= instructions.len(),
                s == list_view(instructions@),
                s.len() == instructions.len(),
                old(self)@.sound(),
                self@ == old(self)@.after_list(s.take(k as int)),
                self@.sound(),
                self@.follows(old(self)@),
                *final(self.builder.module) == *final(old(self).builder.module),
            decreases instructions.len() - k,
        {
            proof {
                lemma_take_step(s, k as int);
                lemma_list_view_take(instructions@, k as int);
            }
            let ghost before = self@;
            self.gen_instruction(&instructions[k]);
            proof {
                lemma_follows_chain(old(self)@, before, self@);
            }
            k += 1;
        }
    }

    fn gen_instruction(&mut self, instruction: &Instruction)
        requires
            old(self)@.sound(),
        ensures
            final(self)@ == old(self)@.after(instruction@),
            final(self)@.sound(),
            final(self)@.follows(old(self)@),
            *final(final(self).builder.module) == *final(old(self).builder.module),
        decreases instruction, 0int,
    {
        match instruction {
            Instruction::Modify(offset, amount) => self.gen_modify(*offset, *amount),
            Instruction::Move(amount) => self.move_index(*amount),
            Instruction::Output(cell) => self.gen_output(*cell),
            Instruction::Input(cell) => self.gen_input(*cell),
            Instruction::SetCell(cell, val) => self.set_cell(
                *cell,
                LeafExpr::Int(ConstInt::U8(*val)),
            ),
            Instruction::AddMultiple { target, base, factor } => self.gen_add_multiple(
                *target,
                *base,
                *factor,
            ),
            Instruction::BoundsCheck(bounds) => self.gen_bounds_check(bounds.start, bounds.length),
            Instruction::Loop(balanced, condition, body) => self.gen_loop(
                !*balanced,
                *condition,
                body,
            ),
            Instruction::If(balanced, condition, body) => self.gen_if(
                !*balanced,
                *condition,
                body,
            ),
        }
    }

    fn gen_modify(&mut self, offset: CellOffset, amount: i8)
        requires
            old(self)@.sound(),
        ensures
            final(self)@ == old(self)@.after(Instr::Modify(offset as int, amount)),
            final(self)@.sound(),
            final(self)@.follows(old(self)@),
            *final(final(self).builder.module) == *final(old(self).builder.module),
    {
        let current = self.get_cell(offset);
        let ghost s1 = self@;
        let new = self.binop(
            BinaryOp::Add,
            LeafExpr::Register(current),
            LeafExpr::Int(ConstInt::I8(amount)),
        );
        let ghost s2 = self@;
        self.set_cell(offset, LeafExpr::Register(new));
        proof {
            lemma_follows_chain(old(self)@, s1, s2);
            lemma_follows_chain(old(self)@, s2, self@);
        }
    }

    fn gen_output(&mut self, cell: CellOffset)
        requires
            old(self)@.sound(),
        ensures
            final(self)@ == old(self)@.after(Instr::Output(cell as int)),
            final(self)@.sound(),
            final(self)@.follows(old(self)@),
            *final(final(self).builder.module) == *final(old(self).builder.module),
    {
        let val = self.get_cell(cell);
        let ghost s1 = self@;
        self.emit_output(LeafExpr::Register(val));
        proof {
            lemma_follows_chain(old(self)@, s1, self@);
        }
    }

    fn gen_input(&mut self, cell: CellOffset)
        requires
            old(self)@.sound(),
        ensures
            final(self)@ == old(self)@.after(Instr::Input(cell as int)),
            final(self)@.sound(),
            final(self)@.follows(old(self)@),
            *final(final(self).builder.module) == *final(old(self).builder.module),
    {
        let current = self.get_cell(cell);
        let ghost s1 = self@;
        let read = self.read(LeafExpr::Register(current));
        let ghost s2 = self@;
        self.set_cell(cell, LeafExpr::Register(read));
        proof {
            lemma_follows_chain(old(self)@, s1, s2);
            lemma_follows_chain(old(self)@, s2, self@);
        }
    }

    fn gen_add_multiple(&mut self, target: CellOffset, base: CellOffset, factor: i8)
        requires
            old(self)@.sound(),
        ensures
            final(self)@ == old(self)@.after(
                Instr::AddMultiple { target: target as int, base: base as int, factor },
            ),
            final(self)@.sound(),
            final(self)@.follows(old(self)@),
            *final(final(self).builder.module) == *final(old(self).builder.module),
    {
        let target_val = self.get_cell(target);
        let ghost s1 = self@;
        let base_val = self.get_cell(base);
        let ghost s2 = self@;
        let addend = self.binop(
            BinaryOp::Mul,
            LeafExpr::Register(base_val),
            LeafExpr::Int(ConstInt::I8(factor)),
        );
        let ghost s3 = self@;
        let total = self.binop(
            BinaryOp::Add,
            LeafExpr::Register(target_val),
            LeafExpr::Register(addend),
        );
        let ghost s4 = self@;
        self.set_cell(target, LeafExpr::Register(total));
        proof {
            lemma_follows_chain(old(self)@, s1, s2);
            lemma_follows_chain(old(self)@, s2, s3);
            lemma_follows_chain(old(self)@, s3, s4);
            lemma_follows_chain(old(self)@, s4, self@);
        }
    }

    fn gen_bounds_check(&mut self, start: isize, length: usize)
        requires
            old(self)@.sound(),
        ensures
            final(self)@ == old(self)@.after(
                Instr::BoundsCheck { start: start as int, length: length as int },
            ),
            final(self)@.sound(),
            final(self)@.follows(old(self)@),
            *final(final(self).builder.module) == *final(old(self).builder.module),
    {
        let lo = self.binop(
            BinaryOp::Add,
            LeafExpr::Register(self.index),
            LeafExpr::Int(ConstInt::I64(start as i64)),
        );
        let ghost s1 = self@;
        let hi = self.binop(
            BinaryOp::Add,
            LeafExpr::Register(lo),
            LeafExpr::Int(ConstInt::U64(length as u64)),
        );
        let ghost s2 = self@;
        proof {
            lemma_emit(self@, Op::BoundsCheck(LeafExpr::Register(lo), LeafExpr::Register(hi)));
        }
        self.builder.check_bounds(LeafExpr::Register(lo), LeafExpr::Register(hi));
        proof {
            lemma_follows_chain(old(self)@, s1, s2);
            lemma_follows_chain(old(self)@, s2, self@);
        }
    }

    /// Computes a binary operation into a new register.
    fn binop(&mut self, op: BinaryOp, a: LeafExpr, b: LeafExpr) -> (r: RegisterID)
        requires
            old(self)@.sound(),
            a.known(old(self)@.module),
            b.known(old(self)@.module),
            a.width(old(self)@.module) == b.width(old(self)@.module),
            op == BinaryOp::Mul ==> (a matches LeafExpr::Register(x) ==> old(self)@.local(x)) && (
            b matches LeafExpr::Register(y) ==> old(self)@.local(y)),
        ensures
            (final(self)@, r) == old(self)@.binary(op, a, b),
            final(self)@.sound(),
            final(self)@.holds(r, a.width(old(self)@.module)),
            final(self)@.local(r),
            final(self)@.follows(old(self)@),
            *final(final(self).builder.module) == *final(old(self).builder.module),
    {
        let r = self.builder.binop(op, a, b);
        proof {
            lemma_module_bounds(self.builder.module);
            let made = Op::Assign(old(self)@.module.next_register(), Expr::Binary(a, op, b));
            crate::ir::valid::lemma_operands_below(
                made,
                old(self)@.module.registers.len() as int,
            );
            lemma_define(old(self)@, a.width(old(self)@.module), made);
        }
        r
    }

    /// Reads a byte into a new register.
    fn read(&mut self, default: LeafExpr) -> (r: RegisterID)
        requires
            old(self)@.sound(),
            old(self)@.module.leaf_typed(default, Type::I8),
        ensures
            (final(self)@, r) == old(self)@.read(default),
            final(self)@.sound(),
            final(self)@.holds(r, Type::I8),
            final(self)@.local(r),
            final(self)@.follows(old(self)@),
            *final(final(self).builder.module) == *final(old(self).builder.module),
    {
        let r = self.builder.input(default);
        proof {
            lemma_module_bounds(self.builder.module);
            let made = Op::Input(old(self)@.module.next_register(), default);
            crate::ir::valid::lemma_operands_below(
                made,
                old(self)@.module.registers.len() as int,
            );
            lemma_define(old(self)@, Type::I8, made);
        }
        r
    }

    fn emit_output(&mut self, value: LeafExpr)
        requires
            old(self)@.sound(),
            old(self)@.module.leaf_typed(value, Type::I8),
        ensures
            final(self)@ == old(self)@.emit(Op::Output(value)),
            final(self)@.sound(),
            final(self)@.follows(old(self)@),
            *final(final(self).builder.module) == *final(old(self).builder.module),
    {
        proof {
            lemma_emit(self@, Op::Output(value));
        }
        self.builder.output(value);
    }

    fn test_cell(&mut self, condition: CellOffset) -> (not_zero: RegisterID)
        requires
            old(self)@.sound(),
        ensures
            (final(self)@, not_zero) == old(self)@.tested(condition),
            final(self)@.sound(),
            final(self)@.holds(not_zero, Type::I1),
            final(self)@.follows(old(self)@),
            *final(final(self).builder.module) == *final(old(self).builder.module),
    {
        let cell_val = self.get_cell(condition);
        let ghost s1 = self@;
        let r = self.builder.test(
            TestOp::NotEqual,
            LeafExpr::Register(cell_val),
            LeafExpr::Int(ConstInt::I8(0)),
        );
        proof {
            lemma_module_bounds(self.builder.module);
            let made = Op::Assign(
                s1.module.next_register(),
                Expr::Test(
                    LeafExpr::Register(cell_val),
                    TestOp::NotEqual,
                    LeafExpr::Int(ConstInt::I8(0)),
                ),
            );
            crate::ir::valid::lemma_operands_below(made, s1.module.registers.len() as int);
            lemma_define(s1, Type::I1, made);
            lemma_follows_chain(old(self)@, s1, self@);
        }
        r
    }

    /// Adds two or three blocks to the module and gives the first.
    fn add_blocks(&mut self, n: usize) -> (first: BlockID)
        requires
            old(self)@.sound(),
            n == 2 || n == 3,
        ensures
            first.0 == old(self)@.module.blocks.len(),
            first.0 + n <= usize::MAX,
            final(self)@ == (GenState {
                module: if n == 2 {
                    old(self)@.module.with_block().with_block()
                } else {
                    old(self)@.module.with_block().with_block().with_block()
                },
                ..old(self)@
            }),
            final(self)@.module.blocks.len() == old(self)@.module.blocks.len() + n,
            forall|b: int|
                first.0 <= b < first.0 + n ==> (#[trigger] final(self)@.module.blocks[b]).body.len()
                    == 0,
            final(self)@.sound(),
            final(self)@.follows(old(self)@),
            *final(final(self).builder.module) == *final(old(self).builder.module),
    {
        proof {
            reveal(in_order);
            lemma_module_bounds(self.builder.module);
            let m0 = self@.module;
            lemma_with_block_orderly(m0);
            lemma_with_block_orderly(m0.with_block());
            lemma_with_block_orderly(m0.with_block().with_block());
        }
        let first = self.builder.add_block();
        self.builder.add_block();
        if n == 3 {
            self.builder.add_block();
        }
        proof {
            lemma_module_bounds(self.builder.module);
            lemma_typed_in(old(self)@, self@.module);
            let before = old(self)@;
            let after = self@;
            assert forall|b: int| 0 <= b < before.module.blocks.len() implies (
            #[trigger] after.module.blocks[b]) == before.module.blocks[b] by {}
            lemma_local_kept(before, after.module);
            assert forall|k: int| 0 <= k < after.cells.len() implies after.local(
                (#[trigger] after.cells[k]).register,
            ) by {
                assert(before.local(before.cells[k].register));
            }
            assert(after.module.open_block(after.block.0 as int)) by {
                assert(after.module.blocks[after.block.0 as int]
                    == before.module.blocks[before.block.0 as int]);
            }
        }
        first
    }

    fn gen_loop(&mut self, unbalanced: bool, condition: CellOffset, instructions: &Vec<Instruction>)
        requires
            old(self)@.sound(),
        ensures
            final(self)@ == old(self)@.after_loop(
                unbalanced,
                condition,
                list_view(instructions@),
            ),
            final(self)@.sound(),
            final(self)@.follows(old(self)@),
            *final(final(self).builder.module) == *final(old(self).builder.module),
        decreases instructions, 2int,
    {
        let ghost start = self@;
        let header = self.add_blocks(3);
        let body = BlockID(header.0 + 1);
        let end = BlockID(header.0 + 2);
        let ghost s0 = self@;

        self.jump_to(header, unbalanced);
        let context = self.save_context();
        let ghost s1 = self@;

        self.enter_branch(header, unbalanced);
        let ghost s2 = self@;
        let not_zero = self.test_cell(condition);
        let ghost s3 = self@;
        self.branch_to(LeafExpr::Register(not_zero), body, end, unbalanced);
        let ghost s4 = self@;
        proof {
            lemma_follows_chain(s2, s3, s4);
            assert(s4.module.blocks[body.0 as int].body == s0.module.blocks[body.0 as int].body);
        }

        self.enter_branch(body, false);
        let ghost s5 = self@;
        self.gen_list(instructions);
        let ghost s6 = self@;
        self.jump_to(header, unbalanced);
        let ghost s7 = self@;
        proof {
            lemma_follows_chain(s5, s6, s7);
            assert(s7.module.blocks[end.0 as int].body == s0.module.blocks[end.0 as int].body);
        }

        self.enter_branch(end, unbalanced);
        let ghost s8 = self@;
        self.restore_context(context);
        proof {
            lemma_extends_chain(start.module, s0.module, s1.module);
            lemma_extends_chain(s1.module, s2.module, s3.module);
            lemma_extends_chain(s1.module, s3.module, s4.module);
            lemma_extends_chain(s1.module, s4.module, s5.module);
            lemma_extends_chain(s1.module, s5.module, s6.module);
            lemma_extends_chain(s1.module, s6.module, s7.module);
            lemma_extends_chain(s1.module, s7.module, s8.module);
            lemma_extends_chain(start.module, s1.module, s8.module);
            lemma_restored(s1, s8);
            assert(s0 == GenState {
                module: start.module.with_block().with_block().with_block(),
                ..start
            });
            assert(header == BlockID(start.module.blocks.len() as usize));
            assert(body == BlockID((start.module.blocks.len() + 1) as usize));
            assert(end == BlockID((start.module.blocks.len() + 2) as usize));
            assert(s1 == s0.jumped(header, unbalanced));
            assert(s2 == s1.entered(header, unbalanced));
            assert((s3, not_zero) == s2.tested(condition));
            assert(s4 == s3.branched(LeafExpr::Register(not_zero), body, end, unbalanced));
            assert(s5 == s4.entered(body, false));
            assert(s6 == s5.after_list(list_view(instructions@)));
            assert(s7 == s6.jumped(header, unbalanced));
            assert(s8 == s7.entered(end, unbalanced));
            assert(self@ == GenState { cells: s1.cells, indices: s1.indices, ..s8 });
            // Of the blocks that were there, only the one that the loop was
            // entered from has changed.
            assert forall|b: int|
                0 <= b < start.module.blocks.len() && b != start.block.0 implies (
            #[trigger] self@.module.blocks[b]).body == start.module.blocks[b].body by {
                assert(s0.module.blocks[b].body == start.module.blocks[b].body);
                assert(s1.module.blocks[b].body == s0.module.blocks[b].body);
                assert(s2.module.blocks[b].body == s1.module.blocks[b].body);
                assert(s4.module.blocks[b].body == s2.module.blocks[b].body);
                assert(s5.module.blocks[b].body == s4.module.blocks[b].body);
                assert(s7.module.blocks[b].body == s5.module.blocks[b].body);
                assert(s8.module.blocks[b].body == s7.module.blocks[b].body);
            }
        }
    }

    fn gen_if(&mut self, unbalanced: bool, condition: CellOffset, instructions: &Vec<Instruction>)
        requires
            old(self)@.sound(),
        ensures
            final(self)@ == old(self)@.after_if(unbalanced, condition, list_view(instructions@)),
            final(self)@.sound(),
            final(self)@.follows(old(self)@),
            *final(final(self).builder.module) == *final(old(self).builder.module),
        decreases instructions, 2int,
    {
        let ghost start = self@;
        let body = self.add_blocks(2);
        let end = BlockID(body.0 + 1);
        let ghost s0 = self@;

        let not_zero = self.test_cell(condition);
        let ghost s1 = self@;
        self.branch_to(LeafExpr::Register(not_zero), body, end, unbalanced);
        let context = self.save_context();
        let ghost s2 = self@;
        proof {
            lemma_follows_chain(s0, s1, s2);
            assert(s2.module.blocks[body.0 as int].body == s0.module.blocks[body.0 as int].body);
        }

        self.enter_branch(body, false);
        let ghost s3 = self@;
        self.gen_list(instructions);
        let ghost s4 = self@;
        self.jump_to(end, unbalanced);
        let ghost s5 = self@;
        proof {
            lemma_follows_chain(s3, s4, s5);
            assert(s5.module.blocks[end.0 as int].body == s0.module.blocks[end.0 as int].body);
        }

        self.enter_branch(end, unbalanced);
        let ghost s6 = self@;
        self.restore_context(context);
        proof {
            lemma_extends_chain(start.module, s0.module, s1.module);
            lemma_extends_chain(start.module, s1.module, s2.module);
            lemma_extends_chain(s2.module, s3.module, s4.module);
            lemma_extends_chain(s2.module, s4.module, s5.module);
            lemma_extends_chain(s2.module, s5.module, s6.module);
            lemma_extends_chain(start.module, s2.module, s6.module);
            lemma_restored(s2, s6);
            assert(s0 == GenState { module: start.module.with_block().with_block(), ..start });
            assert(body == BlockID(start.module.blocks.len() as usize));
            assert(end == BlockID((start.module.blocks.len() + 1) as usize));
            assert((s1, not_zero) == s0.tested(condition));
            assert(s2 == s1.branched(LeafExpr::Register(not_zero), body, end, unbalanced));
            assert(s3 == s2.entered(body, false));
            assert(s4 == s3.after_list(list_view(instructions@)));
            assert(s5 == s4.jumped(end, unbalanced));
            assert(s6 == s5.entered(end, unbalanced));
            assert(self@ == GenState { cells: s2.cells, indices: s2.indices, ..s6 });
            assert forall|b: int|
                0 <= b < start.module.blocks.len() && b != start.block.0 implies (
            #[trigger] self@.module.blocks[b]).body == start.module.blocks[b].body by {
                assert(s0.module.blocks[b].body == start.module.blocks[b].body);
                assert(s2.module.blocks[b].body == s0.module.blocks[b].body);
                assert(s3.module.blocks[b].body == s2.module.blocks[b].body);
                assert(s5.module.blocks[b].body == s3.module.blocks[b].body);
                assert(s6.module.blocks[b].body == s5.module.blocks[b].body);
            }
        }
    }

    fn branch_to(&mut self, c: LeafExpr, then: BlockID, els: BlockID, unbalanced: bool)
        requires
            old(self)@.sound(),
            c matches LeafExpr::Register(r) && old(self)@.holds(r, Type::I1),
        ensures
            final(self)@ == old(self)@.branched(c, then, els, unbalanced),
            final(self)@.parked(),
            final(self)@.module.blocks.len() == old(self)@.module.blocks.len(),
            final(self)@.follows(old(self)@),
            final(self)@.block == old(self)@.block,
            *final(final(self).builder.module) == *final(old(self).builder.module),
    {
        self.spill_values();
        if unbalanced {
            self.spill_indices();
        }
        let ghost s1 = self@;
        let mut args: Vec<LeafExpr> = Vec::new();
        if unbalanced {
            args.push(LeafExpr::Register(self.index));
        }
        let then = TargetBlock::new(then, Vec::new());
        let els = TargetBlock::new(els, args);
        proof {
            assert(then@ =~= edge(then.id, self.index, false));
            assert(els@.args =~= edge(els.id, self.index, unbalanced).args);
            lemma_close(self@, Op::Branch(c, then@, els@));
            lemma_follows_chain(old(self)@, s1, s1.emit(Op::Branch(c, then@, els@)));
        }
        self.builder.branch(c, then, els);
    }

    fn jump_to(&mut self, block: BlockID, unbalanced: bool)
        requires
            old(self)@.sound(),
        ensures
            final(self)@ == old(self)@.jumped(block, unbalanced),
            final(self)@.parked(),
            final(self)@.module.blocks.len() == old(self)@.module.blocks.len(),
            final(self)@.follows(old(self)@),
            final(self)@.block == old(self)@.block,
            *final(final(self).builder.module) == *final(old(self).builder.module),
    {
        self.spill_values();
        if unbalanced {
            self.spill_indices();
        }
        let ghost s1 = self@;
        let mut args: Vec<LeafExpr> = Vec::new();
        if unbalanced {
            args.push(LeafExpr::Register(self.index));
        }
        let target = TargetBlock::new(block, args);
        proof {
            assert(target@.args =~= edge(block, self.index, unbalanced).args);
            lemma_close(self@, Op::Jump(target@));
            lemma_follows_chain(old(self)@, s1, s1.emit(Op::Jump(target@)));
        }
        self.builder.jump(target);
    }

    fn enter_branch(&mut self, block: BlockID, unbalanced: bool)
        requires
            old(self)@.parked(),
            block.0 < old(self)@.module.blocks.len(),
            old(self)@.module.blocks[block.0 as int].body.len() == 0,
        ensures
            final(self)@ == old(self)@.entered(block, unbalanced),
            final(self)@.sound(),
            final(self)@.module.blocks.len() == old(self)@.module.blocks.len(),
            final(self)@.module.extends(old(self)@.module),
            final(self)@.same_bodies(old(self)@),
            *final(final(self).builder.module) == *final(old(self).builder.module),
    {
        self.builder.select_block(block);
        if unbalanced {
            self.index = self.builder.add_parameter(Type::I64);
            proof {
                reveal(in_order);
                lemma_module_bounds(self.builder.module);
                let m0 = old(self)@.module;
                lemma_with_register_valid(m0, Type::I64);
                lemma_with_register_orderly(m0, Type::I64);
                lemma_with_parameter_orderly(
                    m0.with_register(Type::I64),
                    block.0 as int,
                    m0.next_register(),
                );
                lemma_typed_in(
                    GenState { block, ..old(self)@ },
                    self@.module,
                );
            }
        }
    }

    fn move_index(&mut self, by: isize)
        requires
            old(self)@.sound(),
        ensures
            final(self)@ == old(self)@.after_move(by),
            final(self)@.sound(),
            final(self)@.follows(old(self)@),
            *final(final(self).builder.module) == *final(old(self).builder.module),
    {
        self.index =
        self.binop(
            BinaryOp::Add,
            LeafExpr::Register(self.index),
            LeafExpr::Int(ConstInt::I64(by as i64)),
        );
        let ghost s1 = self@;
        move_entries(&mut self.indices, by);
        move_entries(&mut self.cells, by);
        proof {
            assert forall|k: int| 0 <= k < self@.cells.len() implies self@.local(
                (#[trigger] self@.cells[k]).register,
            ) && self@.holds(self@.cells[k].register, Type::I8) by {
                assert(s1.local(s1.cells[k].register));
                assert(s1.holds(s1.cells[k].register, Type::I8));
            }
            assert forall|k: int| 0 <= k < self@.indices.len() implies self@.holds(
                (#[trigger] self@.indices[k]).register,
                Type::I64,
            ) by {
                assert(s1.holds(s1.indices[k].register, Type::I64));
            }
        }
    }

    fn spill_indices(&mut self)
        requires
            old(self)@.sound(),
        ensures
            final(self)@ == (GenState { indices: Seq::empty(), ..old(self)@ }),
            final(self)@.sound(),
            *final(final(self).builder.module) == *final(old(self).builder.module),
    {
        self.indices.clear();
    }

    fn spill_values(&mut self)
        requires
            old(self)@.sound(),
        ensures
            final(self)@ == old(self)@.spilled(),
            final(self)@.sound(),
            final(self)@.module.blocks.len() == old(self)@.module.blocks.len(),
            final(self)@.follows(old(self)@),
            final(self)@.block == old(self)@.block,
            *final(final(self).builder.module) == *final(old(self).builder.module),
    {
        let mut values: Vec<CacheEntry> = Vec::new();
        std::mem::swap(&mut values, &mut self.cells);
        let ghost start = old(self)@;
        let mut k: usize = 0;
        while k < values.len()
            invariant
                k <= values.len(),
                start == old(self)@,
                values@ == start.cells,
                start.sound(),
                self@ == (GenState { cells: Seq::empty(), ..start.spilled_upto(k as int) }),
                self@.sound(),
                self@.module.blocks.len() == start.module.blocks.len(),
                self@.follows(start),
                self@.block == start.block,
                *final(self.builder.module) == *final(old(self).builder.module),
            decreases values.len() - k,
        {
            let entry = values[k];
            if entry.written {
                let ghost s0 = self@;
                let index = self.get_cell_index(entry.offset);
                let ghost s1 = self@;
                proof {
                    assert(start.holds(start.cells[k as int].register, Type::I8));
                    let op = Op::StoreCell(
                        LeafExpr::Register(index),
                        LeafExpr::Register(entry.register),
                    );
                    lemma_emit(self@, op);
                    lemma_follows_chain(start, s0, s1);
                    lemma_follows_chain(start, s1, s1.emit(op));
                }
                self.builder.store_cell(
                    LeafExpr::Register(index),
                    LeafExpr::Register(entry.register),
                );
            }
            k += 1;
        }
    }

    fn get_cell_index(&mut self, offset: CellOffset) -> (r: RegisterID)
        requires
            old(self)@.sound(),
        ensures
            final(self)@.cells == old(self)@.cells,
            (final(self)@, r) == old(self)@.cell_index(offset),
            final(self)@.sound(),
            final(self)@.holds(r, Type::I64),
            final(self)@.module.blocks.len() == old(self)@.module.blocks.len(),
            final(self)@.follows(old(self)@),
            final(self)@.block == old(self)@.block,
            *final(final(self).builder.module) == *final(old(self).builder.module),
    {
        match find(&self.indices, offset) {
            Some(k) => self.indices[k].register,
            None => {
                let cell_index = self.binop(
                    BinaryOp::Add,
                    LeafExpr::Register(self.index),
                    LeafExpr::Int(ConstInt::I64(offset as i64)),
                );
                self.indices.push(CacheEntry { offset, register: cell_index, written: false });
                cell_index
            },
        }
    }

    fn get_cell(&mut self, offset: CellOffset) -> (r: RegisterID)
        requires
            old(self)@.sound(),
        ensures
            (final(self)@, r) == old(self)@.cell(offset),
            final(self)@.sound(),
            final(self)@.holds(r, Type::I8),
            final(self)@.local(r),
            final(self)@.follows(old(self)@),
            *final(final(self).builder.module) == *final(old(self).builder.module),
    {
        match find(&self.cells, offset) {
            Some(k) => self.cells[k].register,
            None => {
                let index = self.get_cell_index(offset);
                let ghost s1 = self@;
                let value = self.builder.load_cell(LeafExpr::Register(index));
                proof {
                    lemma_module_bounds(self.builder.module);
                    let made = Op::LoadCell(s1.module.next_register(), LeafExpr::Register(index));
                    crate::ir::valid::lemma_operands_below(
                        made,
                        s1.module.registers.len() as int,
                    );
                    lemma_define(s1, Type::I8, made);
                    lemma_follows_chain(old(self)@, s1, s1.define(Type::I8, made));
                }
                self.cells.push(CacheEntry { offset, register: value, written: false });
                value
            },
        }
    }

    fn set_cell(&mut self, offset: CellOffset, value: LeafExpr)
        requires
            old(self)@.sound(),
            match value {
                LeafExpr::Register(r) => old(self)@.holds(r, Type::I8) && old(self)@.local(r),
                LeafExpr::Int(c) => c.width() == Type::I8,
            },
        ensures
            final(self)@ == old(self)@.with_cell(offset, value),
            final(self)@.sound(),
            final(self)@.follows(old(self)@),
            *final(final(self).builder.module) == *final(old(self).builder.module),
    {
        let register = match value {
            LeafExpr::Int(c) => {
                let r = self.builder.set(value);
                proof {
                    lemma_module_bounds(self.builder.module);
                    let made = Op::Assign(
                        old(self)@.module.next_register(),
                        Expr::Leaf(value),
                    );
                    crate::ir::valid::lemma_operands_below(
                        made,
                        old(self)@.module.registers.len() as int,
                    );
                    lemma_define(old(self)@, c.width(), made);
                }
                r
            },
            LeafExpr::Register(r) => r,
        };
        proof {
            lemma_put_holds(
                self@,
                self@.cells,
                CacheEntry { offset, register, written: true },
                Type::I8,
            );
            lemma_put_local(self@, self@.cells, CacheEntry { offset, register, written: true });
        }
        put_entry(&mut self.cells, CacheEntry { offset, register, written: true });
    }

    fn save_context(&self) -> (r: (Vec<CacheEntry>, Vec<CacheEntry>))
        ensures
            r.0@ == self@.cells,
            r.1@ == self@.indices,
    {
        let cells = copy_entries(&self.cells);
        let indices = copy_entries(&self.indices);
        (cells, indices)
    }

    fn restore_context(&mut self, context: (Vec<CacheEntry>, Vec<CacheEntry>))
        ensures
            final(self)@ == (GenState {
                cells: context.0@,
                indices: context.1@,
                ..old(self)@
            }),
            *final(final(self).builder.module) == *final(old(self).builder.module),
    {
        self.cells = context.0;
        self.indices = context.1;
    }
}

/// The cached indices of an earlier state between blocks can be taken up in
/// a later state.
pub proof fn lemma_restored(saved: GenState, now: GenState)
    requires
        saved.parked(),
        now.sound(),
        extends(now.module, saved.module),
    ensures
        (GenState { cells: saved.cells, indices: saved.indices, ..now }).sound(),
{
    let t = GenState { cells: saved.cells, indices: saved.indices, ..now };
    assert forall|k: int| 0 <= k < t.indices.len() implies t.holds(
        (#[trigger] t.indices[k]).register,
        Type::I64,
    ) by {
        assert(saved.holds(saved.indices[k].register, Type::I64));
    }
}

} // verus!
