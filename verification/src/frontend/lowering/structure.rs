use vstd::prelude::*;
use crate::frontend::code_gen::{
    cached, edge, lemma_position_in_range, lowered, put, CacheEntry, GenState,
};
use crate::frontend::expr_tree::{representable, representable_instr, Instr};
use crate::frontend::laws::{flag_holds, flags_hold};
use crate::frontend::lowering::relation::{
    earlier, known, lemma_define_earlier, lemma_earlier_chain, lemma_emit_earlier, placed,
};
use crate::frontend::optimize::still;
use crate::ir::ModuleView;
use crate::ir::block::BlockID;
use crate::ir::exec::magnitude;
use crate::ir::instruction::{BinaryOp, ConstInt, Expr, LeafExpr, Op, TestOp};
use crate::ir::register::RegisterID;
use crate::ir::types::Type;

verus! {

/// Every cached offset lies within the limit of the data pointer.
pub open spec fn bounded(g: GenState, limit: int) -> bool {
    &&& forall|k: int|
        0 <= k < g.indices.len() ==> -limit <= (#[trigger] g.indices[k]).offset <= limit
    &&& forall|k: int| 0 <= k < g.cells.len() ==> -limit <= (#[trigger] g.cells[k]).offset <= limit
}

/// The module can be held in memory.
pub open spec fn fits(m: ModuleView) -> bool {
    m.blocks.len() <= usize::MAX && m.registers.len() <= usize::MAX
}

/// The state `next` has come from `g` by lowering more, in the block of
/// `g` or in new blocks, and the other blocks are as they were.
pub open spec fn onward(g: GenState, next: GenState) -> bool {
    &&& placed(next)
    &&& known(next)
    &&& earlier(g, next)
    &&& next.block == g.block || next.block.0 >= g.module.blocks.len()
    &&& forall|b: int|
        0 <= b < g.module.blocks.len() && b != g.block.0 ==> #[trigger] next.module.blocks[b]
            == g.module.blocks[b]
}

pub proof fn lemma_onward_chain(a: GenState, b: GenState, c: GenState)
    requires
        placed(a),
        onward(a, b),
        onward(b, c),
    ensures
        onward(a, c),
{
    lemma_earlier_chain(a, b, c);
    assert forall|k: int| 0 <= k < a.module.blocks.len() && k != a.block.0 implies #[trigger] c.module.blocks[k]
        == a.module.blocks[k] by {
        assert(b.module.blocks[k] == a.module.blocks[k]);
    }
}

pub proof fn lemma_onward_same(g: GenState)
    requires
        placed(g),
        known(g),
    ensures
        onward(g, g),
{
}

/// The lowering goes on in the same block, from the same tape index.
pub open spec fn straight(g: GenState, next: GenState) -> bool {
    &&& onward(g, next)
    &&& next.block == g.block
    &&& next.index == g.index
    &&& next.module.blocks.len() == g.module.blocks.len()
    &&& g.module.registers.len() <= next.module.registers.len()
    &&& next.module.entry == g.module.entry
}

pub proof fn lemma_straight_chain(a: GenState, b: GenState, c: GenState)
    requires
        placed(a),
        straight(a, b),
        straight(b, c),
    ensures
        straight(a, c),
{
    lemma_onward_chain(a, b, c);
}

pub proof fn lemma_emit_straight(g: GenState, op: Op)
    requires
        placed(g),
        known(g),
    ensures
        straight(g, g.emit(op)),
        g.emit(op).indices == g.indices,
        g.emit(op).cells == g.cells,
{
    lemma_emit_earlier(g, op);
}

pub proof fn lemma_define_straight(g: GenState, t: Type, op: Op)
    requires
        placed(g),
        known(g),
    ensures
        straight(g, g.define(t, op)),
        g.define(t, op).indices == g.indices,
        g.define(t, op).cells == g.cells,
        g.module.next_register().0 < g.define(t, op).module.registers.len(),
{
    lemma_define_earlier(g, t, op);
}

pub proof fn lemma_cell_index_straight(g: GenState, offset: isize, limit: int)
    requires
        placed(g),
        known(g),
        bounded(g, limit),
        -limit <= offset <= limit,
    ensures
        straight(g, g.cell_index(offset).0),
        bounded(g.cell_index(offset).0, limit),
        g.cell_index(offset).0.cells == g.cells,
        g.cell_index(offset).1.0 < g.cell_index(offset).0.module.registers.len(),
{
    match cached(g.indices, offset) {
        Some(r) => {
            lemma_position_in_range(g.indices, offset, 0);
        },
        None => {
            let a = LeafExpr::Register(g.index);
            let b = LeafExpr::Int(ConstInt::I64(offset as i64));
            let (s, r) = g.binary(BinaryOp::Add, a, b);
            let e = CacheEntry { offset, register: r, written: false };
            let next = GenState { indices: s.indices.push(e), ..s };
            lemma_define_straight(
                g,
                a.width(g.module),
                Op::Assign(g.module.next_register(), Expr::Binary(a, BinaryOp::Add, b)),
            );
            assert forall|k: int| 0 <= k < next.indices.len() implies (
            #[trigger] next.indices[k]).register.0 < next.module.registers.len() && -limit
                <= next.indices[k].offset <= limit by {
                if k < s.indices.len() {
                    assert(next.indices[k] == g.indices[k]);
                }
            }
        },
    }
}

pub proof fn lemma_cell_straight(g: GenState, offset: isize, limit: int)
    requires
        placed(g),
        known(g),
        bounded(g, limit),
        -limit <= offset <= limit,
    ensures
        straight(g, g.cell(offset).0),
        bounded(g.cell(offset).0, limit),
        g.cell(offset).1.0 < g.cell(offset).0.module.registers.len(),
{
    match cached(g.cells, offset) {
        Some(r) => {
            lemma_position_in_range(g.cells, offset, 0);
        },
        None => {
            let (s1, index) = g.cell_index(offset);
            let (s2, value) = s1.load(LeafExpr::Register(index));
            let e = CacheEntry { offset, register: value, written: false };
            let next = GenState { cells: s2.cells.push(e), ..s2 };
            lemma_cell_index_straight(g, offset, limit);
            lemma_define_straight(
                s1,
                Type::I8,
                Op::LoadCell(s1.module.next_register(), LeafExpr::Register(index)),
            );
            lemma_straight_chain(g, s1, s2);
            assert forall|k: int| 0 <= k < next.cells.len() implies (
            #[trigger] next.cells[k]).register.0 < next.module.registers.len() && -limit
                <= next.cells[k].offset <= limit by {
                if k < s2.cells.len() {
                    assert(next.cells[k] == g.cells[k]);
                }
            }
            assert forall|k: int| 0 <= k < next.indices.len() implies (
            #[trigger] next.indices[k]).register.0 < next.module.registers.len() && -limit
                <= next.indices[k].offset <= limit by {
                assert(next.indices[k] == s1.indices[k]);
            }
        },
    }
}

/// A cache with an entry put in holds that entry and entries that it held.
pub proof fn lemma_put_entries(s: Seq<CacheEntry>, e: CacheEntry)
    ensures
        put(s, e).len() >= s.len(),
        forall|k: int|
            0 <= k < put(s, e).len() ==> #[trigger] put(s, e)[k] == e || (k < s.len() && put(
                s,
                e,
            )[k] == s[k]),
{
    lemma_position_in_range(s, e.offset, 0);
}

pub proof fn lemma_with_cell_straight(g: GenState, offset: isize, value: LeafExpr, limit: int)
    requires
        placed(g),
        known(g),
        bounded(g, limit),
        -limit <= offset <= limit,
        value matches LeafExpr::Register(r) ==> r.0 < g.module.registers.len(),
    ensures
        straight(g, g.with_cell(offset, value)),
        bounded(g.with_cell(offset, value), limit),
{
    let next = g.with_cell(offset, value);
    match value {
        LeafExpr::Register(r) => {
            let e = CacheEntry { offset, register: r, written: true };
            lemma_put_entries(g.cells, e);
            assert forall|k: int| 0 <= k < next.cells.len() implies (
            #[trigger] next.cells[k]).register.0 < next.module.registers.len() && -limit
                <= next.cells[k].offset <= limit by {
                if next.cells[k] != e {
                    assert(next.cells[k] == g.cells[k]);
                }
            }
        },
        LeafExpr::Int(c) => {
            let (s, target) = g.constant(c);
            let e = CacheEntry { offset, register: target, written: true };
            lemma_define_straight(
                g,
                c.width(),
                Op::Assign(g.module.next_register(), Expr::Leaf(LeafExpr::Int(c))),
            );
            lemma_put_entries(s.cells, e);
            assert forall|k: int| 0 <= k < next.cells.len() implies (
            #[trigger] next.cells[k]).register.0 < next.module.registers.len() && -limit
                <= next.cells[k].offset <= limit by {
                if next.cells[k] != e {
                    assert(next.cells[k] == g.cells[k]);
                }
            }
            assert forall|k: int| 0 <= k < next.indices.len() implies (
            #[trigger] next.indices[k]).register.0 < next.module.registers.len() by {
                assert(next.indices[k] == g.indices[k]);
            }
        },
    }
}

pub proof fn lemma_spilled_upto_straight(g: GenState, n: int, limit: int)
    requires
        placed(g),
        known(g),
        bounded(g, limit),
        0 <= n <= g.cells.len(),
    ensures
        straight(g, g.spilled_upto(n)),
        g.spilled_upto(n).cells == g.cells,
        bounded(g.spilled_upto(n), limit),
    decreases n,
{
    if n > 0 {
        let before = g.spilled_upto(n - 1);
        let entry = g.cells[n - 1];
        lemma_spilled_upto_straight(g, n - 1, limit);
        if entry.written {
            let (s, index) = before.cell_index(entry.offset);
            let op = Op::StoreCell(LeafExpr::Register(index), LeafExpr::Register(entry.register));
            lemma_cell_index_straight(before, entry.offset, limit);
            lemma_emit_straight(s, op);
            lemma_straight_chain(g, before, s);
            lemma_straight_chain(g, s, s.emit(op));
        }
    } else {
        lemma_onward_same(g);
    }
}

pub proof fn lemma_left_straight(g: GenState, unbalanced: bool, limit: int)
    requires
        placed(g),
        known(g),
        bounded(g, limit),
    ensures
        straight(g, g.left(unbalanced)),
        g.left(unbalanced).cells.len() == 0,
        unbalanced ==> g.left(unbalanced).indices.len() == 0,
        bounded(g.left(unbalanced), limit),
        g.left(unbalanced).module == g.spilled_upto(g.cells.len() as int).module,
{
    lemma_spilled_upto_straight(g, g.cells.len() as int, limit);
}

pub proof fn lemma_jumped_straight(g: GenState, block: BlockID, unbalanced: bool, limit: int)
    requires
        placed(g),
        known(g),
        bounded(g, limit),
    ensures
        straight(g, g.jumped(block, unbalanced)),
        straight(g.left(unbalanced), g.jumped(block, unbalanced)),
        g.jumped(block, unbalanced).cells.len() == 0,
        g.jumped(block, unbalanced).indices == g.left(unbalanced).indices,
        bounded(g.jumped(block, unbalanced), limit),
        g.jumped(block, unbalanced).module.blocks[g.block.0 as int].body.len() > 0,
{
    let s = g.left(unbalanced);
    lemma_left_straight(g, unbalanced, limit);
    lemma_emit_straight(s, Op::Jump(edge(block, s.index, unbalanced)));
    lemma_straight_chain(g, s, g.jumped(block, unbalanced));
}

pub proof fn lemma_branched_straight(
    g: GenState,
    c: LeafExpr,
    taken: BlockID,
    els: BlockID,
    unbalanced: bool,
    limit: int,
)
    requires
        placed(g),
        known(g),
        bounded(g, limit),
    ensures
        straight(g, g.branched(c, taken, els, unbalanced)),
        straight(g.left(unbalanced), g.branched(c, taken, els, unbalanced)),
        g.branched(c, taken, els, unbalanced).cells.len() == 0,
        g.branched(c, taken, els, unbalanced).indices == g.left(unbalanced).indices,
        bounded(g.branched(c, taken, els, unbalanced), limit),
        g.branched(c, taken, els, unbalanced).module.blocks[g.block.0 as int].body.len() > 0,
{
    let s = g.left(unbalanced);
    lemma_left_straight(g, unbalanced, limit);
    lemma_emit_straight(
        s,
        Op::Branch(c, edge(taken, s.index, false), edge(els, s.index, unbalanced)),
    );
    lemma_straight_chain(g, s, g.branched(c, taken, els, unbalanced));
}

pub proof fn lemma_tested_straight(g: GenState, cond: isize, limit: int)
    requires
        placed(g),
        known(g),
        bounded(g, limit),
        -limit <= cond <= limit,
    ensures
        straight(g, g.tested(cond).0),
        bounded(g.tested(cond).0, limit),
        g.tested(cond).1.0 < g.tested(cond).0.module.registers.len(),
{
    let (s, value) = g.cell(cond);
    lemma_cell_straight(g, cond, limit);
    lemma_define_straight(
        s,
        Type::I1,
        Op::Assign(
            s.module.next_register(),
            Expr::Test(LeafExpr::Register(value), TestOp::NotEqual, LeafExpr::Int(ConstInt::I8(0))),
        ),
    );
    lemma_straight_chain(g, s, g.tested(cond).0);
}

/// How far from the data pointer the lowering of an instruction may come
/// to cache a cell: the sum of the offsets and of the moves in it.
pub open spec fn span(i: Instr) -> int
    decreases i, 0int,
{
    match i {
        Instr::Modify(c, _) => magnitude(c),
        Instr::Move(d) => magnitude(d),
        Instr::Output(c) => magnitude(c),
        Instr::Input(c) => magnitude(c),
        Instr::SetCell(c, _) => magnitude(c),
        Instr::AddMultiple { target, base, .. } => magnitude(target) + magnitude(base),
        Instr::BoundsCheck { .. } => 0,
        Instr::Loop(_, c, body) => magnitude(c) + span_list(body),
        Instr::If(_, c, body) => magnitude(c) + span_list(body),
    }
}

pub open spec fn span_list(s: Seq<Instr>) -> int
    decreases s, 1int,
{
    if s.len() == 0 {
        0
    } else {
        span_list(s.drop_last()) + span(s.last())
    }
}

/// The span up to which the offsets of the caches are exact on every
/// machine.
pub open spec fn span_limit() -> int {
    0x2000_0000
}

pub proof fn lemma_span_positive(i: Instr)
    ensures
        span(i) >= 0,
    decreases i, 0int,
{
    match i {
        Instr::Loop(_, c, body) => lemma_span_list_positive(body),
        Instr::If(_, c, body) => lemma_span_list_positive(body),
        _ => {},
    }
}

pub proof fn lemma_span_list_positive(s: Seq<Instr>)
    ensures
        span_list(s) >= 0,
    decreases s, 1int,
{
    if s.len() > 0 {
        lemma_span_list_positive(s.drop_last());
        lemma_span_positive(s.last());
    }
}

pub proof fn lemma_bounded_wider(g: GenState, limit: int, wider: int)
    requires
        bounded(g, limit),
        limit <= wider,
    ensures
        bounded(g, wider),
{
}

/// The lowering of a move goes on in the same block.
pub proof fn lemma_move_onward(g: GenState, by: isize, limit: int)
    requires
        placed(g),
        known(g),
        bounded(g, limit),
        0 <= limit,
        limit + magnitude(by as int) <= span_limit(),
    ensures
        onward(g, g.after_move(by)),
        g.after_move(by).block == g.block,
        g.after_move(by).module.blocks.len() == g.module.blocks.len(),
        g.after_move(by).module.entry == g.module.entry,
        bounded(g.after_move(by), limit + magnitude(by as int)),
        forall|k: int|
            0 <= k < g.indices.len() ==> (#[trigger] g.after_move(by).indices[k]).offset
                == g.indices[k].offset - by,
        forall|k: int|
            0 <= k < g.cells.len() ==> (#[trigger] g.after_move(by).cells[k]).offset
                == g.cells[k].offset - by,
{
    let a = LeafExpr::Register(g.index);
    let b = LeafExpr::Int(ConstInt::I64(by as i64));
    let (s, r) = g.binary(BinaryOp::Add, a, b);
    let next = g.after_move(by);
    lemma_define_straight(
        g,
        a.width(g.module),
        Op::Assign(g.module.next_register(), Expr::Binary(a, BinaryOp::Add, b)),
    );
    assert forall|k: int| 0 <= k < next.indices.len() implies (#[trigger] next.indices[k]).register.0
        < next.module.registers.len() && next.indices[k].offset == g.indices[k].offset - by by {
        assert(next.indices[k].register == g.indices[k].register);
        assert(-limit <= g.indices[k].offset <= limit);
    }
    assert forall|k: int| 0 <= k < next.cells.len() implies (#[trigger] next.cells[k]).register.0
        < next.module.registers.len() && next.cells[k].offset == g.cells[k].offset - by by {
        assert(next.cells[k].register == g.cells[k].register);
        assert(-limit <= g.cells[k].offset <= limit);
    }
}

/// The lowering of an instruction that is no block goes on in the same
/// block.
pub proof fn lemma_simple_onward(g: GenState, i: Instr, limit: int)
    requires
        placed(g),
        known(g),
        bounded(g, limit),
        0 <= limit,
        limit + span(i) <= span_limit(),
        !i.is_block(),
    ensures
        onward(g, g.after(i)),
        g.after(i).block == g.block,
        g.after(i).module.blocks.len() == g.module.blocks.len(),
        g.after(i).module.entry == g.module.entry,
        bounded(g.after(i), limit + span(i)),
{
    let wide = limit + span(i);
    lemma_bounded_wider(g, limit, wide);
    match i {
        Instr::Modify(offset, amount) => {
            let (s1, old) = g.cell(offset as isize);
            let a = LeafExpr::Register(old);
            let b = LeafExpr::Int(ConstInt::I8(amount));
            let (s2, new) = s1.binary(BinaryOp::Add, a, b);
            lemma_cell_straight(g, offset as isize, wide);
            lemma_define_straight(
                s1,
                a.width(s1.module),
                Op::Assign(s1.module.next_register(), Expr::Binary(a, BinaryOp::Add, b)),
            );
            lemma_with_cell_straight(s2, offset as isize, LeafExpr::Register(new), wide);
            lemma_straight_chain(g, s1, s2);
            lemma_straight_chain(g, s2, g.after(i));
        },
        Instr::Move(amount) => {
            lemma_move_onward(g, amount as isize, limit);
        },
        Instr::Output(cell) => {
            let (s1, val) = g.cell(cell as isize);
            lemma_cell_straight(g, cell as isize, wide);
            lemma_emit_straight(s1, Op::Output(LeafExpr::Register(val)));
            lemma_straight_chain(g, s1, g.after(i));
        },
        Instr::Input(cell) => {
            let (s1, old) = g.cell(cell as isize);
            let (s2, read) = s1.read(LeafExpr::Register(old));
            lemma_cell_straight(g, cell as isize, wide);
            lemma_define_straight(
                s1,
                Type::I8,
                Op::Input(s1.module.next_register(), LeafExpr::Register(old)),
            );
            lemma_with_cell_straight(s2, cell as isize, LeafExpr::Register(read), wide);
            lemma_straight_chain(g, s1, s2);
            lemma_straight_chain(g, s2, g.after(i));
        },
        Instr::SetCell(cell, val) => {
            lemma_with_cell_straight(g, cell as isize, LeafExpr::Int(ConstInt::U8(val)), wide);
        },
        Instr::AddMultiple { target, base, factor } => {
            let (s1, target_val) = g.cell(target as isize);
            let (s2, base_val) = s1.cell(base as isize);
            let a = LeafExpr::Register(base_val);
            let b = LeafExpr::Int(ConstInt::I8(factor));
            let (s3, addend) = s2.binary(BinaryOp::Mul, a, b);
            let x = LeafExpr::Register(target_val);
            let y = LeafExpr::Register(addend);
            let (s4, total) = s3.binary(BinaryOp::Add, x, y);
            lemma_cell_straight(g, target as isize, wide);
            lemma_cell_straight(s1, base as isize, wide);
            lemma_define_straight(
                s2,
                a.width(s2.module),
                Op::Assign(s2.module.next_register(), Expr::Binary(a, BinaryOp::Mul, b)),
            );
            lemma_define_straight(
                s3,
                x.width(s3.module),
                Op::Assign(s3.module.next_register(), Expr::Binary(x, BinaryOp::Add, y)),
            );
            lemma_with_cell_straight(s4, target as isize, LeafExpr::Register(total), wide);
            lemma_straight_chain(g, s1, s2);
            lemma_straight_chain(g, s2, s3);
            lemma_straight_chain(g, s3, s4);
            lemma_straight_chain(g, s4, g.after(i));
        },
        Instr::BoundsCheck { start, length } => {
            let a = LeafExpr::Register(g.index);
            let b = LeafExpr::Int(ConstInt::I64(start as i64));
            let (s1, lo) = g.binary(BinaryOp::Add, a, b);
            let x = LeafExpr::Register(lo);
            let y = LeafExpr::Int(ConstInt::U64(length as u64));
            let (s2, hi) = s1.binary(BinaryOp::Add, x, y);
            lemma_define_straight(
                g,
                a.width(g.module),
                Op::Assign(g.module.next_register(), Expr::Binary(a, BinaryOp::Add, b)),
            );
            lemma_define_straight(
                s1,
                x.width(s1.module),
                Op::Assign(s1.module.next_register(), Expr::Binary(x, BinaryOp::Add, y)),
            );
            lemma_emit_straight(s2, Op::BoundsCheck(x, LeafExpr::Register(hi)));
            lemma_straight_chain(g, s1, s2);
            lemma_straight_chain(g, s2, g.after(i));
        },
        _ => {},
    }
}

/// The lowering of an instruction that is no block and no move keeps the
/// tape index.
pub proof fn lemma_simple_index(g: GenState, i: Instr)
    requires
        !i.is_block(),
        !i.moves_pointer(),
    ensures
        g.after(i).index == g.index,
{
    match i {
        Instr::Modify(offset, amount) => {},
        Instr::Output(cell) => {},
        Instr::Input(cell) => {},
        Instr::SetCell(cell, val) => {},
        Instr::AddMultiple { target, base, factor } => {},
        Instr::BoundsCheck { start, length } => {},
        _ => {},
    }
}

/// The lowering has come further: it stands in a block of its module, the
/// registers of its caches are registers of the module, and the module has
/// not become smaller.
pub open spec fn grown(g: GenState, next: GenState) -> bool {
    &&& placed(next)
    &&& known(next)
    &&& g.module.blocks.len() <= next.module.blocks.len()
    &&& g.module.registers.len() <= next.module.registers.len()
    &&& next.module.entry == g.module.entry
}

/// The head of a block that is entered.
pub proof fn lemma_entered(g: GenState, block: BlockID, unbalanced: bool)
    requires
        placed(g),
        known(g),
        block.0 < g.module.blocks.len(),
    ensures
        grown(g, g.entered(block, unbalanced)),
        g.entered(block, unbalanced).block == block,
        g.entered(block, unbalanced).cells == g.cells,
        g.entered(block, unbalanced).indices == g.indices,
        g.entered(block, unbalanced).module.blocks.len() == g.module.blocks.len(),
        g.entered(block, unbalanced).module.blocks[block.0 as int].body
            == g.module.blocks[block.0 as int].body,
        forall|b: int|
            0 <= b < g.module.blocks.len() && b != block.0 ==> #[trigger] g.entered(
                block,
                unbalanced,
            ).module.blocks[b] == g.module.blocks[b],
        !unbalanced ==> g.entered(block, unbalanced).module == g.module && g.entered(
            block,
            unbalanced,
        ).index == g.index,
        unbalanced && g.module.registers.len() <= usize::MAX ==> g.entered(block, unbalanced).index.0
            == g.module.registers.len() && g.entered(
            block,
            unbalanced,
        ).module.blocks[block.0 as int].parameters
            == g.module.blocks[block.0 as int].parameters.push(g.entered(block, unbalanced).index),
        block != g.block && g.module.blocks[block.0 as int].body.len() == 0
            && g.module.blocks[g.block.0 as int].body.len() > 0 ==> earlier(
            g,
            g.entered(block, unbalanced),
        ),
{
}

/// The three blocks of a loop: the header, the body, and the block that
/// follows.
pub open spec fn loop_header(g: GenState) -> BlockID {
    BlockID(g.module.blocks.len() as usize)
}

pub open spec fn loop_inner(g: GenState) -> BlockID {
    BlockID((g.module.blocks.len() + 1) as usize)
}

pub open spec fn loop_end(g: GenState) -> BlockID {
    BlockID((g.module.blocks.len() + 2) as usize)
}

/// The state with the three blocks of a loop.
pub open spec fn loop_blocks(g: GenState) -> GenState {
    GenState { module: g.module.with_block().with_block().with_block(), ..g }
}

/// The state after the jump to the header of a loop.
pub open spec fn loop_left(g: GenState, unbalanced: bool) -> GenState {
    loop_blocks(g).jumped(loop_header(g), unbalanced)
}

/// The state at the head of the header of a loop.
pub open spec fn loop_head(g: GenState, unbalanced: bool) -> GenState {
    loop_left(g, unbalanced).entered(loop_header(g), unbalanced)
}

/// The state after the test in the header of a loop.
pub open spec fn loop_tested(g: GenState, unbalanced: bool, cond: isize) -> GenState {
    loop_head(g, unbalanced).tested(cond).0
}

/// The register that holds whether the loop goes on.
pub open spec fn loop_flag(g: GenState, unbalanced: bool, cond: isize) -> RegisterID {
    loop_head(g, unbalanced).tested(cond).1
}

/// The state after the branch at the end of the header of a loop.
pub open spec fn loop_split(g: GenState, unbalanced: bool, cond: isize) -> GenState {
    loop_tested(g, unbalanced, cond).branched(
        LeafExpr::Register(loop_flag(g, unbalanced, cond)),
        loop_inner(g),
        loop_end(g),
        unbalanced,
    )
}

/// The state at the head of the body of a loop.
pub open spec fn loop_body(g: GenState, unbalanced: bool, cond: isize) -> GenState {
    loop_split(g, unbalanced, cond).entered(loop_inner(g), false)
}

/// The state at the end of the body of a loop.
pub open spec fn loop_done(g: GenState, unbalanced: bool, cond: isize, body: Seq<Instr>) -> GenState {
    loop_body(g, unbalanced, cond).after_list(body)
}

/// The state after the jump back to the header of a loop.
pub open spec fn loop_back(g: GenState, unbalanced: bool, cond: isize, body: Seq<Instr>) -> GenState {
    loop_done(g, unbalanced, cond, body).jumped(loop_header(g), unbalanced)
}

/// The state at the head of the block that follows a loop, with the caches
/// of the end of the body.
pub open spec fn loop_out(g: GenState, unbalanced: bool, cond: isize, body: Seq<Instr>) -> GenState {
    loop_back(g, unbalanced, cond, body).entered(loop_end(g), unbalanced)
}

pub proof fn lemma_after_loop(g: GenState, unbalanced: bool, cond: isize, body: Seq<Instr>)
    ensures
        g.after_loop(unbalanced, cond, body) == (GenState {
            cells: loop_left(g, unbalanced).cells,
            indices: loop_left(g, unbalanced).indices,
            ..loop_out(g, unbalanced, cond, body)
        }),
{
}

/// The front of a loop, up to the head of its body: how the lowering goes
/// on.
pub proof fn lemma_loop_front(g: GenState, unbalanced: bool, cond: isize, limit: int)
    requires
        placed(g),
        known(g),
        bounded(g, limit),
        0 <= limit,
        -limit <= cond <= limit,
    ensures
        grown(g, loop_left(g, unbalanced)),
        grown(loop_left(g, unbalanced), loop_head(g, unbalanced)),
        grown(loop_head(g, unbalanced), loop_tested(g, unbalanced, cond)),
        grown(loop_tested(g, unbalanced, cond), loop_split(g, unbalanced, cond)),
        grown(loop_split(g, unbalanced, cond), loop_body(g, unbalanced, cond)),
        bounded(loop_left(g, unbalanced), limit),
        bounded(loop_head(g, unbalanced), limit),
        bounded(loop_tested(g, unbalanced, cond), limit),
        bounded(loop_body(g, unbalanced, cond), limit),
        loop_left(g, unbalanced).cells.len() == 0,
        loop_head(g, unbalanced).cells.len() == 0,
        loop_head(g, unbalanced).indices == loop_left(g, unbalanced).indices,
        unbalanced ==> loop_left(g, unbalanced).indices.len() == 0,
        loop_body(g, unbalanced, cond).cells.len() == 0,
        loop_body(g, unbalanced, cond).module.blocks.len() == g.module.blocks.len() + 3,
        loop_left(g, unbalanced).index == g.index,
        loop_body(g, unbalanced, cond).index == loop_head(g, unbalanced).index,
        !unbalanced ==> loop_head(g, unbalanced).index == g.index,
        loop_flag(g, unbalanced, cond).0 < loop_tested(g, unbalanced, cond).module.registers.len(),
        fits(loop_body(g, unbalanced, cond).module) ==> {
            &&& loop_header(g).0 == g.module.blocks.len()
            &&& loop_inner(g).0 == g.module.blocks.len() + 1
            &&& loop_end(g).0 == g.module.blocks.len() + 2
            &&& earlier(g, loop_left(g, unbalanced))
            &&& earlier(loop_left(g, unbalanced), loop_head(g, unbalanced))
            &&& earlier(loop_head(g, unbalanced), loop_tested(g, unbalanced, cond))
            &&& earlier(loop_tested(g, unbalanced, cond), loop_split(g, unbalanced, cond))
            &&& earlier(loop_split(g, unbalanced, cond), loop_body(g, unbalanced, cond))
            &&& loop_head(g, unbalanced).block == loop_header(g)
            &&& loop_head(g, unbalanced).module.blocks[loop_header(g).0 as int].body.len() == 0
            &&& unbalanced ==> loop_head(g, unbalanced).module.blocks[loop_header(
                g,
            ).0 as int].parameters == seq![loop_head(g, unbalanced).index]
                && loop_head(g, unbalanced).index.0 == loop_left(
                g,
                unbalanced,
            ).module.registers.len()
            &&& loop_tested(g, unbalanced, cond).block == loop_header(g)
            &&& loop_body(g, unbalanced, cond).block == loop_inner(g)
            &&& loop_body(g, unbalanced, cond).module.blocks[loop_inner(g).0 as int].body.len() == 0
            &&& loop_body(g, unbalanced, cond).module.blocks[loop_end(g).0 as int].body.len() == 0
            &&& loop_body(g, unbalanced, cond).module.blocks[loop_end(g).0 as int].parameters.len()
                == 0
            &&& forall|b: int|
                0 <= b < g.module.blocks.len() && b != g.block.0 ==> #[trigger] loop_body(
                    g,
                    unbalanced,
                    cond,
                ).module.blocks[b] == g.module.blocks[b]
        },
{
    let s0 = loop_blocks(g);
    let header = loop_header(g);
    let inner = loop_inner(g);
    let end = loop_end(g);
    let s1 = loop_left(g, unbalanced);
    let s2 = loop_head(g, unbalanced);
    let s3 = loop_tested(g, unbalanced, cond);
    let flag = loop_flag(g, unbalanced, cond);
    let s4 = loop_split(g, unbalanced, cond);
    let s5 = loop_body(g, unbalanced, cond);
    assert(s0.module.blocks.len() == g.module.blocks.len() + 3);
    assert(placed(s0) && known(s0) && bounded(s0, limit));
    lemma_jumped_straight(s0, header, unbalanced, limit);
    lemma_entered(s1, header, unbalanced);
    assert(bounded(s2, limit));
    lemma_tested_straight(s2, cond, limit);
    lemma_branched_straight(s3, LeafExpr::Register(flag), inner, end, unbalanced, limit);
    lemma_entered(s4, inner, false);
    assert(bounded(s5, limit));
    if fits(s5.module) {
        let n = g.module.blocks.len() as int;
        assert(header.0 == n && inner.0 == n + 1 && end.0 == n + 2);
        assert(earlier(g, s0));
        lemma_earlier_chain(g, s0, s1);
        assert(s1.module.blocks[n] == s0.module.blocks[n]);
        assert(s0.module.blocks[n].body.len() == 0);
        assert(s0.module.blocks[n].parameters.len() == 0);
        assert(s1.module.blocks[n + 1] == s0.module.blocks[n + 1]);
        assert(s1.module.blocks[n + 2] == s0.module.blocks[n + 2]);
        assert(s2.module.blocks[n + 1] == s1.module.blocks[n + 1]);
        assert(s2.module.blocks[n + 2] == s1.module.blocks[n + 2]);
        assert(s3.module.blocks[n + 1] == s2.module.blocks[n + 1]);
        assert(s3.module.blocks[n + 2] == s2.module.blocks[n + 2]);
        assert(s4.module.blocks[n + 1] == s3.module.blocks[n + 1]);
        assert(s4.module.blocks[n + 2] == s3.module.blocks[n + 2]);
        assert(s5.module == s4.module);
        if unbalanced {
            assert(s2.module.blocks[n].parameters =~= seq![s2.index]);
        }
        assert forall|b: int| 0 <= b < g.module.blocks.len() && b != g.block.0 implies #[trigger] s5.module.blocks[b]
            == g.module.blocks[b] by {
            assert(s0.module.blocks[b] == g.module.blocks[b]);
            assert(s1.module.blocks[b] == s0.module.blocks[b]);
            assert(s2.module.blocks[b] == s1.module.blocks[b]);
            assert(s3.module.blocks[b] == s2.module.blocks[b]);
            assert(s4.module.blocks[b] == s3.module.blocks[b]);
        }
    }
}

/// The two blocks of a conditional: the body, and the block that follows.
pub open spec fn if_inner(g: GenState) -> BlockID {
    BlockID(g.module.blocks.len() as usize)
}

pub open spec fn if_end(g: GenState) -> BlockID {
    BlockID((g.module.blocks.len() + 1) as usize)
}

/// The state with the two blocks of a conditional.
pub open spec fn if_blocks(g: GenState) -> GenState {
    GenState { module: g.module.with_block().with_block(), ..g }
}

/// The state after the test of a conditional.
pub open spec fn if_tested(g: GenState, cond: isize) -> GenState {
    if_blocks(g).tested(cond).0
}

/// The register that holds whether the body of the conditional runs.
pub open spec fn if_flag(g: GenState, cond: isize) -> RegisterID {
    if_blocks(g).tested(cond).1
}

/// The state after the branch of a conditional.
pub open spec fn if_split(g: GenState, unbalanced: bool, cond: isize) -> GenState {
    if_tested(g, cond).branched(
        LeafExpr::Register(if_flag(g, cond)),
        if_inner(g),
        if_end(g),
        unbalanced,
    )
}

/// The state at the head of the body of a conditional.
pub open spec fn if_body(g: GenState, unbalanced: bool, cond: isize) -> GenState {
    if_split(g, unbalanced, cond).entered(if_inner(g), false)
}

/// The state at the end of the body of a conditional.
pub open spec fn if_done(g: GenState, unbalanced: bool, cond: isize, body: Seq<Instr>) -> GenState {
    if_body(g, unbalanced, cond).after_list(body)
}

/// The state after the jump from the body of a conditional to the block
/// that follows.
pub open spec fn if_back(g: GenState, unbalanced: bool, cond: isize, body: Seq<Instr>) -> GenState {
    if_done(g, unbalanced, cond, body).jumped(if_end(g), unbalanced)
}

/// The state at the head of the block that follows a conditional, with the
/// caches of the end of the body.
pub open spec fn if_out(g: GenState, unbalanced: bool, cond: isize, body: Seq<Instr>) -> GenState {
    if_back(g, unbalanced, cond, body).entered(if_end(g), unbalanced)
}

pub proof fn lemma_after_if(g: GenState, unbalanced: bool, cond: isize, body: Seq<Instr>)
    ensures
        g.after_if(unbalanced, cond, body) == (GenState {
            cells: if_split(g, unbalanced, cond).cells,
            indices: if_split(g, unbalanced, cond).indices,
            ..if_out(g, unbalanced, cond, body)
        }),
{
}

/// The front of a conditional, up to the head of its body: how the
/// lowering goes on.
pub proof fn lemma_if_front(g: GenState, unbalanced: bool, cond: isize, limit: int)
    requires
        placed(g),
        known(g),
        bounded(g, limit),
        0 <= limit,
        -limit <= cond <= limit,
    ensures
        grown(g, if_tested(g, cond)),
        grown(if_tested(g, cond), if_split(g, unbalanced, cond)),
        grown(if_split(g, unbalanced, cond), if_body(g, unbalanced, cond)),
        bounded(if_blocks(g), limit),
        bounded(if_tested(g, cond), limit),
        bounded(if_split(g, unbalanced, cond), limit),
        bounded(if_body(g, unbalanced, cond), limit),
        if_split(g, unbalanced, cond).cells.len() == 0,
        unbalanced ==> if_split(g, unbalanced, cond).indices.len() == 0,
        if_body(g, unbalanced, cond).cells.len() == 0,
        if_body(g, unbalanced, cond).indices == if_split(g, unbalanced, cond).indices,
        if_body(g, unbalanced, cond).module.blocks.len() == g.module.blocks.len() + 2,
        if_tested(g, cond).index == g.index,
        if_tested(g, cond).block == g.block,
        if_split(g, unbalanced, cond).index == g.index,
        if_body(g, unbalanced, cond).index == g.index,
        if_flag(g, cond).0 < if_tested(g, cond).module.registers.len(),
        fits(if_body(g, unbalanced, cond).module) ==> {
            &&& if_inner(g).0 == g.module.blocks.len()
            &&& if_end(g).0 == g.module.blocks.len() + 1
            &&& earlier(g, if_blocks(g))
            &&& earlier(if_blocks(g), if_tested(g, cond))
            &&& earlier(if_tested(g, cond), if_split(g, unbalanced, cond))
            &&& earlier(if_split(g, unbalanced, cond), if_body(g, unbalanced, cond))
            &&& if_body(g, unbalanced, cond).block == if_inner(g)
            &&& if_body(g, unbalanced, cond).module.blocks[if_inner(g).0 as int].body.len() == 0
            &&& if_body(g, unbalanced, cond).module.blocks[if_end(g).0 as int].body.len() == 0
            &&& if_body(g, unbalanced, cond).module.blocks[if_end(g).0 as int].parameters.len() == 0
            &&& forall|b: int|
                0 <= b < g.module.blocks.len() && b != g.block.0 ==> #[trigger] if_body(
                    g,
                    unbalanced,
                    cond,
                ).module.blocks[b] == g.module.blocks[b]
        },
{
    let s0 = if_blocks(g);
    let inner = if_inner(g);
    let end = if_end(g);
    let s1 = if_tested(g, cond);
    let flag = if_flag(g, cond);
    let s2 = if_split(g, unbalanced, cond);
    let s3 = if_body(g, unbalanced, cond);
    assert(s0.module.blocks.len() == g.module.blocks.len() + 2);
    assert(placed(s0) && known(s0) && bounded(s0, limit));
    lemma_tested_straight(s0, cond, limit);
    lemma_branched_straight(s1, LeafExpr::Register(flag), inner, end, unbalanced, limit);
    lemma_entered(s2, inner, false);
    assert(bounded(s3, limit));
    if fits(s3.module) {
        let n = g.module.blocks.len() as int;
        assert(inner.0 == n && end.0 == n + 1);
        assert(earlier(g, s0));
        assert(s0.module.blocks[n].body.len() == 0);
        assert(s0.module.blocks[n + 1].body.len() == 0);
        assert(s0.module.blocks[n + 1].parameters.len() == 0);
        assert(s1.module.blocks[n] == s0.module.blocks[n]);
        assert(s1.module.blocks[n + 1] == s0.module.blocks[n + 1]);
        assert(s2.module.blocks[n] == s1.module.blocks[n]);
        assert(s2.module.blocks[n + 1] == s1.module.blocks[n + 1]);
        assert(s3.module == s2.module);
        assert forall|b: int| 0 <= b < g.module.blocks.len() && b != g.block.0 implies #[trigger] s3.module.blocks[b]
            == g.module.blocks[b] by {
            assert(s0.module.blocks[b] == g.module.blocks[b]);
            assert(s1.module.blocks[b] == s0.module.blocks[b]);
            assert(s2.module.blocks[b] == s1.module.blocks[b]);
        }
    }
}

/// What the lowering is proved right for: a list of instructions that can
/// be held in memory, in which every block that is flagged as balanced
/// holds nothing that moves the data pointer, going by the flags.
pub open spec fn lowerable(s: Seq<Instr>) -> bool {
    representable(s) && flags_hold(s)
}

pub open spec fn lowerable_instr(i: Instr) -> bool {
    representable_instr(i) && flag_holds(i)
}

pub proof fn lemma_lowerable_parts(s: Seq<Instr>)
    requires
        lowerable(s),
        s.len() > 0,
    ensures
        lowerable(s.drop_last()),
        lowerable_instr(s.last()),
        still(s) ==> still(s.drop_last()) && !s.last().moves_pointer(),
{
    let front = s.drop_last();
    assert forall|k: int| 0 <= k < front.len() implies representable_instr(#[trigger] front[k])
        && flag_holds(front[k]) by {
        assert(front[k] == s[k]);
    }
    if still(s) {
        assert forall|k: int| 0 <= k < front.len() implies !(#[trigger] front[k]).moves_pointer() by {
            assert(front[k] == s[k]);
        }
    }
}

pub proof fn lemma_lowerable_loop(balanced: bool, cond: int, body: Seq<Instr>)
    requires
        lowerable_instr(Instr::Loop(balanced, cond, body)),
    ensures
        lowerable(body),
        balanced ==> still(body),
        isize::MIN <= cond <= isize::MAX,
{
}

pub proof fn lemma_lowerable_if(balanced: bool, cond: int, body: Seq<Instr>)
    requires
        lowerable_instr(Instr::If(balanced, cond, body)),
    ensures
        lowerable(body),
        balanced ==> still(body),
        isize::MIN <= cond <= isize::MAX,
{
}

/// The back of a loop, from the head of its body on, and the whole of it:
/// how the lowering goes on.
pub proof fn lemma_loop_structure(
    g: GenState,
    unbalanced: bool,
    cond: isize,
    body: Seq<Instr>,
    limit: int,
)
    requires
        placed(g),
        known(g),
        bounded(g, limit),
        0 <= limit,
        limit + magnitude(cond as int) + span_list(body) <= span_limit(),
        lowerable(body),
        !unbalanced ==> still(body),
    ensures
        grown(loop_body(g, unbalanced, cond), loop_done(g, unbalanced, cond, body)),
        grown(loop_done(g, unbalanced, cond, body), loop_back(g, unbalanced, cond, body)),
        grown(loop_back(g, unbalanced, cond, body), loop_out(g, unbalanced, cond, body)),
        grown(g, g.after_loop(unbalanced, cond, body)),
        bounded(
            loop_done(g, unbalanced, cond, body),
            limit + magnitude(cond as int) + span_list(body),
        ),
        bounded(g.after_loop(unbalanced, cond, body), limit),
        !unbalanced ==> g.after_loop(unbalanced, cond, body).index == g.index,
        g.after_loop(unbalanced, cond, body).cells.len() == 0,
        g.after_loop(unbalanced, cond, body).indices == loop_left(g, unbalanced).indices,
        g.after_loop(unbalanced, cond, body).module == loop_out(g, unbalanced, cond, body).module,
        g.after_loop(unbalanced, cond, body).block == loop_out(g, unbalanced, cond, body).block,
        g.after_loop(unbalanced, cond, body).index == loop_out(g, unbalanced, cond, body).index,
        fits(g.after_loop(unbalanced, cond, body).module) ==> {
            &&& fits(loop_body(g, unbalanced, cond).module)
            &&& onward(loop_body(g, unbalanced, cond), loop_done(g, unbalanced, cond, body))
            &&& earlier(loop_done(g, unbalanced, cond, body), loop_back(g, unbalanced, cond, body))
            &&& earlier(loop_back(g, unbalanced, cond, body), loop_out(g, unbalanced, cond, body))
            &&& onward(g, g.after_loop(unbalanced, cond, body))
            &&& loop_out(g, unbalanced, cond, body).block == loop_end(g)
            &&& loop_out(g, unbalanced, cond, body).module.blocks[loop_end(g).0 as int].body.len()
                == 0
            &&& unbalanced ==> loop_out(g, unbalanced, cond, body).module.blocks[loop_end(
                g,
            ).0 as int].parameters == seq![loop_out(g, unbalanced, cond, body).index] && loop_out(
                g,
                unbalanced,
                cond,
                body,
            ).index.0 == loop_back(g, unbalanced, cond, body).module.registers.len()
        },
    decreases body, 2int,
{
    let header = loop_header(g);
    let inner = loop_inner(g);
    let end = loop_end(g);
    let s1 = loop_left(g, unbalanced);
    let s2 = loop_head(g, unbalanced);
    let s3 = loop_tested(g, unbalanced, cond);
    let s4 = loop_split(g, unbalanced, cond);
    let s5 = loop_body(g, unbalanced, cond);
    let s6 = loop_done(g, unbalanced, cond, body);
    let s7 = loop_back(g, unbalanced, cond, body);
    let s8 = loop_out(g, unbalanced, cond, body);
    let r = g.after_loop(unbalanced, cond, body);
    let inside = limit + magnitude(cond as int);
    let wide = inside + span_list(body);
    lemma_after_loop(g, unbalanced, cond, body);
    lemma_span_list_positive(body);
    lemma_bounded_wider(g, limit, inside);
    lemma_loop_front(g, unbalanced, cond, inside);
    lemma_jumped_straight(loop_blocks(g), header, unbalanced, limit);
    lemma_list_structure(s5, body, inside);
    lemma_jumped_straight(s6, header, unbalanced, wide);
    assert(end.0 < s7.module.blocks.len());
    lemma_entered(s7, end, unbalanced);
    assert(known(r)) by {
        assert forall|k: int| 0 <= k < r.indices.len() implies (#[trigger] r.indices[k]).register.0
            < r.module.registers.len() by {
            assert(s1.indices[k].register.0 < s1.module.registers.len());
        }
    }
    if fits(r.module) {
        let n = g.module.blocks.len() as int;
        assert(fits(s6.module));
        assert(fits(s5.module));
        assert(onward(s5, s6));
        assert(s6.module.blocks[n + 2] == s5.module.blocks[n + 2]);
        assert(s7.module.blocks[n + 2] == s6.module.blocks[n + 2]);
        assert(earlier(s7, s8));
        lemma_earlier_chain(g, s1, s2);
        lemma_earlier_chain(g, s2, s3);
        lemma_earlier_chain(g, s3, s4);
        lemma_earlier_chain(g, s4, s5);
        lemma_earlier_chain(g, s5, s6);
        lemma_earlier_chain(g, s6, s7);
        lemma_earlier_chain(g, s7, s8);
        assert(earlier(g, r));
        if unbalanced {
            assert(s8.module.blocks[n + 2].parameters =~= seq![s8.index]);
        }
        assert forall|b: int| 0 <= b < g.module.blocks.len() && b != g.block.0 implies #[trigger] r.module.blocks[b]
            == g.module.blocks[b] by {
            assert(s5.module.blocks[b] == g.module.blocks[b]);
            assert(s6.module.blocks[b] == s5.module.blocks[b]);
            assert(s7.module.blocks[b] == s6.module.blocks[b]);
            assert(s8.module.blocks[b] == s7.module.blocks[b]);
        }
    }
}

/// The back of a conditional, from the head of its body on, and the whole
/// of it: how the lowering goes on.
pub proof fn lemma_if_structure(
    g: GenState,
    unbalanced: bool,
    cond: isize,
    body: Seq<Instr>,
    limit: int,
)
    requires
        placed(g),
        known(g),
        bounded(g, limit),
        0 <= limit,
        limit + magnitude(cond as int) + span_list(body) <= span_limit(),
        lowerable(body),
        !unbalanced ==> still(body),
    ensures
        grown(if_body(g, unbalanced, cond), if_done(g, unbalanced, cond, body)),
        grown(if_done(g, unbalanced, cond, body), if_back(g, unbalanced, cond, body)),
        grown(if_back(g, unbalanced, cond, body), if_out(g, unbalanced, cond, body)),
        grown(g, g.after_if(unbalanced, cond, body)),
        bounded(if_done(g, unbalanced, cond, body), limit + magnitude(cond as int) + span_list(body)),
        bounded(g.after_if(unbalanced, cond, body), limit + magnitude(cond as int)),
        !unbalanced ==> g.after_if(unbalanced, cond, body).index == g.index,
        !unbalanced ==> if_done(g, unbalanced, cond, body).index == g.index,
        g.after_if(unbalanced, cond, body).cells.len() == 0,
        g.after_if(unbalanced, cond, body).indices == if_split(g, unbalanced, cond).indices,
        g.after_if(unbalanced, cond, body).module == if_out(g, unbalanced, cond, body).module,
        g.after_if(unbalanced, cond, body).block == if_out(g, unbalanced, cond, body).block,
        g.after_if(unbalanced, cond, body).index == if_out(g, unbalanced, cond, body).index,
        fits(g.after_if(unbalanced, cond, body).module) ==> {
            &&& fits(if_body(g, unbalanced, cond).module)
            &&& onward(if_body(g, unbalanced, cond), if_done(g, unbalanced, cond, body))
            &&& earlier(if_done(g, unbalanced, cond, body), if_back(g, unbalanced, cond, body))
            &&& earlier(if_back(g, unbalanced, cond, body), if_out(g, unbalanced, cond, body))
            &&& onward(g, g.after_if(unbalanced, cond, body))
            &&& if_out(g, unbalanced, cond, body).block == if_end(g)
            &&& if_out(g, unbalanced, cond, body).module.blocks[if_end(g).0 as int].body.len() == 0
            &&& unbalanced ==> if_out(g, unbalanced, cond, body).module.blocks[if_end(
                g,
            ).0 as int].parameters == seq![if_out(g, unbalanced, cond, body).index] && if_out(
                g,
                unbalanced,
                cond,
                body,
            ).index.0 == if_back(g, unbalanced, cond, body).module.registers.len()
        },
    decreases body, 2int,
{
    let inner = if_inner(g);
    let end = if_end(g);
    let s0 = if_blocks(g);
    let s1 = if_tested(g, cond);
    let s2 = if_split(g, unbalanced, cond);
    let s3 = if_body(g, unbalanced, cond);
    let s4 = if_done(g, unbalanced, cond, body);
    let s5 = if_back(g, unbalanced, cond, body);
    let s6 = if_out(g, unbalanced, cond, body);
    let r = g.after_if(unbalanced, cond, body);
    let inside = limit + magnitude(cond as int);
    let wide = inside + span_list(body);
    lemma_after_if(g, unbalanced, cond, body);
    lemma_span_list_positive(body);
    lemma_bounded_wider(g, limit, inside);
    lemma_if_front(g, unbalanced, cond, inside);
    lemma_list_structure(s3, body, inside);
    lemma_jumped_straight(s4, end, unbalanced, wide);
    assert(end.0 < s5.module.blocks.len());
    lemma_entered(s5, end, unbalanced);
    assert(known(r)) by {
        assert forall|k: int| 0 <= k < r.indices.len() implies (#[trigger] r.indices[k]).register.0
            < r.module.registers.len() by {
            assert(s2.indices[k].register.0 < s2.module.registers.len());
        }
    }
    if fits(r.module) {
        let n = g.module.blocks.len() as int;
        assert(fits(s4.module));
        assert(fits(s3.module));
        assert(onward(s3, s4));
        assert(s4.module.blocks[n + 1] == s3.module.blocks[n + 1]);
        assert(s5.module.blocks[n + 1] == s4.module.blocks[n + 1]);
        assert(earlier(s5, s6));
        lemma_earlier_chain(g, s0, s1);
        lemma_earlier_chain(g, s1, s2);
        lemma_earlier_chain(g, s2, s3);
        lemma_earlier_chain(g, s3, s4);
        lemma_earlier_chain(g, s4, s5);
        lemma_earlier_chain(g, s5, s6);
        assert(earlier(g, r));
        if unbalanced {
            assert(s6.module.blocks[n + 1].parameters =~= seq![s6.index]);
        }
        assert forall|b: int| 0 <= b < g.module.blocks.len() && b != g.block.0 implies #[trigger] r.module.blocks[b]
            == g.module.blocks[b] by {
            assert(s3.module.blocks[b] == g.module.blocks[b]);
            assert(s4.module.blocks[b] == s3.module.blocks[b]);
            assert(s5.module.blocks[b] == s4.module.blocks[b]);
            assert(s6.module.blocks[b] == s5.module.blocks[b]);
        }
    }
}

/// How the lowering of an instruction goes on.
pub proof fn lemma_instr_structure(g: GenState, i: Instr, limit: int)
    requires
        placed(g),
        known(g),
        bounded(g, limit),
        0 <= limit,
        limit + span(i) <= span_limit(),
        lowerable_instr(i),
    ensures
        grown(g, g.after(i)),
        bounded(g.after(i), limit + span(i)),
        !i.moves_pointer() ==> g.after(i).index == g.index,
        fits(g.after(i).module) ==> onward(g, g.after(i)),
    decreases i, 0int,
{
    match i {
        Instr::Loop(balanced, cond, body) => {
            lemma_lowerable_loop(balanced, cond, body);
            lemma_span_list_positive(body);
            lemma_loop_structure(g, !balanced, cond as isize, body, limit);
            lemma_bounded_wider(g.after(i), limit, limit + span(i));
        },
        Instr::If(balanced, cond, body) => {
            lemma_lowerable_if(balanced, cond, body);
            lemma_span_list_positive(body);
            lemma_if_structure(g, !balanced, cond as isize, body, limit);
            lemma_bounded_wider(g.after(i), limit + magnitude(cond), limit + span(i));
        },
        _ => {
            lemma_simple_onward(g, i, limit);
            if !i.moves_pointer() {
                lemma_simple_index(g, i);
            }
        },
    }
}

/// How the lowering of a list of instructions goes on.
pub proof fn lemma_list_structure(g: GenState, s: Seq<Instr>, limit: int)
    requires
        placed(g),
        known(g),
        bounded(g, limit),
        0 <= limit,
        limit + span_list(s) <= span_limit(),
        lowerable(s),
    ensures
        grown(g, g.after_list(s)),
        bounded(g.after_list(s), limit + span_list(s)),
        still(s) ==> g.after_list(s).index == g.index,
        fits(g.after_list(s).module) ==> onward(g, g.after_list(s)),
    decreases s, 1int,
{
    if s.len() > 0 {
        let mid = g.after_list(s.drop_last());
        lemma_lowerable_parts(s);
        lemma_span_list_positive(s.drop_last());
        lemma_span_positive(s.last());
        lemma_list_structure(g, s.drop_last(), limit);
        lemma_instr_structure(mid, s.last(), limit + span_list(s.drop_last()));
        if fits(g.after_list(s).module) {
            lemma_onward_chain(g, mid, g.after_list(s));
        }
    } else {
        lemma_onward_same(g);
    }
}

/// Writing back cached cells keeps the block that the module starts in.
pub proof fn lemma_spilled_entry(g: GenState, n: int)
    ensures
        g.spilled_upto(n).module.entry == g.module.entry,
    decreases n,
{
    if n > 0 {
        lemma_spilled_entry(g, n - 1);
    }
}

/// The lowering of an instruction keeps the block that the module starts
/// in.
pub proof fn lemma_after_entry(g: GenState, i: Instr)
    ensures
        g.after(i).module.entry == g.module.entry,
    decreases i, 0int,
{
    match i {
        Instr::Loop(balanced, cond, body) => {
            let unbalanced = !balanced;
            let c = cond as isize;
            let s0 = loop_blocks(g);
            let s3 = loop_tested(g, unbalanced, c);
            let s5 = loop_body(g, unbalanced, c);
            let s6 = loop_done(g, unbalanced, c, body);
            lemma_after_loop(g, unbalanced, c, body);
            lemma_spilled_entry(s0, s0.cells.len() as int);
            lemma_spilled_entry(s3, s3.cells.len() as int);
            lemma_list_entry(s5, body);
            lemma_spilled_entry(s6, s6.cells.len() as int);
        },
        Instr::If(balanced, cond, body) => {
            let unbalanced = !balanced;
            let c = cond as isize;
            let s1 = if_tested(g, c);
            let s3 = if_body(g, unbalanced, c);
            let s4 = if_done(g, unbalanced, c, body);
            lemma_after_if(g, unbalanced, c, body);
            lemma_spilled_entry(s1, s1.cells.len() as int);
            lemma_list_entry(s3, body);
            lemma_spilled_entry(s4, s4.cells.len() as int);
        },
        Instr::Modify(offset, amount) => {},
        Instr::Move(amount) => {},
        Instr::Output(cell) => {},
        Instr::Input(cell) => {},
        Instr::SetCell(cell, val) => {},
        Instr::AddMultiple { target, base, factor } => {},
        Instr::BoundsCheck { start, length } => {},
    }
}

/// The lowering of a list keeps the block that the module starts in.
pub proof fn lemma_list_entry(g: GenState, s: Seq<Instr>)
    ensures
        g.after_list(s).module.entry == g.module.entry,
    decreases s, 1int,
{
    if s.len() > 0 {
        lemma_list_entry(g, s.drop_last());
        lemma_after_entry(g.after_list(s.drop_last()), s.last());
    }
}

/// The module that a program is lowered to starts in its first block.
pub proof fn lemma_lowered_entry(program: Seq<Instr>)
    ensures
        lowered(program).entry == Some(BlockID(0)),
{
    let empty = ModuleView { entry: None, blocks: Seq::empty(), registers: Seq::empty() };
    lemma_list_entry(GenState::initial(empty), program);
}

} // verus!
