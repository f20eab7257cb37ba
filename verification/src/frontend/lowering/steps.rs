use vstd::prelude::*;
use crate::frontend::code_gen::{
    cached, edge, lemma_position_in_range, position, CacheEntry, GenState,
};
use crate::frontend::expr_tree::{representable_instr, Instr};
use crate::frontend::lowering::relation::{
    address, at, carried, cell_cached, flushed, handed, holds, index_cached, known, landed,
    lemma_at_step, lemma_carried_chain, lemma_cell_pushed, lemma_cell_put, lemma_define_earlier,
    lemma_define_step, lemma_earlier_within, lemma_emit_earlier, lemma_holds_caches,
    lemma_holds_skip, lemma_holds_streams, lemma_index_pushed, lemma_position_none, lemma_run_add,
    lemma_run_one, lemma_wrap64_small, lemma_wrap64_sum, lemma_wrap8_product, lemma_wrap8_sum,
    not_pending, stored, takes_index, within, written_to, wrote,
};
use crate::frontend::lowering::structure::{
    bounded, lemma_bounded_wider, lemma_cell_index_straight, lemma_cell_straight,
    lemma_define_straight, lemma_emit_straight, lemma_left_straight, lemma_move_onward,
    lemma_spilled_upto_straight, lemma_straight_chain, lemma_tested_straight,
    lemma_with_cell_straight, span, span_limit,
};
use crate::frontend::semantics::{Reached, State};
use crate::ir::ModuleView;
use crate::ir::block::BlockID;
use crate::ir::exec::{
    bound, const_value, eval_args, eval_leaf, smaller, wrap64, wrap8, Fault, Machine, Status, Value,
};
use crate::ir::instruction::{BinaryOp, ConstInt, Expr, LeafExpr, Op, TestOp};
use crate::ir::register::RegisterID;
use crate::ir::types::Type;

verus! {

/// The machine runs a binary operation that the lowering appends.
pub proof fn lemma_binary_step(
    g: GenState,
    c: Reached,
    ms: Machine,
    big: ModuleView,
    done: int,
    op: BinaryOp,
    a: LeafExpr,
    b: LeafExpr,
    x: Value,
    y: Value,
)
    requires
        at(g, ms, big),
        holds(g, c, ms, done),
        within(big, g.binary(op, a, b).0),
        eval_leaf(ms.registers, a) == Ok::<Value, Fault>(x),
        eval_leaf(ms.registers, b) == Ok::<Value, Fault>(y),
        Value::binary_defined(x, y, op),
    ensures
        carried(g, ms, g.binary(op, a, b).0, c, ms.step(big), big, done),
        ms.run(big, 1) == ms.step(big),
        ms.step(big) == wrote(ms, g.module.registers.len() as int, Value::binary(x, y, op)),
        g.binary(op, a, b).1.0 == g.module.registers.len(),
        g.module.registers.len() < ms.registers.len(),
{
    let target = g.module.next_register();
    let t = a.width(g.module);
    let instruction = Op::Assign(target, Expr::Binary(a, op, b));
    lemma_define_earlier(g, t, instruction);
    assert(g.module.registers.len() < big.registers.len());
    assert(target.0 == g.module.registers.len());
    lemma_define_step(g, c, ms, big, t, instruction, Value::binary(x, y, op), done);
}

/// The machine loads a cell into a new register.
pub proof fn lemma_load_step(
    g: GenState,
    c: Reached,
    ms: Machine,
    big: ModuleView,
    index: RegisterID,
    a: int,
)
    requires
        at(g, ms, big),
        holds(g, c, ms, 0),
        within(big, g.load(LeafExpr::Register(index)).0),
        index.0 < ms.registers.len(),
        0 <= a < c.reach,
        ms.registers[index.0 as int] == Value::I64(wrap64(a)),
    ensures
        carried(g, ms, g.load(LeafExpr::Register(index)).0, c, ms.step(big), big, 0),
        ms.run(big, 1) == ms.step(big),
        ms.step(big) == wrote(ms, g.module.registers.len() as int, Value::I8(ms.cells[a])),
        g.load(LeafExpr::Register(index)).1.0 == g.module.registers.len(),
        g.module.registers.len() < ms.registers.len(),
{
    let target = g.module.next_register();
    let instruction = Op::LoadCell(target, LeafExpr::Register(index));
    lemma_define_earlier(g, Type::I8, instruction);
    assert(g.module.registers.len() < big.registers.len());
    assert(target.0 == g.module.registers.len());
    lemma_wrap64_small(a);
    lemma_define_step(g, c, ms, big, Type::I8, instruction, Value::I8(ms.cells[a]), 0);
}

/// The machine writes a constant into a new register.
pub proof fn lemma_constant_step(g: GenState, c: Reached, ms: Machine, big: ModuleView, k: ConstInt)
    requires
        at(g, ms, big),
        holds(g, c, ms, 0),
        within(big, g.constant(k).0),
    ensures
        carried(g, ms, g.constant(k).0, c, ms.step(big), big, 0),
        ms.run(big, 1) == ms.step(big),
        ms.step(big) == wrote(ms, g.module.registers.len() as int, const_value(k)),
        g.constant(k).1.0 == g.module.registers.len(),
        g.module.registers.len() < ms.registers.len(),
{
    let target = g.module.next_register();
    let instruction = Op::Assign(target, Expr::Leaf(LeafExpr::Int(k)));
    lemma_define_earlier(g, k.width(), instruction);
    assert(g.module.registers.len() < big.registers.len());
    assert(target.0 == g.module.registers.len());
    lemma_define_step(g, c, ms, big, k.width(), instruction, const_value(k), 0);
}

/// The machine tests a byte against zero.
pub proof fn lemma_nonzero_step(
    g: GenState,
    c: Reached,
    ms: Machine,
    big: ModuleView,
    value: RegisterID,
    v: u8,
)
    requires
        at(g, ms, big),
        holds(g, c, ms, 0),
        within(big, g.nonzero(value).0),
        value.0 < ms.registers.len(),
        ms.registers[value.0 as int] == Value::I8(v),
    ensures
        carried(g, ms, g.nonzero(value).0, c, ms.step(big), big, 0),
        ms.run(big, 1) == ms.step(big),
        ms.step(big) == wrote(ms, g.module.registers.len() as int, Value::I1(v != 0)),
        g.nonzero(value).1.0 == g.module.registers.len(),
        g.module.registers.len() < ms.registers.len(),
{
    let target = g.module.next_register();
    let instruction = Op::Assign(
        target,
        Expr::Test(LeafExpr::Register(value), TestOp::NotEqual, LeafExpr::Int(ConstInt::I8(0))),
    );
    lemma_define_earlier(g, Type::I1, instruction);
    assert(g.module.registers.len() < big.registers.len());
    assert(target.0 == g.module.registers.len());
    assert(wrap8(0) == 0);
    lemma_define_step(g, c, ms, big, Type::I1, instruction, Value::I1(v != 0), 0);
}

/// The machine computes the tape index of a cell, where the cache does not
/// hold it: the register that the lowering gives holds the address.
pub proof fn lemma_cell_index(
    g: GenState,
    c: Reached,
    ms: Machine,
    big: ModuleView,
    offset: isize,
    done: int,
) -> (n: nat)
    requires
        at(g, ms, big),
        holds(g, c, ms, done),
        within(big, g.cell_index(offset).0),
    ensures
        carried(g, ms, g.cell_index(offset).0, c, ms.run(big, n), big, done),
        ms.run(big, n).cells == ms.cells,
        g.cell_index(offset).0.cells == g.cells,
        g.cell_index(offset).0.index == g.index,
        g.cell_index(offset).0.block == g.block,
        index_cached(
            CacheEntry { offset, register: g.cell_index(offset).1, written: false },
            c,
            ms.run(big, n),
        ),
{
    match cached(g.indices, offset) {
        Some(r) => {
            lemma_position_in_range(g.indices, offset, 0);
            let k = position(g.indices, offset, 0).unwrap();
            assert(index_cached(g.indices[k], c, ms));
            assert(ms.run(big, 0) == ms);
            0
        },
        None => {
            let a = LeafExpr::Register(g.index);
            let b = LeafExpr::Int(ConstInt::I64(offset as i64));
            let (s, r) = g.binary(BinaryOp::Add, a, b);
            let e = CacheEntry { offset, register: r, written: false };
            let next = GenState { indices: s.indices.push(e), ..s };
            assert(next == g.cell_index(offset).0);
            assert(within(big, s));
            let x = Value::I64(wrap64(c.state.pointer));
            let y = Value::I64(wrap64(offset as int));
            lemma_binary_step(g, c, ms, big, done, BinaryOp::Add, a, b, x, y);
            let after = ms.step(big);
            lemma_wrap64_sum(c.state.pointer, offset as int);
            assert(index_cached(e, c, after));
            lemma_index_pushed(s, c, after, done, e);
            assert(known(next)) by {
                assert forall|k: int| 0 <= k < next.indices.len() implies (
                #[trigger] next.indices[k]).register.0 < next.module.registers.len() by {
                    if k < s.indices.len() {
                        assert(next.indices[k] == s.indices[k]);
                    }
                }
            }
            1
        },
    }
}

/// The machine brings a cell into a register, where the cache does not
/// hold it: the register that the lowering gives holds the value of the
/// cell.
pub proof fn lemma_cell(
    g: GenState,
    c: Reached,
    ms: Machine,
    big: ModuleView,
    offset: isize,
    limit: int,
) -> (n: nat)
    requires
        at(g, ms, big),
        holds(g, c, ms, 0),
        within(big, g.cell(offset).0),
        c.reaches(offset as int),
        bounded(g, limit),
        -limit <= offset <= limit,
    ensures
        carried(g, ms, g.cell(offset).0, c, ms.run(big, n), big, 0),
        ms.run(big, n).cells == ms.cells,
        g.cell(offset).1.0 < ms.registers.len(),
        ms.run(big, n).registers[g.cell(offset).1.0 as int] == Value::I8(
            c.state.read(offset as int),
        ),
{
    match cached(g.cells, offset) {
        Some(r) => {
            lemma_position_in_range(g.cells, offset, 0);
            let k = position(g.cells, offset, 0).unwrap();
            assert(cell_cached(g.cells[k], c, ms, stored(g, k, 0)));
            assert(ms.run(big, 0) == ms);
            0
        },
        None => {
            let (s1, index) = g.cell_index(offset);
            let (s2, value) = s1.load(LeafExpr::Register(index));
            let e = CacheEntry { offset, register: value, written: false };
            let next = GenState { cells: s2.cells.push(e), ..s2 };
            assert(next == g.cell(offset).0);
            lemma_cell_index_straight(g, offset, limit);
            lemma_define_straight(
                s1,
                Type::I8,
                Op::LoadCell(s1.module.next_register(), LeafExpr::Register(index)),
            );
            assert(within(big, s2));
            lemma_earlier_within(s1, s2, big);
            let n1 = lemma_cell_index(g, c, ms, big, offset, 0);
            let ms1 = ms.run(big, n1);
            let here = address(c, offset);
            lemma_position_none(g.cells, offset, 0);
            assert(not_pending(s1, c, here, 0));
            lemma_load_step(s1, c, ms1, big, index, here);
            let ms2 = ms1.step(big);
            lemma_run_add(big, ms, n1, 1);
            assert(cell_cached(e, c, ms2, true));
            lemma_cell_pushed(s2, c, ms2, e);
            lemma_cell_straight(g, offset, limit);
            lemma_carried_chain(g, ms, s1, ms1, s2, c, ms2, big, 0);
            n1 + 1
        },
    }
}

/// A cell is given the value of a register: the machine has nothing to run.
pub proof fn lemma_with_cell_register(
    g: GenState,
    c: Reached,
    ms: Machine,
    big: ModuleView,
    offset: isize,
    r: RegisterID,
    v: u8,
    limit: int,
)
    requires
        at(g, ms, big),
        holds(g, c, ms, 0),
        r.0 < g.module.registers.len(),
        ms.registers[r.0 as int] == Value::I8(v),
        c.reaches(offset as int),
        bounded(g, limit),
        -limit <= offset <= limit,
    ensures
        carried(
            g,
            ms,
            g.with_cell(offset, LeafExpr::Register(r)),
            written_to(c, offset as int, v),
            ms,
            big,
            0,
        ),
{
    lemma_with_cell_straight(g, offset, LeafExpr::Register(r), limit);
    lemma_cell_put(g, c, ms, offset, r, v);
}

/// A cell is given a constant: the machine writes it to a new register.
pub proof fn lemma_with_cell_constant(
    g: GenState,
    c: Reached,
    ms: Machine,
    big: ModuleView,
    offset: isize,
    v: u8,
    limit: int,
)
    requires
        at(g, ms, big),
        holds(g, c, ms, 0),
        within(big, g.with_cell(offset, LeafExpr::Int(ConstInt::U8(v)))),
        c.reaches(offset as int),
        bounded(g, limit),
        -limit <= offset <= limit,
    ensures
        carried(
            g,
            ms,
            g.with_cell(offset, LeafExpr::Int(ConstInt::U8(v))),
            written_to(c, offset as int, v),
            ms.run(big, 1),
            big,
            0,
        ),
{
    let k = ConstInt::U8(v);
    let (s, target) = g.constant(k);
    lemma_with_cell_straight(g, offset, LeafExpr::Int(k), limit);
    assert(within(big, s));
    lemma_constant_step(g, c, ms, big, k);
    let after = ms.step(big);
    lemma_cell_put(s, c, after, offset, target, v);
}

/// The state of the tape machine with a byte more written out.
pub open spec fn put_out(c: Reached, v: u8) -> Reached {
    Reached { state: State { output: c.state.output.push(v), ..c.state }, ..c }
}

/// The machine writes out the byte of a register.
pub proof fn lemma_output_step(
    g: GenState,
    c: Reached,
    ms: Machine,
    big: ModuleView,
    value: RegisterID,
    v: u8,
)
    requires
        at(g, ms, big),
        holds(g, c, ms, 0),
        within(big, g.emit(Op::Output(LeafExpr::Register(value)))),
        value.0 < ms.registers.len(),
        ms.registers[value.0 as int] == Value::I8(v),
    ensures
        carried(
            g,
            ms,
            g.emit(Op::Output(LeafExpr::Register(value))),
            put_out(c, v),
            ms.run(big, 1),
            big,
            0,
        ),
{
    let op = Op::Output(LeafExpr::Register(value));
    let next = g.emit(op);
    let after = Machine { output: ms.output.push(v), ..ms }.advanced();
    lemma_emit_straight(g, op);
    lemma_at_step(g, next, ms, big, op, after);
    lemma_holds_streams(g, c, ms, put_out(c, v), after, 0);
    lemma_holds_caches(g, next, put_out(c, v), after, 0);
}

/// The state of the tape machine after a read, without the write to the
/// cell.
pub open spec fn taken_in(c: Reached) -> Reached {
    if c.state.input.len() > 0 {
        Reached { state: State { input: c.state.input.skip(1), ..c.state }, ..c }
    } else {
        c
    }
}

/// The byte that a read gives: the next of the input, or the default.
pub open spec fn byte_in(c: Reached, default: u8) -> u8 {
    if c.state.input.len() > 0 {
        c.state.input[0]
    } else {
        default
    }
}

/// The machine reads a byte into a new register.
pub proof fn lemma_input_step(
    g: GenState,
    c: Reached,
    ms: Machine,
    big: ModuleView,
    default: RegisterID,
    d: u8,
)
    requires
        at(g, ms, big),
        holds(g, c, ms, 0),
        within(big, g.read(LeafExpr::Register(default)).0),
        default.0 < ms.registers.len(),
        ms.registers[default.0 as int] == Value::I8(d),
    ensures
        carried(g, ms, g.read(LeafExpr::Register(default)).0, taken_in(c), ms.run(big, 1), big, 0),
        g.read(LeafExpr::Register(default)).1.0 == g.module.registers.len(),
        g.module.registers.len() < ms.registers.len(),
        ms.run(big, 1).registers[g.module.registers.len() as int] == Value::I8(byte_in(c, d)),
        ms.run(big, 1).cells == ms.cells,
{
    let target = g.module.next_register();
    let op = Op::Input(target, LeafExpr::Register(default));
    let next = g.define(Type::I8, op);
    lemma_define_straight(g, Type::I8, op);
    assert(g.module.registers.len() < big.registers.len());
    assert(target.0 == g.module.registers.len());
    let after = Machine {
        registers: ms.registers.update(target.0 as int, Value::I8(byte_in(c, d))),
        input: taken_in(c).state.input,
        ..ms
    }.advanced();
    lemma_at_step(g, next, ms, big, op, after);
    lemma_holds_streams(g, c, ms, taken_in(c), after, 0);
    lemma_holds_caches(g, next, taken_in(c), after, 0);
}

/// The state of the tape machine with the tape made to reach to `end`.
pub open spec fn reaching(c: Reached, end: int) -> Reached {
    Reached {
        reach: if end > c.reach {
            end
        } else {
            c.reach
        },
        ..c
    }
}

/// The machine makes the tape reach to the end that a register holds.
pub proof fn lemma_check_step(
    g: GenState,
    c: Reached,
    ms: Machine,
    big: ModuleView,
    lo: RegisterID,
    hi: RegisterID,
    end: int,
)
    requires
        at(g, ms, big),
        holds(g, c, ms, 0),
        within(big, g.emit(Op::BoundsCheck(LeafExpr::Register(lo), LeafExpr::Register(hi)))),
        hi.0 < ms.registers.len(),
        0 <= end <= usize::MAX,
        ms.registers[hi.0 as int] == Value::I64(wrap64(end)),
    ensures
        carried(
            g,
            ms,
            g.emit(Op::BoundsCheck(LeafExpr::Register(lo), LeafExpr::Register(hi))),
            reaching(c, end),
            ms.run(big, 1),
            big,
            0,
        ),
{
    let op = Op::BoundsCheck(LeafExpr::Register(lo), LeafExpr::Register(hi));
    let next = g.emit(op);
    let c2 = reaching(c, end);
    lemma_wrap64_small(end);
    let after = if end <= ms.cells.len() {
        ms.advanced()
    } else {
        Machine {
            cells: ms.cells + Seq::new((end - ms.cells.len()) as nat, |k: int| 0u8),
            ..ms
        }.advanced()
    };
    lemma_emit_straight(g, op);
    lemma_at_step(g, next, ms, big, op, after);
    assert forall|k: int| 0 <= k < next.indices.len() implies index_cached(
        #[trigger] next.indices[k],
        c2,
        after,
    ) by {
        assert(index_cached(g.indices[k], c, ms));
    }
    assert forall|k: int| 0 <= k < next.cells.len() implies cell_cached(
        #[trigger] next.cells[k],
        c2,
        after,
        stored(next, k, 0),
    ) by {
        assert(cell_cached(g.cells[k], c, ms, stored(g, k, 0)));
    }
    assert forall|a: int| 0 <= a < c2.reach && not_pending(next, c2, a, 0) implies #[trigger] after.cells[a]
        == c2.state.tape[a] by {
        if a < c.reach {
            assert forall|k: int|
                0 <= k < g.cells.len() && address(c, (#[trigger] g.cells[k]).offset)
                    == a implies stored(g, k, 0) by {
                assert(next.cells[k] == g.cells[k]);
                assert(stored(next, k, 0));
            }
            assert(not_pending(g, c, a, 0));
            assert(after.cells[a] == ms.cells[a]);
        } else {
            assert(c.state.tape[a] == 0);
        }
    }
}

/// What the lemmas on single instructions start from: the machine stands
/// where the lowering stands and holds what the tape machine holds, the
/// module holds what the instruction is lowered to, and the offsets stay
/// within the limit.
pub open spec fn ready(
    g: GenState,
    c: Reached,
    ms: Machine,
    big: ModuleView,
    i: Instr,
    limit: int,
) -> bool {
    &&& at(g, ms, big)
    &&& holds(g, c, ms, 0)
    &&& within(big, g.after(i))
    &&& bounded(g, limit)
    &&& 0 <= limit
    &&& limit + span(i) <= span_limit()
}

proof fn lemma_modify(
    g: GenState,
    c: Reached,
    ms: Machine,
    big: ModuleView,
    offset: int,
    amount: i8,
    limit: int,
) -> (n: nat)
    requires
        ready(g, c, ms, big, Instr::Modify(offset, amount), limit),
        c.reaches(offset),
    ensures
        carried(
            g,
            ms,
            g.after(Instr::Modify(offset, amount)),
            c.apply(Instr::Modify(offset, amount)),
            ms.run(big, n),
            big,
            0,
        ),
{
    let i = Instr::Modify(offset, amount);
    let wide = limit + span(i);
    let o = offset as isize;
    let (s1, old) = g.cell(o);
    let a = LeafExpr::Register(old);
    let b = LeafExpr::Int(ConstInt::I8(amount));
    let (s2, new) = s1.binary(BinaryOp::Add, a, b);
    let s3 = s2.with_cell(o, LeafExpr::Register(new));
    assert(s3 == g.after(i));
    lemma_bounded_wider(g, limit, wide);
    lemma_cell_straight(g, o, wide);
    lemma_define_straight(
        s1,
        a.width(s1.module),
        Op::Assign(s1.module.next_register(), Expr::Binary(a, BinaryOp::Add, b)),
    );
    lemma_with_cell_straight(s2, o, LeafExpr::Register(new), wide);
    lemma_straight_chain(s1, s2, s3);
    lemma_earlier_within(s1, s3, big);
    let n1 = lemma_cell(g, c, ms, big, o, wide);
    let ms1 = ms.run(big, n1);
    let x = c.state.read(offset);
    lemma_sum_to_cell(s1, c, ms1, big, o, old, b, x, wrap8(amount as int), wide);
    lemma_run_add(big, ms, n1, 1);
    lemma_wrap8_sum(x as int, amount as int);
    let c2 = written_to(c, offset, wrap8(x + amount));
    lemma_carried_chain(g, ms, s1, ms1, s3, c2, ms1.run(big, 1), big, 0);
    n1 + 1
}

proof fn lemma_output(g: GenState, c: Reached, ms: Machine, big: ModuleView, cell: int, limit: int) -> (n:
    nat)
    requires
        ready(g, c, ms, big, Instr::Output(cell), limit),
        c.reaches(cell),
    ensures
        carried(
            g,
            ms,
            g.after(Instr::Output(cell)),
            c.apply(Instr::Output(cell)),
            ms.run(big, n),
            big,
            0,
        ),
{
    let i = Instr::Output(cell);
    let wide = limit + span(i);
    let o = cell as isize;
    let (s1, val) = g.cell(o);
    let s2 = s1.emit(Op::Output(LeafExpr::Register(val)));
    lemma_bounded_wider(g, limit, wide);
    lemma_cell_straight(g, o, wide);
    lemma_emit_straight(s1, Op::Output(LeafExpr::Register(val)));
    lemma_earlier_within(s1, s2, big);
    let n1 = lemma_cell(g, c, ms, big, o, wide);
    let ms1 = ms.run(big, n1);
    lemma_output_step(s1, c, ms1, big, val, c.state.read(cell));
    lemma_run_add(big, ms, n1, 1);
    let ms2 = ms1.run(big, 1);
    lemma_carried_chain(g, ms, s1, ms1, s2, put_out(c, c.state.read(cell)), ms2, big, 0);
    n1 + 1
}

proof fn lemma_input(g: GenState, c: Reached, ms: Machine, big: ModuleView, cell: int, limit: int) -> (n:
    nat)
    requires
        ready(g, c, ms, big, Instr::Input(cell), limit),
        c.reaches(cell),
    ensures
        carried(
            g,
            ms,
            g.after(Instr::Input(cell)),
            c.apply(Instr::Input(cell)),
            ms.run(big, n),
            big,
            0,
        ),
{
    let i = Instr::Input(cell);
    let wide = limit + span(i);
    let o = cell as isize;
    let (s1, old) = g.cell(o);
    let (s2, read) = s1.read(LeafExpr::Register(old));
    let s3 = s2.with_cell(o, LeafExpr::Register(read));
    lemma_bounded_wider(g, limit, wide);
    lemma_cell_straight(g, o, wide);
    lemma_define_straight(
        s1,
        Type::I8,
        Op::Input(s1.module.next_register(), LeafExpr::Register(old)),
    );
    lemma_with_cell_straight(s2, o, LeafExpr::Register(read), wide);
    lemma_straight_chain(s1, s2, s3);
    lemma_earlier_within(s2, s3, big);
    lemma_earlier_within(s1, s3, big);
    let n1 = lemma_cell(g, c, ms, big, o, wide);
    let ms1 = ms.run(big, n1);
    let d = c.state.read(cell);
    lemma_input_step(s1, c, ms1, big, old, d);
    let ms2 = ms1.run(big, 1);
    lemma_run_add(big, ms, n1, 1);
    let c1 = taken_in(c);
    let v = byte_in(c, d);
    lemma_with_cell_register(s2, c1, ms2, big, o, read, v, wide);
    let c2 = written_to(c1, cell, v);
    if c.state.input.len() == 0 {
        assert(c.state.tape.insert(c.state.pointer + cell, d) =~= c.state.tape);
    }
    assert(c2 == c.apply(i));
    lemma_carried_chain(s1, ms1, s2, ms2, s3, c2, ms2, big, 0);
    lemma_carried_chain(g, ms, s1, ms1, s3, c2, ms2, big, 0);
    n1 + 1
}

proof fn lemma_set_cell(
    g: GenState,
    c: Reached,
    ms: Machine,
    big: ModuleView,
    cell: int,
    v: u8,
    limit: int,
) -> (n: nat)
    requires
        ready(g, c, ms, big, Instr::SetCell(cell, v), limit),
        c.reaches(cell),
    ensures
        carried(
            g,
            ms,
            g.after(Instr::SetCell(cell, v)),
            c.apply(Instr::SetCell(cell, v)),
            ms.run(big, n),
            big,
            0,
        ),
{
    let wide = limit + span(Instr::SetCell(cell, v));
    lemma_bounded_wider(g, limit, wide);
    lemma_with_cell_constant(g, c, ms, big, cell as isize, v, wide);
    1
}

/// The machine adds an operand to a register and the lowering gives the
/// sum to a cell.
proof fn lemma_sum_to_cell(
    g: GenState,
    c: Reached,
    ms: Machine,
    big: ModuleView,
    offset: isize,
    x: RegisterID,
    y: LeafExpr,
    xv: u8,
    yv: u8,
    limit: int,
)
    requires
        at(g, ms, big),
        holds(g, c, ms, 0),
        within(
            big,
            g.binary(BinaryOp::Add, LeafExpr::Register(x), y).0.with_cell(
                offset,
                LeafExpr::Register(g.binary(BinaryOp::Add, LeafExpr::Register(x), y).1),
            ),
        ),
        bounded(g, limit),
        -limit <= offset <= limit,
        c.reaches(offset as int),
        eval_leaf(ms.registers, LeafExpr::Register(x)) == Ok::<Value, Fault>(Value::I8(xv)),
        eval_leaf(ms.registers, y) == Ok::<Value, Fault>(Value::I8(yv)),
    ensures
        carried(
            g,
            ms,
            g.binary(BinaryOp::Add, LeafExpr::Register(x), y).0.with_cell(
                offset,
                LeafExpr::Register(g.binary(BinaryOp::Add, LeafExpr::Register(x), y).1),
            ),
            written_to(c, offset as int, wrap8(xv + yv)),
            ms.run(big, 1),
            big,
            0,
        ),
{
    let a = LeafExpr::Register(x);
    let (s1, total) = g.binary(BinaryOp::Add, a, y);
    let s2 = s1.with_cell(offset, LeafExpr::Register(total));
    lemma_define_straight(
        g,
        a.width(g.module),
        Op::Assign(g.module.next_register(), Expr::Binary(a, BinaryOp::Add, y)),
    );
    lemma_with_cell_straight(s1, offset, LeafExpr::Register(total), limit);
    lemma_earlier_within(s1, s2, big);
    lemma_binary_step(g, c, ms, big, 0, BinaryOp::Add, a, y, Value::I8(xv), Value::I8(yv));
    let ms1 = ms.step(big);
    let v = wrap8(xv + yv);
    lemma_with_cell_register(s1, c, ms1, big, offset, total, v, limit);
    lemma_carried_chain(g, ms, s1, ms1, s2, written_to(c, offset as int, v), ms1, big, 0);
}

/// The byte that an addition of a multiple gives.
proof fn lemma_multiple_sum(t: u8, f: u8, factor: i8)
    ensures
        wrap8(t + wrap8(f * wrap8(factor as int))) == wrap8(t + f * factor),
{
    lemma_wrap8_product(f as int, factor as int);
    lemma_wrap8_sum(t as int, f * factor);
    lemma_wrap8_sum(t as int, f * wrap8(factor as int));
}

/// The machine brings the two cells of an addition of a multiple into
/// registers and multiplies the one.
proof fn lemma_add_multiple_front(
    g: GenState,
    c: Reached,
    ms: Machine,
    big: ModuleView,
    target: isize,
    base: isize,
    factor: i8,
    limit: int,
) -> (n: nat)
    requires
        at(g, ms, big),
        holds(g, c, ms, 0),
        within(
            big,
            g.cell(target).0.cell(base).0.binary(
                BinaryOp::Mul,
                LeafExpr::Register(g.cell(target).0.cell(base).1),
                LeafExpr::Int(ConstInt::I8(factor)),
            ).0,
        ),
        bounded(g, limit),
        -limit <= target <= limit,
        -limit <= base <= limit,
        c.reaches(target as int),
        c.reaches(base as int),
    ensures
        carried(
            g,
            ms,
            g.cell(target).0.cell(base).0.binary(
                BinaryOp::Mul,
                LeafExpr::Register(g.cell(target).0.cell(base).1),
                LeafExpr::Int(ConstInt::I8(factor)),
            ).0,
            c,
            ms.run(big, n),
            big,
            0,
        ),
        bounded(
            g.cell(target).0.cell(base).0.binary(
                BinaryOp::Mul,
                LeafExpr::Register(g.cell(target).0.cell(base).1),
                LeafExpr::Int(ConstInt::I8(factor)),
            ).0,
            limit,
        ),
        eval_leaf(ms.run(big, n).registers, LeafExpr::Register(g.cell(target).1)) == Ok::<
            Value,
            Fault,
        >(Value::I8(c.state.read(target as int))),
        eval_leaf(
            ms.run(big, n).registers,
            LeafExpr::Register(
                g.cell(target).0.cell(base).0.binary(
                    BinaryOp::Mul,
                    LeafExpr::Register(g.cell(target).0.cell(base).1),
                    LeafExpr::Int(ConstInt::I8(factor)),
                ).1,
            ),
        ) == Ok::<Value, Fault>(
            Value::I8(wrap8(c.state.read(base as int) * wrap8(factor as int))),
        ),
{
    let (s1, target_val) = g.cell(target);
    let (s2, base_val) = s1.cell(base);
    let a = LeafExpr::Register(base_val);
    let b = LeafExpr::Int(ConstInt::I8(factor));
    let (s3, addend) = s2.binary(BinaryOp::Mul, a, b);
    lemma_cell_straight(g, target, limit);
    lemma_cell_straight(s1, base, limit);
    lemma_define_straight(
        s2,
        a.width(s2.module),
        Op::Assign(s2.module.next_register(), Expr::Binary(a, BinaryOp::Mul, b)),
    );
    lemma_earlier_within(s2, s3, big);
    lemma_earlier_within(s1, s2, big);
    let n1 = lemma_cell(g, c, ms, big, target, limit);
    let ms1 = ms.run(big, n1);
    let n2 = lemma_cell(s1, c, ms1, big, base, limit);
    let ms2 = ms1.run(big, n2);
    let t = c.state.read(target as int);
    let f = c.state.read(base as int);
    assert(ms2.registers[target_val.0 as int] == Value::I8(t));
    lemma_binary_step(
        s2,
        c,
        ms2,
        big,
        0,
        BinaryOp::Mul,
        a,
        b,
        Value::I8(f),
        Value::I8(wrap8(factor as int)),
    );
    let ms3 = ms2.step(big);
    lemma_run_add(big, ms, n1, n2);
    lemma_run_add(big, ms, n1 + n2, 1);
    lemma_carried_chain(s1, ms1, s2, ms2, s3, c, ms3, big, 0);
    lemma_carried_chain(g, ms, s1, ms1, s3, c, ms3, big, 0);
    n1 + n2 + 1
}

proof fn lemma_add_multiple(
    g: GenState,
    c: Reached,
    ms: Machine,
    big: ModuleView,
    target: int,
    base: int,
    factor: i8,
    limit: int,
) -> (n: nat)
    requires
        ready(g, c, ms, big, Instr::AddMultiple { target, base, factor }, limit),
        c.reaches(target),
        c.reaches(base),
    ensures
        carried(
            g,
            ms,
            g.after(Instr::AddMultiple { target, base, factor }),
            c.apply(Instr::AddMultiple { target, base, factor }),
            ms.run(big, n),
            big,
            0,
        ),
{
    let i = Instr::AddMultiple { target, base, factor };
    let wide = limit + span(i);
    let (s1, target_val) = g.cell(target as isize);
    let (s2, base_val) = s1.cell(base as isize);
    let (s3, addend) = s2.binary(
        BinaryOp::Mul,
        LeafExpr::Register(base_val),
        LeafExpr::Int(ConstInt::I8(factor)),
    );
    let x = LeafExpr::Register(target_val);
    let y = LeafExpr::Register(addend);
    let (s4, total) = s3.binary(BinaryOp::Add, x, y);
    let s5 = s4.with_cell(target as isize, LeafExpr::Register(total));
    assert(s5 == g.after(i));
    lemma_bounded_wider(g, limit, wide);
    lemma_cell_straight(g, target as isize, wide);
    lemma_cell_straight(s1, base as isize, wide);
    lemma_define_straight(
        s2,
        LeafExpr::Register(base_val).width(s2.module),
        Op::Assign(
            s2.module.next_register(),
            Expr::Binary(
                LeafExpr::Register(base_val),
                BinaryOp::Mul,
                LeafExpr::Int(ConstInt::I8(factor)),
            ),
        ),
    );
    lemma_define_straight(
        s3,
        x.width(s3.module),
        Op::Assign(s3.module.next_register(), Expr::Binary(x, BinaryOp::Add, y)),
    );
    lemma_with_cell_straight(s4, target as isize, LeafExpr::Register(total), wide);
    lemma_earlier_within(s4, s5, big);
    lemma_earlier_within(s3, s4, big);
    let n1 = lemma_add_multiple_front(g, c, ms, big, target as isize, base as isize, factor, wide);
    let ms3 = ms.run(big, n1);
    let t = c.state.read(target);
    let f = c.state.read(base);
    let product = wrap8(f * wrap8(factor as int));
    lemma_sum_to_cell(s3, c, ms3, big, target as isize, target_val, y, t, product, wide);
    lemma_multiple_sum(t, f, factor);
    lemma_run_add(big, ms, n1, 1);
    let c2 = written_to(c, target, wrap8(t + f * factor));
    lemma_carried_chain(g, ms, s3, ms3, s5, c2, ms3.run(big, 1), big, 0);
    n1 + 1
}

proof fn lemma_bounds_check(
    g: GenState,
    c: Reached,
    ms: Machine,
    big: ModuleView,
    start: int,
    length: int,
    limit: int,
) -> (n: nat)
    requires
        ready(g, c, ms, big, Instr::BoundsCheck { start, length }, limit),
        representable_instr(Instr::BoundsCheck { start, length }),
        c.allows(Instr::BoundsCheck { start, length }),
    ensures
        carried(
            g,
            ms,
            g.after(Instr::BoundsCheck { start, length }),
            c.apply(Instr::BoundsCheck { start, length }),
            ms.run(big, n),
            big,
            0,
        ),
{
    let a = LeafExpr::Register(g.index);
    let b = LeafExpr::Int(ConstInt::I64(start as i64));
    let (s1, lo) = g.binary(BinaryOp::Add, a, b);
    let x = LeafExpr::Register(lo);
    let y = LeafExpr::Int(ConstInt::U64(length as u64));
    let (s2, hi) = s1.binary(BinaryOp::Add, x, y);
    let s3 = s2.emit(Op::BoundsCheck(x, LeafExpr::Register(hi)));
    lemma_define_straight(
        g,
        a.width(g.module),
        Op::Assign(g.module.next_register(), Expr::Binary(a, BinaryOp::Add, b)),
    );
    lemma_define_straight(
        s1,
        x.width(s1.module),
        Op::Assign(s1.module.next_register(), Expr::Binary(x, BinaryOp::Add, y)),
    );
    lemma_emit_straight(s2, Op::BoundsCheck(x, LeafExpr::Register(hi)));
    lemma_earlier_within(s2, s3, big);
    lemma_earlier_within(s1, s2, big);
    let p = c.state.pointer;
    lemma_binary_step(
        g,
        c,
        ms,
        big,
        0,
        BinaryOp::Add,
        a,
        b,
        Value::I64(wrap64(p)),
        Value::I64(wrap64(start)),
    );
    let ms1 = ms.step(big);
    lemma_wrap64_sum(p, start);
    lemma_binary_step(
        s1,
        c,
        ms1,
        big,
        0,
        BinaryOp::Add,
        x,
        y,
        Value::I64(wrap64(p + start)),
        Value::I64(length as u64),
    );
    let ms2 = ms1.step(big);
    lemma_wrap64_sum(p + start, length);
    assert(ms2.registers[hi.0 as int] == Value::I64(wrap64(p + start + length)));
    lemma_check_step(s2, c, ms2, big, lo, hi, p + start + length);
    let ms3 = ms2.run(big, 1);
    lemma_run_add(big, ms, 1, 1);
    lemma_run_add(big, ms, 2, 1);
    let c2 = reaching(c, p + start + length);
    lemma_carried_chain(s1, ms1, s2, ms2, s3, c2, ms3, big, 0);
    lemma_carried_chain(g, ms, s1, ms1, s3, c2, ms3, big, 0);
    3
}

proof fn lemma_move(g: GenState, c: Reached, ms: Machine, big: ModuleView, by: int, limit: int) -> (n:
    nat)
    requires
        ready(g, c, ms, big, Instr::Move(by), limit),
    ensures
        carried(g, ms, g.after(Instr::Move(by)), c.apply(Instr::Move(by)), ms.run(big, n), big, 0),
{
    let d = by as isize;
    let a = LeafExpr::Register(g.index);
    let b = LeafExpr::Int(ConstInt::I64(d as i64));
    let (s, r) = g.binary(BinaryOp::Add, a, b);
    let next = g.after_move(d);
    let c2 = c.apply(Instr::Move(by));
    lemma_move_onward(g, d, limit);
    assert(within(big, s));
    let p = c.state.pointer;
    lemma_binary_step(
        g,
        c,
        ms,
        big,
        0,
        BinaryOp::Add,
        a,
        b,
        Value::I64(wrap64(p)),
        Value::I64(wrap64(by)),
    );
    let after = ms.step(big);
    lemma_wrap64_sum(p, by);
    assert forall|k: int| 0 <= k < next.indices.len() implies index_cached(
        #[trigger] next.indices[k],
        c2,
        after,
    ) by {
        assert(index_cached(s.indices[k], c, after));
        assert(next.indices[k].offset == g.indices[k].offset - by);
    }
    assert forall|k: int| 0 <= k < next.cells.len() implies cell_cached(
        #[trigger] next.cells[k],
        c2,
        after,
        stored(next, k, 0),
    ) by {
        assert(cell_cached(s.cells[k], c, after, stored(s, k, 0)));
        assert(next.cells[k].offset == g.cells[k].offset - by);
    }
    assert forall|j: int, k: int| 0 <= j < k < next.cells.len() implies (
    #[trigger] next.cells[j]).offset != (#[trigger] next.cells[k]).offset by {
        assert(s.cells[j].offset != s.cells[k].offset);
        assert(next.cells[j].offset == g.cells[j].offset - by);
        assert(next.cells[k].offset == g.cells[k].offset - by);
    }
    assert forall|x: int| 0 <= x < c2.reach && not_pending(next, c2, x, 0) implies #[trigger] after.cells[x]
        == c2.state.tape[x] by {
        assert forall|k: int|
            0 <= k < s.cells.len() && address(c, (#[trigger] s.cells[k]).offset) == x implies stored(
            s,
            k,
            0,
        ) by {
            assert(next.cells[k].offset == g.cells[k].offset - by);
            assert(address(c2, next.cells[k].offset) == x);
            assert(stored(next, k, 0));
        }
        assert(not_pending(s, c, x, 0));
    }
    1
}

/// The machine runs what an instruction that is no block is lowered to,
/// and then holds what the tape machine holds after the instruction.
pub proof fn lemma_simple(
    g: GenState,
    c: Reached,
    ms: Machine,
    big: ModuleView,
    i: Instr,
    limit: int,
) -> (n: nat)
    requires
        ready(g, c, ms, big, i, limit),
        !i.is_block(),
        representable_instr(i),
        c.allows(i),
    ensures
        carried(g, ms, g.after(i), c.apply(i), ms.run(big, n), big, 0),
{
    match i {
        Instr::Modify(offset, amount) => lemma_modify(g, c, ms, big, offset, amount, limit),
        Instr::Move(by) => lemma_move(g, c, ms, big, by, limit),
        Instr::Output(cell) => lemma_output(g, c, ms, big, cell, limit),
        Instr::Input(cell) => lemma_input(g, c, ms, big, cell, limit),
        Instr::SetCell(cell, v) => lemma_set_cell(g, c, ms, big, cell, v, limit),
        Instr::AddMultiple { target, base, factor } => lemma_add_multiple(
            g,
            c,
            ms,
            big,
            target,
            base,
            factor,
            limit,
        ),
        Instr::BoundsCheck { start, length } => lemma_bounds_check(
            g,
            c,
            ms,
            big,
            start,
            length,
            limit,
        ),
        _ => 0,
    }
}

/// The machine tests a cell against zero.
pub proof fn lemma_tested(
    g: GenState,
    c: Reached,
    ms: Machine,
    big: ModuleView,
    cond: isize,
    limit: int,
) -> (n: nat)
    requires
        at(g, ms, big),
        holds(g, c, ms, 0),
        within(big, g.tested(cond).0),
        c.reaches(cond as int),
        bounded(g, limit),
        -limit <= cond <= limit,
    ensures
        carried(g, ms, g.tested(cond).0, c, ms.run(big, n), big, 0),
        g.tested(cond).1.0 < ms.registers.len(),
        ms.run(big, n).registers[g.tested(cond).1.0 as int] == Value::I1(
            c.state.read(cond as int) != 0,
        ),
{
    let (s, value) = g.cell(cond);
    let (s2, flag) = s.nonzero(value);
    lemma_cell_straight(g, cond, limit);
    lemma_tested_straight(g, cond, limit);
    lemma_define_straight(
        s,
        Type::I1,
        Op::Assign(
            s.module.next_register(),
            Expr::Test(LeafExpr::Register(value), TestOp::NotEqual, LeafExpr::Int(ConstInt::I8(0))),
        ),
    );
    lemma_earlier_within(s, s2, big);
    let n1 = lemma_cell(g, c, ms, big, cond, limit);
    let ms1 = ms.run(big, n1);
    lemma_nonzero_step(s, c, ms1, big, value, c.state.read(cond as int));
    let ms2 = ms1.step(big);
    lemma_run_add(big, ms, n1, 1);
    lemma_carried_chain(g, ms, s, ms1, s2, c, ms2, big, 0);
    n1 + 1
}

/// The machine stores a cached cell that is marked as written.
pub proof fn lemma_store_step(
    g: GenState,
    c: Reached,
    ms: Machine,
    big: ModuleView,
    k: int,
    index: RegisterID,
)
    requires
        at(g, ms, big),
        holds(g, c, ms, k),
        0 <= k < g.cells.len(),
        index_cached(CacheEntry { offset: g.cells[k].offset, register: index, written: false }, c, ms),
        within(
            big,
            g.emit(Op::StoreCell(LeafExpr::Register(index), LeafExpr::Register(g.cells[k].register))),
        ),
    ensures
        carried(
            g,
            ms,
            g.emit(Op::StoreCell(LeafExpr::Register(index), LeafExpr::Register(g.cells[k].register))),
            c,
            ms.run(big, 1),
            big,
            k + 1,
        ),
{
    let entry = g.cells[k];
    let op = Op::StoreCell(LeafExpr::Register(index), LeafExpr::Register(entry.register));
    let next = g.emit(op);
    let here = address(c, entry.offset);
    assert(cell_cached(g.cells[k], c, ms, stored(g, k, k)));
    lemma_wrap64_small(here);
    let after = Machine { cells: ms.cells.update(here, c.state.tape[here]), ..ms }.advanced();
    lemma_emit_straight(g, op);
    lemma_at_step(g, next, ms, big, op, after);
    assert forall|j: int| 0 <= j < next.indices.len() implies index_cached(
        #[trigger] next.indices[j],
        c,
        after,
    ) by {
        assert(index_cached(g.indices[j], c, ms));
    }
    assert forall|j: int| 0 <= j < next.cells.len() implies cell_cached(
        #[trigger] next.cells[j],
        c,
        after,
        stored(next, j, k + 1),
    ) by {
        assert(cell_cached(g.cells[j], c, ms, stored(g, j, k)));
        if j < k {
            assert(g.cells[j].offset != g.cells[k].offset);
        } else if j > k {
            assert(g.cells[k].offset != g.cells[j].offset);
        }
    }
    assert forall|a: int| 0 <= a < c.reach && not_pending(next, c, a, k + 1) implies #[trigger] after.cells[a]
        == c.state.tape[a] by {
        if a != here {
            assert forall|j: int|
                0 <= j < g.cells.len() && address(c, (#[trigger] g.cells[j]).offset)
                    == a implies stored(g, j, k) by {
                assert(next.cells[j] == g.cells[j]);
                assert(stored(next, j, k + 1));
            }
            assert(not_pending(g, c, a, k));
        }
    }
}

/// The machine stores the first `n` cached cells, those that are marked as
/// written.
pub proof fn lemma_spilled_upto(
    g: GenState,
    c: Reached,
    ms: Machine,
    big: ModuleView,
    n: int,
    limit: int,
) -> (steps: nat)
    requires
        at(g, ms, big),
        holds(g, c, ms, 0),
        bounded(g, limit),
        0 <= n <= g.cells.len(),
        within(big, g.spilled_upto(n)),
    ensures
        carried(g, ms, g.spilled_upto(n), c, ms.run(big, steps), big, n),
    decreases n,
{
    if n == 0 {
        assert(ms.run(big, 0) == ms);
        0
    } else {
        let before = g.spilled_upto(n - 1);
        let entry = g.cells[n - 1];
        lemma_spilled_upto_straight(g, n - 1, limit);
        if entry.written {
            let (s, index) = before.cell_index(entry.offset);
            let op = Op::StoreCell(LeafExpr::Register(index), LeafExpr::Register(entry.register));
            let next = s.emit(op);
            lemma_cell_index_straight(before, entry.offset, limit);
            lemma_emit_straight(s, op);
            lemma_earlier_within(s, next, big);
            lemma_earlier_within(before, s, big);
            let n1 = lemma_spilled_upto(g, c, ms, big, n - 1, limit);
            let ms1 = ms.run(big, n1);
            let n2 = lemma_cell_index(before, c, ms1, big, entry.offset, n - 1);
            let ms2 = ms1.run(big, n2);
            assert(s.cells[n - 1] == entry);
            lemma_store_step(s, c, ms2, big, n - 1, index);
            let ms3 = ms2.run(big, 1);
            lemma_run_add(big, ms, n1, n2);
            lemma_run_add(big, ms, n1 + n2, 1);
            lemma_carried_chain(before, ms1, s, ms2, next, c, ms3, big, n);
            lemma_carried_chain(g, ms, before, ms1, next, c, ms3, big, n);
            n1 + n2 + 1
        } else {
            let n1 = lemma_spilled_upto(g, c, ms, big, n - 1, limit);
            lemma_holds_skip(before, c, ms.run(big, n1), n - 1);
            n1
        }
    }
}

/// The machine stores what the cache holds of the cells at the end of a
/// block: it then has the whole tape.
pub proof fn lemma_left(
    g: GenState,
    c: Reached,
    ms: Machine,
    big: ModuleView,
    unbalanced: bool,
    limit: int,
) -> (steps: nat)
    requires
        at(g, ms, big),
        holds(g, c, ms, 0),
        bounded(g, limit),
        within(big, g.left(unbalanced)),
    ensures
        carried(g, ms, g.left(unbalanced), c, ms.run(big, steps), big, 0),
        flushed(c, ms.run(big, steps)),
{
    let n = g.cells.len() as int;
    let s = g.spilled_upto(n);
    let next = g.left(unbalanced);
    lemma_left_straight(g, unbalanced, limit);
    lemma_spilled_upto_straight(g, n, limit);
    assert(within(big, s));
    let steps = lemma_spilled_upto(g, c, ms, big, n, limit);
    let after = ms.run(big, steps);
    assert forall|a: int| 0 <= a < c.reach implies #[trigger] after.cells[a] == c.state.tape[a] by {
        assert(not_pending(s, c, a, n));
    }
    assert forall|k: int| 0 <= k < next.indices.len() implies index_cached(
        #[trigger] next.indices[k],
        c,
        after,
    ) by {
        assert(index_cached(s.indices[k], c, after));
    }
    steps
}

/// Taking an edge of the lowering brings the machine to the head of the
/// block.
pub proof fn lemma_edge_taken(
    s: GenState,
    c: Reached,
    ms: Machine,
    big: ModuleView,
    block: BlockID,
    unbalanced: bool,
)
    requires
        holds(s, c, ms, 0),
        flushed(c, ms),
        ms.status == Status::Running,
        !ms.open,
        ms.registers.len() == big.registers.len(),
        takes_index(big, block, unbalanced),
    ensures
        ms.entered(big, edge(block, s.index, unbalanced)) == Ok::<Machine, Fault>(
            Machine {
                registers: handed(
                    ms.registers,
                    unbalanced,
                    big.blocks[block.0 as int].parameters[0],
                    c.state.pointer,
                ),
                block: block.0 as int,
                index: 0,
                ..ms
            },
        ),
        landed(c, ms.entered(big, edge(block, s.index, unbalanced)).unwrap(), block),
{
    let t = edge(block, s.index, unbalanced);
    let parameters = big.blocks[block.0 as int].parameters;
    assert(eval_args(ms.registers, t.args, 0) == Ok::<Seq<Value>, Fault>(Seq::empty()));
    if unbalanced {
        let v = Value::I64(wrap64(c.state.pointer));
        assert(t.args.len() == 1);
        assert(t.args[0] == LeafExpr::Register(s.index));
        assert(eval_leaf(ms.registers, t.args[0]) == Ok::<Value, Fault>(v));
        assert(eval_args(ms.registers, t.args, 1) == Ok::<Seq<Value>, Fault>(
            Seq::<Value>::empty().push(v),
        ));
        let vals = Seq::<Value>::empty().push(v);
        assert(smaller(1, 1) == 1);
        assert(bound(ms.registers, parameters, vals, 0) == Ok::<Seq<Value>, Fault>(ms.registers));
        assert(bound(ms.registers, parameters, vals, 1) == Ok::<Seq<Value>, Fault>(
            ms.registers.update(parameters[0].0 as int, v),
        ));
    } else {
        assert(t.args.len() == 0);
        assert(smaller(parameters.len() as int, 0) == 0);
        assert(bound(ms.registers, parameters, Seq::<Value>::empty(), 0) == Ok::<
            Seq<Value>,
            Fault,
        >(ms.registers));
    }
}

/// The machine jumps where the lowering has appended a jump.
pub proof fn lemma_jump_step(
    s: GenState,
    c: Reached,
    ms: Machine,
    big: ModuleView,
    block: BlockID,
    unbalanced: bool,
)
    requires
        at(s, ms, big),
        holds(s, c, ms, 0),
        flushed(c, ms),
        within(big, s.emit(Op::Jump(edge(block, s.index, unbalanced)))),
        takes_index(big, block, unbalanced),
    ensures
        landed(c, ms.run(big, 1), block),
        ms.run(big, 1).registers == handed(
            ms.registers,
            unbalanced,
            big.blocks[block.0 as int].parameters[0],
            c.state.pointer,
        ),
{
    let op = Op::Jump(edge(block, s.index, unbalanced));
    let next = s.emit(op);
    lemma_emit_earlier(s, op);
    let b = s.block.0 as int;
    assert(next.module.blocks[b].body.len() <= big.blocks[b].body.len());
    assert(big.blocks[b].body[ms.index] == next.module.blocks[b].body[ms.index]);
    assert(ms.current(big) == Some(op));
    lemma_run_one(big, ms);
    lemma_edge_taken(s, c, ms, big, block, unbalanced);
}

/// The machine branches where the lowering has appended a branch: to the
/// first block where the flag is set, to the second where it is not.
pub proof fn lemma_branch_step(
    s: GenState,
    c: Reached,
    ms: Machine,
    big: ModuleView,
    cond: RegisterID,
    flag: bool,
    taken: BlockID,
    els: BlockID,
    unbalanced: bool,
)
    requires
        at(s, ms, big),
        holds(s, c, ms, 0),
        flushed(c, ms),
        within(
            big,
            s.emit(
                Op::Branch(
                    LeafExpr::Register(cond),
                    edge(taken, s.index, false),
                    edge(els, s.index, unbalanced),
                ),
            ),
        ),
        cond.0 < ms.registers.len(),
        ms.registers[cond.0 as int] == Value::I1(flag),
        takes_index(big, taken, false),
        takes_index(big, els, unbalanced),
    ensures
        flag ==> landed(c, ms.run(big, 1), taken) && ms.run(big, 1).registers == ms.registers,
        !flag ==> landed(c, ms.run(big, 1), els) && ms.run(big, 1).registers == handed(
            ms.registers,
            unbalanced,
            big.blocks[els.0 as int].parameters[0],
            c.state.pointer,
        ),
{
    let op = Op::Branch(
        LeafExpr::Register(cond),
        edge(taken, s.index, false),
        edge(els, s.index, unbalanced),
    );
    let next = s.emit(op);
    lemma_emit_earlier(s, op);
    let b = s.block.0 as int;
    assert(next.module.blocks[b].body.len() <= big.blocks[b].body.len());
    assert(big.blocks[b].body[ms.index] == next.module.blocks[b].body[ms.index]);
    assert(ms.current(big) == Some(op));
    lemma_run_one(big, ms);
    lemma_edge_taken(s, c, ms, big, taken, false);
    lemma_edge_taken(s, c, ms, big, els, unbalanced);
}

} // verus!
