use vstd::prelude::*;
use crate::frontend::code_gen::{lemma_position_in_range, position, put, CacheEntry, GenState};
use crate::frontend::semantics::Reached;
use crate::ir::ModuleView;
use crate::ir::block::BlockID;
use crate::ir::exec::{wrap64, wrap8, Fault, Machine, Status, Value};
use crate::ir::instruction::Op;
use crate::ir::register::RegisterID;
use crate::ir::types::Type;

verus! {

/// Running for so many steps and then for so many more is running for all
/// of them.
pub proof fn lemma_run_add(m: ModuleView, s: Machine, a: nat, b: nat)
    ensures
        s.run(m, a + b) == s.run(m, a).run(m, b),
    decreases a,
{
    if a == 0 || !s.running() || s.blocked(m) {
        if a > 0 {
            lemma_run_stopped(m, s, b);
            lemma_run_stopped(m, s, a + b);
        }
    } else {
        lemma_run_add(m, s.step(m), (a - 1) as nat, b);
        assert(((a + b) - 1) as nat == (a - 1) as nat + b);
    }
}

/// A machine that has stopped stays as it is.
pub proof fn lemma_run_stopped(m: ModuleView, s: Machine, fuel: nat)
    requires
        !s.running() || s.blocked(m),
    ensures
        s.run(m, fuel) == s,
{
}

/// One step of a machine that runs on closed input.
pub proof fn lemma_run_one(m: ModuleView, s: Machine)
    requires
        s.running(),
        !s.open,
    ensures
        s.run(m, 1) == s.step(m),
{
    assert(s.step(m).run(m, 0) == s.step(m));
}

pub proof fn lemma_wrap64_sum(a: int, b: int)
    ensures
        wrap64(wrap64(a) + wrap64(b)) == wrap64(a + b),
        wrap64(wrap64(a) + b) == wrap64(a + b),
{
    let n = 0x1_0000_0000_0000_0000int;
    assert(0 <= a % n < n && 0 <= b % n < n);
    vstd::arithmetic::div_mod::lemma_add_mod_noop(a, b, n);
    vstd::arithmetic::div_mod::lemma_mod_twice(a, n);
    vstd::arithmetic::div_mod::lemma_add_mod_noop(a % n, b, n);
    assert(((a % n) + (b % n)) % n == (a + b) % n);
    assert(((a % n) + b) % n == (a + b) % n);
}

pub proof fn lemma_wrap64_small(a: int)
    requires
        0 <= a < 0x1_0000_0000_0000_0000,
    ensures
        wrap64(a) == a,
{
    vstd::arithmetic::div_mod::lemma_small_mod(a as nat, 0x1_0000_0000_0000_0000);
}

pub proof fn lemma_wrap8_sum(a: int, b: int)
    ensures
        wrap8(wrap8(a) + wrap8(b)) == wrap8(a + b),
        wrap8(wrap8(a) + b) == wrap8(a + b),
        wrap8(a + wrap8(b)) == wrap8(a + b),
{
    let n = 0x100int;
    assert(0 <= a % n < n && 0 <= b % n < n);
    vstd::arithmetic::div_mod::lemma_add_mod_noop(a, b, n);
    vstd::arithmetic::div_mod::lemma_mod_twice(a, n);
    vstd::arithmetic::div_mod::lemma_mod_twice(b, n);
    vstd::arithmetic::div_mod::lemma_add_mod_noop(a % n, b, n);
    vstd::arithmetic::div_mod::lemma_add_mod_noop(a, b % n, n);
}

pub proof fn lemma_wrap8_product(a: int, b: int)
    ensures
        wrap8(a * wrap8(b)) == wrap8(a * b),
{
    let n = 0x100int;
    vstd::arithmetic::div_mod::lemma_mul_mod_noop_right(a, b, n);
    assert(0 <= b % n < n);
}

/// The module `big` holds the module `m` and more: of every block of `m`,
/// the instructions, first and in their order; and the parameters of every
/// block that has instructions or that is the `current` one.
pub open spec fn part_of(m: ModuleView, current: BlockID, big: ModuleView) -> bool {
    &&& m.blocks.len() <= big.blocks.len()
    &&& m.registers.len() <= big.registers.len()
    &&& forall|b: int|
        0 <= b < m.blocks.len() ==> m.blocks[b].body.len() <= (#[trigger] big.blocks[b]).body.len()
    &&& forall|b: int, i: int|
        0 <= b < m.blocks.len() && 0 <= i < m.blocks[b].body.len()
            ==> #[trigger] big.blocks[b].body[i] == m.blocks[b].body[i]
    &&& forall|b: int|
        0 <= b < m.blocks.len() && (b == current.0 || m.blocks[b].body.len() > 0) ==> (
        #[trigger] big.blocks[b]).parameters == m.blocks[b].parameters
}

/// The lowering stands in a block of its module.
pub open spec fn placed(g: GenState) -> bool {
    g.block.0 < g.module.blocks.len()
}

/// The state `next` has come from `g` by lowering more: what `g` has made
/// is part of what `next` has made, and the block that `g` stands in is
/// the one that `next` stands in, or has been left with an instruction in it.
pub open spec fn earlier(g: GenState, next: GenState) -> bool {
    &&& part_of(g.module, g.block, next.module)
    &&& (next.block == g.block || next.module.blocks[g.block.0 as int].body.len() > 0)
}

/// The module `big`, which can be held in memory, holds what the lowering
/// has made so far.
pub open spec fn within(big: ModuleView, g: GenState) -> bool {
    &&& part_of(g.module, g.block, big)
    &&& big.registers.len() <= usize::MAX
    &&& big.blocks.len() <= usize::MAX
    &&& placed(g)
}

pub proof fn lemma_earlier_within(g: GenState, next: GenState, big: ModuleView)
    requires
        placed(g),
        earlier(g, next),
        within(big, next),
    ensures
        within(big, g),
{
    assert forall|b: int| 0 <= b < g.module.blocks.len() implies g.module.blocks[b].body.len() <= (
    #[trigger] big.blocks[b]).body.len() by {
        assert(g.module.blocks[b].body.len() <= next.module.blocks[b].body.len());
    }
    assert forall|b: int, i: int|
        0 <= b < g.module.blocks.len() && 0 <= i < g.module.blocks[b].body.len()
        implies #[trigger] big.blocks[b].body[i] == g.module.blocks[b].body[i] by {
        assert(g.module.blocks[b].body.len() <= next.module.blocks[b].body.len());
        assert(next.module.blocks[b].body[i] == g.module.blocks[b].body[i]);
    }
    assert forall|b: int|
        0 <= b < g.module.blocks.len() && (b == g.block.0 || g.module.blocks[b].body.len() > 0)
        implies (#[trigger] big.blocks[b]).parameters == g.module.blocks[b].parameters by {
        assert(g.module.blocks[b].body.len() <= next.module.blocks[b].body.len());
        assert(next.module.blocks[b].parameters == g.module.blocks[b].parameters);
    }
}

pub proof fn lemma_earlier_chain(a: GenState, b: GenState, c: GenState)
    requires
        placed(a),
        placed(b),
        earlier(a, b),
        earlier(b, c),
    ensures
        earlier(a, c),
{
    assert forall|k: int| 0 <= k < a.module.blocks.len() implies a.module.blocks[k].body.len() <= (
    #[trigger] c.module.blocks[k]).body.len() by {
        assert(a.module.blocks[k].body.len() <= b.module.blocks[k].body.len());
    }
    assert forall|k: int, i: int|
        0 <= k < a.module.blocks.len() && 0 <= i < a.module.blocks[k].body.len()
        implies #[trigger] c.module.blocks[k].body[i] == a.module.blocks[k].body[i] by {
        assert(a.module.blocks[k].body.len() <= b.module.blocks[k].body.len());
        assert(b.module.blocks[k].body[i] == a.module.blocks[k].body[i]);
    }
    assert forall|k: int|
        0 <= k < a.module.blocks.len() && (k == a.block.0 || a.module.blocks[k].body.len() > 0)
        implies (#[trigger] c.module.blocks[k]).parameters == a.module.blocks[k].parameters by {
        assert(a.module.blocks[k].body.len() <= b.module.blocks[k].body.len());
        assert(b.module.blocks[k].parameters == a.module.blocks[k].parameters);
    }
    assert(a.module.blocks[a.block.0 as int].body.len() <= b.module.blocks[a.block.0 as int].body.len());
    assert(b.module.blocks[b.block.0 as int].body.len() <= c.module.blocks[b.block.0 as int].body.len());
    assert(b.module.blocks[a.block.0 as int].body.len() <= c.module.blocks[a.block.0 as int].body.len());
}

/// The tape address of the cell at `offset` from the data pointer.
pub open spec fn address(c: Reached, offset: isize) -> int {
    c.state.pointer + offset
}

/// The cached cell is within reach, its register holds what the cell holds,
/// and so does the tape of the machine where it is `stored`.
pub open spec fn cell_cached(e: CacheEntry, c: Reached, ms: Machine, stored: bool) -> bool {
    &&& 0 <= address(c, e.offset) < c.reach
    &&& e.register.0 < ms.registers.len()
    &&& ms.registers[e.register.0 as int] == Value::I8(c.state.tape[address(c, e.offset)])
    &&& stored ==> ms.cells[address(c, e.offset)] == c.state.tape[address(c, e.offset)]
}

/// The cached index is the tape address of its cell, as a word.
pub open spec fn index_cached(e: CacheEntry, c: Reached, ms: Machine) -> bool {
    &&& e.register.0 < ms.registers.len()
    &&& ms.registers[e.register.0 as int] == Value::I64(wrap64(address(c, e.offset)))
}

/// The cell of the cache at `k` is on the tape of the machine: it is not
/// marked as written, or it is one of the first `done` cells.
pub open spec fn stored(g: GenState, k: int, done: int) -> bool {
    !g.cells[k].written || k < done
}

/// Every cached cell at the address is on the tape of the machine.
pub open spec fn not_pending(g: GenState, c: Reached, a: int, done: int) -> bool {
    forall|k: int|
        0 <= k < g.cells.len() && address(c, (#[trigger] g.cells[k]).offset) == a ==> stored(
            g,
            k,
            done,
        )
}

/// The machine holds what the tape machine holds: a tape as long as the
/// reach, the same input left and the same output written, the data pointer
/// in the index register, and caches that are true to the tape. Of the
/// cells that are marked as written, the first `done` are on the tape of
/// the machine already.
pub open spec fn holds(g: GenState, c: Reached, ms: Machine, done: int) -> bool {
    &&& ms.cells.len() == c.reach
    &&& 0 <= c.reach <= usize::MAX
    &&& ms.input == c.state.input
    &&& ms.output == c.state.output
    &&& c.state.wf()
    &&& forall|a: int| !(0 <= a < c.reach) ==> #[trigger] c.state.tape[a] == 0
    &&& g.index.0 < ms.registers.len()
    &&& ms.registers[g.index.0 as int] == Value::I64(wrap64(c.state.pointer))
    &&& forall|k: int| 0 <= k < g.indices.len() ==> index_cached(#[trigger] g.indices[k], c, ms)
    &&& forall|k: int|
        0 <= k < g.cells.len() ==> cell_cached(#[trigger] g.cells[k], c, ms, stored(g, k, done))
    &&& forall|j: int, k: int|
        0 <= j < k < g.cells.len() ==> (#[trigger] g.cells[j]).offset != (
        #[trigger] g.cells[k]).offset
    &&& forall|a: int|
        0 <= a < c.reach && not_pending(g, c, a, done) ==> #[trigger] ms.cells[a]
            == c.state.tape[a]
}

/// The registers that the lowering speaks of are registers of its module.
pub open spec fn known(g: GenState) -> bool {
    &&& g.index.0 < g.module.registers.len()
    &&& forall|k: int|
        0 <= k < g.indices.len() ==> (#[trigger] g.indices[k]).register.0
            < g.module.registers.len()
    &&& forall|k: int|
        0 <= k < g.cells.len() ==> (#[trigger] g.cells[k]).register.0 < g.module.registers.len()
}

/// The machine runs the module `big`, on closed input, and stands where
/// the lowering stands: past the last instruction that the current block
/// has so far.
pub open spec fn at(g: GenState, ms: Machine, big: ModuleView) -> bool {
    &&& within(big, g)
    &&& known(g)
    &&& ms.status == Status::Running
    &&& !ms.open
    &&& ms.block == g.block.0
    &&& ms.index == g.module.blocks[g.block.0 as int].body.len()
    &&& ms.registers.len() == big.registers.len()
}

/// The machine stands where the lowering stands, in the state that stands
/// for the state of the tape machine.
pub open spec fn related(g: GenState, c: Reached, ms: Machine, big: ModuleView) -> bool {
    at(g, ms, big) && holds(g, c, ms, 0)
}

/// The second machine has the registers of the first, and in those that the
/// lowering had made, the same values.
pub open spec fn frame(g: GenState, ms: Machine, after: Machine) -> bool {
    &&& after.registers.len() == ms.registers.len()
    &&& forall|r: int|
        0 <= r < g.module.registers.len() ==> #[trigger] after.registers[r] == ms.registers[r]
}

/// The machine has come from `ms` to `after` while the lowering has come
/// from `g` to `next`: it stands where the lowering stands, it holds what
/// the tape machine holds in `c`, and the registers that there were are
/// as they were.
pub open spec fn carried(
    g: GenState,
    ms: Machine,
    next: GenState,
    c: Reached,
    after: Machine,
    big: ModuleView,
    done: int,
) -> bool {
    &&& at(next, after, big)
    &&& holds(next, c, after, done)
    &&& frame(g, ms, after)
    &&& earlier(g, next)
}

/// What holds of a machine holds of one that differs in other registers, in
/// its place, or in its status.
pub proof fn lemma_holds_frame(g: GenState, c: Reached, ms: Machine, after: Machine, done: int)
    requires
        holds(g, c, ms, done),
        known(g),
        frame(g, ms, after),
        after.cells == ms.cells,
        after.input == ms.input,
        after.output == ms.output,
    ensures
        holds(g, c, after, done),
{
    assert forall|k: int| 0 <= k < g.indices.len() implies index_cached(
        #[trigger] g.indices[k],
        c,
        after,
    ) by {
        assert(index_cached(g.indices[k], c, ms));
    }
    assert forall|k: int| 0 <= k < g.cells.len() implies cell_cached(
        #[trigger] g.cells[k],
        c,
        after,
        stored(g, k, done),
    ) by {
        assert(cell_cached(g.cells[k], c, ms, stored(g, k, done)));
    }
}

/// What holds of a machine holds of one that differs in other registers, in
/// its place or in its status, with the input and the output that the
/// tape machine has in another state with the same tape.
pub proof fn lemma_holds_streams(
    g: GenState,
    c: Reached,
    ms: Machine,
    next: Reached,
    after: Machine,
    done: int,
)
    requires
        holds(g, c, ms, done),
        known(g),
        frame(g, ms, after),
        after.cells == ms.cells,
        next.state.tape == c.state.tape,
        next.state.pointer == c.state.pointer,
        next.reach == c.reach,
        after.input == next.state.input,
        after.output == next.state.output,
    ensures
        holds(g, next, after, done),
{
    assert forall|k: int| 0 <= k < g.indices.len() implies index_cached(
        #[trigger] g.indices[k],
        next,
        after,
    ) by {
        assert(index_cached(g.indices[k], c, ms));
    }
    assert forall|k: int| 0 <= k < g.cells.len() implies cell_cached(
        #[trigger] g.cells[k],
        next,
        after,
        stored(g, k, done),
    ) by {
        assert(cell_cached(g.cells[k], c, ms, stored(g, k, done)));
    }
    assert forall|a: int| 0 <= a < next.reach && not_pending(g, next, a, done) implies #[trigger] after.cells[a]
        == next.state.tape[a] by {
        assert forall|k: int|
            0 <= k < g.cells.len() && address(c, (#[trigger] g.cells[k]).offset) == a implies stored(
            g,
            k,
            done,
        ) by {
            assert(address(next, g.cells[k].offset) == a);
        }
        assert(not_pending(g, c, a, done));
    }
}

/// What holds of one state of the lowering holds of another with the same
/// caches and the same tape index.
pub proof fn lemma_holds_caches(g: GenState, next: GenState, c: Reached, ms: Machine, done: int)
    requires
        holds(g, c, ms, done),
        next.index == g.index,
        next.indices == g.indices,
        next.cells == g.cells,
    ensures
        holds(next, c, ms, done),
{
    assert forall|k: int| 0 <= k < next.cells.len() implies cell_cached(
        #[trigger] next.cells[k],
        c,
        ms,
        stored(next, k, done),
    ) by {
        assert(cell_cached(g.cells[k], c, ms, stored(g, k, done)));
    }
    assert forall|a: int| 0 <= a < c.reach && not_pending(next, c, a, done) implies #[trigger] ms.cells[a]
        == c.state.tape[a] by {
        assert forall|k: int|
            0 <= k < g.cells.len() && address(c, (#[trigger] g.cells[k]).offset) == a implies stored(
            g,
            k,
            done,
        ) by {
            assert(next.cells[k] == g.cells[k]);
            assert(stored(next, k, done));
        }
        assert(not_pending(g, c, a, done));
    }
}

/// Where a cell that is not marked as written comes next, one cell more is
/// on the tape of the machine.
pub proof fn lemma_holds_skip(g: GenState, c: Reached, ms: Machine, k: int)
    requires
        holds(g, c, ms, k),
        0 <= k < g.cells.len(),
        !g.cells[k].written,
    ensures
        holds(g, c, ms, k + 1),
{
    assert forall|j: int| 0 <= j < g.cells.len() implies cell_cached(
        #[trigger] g.cells[j],
        c,
        ms,
        stored(g, j, k + 1),
    ) by {
        assert(cell_cached(g.cells[j], c, ms, stored(g, j, k)));
    }
    assert forall|a: int| 0 <= a < c.reach && not_pending(g, c, a, k + 1) implies #[trigger] ms.cells[a]
        == c.state.tape[a] by {
        assert forall|j: int|
            0 <= j < g.cells.len() && address(c, (#[trigger] g.cells[j]).offset) == a implies stored(
            g,
            j,
            k,
        ) by {
            assert(stored(g, j, k + 1));
        }
        assert(not_pending(g, c, a, k));
    }
}

/// One index more in the cache, in a register that holds it.
pub proof fn lemma_index_pushed(g: GenState, c: Reached, ms: Machine, done: int, e: CacheEntry)
    requires
        holds(g, c, ms, done),
        index_cached(e, c, ms),
    ensures
        holds(GenState { indices: g.indices.push(e), ..g }, c, ms, done),
{
    let next = GenState { indices: g.indices.push(e), ..g };
    assert forall|k: int| 0 <= k < next.cells.len() implies cell_cached(
        #[trigger] next.cells[k],
        c,
        ms,
        stored(next, k, done),
    ) by {
        assert(cell_cached(g.cells[k], c, ms, stored(g, k, done)));
    }
    assert forall|a: int| 0 <= a < c.reach && not_pending(next, c, a, done) implies #[trigger] ms.cells[a]
        == c.state.tape[a] by {
        assert forall|k: int|
            0 <= k < g.cells.len() && address(c, (#[trigger] g.cells[k]).offset) == a implies stored(
            g,
            k,
            done,
        ) by {
            assert(next.cells[k] == g.cells[k]);
            assert(stored(next, k, done));
        }
        assert(not_pending(g, c, a, done));
    }
}

/// Where no place is found, no entry holds the offset.
pub proof fn lemma_position_none(s: Seq<CacheEntry>, offset: isize, from: int)
    requires
        0 <= from,
        position(s, offset, from) is None,
    ensures
        forall|k: int| from <= k < s.len() ==> (#[trigger] s[k]).offset != offset,
    decreases s.len() - from,
{
    if from < s.len() {
        lemma_position_none(s, offset, from + 1);
    }
}

/// One cell more in the cache, which the tape of the machine holds, in a
/// register that holds it.
pub proof fn lemma_cell_pushed(g: GenState, c: Reached, ms: Machine, e: CacheEntry)
    requires
        holds(g, c, ms, 0),
        cell_cached(e, c, ms, true),
        !e.written,
        forall|k: int| 0 <= k < g.cells.len() ==> (#[trigger] g.cells[k]).offset != e.offset,
    ensures
        holds(GenState { cells: g.cells.push(e), ..g }, c, ms, 0),
{
    let next = GenState { cells: g.cells.push(e), ..g };
    assert forall|k: int| 0 <= k < next.cells.len() implies cell_cached(
        #[trigger] next.cells[k],
        c,
        ms,
        stored(next, k, 0),
    ) by {
        if k < g.cells.len() {
            assert(cell_cached(g.cells[k], c, ms, stored(g, k, 0)));
        }
    }
    assert forall|a: int| 0 <= a < c.reach && not_pending(next, c, a, 0) implies #[trigger] ms.cells[a]
        == c.state.tape[a] by {
        assert forall|k: int|
            0 <= k < g.cells.len() && address(c, (#[trigger] g.cells[k]).offset) == a implies stored(
            g,
            k,
            0,
        ) by {
            assert(next.cells[k] == g.cells[k]);
            assert(stored(next, k, 0));
        }
        assert(not_pending(g, c, a, 0));
    }
    assert forall|j: int, k: int| 0 <= j < k < next.cells.len() implies (
    #[trigger] next.cells[j]).offset != (#[trigger] next.cells[k]).offset by {
        assert(next.cells[j] == g.cells[j]);
        if k < g.cells.len() {
            assert(next.cells[k] == g.cells[k]);
        }
    }
}

/// The state of the tape machine with a value written to a cell.
pub open spec fn written_to(c: Reached, offset: int, v: u8) -> Reached {
    Reached { state: c.state.write(offset, v), ..c }
}

/// A cell is given the value of a register: it is cached as written, and
/// the caches are true to the tape with that value in the cell.
pub proof fn lemma_cell_put(g: GenState, c: Reached, ms: Machine, offset: isize, r: RegisterID, v: u8)
    requires
        holds(g, c, ms, 0),
        r.0 < ms.registers.len(),
        ms.registers[r.0 as int] == Value::I8(v),
        c.reaches(offset as int),
    ensures
        holds(
            GenState {
                cells: put(g.cells, CacheEntry { offset, register: r, written: true }),
                ..g
            },
            written_to(c, offset as int, v),
            ms,
            0,
        ),
{
    let e = CacheEntry { offset, register: r, written: true };
    let next = GenState { cells: put(g.cells, e), ..g };
    let c2 = written_to(c, offset as int, v);
    let here = address(c, offset);
    lemma_position_in_range(g.cells, offset, 0);
    if position(g.cells, offset, 0) is None {
        lemma_position_none(g.cells, offset, 0);
    }
    // Every entry but the new one is an old one, for another cell.
    assert forall|k: int| 0 <= k < next.cells.len() implies #[trigger] next.cells[k] == e || (k
        < g.cells.len() && next.cells[k] == g.cells[k] && g.cells[k].offset != offset) by {
        match position(g.cells, offset, 0) {
            Some(k0) => {
                if k != k0 {
                    assert(g.cells[k].offset != g.cells[k0].offset);
                }
            },
            None => {},
        }
    }
    assert forall|k: int| 0 <= k < g.cells.len() && (#[trigger] g.cells[k]).offset != offset implies k
        < next.cells.len() && next.cells[k] == g.cells[k] by {
    }
    assert forall|k: int| 0 <= k < next.indices.len() implies index_cached(
        #[trigger] next.indices[k],
        c2,
        ms,
    ) by {
        assert(index_cached(g.indices[k], c, ms));
    }
    assert forall|k: int| 0 <= k < next.cells.len() implies cell_cached(
        #[trigger] next.cells[k],
        c2,
        ms,
        stored(next, k, 0),
    ) by {
        if next.cells[k] != e {
            assert(cell_cached(g.cells[k], c, ms, stored(g, k, 0)));
        }
    }
    assert forall|j: int, k: int| 0 <= j < k < next.cells.len() implies (
    #[trigger] next.cells[j]).offset != (#[trigger] next.cells[k]).offset by {
        match position(g.cells, offset, 0) {
            Some(k0) => {
                assert(g.cells[j].offset != g.cells[k].offset);
            },
            None => {
                if k < g.cells.len() {
                    assert(g.cells[j].offset != g.cells[k].offset);
                }
            },
        }
    }
    assert forall|a: int| 0 <= a < c2.reach && not_pending(next, c2, a, 0) implies #[trigger] ms.cells[a]
        == c2.state.tape[a] by {
        if a == here {
            let k0 = match position(g.cells, offset, 0) {
                Some(k0) => k0,
                None => g.cells.len() as int,
            };
            assert(next.cells[k0] == e);
            assert(stored(next, k0, 0));
        } else {
            assert forall|k: int|
                0 <= k < g.cells.len() && address(c, (#[trigger] g.cells[k]).offset) == a implies stored(
                g,
                k,
                0,
            ) by {
                assert(g.cells[k].offset != offset);
                assert(next.cells[k] == g.cells[k]);
                assert(stored(next, k, 0));
            }
            assert(not_pending(g, c, a, 0));
        }
    }
}

/// Two stretches of the way of the machine and of the lowering make one.
pub proof fn lemma_carried_chain(
    g: GenState,
    ms: Machine,
    s1: GenState,
    ms1: Machine,
    s2: GenState,
    c2: Reached,
    ms2: Machine,
    big: ModuleView,
    done: int,
)
    requires
        placed(g),
        at(s1, ms1, big),
        frame(g, ms, ms1),
        earlier(g, s1),
        carried(s1, ms1, s2, c2, ms2, big, done),
    ensures
        carried(g, ms, s2, c2, ms2, big, done),
{
    lemma_earlier_chain(g, s1, s2);
}

/// The machine has the whole tape of the tape machine.
pub open spec fn flushed(c: Reached, ms: Machine) -> bool {
    forall|a: int| 0 <= a < c.reach ==> #[trigger] ms.cells[a] == c.state.tape[a]
}

/// The machine stands at the head of a block, on closed input, with the
/// whole tape, the input and the output of the tape machine.
pub open spec fn landed(c: Reached, ms: Machine, block: BlockID) -> bool {
    &&& ms.status == Status::Running
    &&& !ms.open
    &&& ms.block == block.0
    &&& ms.index == 0
    &&& ms.cells.len() == c.reach
    &&& 0 <= c.reach <= usize::MAX
    &&& ms.input == c.state.input
    &&& ms.output == c.state.output
    &&& c.state.wf()
    &&& flushed(c, ms)
    &&& forall|a: int| !(0 <= a < c.reach) ==> #[trigger] c.state.tape[a] == 0
}

/// The registers after an edge has been taken: where the edge carries the
/// tape index, the parameter of the block holds it.
pub open spec fn handed(registers: Seq<Value>, unbalanced: bool, parameter: RegisterID, p: int) -> Seq<
    Value,
> {
    if unbalanced {
        registers.update(parameter.0 as int, Value::I64(wrap64(p)))
    } else {
        registers
    }
}

/// The block takes the tape index as its one parameter where it is entered
/// unbalanced.
pub open spec fn takes_index(big: ModuleView, block: BlockID, unbalanced: bool) -> bool {
    &&& block.0 < big.blocks.len()
    &&& unbalanced ==> big.blocks[block.0 as int].parameters.len() == 1
        && big.blocks[block.0 as int].parameters[0].0 < big.registers.len()
}

/// A machine at the head of a block that the lowering starts to fill, with
/// registers that hold what the caches say, stands where the lowering
/// stands.
pub proof fn lemma_arrive(g: GenState, c: Reached, ms: Machine, big: ModuleView)
    requires
        landed(c, ms, g.block),
        within(big, g),
        known(g),
        g.module.blocks[g.block.0 as int].body.len() == 0,
        g.cells.len() == 0,
        ms.registers.len() == big.registers.len(),
        ms.registers[g.index.0 as int] == Value::I64(wrap64(c.state.pointer)),
        forall|k: int| 0 <= k < g.indices.len() ==> index_cached(#[trigger] g.indices[k], c, ms),
    ensures
        related(g, c, ms, big),
{
}

/// The machine runs the instruction that the lowering appends, and stands
/// where the lowering then stands.
pub proof fn lemma_at_step(g: GenState, next: GenState, ms: Machine, big: ModuleView, op: Op, after: Machine)
    requires
        at(g, ms, big),
        within(big, next),
        known(next),
        next.block == g.block,
        next.module.blocks.len() == g.module.blocks.len(),
        next.module.blocks[g.block.0 as int].body == g.module.blocks[g.block.0 as int].body.push(op),
        ms.effect(big, op) == Ok::<Machine, Fault>(after),
        after.status == ms.status,
        after.open == ms.open,
        after.block == ms.block,
        after.index == ms.index + 1,
        after.registers.len() == ms.registers.len(),
    ensures
        at(next, after, big),
        ms.step(big) == after,
        ms.run(big, 1) == after,
{
    let b = g.block.0 as int;
    assert(next.module.blocks[b].body.len() <= big.blocks[b].body.len());
    assert(big.blocks[b].body[ms.index] == next.module.blocks[b].body[ms.index]);
    assert(ms.current(big) == Some(op));
    lemma_run_one(big, ms);
}

/// Appending an instruction is lowering more.
pub proof fn lemma_emit_earlier(g: GenState, op: Op)
    requires
        placed(g),
    ensures
        earlier(g, g.emit(op)),
        placed(g.emit(op)),
        g.emit(op).module.blocks.len() == g.module.blocks.len(),
        g.emit(op).module.registers == g.module.registers,
        g.emit(op).module.blocks[g.block.0 as int].body == g.module.blocks[g.block.0 as int].body.push(
            op,
        ),
        g.emit(op).module.blocks[g.block.0 as int].parameters == g.module.blocks[g.block.0 as int].parameters,
        forall|b: int|
            0 <= b < g.module.blocks.len() && b != g.block.0 ==> #[trigger] g.emit(op).module.blocks[b]
                == g.module.blocks[b],
{
}

pub proof fn lemma_define_earlier(g: GenState, t: Type, op: Op)
    requires
        placed(g),
    ensures
        earlier(g, g.define(t, op)),
        placed(g.define(t, op)),
        g.define(t, op).module.blocks.len() == g.module.blocks.len(),
        g.define(t, op).module.registers.len() == g.module.registers.len() + 1,
        g.define(t, op).module.blocks[g.block.0 as int].body == g.module.blocks[g.block.0 as int].body.push(
            op,
        ),
        g.define(t, op).module.blocks[g.block.0 as int].parameters == g.module.blocks[g.block.0 as int].parameters,
        forall|b: int|
            0 <= b < g.module.blocks.len() && b != g.block.0 ==> #[trigger] g.define(
                t,
                op,
            ).module.blocks[b] == g.module.blocks[b],
{
}

/// The machine runs an instruction that writes a new register and does
/// nothing else: it then stands where the lowering stands, and holds what
/// it held.
/// The machine after an instruction that has written a register and done
/// nothing else.
pub open spec fn wrote(ms: Machine, r: int, v: Value) -> Machine {
    Machine { registers: ms.registers.update(r, v), ..ms }.advanced()
}

pub proof fn lemma_define_step(
    g: GenState,
    c: Reached,
    ms: Machine,
    big: ModuleView,
    t: Type,
    op: Op,
    v: Value,
    done: int,
)
    requires
        at(g, ms, big),
        holds(g, c, ms, done),
        within(big, g.define(t, op)),
        ms.effect(big, op) == Ok::<Machine, Fault>(wrote(ms, g.module.registers.len() as int, v)),
    ensures
        at(g.define(t, op), ms.step(big), big),
        holds(g.define(t, op), c, ms.step(big), done),
        frame(g, ms, ms.step(big)),
        ms.run(big, 1) == ms.step(big),
        ms.step(big) == wrote(ms, g.module.registers.len() as int, v),
        g.module.registers.len() < ms.registers.len(),
        g.module.next_register().0 == g.module.registers.len(),
{
    let next = g.define(t, op);
    let after = wrote(ms, g.module.registers.len() as int, v);
    lemma_define_earlier(g, t, op);
    lemma_at_step(g, next, ms, big, op, after);
    lemma_holds_frame(g, c, ms, after, done);
    assert(holds(next, c, after, done)) by {
        assert forall|a: int| 0 <= a < c.reach && not_pending(next, c, a, done) implies #[trigger] after.cells[a]
            == c.state.tape[a] by {
            assert forall|k: int|
                0 <= k < g.cells.len() && address(c, (#[trigger] g.cells[k]).offset)
                    == a implies stored(g, k, done) by {
                assert(next.cells[k] == g.cells[k]);
                assert(stored(next, k, done));
            }
            assert(not_pending(g, c, a, done));
        }
    }
}

} // verus!
