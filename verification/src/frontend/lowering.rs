use vstd::prelude::*;
use crate::frontend::ast::{current_cell_check, expr_tree_of, Node};
use crate::frontend::code_gen::{lowered, GenState};
use crate::frontend::coverage::{lemma_expr_tree_covered, lemma_sure_covered, sure_list};
use crate::frontend::expr_tree::{representable, representable_instr, Instr};
use crate::frontend::idempotence::{
    if_free, lemma_expr_tree_if_free, lemma_optimized_shape, shaped, shaped_instr,
};
use crate::frontend::sure::lemma_optimized_sure;
use crate::frontend::laws::{faithful, lemma_optimized_same_runs};
use crate::frontend::lowering::blocks::lemma_list_runs;
use crate::frontend::lowering::relation::{
    at, holds, known, lemma_earlier_within, lemma_run_add, lemma_run_one, placed, within, wrote,
};
use crate::frontend::lowering::structure::{
    bounded, fits, lemma_list_structure, lemma_span_list_positive, lowerable, lowerable_instr,
    span_limit, span_list,
};
use crate::frontend::optimize::{checked, optimized};
use crate::frontend::semantics::{
    guarded_list, halts_with, lemma_initial_wf, lemma_reach_list_runs, reach_list, run_list,
    Reached, State,
};
use crate::ir::ModuleView;
use crate::ir::block::BlockID;
use crate::ir::copies::lemma_settled_halts;
use crate::ir::exec::{bound, eval_args, smaller, unset, wrap64, Fault, Machine, Status, Value};
use crate::ir::instruction::{ConstInt, Expr, LeafExpr, Op, Target};
use crate::ir::register::RegisterID;

/// Loops and conditionals: the machine runs what they are lowered to.
pub mod blocks;
/// The machine and the lowering: what it is for the one to stand where the
/// other stands, and to hold what the tape machine holds.
pub mod relation;
/// The machine, instruction by instruction.
pub mod steps;
/// How the lowering goes on: what it keeps of the module as it grows.
pub mod structure;

verus! {

/// The state that a program starts from: the tape holds zero everywhere,
/// and no cell is within reach yet.
pub open spec fn outset(input: Seq<u8>) -> Reached {
    Reached { state: State::initial(input), reach: 0 }
}

/// A machine before a run on the input: it has no cell yet, the input is
/// closed, and nothing is written.
pub open spec fn unused(ms: Machine, input: Seq<u8>) -> bool {
    ms.cells.len() == 0 && ms.input == input && !ms.open && ms.output.len() == 0
}

/// A program that the lowering is proved right for, with offsets and moves
/// that sum up to no more than the limit.
pub open spec fn modest(program: Seq<Instr>) -> bool {
    lowerable(program) && span_list(program) <= span_limit()
}

/// The module that a program is lowered to does what the program does:
/// where the program, run on an input, comes to an end and reads and
/// writes no cell that a bounds check has not made sure of, the module,
/// started on a machine without cells, halts, with the same output written
/// and the same input left. This holds of every modest program whose
/// module can be held in memory.
pub proof fn lemma_lowered_runs(program: Seq<Instr>, input: Seq<u8>, fuel: nat, ms: Machine) -> (steps:
    nat)
    requires
        modest(program),
        fits(lowered(program)),
        unused(ms, input),
        reach_list(program, outset(input), fuel) is Some,
    ensures
        ms.started(lowered(program)).run(lowered(program), steps).status == Status::Halted,
        ms.started(lowered(program)).run(lowered(program), steps).output == reach_list(
            program,
            outset(input),
            fuel,
        ).unwrap().state.output,
        ms.started(lowered(program)).run(lowered(program), steps).input == reach_list(
            program,
            outset(input),
            fuel,
        ).unwrap().state.input,
        run_list(program, State::initial(input), fuel) == Some(
            reach_list(program, outset(input), fuel).unwrap().state,
        ),
{
    let big = lowered(program);
    let empty = ModuleView { entry: None, blocks: Seq::empty(), registers: Seq::empty() };
    let entry = BlockID(0);
    let with_entry = ModuleView { entry: Some(entry), ..empty.with_block() };
    let index = RegisterID(0);
    let pre = GenState {
        module: with_entry,
        block: entry,
        index,
        indices: Seq::empty(),
        cells: Seq::empty(),
    };
    let k = ConstInt::U64(0);
    let op = Op::Assign(index, Expr::Leaf(LeafExpr::Int(k)));
    let g = GenState::initial(empty);
    assert(g == pre.constant(k).0);
    assert(g.module.blocks.len() == 1);
    assert(g.module.registers.len() == 1);
    assert(g.module.blocks[0].body =~= seq![op]);
    assert(g.module.entry == Some(entry));
    assert(placed(g) && known(g) && bounded(g, 0));
    let last = g.after_list(program);
    lemma_span_list_positive(program);
    lemma_list_structure(g, program, 0);
    assert(within(big, last));
    lemma_earlier_within(g, last, big);
    let c = outset(input);
    lemma_initial_wf(input);
    lemma_reach_list_runs(program, c, fuel);
    // The machine enters the first block and sets the tape index.
    let ms0 = ms.started(big);
    let target = Target { id: entry, args: Seq::empty() };
    let cleared = Machine {
        registers: unset(big.registers.len()),
        status: Status::Running,
        ..ms
    };
    assert(eval_args(cleared.registers, target.args, 0) == Ok::<Seq<Value>, Fault>(Seq::empty()));
    assert(smaller(big.blocks[0].parameters.len() as int, 0) == 0);
    assert(bound(cleared.registers, big.blocks[0].parameters, Seq::<Value>::empty(), 0) == Ok::<
        Seq<Value>,
        Fault,
    >(cleared.registers));
    assert(ms0 == Machine { block: 0, index: 0, ..cleared });
    assert(big.blocks[0].body[0] == g.module.blocks[0].body[0]);
    assert(ms0.current(big) == Some(op));
    let ms1 = wrote(ms0, 0, Value::I64(0));
    assert(ms0.step(big) == ms1);
    lemma_run_one(big, ms0);
    assert(wrap64(0) == 0);
    assert(at(g, ms1, big));
    assert(ms1.output =~= c.state.output);
    assert(ms1.registers[0] == Value::I64(0));
    assert(holds(g, c, ms1, 0));
    let n = lemma_list_runs(g, c, ms1, big, program, 0, fuel);
    let ms2 = ms1.run(big, n);
    assert(ms2.current(big) is None);
    lemma_run_one(big, ms2);
    lemma_run_add(big, ms0, 1, n);
    lemma_run_add(big, ms0, 1 + n, 1);
    1 + n + 1
}

proof fn lemma_shaped_instr_lowerable(i: Instr)
    requires
        shaped_instr(i, true, false),
        representable_instr(i),
    ensures
        lowerable_instr(i),
    decreases i, 0int,
{
    match i {
        Instr::Loop(_, _, body) => lemma_shaped_lowerable(body),
        _ => {},
    }
}

/// A list in the shape without conditionals and with exact flags, which can
/// be held in memory, is one that the lowering is proved right for.
pub proof fn lemma_shaped_lowerable(s: Seq<Instr>)
    requires
        shaped(s, true, false),
        representable(s),
    ensures
        lowerable(s),
    decreases s, 1int,
{
    assert forall|k: int| 0 <= k < s.len() implies lowerable_instr(#[trigger] s[k]) by {
        lemma_shaped_instr_lowerable(s[k]);
    }
}

proof fn lemma_lowerable_concat(a: Seq<Instr>, b: Seq<Instr>)
    requires
        lowerable(a),
        lowerable(b),
    ensures
        lowerable(a + b),
{
    let s = a + b;
    assert forall|k: int| 0 <= k < s.len() implies lowerable_instr(#[trigger] s[k]) by {
        if k < a.len() {
            assert(s[k] == a[k]);
        } else {
            assert(s[k] == b[k - a.len()]);
        }
    }
}

/// The tree that is built from the nodes of a program is one that the
/// lowering is proved right for.
pub proof fn lemma_tree_lowerable(nodes: Seq<Node>)
    ensures
        lowerable(expr_tree_of(nodes)),
    decreases nodes, 2int,
{
    if nodes.len() > 0 {
        let node = nodes.last();
        lemma_tree_lowerable(nodes.drop_last());
        match node {
            Node::Loop(body) => {
                lemma_tree_lowerable(body);
                let check = seq![current_cell_check()];
                assert(lowerable(check));
                lemma_lowerable_concat(expr_tree_of(body), check);
                assert(expr_tree_of(body).push(current_cell_check()) =~= expr_tree_of(body) + check);
            },
            _ => {},
        }
        assert(lowerable_instr(node.instruction()));
        assert(lowerable(node.instructions()));
        lemma_lowerable_concat(expr_tree_of(nodes.drop_last()), node.instructions());
    }
}

/// The module that a program is lowered to does what the program does,
/// where it can be told without a run that every read and write of the
/// program falls on a cell that a bounds check has made sure of: where the
/// program, run on an input, comes to an end and the range of every bounds
/// check lies on the tape, the module, started on a machine without cells,
/// halts, with the same output written and the same input left. This
/// holds of every such program that can be held in memory, with offsets
/// and moves that sum up to no more than the limit, and with a module that
/// can be held in memory.
pub proof fn lemma_checked_lowered_runs(
    program: Seq<Instr>,
    narrow: bool,
    input: Seq<u8>,
    fuel: nat,
    ms: Machine,
) -> (steps: nat)
    requires
        representable(program),
        sure_list(program, None, narrow) is Some,
        span_list(program) <= span_limit(),
        fits(lowered(program)),
        unused(ms, input),
        guarded_list(program, outset(input), fuel) is Some,
    ensures
        ms.started(lowered(program)).run(lowered(program), steps).status == Status::Halted,
        ms.started(lowered(program)).run(lowered(program), steps).output == guarded_list(
            program,
            outset(input),
            fuel,
        ).unwrap().state.output,
        ms.started(lowered(program)).run(lowered(program), steps).input == guarded_list(
            program,
            outset(input),
            fuel,
        ).unwrap().state.input,
        run_list(program, State::initial(input), fuel) == Some(
            guarded_list(program, outset(input), fuel).unwrap().state,
        ),
{
    lemma_sure_covered(program, narrow);
    assert(reach_list(program, outset(input), fuel) == guarded_list(program, outset(input), fuel));
    lemma_lowered_runs(program, input, fuel, ms)
}

/// The module that the tree of a program is lowered to does what the tree
/// does: where the tree, run on an input, comes to an end and the range
/// of every bounds check lies on the tape, the module, started on a machine
/// without cells,
/// halts, with the same output written and the same input left. This
/// holds of every program with moves that sum up to no more than the
/// limit, and with a module that can be held in memory.
pub proof fn lemma_tree_lowered_runs(nodes: Seq<Node>, input: Seq<u8>, fuel: nat, ms: Machine) -> (steps:
    nat)
    requires
        span_list(expr_tree_of(nodes)) <= span_limit(),
        fits(lowered(expr_tree_of(nodes))),
        unused(ms, input),
        guarded_list(expr_tree_of(nodes), outset(input), fuel) is Some,
    ensures
        ms.started(lowered(expr_tree_of(nodes))).run(lowered(expr_tree_of(nodes)), steps).status
            == Status::Halted,
        ms.started(lowered(expr_tree_of(nodes))).run(lowered(expr_tree_of(nodes)), steps).output
            == guarded_list(expr_tree_of(nodes), outset(input), fuel).unwrap().state.output,
        ms.started(lowered(expr_tree_of(nodes))).run(lowered(expr_tree_of(nodes)), steps).input
            == guarded_list(expr_tree_of(nodes), outset(input), fuel).unwrap().state.input,
        run_list(expr_tree_of(nodes), State::initial(input), fuel) == Some(
            guarded_list(expr_tree_of(nodes), outset(input), fuel).unwrap().state,
        ),
{
    lemma_tree_lowerable(nodes);
    lemma_expr_tree_covered(nodes);
    lemma_checked_lowered_runs(expr_tree_of(nodes), false, input, fuel, ms)
}

/// The module that an optimized program is lowered to writes what the
/// program writes: where the optimized program, run on an input, comes to
/// an end within reach, the module, started on a machine without cells,
/// halts, and the program as it was before the schedule halts on that
/// input with the same output. This holds of every program without
/// conditionals in which each loop that is replaced by additions modifies
/// its counter by its decrement alone, with an optimized form that is
/// modest and a module that can be held in memory.
pub proof fn lemma_optimized_lowered_runs(
    source: Seq<Instr>,
    input: Seq<u8>,
    fuel: nat,
    ms: Machine,
) -> (steps: nat)
    requires
        if_free(source),
        faithful(checked(source)),
        representable(optimized(source)),
        span_list(optimized(source)) <= span_limit(),
        fits(lowered(optimized(source))),
        unused(ms, input),
        reach_list(optimized(source), outset(input), fuel) is Some,
    ensures
        ms.started(lowered(optimized(source))).run(lowered(optimized(source)), steps).status
            == Status::Halted,
        halts_with(
            source,
            input,
            ms.started(lowered(optimized(source))).run(lowered(optimized(source)), steps).output,
        ),
{
    let program = optimized(source);
    lemma_optimized_shape(source);
    lemma_shaped_lowerable(program);
    let steps = lemma_lowered_runs(program, input, fuel, ms);
    let end = reach_list(program, outset(input), fuel).unwrap();
    assert(run_list(program, State::initial(input), fuel) == Some(end.state));
    assert(halts_with(program, input, end.state.output));
    lemma_optimized_same_runs(source);
    steps
}

/// The module that a program is compiled to writes what the program
/// writes: where the optimized program, run on an input, comes to an end
/// within reach, the module that it is lowered to, after the passes on
/// modules have settled, halts on a machine without cells, and the program
/// as it was before the schedule halts on that input with the same output.
/// This holds of what the lemma on optimized programs holds of, where the
/// lowered module is orderly, as every module is that the lowering gives.
pub proof fn lemma_compiled_runs(
    source: Seq<Instr>,
    input: Seq<u8>,
    fuel: nat,
    ms: Machine,
    sweeps: nat,
) -> (steps: nat)
    requires
        if_free(source),
        faithful(checked(source)),
        representable(optimized(source)),
        span_list(optimized(source)) <= span_limit(),
        fits(lowered(optimized(source))),
        lowered(optimized(source)).orderly(),
        lowered(optimized(source)).settled(sweeps) is Some,
        unused(ms, input),
        reach_list(optimized(source), outset(input), fuel) is Some,
    ensures
        ms.started(lowered(optimized(source)).settled(sweeps).unwrap()).run(
            lowered(optimized(source)).settled(sweeps).unwrap(),
            steps,
        ).status == Status::Halted,
        halts_with(
            source,
            input,
            ms.started(lowered(optimized(source)).settled(sweeps).unwrap()).run(
                lowered(optimized(source)).settled(sweeps).unwrap(),
                steps,
            ).output,
        ),
{
    let big = lowered(optimized(source));
    let first = lemma_optimized_lowered_runs(source, input, fuel, ms);
    lemma_settled_halts(big, sweeps, ms, first)
}

/// What a program is compiled to writes what the program writes. Where the
/// optimized tree of a program, run on an input, comes to an end and the
/// range of every bounds check lies on the tape, the module that it is
/// lowered to, after the passes on modules have settled, halts on a machine
/// without cells, and the tree as it was before the schedule halts on that
/// input with the same output. This holds of every program in which each
/// loop that is replaced by additions modifies its counter by its
/// decrement alone, with an optimized tree that can be held in memory and
/// is modest, and with a lowered module that can be held in memory and is
/// orderly, as every module is that the lowering gives.
pub proof fn lemma_program_compiled_runs(
    nodes: Seq<Node>,
    input: Seq<u8>,
    fuel: nat,
    ms: Machine,
    sweeps: nat,
) -> (steps: nat)
    requires
        faithful(checked(expr_tree_of(nodes))),
        representable(optimized(expr_tree_of(nodes))),
        span_list(optimized(expr_tree_of(nodes))) <= span_limit(),
        fits(lowered(optimized(expr_tree_of(nodes)))),
        lowered(optimized(expr_tree_of(nodes))).orderly(),
        lowered(optimized(expr_tree_of(nodes))).settled(sweeps) is Some,
        unused(ms, input),
        guarded_list(optimized(expr_tree_of(nodes)), outset(input), fuel) is Some,
    ensures
        ms.started(lowered(optimized(expr_tree_of(nodes))).settled(sweeps).unwrap()).run(
            lowered(optimized(expr_tree_of(nodes))).settled(sweeps).unwrap(),
            steps,
        ).status == Status::Halted,
        halts_with(
            expr_tree_of(nodes),
            input,
            ms.started(lowered(optimized(expr_tree_of(nodes))).settled(sweeps).unwrap()).run(
                lowered(optimized(expr_tree_of(nodes))).settled(sweeps).unwrap(),
                steps,
            ).output,
        ),
{
    let source = expr_tree_of(nodes);
    let program = optimized(source);
    lemma_expr_tree_if_free(nodes);
    lemma_expr_tree_covered(nodes);
    lemma_optimized_sure(source);
    lemma_sure_covered(program, false);
    assert(reach_list(program, outset(input), fuel) == guarded_list(program, outset(input), fuel));
    lemma_compiled_runs(source, input, fuel, ms, sweeps)
}

} // verus!
