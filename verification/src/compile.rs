use vstd::prelude::*;
use crate::frontend::ast::{expr_tree_of, Node};
use crate::frontend::code_gen::{gen_program, lowered};
use crate::frontend::expr_tree::{lemma_view_representable, Instr};
use crate::frontend::laws::faithful;
use crate::frontend::lexer::{lex, tokens_of};
use crate::frontend::lowering::structure::{span_limit, span_list};
use crate::frontend::lowering::{lemma_program_compiled_runs, outset, unused};
use crate::frontend::optimize::{
    apply_optimizations, can_optimize, checked, optimizable, optimized,
};
use crate::frontend::parser::{parse, parsed, ParseError};
use crate::frontend::semantics::{guarded_list, halts_with};
use crate::ir::exec::{Machine, Status};
use crate::ir::optimize::optimize_module;
use crate::ir::{lemma_module_bounds, Module, ModuleView};

verus! {

/// Why a source text is not compiled.
#[derive(Copy, Clone, Debug, PartialEq, Eq, Structural)]
pub enum CompileError {
    /// The text is no program.
    Parse(ParseError),
    /// Folding the moves of the program into offsets gives an offset that
    /// no machine integer holds.
    Offsets,
}

/// The module, started on the machine, halts within the steps, and the
/// tree halts on the input with what the module has then written.
pub open spec fn halts_like(
    m: ModuleView,
    ms: Machine,
    steps: nat,
    tree: Seq<Instr>,
    input: Seq<u8>,
) -> bool {
    ms.started(m).run(m, steps).status == Status::Halted && halts_with(
        tree,
        input,
        ms.started(m).run(m, steps).output,
    )
}

/// The module writes what the tree writes: on every input on which the
/// optimized tree comes to an end, with the range of every bounds check on
/// the tape, the module halts on a machine without cells, and the tree
/// halts on that input with the same output.
pub open spec fn runs_as(m: ModuleView, tree: Seq<Instr>) -> bool {
    forall|input: Seq<u8>, fuel: nat, ms: Machine|
        #[trigger] unused(ms, input) && (#[trigger] guarded_list(
            optimized(tree),
            outset(input),
            fuel,
        )) is Some ==> exists|steps: nat| #[trigger] halts_like(m, ms, steps, tree, input)
}

/// The module is what the tree is compiled to: the optimized tree, lowered,
/// after the passes on modules have settled.
pub open spec fn compiled(tree: Seq<Instr>, m: ModuleView) -> bool {
    exists|sweeps: nat| #[trigger] lowered(optimized(tree)).settled(sweeps) == Some(m)
}

/// Compiles a source text: reads it, builds its tree, runs the schedule on
/// the tree, lowers it, and sweeps the module until nothing changes. The
/// module keeps the rules on assignments and on types. It writes what the
/// tree writes where each loop that the schedule replaces by additions
/// modifies its counter by its decrement alone, and the offsets and moves
/// of the optimized tree sum up to no more than the limit.
pub fn compile(src: &[u8]) -> (r: Result<Module, CompileError>)
    ensures
        match r {
            Ok(m) => parsed(tokens_of(src@)) matches Ok(nodes) && optimizable(expr_tree_of(nodes))
                && compiled(expr_tree_of(nodes), m@) && m@.valid() && m@.orderly() && (faithful(
                checked(expr_tree_of(nodes)),
            ) && span_list(optimized(expr_tree_of(nodes))) <= span_limit() ==> runs_as(
                m@,
                expr_tree_of(nodes),
            )),
            Err(CompileError::Parse(e)) => parsed(tokens_of(src@)) == Err::<Seq<Node>, ParseError>(
                e,
            ),
            Err(CompileError::Offsets) => parsed(tokens_of(src@)) matches Ok(nodes) && !optimizable(
                expr_tree_of(nodes),
            ),
        },
{
    let tokens = lex(src);
    let ast = match parse(tokens.as_slice()) {
        Ok(ast) => ast,
        Err(e) => {
            return Err(CompileError::Parse(e));
        },
    };
    let ghost nodes = ast@;
    let ghost tree = expr_tree_of(nodes);
    let mut program = ast.gen_expr_tree();
    if !can_optimize(&program) {
        return Err(CompileError::Offsets);
    }
    apply_optimizations(&mut program);
    let mut module = gen_program(&program);
    let ghost big = module@;
    proof {
        lemma_view_representable(program.0@);
        lemma_module_bounds(&module);
    }
    optimize_module(&mut module);
    proof {
        let sweeps = choose|n: nat| #[trigger] big.settled(n) == Some(module@);
        let m = module@;
        if faithful(checked(tree)) && span_list(optimized(tree)) <= span_limit() {
            assert forall|input: Seq<u8>, fuel: nat, ms: Machine|
                #[trigger] unused(ms, input) && (#[trigger] guarded_list(
                    optimized(tree),
                    outset(input),
                    fuel,
                )) is Some implies exists|steps: nat| #[trigger] halts_like(m, ms, steps, tree, input) by {
                let steps = lemma_program_compiled_runs(nodes, input, fuel, ms, sweeps);
                assert(halts_like(m, ms, steps, tree, input));
            }
        }
    }
    Ok(module)
}

} // verus!
