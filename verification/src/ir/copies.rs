use vstd::prelude::*;
use super::block::BlockView;
use super::exec::{bound, eval_args, eval_expr, eval_leaf, unset, Fault, Machine, Status, Value};
use super::instruction::{Expr, LeafExpr, Op, Replacements, Target};
use super::laws::{
    in_range, lemma_dead_program, lemma_entered_same, lemma_failed_stays, lemma_first_assign_found,
    lemma_folding_refines, lemma_identity_refines, lemma_negation_refines, lemma_nops_program,
    lemma_program_refines,
};
use super::optimize::{cse_op, first_assign};
use super::order::{
    lemma_blocks_leafs_found, lemma_cse_orderly, lemma_folding_orderly, lemma_identity_orderly,
    lemma_negation_orderly, lemma_propagation_orderly, lemma_sweep_orderly, replacements_found,
};
use super::valid::{op_local, written_before};
use super::register::RegisterID;
use super::valid::{reads_below, Site};
use super::ModuleView;

verus! {

// ---------------------------------------------------------------------------
// What an expression reads
// ---------------------------------------------------------------------------

/// Writing a register that an operand is not leaves the operand's value.
proof fn lemma_leaf_frame(registers: Seq<Value>, l: LeafExpr, t: RegisterID, v: Value)
    requires
        t.0 < registers.len(),
        !l.reads(t),
    ensures
        eval_leaf(registers.update(t.0 as int, v), l) == eval_leaf(registers, l),
{
}

/// Writing a register that an expression does not read leaves its value.
proof fn lemma_expr_frame(registers: Seq<Value>, e: Expr, t: RegisterID, v: Value)
    requires
        t.0 < registers.len(),
        !e.reads(t),
    ensures
        eval_expr(registers.update(t.0 as int, v), e) == eval_expr(registers, e),
{
    match e {
        Expr::Leaf(a) => lemma_leaf_frame(registers, a, t, v),
        Expr::Binary(a, _, b) => {
            lemma_leaf_frame(registers, a, t, v);
            lemma_leaf_frame(registers, b, t, v);
        },
        Expr::Unary(a, _) => lemma_leaf_frame(registers, a, t, v),
        Expr::Test(a, _, b) => {
            lemma_leaf_frame(registers, a, t, v);
            lemma_leaf_frame(registers, b, t, v);
        },
    }
}

// ---------------------------------------------------------------------------
// Common subexpressions
// ---------------------------------------------------------------------------

/// What the machine has assigned in the block since it came to its head
/// still holds: each assignment in front of the machine's place went to a
/// register that holds the value of its expression.
pub open spec fn assigned_holds(m: ModuleView, s: Machine) -> bool {
    &&& in_range(m, s)
    &&& forall|j: int|
        0 <= j < s.index ==> ((#[trigger] m.blocks[s.block].body[j]) matches Op::Assign(r, e) ==> r.0
            < s.registers.len() && eval_expr(s.registers, e) == Ok::<Value, Fault>(
            s.registers[r.0 as int],
        ))
}

/// The machine after an instruction has written `t`: what was assigned
/// before still holds.
proof fn lemma_assigned_after_write(m: ModuleView, s: Machine, t: RegisterID, v: Value)
    requires
        m.orderly(),
        assigned_holds(m, s),
        s.index < m.blocks[s.block].body.len(),
        m.blocks[s.block].body[s.index].target() == Some(t),
        t.0 < s.registers.len(),
        m.blocks[s.block].body[s.index] matches Op::Assign(_, e) ==> eval_expr(s.registers, e)
            == Ok::<Value, Fault>(v),
    ensures
        assigned_holds(
            m,
            Machine { registers: s.registers.update(t.0 as int, v), ..s }.advanced(),
        ),
{
    let body = m.blocks[s.block].body;
    let next = Machine { registers: s.registers.update(t.0 as int, v), ..s }.advanced();
    assert forall|j: int| 0 <= j < next.index implies ((
    #[trigger] m.blocks[next.block].body[j]) matches Op::Assign(r, e) ==> r.0
        < next.registers.len() && eval_expr(next.registers, e) == Ok::<Value, Fault>(
        next.registers[r.0 as int],
    )) by {
        match body[j] {
            Op::Assign(r, e) => {
                // The expression reads registers below the one that is written.
                let x = m.blocks[s.block].body[j];
                let y = m.blocks[s.block].body[s.index];
                assert(reads_below(m.blocks[s.block].body[j], t.0 as int));
                assert(!e.reads(t)) by {
                    if e.reads(t) {
                        assert(x.reads(t));
                    }
                }
                lemma_expr_frame(s.registers, e, t, v);
                if j < s.index {
                    assert(m.defines(Site::Instruction { block: s.block, index: j }, r));
                    assert(m.defines(Site::Instruction { block: s.block, index: s.index }, t));
                    assert(r != t);
                }
            },
            _ => {},
        }
    }
}

/// One step on the module without common subexpressions is the step on the
/// module, where that one does not fail; and what was assigned still holds.
proof fn lemma_cse_step(m: ModuleView, s: Machine)
    requires
        m.orderly(),
        assigned_holds(m, s),
        s.running(),
        !(s.step(m).status is Failed),
    ensures
        s.step(m.after_cse()) == s.step(m),
        s.blocked(m.after_cse()) == s.blocked(m),
        assigned_holds(m, s.step(m)),
{
    let by = m.after_cse();
    let body = m.blocks[s.block].body;
    assert(by.blocks[s.block].body.len() == body.len());
    match s.current(m) {
        Some(op) => {
            let other = by.blocks[s.block].body[s.index];
            assert(other == cse_op(body, s.index));
            match op {
                Op::Jump(target) => {
                    lemma_entered_same(m, by, s, target);
                },
                Op::Branch(c, then, els) => {
                    lemma_entered_same(m, by, s, then);
                    lemma_entered_same(m, by, s, els);
                },
                Op::Assign(t, e) => {
                    let v = eval_expr(s.registers, e).unwrap();
                    lemma_assigned_after_write(m, s, t, v);
                    if other != op {
                        lemma_first_assign_found(body, e, s.index);
                        let r = first_assign(body, e, s.index).unwrap();
                        let first = choose|first: int|
                            0 <= first < s.index && #[trigger] body[first] == Op::Assign(r, e);
                        assert(m.blocks[s.block].body[first] == Op::Assign(r, e));
                    }
                },
                Op::LoadCell(t, index) => {
                    let next = s.step(m);
                    lemma_assigned_after_write(m, s, t, next.registers[t.0 as int]);
                    assert(next.registers =~= s.registers.update(
                        t.0 as int,
                        next.registers[t.0 as int],
                    ));
                },
                Op::Input(t, default) => {
                    let next = s.step(m);
                    let mid = if s.input.len() > 0 {
                        Machine { input: s.input.skip(1), ..s }
                    } else {
                        s
                    };
                    assert(assigned_holds(m, mid));
                    lemma_assigned_after_write(m, mid, t, next.registers[t.0 as int]);
                    assert(next.registers =~= s.registers.update(
                        t.0 as int,
                        next.registers[t.0 as int],
                    ));
                },
                _ => {},
            }
        },
        None => {},
    }
}

/// A run, from the head of a block, on the module without common
/// subexpressions is the run on the module, where that one does not fail.
pub proof fn lemma_cse_run(m: ModuleView, s: Machine, fuel: nat)
    requires
        m.orderly(),
        assigned_holds(m, s),
        !(s.run(m, fuel).status is Failed),
    ensures
        s.run(m.after_cse(), fuel) == s.run(m, fuel),
    decreases fuel,
{
    let by = m.after_cse();
    if fuel > 0 && s.running() {
        let next = s.step(m);
        if s.blocked(m) {
            lemma_cse_blocked(m, s);
        } else {
            if next.status is Failed {
                lemma_failed_stays(m, next, (fuel - 1) as nat);
            }
            lemma_cse_step(m, s);
            lemma_cse_run(m, next, (fuel - 1) as nat);
        }
    }
}

proof fn lemma_cse_blocked(m: ModuleView, s: Machine)
    requires
        in_range(m, s),
    ensures
        s.blocked(m.after_cse()) == s.blocked(m),
{
    let by = m.after_cse();
    assert(by.blocks[s.block].body.len() == m.blocks[s.block].body.len());
    match s.current(m) {
        Some(op) => {
            assert(by.blocks[s.block].body[s.index] == cse_op(m.blocks[s.block].body, s.index));
        },
        None => {},
    }
}

/// A program run on an orderly module without its common subexpressions
/// does what it does on the module, where that run does not fail.
pub proof fn lemma_cse_program(m: ModuleView, s: Machine, fuel: nat)
    requires
        m.orderly(),
        !(s.started(m).run(m, fuel).status is Failed),
    ensures
        s.started(m.after_cse()).run(m.after_cse(), fuel) == s.started(m).run(m, fuel),
{
    let by = m.after_cse();
    let start = s.started(m);
    match m.entry {
        Some(entry) => {
            let cleared = Machine {
                registers: unset(m.registers.len()),
                status: Status::Running,
                ..s
            };
            lemma_entered_same(m, by, cleared, Target { id: entry, args: Seq::empty() });
        },
        None => {},
    }
    assert(s.started(by) == start);
    if start.status is Failed {
        lemma_failed_stays(m, start, fuel);
    } else {
        lemma_cse_run(m, start, fuel);
    }
}

// ---------------------------------------------------------------------------
// Propagation of single operands
// ---------------------------------------------------------------------------

/// A register holds nothing, or what the other holds.
pub open spec fn at_most(a: Value, b: Value) -> bool {
    a == Value::Uninit || a == b
}

/// A value that may be missing is at most what the other is.
pub open spec fn result_at_most(a: Result<Value, Fault>, b: Result<Value, Fault>) -> bool {
    a matches Ok(x) ==> (b matches Ok(y) && at_most(x, y))
}

/// The second machine is the first, with values in some registers that
/// hold nothing in the first.
pub open spec fn refined_by(s: Machine, t: Machine) -> bool {
    &&& t.cells == s.cells
    &&& t.input == s.input
    &&& t.open == s.open
    &&& t.output == s.output
    &&& t.status == s.status
    &&& t.block == s.block
    &&& t.index == s.index
    &&& t.registers.len() == s.registers.len()
    &&& forall|r: int| 0 <= r < s.registers.len() ==> at_most(s.registers[r], #[trigger] t.registers[r])
}

/// The register that is assigned a single operand holds nothing, or the
/// value of the operand.
pub open spec fn copy_settled(s: Machine, r: usize, l: LeafExpr) -> bool {
    s.registers[r as int] == Value::Uninit || eval_leaf(s.registers, l) == Ok::<Value, Fault>(
        s.registers[r as int],
    )
}

/// The machine stands between the place where the block writes the operand
/// and the place where it assigns it to the register.
pub open spec fn copy_pending(m: ModuleView, s: Machine, r: usize, l: LeafExpr) -> bool {
    l matches LeafExpr::Register(q) && exists|i: int, j: int|
        #![trigger m.blocks[s.block].body[i], m.blocks[s.block].body[j]]
        0 <= j < i < m.blocks[s.block].body.len() && m.blocks[s.block].body[i] == Op::Assign(
            RegisterID(r),
            Expr::Leaf(l),
        ) && m.blocks[s.block].body[j].target() == Some(q) && j < s.index <= i
}

/// Every register that is assigned a single operand holds nothing or the
/// value of the operand, but between the writing of the operand and the
/// assignment.
pub open spec fn copies_hold(m: ModuleView, map: Replacements, s: Machine) -> bool {
    &&& in_range(m, s)
    &&& s.registers.len() == m.registers.len()
    &&& forall|r: usize| #[trigger]
        map.contains_key(r) && r < s.registers.len() ==> copy_settled(s, r, map[r])
            || copy_pending(m, s, r, map[r])
}

/// Where a replacement stands for a register, the module assigns it to the
/// register at one place; and where it is a register, the block of that
/// place writes it before.
proof fn lemma_copy_site(m: ModuleView, map: Replacements, r: usize) -> (site: (int, int))
    requires
        m.orderly(),
        replacements_found(m, map),
        map.contains_key(r),
    ensures
        0 <= site.0 < m.blocks.len(),
        0 <= site.1 < m.blocks[site.0].body.len(),
        m.blocks[site.0].body[site.1] == Op::Assign(RegisterID(r), Expr::Leaf(map[r])),
        r < m.registers.len(),
        map[r] matches LeafExpr::Register(q) ==> q.0 < r && q.0 < m.registers.len()
            && written_before(m.blocks[site.0].body, site.1, q),
{
    let (b, i) = choose|b: int, i: int|
        0 <= b < m.blocks.len() && 0 <= i < m.blocks[b].body.len() && #[trigger] m.blocks[b].body[i]
            == Op::Assign(RegisterID(r), Expr::Leaf(map[r]));
    let op = m.blocks[b].body[i];
    assert(m.defines(Site::Instruction { block: b, index: i }, RegisterID(r)));
    assert(op_local(m.blocks[b].body, i, m.blocks[b].body[i]));
    match map[r] {
        LeafExpr::Register(q) => {
            let x = m.blocks[b].body[i];
            let y = m.blocks[b].body[i];
            assert(reads_below(m.blocks[b].body[i], r as int));
            assert(op.reads(q));
            let j = choose|j: int|
                0 <= j < i && j < m.blocks[b].body.len() && (#[trigger] m.blocks[b].body[j]).target()
                    == Some(q);
            assert(m.defines(Site::Instruction { block: b, index: j }, q));
        },
        _ => {},
    }
    (b, i)
}

/// The operand that the machine reads at its place, replaced, has at least
/// the value that the operand has.
proof fn lemma_replaced_use(
    m: ModuleView,
    map: Replacements,
    s: Machine,
    t: Machine,
    l: LeafExpr,
)
    requires
        m.orderly(),
        replacements_found(m, map),
        copies_hold(m, map, s),
        refined_by(s, t),
        s.index < m.blocks[s.block].body.len(),
        l matches LeafExpr::Register(r) ==> m.blocks[s.block].body[s.index].reads(r),
    ensures
        result_at_most(eval_leaf(s.registers, l), eval_leaf(t.registers, l.replaced(map))),
{
    match l {
        LeafExpr::Register(r) => {
            if r.0 < s.registers.len() {
                assert(at_most(s.registers[r.0 as int], t.registers[r.0 as int]));
                if map.contains_key(r.0) {
                    let site = lemma_copy_site(m, map, r.0);
                    if copy_pending(m, s, r.0, map[r.0]) {
                        let (i, j) = choose|i: int, j: int|
                            #![trigger m.blocks[s.block].body[i], m.blocks[s.block].body[j]]
                            0 <= j < i < m.blocks[s.block].body.len() && m.blocks[s.block].body[i]
                                == Op::Assign(RegisterID(r.0), Expr::Leaf(map[r.0]))
                                && m.blocks[s.block].body[j].target() == Some(
                                map[r.0]->Register_0,
                            ) && j < s.index <= i;
                        let x = m.blocks[s.block].body[s.index];
                        let y = m.blocks[s.block].body[i];
                        assert(reads_below(m.blocks[s.block].body[s.index], r.0 as int));
                        assert(false);
                    }
                    match map[r.0] {
                        LeafExpr::Register(q) => {
                            assert(at_most(s.registers[q.0 as int], t.registers[q.0 as int]));
                        },
                        _ => {},
                    }
                }
            }
        },
        _ => {},
    }
}

/// Binding parameters leaves every register that is no parameter as it is.
proof fn lemma_bound_frame(
    registers: Seq<Value>,
    parameters: Seq<RegisterID>,
    vals: Seq<Value>,
    n: int,
    x: int,
)
    requires
        0 <= n <= parameters.len(),
        0 <= x < registers.len(),
        forall|k: int| 0 <= k < n ==> (#[trigger] parameters[k]).0 != x,
    ensures
        bound(registers, parameters, vals, n) matches Ok(after) ==> after.len() == registers.len()
            && after[x] == registers[x],
    decreases n,
{
    if n > 0 {
        lemma_bound_frame(registers, parameters, vals, n - 1, x);
    }
}

proof fn lemma_bound_refined(
    a: Seq<Value>,
    b: Seq<Value>,
    parameters: Seq<RegisterID>,
    vals: Seq<Value>,
    others: Seq<Value>,
    n: int,
)
    requires
        0 <= n <= parameters.len(),
        n <= vals.len(),
        vals.len() == others.len(),
        a.len() == b.len(),
        forall|r: int| 0 <= r < a.len() ==> at_most(a[r], #[trigger] b[r]),
        forall|k: int| 0 <= k < vals.len() ==> at_most(vals[k], #[trigger] others[k]),
    ensures
        bound(a, parameters, vals, n) matches Ok(x) ==> (bound(b, parameters, others, n) matches Ok(
            y,
        ) && y.len() == x.len() && x.len() == a.len() && forall|r: int|
            0 <= r < x.len() ==> at_most(x[r], #[trigger] y[r])),
    decreases n,
{
    if n > 0 {
        lemma_bound_refined(a, b, parameters, vals, others, n - 1);
        match bound(a, parameters, vals, n - 1) {
            Ok(x) => {
                let y = bound(b, parameters, others, n - 1).unwrap();
                if parameters[n - 1].0 < x.len() {
                    let p = parameters[n - 1].0 as int;
                    let x2 = x.update(p, vals[n - 1]);
                    let y2 = y.update(p, others[n - 1]);
                    assert forall|r: int| 0 <= r < x2.len() implies at_most(
                        x2[r],
                        #[trigger] y2[r],
                    ) by {
                        if r != p {
                            assert(at_most(x[r], y[r]));
                        } else {
                            assert(at_most(vals[n - 1], others[n - 1]));
                        }
                    }
                }
            },
            Err(_) => {},
        }
    }
}

proof fn lemma_args_refined(
    m: ModuleView,
    map: Replacements,
    s: Machine,
    t: Machine,
    target: Target,
    n: int,
)
    requires
        m.orderly(),
        replacements_found(m, map),
        copies_hold(m, map, s),
        refined_by(s, t),
        s.index < m.blocks[s.block].body.len(),
        0 <= n <= target.args.len(),
        forall|k: int|
            0 <= k < target.args.len() ==> ((#[trigger] target.args[k]) matches LeafExpr::Register(
                r,
            ) ==> m.blocks[s.block].body[s.index].reads(r)),
    ensures
        eval_args(s.registers, target.args, n) matches Ok(vals) ==> (eval_args(
            t.registers,
            target.replaced(map).args,
            n,
        ) matches Ok(others) && others.len() == vals.len() && vals.len() == n && forall|k: int|
            0 <= k < n ==> at_most(vals[k], #[trigger] others[k])),
    decreases n,
{
    if n > 0 {
        lemma_args_refined(m, map, s, t, target, n - 1);
        lemma_replaced_use(m, map, s, t, target.args[n - 1]);
        match eval_args(s.registers, target.args, n) {
            Ok(vals) => {
                let before = eval_args(s.registers, target.args, n - 1).unwrap();
                let others_before = eval_args(t.registers, target.replaced(map).args, n - 1).unwrap();
                let others = eval_args(t.registers, target.replaced(map).args, n).unwrap();
                assert forall|k: int| 0 <= k < n implies at_most(vals[k], #[trigger] others[k]) by {
                    if k < n - 1 {
                        assert(vals[k] == before[k]);
                        assert(others[k] == others_before[k]);
                    }
                }
            },
            Err(_) => {},
        }
    }
}

/// Entering a block with the replaced arguments gives at least what
/// entering it with the arguments gives, and leaves every register that is
/// no parameter as it is.
proof fn lemma_entered_refined(
    m: ModuleView,
    map: Replacements,
    s: Machine,
    t: Machine,
    target: Target,
)
    requires
        m.orderly(),
        replacements_found(m, map),
        copies_hold(m, map, s),
        refined_by(s, t),
        s.index < m.blocks[s.block].body.len(),
        forall|k: int|
            0 <= k < target.args.len() ==> ((#[trigger] target.args[k]) matches LeafExpr::Register(
                r,
            ) ==> m.blocks[s.block].body[s.index].reads(r)),
    ensures
        s.entered(m, target) matches Ok(next) ==> (t.entered(
            m.after_propagation(),
            target.replaced(map),
        ) matches Ok(other) && refined_by(next, other) && next.registers.len()
            == s.registers.len() && in_range(m, next) && next.index == 0 && forall|x: int|
            0 <= x < s.registers.len() && (forall|k: int|
                0 <= k < m.blocks[next.block].parameters.len() ==> (
                #[trigger] m.blocks[next.block].parameters[k]).0 != x) ==> next.registers[x]
                == s.registers[x]),
{
    let by = m.after_propagation();
    let n = target.args.len() as int;
    lemma_args_refined(m, map, s, t, target, n);
    match eval_args(s.registers, target.args, n) {
        Ok(vals) => {
            if target.id.0 < m.blocks.len() {
                let parameters = m.blocks[target.id.0 as int].parameters;
                assert(by.blocks[target.id.0 as int].parameters == parameters);
                let others = eval_args(t.registers, target.replaced(map).args, n).unwrap();
                let count = super::exec::smaller(parameters.len() as int, vals.len() as int);
                lemma_bound_refined(s.registers, t.registers, parameters, vals, others, count);
                match bound(s.registers, parameters, vals, count) {
                    Ok(after) => {
                        assert forall|x: int|
                            0 <= x < s.registers.len() && (forall|k: int|
                                0 <= k < parameters.len() ==> (#[trigger] parameters[k]).0
                                    != x) implies after[x] == s.registers[x] by {
                            lemma_bound_frame(s.registers, parameters, vals, count, x);
                        }
                    },
                    Err(_) => {},
                }
            }
        },
        Err(_) => {},
    }
}

/// A copy that is settled stays settled where neither its register nor its
/// operand is written.
proof fn lemma_settled_frame(s: Machine, next: Machine, r: usize, l: LeafExpr)
    requires
        copy_settled(s, r, l),
        r < s.registers.len(),
        next.registers.len() == s.registers.len(),
        next.registers[r as int] == s.registers[r as int],
        l matches LeafExpr::Register(q) ==> q.0 < s.registers.len() ==> next.registers[q.0 as int]
            == s.registers[q.0 as int],
    ensures
        copy_settled(next, r, l),
{
}

/// After a step that writes the register `x`, or none, and goes on to the
/// next instruction, the copies hold.
proof fn lemma_copies_after_write(
    m: ModuleView,
    map: Replacements,
    s: Machine,
    next: Machine,
    x: Option<RegisterID>,
)
    requires
        m.orderly(),
        replacements_found(m, map),
        copies_hold(m, map, s),
        s.index < m.blocks[s.block].body.len(),
        m.blocks[s.block].body[s.index].target() == x,
        !m.blocks[s.block].body[s.index].is_terminator(),
        next.block == s.block,
        next.index == s.index + 1,
        next.registers.len() == s.registers.len(),
        forall|r: int|
            0 <= r < s.registers.len() && x != Some(RegisterID(r as usize)) ==> next.registers[r]
                == s.registers[r],
        m.blocks[s.block].body[s.index] matches Op::Assign(r, Expr::Leaf(l)) ==> eval_leaf(
            s.registers,
            l,
        ) == Ok::<Value, Fault>(next.registers[r.0 as int]),
    ensures
        copies_hold(m, map, next),
{
    let body = m.blocks[s.block].body;
    let op = body[s.index];
    let here = Site::Instruction { block: s.block, index: s.index };
    assert forall|r: usize| #[trigger]
        map.contains_key(r) && r < next.registers.len() implies copy_settled(next, r, map[r])
        || copy_pending(m, next, r, map[r]) by {
        let site = lemma_copy_site(m, map, r);
        let there = Site::Instruction { block: site.0, index: site.1 };
        assert(m.defines(there, RegisterID(r)));
        if x == Some(RegisterID(r)) {
            // The step is the assignment of the operand to the register.
            assert(m.defines(here, RegisterID(r)));
            assert(here == there);
            match map[r] {
                LeafExpr::Register(q) => {
                    assert(next.registers[q.0 as int] == s.registers[q.0 as int]);
                },
                _ => {},
            }
            assert(copy_settled(next, r, map[r]));
        } else {
            assert(next.registers[r as int] == s.registers[r as int]);
            match map[r] {
                LeafExpr::Register(q) => {
                    if x == Some(q) {
                        // The step writes the operand: the copy is pending.
                        assert(m.defines(here, q));
                        let j = choose|j: int|
                            0 <= j < site.1 && j < m.blocks[site.0].body.len() && (
                            #[trigger] m.blocks[site.0].body[j]).target() == Some(q);
                        assert(m.defines(Site::Instruction { block: site.0, index: j }, q));
                        assert(here == Site::Instruction { block: site.0, index: j });
                        let u = m.blocks[next.block].body[site.1];
                        let w = m.blocks[next.block].body[j];
                        assert(copy_pending(m, next, r, map[r]));
                    } else if copy_pending(m, s, r, map[r]) {
                        let (i, j) = choose|i: int, j: int|
                            #![trigger m.blocks[s.block].body[i], m.blocks[s.block].body[j]]
                            0 <= j < i < m.blocks[s.block].body.len() && m.blocks[s.block].body[i]
                                == Op::Assign(RegisterID(r), Expr::Leaf(map[r]))
                                && m.blocks[s.block].body[j].target() == Some(q) && j < s.index
                                <= i;
                        if s.index == i {
                            assert(op.target() == Some(RegisterID(r)));
                        }
                        let u = m.blocks[next.block].body[i];
                        let w = m.blocks[next.block].body[j];
                        assert(copy_pending(m, next, r, map[r]));
                    } else {
                        lemma_settled_frame(s, next, r, map[r]);
                    }
                },
                LeafExpr::Int(_) => {
                    lemma_settled_frame(s, next, r, map[r]);
                },
            }
        }
    }
}

/// After a jump or a branch, the copies hold.
proof fn lemma_copies_after_jump(m: ModuleView, map: Replacements, s: Machine, next: Machine)
    requires
        m.orderly(),
        replacements_found(m, map),
        copies_hold(m, map, s),
        s.index < m.blocks[s.block].body.len(),
        m.blocks[s.block].body[s.index].is_terminator(),
        in_range(m, next),
        next.index == 0,
        next.registers.len() == s.registers.len(),
        forall|x: int|
            0 <= x < s.registers.len() && (forall|k: int|
                0 <= k < m.blocks[next.block].parameters.len() ==> (
                #[trigger] m.blocks[next.block].parameters[k]).0 != x) ==> next.registers[x]
                == s.registers[x],
    ensures
        copies_hold(m, map, next),
{
    assert forall|r: usize| #[trigger]
        map.contains_key(r) && r < next.registers.len() implies copy_settled(next, r, map[r])
        || copy_pending(m, next, r, map[r]) by {
        let site = lemma_copy_site(m, map, r);
        let there = Site::Instruction { block: site.0, index: site.1 };
        assert(m.defines(there, RegisterID(r)));
        // A register that an instruction writes is no parameter.
        assert forall|k: int| 0 <= k < m.blocks[next.block].parameters.len() implies (
        #[trigger] m.blocks[next.block].parameters[k]).0 != r by {
            if m.blocks[next.block].parameters[k].0 == r {
                assert(m.defines(
                    Site::Parameter { block: next.block, index: k },
                    RegisterID(r),
                ));
            }
        }
        assert(next.registers[r as int] == s.registers[r as int]);
        if copy_pending(m, s, r, map[r]) {
            let q = map[r]->Register_0;
            let (i, j) = choose|i: int, j: int|
                #![trigger m.blocks[s.block].body[i], m.blocks[s.block].body[j]]
                0 <= j < i < m.blocks[s.block].body.len() && m.blocks[s.block].body[i]
                    == Op::Assign(RegisterID(r), Expr::Leaf(map[r])) && m.blocks[s.block].body[j].target()
                    == Some(q) && j < s.index <= i;
            // A jump is the last instruction of its block, and no assignment.
            assert(s.index == m.blocks[s.block].body.len() - 1);
            assert(false);
        }
        match map[r] {
            LeafExpr::Register(q) => {
                let j = choose|j: int|
                    0 <= j < site.1 && j < m.blocks[site.0].body.len() && (
                    #[trigger] m.blocks[site.0].body[j]).target() == Some(q);
                assert(m.defines(Site::Instruction { block: site.0, index: j }, q));
                assert forall|k: int| 0 <= k < m.blocks[next.block].parameters.len() implies (
                #[trigger] m.blocks[next.block].parameters[k]).0 != q.0 by {
                    if m.blocks[next.block].parameters[k].0 == q.0 {
                        assert(m.defines(Site::Parameter { block: next.block, index: k }, q));
                    }
                }
                assert(next.registers[q.0 as int] == s.registers[q.0 as int]);
            },
            _ => {},
        }
        lemma_settled_frame(s, next, r, map[r]);
    }
}

/// What a step needs of the two machines and the module.
pub open spec fn step_ready(m: ModuleView, s: Machine, t: Machine) -> bool {
    &&& m.orderly()
    &&& replacements_found(m, m.leaf_assigns())
    &&& copies_hold(m, m.leaf_assigns(), s)
    &&& refined_by(s, t)
    &&& s.running()
    &&& !(s.step(m).status is Failed)
    &&& s.index < m.blocks[s.block].body.len()
    &&& m.after_propagation().blocks[s.block].body.len() == m.blocks[s.block].body.len()
    &&& m.after_propagation().blocks[s.block].body[s.index] == m.blocks[s.block].body[s.index].replaced(
        m.leaf_assigns(),
    )
}

/// What a step has to give.
pub open spec fn step_done(m: ModuleView, s: Machine, t: Machine) -> bool {
    refined_by(s.step(m), t.step(m.after_propagation())) && copies_hold(
        m,
        m.leaf_assigns(),
        s.step(m),
    )
}

proof fn lemma_step_stays(m: ModuleView, s: Machine, t: Machine)
    requires
        step_ready(m, s, t),
        m.blocks[s.block].body[s.index] is Nop || m.blocks[s.block].body[s.index] is StoreCell
            || m.blocks[s.block].body[s.index] is BoundsCheck || m.blocks[s.block].body[s.index] is Output,
    ensures
        step_done(m, s, t),
{
    let map = m.leaf_assigns();
    let next = s.step(m);
    match m.blocks[s.block].body[s.index] {
        Op::StoreCell(index, value) => {
            lemma_replaced_use(m, map, s, t, index);
            lemma_replaced_use(m, map, s, t, value);
        },
        Op::BoundsCheck(start, end) => {
            lemma_replaced_use(m, map, s, t, end);
        },
        Op::Output(value) => {
            lemma_replaced_use(m, map, s, t, value);
        },
        _ => {},
    }
    lemma_copies_after_write(m, map, s, next, None);
}

proof fn lemma_step_load(m: ModuleView, s: Machine, t: Machine)
    requires
        step_ready(m, s, t),
        m.blocks[s.block].body[s.index] is LoadCell || m.blocks[s.block].body[s.index] is Input,
    ensures
        step_done(m, s, t),
{
    let map = m.leaf_assigns();
    let by = m.after_propagation();
    let next = s.step(m);
    let after = t.step(by);
    match m.blocks[s.block].body[s.index] {
        Op::LoadCell(target, index) => {
            lemma_replaced_use(m, map, s, t, index);
            lemma_copies_after_write(m, map, s, next, Some(target));
        },
        Op::Input(target, default) => {
            lemma_replaced_use(m, map, s, t, default);
            lemma_copies_after_write(m, map, s, next, Some(target));
        },
        _ => {},
    }
    assert forall|r: int| 0 <= r < next.registers.len() implies at_most(
        next.registers[r],
        #[trigger] after.registers[r],
    ) by {
        assert(at_most(s.registers[r], t.registers[r]));
    }
}

proof fn lemma_step_assign(m: ModuleView, s: Machine, t: Machine)
    requires
        step_ready(m, s, t),
        m.blocks[s.block].body[s.index] is Assign,
    ensures
        step_done(m, s, t),
{
    let map = m.leaf_assigns();
    let by = m.after_propagation();
    let next = s.step(m);
    let after = t.step(by);
    match m.blocks[s.block].body[s.index] {
        Op::Assign(target, e) => {
            match e {
                Expr::Leaf(a) => {
                    lemma_replaced_use(m, map, s, t, a);
                },
                Expr::Binary(a, _, b) => {
                    lemma_replaced_use(m, map, s, t, a);
                    lemma_replaced_use(m, map, s, t, b);
                },
                Expr::Unary(a, _) => {
                    lemma_replaced_use(m, map, s, t, a);
                },
                Expr::Test(a, _, b) => {
                    lemma_replaced_use(m, map, s, t, a);
                    lemma_replaced_use(m, map, s, t, b);
                },
            }
            assert(result_at_most(
                eval_expr(s.registers, e),
                eval_expr(t.registers, e.replaced(map)),
            ));
            lemma_copies_after_write(m, map, s, next, Some(target));
        },
        _ => {},
    }
    assert forall|r: int| 0 <= r < next.registers.len() implies at_most(
        next.registers[r],
        #[trigger] after.registers[r],
    ) by {
        assert(at_most(s.registers[r], t.registers[r]));
    }
}

proof fn lemma_reads_args(op: Op, target: Target)
    requires
        op matches Op::Jump(t) ==> t == target,
        op matches Op::Branch(_, t, e) ==> t == target || e == target,
        op is Jump || op is Branch,
    ensures
        forall|k: int|
            0 <= k < target.args.len() ==> ((#[trigger] target.args[k]) matches LeafExpr::Register(
                r,
            ) ==> op.reads(r)),
{
    assert forall|k: int| 0 <= k < target.args.len() implies ((
    #[trigger] target.args[k]) matches LeafExpr::Register(r) ==> op.reads(r)) by {
        match target.args[k] {
            LeafExpr::Register(r) => {
                assert(target.args[k].reads(r));
                assert(target.reads(r));
            },
            _ => {},
        }
    }
}

proof fn lemma_step_jump(m: ModuleView, s: Machine, t: Machine)
    requires
        step_ready(m, s, t),
        m.blocks[s.block].body[s.index] is Jump || m.blocks[s.block].body[s.index] is Branch,
    ensures
        step_done(m, s, t),
{
    let map = m.leaf_assigns();
    let next = s.step(m);
    let op = m.blocks[s.block].body[s.index];
    match op {
        Op::Jump(target) => {
            lemma_reads_args(op, target);
            lemma_entered_refined(m, map, s, t, target);
        },
        Op::Branch(c, then, els) => {
            lemma_replaced_use(m, map, s, t, c);
            lemma_reads_args(op, then);
            lemma_reads_args(op, els);
            lemma_entered_refined(m, map, s, t, then);
            lemma_entered_refined(m, map, s, t, els);
        },
        _ => {},
    }
    lemma_copies_after_jump(m, map, s, next);
}

/// One step on the module with its single operands propagated gives at
/// least what the step on the module gives, where that one does not fail;
/// and the copies hold.
proof fn lemma_propagation_step(m: ModuleView, s: Machine, t: Machine)
    requires
        m.orderly(),
        copies_hold(m, m.leaf_assigns(), s),
        refined_by(s, t),
        s.running(),
        !(s.step(m).status is Failed),
    ensures
        refined_by(s.step(m), t.step(m.after_propagation())),
        copies_hold(m, m.leaf_assigns(), s.step(m)),
{
    let by = m.after_propagation();
    let map = m.leaf_assigns();
    lemma_blocks_leafs_found(m, m.blocks.len() as int);
    assert(by.blocks[s.block].body.len() == m.blocks[s.block].body.len());
    let next = s.step(m);
    if s.index < m.blocks[s.block].body.len() {
        assert(by.blocks[s.block].body[s.index] == m.blocks[s.block].body[s.index].replaced(map));
        assert(step_ready(m, s, t));
        match m.blocks[s.block].body[s.index] {
            Op::Nop => lemma_step_stays(m, s, t),
            Op::StoreCell(_, _) => lemma_step_stays(m, s, t),
            Op::BoundsCheck(_, _) => lemma_step_stays(m, s, t),
            Op::Output(_) => lemma_step_stays(m, s, t),
            Op::LoadCell(_, _) => lemma_step_load(m, s, t),
            Op::Input(_, _) => lemma_step_load(m, s, t),
            Op::Assign(_, _) => lemma_step_assign(m, s, t),
            Op::Jump(_) => lemma_step_jump(m, s, t),
            Op::Branch(_, _, _) => lemma_step_jump(m, s, t),
        }
    } else {
        assert forall|r: usize| #[trigger]
            map.contains_key(r) && r < next.registers.len() implies copy_settled(next, r, map[r])
            || copy_pending(m, next, r, map[r]) by {
            if copy_pending(m, s, r, map[r]) {
                assert(copy_pending(m, next, r, map[r]));
            }
        }
    }
}

proof fn lemma_propagation_blocked(m: ModuleView, s: Machine, t: Machine)
    requires
        in_range(m, s),
        refined_by(s, t),
    ensures
        t.blocked(m.after_propagation()) == s.blocked(m),
{
    let by = m.after_propagation();
    assert(by.blocks[s.block].body.len() == m.blocks[s.block].body.len());
    match s.current(m) {
        Some(op) => {
            assert(by.blocks[s.block].body[s.index] == op.replaced(m.leaf_assigns()));
        },
        None => {},
    }
}

/// A run on the module with its single operands propagated gives at least
/// what the run on the module gives, where that one does not fail: the
/// same tape and the same output, and it halts, waits or goes on alike.
pub proof fn lemma_propagation_run(m: ModuleView, s: Machine, t: Machine, fuel: nat)
    requires
        m.orderly(),
        copies_hold(m, m.leaf_assigns(), s),
        refined_by(s, t),
        !(s.run(m, fuel).status is Failed),
    ensures
        refined_by(s.run(m, fuel), t.run(m.after_propagation(), fuel)),
    decreases fuel,
{
    let by = m.after_propagation();
    lemma_propagation_blocked(m, s, t);
    if fuel > 0 && s.running() && !s.blocked(m) {
        let next = s.step(m);
        if next.status is Failed {
            lemma_failed_stays(m, next, (fuel - 1) as nat);
        }
        lemma_propagation_step(m, s, t);
        lemma_propagation_run(m, next, t.step(by), (fuel - 1) as nat);
    }
}

/// A program run on an orderly module with its single operands propagated
/// does what it does on the module, where that run does not fail.
pub proof fn lemma_propagation_program(m: ModuleView, s: Machine, fuel: nat)
    requires
        m.orderly(),
        !(s.started(m).run(m, fuel).status is Failed),
    ensures
        refined_by(
            s.started(m).run(m, fuel),
            s.started(m.after_propagation()).run(m.after_propagation(), fuel),
        ),
{
    let by = m.after_propagation();
    let map = m.leaf_assigns();
    let start = s.started(m);
    match m.entry {
        Some(entry) => {
            let cleared = Machine {
                registers: unset(m.registers.len()),
                status: Status::Running,
                ..s
            };
            lemma_entered_same(m, by, cleared, Target { id: entry, args: Seq::empty() });
        },
        None => {},
    }
    assert(s.started(by) == start);
    if start.status is Failed {
        lemma_failed_stays(m, start, fuel);
    } else {
        // Every register holds nothing at the start.
        assert(start.registers =~= unset(m.registers.len()));
        assert forall|r: usize| #[trigger]
            map.contains_key(r) && r < start.registers.len() implies copy_settled(
            start,
            r,
            map[r],
        ) by {
            assert(start.registers[r as int] == Value::Uninit);
        }
        lemma_propagation_run(m, start, start, fuel);
    }
}

// ---------------------------------------------------------------------------
// The sweeps
// ---------------------------------------------------------------------------

/// The program, started on the machine `s`, halts on the module within the
/// fuel, with the tape and the output of `end`.
pub open spec fn halts_as(m: ModuleView, s: Machine, fuel: nat, end: Machine) -> bool {
    let r = s.started(m).run(m, fuel);
    r.status == Status::Halted && r.output == end.output && r.cells == end.cells
}

/// The program, started on the machine `s`, comes on the module within the
/// fuel to the status of `end`, with its tape, its output and its input
/// left.
pub open spec fn runs_to(m: ModuleView, s: Machine, fuel: nat, end: Machine) -> bool {
    let r = s.started(m).run(m, fuel);
    r.status == end.status && r.output == end.output && r.cells == end.cells && r.input
        == end.input
}

/// A run of a program on an orderly module that does not fail is, on the
/// module after one sweep of all the passes, a run of no more steps that
/// halts, waits or goes on alike, with the same tape and the same output.
pub proof fn lemma_sweep_runs(m: ModuleView, s: Machine, fuel: nat) -> (less: nat)
    requires
        m.orderly(),
        !(s.started(m).run(m, fuel).status is Failed),
    ensures
        less <= fuel,
        runs_to(m.sweep().0, s, less, s.started(m).run(m, fuel)),
{
    let m1 = m.after_cse();
    let m2 = m1.after_identity();
    let m3 = m2.after_negation();
    let m4 = m3.after_folding();
    let m5 = m4.after_propagation();
    let m6 = m5.after_dead();
    lemma_cse_program(m, s, fuel);
    lemma_cse_orderly(m);
    lemma_identity_refines(m1);
    lemma_program_refines(m1, m2, s, fuel);
    lemma_identity_orderly(m1);
    lemma_negation_refines(m2);
    lemma_program_refines(m2, m3, s, fuel);
    lemma_negation_orderly(m2);
    lemma_folding_refines(m3);
    lemma_program_refines(m3, m4, s, fuel);
    lemma_folding_orderly(m3);
    lemma_propagation_program(m4, s, fuel);
    lemma_propagation_orderly(m4);
    lemma_dead_program(m5, s, fuel);
    lemma_nops_program(m6, s, fuel)
}

/// A run of a program on an orderly module that does not fail is, on what
/// the passes make of the module, a run of no more steps that halts, waits
/// or goes on alike, with the same tape and the same output.
pub proof fn lemma_settled_runs(m: ModuleView, n: nat, s: Machine, fuel: nat) -> (less: nat)
    requires
        m.orderly(),
        m.settled(n) is Some,
        !(s.started(m).run(m, fuel).status is Failed),
    ensures
        less <= fuel,
        runs_to(m.settled(n).unwrap(), s, less, s.started(m).run(m, fuel)),
    decreases n,
{
    let first = lemma_sweep_runs(m, s, fuel);
    if m.sweep().1 {
        lemma_sweep_orderly(m);
        lemma_settled_runs(m.sweep().0, (n - 1) as nat, s, first)
    } else {
        first
    }
}

/// A program that halts on an orderly module halts on what the passes make
/// of it, within no more steps, with the same tape and the same output.
pub proof fn lemma_settled_halts(m: ModuleView, n: nat, s: Machine, fuel: nat) -> (less: nat)
    requires
        m.orderly(),
        m.settled(n) is Some,
        s.started(m).run(m, fuel).status == Status::Halted,
    ensures
        less <= fuel,
        halts_as(m.settled(n).unwrap(), s, less, s.started(m).run(m, fuel)),
{
    lemma_settled_runs(m, n, s, fuel)
}

/// Every run of a program on `old` that does not fail is, on `new`, a run
/// of no more steps that halts, waits or goes on alike, with the same tape
/// and the same output.
pub open spec fn keeps_runs(old: ModuleView, new: ModuleView) -> bool {
    forall|s: Machine, fuel: nat|
        !((#[trigger] s.started(old).run(old, fuel)).status is Failed) ==> exists|less: nat|
            less <= fuel && #[trigger] runs_to(new, s, less, s.started(old).run(old, fuel))
}

/// What the passes make of an orderly module keeps its runs.
pub proof fn lemma_settled_keeps_runs(m: ModuleView, n: nat)
    requires
        m.orderly(),
        m.settled(n) is Some,
    ensures
        keeps_runs(m, m.settled(n).unwrap()),
{
    let new = m.settled(n).unwrap();
    assert forall|s: Machine, fuel: nat|
        !((#[trigger] s.started(m).run(m, fuel)).status is Failed) implies exists|less: nat|
        less <= fuel && #[trigger] runs_to(new, s, less, s.started(m).run(m, fuel)) by {
        let less = lemma_settled_runs(m, n, s, fuel);
        assert(less <= fuel && runs_to(new, s, less, s.started(m).run(m, fuel)));
    }
}

} // verus!
