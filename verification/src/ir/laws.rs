use vstd::prelude::*;
use super::block::BlockView;
use super::exec::{bound, eval_args, eval_expr, eval_leaf, Fault, Machine, Status, Value};
use super::instruction::{BinaryOp, Expr, LeafExpr, Op, Replacements, Target, UnaryOp};
use super::optimize::{
    blocks_leafs, blocks_reads, body_leafs, cse_op, first_assign, folded, kept_ops, same_frame,
    without_dead, without_identity, without_negation,
};
use super::register::RegisterID;
use super::types::Type;
use super::valid::{lemma_typed_in_larger, Site};
use super::ModuleView;

verus! {

// ---------------------------------------------------------------------------
// The passes keep a module valid
// ---------------------------------------------------------------------------

/// A module that differs from a valid one in its instructions alone, where
/// each instruction writes the register that the one in its place wrote, or
/// none, and keeps the rules on types, is valid.
pub proof fn lemma_replaced_valid(old: ModuleView, new: ModuleView)
    requires
        old.valid(),
        same_frame(old, new),
        forall|k: int, i: int|
            0 <= k < old.blocks.len() && 0 <= i < old.blocks[k].body.len() ==> {
                &&& ((#[trigger] new.blocks[k].body[i]).target() is None
                    || new.blocks[k].body[i].target() == old.blocks[k].body[i].target())
                &&& old.op_typed(new.blocks[k].body[i])
            },
    ensures
        new.valid(),
{
    assert(new.extends(old));
    assert forall|site: Site, r: RegisterID| #[trigger] new.defines(site, r) implies old.defines(
        site,
        r,
    ) by {
        match site {
            Site::Instruction { block, index } => {
                assert(new.blocks[block].body.len() == old.blocks[block].body.len());
                let op = new.blocks[block].body[index];
                assert(op.target() is None || op.target()
                    == old.blocks[block].body[index].target());
            },
            Site::Parameter { block, index } => {
                assert(new.blocks[block].parameters == old.blocks[block].parameters);
            },
        }
    }
    assert forall|b: int, i: int|
        0 <= b < new.blocks.len() && 0 <= i < new.blocks[b].body.len() implies new.op_typed(
        #[trigger] new.blocks[b].body[i],
    ) by {
        assert(new.blocks[b].body.len() == old.blocks[b].body.len());
        lemma_typed_in_larger(old, new, new.blocks[b].body[i]);
    }
    assert forall|site: Site, r: RegisterID| #[trigger] new.defines(site, r) implies r.0
        < new.registers.len() by {
        assert(old.defines(site, r));
    }
    assert forall|s1: Site, s2: Site, r: RegisterID|
        #![trigger new.defines(s1, r), new.defines(s2, r)]
        new.defines(s1, r) && new.defines(s2, r) implies s1 == s2 by {
        assert(old.defines(s1, r) && old.defines(s2, r));
    }
}

/// The constant that stands for the value of an expression of constants has
/// the type of the expression.
proof fn lemma_folded_typed(m: ModuleView, e: Expr)
    requires
        m.expr_type(e) is Some,
        e.constant_value() is Some,
    ensures
        m.expr_type(Expr::Leaf(e.constant_value().unwrap().leaf())) == m.expr_type(e),
{
}

/// Removing products with one keeps a module valid.
pub proof fn lemma_identity_valid(m: ModuleView)
    requires
        m.valid(),
    ensures
        m.after_identity().valid(),
{
    let n = m.after_identity();
    assert forall|k: int, i: int|
        0 <= k < m.blocks.len() && 0 <= i < m.blocks[k].body.len() implies {
        &&& ((#[trigger] n.blocks[k].body[i]).target() is None || n.blocks[k].body[i].target()
            == m.blocks[k].body[i].target())
        &&& m.op_typed(n.blocks[k].body[i])
    } by {
        assert(m.op_typed(m.blocks[k].body[i]));
        assert(n.blocks[k].body[i] == without_identity(m.blocks[k].body[i]));
    }
    lemma_replaced_valid(m, n);
}

/// Removing products with minus one keeps a module valid.
pub proof fn lemma_negation_valid(m: ModuleView)
    requires
        m.valid(),
    ensures
        m.after_negation().valid(),
{
    let n = m.after_negation();
    assert forall|k: int, i: int|
        0 <= k < m.blocks.len() && 0 <= i < m.blocks[k].body.len() implies {
        &&& ((#[trigger] n.blocks[k].body[i]).target() is None || n.blocks[k].body[i].target()
            == m.blocks[k].body[i].target())
        &&& m.op_typed(n.blocks[k].body[i])
    } by {
        assert(m.op_typed(m.blocks[k].body[i]));
        assert(n.blocks[k].body[i] == without_negation(m.blocks[k].body[i]));
    }
    lemma_replaced_valid(m, n);
}

/// Computing the operations on constants keeps a module valid.
pub proof fn lemma_folding_valid(m: ModuleView)
    requires
        m.valid(),
    ensures
        m.after_folding().valid(),
{
    let n = m.after_folding();
    assert forall|k: int, i: int|
        0 <= k < m.blocks.len() && 0 <= i < m.blocks[k].body.len() implies {
        &&& ((#[trigger] n.blocks[k].body[i]).target() is None || n.blocks[k].body[i].target()
            == m.blocks[k].body[i].target())
        &&& m.op_typed(n.blocks[k].body[i])
    } by {
        let op = m.blocks[k].body[i];
        assert(m.op_typed(op));
        assert(n.blocks[k].body[i] == folded(op));
        match op {
            Op::Assign(t, e) => {
                if !(e is Leaf) && e.constant_value() is Some {
                    lemma_folded_typed(m, e);
                }
            },
            _ => {},
        }
    }
    lemma_replaced_valid(m, n);
}

/// Emptying the assignments that nothing reads keeps a module valid.
pub proof fn lemma_dead_valid(m: ModuleView)
    requires
        m.valid(),
    ensures
        m.after_dead().valid(),
{
    let n = m.after_dead();
    let used = m.read_set();
    assert forall|k: int, i: int|
        0 <= k < m.blocks.len() && 0 <= i < m.blocks[k].body.len() implies {
        &&& ((#[trigger] n.blocks[k].body[i]).target() is None || n.blocks[k].body[i].target()
            == m.blocks[k].body[i].target())
        &&& m.op_typed(n.blocks[k].body[i])
    } by {
        assert(m.op_typed(m.blocks[k].body[i]));
        assert(n.blocks[k].body[i] == without_dead(m.blocks[k].body[i], used));
    }
    lemma_replaced_valid(m, n);
}

/// The first assignment of an expression is an assignment of it, in front.
pub proof fn lemma_first_assign_found(body: Seq<Op>, e: Expr, j: int)
    requires
        0 <= j <= body.len(),
    ensures
        first_assign(body, e, j) matches Some(r) ==> exists|i: int|
            0 <= i < j && #[trigger] body[i] == Op::Assign(r, e),
    decreases j,
{
    if j > 0 {
        lemma_first_assign_found(body, e, j - 1);
        match first_assign(body, e, j - 1) {
            Some(r) => {
                let i = choose|i: int| 0 <= i < j - 1 && #[trigger] body[i] == Op::Assign(r, e);
                assert(body[i] == Op::Assign(r, e));
            },
            None => {
                if first_assign(body, e, j) is Some {
                    assert(body[j - 1] == Op::Assign(first_assign(body, e, j).unwrap(), e));
                }
            },
        }
    }
}

/// Removing common subexpressions keeps a module valid.
pub proof fn lemma_cse_valid(m: ModuleView)
    requires
        m.valid(),
    ensures
        m.after_cse().valid(),
{
    let n = m.after_cse();
    assert forall|k: int, i: int|
        0 <= k < m.blocks.len() && 0 <= i < m.blocks[k].body.len() implies {
        &&& ((#[trigger] n.blocks[k].body[i]).target() is None || n.blocks[k].body[i].target()
            == m.blocks[k].body[i].target())
        &&& m.op_typed(n.blocks[k].body[i])
    } by {
        let body = m.blocks[k].body;
        assert(m.op_typed(body[i]));
        assert(n.blocks[k].body[i] == cse_op(body, i));
        match body[i] {
            Op::Assign(t, e) => {
                lemma_first_assign_found(body, e, i);
                match first_assign(body, e, i) {
                    Some(r) => {
                        let first = choose|first: int|
                            0 <= first < i && #[trigger] body[first] == Op::Assign(r, e);
                        assert(m.op_typed(m.blocks[k].body[first]));
                    },
                    None => {},
                }
            },
            _ => {},
        }
    }
    lemma_replaced_valid(m, n);
}

/// Every replacement stands for a register of its own type.
pub open spec fn replacements_typed(m: ModuleView, map: Replacements) -> bool {
    forall|r: usize| #[trigger]
        map.contains_key(r) ==> map[r].known(m) && m.has(RegisterID(r), map[r].width(m))
}

proof fn lemma_body_leafs_typed(m: ModuleView, body: Seq<Op>, n: int, acc: Replacements)
    requires
        0 <= n <= body.len(),
        replacements_typed(m, acc),
        forall|i: int| 0 <= i < body.len() ==> m.op_typed(#[trigger] body[i]),
    ensures
        replacements_typed(m, body_leafs(body, n, acc)),
    decreases n,
{
    if n > 0 {
        lemma_body_leafs_typed(m, body, n - 1, acc);
        assert(m.op_typed(body[n - 1]));
    }
}

pub proof fn lemma_blocks_leafs_typed(m: ModuleView, n: int)
    requires
        m.well_typed(),
        0 <= n <= m.blocks.len(),
    ensures
        replacements_typed(m, blocks_leafs(m.blocks, n)),
    decreases n,
{
    if n > 0 {
        lemma_blocks_leafs_typed(m, n - 1);
        let body = m.blocks[n - 1].body;
        assert forall|i: int| 0 <= i < body.len() implies m.op_typed(#[trigger] body[i]) by {
            assert(m.op_typed(m.blocks[n - 1].body[i]));
        }
        lemma_body_leafs_typed(m, body, body.len() as int, blocks_leafs(m.blocks, n - 1));
    }
}

proof fn lemma_replaced_edge_known(m: ModuleView, t: Target, map: Replacements)
    requires
        m.edge_known(t),
        replacements_typed(m, map),
    ensures
        m.edge_known(t.replaced(map)),
{
    assert forall|k: int| 0 <= k < t.replaced(map).args.len() implies (#[trigger] t.replaced(
        map,
    ).args[k]).known(m) by {
        assert(t.args[k].known(m));
    }
}

/// An instruction that keeps the rules keeps them with typed replacements.
pub proof fn lemma_replaced_op_typed(m: ModuleView, op: Op, map: Replacements)
    requires
        m.op_typed(op),
        replacements_typed(m, map),
    ensures
        m.op_typed(op.replaced(map)),
        op.replaced(map).target() == op.target(),
{
    match op {
        Op::Jump(t) => lemma_replaced_edge_known(m, t, map),
        Op::Branch(c, t, e) => {
            lemma_replaced_edge_known(m, t, map);
            lemma_replaced_edge_known(m, e, map);
        },
        _ => {},
    }
}

/// Propagating the assignments of single operands keeps a module valid.
pub proof fn lemma_propagation_valid(m: ModuleView)
    requires
        m.valid(),
    ensures
        m.after_propagation().valid(),
{
    let n = m.after_propagation();
    let map = m.leaf_assigns();
    lemma_blocks_leafs_typed(m, m.blocks.len() as int);
    assert forall|k: int, i: int|
        0 <= k < m.blocks.len() && 0 <= i < m.blocks[k].body.len() implies {
        &&& ((#[trigger] n.blocks[k].body[i]).target() is None || n.blocks[k].body[i].target()
            == m.blocks[k].body[i].target())
        &&& m.op_typed(n.blocks[k].body[i])
    } by {
        assert(m.op_typed(m.blocks[k].body[i]));
        assert(n.blocks[k].body[i] == m.blocks[k].body[i].replaced(map));
        lemma_replaced_op_typed(m, m.blocks[k].body[i], map);
    }
    lemma_replaced_valid(m, n);
}

/// The place in the body of the instruction that stands at `i` among the
/// first `n` once the empty ones are gone.
pub open spec fn origin(body: Seq<Op>, n: int, i: int) -> int
    decreases n,
{
    if n <= 0 {
        0
    } else if body[n - 1] is Nop {
        origin(body, n - 1, i)
    } else if i == kept_ops(body, n - 1).len() {
        n - 1
    } else {
        origin(body, n - 1, i)
    }
}

pub proof fn lemma_origin(body: Seq<Op>, n: int, i: int)
    requires
        0 <= n <= body.len(),
        0 <= i < kept_ops(body, n).len(),
    ensures
        0 <= origin(body, n, i) < n,
        body[origin(body, n, i)] == kept_ops(body, n)[i],
    decreases n,
{
    if n > 0 {
        if body[n - 1] is Nop {
            lemma_origin(body, n - 1, i);
        } else if i < kept_ops(body, n - 1).len() {
            lemma_origin(body, n - 1, i);
        }
    }
}

pub proof fn lemma_origin_grows(body: Seq<Op>, n: int, i: int, j: int)
    requires
        0 <= n <= body.len(),
        0 <= i < j < kept_ops(body, n).len(),
    ensures
        origin(body, n, i) < origin(body, n, j),
    decreases n,
{
    if n > 0 {
        if body[n - 1] is Nop {
            lemma_origin_grows(body, n - 1, i, j);
        } else if j < kept_ops(body, n - 1).len() {
            lemma_origin_grows(body, n - 1, i, j);
        } else {
            lemma_origin(body, n - 1, i);
        }
    }
}

/// Taking out the empty instructions keeps a module valid.
pub proof fn lemma_nops_valid(m: ModuleView)
    requires
        m.valid(),
    ensures
        m.after_nops().valid(),
{
    let n = m.after_nops();
    assert(n.extends(m));
    let back = |site: Site|
        match site {
            Site::Instruction { block, index } => Site::Instruction {
                block,
                index: origin(m.blocks[block].body, m.blocks[block].body.len() as int, index),
            },
            Site::Parameter { block, index } => site,
        };
    assert forall|site: Site, r: RegisterID| #[trigger] n.defines(site, r) implies m.defines(
        back(site),
        r,
    ) by {
        match site {
            Site::Instruction { block, index } => {
                lemma_origin(m.blocks[block].body, m.blocks[block].body.len() as int, index);
            },
            Site::Parameter { block, index } => {},
        }
    }
    assert forall|b: int, i: int|
        0 <= b < n.blocks.len() && 0 <= i < n.blocks[b].body.len() implies n.op_typed(
        #[trigger] n.blocks[b].body[i],
    ) by {
        let body = m.blocks[b].body;
        lemma_origin(body, body.len() as int, i);
        let o = origin(body, body.len() as int, i);
        assert(m.op_typed(m.blocks[b].body[o]));
        lemma_typed_in_larger(m, n, body[o]);
    }
    assert forall|site: Site, r: RegisterID| #[trigger] n.defines(site, r) implies r.0
        < n.registers.len() by {
        assert(m.defines(back(site), r));
    }
    assert forall|s1: Site, s2: Site, r: RegisterID|
        #![trigger n.defines(s1, r), n.defines(s2, r)]
        n.defines(s1, r) && n.defines(s2, r) implies s1 == s2 by {
        assert(m.defines(back(s1), r) && m.defines(back(s2), r));
        assert(back(s1) == back(s2));
        match (s1, s2) {
            (
                Site::Instruction { block: b1, index: i1 },
                Site::Instruction { block: b2, index: i2 },
            ) => {
                let body = m.blocks[b1].body;
                if i1 < i2 {
                    lemma_origin_grows(body, body.len() as int, i1, i2);
                } else if i2 < i1 {
                    lemma_origin_grows(body, body.len() as int, i2, i1);
                }
            },
            _ => {},
        }
    }
}

/// A sweep keeps a module valid: in single-assignment form, and with every
/// instruction keeping the rules on types.
pub proof fn lemma_sweep_valid(m: ModuleView)
    requires
        m.valid(),
    ensures
        m.sweep().0.valid(),
{
    let m1 = m.after_cse();
    let m2 = m1.after_identity();
    let m3 = m2.after_negation();
    let m4 = m3.after_folding();
    let m5 = m4.after_propagation();
    let m6 = m5.after_dead();
    lemma_cse_valid(m);
    lemma_identity_valid(m1);
    lemma_negation_valid(m2);
    lemma_folding_valid(m3);
    lemma_propagation_valid(m4);
    lemma_dead_valid(m5);
    lemma_nops_valid(m6);
}

/// The sweeps up to a settled module keep a module valid.
pub proof fn lemma_settled_valid(m: ModuleView, n: nat)
    requires
        m.valid(),
        m.settled(n) is Some,
    ensures
        m.settled(n).unwrap().valid(),
    decreases n,
{
    lemma_sweep_valid(m);
    if m.sweep().1 {
        lemma_settled_valid(m.sweep().0, (n - 1) as nat);
    }
}

// ---------------------------------------------------------------------------
// Rewrites that leave every run as it is
// ---------------------------------------------------------------------------

/// An expression gives what another gives, wherever that one has a value.
pub open spec fn expr_refines(e: Expr, by: Expr) -> bool {
    forall|registers: Seq<Value>|
        (#[trigger] eval_expr(registers, e)) is Ok ==> eval_expr(registers, by) == eval_expr(
            registers,
            e,
        )
}

/// An instruction does what another does, wherever that one does not fail:
/// it is the same instruction, or an assignment to the same register of an
/// expression that gives the same value.
pub open spec fn op_refines(op: Op, by: Op) -> bool {
    by == op || (op matches Op::Assign(t, e) && by matches Op::Assign(u, f) && t == u
        && expr_refines(e, f))
}

/// A module does what another does, place by place.
pub open spec fn refines(m: ModuleView, by: ModuleView) -> bool {
    &&& same_frame(m, by)
    &&& forall|k: int, i: int|
        0 <= k < m.blocks.len() && 0 <= i < m.blocks[k].body.len() ==> op_refines(
            m.blocks[k].body[i],
            #[trigger] by.blocks[k].body[i],
        )
}

/// Entering a block depends on the frame of the module alone.
pub proof fn lemma_entered_same(m: ModuleView, by: ModuleView, s: Machine, t: Target)
    requires
        same_frame(m, by),
    ensures
        s.entered(by, t) == s.entered(m, t),
{
    if t.id.0 < m.blocks.len() {
        assert(by.blocks[t.id.0 as int].parameters == m.blocks[t.id.0 as int].parameters);
    }
}

/// One step of the refining module does what the step of the other does,
/// where that one does not fail.
proof fn lemma_step_refines(m: ModuleView, by: ModuleView, s: Machine)
    requires
        refines(m, by),
        !(s.step(m).status is Failed),
    ensures
        s.step(by) == s.step(m),
        s.blocked(by) == s.blocked(m),
{
    if 0 <= s.block < m.blocks.len() {
        assert(by.blocks[s.block].body.len() == m.blocks[s.block].body.len());
        match s.current(m) {
            Some(op) => {
                let other = by.blocks[s.block].body[s.index];
                assert(op_refines(op, other));
                match op {
                    Op::Jump(t) => lemma_entered_same(m, by, s, t),
                    Op::Branch(c, t, e) => {
                        lemma_entered_same(m, by, s, t);
                        lemma_entered_same(m, by, s, e);
                    },
                    _ => {},
                }
            },
            None => {},
        }
    }
}

proof fn lemma_blocked_refines(m: ModuleView, by: ModuleView, s: Machine)
    requires
        refines(m, by),
    ensures
        s.blocked(by) == s.blocked(m),
{
    if 0 <= s.block < m.blocks.len() {
        assert(by.blocks[s.block].body.len() == m.blocks[s.block].body.len());
        match s.current(m) {
            Some(op) => {
                assert(op_refines(op, by.blocks[s.block].body[s.index]));
            },
            None => {},
        }
    }
}

/// A machine that has failed stays as it is.
pub proof fn lemma_failed_stays(m: ModuleView, s: Machine, fuel: nat)
    requires
        s.status is Failed,
    ensures
        s.run(m, fuel) == s,
{
}

/// A run on the refining module is the run on the other, where that one does
/// not fail.
pub proof fn lemma_run_refines(m: ModuleView, by: ModuleView, s: Machine, fuel: nat)
    requires
        refines(m, by),
        !(s.run(m, fuel).status is Failed),
    ensures
        s.run(by, fuel) == s.run(m, fuel),
    decreases fuel,
{
    lemma_blocked_refines(m, by, s);
    if fuel > 0 && s.running() && !s.blocked(m) {
        let next = s.step(m);
        if next.status is Failed {
            lemma_failed_stays(m, next, (fuel - 1) as nat);
        }
        lemma_step_refines(m, by, s);
        lemma_run_refines(m, by, next, (fuel - 1) as nat);
    }
}

/// A program run on the refining module from its entry does what it does on
/// the other, where that run does not fail: it writes the same output, and
/// halts, waits or goes on alike.
pub proof fn lemma_program_refines(m: ModuleView, by: ModuleView, s: Machine, fuel: nat)
    requires
        refines(m, by),
        !(s.started(m).run(m, fuel).status is Failed),
    ensures
        s.started(by).run(by, fuel) == s.started(m).run(m, fuel),
{
    match m.entry {
        Some(entry) => {
            let cleared = Machine {
                registers: super::exec::unset(m.registers.len()),
                status: Status::Running,
                ..s
            };
            lemma_entered_same(m, by, cleared, Target { id: entry, args: Seq::empty() });
        },
        None => {},
    }
    assert(s.started(by) == s.started(m));
    lemma_run_refines(m, by, s.started(m), fuel);
}

/// Multiplying by the constant one gives the other operand.
proof fn lemma_identity_refines_op(op: Op)
    ensures
        op_refines(op, without_identity(op)),
{
    match op {
        Op::Assign(t, Expr::Binary(a, BinaryOp::Mul, b)) => {
            let e = Expr::Binary(a, BinaryOp::Mul, b);
            if a.is_one() {
                assert forall|registers: Seq<Value>|
                    (#[trigger] eval_expr(registers, e)) is Ok implies eval_expr(
                    registers,
                    Expr::Leaf(b),
                ) == eval_expr(registers, e) by {
                    lemma_times_one(eval_leaf(registers, a).unwrap(), eval_leaf(registers, b).unwrap());
                }
            } else if b.is_one() {
                assert forall|registers: Seq<Value>|
                    (#[trigger] eval_expr(registers, e)) is Ok implies eval_expr(
                    registers,
                    Expr::Leaf(a),
                ) == eval_expr(registers, e) by {
                    lemma_times_one(eval_leaf(registers, b).unwrap(), eval_leaf(registers, a).unwrap());
                }
            }
        },
        _ => {},
    }
}

/// The value one, of any width.
pub open spec fn is_one_value(x: Value) -> bool {
    x == Value::I1(true) || x == Value::I8(1) || x == Value::I64(1)
}

/// The value with every bit set, of the widths that have a negation.
pub open spec fn is_minus_one_value(x: Value) -> bool {
    x == Value::I8(0xff) || x == Value::I64(0xffff_ffff_ffff_ffff)
}

proof fn lemma_times_one(one: Value, y: Value)
    requires
        is_one_value(one),
        Value::same_width(one, y),
    ensures
        Value::binary(one, y, BinaryOp::Mul) == y,
        Value::binary(y, one, BinaryOp::Mul) == y,
{
    match y {
        Value::I8(v) => {
            assert(1 * v == v);
            assert(v * 1 == v);
        },
        Value::I64(v) => {
            assert(1 * v == v);
            assert(v * 1 == v);
        },
        _ => {},
    }
}

proof fn lemma_times_minus_one(minus: Value, y: Value)
    requires
        is_minus_one_value(minus),
        Value::same_width(minus, y),
    ensures
        Value::binary(minus, y, BinaryOp::Mul) == Value::unary(y, UnaryOp::Neg),
        Value::binary(y, minus, BinaryOp::Mul) == Value::unary(y, UnaryOp::Neg),
{
    match y {
        Value::I8(v) => {
            assert(0xff * v == 0x100 * v - v);
            assert(v * 0xff == 0x100 * v - v);
            vstd::arithmetic::div_mod::lemma_mod_multiples_vanish(v as int, -(v as int), 0x100);
        },
        Value::I64(v) => {
            assert(0xffff_ffff_ffff_ffff * v == 0x1_0000_0000_0000_0000 * v - v);
            assert(v * 0xffff_ffff_ffff_ffff == 0x1_0000_0000_0000_0000 * v - v);
            vstd::arithmetic::div_mod::lemma_mod_multiples_vanish(
                v as int,
                -(v as int),
                0x1_0000_0000_0000_0000,
            );
        },
        _ => {},
    }
}

/// Multiplying by the constant minus one negates the other operand.
proof fn lemma_negation_refines_op(op: Op)
    ensures
        op_refines(op, without_negation(op)),
{
    match op {
        Op::Assign(t, Expr::Binary(a, BinaryOp::Mul, b)) => {
            let e = Expr::Binary(a, BinaryOp::Mul, b);
            if a.negates() {
                assert forall|registers: Seq<Value>|
                    (#[trigger] eval_expr(registers, e)) is Ok implies eval_expr(
                    registers,
                    Expr::Unary(b, UnaryOp::Neg),
                ) == eval_expr(registers, e) by {
                    lemma_times_minus_one(
                        eval_leaf(registers, a).unwrap(),
                        eval_leaf(registers, b).unwrap(),
                    );
                }
            } else if b.negates() {
                assert forall|registers: Seq<Value>|
                    (#[trigger] eval_expr(registers, e)) is Ok implies eval_expr(
                    registers,
                    Expr::Unary(a, UnaryOp::Neg),
                ) == eval_expr(registers, e) by {
                    lemma_times_minus_one(
                        eval_leaf(registers, b).unwrap(),
                        eval_leaf(registers, a).unwrap(),
                    );
                }
            }
        },
        _ => {},
    }
}

/// An operation on constants gives the constant that stands for its value.
proof fn lemma_folding_refines_op(op: Op)
    ensures
        op_refines(op, folded(op)),
{
    match op {
        Op::Assign(t, e) => {
            if !(e is Leaf) && e.constant_value() is Some {
                let v = e.constant_value().unwrap();
                assert forall|registers: Seq<Value>|
                    (#[trigger] eval_expr(registers, e)) is Ok implies eval_expr(
                    registers,
                    Expr::Leaf(v.leaf()),
                ) == eval_expr(registers, e) by {
                    assert(eval_expr(registers, e) == eval_expr(Seq::empty(), e));
                }
            }
        },
        _ => {},
    }
}

/// Removing products with one leaves every run that does not fail as it is.
pub proof fn lemma_identity_refines(m: ModuleView)
    ensures
        refines(m, m.after_identity()),
{
    let n = m.after_identity();
    assert forall|k: int, i: int|
        0 <= k < m.blocks.len() && 0 <= i < m.blocks[k].body.len() implies op_refines(
        m.blocks[k].body[i],
        #[trigger] n.blocks[k].body[i],
    ) by {
        lemma_identity_refines_op(m.blocks[k].body[i]);
    }
}

/// Removing products with minus one leaves every run that does not fail as it is.
pub proof fn lemma_negation_refines(m: ModuleView)
    ensures
        refines(m, m.after_negation()),
{
    let n = m.after_negation();
    assert forall|k: int, i: int|
        0 <= k < m.blocks.len() && 0 <= i < m.blocks[k].body.len() implies op_refines(
        m.blocks[k].body[i],
        #[trigger] n.blocks[k].body[i],
    ) by {
        lemma_negation_refines_op(m.blocks[k].body[i]);
    }
}

/// Computing the operations on constants leaves every run that does not fail
/// as it is.
pub proof fn lemma_folding_refines(m: ModuleView)
    ensures
        refines(m, m.after_folding()),
{
    let n = m.after_folding();
    assert forall|k: int, i: int|
        0 <= k < m.blocks.len() && 0 <= i < m.blocks[k].body.len() implies op_refines(
        m.blocks[k].body[i],
        #[trigger] n.blocks[k].body[i],
    ) by {
        lemma_folding_refines_op(m.blocks[k].body[i]);
    }
}

// ---------------------------------------------------------------------------
// Emptying the assignments that nothing reads
// ---------------------------------------------------------------------------

/// Two machines that differ at most in what registers outside `used` hold.
pub open spec fn same_on(used: Set<usize>, s: Machine, t: Machine) -> bool {
    &&& t.cells == s.cells
    &&& t.input == s.input
    &&& t.open == s.open
    &&& t.output == s.output
    &&& t.status == s.status
    &&& t.block == s.block
    &&& t.index == s.index
    &&& t.registers.len() == s.registers.len()
    &&& forall|r: int|
        0 <= r < s.registers.len() && used.contains(r as usize) ==> #[trigger] t.registers[r]
            == s.registers[r]
}

/// An operand that the module reads has the same value in both machines.
proof fn lemma_leaf_same_on(used: Set<usize>, a: Seq<Value>, b: Seq<Value>, l: LeafExpr)
    requires
        a.len() == b.len(),
        forall|r: int| 0 <= r < a.len() && used.contains(r as usize) ==> #[trigger] b[r] == a[r],
        l matches LeafExpr::Register(r) ==> used.contains(r.0),
    ensures
        eval_leaf(b, l) == eval_leaf(a, l),
{
    match l {
        LeafExpr::Register(r) => {
            if r.0 < a.len() {
                assert(b[r.0 as int] == a[r.0 as int]);
            }
        },
        _ => {},
    }
}

proof fn lemma_args_same_on(
    used: Set<usize>,
    a: Seq<Value>,
    b: Seq<Value>,
    args: Seq<LeafExpr>,
    n: int,
)
    requires
        0 <= n <= args.len(),
        a.len() == b.len(),
        forall|r: int| 0 <= r < a.len() && used.contains(r as usize) ==> #[trigger] b[r] == a[r],
        forall|k: int|
            0 <= k < args.len() ==> ((#[trigger] args[k]) matches LeafExpr::Register(r)
                ==> used.contains(r.0)),
    ensures
        eval_args(b, args, n) == eval_args(a, args, n),
    decreases n,
{
    if n > 0 {
        lemma_args_same_on(used, a, b, args, n - 1);
        lemma_leaf_same_on(used, a, b, args[n - 1]);
    }
}

proof fn lemma_bound_same_on(
    used: Set<usize>,
    a: Seq<Value>,
    b: Seq<Value>,
    parameters: Seq<RegisterID>,
    vals: Seq<Value>,
    n: int,
)
    requires
        0 <= n <= parameters.len(),
        n <= vals.len(),
        a.len() == b.len(),
        forall|r: int| 0 <= r < a.len() && used.contains(r as usize) ==> #[trigger] b[r] == a[r],
    ensures
        bound(a, parameters, vals, n) is Err ==> bound(b, parameters, vals, n) == bound(
            a,
            parameters,
            vals,
            n,
        ),
        bound(a, parameters, vals, n) matches Ok(x) ==> (bound(b, parameters, vals, n) matches Ok(
            y,
        ) && y.len() == x.len() && x.len() == a.len() && forall|r: int|
            0 <= r < x.len() && used.contains(r as usize) ==> #[trigger] y[r] == x[r]),
    decreases n,
{
    if n > 0 {
        lemma_bound_same_on(used, a, b, parameters, vals, n - 1);
    }
}

proof fn lemma_entered_same_on(
    used: Set<usize>,
    m: ModuleView,
    by: ModuleView,
    s: Machine,
    t: Machine,
    target: Target,
)
    requires
        same_frame(m, by),
        same_on(used, s, t),
        forall|k: int|
            0 <= k < target.args.len() ==> ((#[trigger] target.args[k]) matches LeafExpr::Register(
                r,
            ) ==> used.contains(r.0)),
    ensures
        s.entered(m, target) matches Err(f) ==> t.entered(by, target) == Err::<Machine, Fault>(f),
        s.entered(m, target) matches Ok(next) ==> (t.entered(by, target) matches Ok(other)
            && same_on(used, next, other)),
{
    lemma_args_same_on(used, s.registers, t.registers, target.args, target.args.len() as int);
    match eval_args(s.registers, target.args, target.args.len() as int) {
        Ok(vals) => {
            if target.id.0 < m.blocks.len() {
                let parameters = m.blocks[target.id.0 as int].parameters;
                assert(by.blocks[target.id.0 as int].parameters == parameters);
                let n = super::exec::smaller(parameters.len() as int, vals.len() as int);
                lemma_bound_same_on(used, s.registers, t.registers, parameters, vals, n);
            }
        },
        Err(_) => {},
    }
}

/// Every register that an instruction of the module reads is in its read set.
proof fn lemma_reads_used(m: ModuleView, b: int, i: int, r: RegisterID)
    requires
        0 <= b < m.blocks.len(),
        0 <= i < m.blocks[b].body.len(),
        m.blocks[b].body[i].reads(r),
    ensures
        m.read_set().contains(r.0),
{
    assert(m.blocks[b].body[i].reads(RegisterID(r.0)));
    assert(blocks_reads(m.blocks, m.blocks.len() as int).contains(r.0));
}

/// One step on the module without its dead assignments does what the step
/// on the module does, the registers that nothing reads aside.
proof fn lemma_dead_step(m: ModuleView, s: Machine, t: Machine)
    requires
        same_on(m.read_set(), s, t),
        s.running(),
        !(s.step(m).status is Failed),
    ensures
        same_on(m.read_set(), s.step(m), t.step(m.after_dead())),
        t.blocked(m.after_dead()) == s.blocked(m),
{
    let by = m.after_dead();
    let used = m.read_set();
    if 0 <= s.block < m.blocks.len() {
        assert(by.blocks[s.block].body.len() == m.blocks[s.block].body.len());
        match s.current(m) {
            Some(op) => {
                let other = by.blocks[s.block].body[s.index];
                assert(other == without_dead(op, used));
                assert forall|r: RegisterID| op.reads(r) implies used.contains(r.0) by {
                    lemma_reads_used(m, s.block, s.index, r);
                }
                match op {
                    Op::LoadCell(target, index) => {
                        assert(op.reads(RegisterID(index->Register_0.0)) || !(index is Register));
                        lemma_leaf_same_on(used, s.registers, t.registers, index);
                        let ghost x = s.step(m);
                        let ghost y = t.step(by);
                        assert(same_on(used, x, y));
                    },
                    Op::StoreCell(index, value) => {
                        lemma_leaf_same_on(used, s.registers, t.registers, index);
                        lemma_leaf_same_on(used, s.registers, t.registers, value);
                    },
                    Op::BoundsCheck(start, end) => {
                        lemma_leaf_same_on(used, s.registers, t.registers, end);
                    },
                    Op::Assign(target, e) => {
                        match e {
                            Expr::Leaf(a) => {
                                lemma_leaf_same_on(used, s.registers, t.registers, a);
                            },
                            Expr::Binary(a, _, b) => {
                                lemma_leaf_same_on(used, s.registers, t.registers, a);
                                lemma_leaf_same_on(used, s.registers, t.registers, b);
                            },
                            Expr::Unary(a, _) => {
                                lemma_leaf_same_on(used, s.registers, t.registers, a);
                            },
                            Expr::Test(a, _, b) => {
                                lemma_leaf_same_on(used, s.registers, t.registers, a);
                                lemma_leaf_same_on(used, s.registers, t.registers, b);
                            },
                        }
                        assert(eval_expr(t.registers, e) == eval_expr(s.registers, e));
                        let ghost x = s.step(m);
                        let ghost y = t.step(by);
                        assert(same_on(used, x, y));
                    },
                    Op::Output(value) => {
                        lemma_leaf_same_on(used, s.registers, t.registers, value);
                    },
                    Op::Input(target, default) => {
                        lemma_leaf_same_on(used, s.registers, t.registers, default);
                        let ghost x = s.step(m);
                        let ghost y = t.step(by);
                        assert(same_on(used, x, y));
                    },
                    Op::Jump(target) => {
                        assert forall|k: int| 0 <= k < target.args.len() implies ((
                        #[trigger] target.args[k]) matches LeafExpr::Register(r)
                            ==> used.contains(r.0)) by {
                            match target.args[k] {
                                LeafExpr::Register(r) => {
                                    assert(target.args[k].reads(r));
                                    assert(op.reads(r));
                                },
                                _ => {},
                            }
                        }
                        lemma_entered_same_on(used, m, by, s, t, target);
                    },
                    Op::Branch(c, then, els) => {
                        lemma_leaf_same_on(used, s.registers, t.registers, c);
                        assert forall|k: int| 0 <= k < then.args.len() implies ((
                        #[trigger] then.args[k]) matches LeafExpr::Register(r) ==> used.contains(
                            r.0,
                        )) by {
                            match then.args[k] {
                                LeafExpr::Register(r) => {
                                    assert(then.args[k].reads(r));
                                    assert(op.reads(r));
                                },
                                _ => {},
                            }
                        }
                        assert forall|k: int| 0 <= k < els.args.len() implies ((
                        #[trigger] els.args[k]) matches LeafExpr::Register(r) ==> used.contains(
                            r.0,
                        )) by {
                            match els.args[k] {
                                LeafExpr::Register(r) => {
                                    assert(els.args[k].reads(r));
                                    assert(op.reads(r));
                                },
                                _ => {},
                            }
                        }
                        lemma_entered_same_on(used, m, by, s, t, then);
                        lemma_entered_same_on(used, m, by, s, t, els);
                    },
                    Op::Nop => {},
                }
            },
            None => {},
        }
    }
}

/// A run on the module without its dead assignments does what the run on
/// the module does, where that one does not fail: it writes the same output
/// to the same tape, and halts, waits or goes on alike.
pub proof fn lemma_dead_run(m: ModuleView, s: Machine, t: Machine, fuel: nat)
    requires
        same_on(m.read_set(), s, t),
        !(s.run(m, fuel).status is Failed),
    ensures
        same_on(m.read_set(), s.run(m, fuel), t.run(m.after_dead(), fuel)),
    decreases fuel,
{
    let by = m.after_dead();
    if fuel > 0 && s.running() {
        let next = s.step(m);
        if s.blocked(m) {
            lemma_dead_blocked(m, s, t);
        } else {
            if next.status is Failed {
                lemma_failed_stays(m, next, (fuel - 1) as nat);
            }
            lemma_dead_step(m, s, t);
            lemma_dead_run(m, next, t.step(by), (fuel - 1) as nat);
        }
    }
}

proof fn lemma_dead_blocked(m: ModuleView, s: Machine, t: Machine)
    requires
        same_on(m.read_set(), s, t),
    ensures
        t.blocked(m.after_dead()) == s.blocked(m),
{
    let by = m.after_dead();
    if 0 <= s.block < m.blocks.len() {
        assert(by.blocks[s.block].body.len() == m.blocks[s.block].body.len());
        match s.current(m) {
            Some(op) => {
                assert(by.blocks[s.block].body[s.index] == without_dead(op, m.read_set()));
            },
            None => {},
        }
    }
}

/// A program run on the module without its dead assignments does what it
/// does on the module, where that run does not fail.
pub proof fn lemma_dead_program(m: ModuleView, s: Machine, fuel: nat)
    requires
        !(s.started(m).run(m, fuel).status is Failed),
    ensures
        same_on(
            m.read_set(),
            s.started(m).run(m, fuel),
            s.started(m.after_dead()).run(m.after_dead(), fuel),
        ),
{
    let by = m.after_dead();
    match m.entry {
        Some(entry) => {
            let cleared = Machine {
                registers: super::exec::unset(m.registers.len()),
                status: Status::Running,
                ..s
            };
            lemma_entered_same(m, by, cleared, Target { id: entry, args: Seq::empty() });
        },
        None => {},
    }
    assert(s.started(by) == s.started(m));
    lemma_dead_run(m, s.started(m), s.started(m), fuel);
}

// ---------------------------------------------------------------------------
// Taking out the empty instructions
// ---------------------------------------------------------------------------

/// The machine stands in a block of the module, at an instruction or at the end.
pub open spec fn in_range(m: ModuleView, s: Machine) -> bool {
    0 <= s.block < m.blocks.len() && 0 <= s.index <= m.blocks[s.block].body.len()
}

/// The machine at the place in the module without empty instructions that
/// stands for its place in the module.
pub open spec fn without_nops_place(m: ModuleView, s: Machine) -> Machine {
    if in_range(m, s) {
        Machine { index: kept_ops(m.blocks[s.block].body, s.index).len() as int, ..s }
    } else {
        s
    }
}

/// What is kept of the first instructions is the start of what is kept of all.
pub proof fn lemma_kept_prefix(body: Seq<Op>, i: int, n: int)
    requires
        0 <= i <= n <= body.len(),
    ensures
        kept_ops(body, i).len() <= kept_ops(body, n).len(),
        forall|k: int|
            0 <= k < kept_ops(body, i).len() ==> #[trigger] kept_ops(body, n)[k] == kept_ops(
                body,
                i,
            )[k],
    decreases n - i,
{
    if i < n {
        lemma_kept_prefix(body, i, n - 1);
    }
}

/// The instruction at the place that stands for the place of an
/// instruction that is not empty is that instruction.
proof fn lemma_kept_current(m: ModuleView, s: Machine)
    requires
        in_range(m, s),
    ensures
        in_range(m.after_nops(), without_nops_place(m, s)),
        s.current(m) matches Some(op) ==> (if op is Nop {
            without_nops_place(m, s.advanced()) == without_nops_place(m, s)
        } else {
            without_nops_place(m, s).current(m.after_nops()) == Some(op) && without_nops_place(
                m,
                s.advanced(),
            ) == without_nops_place(m, s).advanced()
        }),
        s.current(m) is None ==> without_nops_place(m, s).current(m.after_nops()) is None,
{
    let body = m.blocks[s.block].body;
    lemma_kept_prefix(body, s.index, body.len() as int);
    if s.index < body.len() {
        lemma_kept_prefix(body, s.index + 1, body.len() as int);
        let op = body[s.index];
        if !(op is Nop) {
            let k = kept_ops(body, s.index).len() as int;
            assert(kept_ops(body, s.index + 1)[k] == op);
            assert(kept_ops(body, body.len() as int)[k] == op);
        }
    }
}

proof fn lemma_nops_entered(m: ModuleView, s: Machine, t: Target)
    requires
        in_range(m, s),
    ensures
        s.entered(m, t) matches Err(f) ==> without_nops_place(m, s).entered(m.after_nops(), t)
            == Err::<Machine, Fault>(f),
        s.entered(m, t) matches Ok(next) ==> in_range(m, next) && without_nops_place(
            m,
            s,
        ).entered(m.after_nops(), t) == Ok::<Machine, Fault>(without_nops_place(m, next)),
{
    let by = m.after_nops();
    if t.id.0 < m.blocks.len() {
        assert(by.blocks[t.id.0 as int].parameters == m.blocks[t.id.0 as int].parameters);
    }
}

/// One step on the module without empty instructions, where the module
/// steps over an instruction that is not empty.
proof fn lemma_nops_step(m: ModuleView, s: Machine)
    requires
        in_range(m, s),
        s.running(),
        !(s.current(m) matches Some(Op::Nop)),
    ensures
        !(s.step(m).status is Failed) ==> in_range(m, s.step(m)),
        without_nops_place(m, s).step(m.after_nops()) == (if s.step(m).status is Failed {
            without_nops_place(m, s).failed(s.step(m).status->Failed_0)
        } else {
            without_nops_place(m, s.step(m))
        }),
        without_nops_place(m, s).blocked(m.after_nops()) == s.blocked(m),
{
    let by = m.after_nops();
    let t = without_nops_place(m, s);
    lemma_kept_current(m, s);
    match s.current(m) {
        Some(op) => {
            match op {
                Op::Jump(target) => lemma_nops_entered(m, s, target),
                Op::Branch(c, then, els) => {
                    lemma_nops_entered(m, s, then);
                    lemma_nops_entered(m, s, els);
                },
                Op::LoadCell(target, index) => {
                    if s.loaded(target, index) is Ok {
                        assert(s.loaded(target, index).unwrap().index == s.index + 1);
                    }
                },
                Op::Assign(target, e) => {
                    if s.assigned(target, e) is Ok {
                        assert(s.assigned(target, e).unwrap().index == s.index + 1);
                    }
                },
                Op::Input(target, default) => {
                    if s.got(target, default) is Ok {
                        assert(s.got(target, default).unwrap().index == s.index + 1);
                    }
                },
                _ => {},
            }
            match s.effect(m, op) {
                Ok(next) => {
                    if !(op is Jump || op is Branch) {
                        assert(next.index == s.index + 1);
                        assert(next.block == s.block);
                        assert(t.effect(by, op).unwrap().index == t.index + 1);
                        assert(without_nops_place(m, next).index == without_nops_place(
                            m,
                            s.advanced(),
                        ).index);
                    }
                },
                Err(_) => {},
            }
        },
        None => {},
    }
}

/// A run on the module that does not fail is, on the module without its
/// empty instructions, a run of no more steps to the state that stands
/// for the one it comes to: with the same tape, registers and output, and
/// the same status.
pub proof fn lemma_nops_run(m: ModuleView, s: Machine, fuel: nat) -> (less: nat)
    requires
        in_range(m, s),
        !(s.run(m, fuel).status is Failed),
    ensures
        less <= fuel,
        without_nops_place(m, s).run(m.after_nops(), less) == without_nops_place(
            m,
            s.run(m, fuel),
        ),
    decreases fuel,
{
    let by = m.after_nops();
    let t = without_nops_place(m, s);
    if fuel == 0 || !s.running() || s.blocked(m) {
        0
    } else {
        let next = s.step(m);
        if next.status is Failed {
            lemma_failed_stays(m, next, (fuel - 1) as nat);
        }
        lemma_kept_current(m, s);
        if s.current(m) matches Some(Op::Nop) {
            assert(next == s.advanced());
            lemma_nops_run(m, next, (fuel - 1) as nat)
        } else {
            lemma_nops_step(m, s);
            let rest = lemma_nops_run(m, next, (fuel - 1) as nat);
            rest + 1
        }
    }
}

/// A program run on the module that does not fail comes, on the module
/// without its empty instructions and within no more steps, to the same
/// status, with the same output and the same tape.
pub proof fn lemma_nops_program(m: ModuleView, s: Machine, fuel: nat) -> (less: nat)
    requires
        !(s.started(m).run(m, fuel).status is Failed),
    ensures
        less <= fuel,
        s.started(m.after_nops()).run(m.after_nops(), less).status == s.started(m).run(
            m,
            fuel,
        ).status,
        s.started(m.after_nops()).run(m.after_nops(), less).input == s.started(m).run(
            m,
            fuel,
        ).input,
        s.started(m.after_nops()).run(m.after_nops(), less).output == s.started(m).run(
            m,
            fuel,
        ).output,
        s.started(m.after_nops()).run(m.after_nops(), less).cells == s.started(m).run(
            m,
            fuel,
        ).cells,
{
    let by = m.after_nops();
    let start = s.started(m);
    if start.status is Failed {
        lemma_failed_stays(m, start, fuel);
        0
    } else {
        let entry = m.entry.unwrap();
        let cleared = Machine {
            registers: super::exec::unset(m.registers.len()),
            status: Status::Running,
            ..s
        };
        let target = Target { id: entry, args: Seq::empty() };
        assert(entry.0 < m.blocks.len());
        assert(by.blocks[entry.0 as int].parameters == m.blocks[entry.0 as int].parameters);
        assert(cleared.entered(by, target) == cleared.entered(m, target));
        assert(s.started(by) == start);
        assert(in_range(m, start));
        assert(without_nops_place(m, start) == start);
        lemma_nops_run(m, start, fuel)
    }
}

} // verus!
