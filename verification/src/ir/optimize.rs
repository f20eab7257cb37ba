use vstd::prelude::*;
use std::collections::{HashMap, HashSet};
use super::block::BlockView;
use super::instruction::{
    copy_instruction, ops_view, BinaryOp, Expr, Instruction, LeafExpr, Op, Replacements, UnaryOp,
};
use super::register::RegisterID;
use super::laws::{
    lemma_cse_valid, lemma_dead_valid, lemma_folding_valid, lemma_identity_valid,
    lemma_negation_valid, lemma_nops_valid, lemma_propagation_valid,
};
use super::{Module, ModuleView};

verus! {

// ---------------------------------------------------------------------------
// Rewrites of one instruction
// ---------------------------------------------------------------------------

/// The target of the first assignment of `e` among the first `j` instructions.
pub open spec fn first_assign(body: Seq<Op>, e: Expr, j: int) -> Option<RegisterID>
    decreases j,
{
    if j <= 0 {
        None
    } else {
        match first_assign(body, e, j - 1) {
            Some(r) => Some(r),
            None => match body[j - 1] {
                Op::Assign(t, found) => if found == e {
                    Some(t)
                } else {
                    None
                },
                _ => None,
            },
        }
    }
}

/// The instruction at `j` after common subexpressions are gone: an
/// assignment of an expression, not a single operand, that the block has
/// assigned before becomes a copy of the register that took it first.
pub open spec fn cse_op(body: Seq<Op>, j: int) -> Op {
    match body[j] {
        Op::Assign(t, e) => match first_assign(body, e, j) {
            Some(r) => if e is Leaf {
                body[j]
            } else {
                Op::Assign(t, Expr::Leaf(LeafExpr::Register(r)))
            },
            None => body[j],
        },
        _ => body[j],
    }
}

pub open spec fn cse_body(body: Seq<Op>) -> Seq<Op> {
    Seq::new(body.len(), |j: int| cse_op(body, j))
}

/// A product with the constant one becomes the other operand.
pub open spec fn without_identity(op: Op) -> Op {
    match op {
        Op::Assign(t, Expr::Binary(a, BinaryOp::Mul, b)) => if a.is_one() {
            Op::Assign(t, Expr::Leaf(b))
        } else if b.is_one() {
            Op::Assign(t, Expr::Leaf(a))
        } else {
            op
        },
        _ => op,
    }
}

/// A product with the constant minus one becomes the negation of the other operand.
pub open spec fn without_negation(op: Op) -> Op {
    match op {
        Op::Assign(t, Expr::Binary(a, BinaryOp::Mul, b)) => if a.negates() {
            Op::Assign(t, Expr::Unary(b, UnaryOp::Neg))
        } else if b.negates() {
            Op::Assign(t, Expr::Unary(a, UnaryOp::Neg))
        } else {
            op
        },
        _ => op,
    }
}

/// An operation on constants that has a result becomes that result.
pub open spec fn folded(op: Op) -> Op {
    match op {
        Op::Assign(t, e) => if e is Leaf {
            op
        } else {
            match e.constant_value() {
                Some(v) => Op::Assign(t, Expr::Leaf(v.leaf())),
                None => op,
            }
        },
        _ => op,
    }
}

/// An assignment to a register that nothing reads becomes the empty instruction.
pub open spec fn without_dead(op: Op, used: Set<usize>) -> Op {
    match op {
        Op::Assign(t, _) => if used.contains(t.0) {
            op
        } else {
            Op::Nop
        },
        _ => op,
    }
}

/// Each instruction of the body rewritten on its own.
pub open spec fn map_ops(body: Seq<Op>, f: spec_fn(Op) -> Op) -> Seq<Op> {
    Seq::new(body.len(), |j: int| f(body[j]))
}

/// The first `n` instructions of the body without the empty ones.
pub open spec fn kept_ops(body: Seq<Op>, n: int) -> Seq<Op>
    decreases n,
{
    if n <= 0 {
        Seq::empty()
    } else if body[n - 1] is Nop {
        kept_ops(body, n - 1)
    } else {
        kept_ops(body, n - 1).push(body[n - 1])
    }
}

/// The body without its empty instructions.
pub open spec fn without_nops(body: Seq<Op>) -> Seq<Op> {
    kept_ops(body, body.len() as int)
}

/// The replacements that the first `n` instructions of the body add to
/// `acc`: each assignment of a single operand, the later over the earlier.
pub open spec fn body_leafs(body: Seq<Op>, n: int, acc: Replacements) -> Replacements
    decreases n,
{
    if n <= 0 {
        acc
    } else {
        let before = body_leafs(body, n - 1, acc);
        match body[n - 1] {
            Op::Assign(t, Expr::Leaf(l)) => before.insert(t.0, l),
            _ => before,
        }
    }
}

/// The replacements of the first `n` blocks.
pub open spec fn blocks_leafs(blocks: Seq<BlockView>, n: int) -> Replacements
    decreases n,
{
    if n <= 0 {
        Map::empty()
    } else {
        body_leafs(blocks[n - 1].body, blocks[n - 1].body.len() as int, blocks_leafs(blocks, n - 1))
    }
}

/// The registers that the first `n` instructions of the body read.
pub open spec fn body_reads(body: Seq<Op>, n: int) -> Set<usize> {
    Set::new(|r: usize| exists|j: int| 0 <= j < n && (#[trigger] body[j]).reads(RegisterID(r)))
}

/// The registers that the first `n` blocks read.
pub open spec fn blocks_reads(blocks: Seq<BlockView>, n: int) -> Set<usize> {
    Set::new(
        |r: usize|
            exists|b: int, j: int|
                0 <= b < n && 0 <= j < blocks[b].body.len() && (#[trigger] blocks[b].body[j]).reads(
                    RegisterID(r),
                ),
    )
}

impl ModuleView {
    /// The module with the body of every block rewritten.
    pub open spec fn map_bodies(self, f: spec_fn(Seq<Op>) -> Seq<Op>) -> ModuleView {
        ModuleView {
            blocks: Seq::new(
                self.blocks.len(),
                |b: int| BlockView { body: f(self.blocks[b].body), ..self.blocks[b] },
            ),
            ..self
        }
    }

    /// The module with every instruction rewritten on its own.
    pub open spec fn map_each(self, f: spec_fn(Op) -> Op) -> ModuleView {
        self.map_bodies(|body: Seq<Op>| map_ops(body, f))
    }

    /// Every register that some instruction of the module reads.
    pub open spec fn read_set(self) -> Set<usize> {
        blocks_reads(self.blocks, self.blocks.len() as int)
    }

    /// What the module's assignments of single operands make their targets stand for.
    pub open spec fn leaf_assigns(self) -> Replacements {
        blocks_leafs(self.blocks, self.blocks.len() as int)
    }

    pub open spec fn after_cse(self) -> ModuleView {
        self.map_bodies(|body: Seq<Op>| cse_body(body))
    }

    pub open spec fn after_identity(self) -> ModuleView {
        self.map_each(|op: Op| without_identity(op))
    }

    pub open spec fn after_negation(self) -> ModuleView {
        self.map_each(|op: Op| without_negation(op))
    }

    pub open spec fn after_folding(self) -> ModuleView {
        self.map_each(|op: Op| folded(op))
    }

    pub open spec fn after_propagation(self) -> ModuleView {
        let map = self.leaf_assigns();
        self.map_each(|op: Op| op.replaced(map))
    }

    pub open spec fn after_dead(self) -> ModuleView {
        let used = self.read_set();
        self.map_each(|op: Op| without_dead(op, used))
    }

    pub open spec fn after_nops(self) -> ModuleView {
        self.map_bodies(|body: Seq<Op>| without_nops(body))
    }


    /// One sweep of all the passes in their order, and whether one of them
    /// reported a change.
    pub open spec fn sweep(self) -> (ModuleView, bool) {
        let m1 = self.after_cse();
        let m2 = m1.after_identity();
        let m3 = m2.after_negation();
        let m4 = m3.after_folding();
        let m5 = m4.after_propagation();
        let m6 = m5.after_dead();
        (
            m6.after_nops(),
            m1 != self || m2 != m1 || m3 != m2 || m4 != m3 || m5 != m4 || m6 != m5,
        )
    }

    /// The module after the sweeps up to the first that reports no change,
    /// where that is among the first `n`.
    pub open spec fn settled(self, n: nat) -> Option<ModuleView>
        decreases n,
    {
        if n == 0 {
            None
        } else {
            let (next, changed) = self.sweep();
            if changed {
                next.settled((n - 1) as nat)
            } else {
                Some(next)
            }
        }
    }

    /// A measure of the work left: three for each assignment of a binary
    /// operation, two for each of a unary operation or a test, one for each
    /// of a single operand.
    pub open spec fn weight(self) -> nat {
        blocks_weight(self.blocks, self.blocks.len() as int)
    }

    /// The number of instructions.
    pub open spec fn size(self) -> nat {
        blocks_size(self.blocks, self.blocks.len() as int)
    }
}

pub open spec fn op_weight(op: Op) -> nat {
    match op {
        Op::Assign(_, Expr::Binary(_, _, _)) => 3,
        Op::Assign(_, Expr::Unary(_, _)) => 2,
        Op::Assign(_, Expr::Test(_, _, _)) => 2,
        Op::Assign(_, Expr::Leaf(_)) => 1,
        _ => 0,
    }
}

pub open spec fn body_weight(body: Seq<Op>, n: int) -> nat
    decreases n,
{
    if n <= 0 {
        0
    } else {
        body_weight(body, n - 1) + op_weight(body[n - 1])
    }
}

pub open spec fn blocks_weight(blocks: Seq<BlockView>, n: int) -> nat
    decreases n,
{
    if n <= 0 {
        0
    } else {
        blocks_weight(blocks, n - 1) + body_weight(
            blocks[n - 1].body,
            blocks[n - 1].body.len() as int,
        )
    }
}

pub open spec fn blocks_size(blocks: Seq<BlockView>, n: int) -> nat
    decreases n,
{
    if n <= 0 {
        0
    } else {
        blocks_size(blocks, n - 1) + blocks[n - 1].body.len()
    }
}

// ---------------------------------------------------------------------------
// Walking a module
// ---------------------------------------------------------------------------

/// Where a walk over the instructions of a module stands: `now` is `old` with
/// the instruction at each place in front of block `b`, index `j`, replaced
/// by what `g` gives for that place.
pub open spec fn progress(
    old: ModuleView,
    now: ModuleView,
    g: spec_fn(int, int) -> Op,
    b: int,
    j: int,
) -> bool {
    &&& now.entry == old.entry
    &&& now.registers == old.registers
    &&& now.blocks.len() == old.blocks.len()
    &&& forall|k: int|
        0 <= k < old.blocks.len() ==> {
            &&& (#[trigger] now.blocks[k]).id == old.blocks[k].id
            &&& now.blocks[k].parameters == old.blocks[k].parameters
            &&& now.blocks[k].body.len() == old.blocks[k].body.len()
        }
    &&& forall|k: int, i: int|
        0 <= k < old.blocks.len() && 0 <= i < old.blocks[k].body.len() ==> #[trigger] now.blocks[k].body[i]
            == if k < b || (k == b && i < j) {
            g(k, i)
        } else {
            old.blocks[k].body[i]
        }
}

/// Whether `g` changes an instruction at a place in front of block `b`, index `j`.
pub open spec fn touched(old: ModuleView, g: spec_fn(int, int) -> Op, b: int, j: int) -> bool {
    exists|k: int, i: int|
        0 <= k < old.blocks.len() && 0 <= i < old.blocks[k].body.len() && (k < b || (k == b && i
            < j)) && #[trigger] g(k, i) != old.blocks[k].body[i]
}

/// The module with the instruction at each place replaced by what `g` gives.
pub open spec fn replaced_by(old: ModuleView, g: spec_fn(int, int) -> Op) -> ModuleView {
    ModuleView {
        blocks: Seq::new(
            old.blocks.len(),
            |k: int|
                BlockView {
                    body: Seq::new(old.blocks[k].body.len(), |i: int| g(k, i)),
                    ..old.blocks[k]
                },
        ),
        ..old
    }
}

/// A walk that has passed every block has made the module that `g` describes.
pub proof fn lemma_progress_done(
    old: ModuleView,
    now: ModuleView,
    g: spec_fn(int, int) -> Op,
    changed: bool,
)
    requires
        progress(old, now, g, old.blocks.len() as int, 0),
        changed == touched(old, g, old.blocks.len() as int, 0),
    ensures
        now == replaced_by(old, g),
        changed == (now != old),
{
    let target = replaced_by(old, g);
    assert forall|k: int| 0 <= k < old.blocks.len() implies now.blocks[k] == target.blocks[k] by {
        assert(now.blocks[k].body =~= target.blocks[k].body);
    }
    assert(now.blocks =~= target.blocks);
    if changed {
        let (k, i) = choose|k: int, i: int|
            0 <= k < old.blocks.len() && 0 <= i < old.blocks[k].body.len() && (k
                < old.blocks.len() as int || (k == old.blocks.len() as int && i < 0))
                && #[trigger] g(k, i) != old.blocks[k].body[i];
        assert(now.blocks[k].body[i] != old.blocks[k].body[i]);
    } else {
        assert forall|k: int| 0 <= k < old.blocks.len() implies now.blocks[k]
            == old.blocks[k] by {
            assert forall|i: int| 0 <= i < old.blocks[k].body.len() implies now.blocks[k].body[i]
                == old.blocks[k].body[i] by {
                if g(k, i) != old.blocks[k].body[i] {
                    assert(touched(old, g, old.blocks.len() as int, 0));
                }
            }
            assert(now.blocks[k].body =~= old.blocks[k].body);
        }
        assert(now.blocks =~= old.blocks);
    }
}

fn block_count(module: &Module) -> (n: usize)
    ensures
        n == module@.blocks.len(),
{
    module.blocks.len()
}

fn body_len(module: &Module, b: usize) -> (n: usize)
    requires
        b < module@.blocks.len(),
    ensures
        n == module@.blocks[b as int].body.len(),
{
    module.blocks[b].body.len()
}

fn instruction_at(module: &Module, b: usize, j: usize) -> (i: &Instruction)
    requires
        b < module@.blocks.len(),
        j < module@.blocks[b as int].body.len(),
    ensures
        i@ == module@.blocks[b as int].body[j as int],
{
    &module.blocks[b].body[j]
}

/// Puts an instruction in the place of another.
fn put_instruction(module: &mut Module, b: usize, j: usize, i: Instruction)
    requires
        b < old(module)@.blocks.len(),
        j < old(module)@.blocks[b as int].body.len(),
    ensures
        final(module)@ == old(module)@.with_block_at(
            b as int,
            BlockView {
                body: old(module)@.blocks[b as int].body.update(j as int, i@),
                ..old(module)@.blocks[b as int]
            },
        ),
{
    let ghost before = module@;
    module.blocks[b].body[j] = i;
    assert(module@.blocks[b as int].body =~= before.blocks[b as int].body.update(j as int, i@));
    assert(module@.blocks =~= before.with_block_at(
        b as int,
        BlockView {
            body: before.blocks[b as int].body.update(j as int, i@),
            ..before.blocks[b as int]
        },
    ).blocks);
}

/// One more place of the walk is passed, with or without a replacement.
proof fn lemma_progress_step(
    old: ModuleView,
    before: ModuleView,
    now: ModuleView,
    g: spec_fn(int, int) -> Op,
    b: int,
    j: int,
)
    requires
        0 <= b < old.blocks.len(),
        0 <= j < old.blocks[b].body.len(),
        progress(old, before, g, b, j),
        now == before.with_block_at(
            b,
            BlockView { body: before.blocks[b].body.update(j, g(b, j)), ..before.blocks[b] },
        ),
    ensures
        progress(old, now, g, b, j + 1),
        touched(old, g, b, j + 1) == (touched(old, g, b, j) || g(b, j) != old.blocks[b].body[j]),
        g(b, j) == old.blocks[b].body[j] ==> now == before,
{
    assert forall|k: int, i: int|
        0 <= k < old.blocks.len() && 0 <= i < old.blocks[k].body.len() implies #[trigger] now.blocks[k].body[i]
        == if k < b || (k == b && i < j + 1) {
        g(k, i)
    } else {
        old.blocks[k].body[i]
    } by {
        assert(before.blocks[k].body[i] == if k < b || (k == b && i < j) {
            g(k, i)
        } else {
            old.blocks[k].body[i]
        });
    }
    if touched(old, g, b, j + 1) && !touched(old, g, b, j) {
        let (k, i) = choose|k: int, i: int|
            0 <= k < old.blocks.len() && 0 <= i < old.blocks[k].body.len() && (k < b || (k == b
                && i < j + 1)) && #[trigger] g(k, i) != old.blocks[k].body[i];
        if !(k == b && i == j) {
            assert(g(k, i) != old.blocks[k].body[i]);
            assert(touched(old, g, b, j));
        }
    }
    if g(b, j) != old.blocks[b].body[j] {
        assert(touched(old, g, b, j + 1));
    }
    if touched(old, g, b, j) {
        let (k, i) = choose|k: int, i: int|
            0 <= k < old.blocks.len() && 0 <= i < old.blocks[k].body.len() && (k < b || (k == b
                && i < j)) && #[trigger] g(k, i) != old.blocks[k].body[i];
        assert(g(k, i) != old.blocks[k].body[i]);
        assert(touched(old, g, b, j + 1));
    }
    if g(b, j) == old.blocks[b].body[j] {
        assert(before.blocks[b].body[j] == old.blocks[b].body[j]);
        assert(before.blocks[b].body.update(j, g(b, j)) =~= before.blocks[b].body);
        assert(now.blocks =~= before.blocks);
    }
}

/// The walk goes on from the end of one block to the head of the next.
proof fn lemma_progress_next(old: ModuleView, now: ModuleView, g: spec_fn(int, int) -> Op, b: int)
    requires
        0 <= b < old.blocks.len(),
        progress(old, now, g, b, old.blocks[b].body.len() as int),
    ensures
        progress(old, now, g, b + 1, 0),
        touched(old, g, b + 1, 0) == touched(old, g, b, old.blocks[b].body.len() as int),
{
    let n = old.blocks[b].body.len() as int;
    assert forall|k: int, i: int|
        0 <= k < old.blocks.len() && 0 <= i < old.blocks[k].body.len() implies #[trigger] now.blocks[k].body[i]
        == if k < b + 1 || (k == b + 1 && i < 0) {
        g(k, i)
    } else {
        old.blocks[k].body[i]
    } by {
        assert(now.blocks[k].body[i] == if k < b || (k == b && i < n) {
            g(k, i)
        } else {
            old.blocks[k].body[i]
        });
    }
    if touched(old, g, b + 1, 0) {
        let (k, i) = choose|k: int, i: int|
            0 <= k < old.blocks.len() && 0 <= i < old.blocks[k].body.len() && (k < b + 1 || (k
                == b + 1 && i < 0)) && #[trigger] g(k, i) != old.blocks[k].body[i];
        assert(g(k, i) != old.blocks[k].body[i]);
        assert(touched(old, g, b, n));
    }
    if touched(old, g, b, n) {
        let (k, i) = choose|k: int, i: int|
            0 <= k < old.blocks.len() && 0 <= i < old.blocks[k].body.len() && (k < b || (k == b
                && i < n)) && #[trigger] g(k, i) != old.blocks[k].body[i];
        assert(g(k, i) != old.blocks[k].body[i]);
        assert(touched(old, g, b + 1, 0));
    }
}

// ---------------------------------------------------------------------------
// The passes
// ---------------------------------------------------------------------------

/// Removes products with the constant one.
pub fn remove_identity_muls(module: &mut Module) -> (changed: bool)
    ensures
        final(module)@ == old(module)@.after_identity(),
        changed == (final(module)@ != old(module)@),
        old(module)@.valid() ==> final(module)@.valid(),
{
    proof {
        if module@.valid() {
            lemma_identity_valid(module@);
        }
    }
    let ghost start = module@;
    let ghost g = |k: int, i: int| without_identity(start.blocks[k].body[i]);
    let mut changed = false;
    let mut b: usize = 0;
    while b < block_count(module)
        invariant
            start == old(module)@,
            g == |k: int, i: int| without_identity(start.blocks[k].body[i]),
            progress(start, module@, g, b as int, 0),
            changed == touched(start, g, b as int, 0),
        decreases start.blocks.len() - b,
    {
        let mut j: usize = 0;
        while j < body_len(module, b)
            invariant
                b < start.blocks.len(),
                start == old(module)@,
                g == |k: int, i: int| without_identity(start.blocks[k].body[i]),
                progress(start, module@, g, b as int, j as int),
                changed == touched(start, g, b as int, j as int),
            decreases start.blocks[b as int].body.len() - j,
        {
            let ghost before = module@;
            assert(before.blocks[b as int].body[j as int] == start.blocks[b as int].body[j as int]);
            let new = match instruction_at(module, b, j) {
                Instruction::Assign(target, Expr::Binary(a, BinaryOp::Mul, bb)) => {
                    if a.is_constant_multiplicative_identity() {
                        Some(Instruction::Assign(*target, Expr::Leaf(*bb)))
                    } else if bb.is_constant_multiplicative_identity() {
                        Some(Instruction::Assign(*target, Expr::Leaf(*a)))
                    } else {
                        None
                    }
                },
                _ => None,
            };
            match new {
                Some(i) => {
                    changed = true;
                    put_instruction(module, b, j, i);
                },
                None => {
                    proof {
                        lemma_same_place(before, b as int, j as int);
                    }
                },
            }
            proof {
                lemma_progress_step(start, before, module@, g, b as int, j as int);
            }
            j += 1;
        }
        proof {
            lemma_progress_next(start, module@, g, b as int);
        }
        b += 1;
    }
    proof {
        lemma_progress_done(start, module@, g, changed);
        lemma_replaced_by_each(start, |op: Op| without_identity(op), g);
    }
    changed
}

/// Putting an instruction where it stands changes nothing.
proof fn lemma_same_place(m: ModuleView, b: int, j: int)
    requires
        0 <= b < m.blocks.len(),
        0 <= j < m.blocks[b].body.len(),
    ensures
        m == m.with_block_at(
            b,
            BlockView { body: m.blocks[b].body.update(j, m.blocks[b].body[j]), ..m.blocks[b] },
        ),
{
    assert(m.blocks[b].body.update(j, m.blocks[b].body[j]) =~= m.blocks[b].body);
    assert(m.with_block_at(
        b,
        BlockView { body: m.blocks[b].body.update(j, m.blocks[b].body[j]), ..m.blocks[b] },
    ).blocks =~= m.blocks);
}

/// A rewrite of each instruction on its own is a replacement place by place.
pub proof fn lemma_replaced_by_each(old: ModuleView, f: spec_fn(Op) -> Op, g: spec_fn(int, int) -> Op)
    requires
        forall|k: int, i: int| #[trigger] g(k, i) == f(old.blocks[k].body[i]),
    ensures
        replaced_by(old, g) == old.map_each(f),
{
    let a = replaced_by(old, g);
    let b = old.map_each(f);
    assert forall|k: int| 0 <= k < old.blocks.len() implies a.blocks[k] == b.blocks[k] by {
        assert(a.blocks[k].body =~= b.blocks[k].body);
    }
    assert(a.blocks =~= b.blocks);
}

/// Removes products with the constant minus one.
pub fn remove_negating_muls(module: &mut Module) -> (changed: bool)
    ensures
        final(module)@ == old(module)@.after_negation(),
        changed == (final(module)@ != old(module)@),
        old(module)@.valid() ==> final(module)@.valid(),
{
    proof {
        if module@.valid() {
            lemma_negation_valid(module@);
        }
    }
    let ghost start = module@;
    let ghost g = |k: int, i: int| without_negation(start.blocks[k].body[i]);
    let mut changed = false;
    let mut b: usize = 0;
    while b < block_count(module)
        invariant
            start == old(module)@,
            g == |k: int, i: int| without_negation(start.blocks[k].body[i]),
            progress(start, module@, g, b as int, 0),
            changed == touched(start, g, b as int, 0),
        decreases start.blocks.len() - b,
    {
        let mut j: usize = 0;
        while j < body_len(module, b)
            invariant
                b < start.blocks.len(),
                start == old(module)@,
                g == |k: int, i: int| without_negation(start.blocks[k].body[i]),
                progress(start, module@, g, b as int, j as int),
                changed == touched(start, g, b as int, j as int),
            decreases start.blocks[b as int].body.len() - j,
        {
            let ghost before = module@;
            assert(before.blocks[b as int].body[j as int] == start.blocks[b as int].body[j as int]);
            let new = match instruction_at(module, b, j) {
                Instruction::Assign(target, Expr::Binary(a, BinaryOp::Mul, bb)) => {
                    if a.is_constant_multiplicative_negation() {
                        Some(Instruction::Assign(*target, Expr::Unary(*bb, UnaryOp::Neg)))
                    } else if bb.is_constant_multiplicative_negation() {
                        Some(Instruction::Assign(*target, Expr::Unary(*a, UnaryOp::Neg)))
                    } else {
                        None
                    }
                },
                _ => None,
            };
            match new {
                Some(i) => {
                    changed = true;
                    put_instruction(module, b, j, i);
                },
                None => {
                    proof {
                        lemma_same_place(before, b as int, j as int);
                    }
                },
            }
            proof {
                lemma_progress_step(start, before, module@, g, b as int, j as int);
            }
            j += 1;
        }
        proof {
            lemma_progress_next(start, module@, g, b as int);
        }
        b += 1;
    }
    proof {
        lemma_progress_done(start, module@, g, changed);
        lemma_replaced_by_each(start, |op: Op| without_negation(op), g);
    }
    changed
}

/// Computes every operation on constants that has a result.
pub fn do_constant_operations(module: &mut Module) -> (changed: bool)
    ensures
        final(module)@ == old(module)@.after_folding(),
        changed == (final(module)@ != old(module)@),
        old(module)@.valid() ==> final(module)@.valid(),
{
    proof {
        if module@.valid() {
            lemma_folding_valid(module@);
        }
    }
    let ghost start = module@;
    let ghost g = |k: int, i: int| folded(start.blocks[k].body[i]);
    let mut changed = false;
    let mut b: usize = 0;
    while b < block_count(module)
        invariant
            start == old(module)@,
            g == |k: int, i: int| folded(start.blocks[k].body[i]),
            progress(start, module@, g, b as int, 0),
            changed == touched(start, g, b as int, 0),
        decreases start.blocks.len() - b,
    {
        let mut j: usize = 0;
        while j < body_len(module, b)
            invariant
                b < start.blocks.len(),
                start == old(module)@,
                g == |k: int, i: int| folded(start.blocks[k].body[i]),
                progress(start, module@, g, b as int, j as int),
                changed == touched(start, g, b as int, j as int),
            decreases start.blocks[b as int].body.len() - j,
        {
            let ghost before = module@;
            assert(before.blocks[b as int].body[j as int] == start.blocks[b as int].body[j as int]);
            let new = match instruction_at(module, b, j) {
                Instruction::Assign(target, e) => {
                    if e.is_leaf() {
                        None
                    } else {
                        match e.eval_const() {
                            Some(value) => {
                                proof {
                                    lemma_constant_value_set(*e);
                                }
                                Some(Instruction::Assign(*target, Expr::Leaf(value.to_leaf_expr())))
                            },
                            None => None,
                        }
                    }
                },
                _ => None,
            };
            match new {
                Some(i) => {
                    changed = true;
                    put_instruction(module, b, j, i);
                },
                None => {
                    proof {
                        lemma_same_place(before, b as int, j as int);
                    }
                },
            }
            proof {
                lemma_progress_step(start, before, module@, g, b as int, j as int);
            }
            j += 1;
        }
        proof {
            lemma_progress_next(start, module@, g, b as int);
        }
        b += 1;
    }
    proof {
        lemma_progress_done(start, module@, g, changed);
        lemma_replaced_by_each(start, |op: Op| folded(op), g);
    }
    changed
}

/// An expression of constants never has the unset value.
pub proof fn lemma_constant_value_set(e: Expr)
    ensures
        e.constant_value() matches Some(v) ==> v != super::exec::Value::Uninit,
{
}

/// Replaces every use of a register that is assigned a single operand by
/// that operand.
pub fn propagate_leaf_assigns(module: &mut Module) -> (changed: bool)
    ensures
        final(module)@ == old(module)@.after_propagation(),
        changed == (final(module)@ != old(module)@),
        old(module)@.valid() ==> final(module)@.valid(),
{
    proof {
        if module@.valid() {
            lemma_propagation_valid(module@);
        }
    }
    broadcast use vstd::std_specs::hash::group_hash_axioms;

    let ghost start = module@;
    let mut replacements: HashMap<usize, LeafExpr> = HashMap::new();
    let mut b: usize = 0;
    while b < block_count(module)
        invariant
            start == module@,
            b <= start.blocks.len(),
            replacements@ == blocks_leafs(start.blocks, b as int),
        decreases start.blocks.len() - b,
    {
        let mut j: usize = 0;
        while j < body_len(module, b)
            invariant
                start == module@,
                b < start.blocks.len(),
                j <= start.blocks[b as int].body.len(),
                replacements@ == body_leafs(
                    start.blocks[b as int].body,
                    j as int,
                    blocks_leafs(start.blocks, b as int),
                ),
            decreases start.blocks[b as int].body.len() - j,
        {
            if let Instruction::Assign(target, Expr::Leaf(l)) = instruction_at(module, b, j) {
                replacements.insert(target.0, *l);
            }
            j += 1;
        }
        b += 1;
    }
    let ghost map = replacements@;
    let ghost g = |k: int, i: int| start.blocks[k].body[i].replaced(map);
    let mut changed = false;
    b = 0;
    while b < block_count(module)
        invariant
            start == old(module)@,
            map == replacements@,
            g == |k: int, i: int| start.blocks[k].body[i].replaced(map),
            progress(start, module@, g, b as int, 0),
            changed == touched(start, g, b as int, 0),
        decreases start.blocks.len() - b,
    {
        let mut j: usize = 0;
        while j < body_len(module, b)
            invariant
                b < start.blocks.len(),
                start == old(module)@,
                map == replacements@,
                g == |k: int, i: int| start.blocks[k].body[i].replaced(map),
                progress(start, module@, g, b as int, j as int),
                changed == touched(start, g, b as int, j as int),
            decreases start.blocks[b as int].body.len() - j,
        {
            let ghost before = module@;
            assert(before.blocks[b as int].body[j as int] == start.blocks[b as int].body[j as int]);
            let mut i = copy_instruction(instruction_at(module, b, j));
            let c = i.replace_usages(&replacements);
            changed = changed || c;
            put_instruction(module, b, j, i);
            proof {
                lemma_progress_step(start, before, module@, g, b as int, j as int);
            }
            j += 1;
        }
        proof {
            lemma_progress_next(start, module@, g, b as int);
        }
        b += 1;
    }
    proof {
        lemma_progress_done(start, module@, g, changed);
        lemma_replaced_by_each(start, |op: Op| op.replaced(map), g);
    }
    changed
}

/// Empties every assignment to a register that no instruction reads.
pub fn remove_dead_assignments(module: &mut Module) -> (changed: bool)
    ensures
        final(module)@ == old(module)@.after_dead(),
        changed == (final(module)@ != old(module)@),
        old(module)@.valid() ==> final(module)@.valid(),
{
    proof {
        if module@.valid() {
            lemma_dead_valid(module@);
        }
    }
    broadcast use vstd::std_specs::hash::group_hash_axioms;

    let ghost start = module@;
    let mut not_dead: HashSet<usize> = HashSet::new();
    let mut b: usize = 0;
    proof {
        assert(not_dead@ =~= blocks_reads(start.blocks, 0));
    }
    while b < block_count(module)
        invariant
            start == module@,
            b <= start.blocks.len(),
            not_dead@ == blocks_reads(start.blocks, b as int),
        decreases start.blocks.len() - b,
    {
        let mut j: usize = 0;
        proof {
            assert(not_dead@ =~= blocks_reads(start.blocks, b as int).union(
                body_reads(start.blocks[b as int].body, 0),
            ));
        }
        while j < body_len(module, b)
            invariant
                start == module@,
                b < start.blocks.len(),
                j <= start.blocks[b as int].body.len(),
                not_dead@ == blocks_reads(start.blocks, b as int).union(
                    body_reads(start.blocks[b as int].body, j as int),
                ),
            decreases start.blocks[b as int].body.len() - j,
        {
            let ghost before = not_dead@;
            instruction_at(module, b, j).populate_used(&mut not_dead);
            proof {
                let body = start.blocks[b as int].body;
                assert forall|r: usize|
                    body_reads(body, j as int + 1).contains(r) <==> body_reads(
                        body,
                        j as int,
                    ).contains(r) || body[j as int].reads(RegisterID(r)) by {
                    if body_reads(body, j as int + 1).contains(r) {
                        let i = choose|i: int|
                            0 <= i < j + 1 && (#[trigger] body[i]).reads(RegisterID(r));
                        if i < j {
                            assert(body_reads(body, j as int).contains(r));
                        }
                    }
                    if body[j as int].reads(RegisterID(r)) {
                        assert(body_reads(body, j as int + 1).contains(r));
                    }
                    if body_reads(body, j as int).contains(r) {
                        let i = choose|i: int|
                            0 <= i < j && (#[trigger] body[i]).reads(RegisterID(r));
                        assert(body[i].reads(RegisterID(r)));
                        assert(body_reads(body, j as int + 1).contains(r));
                    }
                }
                assert(not_dead@ =~= blocks_reads(start.blocks, b as int).union(
                    body_reads(body, j as int + 1),
                ));
            }
            j += 1;
        }
        proof {
            lemma_blocks_reads_step(start.blocks, b as int);
        }
        b += 1;
    }
    let ghost used = not_dead@;
    let ghost g = |k: int, i: int| without_dead(start.blocks[k].body[i], used);
    let mut changed = false;
    b = 0;
    while b < block_count(module)
        invariant
            start == old(module)@,
            used == not_dead@,
            used == start.read_set(),
            g == |k: int, i: int| without_dead(start.blocks[k].body[i], used),
            progress(start, module@, g, b as int, 0),
            changed == touched(start, g, b as int, 0),
        decreases start.blocks.len() - b,
    {
        let mut j: usize = 0;
        while j < body_len(module, b)
            invariant
                b < start.blocks.len(),
                start == old(module)@,
                used == not_dead@,
                used == start.read_set(),
                g == |k: int, i: int| without_dead(start.blocks[k].body[i], used),
                progress(start, module@, g, b as int, j as int),
                changed == touched(start, g, b as int, j as int),
            decreases start.blocks[b as int].body.len() - j,
        {
            let ghost before = module@;
            assert(before.blocks[b as int].body[j as int] == start.blocks[b as int].body[j as int]);
            let dead = match instruction_at(module, b, j) {
                Instruction::Assign(target, _) => !not_dead.contains(&target.0),
                _ => false,
            };
            if dead {
                changed = true;
                put_instruction(module, b, j, Instruction::Nop);
            } else {
                proof {
                    lemma_same_place(before, b as int, j as int);
                }
            }
            proof {
                lemma_progress_step(start, before, module@, g, b as int, j as int);
            }
            j += 1;
        }
        proof {
            lemma_progress_next(start, module@, g, b as int);
        }
        b += 1;
    }
    proof {
        lemma_progress_done(start, module@, g, changed);
        lemma_replaced_by_each(start, |op: Op| without_dead(op, used), g);
    }
    changed
}

/// The registers read by one block more.
proof fn lemma_blocks_reads_step(blocks: Seq<BlockView>, b: int)
    requires
        0 <= b < blocks.len(),
    ensures
        blocks_reads(blocks, b + 1) == blocks_reads(blocks, b).union(
            body_reads(blocks[b].body, blocks[b].body.len() as int),
        ),
{
    let left = blocks_reads(blocks, b + 1);
    let right = blocks_reads(blocks, b).union(
        body_reads(blocks[b].body, blocks[b].body.len() as int),
    );
    assert forall|r: usize| left.contains(r) <==> right.contains(r) by {
        if left.contains(r) {
            let (k, j) = choose|k: int, j: int|
                0 <= k < b + 1 && 0 <= j < blocks[k].body.len() && (#[trigger] blocks[k].body[j]).reads(
                    RegisterID(r),
                );
            if k < b {
                assert(blocks_reads(blocks, b).contains(r));
            } else {
                assert(body_reads(blocks[b].body, blocks[b].body.len() as int).contains(r));
            }
        }
        if blocks_reads(blocks, b).contains(r) {
            let (k, j) = choose|k: int, j: int|
                0 <= k < b && 0 <= j < blocks[k].body.len() && (#[trigger] blocks[k].body[j]).reads(
                    RegisterID(r),
                );
            assert(blocks[k].body[j].reads(RegisterID(r)));
            assert(left.contains(r));
        }
        if body_reads(blocks[b].body, blocks[b].body.len() as int).contains(r) {
            let j = choose|j: int|
                0 <= j < blocks[b].body.len() && (#[trigger] blocks[b].body[j]).reads(
                    RegisterID(r),
                );
            assert(blocks[b].body[j].reads(RegisterID(r)));
            assert(left.contains(r));
        }
    }
    assert(left =~= right);
}

/// Where a walk over the blocks of a module stands: `now` is `old` with the
/// body of each block in front of block `b` replaced by what `f` makes of it.
pub open spec fn bodies_progress(
    old: ModuleView,
    now: ModuleView,
    f: spec_fn(Seq<Op>) -> Seq<Op>,
    b: int,
) -> bool {
    &&& now.entry == old.entry
    &&& now.registers == old.registers
    &&& now.blocks.len() == old.blocks.len()
    &&& forall|k: int|
        0 <= k < old.blocks.len() ==> #[trigger] now.blocks[k] == if k < b {
            BlockView { body: f(old.blocks[k].body), ..old.blocks[k] }
        } else {
            old.blocks[k]
        }
}

/// Puts a body in the place of another.
fn put_body(module: &mut Module, b: usize, body: Vec<Instruction>)
    requires
        b < old(module)@.blocks.len(),
    ensures
        final(module)@ == old(module)@.with_block_at(
            b as int,
            BlockView { body: ops_view(body@), ..old(module)@.blocks[b as int] },
        ),
{
    let ghost before = module@;
    module.blocks[b].body = body;
    assert(module@.blocks =~= before.with_block_at(
        b as int,
        BlockView { body: ops_view(body@), ..before.blocks[b as int] },
    ).blocks);
}

/// Takes the empty instructions out of every block.
pub fn remove_nops(module: &mut Module)
    ensures
        final(module)@ == old(module)@.after_nops(),
        old(module)@.valid() ==> final(module)@.valid(),
{
    proof {
        if module@.valid() {
            lemma_nops_valid(module@);
        }
    }
    let ghost start = module@;
    let ghost f = |body: Seq<Op>| without_nops(body);
    let mut b: usize = 0;
    while b < block_count(module)
        invariant
            start == old(module)@,
            b <= start.blocks.len(),
            f == |body: Seq<Op>| without_nops(body),
            bodies_progress(start, module@, f, b as int),
        decreases start.blocks.len() - b,
    {
        let ghost body = start.blocks[b as int].body;
        assert(module@.blocks[b as int] == start.blocks[b as int]);
        let mut kept: Vec<Instruction> = Vec::new();
        let mut j: usize = 0;
        proof {
            assert(ops_view(kept@) =~= kept_ops(body, 0));
        }
        while j < body_len(module, b)
            invariant
                b < start.blocks.len(),
                module@.blocks.len() == start.blocks.len(),
                module@.blocks[b as int] == start.blocks[b as int],
                body == start.blocks[b as int].body,
                j <= body.len(),
                ops_view(kept@) == kept_ops(body, j as int),
            decreases body.len() - j,
        {
            let i = instruction_at(module, b, j);
            match i {
                Instruction::Nop => {},
                _ => {
                    let copy = copy_instruction(i);
                    proof {
                        assert(ops_view(kept@.push(copy)) =~= ops_view(kept@).push(copy@));
                    }
                    kept.push(copy);
                },
            }
            j += 1;
        }
        let ghost before = module@;
        put_body(module, b, kept);
        proof {
            assert forall|k: int| 0 <= k < start.blocks.len() implies #[trigger] module@.blocks[k]
                == if k < b + 1 {
                BlockView { body: f(start.blocks[k].body), ..start.blocks[k] }
            } else {
                start.blocks[k]
            } by {
                assert(before.blocks[k] == if k < b {
                    BlockView { body: f(start.blocks[k].body), ..start.blocks[k] }
                } else {
                    start.blocks[k]
                });
            }
        }
        b += 1;
    }
    proof {
        assert(module@.blocks =~= start.after_nops().blocks);
    }
}

/// The register that took the expression first in the block, in front of `j`.
fn find_first(module: &Module, b: usize, e: &Expr, j: usize) -> (r: Option<RegisterID>)
    requires
        b < module@.blocks.len(),
        j <= module@.blocks[b as int].body.len(),
    ensures
        r == first_assign(module@.blocks[b as int].body, *e, j as int),
{
    let mut i: usize = 0;
    while i < j
        invariant
            b < module@.blocks.len(),
            i <= j <= module@.blocks[b as int].body.len(),
            first_assign(module@.blocks[b as int].body, *e, i as int) is None,
        decreases j - i,
    {
        if let Instruction::Assign(target, found) = instruction_at(module, b, i) {
            if *found == *e {
                proof {
                    lemma_first_assign_stays(
                        module@.blocks[b as int].body,
                        *e,
                        i as int + 1,
                        j as int,
                    );
                }
                return Some(*target);
            }
        }
        i += 1;
    }
    None
}

/// Once an assignment of the expression is found, it stays the first.
proof fn lemma_first_assign_stays(body: Seq<Op>, e: Expr, k: int, n: int)
    requires
        0 <= k <= n,
        first_assign(body, e, k) is Some,
    ensures
        first_assign(body, e, n) == first_assign(body, e, k),
    decreases n - k,
{
    if k < n {
        lemma_first_assign_stays(body, e, k, n - 1);
    }
}

/// Makes every assignment of an expression that its block has assigned
/// before a copy of the register that took it first.
pub fn local_cse(module: &mut Module) -> (changed: bool)
    ensures
        final(module)@ == old(module)@.after_cse(),
        changed == (final(module)@ != old(module)@),
        old(module)@.valid() ==> final(module)@.valid(),
{
    proof {
        if module@.valid() {
            lemma_cse_valid(module@);
        }
    }
    let ghost start = module@;
    let ghost f = |body: Seq<Op>| cse_body(body);
    let mut changed = false;
    let mut b: usize = 0;
    while b < block_count(module)
        invariant
            start == old(module)@,
            b <= start.blocks.len(),
            f == |body: Seq<Op>| cse_body(body),
            bodies_progress(start, module@, f, b as int),
            changed == exists|k: int|
                0 <= k < b && #[trigger] cse_body(start.blocks[k].body) != start.blocks[k].body,
        decreases start.blocks.len() - b,
    {
        let ghost body = start.blocks[b as int].body;
        assert(module@.blocks[b as int] == start.blocks[b as int]);
        let mut out: Vec<Instruction> = Vec::new();
        let mut here = false;
        let mut j: usize = 0;
        proof {
            assert(ops_view(out@) =~= cse_body(body).take(0));
        }
        while j < body_len(module, b)
            invariant
                b < start.blocks.len(),
                module@.blocks.len() == start.blocks.len(),
                module@.blocks[b as int] == start.blocks[b as int],
                body == start.blocks[b as int].body,
                j <= body.len(),
                ops_view(out@) == cse_body(body).take(j as int),
                here == exists|i: int| 0 <= i < j && #[trigger] cse_op(body, i) != body[i],
            decreases body.len() - j,
        {
            let i = instruction_at(module, b, j);
            let new = match i {
                Instruction::Assign(target, val) => {
                    if !val.is_leaf() {
                        match find_first(module, b, val, j) {
                            Some(first) => Some(
                                Instruction::Assign(
                                    *target,
                                    Expr::Leaf(LeafExpr::Register(first)),
                                ),
                            ),
                            None => None,
                        }
                    } else {
                        None
                    }
                },
                _ => None,
            };
            let item = match new {
                Some(item) => {
                    here = true;
                    item
                },
                None => copy_instruction(i),
            };
            proof {
                assert(item@ == cse_op(body, j as int));
                assert(ops_view(out@.push(item)) =~= ops_view(out@).push(item@));
                assert(cse_body(body).take(j as int + 1) =~= cse_body(body).take(j as int).push(
                    cse_op(body, j as int),
                ));
                if cse_op(body, j as int) != body[j as int] {
                    assert(exists|i: int| 0 <= i < j + 1 && #[trigger] cse_op(body, i) != body[i]);
                } else if exists|i: int| 0 <= i < j + 1 && #[trigger] cse_op(body, i) != body[i] {
                    let i = choose|i: int| 0 <= i < j + 1 && #[trigger] cse_op(body, i) != body[i];
                    assert(i < j);
                }
            }
            out.push(item);
            j += 1;
        }
        proof {
            assert(cse_body(body).take(body.len() as int) =~= cse_body(body));
            if here {
                let i = choose|i: int| 0 <= i < body.len() && #[trigger] cse_op(body, i) != body[i];
                assert(cse_body(body)[i] != body[i]);
            } else {
                assert(cse_body(body) =~= body);
            }
        }
        let ghost before = module@;
        let ghost was = changed;
        put_body(module, b, out);
        changed = changed || here;
        proof {
            assert forall|k: int| 0 <= k < start.blocks.len() implies #[trigger] module@.blocks[k]
                == if k < b + 1 {
                BlockView { body: f(start.blocks[k].body), ..start.blocks[k] }
            } else {
                start.blocks[k]
            } by {
                assert(before.blocks[k] == if k < b {
                    BlockView { body: f(start.blocks[k].body), ..start.blocks[k] }
                } else {
                    start.blocks[k]
                });
            }
            if changed {
                if here {
                    assert(cse_body(start.blocks[b as int].body) != start.blocks[b as int].body);
                } else {
                    let k = choose|k: int|
                        0 <= k < b && #[trigger] cse_body(start.blocks[k].body)
                            != start.blocks[k].body;
                    assert(cse_body(start.blocks[k].body) != start.blocks[k].body);
                }
            } else {
                if exists|k: int|
                    0 <= k < b + 1 && #[trigger] cse_body(start.blocks[k].body)
                        != start.blocks[k].body {
                    let k = choose|k: int|
                        0 <= k < b + 1 && #[trigger] cse_body(start.blocks[k].body)
                            != start.blocks[k].body;
                    if k < b {
                        assert(was);
                    }
                }
            }
        }
        b += 1;
    }
    proof {
        assert(module@.blocks =~= start.after_cse().blocks);
        if changed {
            let k = choose|k: int|
                0 <= k < start.blocks.len() && #[trigger] cse_body(start.blocks[k].body)
                    != start.blocks[k].body;
            assert(module@.blocks[k].body != start.blocks[k].body);
        } else {
            assert forall|k: int| 0 <= k < start.blocks.len() implies module@.blocks[k]
                == start.blocks[k] by {
                if cse_body(start.blocks[k].body) != start.blocks[k].body {
                    assert(false);
                }
            }
            assert(module@.blocks =~= start.blocks);
        }
    }
    changed
}

// ---------------------------------------------------------------------------
// The driver
// ---------------------------------------------------------------------------

/// Two modules that differ in nothing but their instructions, place by place.
pub open spec fn same_frame(a: ModuleView, b: ModuleView) -> bool {
    &&& a.entry == b.entry
    &&& a.registers == b.registers
    &&& a.blocks.len() == b.blocks.len()
    &&& forall|k: int|
        0 <= k < a.blocks.len() ==> {
            &&& (#[trigger] a.blocks[k]).id == b.blocks[k].id
            &&& a.blocks[k].parameters == b.blocks[k].parameters
            &&& a.blocks[k].body.len() == b.blocks[k].body.len()
        }
}

/// No instruction of `new` weighs more than the one in its place in `old`,
/// and one that differs weighs less.
pub open spec fn lighter(old: ModuleView, new: ModuleView) -> bool {
    &&& same_frame(old, new)
    &&& forall|k: int, i: int|
        0 <= k < old.blocks.len() && 0 <= i < old.blocks[k].body.len() ==> {
            &&& op_weight(#[trigger] new.blocks[k].body[i]) <= op_weight(old.blocks[k].body[i])
            &&& new.blocks[k].body[i] != old.blocks[k].body[i] ==> op_weight(new.blocks[k].body[i])
                < op_weight(old.blocks[k].body[i])
        }
}

proof fn lemma_body_weight_falls(old: Seq<Op>, new: Seq<Op>, n: int)
    requires
        0 <= n <= old.len(),
        old.len() == new.len(),
        forall|i: int| 0 <= i < old.len() ==> op_weight(#[trigger] new[i]) <= op_weight(old[i]),
    ensures
        body_weight(new, n) <= body_weight(old, n),
        (exists|i: int| 0 <= i < n && op_weight(#[trigger] new[i]) < op_weight(old[i]))
            ==> body_weight(new, n) < body_weight(old, n),
    decreases n,
{
    if n > 0 {
        lemma_body_weight_falls(old, new, n - 1);
        if exists|i: int| 0 <= i < n && op_weight(#[trigger] new[i]) < op_weight(old[i]) {
            let i = choose|i: int| 0 <= i < n && op_weight(#[trigger] new[i]) < op_weight(old[i]);
            if i < n - 1 {
                assert(op_weight(new[i]) < op_weight(old[i]));
            }
        }
    }
}

proof fn lemma_blocks_weight_falls(old: ModuleView, new: ModuleView, n: int)
    requires
        lighter(old, new),
        0 <= n <= old.blocks.len(),
    ensures
        blocks_weight(new.blocks, n) <= blocks_weight(old.blocks, n),
        (exists|k: int, i: int|
            0 <= k < n && 0 <= i < old.blocks[k].body.len() && #[trigger] new.blocks[k].body[i]
                != old.blocks[k].body[i]) ==> blocks_weight(new.blocks, n) < blocks_weight(
            old.blocks,
            n,
        ),
    decreases n,
{
    if n > 0 {
        lemma_blocks_weight_falls(old, new, n - 1);
        let a = old.blocks[n - 1].body;
        let b = new.blocks[n - 1].body;
        assert(old.blocks[n - 1].body.len() == new.blocks[n - 1].body.len());
        assert forall|i: int| 0 <= i < a.len() implies op_weight(#[trigger] b[i]) <= op_weight(
            a[i],
        ) by {
            assert(op_weight(new.blocks[n - 1].body[i]) <= op_weight(old.blocks[n - 1].body[i]));
        }
        lemma_body_weight_falls(a, b, a.len() as int);
        if exists|k: int, i: int|
            0 <= k < n && 0 <= i < old.blocks[k].body.len() && #[trigger] new.blocks[k].body[i]
                != old.blocks[k].body[i] {
            let (k, i) = choose|k: int, i: int|
                0 <= k < n && 0 <= i < old.blocks[k].body.len() && #[trigger] new.blocks[k].body[i]
                    != old.blocks[k].body[i];
            if k < n - 1 {
                assert(new.blocks[k].body[i] != old.blocks[k].body[i]);
            } else {
                assert(op_weight(b[i]) < op_weight(a[i]));
            }
        }
    }
}

/// A module that is lighter place by place weighs no more, and less where it differs.
pub proof fn lemma_weight_falls(old: ModuleView, new: ModuleView)
    requires
        lighter(old, new),
    ensures
        new.weight() <= old.weight(),
        new != old ==> new.weight() < old.weight(),
{
    lemma_blocks_weight_falls(old, new, old.blocks.len() as int);
    if new != old {
        if !(exists|k: int, i: int|
            0 <= k < old.blocks.len() && 0 <= i < old.blocks[k].body.len() && #[trigger] new.blocks[k].body[i]
                != old.blocks[k].body[i]) {
            assert forall|k: int| 0 <= k < old.blocks.len() implies new.blocks[k]
                == old.blocks[k] by {
                assert(new.blocks[k].id == old.blocks[k].id);
                assert forall|i: int| 0 <= i < old.blocks[k].body.len() implies new.blocks[k].body[i]
                    == old.blocks[k].body[i] by {
                    if new.blocks[k].body[i] != old.blocks[k].body[i] {
                        assert(false);
                    }
                }
                assert(new.blocks[k].body =~= old.blocks[k].body);
            }
            assert(new.blocks =~= old.blocks);
            assert(false);
        }
    }
}

/// Taking out the empty instructions leaves the weight as it is.
proof fn lemma_kept_weight(body: Seq<Op>, n: int)
    requires
        0 <= n <= body.len(),
    ensures
        kept_ops(body, n).len() <= n,
        body_weight(kept_ops(body, n), kept_ops(body, n).len() as int) == body_weight(body, n),
    decreases n,
{
    if n > 0 {
        lemma_kept_weight(body, n - 1);
        let before = kept_ops(body, n - 1);
        if !(body[n - 1] is Nop) {
            lemma_body_weight_prefix(before.push(body[n - 1]), before, before.len() as int);
        }
    }
}

/// The weight of a prefix depends on the prefix alone.
proof fn lemma_body_weight_prefix(a: Seq<Op>, b: Seq<Op>, n: int)
    requires
        0 <= n <= a.len(),
        n <= b.len(),
        forall|i: int| 0 <= i < n ==> a[i] == b[i],
    ensures
        body_weight(a, n) == body_weight(b, n),
    decreases n,
{
    if n > 0 {
        lemma_body_weight_prefix(a, b, n - 1);
    }
}

proof fn lemma_nops_weight(m: ModuleView, n: int)
    requires
        0 <= n <= m.blocks.len(),
    ensures
        blocks_weight(m.after_nops().blocks, n) == blocks_weight(m.blocks, n),
    decreases n,
{
    if n > 0 {
        lemma_nops_weight(m, n - 1);
        lemma_kept_weight(m.blocks[n - 1].body, m.blocks[n - 1].body.len() as int);
    }
}

/// A sweep over an orderly module never adds weight, and takes some away
/// where it reports a change: a replacement of copies that changes the
/// module leaves a copy that nothing reads, which is then removed.
pub proof fn lemma_sweep_weight(m: ModuleView)
    requires
        m.orderly(),
    ensures
        m.sweep().0.weight() <= m.weight(),
        m.sweep().1 ==> m.sweep().0.weight() < m.weight(),
{
    let m1 = m.after_cse();
    let m2 = m1.after_identity();
    let m3 = m2.after_negation();
    let m4 = m3.after_folding();
    let m5 = m4.after_propagation();
    let m6 = m5.after_dead();
    let m7 = m6.after_nops();
    assert(lighter(m, m1));
    lemma_weight_falls(m, m1);
    assert(lighter(m1, m2));
    lemma_weight_falls(m1, m2);
    assert(lighter(m2, m3));
    lemma_weight_falls(m2, m3);
    assert(lighter(m3, m4));
    lemma_weight_falls(m3, m4);
    let map = m4.leaf_assigns();
    assert forall|k: int, i: int|
        0 <= k < m4.blocks.len() && 0 <= i < m4.blocks[k].body.len() implies op_weight(
        #[trigger] m5.blocks[k].body[i],
    ) == op_weight(m4.blocks[k].body[i]) by {
        assert(m5.blocks[k].body[i] == m4.blocks[k].body[i].replaced(map));
    }
    lemma_blocks_weight_same(m4, m5, m4.blocks.len() as int);
    if m5 != m4 {
        super::order::lemma_cse_orderly(m);
        super::order::lemma_identity_orderly(m1);
        super::order::lemma_negation_orderly(m2);
        super::order::lemma_folding_orderly(m3);
        super::order::lemma_propagation_frees(m4);
    }
    assert(lighter(m5, m6));
    lemma_weight_falls(m5, m6);
    lemma_nops_weight(m6, m6.blocks.len() as int);
}

proof fn lemma_blocks_weight_same(old: ModuleView, new: ModuleView, n: int)
    requires
        same_frame(old, new),
        0 <= n <= old.blocks.len(),
        forall|k: int, i: int|
            0 <= k < old.blocks.len() && 0 <= i < old.blocks[k].body.len() ==> op_weight(
                #[trigger] new.blocks[k].body[i],
            ) == op_weight(old.blocks[k].body[i]),
    ensures
        blocks_weight(new.blocks, n) == blocks_weight(old.blocks, n),
    decreases n,
{
    if n > 0 {
        lemma_blocks_weight_same(old, new, n - 1);
        let a = old.blocks[n - 1].body;
        let b = new.blocks[n - 1].body;
        assert(old.blocks[n - 1].body.len() == new.blocks[n - 1].body.len());
        lemma_body_weight_same(a, b, a.len() as int, old, new, n - 1);
    }
}

proof fn lemma_body_weight_same(
    a: Seq<Op>,
    b: Seq<Op>,
    n: int,
    old: ModuleView,
    new: ModuleView,
    k: int,
)
    requires
        0 <= k < old.blocks.len(),
        new.blocks.len() == old.blocks.len(),
        a == old.blocks[k].body,
        b == new.blocks[k].body,
        a.len() == b.len(),
        0 <= n <= a.len(),
        forall|k: int, i: int|
            0 <= k < old.blocks.len() && 0 <= i < old.blocks[k].body.len() ==> op_weight(
                #[trigger] new.blocks[k].body[i],
            ) == op_weight(old.blocks[k].body[i]),
    ensures
        body_weight(b, n) == body_weight(a, n),
    decreases n,
{
    if n > 0 {
        lemma_body_weight_same(a, b, n - 1, old, new, k);
        assert(op_weight(new.blocks[k].body[n - 1]) == op_weight(old.blocks[k].body[n - 1]));
    }
}

/// No instruction weighs more than three.
pub proof fn lemma_weight_bound(m: ModuleView)
    ensures
        m.weight() <= 3 * m.size(),
{
    lemma_blocks_weight_bound(m.blocks, m.blocks.len() as int);
}

proof fn lemma_blocks_weight_bound(blocks: Seq<BlockView>, n: int)
    requires
        0 <= n <= blocks.len(),
    ensures
        blocks_weight(blocks, n) <= 3 * blocks_size(blocks, n),
    decreases n,
{
    if n > 0 {
        lemma_blocks_weight_bound(blocks, n - 1);
        lemma_body_weight_bound(blocks[n - 1].body, blocks[n - 1].body.len() as int);
    }
}

proof fn lemma_body_weight_bound(body: Seq<Op>, n: int)
    requires
        0 <= n <= body.len(),
    ensures
        body_weight(body, n) <= 3 * n,
    decreases n,
{
    if n > 0 {
        lemma_body_weight_bound(body, n - 1);
    }
}

/// Sweeps the module until a sweep reports no change. On an orderly
/// module, as the lowering gives it, that takes at most one sweep more
/// than three times the number of instructions. One more sweep would
/// change nothing, no instruction is left empty, and every run that does
/// not fail is kept: it halts, waits or goes on as before, with the same
/// tape and the same output.
pub fn optimize_module(module: &mut Module)
    requires
        old(module)@.orderly(),
    ensures
        exists|n: nat|
            n <= 3 * old(module)@.size() + 1 && #[trigger] old(module)@.settled(n) == Some(
                final(module)@,
            ),
        final(module)@.sweep() == (final(module)@, false),
        super::settle::full(final(module)@),
        super::copies::keeps_runs(old(module)@, final(module)@),
        final(module)@.valid(),
        final(module)@.orderly(),
{
    let ghost start = module@;
    let ghost mut done: nat = 0;
    let mut changed = true;
    while changed
        invariant
            start == old(module)@,
            module@.orderly(),
            changed ==> done + module@.weight() <= start.weight(),
            changed ==> forall|n: nat| #[trigger] module@.settled(n) == start.settled(n + done),
            !changed ==> done <= start.weight() + 1,
            !changed ==> start.settled(done) == Some(module@),
        decreases module@.weight() + (if changed { 1nat } else { 0nat }),
    {
        let ghost before = module@;
        let c1 = local_cse(module);
        let c2 = remove_identity_muls(module);
        let c3 = remove_negating_muls(module);
        let c4 = do_constant_operations(module);
        let c5 = propagate_leaf_assigns(module);
        let c6 = remove_dead_assignments(module);
        remove_nops(module);
        changed = c1 || c2 || c3 || c4 || c5 || c6;
        proof {
            lemma_sweep_weight(before);
            super::order::lemma_sweep_orderly(before);
            assert(before.sweep() == (module@, changed));
            if changed {
                assert forall|n: nat| #[trigger] module@.settled(n) == start.settled(
                    n + done + 1,
                ) by {
                    assert(before.settled(n + 1) == start.settled(n + 1 + done));
                }
            } else {
                assert(before.settled(1) == start.settled(1 + done));
                assert(module@.settled(0) is None);
            }
            done = done + 1;
        }
    }
    proof {
        lemma_weight_bound(start);
        super::settle::lemma_settled_fixed(start, done);
        super::settle::lemma_settled_full(start, done);
        super::copies::lemma_settled_keeps_runs(start, done);
    }
}

} // verus!
