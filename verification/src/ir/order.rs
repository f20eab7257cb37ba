use vstd::prelude::*;
use super::block::BlockView;
use super::instruction::{BinaryOp, Expr, LeafExpr, Op, Replacements, Target};
use super::laws::{
    lemma_cse_valid, lemma_dead_valid, lemma_first_assign_found, lemma_folding_valid,
    lemma_identity_valid, lemma_negation_valid, lemma_nops_valid, lemma_origin, lemma_origin_grows,
    lemma_propagation_valid, origin,
};
use super::optimize::{
    blocks_leafs, blocks_reads, body_leafs, cse_op, first_assign, folded, kept_ops, same_frame,
    without_dead, without_identity, without_negation,
};
use super::register::RegisterID;
use super::valid::{
    leaf_below, leaf_local, lemma_operands_below, lemma_typed_reads_known, op_local, reads_below,
    written_before, Site,
};
use super::ModuleView;

verus! {

// ---------------------------------------------------------------------------
// Rewrites in place keep the order
// ---------------------------------------------------------------------------

/// What a rewrite in place has to keep for the module to stay orderly: each
/// instruction writes what the one in its place wrote, or nothing; it ends
/// its block exactly if that one did; and it reads only registers below
/// every register that is written at its place or behind it in its block.
pub open spec fn keeps_order(old: ModuleView, new: ModuleView) -> bool {
    &&& same_frame(old, new)
    &&& forall|k: int, i: int|
        0 <= k < old.blocks.len() && 0 <= i < old.blocks[k].body.len() ==> {
            &&& ((#[trigger] new.blocks[k].body[i]).target() is None
                || new.blocks[k].body[i].target() == old.blocks[k].body[i].target())
            &&& new.blocks[k].body[i].is_terminator() == old.blocks[k].body[i].is_terminator()
        }
    &&& forall|k: int, i: int, j: int|
        #![trigger new.blocks[k].body[i], old.blocks[k].body[j]]
        0 <= k < old.blocks.len() && 0 <= i <= j < old.blocks[k].body.len() ==> (
        old.blocks[k].body[j].target() matches Some(t) ==> reads_below(
            new.blocks[k].body[i],
            t.0 as int,
        ))
}

/// A rewrite in place that keeps the order, the rules on types, and the
/// copies and products local, keeps the module orderly.
pub proof fn lemma_replaced_orderly(old: ModuleView, new: ModuleView)
    requires
        old.orderly(),
        new.valid(),
        keeps_order(old, new),
        new.local(),
    ensures
        new.orderly(),
{
    assert forall|b: int, i: int|
        0 <= b < new.blocks.len() && 0 <= i < new.blocks[b].body.len() && (
        #[trigger] new.blocks[b].body[i]).is_terminator() implies i == new.blocks[b].body.len()
        - 1 by {
        assert(new.blocks[b].body.len() == old.blocks[b].body.len());
        assert(old.blocks[b].body[i].is_terminator());
    }
    assert forall|b: int, i: int, j: int|
        #![trigger new.blocks[b].body[i], new.blocks[b].body[j]]
        0 <= b < new.blocks.len() && 0 <= i <= j < new.blocks[b].body.len() implies (
    new.blocks[b].body[j].target() matches Some(t) ==> reads_below(
        new.blocks[b].body[i],
        t.0 as int,
    ) && (i < j ==> (new.blocks[b].body[i].target() matches Some(u) ==> u.0 < t.0))) by {
        assert(new.blocks[b].body.len() == old.blocks[b].body.len());
        let x = new.blocks[b].body[i];
        let y = new.blocks[b].body[j];
        let p = old.blocks[b].body[i];
        let q = old.blocks[b].body[j];
        if y.target() is Some {
            assert(y.target() == q.target());
            assert(reads_below(new.blocks[b].body[i], q.target().unwrap().0 as int));
            if i < j && x.target() is Some {
                assert(x.target() == p.target());
                let e = old.blocks[b].body[i];
                let f = old.blocks[b].body[j];
            }
        }
    }
}

/// Where every instruction writes what the one in its place wrote, what a
/// body had written before, the new body has written before.
proof fn lemma_written_kept(old: Seq<Op>, new: Seq<Op>, before: int, r: RegisterID)
    requires
        old.len() == new.len(),
        written_before(old, before, r),
        forall|j: int| 0 <= j < old.len() ==> (#[trigger] new[j]).target() == old[j].target(),
    ensures
        written_before(new, before, r),
{
    let j = choose|j: int| 0 <= j < before && j < old.len() && (#[trigger] old[j]).target() == Some(r);
    assert(new[j].target() == Some(r));
}

/// What reads no more than the instruction in its place reads registers
/// below what that one reads below.
proof fn lemma_fewer_reads(op: Op, by: Op, bound: int)
    requires
        reads_below(op, bound),
        forall|r: RegisterID| by.reads(r) ==> op.reads(r),
    ensures
        reads_below(by, bound),
{
}

/// Removing products with one keeps a module orderly.
pub proof fn lemma_identity_orderly(m: ModuleView)
    requires
        m.orderly(),
    ensures
        m.after_identity().orderly(),
{
    let n = m.after_identity();
    lemma_identity_valid(m);
    assert forall|k: int, i: int|
        0 <= k < m.blocks.len() && 0 <= i < m.blocks[k].body.len() implies (
    #[trigger] n.blocks[k].body[i]).target() == m.blocks[k].body[i].target()
        && n.blocks[k].body[i].is_terminator() == m.blocks[k].body[i].is_terminator() && (
    forall|r: RegisterID| n.blocks[k].body[i].reads(r) ==> m.blocks[k].body[i].reads(r)) by {
        assert(n.blocks[k].body[i] == without_identity(m.blocks[k].body[i]));
    }
    assert forall|k: int, i: int, j: int|
        #![trigger n.blocks[k].body[i], m.blocks[k].body[j]]
        0 <= k < m.blocks.len() && 0 <= i <= j < m.blocks[k].body.len() implies (
    m.blocks[k].body[j].target() matches Some(t) ==> reads_below(n.blocks[k].body[i], t.0 as int)) by {
        let x = m.blocks[k].body[i];
        let y = m.blocks[k].body[j];
        if y.target() is Some {
            assert(reads_below(m.blocks[k].body[i], y.target().unwrap().0 as int));
            assert(n.blocks[k].body[i].target() == m.blocks[k].body[i].target());
            lemma_fewer_reads(x, n.blocks[k].body[i], y.target().unwrap().0 as int);
        }
    }
    assert forall|b: int, i: int|
        0 <= b < n.blocks.len() && 0 <= i < n.blocks[b].body.len() implies op_local(
        n.blocks[b].body,
        i,
        #[trigger] n.blocks[b].body[i],
    ) by {
        let old = m.blocks[b].body;
        let new = n.blocks[b].body;
        assert(new.len() == old.len());
        assert(op_local(old, i, m.blocks[b].body[i]));
        assert(new[i] == without_identity(old[i]));
        assert forall|j: int| 0 <= j < old.len() implies (#[trigger] new[j]).target()
            == old[j].target() by {
            assert(n.blocks[b].body[j].target() == m.blocks[b].body[j].target());
        }
        assert forall|r: RegisterID| written_before(old, i, r) implies written_before(
            new,
            i,
            r,
        ) by {
            lemma_written_kept(old, new, i, r);
        }
    }
    lemma_replaced_orderly(m, n);
}

/// Removing products with minus one keeps a module orderly.
pub proof fn lemma_negation_orderly(m: ModuleView)
    requires
        m.orderly(),
    ensures
        m.after_negation().orderly(),
{
    let n = m.after_negation();
    lemma_negation_valid(m);
    assert forall|k: int, i: int|
        0 <= k < m.blocks.len() && 0 <= i < m.blocks[k].body.len() implies (
    #[trigger] n.blocks[k].body[i]).target() == m.blocks[k].body[i].target()
        && n.blocks[k].body[i].is_terminator() == m.blocks[k].body[i].is_terminator() && (
    forall|r: RegisterID| n.blocks[k].body[i].reads(r) ==> m.blocks[k].body[i].reads(r)) by {
        assert(n.blocks[k].body[i] == without_negation(m.blocks[k].body[i]));
    }
    assert forall|k: int, i: int, j: int|
        #![trigger n.blocks[k].body[i], m.blocks[k].body[j]]
        0 <= k < m.blocks.len() && 0 <= i <= j < m.blocks[k].body.len() implies (
    m.blocks[k].body[j].target() matches Some(t) ==> reads_below(n.blocks[k].body[i], t.0 as int)) by {
        let x = m.blocks[k].body[i];
        let y = m.blocks[k].body[j];
        if y.target() is Some {
            assert(reads_below(m.blocks[k].body[i], y.target().unwrap().0 as int));
            assert(n.blocks[k].body[i].target() == m.blocks[k].body[i].target());
            lemma_fewer_reads(x, n.blocks[k].body[i], y.target().unwrap().0 as int);
        }
    }
    assert forall|b: int, i: int|
        0 <= b < n.blocks.len() && 0 <= i < n.blocks[b].body.len() implies op_local(
        n.blocks[b].body,
        i,
        #[trigger] n.blocks[b].body[i],
    ) by {
        let old = m.blocks[b].body;
        let new = n.blocks[b].body;
        assert(new.len() == old.len());
        assert(op_local(old, i, m.blocks[b].body[i]));
        assert(new[i] == without_negation(old[i]));
        assert forall|j: int| 0 <= j < old.len() implies (#[trigger] new[j]).target()
            == old[j].target() by {
            assert(n.blocks[b].body[j].target() == m.blocks[b].body[j].target());
        }
        assert forall|r: RegisterID| written_before(old, i, r) implies written_before(
            new,
            i,
            r,
        ) by {
            lemma_written_kept(old, new, i, r);
        }
    }
    lemma_replaced_orderly(m, n);
}

/// Computing the operations on constants keeps a module orderly.
pub proof fn lemma_folding_orderly(m: ModuleView)
    requires
        m.orderly(),
    ensures
        m.after_folding().orderly(),
{
    let n = m.after_folding();
    lemma_folding_valid(m);
    assert forall|k: int, i: int|
        0 <= k < m.blocks.len() && 0 <= i < m.blocks[k].body.len() implies (
    #[trigger] n.blocks[k].body[i]).target() == m.blocks[k].body[i].target()
        && n.blocks[k].body[i].is_terminator() == m.blocks[k].body[i].is_terminator() && (
    forall|r: RegisterID| n.blocks[k].body[i].reads(r) ==> m.blocks[k].body[i].reads(r)) by {
        assert(n.blocks[k].body[i] == folded(m.blocks[k].body[i]));
    }
    assert forall|k: int, i: int, j: int|
        #![trigger n.blocks[k].body[i], m.blocks[k].body[j]]
        0 <= k < m.blocks.len() && 0 <= i <= j < m.blocks[k].body.len() implies (
    m.blocks[k].body[j].target() matches Some(t) ==> reads_below(n.blocks[k].body[i], t.0 as int)) by {
        let x = m.blocks[k].body[i];
        let y = m.blocks[k].body[j];
        if y.target() is Some {
            assert(reads_below(m.blocks[k].body[i], y.target().unwrap().0 as int));
            assert(n.blocks[k].body[i].target() == m.blocks[k].body[i].target());
            lemma_fewer_reads(x, n.blocks[k].body[i], y.target().unwrap().0 as int);
        }
    }
    assert forall|b: int, i: int|
        0 <= b < n.blocks.len() && 0 <= i < n.blocks[b].body.len() implies op_local(
        n.blocks[b].body,
        i,
        #[trigger] n.blocks[b].body[i],
    ) by {
        let old = m.blocks[b].body;
        let new = n.blocks[b].body;
        assert(new.len() == old.len());
        assert(op_local(old, i, m.blocks[b].body[i]));
        assert(new[i] == folded(old[i]));
        assert forall|j: int| 0 <= j < old.len() implies (#[trigger] new[j]).target()
            == old[j].target() by {
            assert(n.blocks[b].body[j].target() == m.blocks[b].body[j].target());
        }
        assert forall|r: RegisterID| written_before(old, i, r) implies written_before(
            new,
            i,
            r,
        ) by {
            lemma_written_kept(old, new, i, r);
        }
    }
    lemma_replaced_orderly(m, n);
}

/// Removing common subexpressions keeps a module orderly.
pub proof fn lemma_cse_orderly(m: ModuleView)
    requires
        m.orderly(),
    ensures
        m.after_cse().orderly(),
{
    let n = m.after_cse();
    lemma_cse_valid(m);
    assert forall|k: int, i: int|
        0 <= k < m.blocks.len() && 0 <= i < m.blocks[k].body.len() implies (
    #[trigger] n.blocks[k].body[i]).target() == m.blocks[k].body[i].target()
        && n.blocks[k].body[i].is_terminator() == m.blocks[k].body[i].is_terminator() by {
        assert(n.blocks[k].body[i] == cse_op(m.blocks[k].body, i));
    }
    assert forall|k: int, i: int, j: int|
        #![trigger n.blocks[k].body[i], m.blocks[k].body[j]]
        0 <= k < m.blocks.len() && 0 <= i <= j < m.blocks[k].body.len() implies (
    m.blocks[k].body[j].target() matches Some(t) ==> reads_below(n.blocks[k].body[i], t.0 as int)) by {
        let body = m.blocks[k].body;
        let x = m.blocks[k].body[i];
        let y = m.blocks[k].body[j];
        if y.target() is Some {
            let t = y.target().unwrap();
            assert(reads_below(m.blocks[k].body[i], t.0 as int));
            assert(n.blocks[k].body[i] == cse_op(body, i));
            if n.blocks[k].body[i] != x {
                match x {
                    Op::Assign(_, e) => {
                        lemma_first_assign_found(body, e, i);
                        let r = first_assign(body, e, i).unwrap();
                        let first = choose|first: int|
                            0 <= first < i && #[trigger] body[first] == Op::Assign(r, e);
                        let w = m.blocks[k].body[first];
                        let z = m.blocks[k].body[j];
                        assert(w.target() == Some(r));
                        assert(r.0 < t.0);
                    },
                    _ => {},
                }
            }
        }
    }
    assert forall|b: int, i: int|
        0 <= b < n.blocks.len() && 0 <= i < n.blocks[b].body.len() implies op_local(
        n.blocks[b].body,
        i,
        #[trigger] n.blocks[b].body[i],
    ) by {
        let old = m.blocks[b].body;
        let new = n.blocks[b].body;
        assert(new.len() == old.len());
        assert(op_local(old, i, m.blocks[b].body[i]));
        assert(new[i] == cse_op(old, i));
        assert forall|j: int| 0 <= j < old.len() implies (#[trigger] new[j]).target()
            == old[j].target() by {
            assert(n.blocks[b].body[j].target() == m.blocks[b].body[j].target());
        }
        assert forall|r: RegisterID| written_before(old, i, r) implies written_before(
            new,
            i,
            r,
        ) by {
            lemma_written_kept(old, new, i, r);
        }
        if new[i] != old[i] {
            match old[i] {
                Op::Assign(_, e) => {
                    lemma_first_assign_found(old, e, i);
                    let r = first_assign(old, e, i).unwrap();
                    let first = choose|first: int|
                        0 <= first < i && #[trigger] old[first] == Op::Assign(r, e);
                    assert(old[first].target() == Some(r));
                    assert(written_before(old, i, r));
                },
                _ => {},
            }
        }
    }
    lemma_replaced_orderly(m, n);
}

/// Emptying the assignments that nothing reads keeps a module orderly.
pub proof fn lemma_dead_orderly(m: ModuleView)
    requires
        m.orderly(),
    ensures
        m.after_dead().orderly(),
{
    let n = m.after_dead();
    let used = m.read_set();
    lemma_dead_valid(m);
    assert forall|k: int, i: int|
        0 <= k < m.blocks.len() && 0 <= i < m.blocks[k].body.len() implies ((
    #[trigger] n.blocks[k].body[i]).target() is None || n.blocks[k].body[i].target()
        == m.blocks[k].body[i].target()) && n.blocks[k].body[i].is_terminator()
        == m.blocks[k].body[i].is_terminator() && (forall|r: RegisterID|
        n.blocks[k].body[i].reads(r) ==> m.blocks[k].body[i].reads(r)) by {
        assert(n.blocks[k].body[i] == without_dead(m.blocks[k].body[i], used));
    }
    assert forall|k: int, i: int, j: int|
        #![trigger n.blocks[k].body[i], m.blocks[k].body[j]]
        0 <= k < m.blocks.len() && 0 <= i <= j < m.blocks[k].body.len() implies (
    m.blocks[k].body[j].target() matches Some(t) ==> reads_below(n.blocks[k].body[i], t.0 as int)) by {
        let x = m.blocks[k].body[i];
        let y = m.blocks[k].body[j];
        if y.target() is Some {
            assert(reads_below(m.blocks[k].body[i], y.target().unwrap().0 as int));
            assert(n.blocks[k].body[i].is_terminator() == m.blocks[k].body[i].is_terminator());
            lemma_fewer_reads(x, n.blocks[k].body[i], y.target().unwrap().0 as int);
        }
    }
    assert forall|b: int, i: int|
        0 <= b < n.blocks.len() && 0 <= i < n.blocks[b].body.len() implies op_local(
        n.blocks[b].body,
        i,
        #[trigger] n.blocks[b].body[i],
    ) by {
        let old = m.blocks[b].body;
        let new = n.blocks[b].body;
        assert(new.len() == old.len());
        assert(op_local(old, i, m.blocks[b].body[i]));
        assert(new[i] == without_dead(old[i], used));
        // What an instruction that stays reads is used, and so is written as before.
        assert forall|r: RegisterID|
            new[i].reads(r) && written_before(old, i, r) implies written_before(new, i, r) by {
            let j = choose|j: int|
                0 <= j < i && j < old.len() && (#[trigger] old[j]).target() == Some(r);
            assert(m.blocks[b].body[i].reads(RegisterID(r.0)));
            assert(blocks_reads(m.blocks, m.blocks.len() as int).contains(r.0));
            assert(n.blocks[b].body[j] == without_dead(old[j], used));
            assert(new[j].target() == Some(r));
        }
        match new[i] {
            Op::Assign(_, Expr::Leaf(LeafExpr::Register(q))) => {
                assert(new[i].reads(q));
            },
            Op::Assign(_, Expr::Binary(x, BinaryOp::Mul, y)) => {
                match x {
                    LeafExpr::Register(q) => {
                        assert(new[i].reads(q));
                    },
                    _ => {},
                }
                match y {
                    LeafExpr::Register(q) => {
                        assert(new[i].reads(q));
                    },
                    _ => {},
                }
            },
            _ => {},
        }
    }
    lemma_replaced_orderly(m, n);
}

// ---------------------------------------------------------------------------
// Propagation keeps the order
// ---------------------------------------------------------------------------

/// Every replacement is the operand of an assignment of the module to the
/// register that it stands for.
pub open spec fn replacements_found(m: ModuleView, map: Replacements) -> bool {
    forall|r: usize| #[trigger]
        map.contains_key(r) ==> exists|b: int, i: int|
            0 <= b < m.blocks.len() && 0 <= i < m.blocks[b].body.len() && #[trigger] m.blocks[b].body[i]
                == Op::Assign(RegisterID(r), Expr::Leaf(map[r]))
}

proof fn lemma_body_leafs_found(m: ModuleView, b: int, n: int, acc: Replacements)
    requires
        0 <= b < m.blocks.len(),
        0 <= n <= m.blocks[b].body.len(),
        replacements_found(m, acc),
    ensures
        replacements_found(m, body_leafs(m.blocks[b].body, n, acc)),
    decreases n,
{
    if n > 0 {
        lemma_body_leafs_found(m, b, n - 1, acc);
        let before = body_leafs(m.blocks[b].body, n - 1, acc);
        let now = body_leafs(m.blocks[b].body, n, acc);
        assert forall|r: usize| #[trigger] now.contains_key(r) implies exists|k: int, i: int|
            0 <= k < m.blocks.len() && 0 <= i < m.blocks[k].body.len() && #[trigger] m.blocks[k].body[i]
                == Op::Assign(RegisterID(r), Expr::Leaf(now[r])) by {
            if before.contains_key(r) && now[r] == before[r] {
                let (k, i) = choose|k: int, i: int|
                    0 <= k < m.blocks.len() && 0 <= i < m.blocks[k].body.len() && #[trigger] m.blocks[k].body[i]
                        == Op::Assign(RegisterID(r), Expr::Leaf(before[r]));
                assert(m.blocks[k].body[i] == Op::Assign(RegisterID(r), Expr::Leaf(now[r])));
            } else {
                assert(m.blocks[b].body[n - 1] == Op::Assign(
                    RegisterID(r),
                    Expr::Leaf(now[r]),
                ));
            }
        }
    }
}

pub proof fn lemma_blocks_leafs_found(m: ModuleView, n: int)
    requires
        0 <= n <= m.blocks.len(),
    ensures
        replacements_found(m, blocks_leafs(m.blocks, n)),
    decreases n,
{
    if n > 0 {
        lemma_blocks_leafs_found(m, n - 1);
        lemma_body_leafs_found(
            m,
            n - 1,
            m.blocks[n - 1].body.len() as int,
            blocks_leafs(m.blocks, n - 1),
        );
    }
}

/// What is put in the place of an operand lies below what the operand lay
/// below: a replacement is read by the assignment to the register that it
/// stands for, and so lies below that register.
proof fn lemma_replaced_leaf_below(m: ModuleView, map: Replacements, l: LeafExpr, bound: int)
    requires
        m.straight(),
        replacements_found(m, map),
        leaf_below(l, bound),
    ensures
        leaf_below(l.replaced(map), bound),
{
    match l {
        LeafExpr::Register(r) => {
            if map.contains_key(r.0) {
                let (b, i) = choose|b: int, i: int|
                    0 <= b < m.blocks.len() && 0 <= i < m.blocks[b].body.len() && #[trigger] m.blocks[b].body[i]
                        == Op::Assign(RegisterID(r.0), Expr::Leaf(map[r.0]));
                let x = m.blocks[b].body[i];
                let y = m.blocks[b].body[i];
                assert(reads_below(m.blocks[b].body[i], r.0 as int));
                match map[r.0] {
                    LeafExpr::Register(q) => {
                        assert(x.reads(q));
                    },
                    _ => {},
                }
            }
        },
        _ => {},
    }
}

proof fn lemma_replaced_below(m: ModuleView, map: Replacements, op: Op, bound: int)
    requires
        m.straight(),
        replacements_found(m, map),
        reads_below(op, bound),
    ensures
        reads_below(op.replaced(map), bound),
{
    lemma_operands_below(op, bound);
    lemma_operands_below(op.replaced(map), bound);
    match op {
        Op::LoadCell(_, a) => lemma_replaced_leaf_below(m, map, a, bound),
        Op::StoreCell(a, b) => {
            lemma_replaced_leaf_below(m, map, a, bound);
            lemma_replaced_leaf_below(m, map, b, bound);
        },
        Op::BoundsCheck(a, b) => {
            lemma_replaced_leaf_below(m, map, a, bound);
            lemma_replaced_leaf_below(m, map, b, bound);
        },
        Op::Assign(_, Expr::Leaf(a)) => lemma_replaced_leaf_below(m, map, a, bound),
        Op::Assign(_, Expr::Binary(a, _, b)) => {
            lemma_replaced_leaf_below(m, map, a, bound);
            lemma_replaced_leaf_below(m, map, b, bound);
        },
        Op::Assign(_, Expr::Unary(a, _)) => lemma_replaced_leaf_below(m, map, a, bound),
        Op::Assign(_, Expr::Test(a, _, b)) => {
            lemma_replaced_leaf_below(m, map, a, bound);
            lemma_replaced_leaf_below(m, map, b, bound);
        },
        Op::Output(a) => lemma_replaced_leaf_below(m, map, a, bound),
        Op::Input(_, a) => lemma_replaced_leaf_below(m, map, a, bound),
        Op::Jump(t) => {
            assert forall|k: int| 0 <= k < t.replaced(map).args.len() implies leaf_below(
                #[trigger] t.replaced(map).args[k],
                bound,
            ) by {
                assert(leaf_below(t.args[k], bound));
                lemma_replaced_leaf_below(m, map, t.args[k], bound);
            }
        },
        Op::Branch(c, t, e) => {
            lemma_replaced_leaf_below(m, map, c, bound);
            assert forall|k: int| 0 <= k < t.replaced(map).args.len() implies leaf_below(
                #[trigger] t.replaced(map).args[k],
                bound,
            ) by {
                assert(leaf_below(t.args[k], bound));
                lemma_replaced_leaf_below(m, map, t.args[k], bound);
            }
            assert forall|k: int| 0 <= k < e.replaced(map).args.len() implies leaf_below(
                #[trigger] e.replaced(map).args[k],
                bound,
            ) by {
                assert(leaf_below(e.args[k], bound));
                lemma_replaced_leaf_below(m, map, e.args[k], bound);
            }
        },
        Op::Nop => {},
    }
}

/// What is put in the place of an operand that the block has written before
/// is a constant, or a register that the block has written before.
proof fn lemma_replaced_leaf_local(m: ModuleView, map: Replacements, b: int, at: int, l: LeafExpr)
    requires
        m.orderly(),
        replacements_found(m, map),
        0 <= b < m.blocks.len(),
        0 <= at <= m.blocks[b].body.len(),
        leaf_local(m.blocks[b].body, at, l),
    ensures
        leaf_local(m.blocks[b].body, at, l.replaced(map)),
{
    let body = m.blocks[b].body;
    match l {
        LeafExpr::Register(r) => {
            if map.contains_key(r.0) {
                let j = choose|j: int|
                    0 <= j < at && j < body.len() && (#[trigger] body[j]).target() == Some(r);
                let (k, i) = choose|k: int, i: int|
                    0 <= k < m.blocks.len() && 0 <= i < m.blocks[k].body.len() && #[trigger] m.blocks[k].body[i]
                        == Op::Assign(RegisterID(r.0), Expr::Leaf(map[r.0]));
                // The register is written at one place.
                let here = Site::Instruction { block: b, index: j };
                let there = Site::Instruction { block: k, index: i };
                assert(m.defines(here, r));
                assert(m.defines(there, r));
                assert(here == there);
                assert(op_local(m.blocks[b].body, j, m.blocks[b].body[j]));
                match map[r.0] {
                    LeafExpr::Register(q) => {
                        let w = choose|w: int|
                            0 <= w < j && w < body.len() && (#[trigger] body[w]).target() == Some(
                                q,
                            );
                        assert(body[w].target() == Some(q));
                    },
                    _ => {},
                }
            }
        },
        _ => {},
    }
}

/// Propagating the assignments of single operands keeps a module orderly.
pub proof fn lemma_propagation_orderly(m: ModuleView)
    requires
        m.orderly(),
    ensures
        m.after_propagation().orderly(),
{
    let n = m.after_propagation();
    let map = m.leaf_assigns();
    lemma_propagation_valid(m);
    lemma_blocks_leafs_found(m, m.blocks.len() as int);
    assert forall|k: int, i: int|
        0 <= k < m.blocks.len() && 0 <= i < m.blocks[k].body.len() implies (
    #[trigger] n.blocks[k].body[i]).target() == m.blocks[k].body[i].target()
        && n.blocks[k].body[i].is_terminator() == m.blocks[k].body[i].is_terminator() by {
        assert(n.blocks[k].body[i] == m.blocks[k].body[i].replaced(map));
    }
    assert forall|k: int, i: int, j: int|
        #![trigger n.blocks[k].body[i], m.blocks[k].body[j]]
        0 <= k < m.blocks.len() && 0 <= i <= j < m.blocks[k].body.len() implies (
    m.blocks[k].body[j].target() matches Some(t) ==> reads_below(n.blocks[k].body[i], t.0 as int)) by {
        let x = m.blocks[k].body[i];
        let y = m.blocks[k].body[j];
        if y.target() is Some {
            assert(reads_below(m.blocks[k].body[i], y.target().unwrap().0 as int));
            assert(n.blocks[k].body[i] == x.replaced(map));
            lemma_replaced_below(m, map, x, y.target().unwrap().0 as int);
        }
    }
    assert forall|b: int, i: int|
        0 <= b < n.blocks.len() && 0 <= i < n.blocks[b].body.len() implies op_local(
        n.blocks[b].body,
        i,
        #[trigger] n.blocks[b].body[i],
    ) by {
        let old = m.blocks[b].body;
        let new = n.blocks[b].body;
        assert(new.len() == old.len());
        assert(op_local(old, i, m.blocks[b].body[i]));
        assert(new[i] == old[i].replaced(map));
        assert forall|j: int| 0 <= j < old.len() implies (#[trigger] new[j]).target()
            == old[j].target() by {
            assert(n.blocks[b].body[j].target() == m.blocks[b].body[j].target());
        }
        assert forall|r: RegisterID| written_before(old, i, r) implies written_before(
            new,
            i,
            r,
        ) by {
            lemma_written_kept(old, new, i, r);
        }
        match old[i] {
            Op::Assign(_, Expr::Leaf(l)) => {
                lemma_replaced_leaf_local(m, map, b, i, l);
            },
            Op::Assign(_, Expr::Binary(x, BinaryOp::Mul, y)) => {
                lemma_replaced_leaf_local(m, map, b, i, x);
                lemma_replaced_leaf_local(m, map, b, i, y);
            },
            _ => {},
        }
    }
    lemma_replaced_orderly(m, n);
}

// ---------------------------------------------------------------------------
// Taking out the empty instructions keeps the order
// ---------------------------------------------------------------------------

/// The place among what is kept of the instruction at `j`, which is not empty.
proof fn lemma_kept_place(body: Seq<Op>, n: int, j: int) -> (k: int)
    requires
        0 <= j < n <= body.len(),
        !(body[j] is Nop),
    ensures
        0 <= k < kept_ops(body, n).len(),
        origin(body, n, k) == j,
        kept_ops(body, n)[k] == body[j],
    decreases n,
{
    if j == n - 1 {
        kept_ops(body, n - 1).len() as int
    } else {
        let k = lemma_kept_place(body, n - 1, j);
        k
    }
}

/// Taking out the empty instructions keeps a module orderly.
pub proof fn lemma_nops_orderly(m: ModuleView)
    requires
        m.orderly(),
    ensures
        m.after_nops().orderly(),
{
    let n = m.after_nops();
    lemma_nops_valid(m);
    assert forall|b: int, i: int|
        0 <= b < n.blocks.len() && 0 <= i < n.blocks[b].body.len() && (
        #[trigger] n.blocks[b].body[i]).is_terminator() implies i == n.blocks[b].body.len()
        - 1 by {
        let body = m.blocks[b].body;
        lemma_origin(body, body.len() as int, i);
        let o = origin(body, body.len() as int, i);
        assert(m.blocks[b].body[o].is_terminator());
        if i < n.blocks[b].body.len() - 1 {
            lemma_origin(body, body.len() as int, i + 1);
            lemma_origin_grows(body, body.len() as int, i, i + 1);
        }
    }
    assert forall|b: int, i: int, j: int|
        #![trigger n.blocks[b].body[i], n.blocks[b].body[j]]
        0 <= b < n.blocks.len() && 0 <= i <= j < n.blocks[b].body.len() implies (
    n.blocks[b].body[j].target() matches Some(t) ==> reads_below(n.blocks[b].body[i], t.0 as int)
        && (i < j ==> (n.blocks[b].body[i].target() matches Some(u) ==> u.0 < t.0))) by {
        let body = m.blocks[b].body;
        lemma_origin(body, body.len() as int, i);
        lemma_origin(body, body.len() as int, j);
        let oi = origin(body, body.len() as int, i);
        let oj = origin(body, body.len() as int, j);
        if i < j {
            lemma_origin_grows(body, body.len() as int, i, j);
        }
        let x = m.blocks[b].body[oi];
        let y = m.blocks[b].body[oj];
    }
    assert forall|b: int, i: int|
        0 <= b < n.blocks.len() && 0 <= i < n.blocks[b].body.len() implies op_local(
        n.blocks[b].body,
        i,
        #[trigger] n.blocks[b].body[i],
    ) by {
        let body = m.blocks[b].body;
        let kept = n.blocks[b].body;
        lemma_origin(body, body.len() as int, i);
        let o = origin(body, body.len() as int, i);
        assert(op_local(body, o, m.blocks[b].body[o]));
        assert forall|r: RegisterID| written_before(body, o, r) implies written_before(
            kept,
            i,
            r,
        ) by {
            let j = choose|j: int|
                0 <= j < o && j < body.len() && (#[trigger] body[j]).target() == Some(r);
            let k = lemma_kept_place(body, body.len() as int, j);
            if k >= i {
                if k > i {
                    lemma_origin_grows(body, body.len() as int, i, k);
                }
            }
            assert(kept[k].target() == Some(r));
        }
    }
}

/// A sweep keeps a module orderly.
pub proof fn lemma_sweep_orderly(m: ModuleView)
    requires
        m.orderly(),
    ensures
        m.sweep().0.orderly(),
{
    let m1 = m.after_cse();
    let m2 = m1.after_identity();
    let m3 = m2.after_negation();
    let m4 = m3.after_folding();
    let m5 = m4.after_propagation();
    let m6 = m5.after_dead();
    lemma_cse_orderly(m);
    lemma_identity_orderly(m1);
    lemma_negation_orderly(m2);
    lemma_folding_orderly(m3);
    lemma_propagation_orderly(m4);
    lemma_dead_orderly(m5);
    lemma_nops_orderly(m6);
}

/// The sweeps up to a settled module keep a module orderly.
pub proof fn lemma_settled_orderly(m: ModuleView, n: nat)
    requires
        m.orderly(),
        m.settled(n) is Some,
    ensures
        m.settled(n).unwrap().orderly(),
    decreases n,
{
    lemma_sweep_orderly(m);
    if m.sweep().1 {
        lemma_settled_orderly(m.sweep().0, (n - 1) as nat);
    }
}

// ---------------------------------------------------------------------------
// A replacement frees a copy
// ---------------------------------------------------------------------------

/// An edge that a replacement changes passes a register that the map
/// holds.
proof fn lemma_target_replaced_reads(t: Target, map: Replacements)
    requires
        t.replaced(map) != t,
    ensures
        exists|r: RegisterID| #[trigger] t.reads(r) && map.contains_key(r.0),
{
    let n = t.replaced(map);
    if forall|k: int| 0 <= k < t.args.len() ==> #[trigger] t.args[k].replaced(map) == t.args[k] {
        assert(n.args =~= t.args);
    }
    let k = choose|k: int| 0 <= k < t.args.len() && #[trigger] t.args[k].replaced(map) != t.args[k];
    match t.args[k] {
        LeafExpr::Register(r) => {
            assert(t.args[k].reads(r));
            assert(t.reads(r) && map.contains_key(r.0));
        },
        LeafExpr::Int(_) => {},
    }
}

/// An operand that a replacement changes is a register that the map holds.
proof fn lemma_leaf_replaced_reads(l: LeafExpr, map: Replacements)
    requires
        l.replaced(map) != l,
    ensures
        exists|r: RegisterID| #[trigger] l.reads(r) && map.contains_key(r.0),
{
    match l {
        LeafExpr::Register(r) => {
            assert(l.reads(r) && map.contains_key(r.0));
        },
        LeafExpr::Int(_) => {},
    }
}

/// An instruction that a replacement changes reads a register that the map
/// holds.
pub proof fn lemma_replaced_reads(op: Op, map: Replacements)
    requires
        op.replaced(map) != op,
    ensures
        exists|r: RegisterID| #[trigger] op.reads(r) && map.contains_key(r.0),
{
    match op {
        Op::Nop => {},
        Op::LoadCell(_, e) => {
            lemma_leaf_replaced_reads(e, map);
            let r = choose|r: RegisterID| #[trigger] e.reads(r) && map.contains_key(r.0);
            assert(op.reads(r));
        },
        Op::StoreCell(d, e) => {
            let x = if d.replaced(map) != d {
                d
            } else {
                e
            };
            lemma_leaf_replaced_reads(x, map);
            let r = choose|r: RegisterID| #[trigger] x.reads(r) && map.contains_key(r.0);
            assert(op.reads(r));
        },
        Op::BoundsCheck(l, h) => {
            let x = if l.replaced(map) != l {
                l
            } else {
                h
            };
            lemma_leaf_replaced_reads(x, map);
            let r = choose|r: RegisterID| #[trigger] x.reads(r) && map.contains_key(r.0);
            assert(op.reads(r));
        },
        Op::Assign(_, e) => {
            let x = match e {
                Expr::Leaf(a) => a,
                Expr::Binary(a, _, b) => if a.replaced(map) != a {
                    a
                } else {
                    b
                },
                Expr::Unary(a, _) => a,
                Expr::Test(a, _, b) => if a.replaced(map) != a {
                    a
                } else {
                    b
                },
            };
            lemma_leaf_replaced_reads(x, map);
            let r = choose|r: RegisterID| #[trigger] x.reads(r) && map.contains_key(r.0);
            assert(e.reads(r));
            assert(op.reads(r));
        },
        Op::Output(e) => {
            lemma_leaf_replaced_reads(e, map);
            let r = choose|r: RegisterID| #[trigger] e.reads(r) && map.contains_key(r.0);
            assert(op.reads(r));
        },
        Op::Input(_, e) => {
            lemma_leaf_replaced_reads(e, map);
            let r = choose|r: RegisterID| #[trigger] e.reads(r) && map.contains_key(r.0);
            assert(op.reads(r));
        },
        Op::Jump(t) => {
            lemma_target_replaced_reads(t, map);
            let r = choose|r: RegisterID| #[trigger] t.reads(r) && map.contains_key(r.0);
            assert(op.reads(r));
        },
        Op::Branch(c, t, e) => {
            if c.replaced(map) != c {
                lemma_leaf_replaced_reads(c, map);
                let r = choose|r: RegisterID| #[trigger] c.reads(r) && map.contains_key(r.0);
                assert(op.reads(r));
            } else if t.replaced(map) != t {
                lemma_target_replaced_reads(t, map);
                let r = choose|r: RegisterID| #[trigger] t.reads(r) && map.contains_key(r.0);
                assert(op.reads(r));
            } else {
                lemma_target_replaced_reads(e, map);
                let r = choose|r: RegisterID| #[trigger] e.reads(r) && map.contains_key(r.0);
                assert(op.reads(r));
            }
        },
    }
}

/// The instruction reads a register that the map replaces by `x`.
pub open spec fn reads_copy_of(op: Op, map: Replacements, x: RegisterID) -> bool {
    exists|q: RegisterID|
        #[trigger] op.reads(q) && map.contains_key(q.0) && map[q.0] == LeafExpr::Register(x)
}

proof fn lemma_leaf_read_after(l: LeafExpr, map: Replacements, x: RegisterID)
    requires
        l.replaced(map).reads(x),
        map.contains_key(x.0),
    ensures
        exists|q: RegisterID|
            #[trigger] l.reads(q) && map.contains_key(q.0) && map[q.0] == LeafExpr::Register(x),
{
    match l {
        LeafExpr::Register(q) => {
            assert(l.reads(q));
            assert(map.contains_key(q.0));
        },
        LeafExpr::Int(_) => {},
    }
}

proof fn lemma_target_read_after(t: Target, map: Replacements, x: RegisterID)
    requires
        t.replaced(map).reads(x),
        map.contains_key(x.0),
    ensures
        exists|q: RegisterID|
            #[trigger] t.reads(q) && map.contains_key(q.0) && map[q.0] == LeafExpr::Register(x),
{
    let n = t.replaced(map);
    let k = choose|k: int| 0 <= k < n.args.len() && (#[trigger] n.args[k]).reads(x);
    assert(n.args[k] == t.args[k].replaced(map));
    lemma_leaf_read_after(t.args[k], map, x);
    let q = choose|q: RegisterID|
        #[trigger] t.args[k].reads(q) && map.contains_key(q.0) && map[q.0] == LeafExpr::Register(
            x,
        );
    assert(t.reads(q));
}

/// Where an instruction reads, after a replacement, a register that the
/// map holds, it read a copy of that register before.
pub proof fn lemma_read_after(op: Op, map: Replacements, x: RegisterID)
    requires
        op.replaced(map).reads(x),
        map.contains_key(x.0),
    ensures
        reads_copy_of(op, map, x),
{
    match op {
        Op::Nop => {},
        Op::LoadCell(_, e) => {
            lemma_leaf_read_after(e, map, x);
            let q = choose|q: RegisterID|
                #[trigger] e.reads(q) && map.contains_key(q.0) && map[q.0] == LeafExpr::Register(x);
            assert(op.reads(q));
        },
        Op::StoreCell(d, e) => {
            let y = if d.replaced(map).reads(x) {
                d
            } else {
                e
            };
            lemma_leaf_read_after(y, map, x);
            let q = choose|q: RegisterID|
                #[trigger] y.reads(q) && map.contains_key(q.0) && map[q.0] == LeafExpr::Register(x);
            assert(op.reads(q));
        },
        Op::BoundsCheck(l, h) => {
            let y = if l.replaced(map).reads(x) {
                l
            } else {
                h
            };
            lemma_leaf_read_after(y, map, x);
            let q = choose|q: RegisterID|
                #[trigger] y.reads(q) && map.contains_key(q.0) && map[q.0] == LeafExpr::Register(x);
            assert(op.reads(q));
        },
        Op::Assign(_, e) => {
            let y = match e {
                Expr::Leaf(a) => a,
                Expr::Binary(a, _, b) => if a.replaced(map).reads(x) {
                    a
                } else {
                    b
                },
                Expr::Unary(a, _) => a,
                Expr::Test(a, _, b) => if a.replaced(map).reads(x) {
                    a
                } else {
                    b
                },
            };
            lemma_leaf_read_after(y, map, x);
            let q = choose|q: RegisterID|
                #[trigger] y.reads(q) && map.contains_key(q.0) && map[q.0] == LeafExpr::Register(x);
            assert(e.reads(q));
            assert(op.reads(q));
        },
        Op::Output(e) => {
            lemma_leaf_read_after(e, map, x);
            let q = choose|q: RegisterID|
                #[trigger] e.reads(q) && map.contains_key(q.0) && map[q.0] == LeafExpr::Register(x);
            assert(op.reads(q));
        },
        Op::Input(_, e) => {
            lemma_leaf_read_after(e, map, x);
            let q = choose|q: RegisterID|
                #[trigger] e.reads(q) && map.contains_key(q.0) && map[q.0] == LeafExpr::Register(x);
            assert(op.reads(q));
        },
        Op::Jump(t) => {
            lemma_target_read_after(t, map, x);
            let q = choose|q: RegisterID|
                #[trigger] t.reads(q) && map.contains_key(q.0) && map[q.0] == LeafExpr::Register(x);
            assert(op.reads(q));
        },
        Op::Branch(c, t, e) => {
            if c.replaced(map).reads(x) {
                lemma_leaf_read_after(c, map, x);
                let q = choose|q: RegisterID|
                    #[trigger] c.reads(q) && map.contains_key(q.0) && map[q.0]
                        == LeafExpr::Register(x);
                assert(op.reads(q));
            } else if t.replaced(map).reads(x) {
                lemma_target_read_after(t, map, x);
                let q = choose|q: RegisterID|
                    #[trigger] t.reads(q) && map.contains_key(q.0) && map[q.0]
                        == LeafExpr::Register(x);
                assert(op.reads(q));
            } else {
                lemma_target_read_after(e, map, x);
                let q = choose|q: RegisterID|
                    #[trigger] e.reads(q) && map.contains_key(q.0) && map[q.0]
                        == LeafExpr::Register(x);
                assert(op.reads(q));
            }
        },
    }
}

/// Among the numbers below `n` of which `p` holds there is a greatest.
pub proof fn lemma_greatest(p: spec_fn(int) -> bool, n: int) -> (g: int)
    requires
        exists|i: int| 0 <= i < n && #[trigger] p(i),
    ensures
        0 <= g < n,
        p(g),
        forall|j: int| g < j < n ==> !#[trigger] p(j),
    decreases n,
{
    if p(n - 1) {
        n - 1
    } else {
        let i = choose|i: int| 0 <= i < n && #[trigger] p(i);
        assert(0 <= i < n - 1 && p(i));
        lemma_greatest(p, n - 1)
    }
}

/// A register that the module reads and that stands for a single operand.
pub open spec fn pending_copy(m: ModuleView, r: int) -> bool {
    0 <= r <= usize::MAX && m.leaf_assigns().contains_key(r as usize) && m.read_set().contains(
        r as usize,
    )
}

/// Where the replacement of copies changes an orderly module, it leaves a
/// copy that nothing reads any more: the removal of dead assignments then
/// changes the module too.
pub proof fn lemma_propagation_frees(m: ModuleView)
    requires
        m.orderly(),
        m.after_propagation() != m,
    ensures
        m.after_propagation().after_dead() != m.after_propagation(),
{
    let n = m.after_propagation();
    let map = m.leaf_assigns();
    let count = m.registers.len() as int;
    // Some instruction is another than it was.
    if forall|k: int, i: int|
        0 <= k < m.blocks.len() && 0 <= i < m.blocks[k].body.len() ==> #[trigger] n.blocks[k].body[i]
            == m.blocks[k].body[i] {
        assert forall|k: int| 0 <= k < m.blocks.len() implies n.blocks[k] == m.blocks[k] by {
            assert(n.blocks[k].body =~= m.blocks[k].body);
        }
        assert(n.blocks =~= m.blocks);
        assert(n == m);
    }
    let (k0, i0) = choose|k: int, i: int|
        0 <= k < m.blocks.len() && 0 <= i < m.blocks[k].body.len() && #[trigger] n.blocks[k].body[i]
            != m.blocks[k].body[i];
    let op0 = m.blocks[k0].body[i0];
    assert(n.blocks[k0].body[i0] == op0.replaced(map));
    lemma_replaced_reads(op0, map);
    let r0 = choose|r: RegisterID| #[trigger] op0.reads(r) && map.contains_key(r.0);
    lemma_typed_reads_known(m, op0);
    assert(m.blocks[k0].body[i0].reads(RegisterID(r0.0)));
    assert(m.read_set().contains(r0.0));
    let p = |r: int| pending_copy(m, r);
    assert(p(r0.0 as int));
    let g = lemma_greatest(p, count);
    let top = RegisterID(g as usize);
    // The copy of the greatest register stays an assignment to it.
    lemma_blocks_leafs_found(m, m.blocks.len() as int);
    let (b, i) = choose|b: int, i: int|
        0 <= b < m.blocks.len() && 0 <= i < m.blocks[b].body.len() && #[trigger] m.blocks[b].body[i]
            == Op::Assign(RegisterID(g as usize), Expr::Leaf(map[g as usize]));
    assert(n.blocks[b].body[i] == m.blocks[b].body[i].replaced(map));
    assert(n.blocks[b].body[i] matches Op::Assign(t, _) && t == top);
    // Nothing reads it any more.
    if n.read_set().contains(top.0) {
        let (k2, i2) = choose|k: int, i: int|
            0 <= k < n.blocks.len() && 0 <= i < n.blocks[k].body.len() && (
            #[trigger] n.blocks[k].body[i]).reads(RegisterID(top.0));
        let op = m.blocks[k2].body[i2];
        assert(n.blocks[k2].body[i2] == op.replaced(map));
        lemma_read_after(op, map, top);
        let q = choose|q: RegisterID|
            #[trigger] op.reads(q) && map.contains_key(q.0) && map[q.0] == LeafExpr::Register(top);
        lemma_typed_reads_known(m, op);
        assert(m.blocks[k2].body[i2].reads(RegisterID(q.0)));
        assert(m.read_set().contains(q.0));
        assert(p(q.0 as int));
        // The copy `q` of `top` stands behind the assignment to `top`.
        let (b3, i3) = choose|b: int, i: int|
            0 <= b < m.blocks.len() && 0 <= i < m.blocks[b].body.len() && #[trigger] m.blocks[b].body[i]
                == Op::Assign(RegisterID(q.0), Expr::Leaf(map[q.0]));
        let body = m.blocks[b3].body;
        assert(op_local(body, i3, body[i3]));
        assert(written_before(body, i3, top));
        let j = choose|j: int| 0 <= j < i3 && j < body.len() && (#[trigger] body[j]).target() == Some(
            top,
        );
        assert(m.blocks[b3].body[j].target() == Some(top));
        assert(m.blocks[b3].body[i3].target() == Some(q));
        assert(top.0 < q.0);
        assert(false);
    }
    let used = n.read_set();
    let after = n.after_dead();
    assert(after.blocks[b].body[i] == without_dead(n.blocks[b].body[i], used));
    assert(after.blocks[b].body[i] == Op::Nop);
}

} // verus!
