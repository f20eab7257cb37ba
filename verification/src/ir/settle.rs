use vstd::prelude::*;
use super::block::BlockView;
use super::instruction::{Expr, Op, Replacements};
use super::laws::{lemma_origin, lemma_origin_grows, origin};
use super::optimize::{
    blocks_leafs, body_leafs, cse_body, cse_op, first_assign, folded, kept_ops,
    map_ops, without_dead, without_identity, without_negation, without_nops,
};
use super::register::RegisterID;
use super::ModuleView;

verus! {

// ---------------------------------------------------------------------------
// A body without its empty instructions
// ---------------------------------------------------------------------------

/// An instruction that is not empty is kept.
pub proof fn lemma_kept_has(body: Seq<Op>, n: int, j: int)
    requires
        0 <= j < n <= body.len(),
        !(body[j] is Nop),
    ensures
        exists|i: int| 0 <= i < kept_ops(body, n).len() && #[trigger] kept_ops(body, n)[i] == body[j],
    decreases n,
{
    let kept = kept_ops(body, n);
    if j == n - 1 {
        assert(kept[kept.len() - 1] == body[j]);
    } else {
        lemma_kept_has(body, n - 1, j);
        let before = kept_ops(body, n - 1);
        let i = choose|i: int| 0 <= i < before.len() && #[trigger] before[i] == body[j];
        assert(kept[i] == body[j]);
    }
}

/// No instruction that is kept is empty.
pub proof fn lemma_kept_full(body: Seq<Op>, n: int)
    requires
        0 <= n <= body.len(),
    ensures
        forall|i: int| 0 <= i < kept_ops(body, n).len() ==> !(#[trigger] kept_ops(body, n)[i] is Nop),
    decreases n,
{
    if n > 0 {
        lemma_kept_full(body, n - 1);
        let before = kept_ops(body, n - 1);
        let kept = kept_ops(body, n);
        assert forall|i: int| 0 <= i < kept.len() implies !(#[trigger] kept[i] is Nop) by {
            if i < before.len() {
                assert(kept[i] == before[i]);
            }
        }
    }
}

/// A body without empty instructions keeps them all.
pub proof fn lemma_kept_all(body: Seq<Op>, n: int)
    requires
        0 <= n <= body.len(),
        forall|i: int| 0 <= i < body.len() ==> !(#[trigger] body[i] is Nop),
    ensures
        kept_ops(body, n) == body.take(n),
    decreases n,
{
    if n > 0 {
        lemma_kept_all(body, n - 1);
        assert(!(body[n - 1] is Nop));
        assert(body.take(n - 1).push(body[n - 1]) =~= body.take(n));
    } else {
        assert(body.take(0) =~= Seq::<Op>::empty());
    }
}

/// Taking the empty instructions out a second time changes nothing.
pub proof fn lemma_without_nops_twice(body: Seq<Op>)
    ensures
        without_nops(without_nops(body)) == without_nops(body),
{
    let kept = without_nops(body);
    lemma_kept_full(body, body.len() as int);
    lemma_kept_all(kept, kept.len() as int);
    assert(kept.take(kept.len() as int) =~= kept);
}

/// The first assignment of an expression is none exactly where no
/// instruction in front assigns it.
pub proof fn lemma_first_assign_none(body: Seq<Op>, e: Expr, j: int)
    requires
        0 <= j <= body.len(),
    ensures
        first_assign(body, e, j) is None <==> forall|i: int|
            0 <= i < j ==> !(#[trigger] body[i] matches Op::Assign(_, found) && found == e),
    decreases j,
{
    if j > 0 {
        lemma_first_assign_none(body, e, j - 1);
        if first_assign(body, e, j) is None {
            assert forall|i: int| 0 <= i < j implies !(#[trigger] body[i] matches Op::Assign(
                _,
                found,
            ) && found == e) by {
                if i == j - 1 {
                    match body[j - 1] {
                        Op::Assign(t, found) => {},
                        _ => {},
                    }
                }
            }
        } else if first_assign(body, e, j - 1) is None {
            match body[j - 1] {
                Op::Assign(t, found) => {
                    assert(body[j - 1] matches Op::Assign(_, found) && found == e);
                },
                _ => {},
            }
        } else {
            let i = choose|i: int|
                0 <= i < j - 1 && (#[trigger] body[i] matches Op::Assign(_, found) && found == e);
            assert(body[i] matches Op::Assign(_, found) && found == e);
        }
    }
}

/// A body in which no expression is assigned twice is such a body without
/// its empty instructions.
pub proof fn lemma_cse_kept(body: Seq<Op>)
    requires
        cse_body(body) == body,
    ensures
        cse_body(without_nops(body)) == without_nops(body),
{
    let n = body.len() as int;
    let kept = without_nops(body);
    assert forall|i: int| 0 <= i < kept.len() implies cse_op(kept, i) == #[trigger] kept[i] by {
        lemma_origin(body, n, i);
        let o = origin(body, n, i);
        assert(cse_body(body)[o] == cse_op(body, o));
        match kept[i] {
            Op::Assign(t, e) => {
                if !(e is Leaf) {
                    assert(first_assign(body, e, o) is None);
                    lemma_first_assign_none(body, e, o);
                    lemma_first_assign_none(kept, e, i);
                    assert forall|k: int| 0 <= k < i implies !(#[trigger] kept[k] matches Op::Assign(
                        _,
                        found,
                    ) && found == e) by {
                        lemma_origin(body, n, k);
                        lemma_origin_grows(body, n, k, i);
                        assert(!(body[origin(body, n, k)] matches Op::Assign(_, found) && found
                            == e));
                    }
                }
            },
            _ => {},
        }
    }
    assert(cse_body(kept) =~= kept);
}

/// A body that a rewrite of single instructions leaves as it is is left so
/// without its empty instructions.
pub proof fn lemma_map_kept(body: Seq<Op>, f: spec_fn(Op) -> Op)
    requires
        map_ops(body, f) == body,
    ensures
        map_ops(without_nops(body), f) == without_nops(body),
{
    let n = body.len() as int;
    let kept = without_nops(body);
    assert forall|i: int| 0 <= i < kept.len() implies f(#[trigger] kept[i]) == kept[i] by {
        lemma_origin(body, n, i);
        let o = origin(body, n, i);
        assert(map_ops(body, f)[o] == f(body[o]));
    }
    assert(map_ops(kept, f) =~= kept);
}

/// The replacements of a body depend on the instructions that are counted
/// alone.
pub proof fn lemma_body_leafs_prefix(a: Seq<Op>, b: Seq<Op>, n: int, acc: Replacements)
    requires
        0 <= n <= a.len(),
        n <= b.len(),
        forall|i: int| 0 <= i < n ==> a[i] == b[i],
    ensures
        body_leafs(a, n, acc) == body_leafs(b, n, acc),
    decreases n,
{
    if n > 0 {
        lemma_body_leafs_prefix(a, b, n - 1, acc);
    }
}

/// The empty instructions add no replacement.
pub proof fn lemma_body_leafs_kept(body: Seq<Op>, n: int, acc: Replacements)
    requires
        0 <= n <= body.len(),
    ensures
        body_leafs(kept_ops(body, n), kept_ops(body, n).len() as int, acc) == body_leafs(
            body,
            n,
            acc,
        ),
    decreases n,
{
    if n > 0 {
        lemma_body_leafs_kept(body, n - 1, acc);
        if !(body[n - 1] is Nop) {
            let before = kept_ops(body, n - 1);
            lemma_body_leafs_prefix(before.push(body[n - 1]), before, before.len() as int, acc);
        }
    }
}

// ---------------------------------------------------------------------------
// A module without its empty instructions
// ---------------------------------------------------------------------------

pub proof fn lemma_blocks_leafs_kept(m: ModuleView, k: int)
    requires
        0 <= k <= m.blocks.len(),
    ensures
        blocks_leafs(m.after_nops().blocks, k) == blocks_leafs(m.blocks, k),
    decreases k,
{
    if k > 0 {
        lemma_blocks_leafs_kept(m, k - 1);
        let body = m.blocks[k - 1].body;
        assert(m.after_nops().blocks[k - 1].body == without_nops(body));
        lemma_body_leafs_kept(body, body.len() as int, blocks_leafs(m.blocks, k - 1));
    }
}

/// The empty instructions read nothing.
pub proof fn lemma_read_set_kept(m: ModuleView)
    ensures
        m.after_nops().read_set() == m.read_set(),
{
    let n = m.after_nops();
    let a = n.read_set();
    let b = m.read_set();
    assert forall|r: usize| a.contains(r) <==> b.contains(r) by {
        if a.contains(r) {
            let (k, i) = choose|k: int, i: int|
                0 <= k < n.blocks.len() && 0 <= i < n.blocks[k].body.len() && (
                #[trigger] n.blocks[k].body[i]).reads(RegisterID(r));
            let body = m.blocks[k].body;
            assert(n.blocks[k].body == without_nops(body));
            lemma_origin(body, body.len() as int, i);
            let o = origin(body, body.len() as int, i);
            assert(m.blocks[k].body[o].reads(RegisterID(r)));
        }
        if b.contains(r) {
            let (k, j) = choose|k: int, j: int|
                0 <= k < m.blocks.len() && 0 <= j < m.blocks[k].body.len() && (
                #[trigger] m.blocks[k].body[j]).reads(RegisterID(r));
            let body = m.blocks[k].body;
            assert(n.blocks[k].body == without_nops(body));
            lemma_kept_has(body, body.len() as int, j);
            let i = choose|i: int|
                0 <= i < kept_ops(body, body.len() as int).len() && #[trigger] kept_ops(
                    body,
                    body.len() as int,
                )[i] == body[j];
            assert(n.blocks[k].body[i].reads(RegisterID(r)));
        }
    }
    assert(a =~= b);
}

/// A module that a rewrite of single instructions leaves as it is is left
/// so without its empty instructions.
pub proof fn lemma_each_kept(m: ModuleView, f: spec_fn(Op) -> Op)
    requires
        m.map_each(f) == m,
    ensures
        m.after_nops().map_each(f) == m.after_nops(),
{
    let n = m.after_nops();
    let after = n.map_each(f);
    assert forall|k: int| 0 <= k < n.blocks.len() implies after.blocks[k] == n.blocks[k] by {
        let body = m.blocks[k].body;
        assert(m.map_each(f).blocks[k].body == map_ops(body, f));
        lemma_map_kept(body, f);
        assert(n.blocks[k].body == without_nops(body));
        assert(after.blocks[k].body == map_ops(n.blocks[k].body, f));
    }
    assert(after.blocks =~= n.blocks);
}

/// A module that no pass changes is, without its empty instructions, a
/// module that no pass changes, and that holds no empty instruction.
pub proof fn lemma_quiet_kept(m: ModuleView)
    requires
        !m.sweep().1,
    ensures
        m.sweep().0.sweep() == (m.sweep().0, false),
{
    let n = m.after_nops();
    assert(m.after_cse() == m);
    assert(m.after_identity() == m);
    assert(m.after_negation() == m);
    assert(m.after_folding() == m);
    assert(m.after_propagation() == m);
    assert(m.after_dead() == m);
    assert(m.sweep().0 == n);
    // No expression is assigned twice.
    let n1 = n.after_cse();
    assert forall|k: int| 0 <= k < n.blocks.len() implies n1.blocks[k] == n.blocks[k] by {
        let body = m.blocks[k].body;
        assert(m.after_cse().blocks[k].body == cse_body(body));
        lemma_cse_kept(body);
        assert(n.blocks[k].body == without_nops(body));
        assert(n1.blocks[k].body == cse_body(n.blocks[k].body));
    }
    assert(n1.blocks =~= n.blocks);
    assert(n1 == n);
    // No instruction is rewritten on its own.
    lemma_each_kept(m, |op: Op| without_identity(op));
    lemma_each_kept(m, |op: Op| without_negation(op));
    lemma_each_kept(m, |op: Op| folded(op));
    // No operand is replaced.
    let map = m.leaf_assigns();
    lemma_blocks_leafs_kept(m, m.blocks.len() as int);
    assert(n.leaf_assigns() == map);
    lemma_each_kept(m, |op: Op| op.replaced(map));
    assert(n.after_propagation() == n.map_each(|op: Op| op.replaced(map)));
    // No assignment is dead.
    let used = m.read_set();
    lemma_read_set_kept(m);
    lemma_each_kept(m, |op: Op| without_dead(op, used));
    assert(n.after_dead() == n.map_each(|op: Op| without_dead(op, used)));
    // No instruction is empty.
    let n7 = n.after_nops();
    assert forall|k: int| 0 <= k < n.blocks.len() implies n7.blocks[k] == n.blocks[k] by {
        lemma_without_nops_twice(m.blocks[k].body);
        assert(n.blocks[k].body == without_nops(m.blocks[k].body));
        assert(n7.blocks[k].body == without_nops(n.blocks[k].body));
    }
    assert(n7.blocks =~= n.blocks);
    assert(n7 == n);
}

/// Once the passes have settled, one more sweep changes nothing.
pub proof fn lemma_settled_fixed(m: ModuleView, n: nat)
    requires
        m.settled(n) is Some,
    ensures
        m.settled(n).unwrap().sweep() == (m.settled(n).unwrap(), false),
    decreases n,
{
    if m.sweep().1 {
        lemma_settled_fixed(m.sweep().0, (n - 1) as nat);
    } else {
        lemma_quiet_kept(m);
    }
}

/// No instruction of the module is empty.
pub open spec fn full(m: ModuleView) -> bool {
    forall|b: int, i: int|
        0 <= b < m.blocks.len() && 0 <= i < m.blocks[b].body.len() ==> !(
        #[trigger] m.blocks[b].body[i] is Nop)
}

/// Once the passes have settled, no instruction is empty.
pub proof fn lemma_settled_full(m: ModuleView, n: nat)
    requires
        m.settled(n) is Some,
    ensures
        full(m.settled(n).unwrap()),
    decreases n,
{
    if m.sweep().1 {
        lemma_settled_full(m.sweep().0, (n - 1) as nat);
    } else {
        let last = m.sweep().0;
        let before = m.after_cse().after_identity().after_negation().after_folding().after_propagation().after_dead();
        assert(last == before.after_nops());
        assert forall|b: int, i: int|
            0 <= b < last.blocks.len() && 0 <= i < last.blocks[b].body.len() implies !(
        #[trigger] last.blocks[b].body[i] is Nop) by {
            let body = before.blocks[b].body;
            assert(last.blocks[b].body == without_nops(body));
            lemma_kept_full(body, body.len() as int);
        }
    }
}

} // verus!
