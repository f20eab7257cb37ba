use vstd::prelude::*;
use super::ast::{current_cell_check, expr_tree_of, Node};
use super::expr_tree::{
    lemma_list_view_take, lemma_take_all, lemma_take_step, list_view, BoundsRange, Instr,
    Instruction, Program,
};
use super::laws::{flag_holds, flags_hold, lemma_still_list_keeps};
use super::optimize::{none_moves, still};
use super::semantics::{
    covered, guarded_instr, guarded_list, lemma_reach_list_runs, reach_instr, reach_list, Reached,
};

verus! {

// ---------------------------------------------------------------------------
// What can be told without a run
// ---------------------------------------------------------------------------

/// The cells that are known to be checked: from the offset `lo` up to, not
/// including, the offset `hi`; or none.
pub type Known = Option<(int, int)>;

/// The cell at the offset is known to be checked.
pub open spec fn known_has(known: Known, offset: int) -> bool {
    known matches Some((lo, hi)) && lo <= offset < hi
}

/// What is known after one more bounds check.
pub open spec fn known_with(known: Known, start: int, length: int) -> Known {
    match known {
        Some((lo, hi)) => Some(
            (
                if lo <= start {
                    lo
                } else {
                    start
                },
                if hi >= start + length {
                    hi
                } else {
                    start + length
                },
            ),
        ),
        None => Some((start, start + length)),
    }
}

/// What is known after the data pointer has moved: the same cells, seen
/// from the new place.
pub open spec fn known_moved(known: Known, by: int) -> Known {
    match known {
        Some((lo, hi)) => Some((lo - by, hi - by)),
        None => None,
    }
}

/// The offsets of what is known are numbers of the widest machine integers.
pub open spec fn known_fits(known: Known) -> bool {
    known matches Some((lo, hi)) ==> i128::MIN <= lo <= i128::MAX && i128::MIN <= hi <= i128::MAX
}

/// The guard cell of a block alone.
pub open spec fn guard_only(cell: int) -> Known {
    Some((cell, cell + 1))
}

/// What is known after an instruction, where every cell that it reads or
/// writes is known to be checked before; `None` where one is not. A block
/// needs its guard cell; a block that is flagged as balanced must hold
/// nothing that moves the pointer, and its body starts from what is known
/// in front of it; the body of another loop starts from its guard cell
/// alone and must come back to a checked guard cell. With `narrow`, a move
/// that takes the offsets of what is known out of the widest machine
/// integers gives `None` too.
pub open spec fn sure_instr(i: Instr, known: Known, narrow: bool) -> Option<Known>
    decreases i, 0int,
{
    match i {
        Instr::Modify(c, _) => if known_has(known, c) {
            Some(known)
        } else {
            None
        },
        Instr::Output(c) => if known_has(known, c) {
            Some(known)
        } else {
            None
        },
        Instr::Input(c) => if known_has(known, c) {
            Some(known)
        } else {
            None
        },
        Instr::SetCell(c, _) => if known_has(known, c) {
            Some(known)
        } else {
            None
        },
        Instr::AddMultiple { target, base, .. } => if known_has(known, target) && known_has(
            known,
            base,
        ) {
            Some(known)
        } else {
            None
        },
        Instr::Move(d) => if narrow && !known_fits(known_moved(known, d)) {
            None
        } else {
            Some(known_moved(known, d))
        },
        Instr::BoundsCheck { start, length } => Some(known_with(known, start, length)),
        Instr::Loop(balanced, c, body) => if !known_has(known, c) {
            None
        } else if balanced {
            if still(body) && sure_list(body, known, narrow) is Some {
                Some(known)
            } else {
                None
            }
        } else {
            match sure_list(body, guard_only(c), narrow) {
                Some(after) => if known_has(after, c) {
                    Some(guard_only(c))
                } else {
                    None
                },
                None => None,
            }
        },
        Instr::If(balanced, c, body) => if !known_has(known, c) {
            None
        } else if balanced {
            if still(body) && sure_list(body, known, narrow) is Some {
                Some(known)
            } else {
                None
            }
        } else {
            if sure_list(body, known, narrow) is Some {
                Some(None)
            } else {
                None
            }
        },
    }
}

/// What is known after a list of instructions, where every cell that it
/// reads or writes is known to be checked before.
pub open spec fn sure_list(s: Seq<Instr>, known: Known, narrow: bool) -> Option<Known>
    decreases s, 1int,
{
    if s.len() == 0 {
        Some(known)
    } else {
        match sure_list(s.drop_last(), known, narrow) {
            None => None,
            Some(mid) => sure_instr(s.last(), mid, narrow),
        }
    }
}

/// What is known holds of the state: the cells that are known to be
/// checked lie on the tape and within reach.
pub open spec fn known_holds(known: Known, c: Reached) -> bool {
    known matches Some((lo, hi)) ==> 0 <= c.state.pointer + lo && c.state.pointer + hi <= c.reach
}

/// In a list that is sure, every block that is flagged as balanced holds
/// nothing that moves the pointer.
pub proof fn lemma_sure_flags(s: Seq<Instr>, known: Known, narrow: bool)
    requires
        sure_list(s, known, narrow) is Some,
    ensures
        flags_hold(s),
    decreases s, 1int,
{
    if s.len() > 0 {
        let front = s.drop_last();
        lemma_sure_flags(front, known, narrow);
        let mid = sure_list(front, known, narrow).unwrap();
        lemma_sure_flag(s.last(), mid, narrow);
        assert forall|k: int| 0 <= k < s.len() implies flag_holds(#[trigger] s[k]) by {
            if k < front.len() {
                assert(front[k] == s[k]);
            }
        }
    }
}

pub proof fn lemma_sure_flag(i: Instr, known: Known, narrow: bool)
    requires
        sure_instr(i, known, narrow) is Some,
    ensures
        flag_holds(i),
    decreases i, 0int,
{
    match i {
        Instr::Loop(balanced, c, body) => {
            if balanced {
                lemma_sure_flags(body, known, narrow);
            } else {
                lemma_sure_flags(body, guard_only(c), narrow);
            }
        },
        Instr::If(balanced, c, body) => {
            lemma_sure_flags(body, known, narrow);
        },
        _ => {},
    }
}

/// What is known at the head of the body of a loop, and after the loop.
pub open spec fn loop_known(balanced: bool, cell: int, known: Known) -> Known {
    if balanced {
        known
    } else {
        guard_only(cell)
    }
}

/// A loop that is sure stays within reach, turn by turn.
pub proof fn lemma_sure_loop(
    balanced: bool,
    cell: int,
    body: Seq<Instr>,
    known: Known,
    c: Reached,
    fuel: nat,
    narrow: bool,
)
    requires
        sure_instr(Instr::Loop(balanced, cell, body), known, narrow) is Some,
        known_holds(loop_known(balanced, cell, known), c),
        guarded_instr(Instr::Loop(balanced, cell, body), c, fuel) is Some,
    ensures
        reach_instr(Instr::Loop(balanced, cell, body), c, fuel) == guarded_instr(
            Instr::Loop(balanced, cell, body),
            c,
            fuel,
        ),
        known_holds(
            loop_known(balanced, cell, known),
            guarded_instr(Instr::Loop(balanced, cell, body), c, fuel).unwrap(),
        ),
    decreases fuel, body, 3int,
{
    let i = Instr::Loop(balanced, cell, body);
    let start = loop_known(balanced, cell, known);
    assert(known_has(start, cell));
    assert(c.reaches(cell));
    if c.state.read(cell) != 0 && fuel > 0 {
        let rest = (fuel - 1) as nat;
        lemma_sure_list(body, start, c, rest, narrow);
        let next = guarded_list(body, c, rest).unwrap();
        if balanced {
            lemma_sure_flags(body, known, narrow);
            lemma_reach_list_runs(body, c, rest);
            lemma_still_list_keeps(body, c.state, rest);
        }
        assert(known_holds(start, next));
        lemma_sure_loop(balanced, cell, body, known, next, rest, narrow);
    }
}

/// An instruction that is sure stays within reach, and what is known
/// after it holds.
pub proof fn lemma_sure_instr(i: Instr, known: Known, c: Reached, fuel: nat, narrow: bool)
    requires
        sure_instr(i, known, narrow) is Some,
        known_holds(known, c),
        guarded_instr(i, c, fuel) is Some,
    ensures
        reach_instr(i, c, fuel) == guarded_instr(i, c, fuel),
        known_holds(sure_instr(i, known, narrow).unwrap(), guarded_instr(i, c, fuel).unwrap()),
    decreases fuel, i, 0int,
{
    match i {
        Instr::Loop(balanced, cell, body) => {
            assert(known_has(known, cell));
            if !balanced {
                assert(known_holds(guard_only(cell), c));
            }
            lemma_sure_loop(balanced, cell, body, known, c, fuel, narrow);
            let end = guarded_instr(i, c, fuel).unwrap();
            assert(sure_instr(i, known, narrow).unwrap() == loop_known(balanced, cell, known));
        },
        Instr::If(balanced, cell, body) => {
            assert(known_has(known, cell));
            if c.state.read(cell) != 0 {
                lemma_sure_list(body, known, c, fuel, narrow);
                if balanced {
                    lemma_sure_flags(body, known, narrow);
                    lemma_reach_list_runs(body, c, fuel);
                    lemma_still_list_keeps(body, c.state, fuel);
                }
            }
        },
        Instr::Modify(cell, _) => {},
        Instr::Output(cell) => {},
        Instr::Input(cell) => {},
        Instr::SetCell(cell, _) => {},
        Instr::AddMultiple { target, base, .. } => {},
        Instr::Move(d) => {},
        Instr::BoundsCheck { start, length } => {},
    }
}

/// A list that is sure stays within reach, and what is known after it
/// holds.
pub proof fn lemma_sure_list(s: Seq<Instr>, known: Known, c: Reached, fuel: nat, narrow: bool)
    requires
        sure_list(s, known, narrow) is Some,
        known_holds(known, c),
        guarded_list(s, c, fuel) is Some,
    ensures
        reach_list(s, c, fuel) == guarded_list(s, c, fuel),
        known_holds(sure_list(s, known, narrow).unwrap(), guarded_list(s, c, fuel).unwrap()),
    decreases fuel, s, 1int,
{
    if s.len() > 0 {
        lemma_sure_list(s.drop_last(), known, c, fuel, narrow);
        let mid = guarded_list(s.drop_last(), c, fuel).unwrap();
        lemma_sure_instr(s.last(), sure_list(s.drop_last(), known, narrow).unwrap(), mid, fuel, narrow);
    }
}

/// In a program that is sure, every read and write falls on a cell that a
/// bounds check has made sure of: a run in which the range of every bounds
/// check lies on the tape stays within reach.
pub proof fn lemma_sure_covered(s: Seq<Instr>, narrow: bool)
    requires
        sure_list(s, None, narrow) is Some,
    ensures
        covered(s),
        flags_hold(s),
{
    lemma_sure_flags(s, None, narrow);
    assert forall|c: Reached, fuel: nat| (#[trigger] guarded_list(s, c, fuel)) is Some implies reach_list(
        s,
        c,
        fuel,
    ) == guarded_list(s, c, fuel) by {
        lemma_sure_list(s, None, c, fuel, narrow);
    }
}

// ---------------------------------------------------------------------------
// The tree of a program
// ---------------------------------------------------------------------------

/// A list of two lists, one after the other, is sure where the first is and
/// the second is from what is known after the first.
pub proof fn lemma_sure_concat(a: Seq<Instr>, b: Seq<Instr>, known: Known)
    ensures
        sure_list(a + b, known, false) == match sure_list(a, known, false) {
            None => None,
            Some(mid) => sure_list(b, mid, false),
        },
    decreases b.len(),
{
    if b.len() == 0 {
        assert(a + b =~= a);
    } else {
        assert((a + b).drop_last() =~= a + b.drop_last());
        assert((a + b).last() == b.last());
        lemma_sure_concat(a, b.drop_last(), known);
    }
}

/// A check of the current cell makes that cell known.
pub proof fn lemma_check_known(known: Known)
    ensures
        sure_instr(current_cell_check(), known, false) == Some(known_with(known, 0, 1)),
        known_has(known_with(known, 0, 1), 0),
{
}

/// The instructions of a node are sure, whatever is known before.
pub proof fn lemma_node_sure(node: Node, known: Known)
    ensures
        sure_list(node.instructions(), known, false) is Some,
    decreases node, 1int,
{
    let i = node.instruction();
    let check = current_cell_check();
    if node.accesses_cell() {
        let s = seq![check, i];
        let with_cell = known_with(known, 0, 1);
        lemma_check_known(known);
        assert(s.drop_last() =~= seq![check]);
        assert(s.last() == i);
        assert(seq![check].drop_last() =~= Seq::<Instr>::empty());
        assert(seq![check].last() == check);
        assert(sure_list(seq![check].drop_last(), known, false) == Some(known));
        assert(sure_list(seq![check], known, false) == Some(with_cell));
        match node {
            Node::Loop(body) => {
                let tree = expr_tree_of(body);
                let inner = tree.push(check);
                lemma_tree_sure(body, guard_only(0));
                let after = sure_list(tree, guard_only(0), false).unwrap();
                lemma_check_known(after);
                assert(inner.drop_last() =~= tree);
                assert(inner.last() == check);
                assert(sure_list(inner, guard_only(0), false) == Some(known_with(after, 0, 1)));
                assert(i == Instr::Loop(false, 0, inner));
                assert(sure_instr(i, with_cell, false) is Some);
            },
            Node::Modify(_) => {
                assert(sure_instr(i, with_cell, false) is Some);
            },
            Node::Output => {
                assert(sure_instr(i, with_cell, false) is Some);
            },
            Node::Input => {
                assert(sure_instr(i, with_cell, false) is Some);
            },
            Node::SetCell(_) => {
                assert(sure_instr(i, with_cell, false) is Some);
            },
            Node::Move(_) => {},
        }
        assert(node.instructions() == s);
        assert(sure_list(s, known, false) == sure_instr(i, with_cell, false));
    } else {
        let s = seq![i];
        assert(s.drop_last() =~= Seq::<Instr>::empty());
        assert(s.last() == i);
        assert(sure_list(s.drop_last(), known, false) == Some(known));
        assert(node.instructions() == s);
        assert(sure_list(s, known, false) == sure_instr(i, known, false));
        assert(i is Move);
    }
}

/// The tree of a list of nodes is sure, whatever is known before.
pub proof fn lemma_tree_sure(nodes: Seq<Node>, known: Known)
    ensures
        sure_list(expr_tree_of(nodes), known, false) is Some,
    decreases nodes, 2int,
{
    if nodes.len() > 0 {
        let front = expr_tree_of(nodes.drop_last());
        let back = nodes.last().instructions();
        lemma_tree_sure(nodes.drop_last(), known);
        lemma_sure_concat(front, back, known);
        lemma_node_sure(nodes.last(), sure_list(front, known, false).unwrap());
    }
}

/// In the tree that is built from the nodes of a program, every read and
/// write falls on a cell that a bounds check has made sure of since the
/// data pointer last moved: a run in which the range of every bounds
/// check lies on the tape stays within reach.
pub proof fn lemma_expr_tree_covered(nodes: Seq<Node>)
    ensures
        sure_list(expr_tree_of(nodes), None, false) is Some,
        covered(expr_tree_of(nodes)),
{
    lemma_tree_sure(nodes, None);
    lemma_sure_covered(expr_tree_of(nodes), false);
}

// ---------------------------------------------------------------------------
// The walk in machine integers
// ---------------------------------------------------------------------------

/// What is known to be checked, in machine integers.
pub open spec fn known_view(known: Option<(i128, i128)>) -> Known {
    match known {
        Some((lo, hi)) => Some((lo as int, hi as int)),
        None => None,
    }
}

/// What the walk over a list has come to, in machine integers.
pub open spec fn outcome_view(r: Option<Option<(i128, i128)>>) -> Option<Known> {
    match r {
        Some(known) => Some(known_view(known)),
        None => None,
    }
}

/// A list of which a part from the first instruction on is not sure is not
/// sure.
pub proof fn lemma_sure_prefix(s: Seq<Instr>, k: int, known: Known)
    requires
        0 <= k <= s.len(),
        sure_list(s.take(k), known, true) is None,
    ensures
        sure_list(s, known, true) is None,
    decreases s.len() - k,
{
    if k < s.len() {
        lemma_take_step(s, k);
        lemma_sure_prefix(s, k + 1, known);
    } else {
        lemma_take_all(s);
    }
}

fn knows(known: Option<(i128, i128)>, offset: isize) -> (r: bool)
    ensures
        r == known_has(known_view(known), offset as int),
{
    match known {
        Some((lo, hi)) => lo <= offset as i128 && (offset as i128) < hi,
        None => false,
    }
}

fn with_check(known: Option<(i128, i128)>, range: &BoundsRange) -> (r: Option<(i128, i128)>)
    ensures
        known_view(r) == known_with(known_view(known), range.start as int, range.length as int),
{
    let start: i128 = range.start as i128;
    let end: i128 = start + range.length as i128;
    match known {
        Some((lo, hi)) => Some(
            (
                if lo <= start {
                    lo
                } else {
                    start
                },
                if hi >= end {
                    hi
                } else {
                    end
                },
            ),
        ),
        None => Some((start, end)),
    }
}

fn after_move(known: Option<(i128, i128)>, by: isize) -> (r: Option<Option<(i128, i128)>>)
    ensures
        outcome_view(r) == if known_fits(known_moved(known_view(known), by as int)) {
            Some(known_moved(known_view(known), by as int))
        } else {
            None
        },
{
    match known {
        Some((lo, hi)) => match (lo.checked_sub(by as i128), hi.checked_sub(by as i128)) {
            (Some(a), Some(b)) => Some(Some((a, b))),
            _ => None,
        },
        None => Some(None),
    }
}

fn guard(cell: isize) -> (r: Option<(i128, i128)>)
    ensures
        known_view(r) == guard_only(cell as int),
{
    Some((cell as i128, cell as i128 + 1))
}

fn sure_rec(list: &Vec<Instruction>, known: Option<(i128, i128)>) -> (r: Option<
    Option<(i128, i128)>,
>)
    ensures
        outcome_view(r) == sure_list(list_view(list@), known_view(known), true),
    decreases list,
{
    let ghost s = list_view(list@);
    let ghost first = known_view(known);
    let mut now: Option<(i128, i128)> = known;
    let mut k: usize = 0;
    proof {
        lemma_take_all(s);
    }
    while k < list.len()
        invariant
            k <= list.len(),
            s == list_view(list@),
            s.len() == list.len(),
            first == known_view(known),
            sure_list(s.take(k as int), first, true) == Some(known_view(now)),
        decreases list.len() - k,
    {
        proof {
            lemma_take_step(s, k as int);
            lemma_list_view_take(list@, k as int);
            assert(s[k as int] == list[k as int]@);
        }
        let next: Option<Option<(i128, i128)>> = match &list[k] {
            Instruction::Modify(c, _) => if knows(now, *c) {
                Some(now)
            } else {
                None
            },
            Instruction::Output(c) => if knows(now, *c) {
                Some(now)
            } else {
                None
            },
            Instruction::Input(c) => if knows(now, *c) {
                Some(now)
            } else {
                None
            },
            Instruction::SetCell(c, _) => if knows(now, *c) {
                Some(now)
            } else {
                None
            },
            Instruction::AddMultiple { target, base, .. } => if knows(now, *target) && knows(
                now,
                *base,
            ) {
                Some(now)
            } else {
                None
            },
            Instruction::Move(d) => after_move(now, *d),
            Instruction::BoundsCheck(range) => Some(with_check(now, range)),
            Instruction::Loop(balanced, c, body) => if !knows(now, *c) {
                None
            } else if *balanced {
                if none_moves(body) && sure_rec(body, now).is_some() {
                    Some(now)
                } else {
                    None
                }
            } else {
                match sure_rec(body, guard(*c)) {
                    Some(after) => if knows(after, *c) {
                        Some(guard(*c))
                    } else {
                        None
                    },
                    None => None,
                }
            },
            Instruction::If(balanced, c, body) => if !knows(now, *c) {
                None
            } else if *balanced {
                if none_moves(body) && sure_rec(body, now).is_some() {
                    Some(now)
                } else {
                    None
                }
            } else {
                if sure_rec(body, now).is_some() {
                    Some(None)
                } else {
                    None
                }
            },
        };
        proof {
            assert(outcome_view(next) == sure_instr(s[k as int], known_view(now), true));
        }
        match next {
            Some(after) => {
                now = after;
            },
            None => {
                proof {
                    assert(sure_list(s.take(k as int + 1), first, true) == sure_instr(
                        s[k as int],
                        known_view(now),
                        true,
                    ));
                    lemma_sure_prefix(s, k as int + 1, first);
                }
                return None;
            },
        }
        k += 1;
    }
    Some(now)
}

/// Whether it can be told without a run that every read and write of the
/// program falls on a cell that a bounds check has made sure of, and that
/// every block that is flagged as balanced holds nothing that moves the
/// pointer.
pub fn is_covered(program: &Program) -> (r: bool)
    ensures
        r == (sure_list(program@, None, true) is Some),
        r ==> covered(program@) && flags_hold(program@),
{
    let r = sure_rec(&program.0, None);
    proof {
        if r.is_some() {
            lemma_sure_covered(program@, true);
        }
    }
    r.is_some()
}

} // verus!
