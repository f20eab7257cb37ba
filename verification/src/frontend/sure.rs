use vstd::prelude::*;
use super::coverage::{
    guard_only, known_has, known_moved, known_with, lemma_sure_concat, sure_instr, sure_list, Known,
};
use super::expr_tree::{covers, hull, lemma_push_parts, Instr};
use super::optimize::{
    addition_scan, checked, cover_scan, guard_is_dead, idle_on_zero, live, marked, marked_instr,
    merge_scan, merged, merged_instr, move_amount, net_move, normalized, optimized, recognized,
    recognized_instr, shifted, shifted_list, still, unguarded, unguarded_instr, without_covered,
    without_dead, MergeScan,
};

verus! {

// ---------------------------------------------------------------------------
// Knowing more
// ---------------------------------------------------------------------------

/// What is known in `a` is known in `b`.
pub open spec fn known_within(a: Known, b: Known) -> bool {
    match a {
        None => true,
        Some((lo, hi)) => b matches Some((lo2, hi2)) && lo2 <= lo && hi <= hi2,
    }
}

/// Where the first walk is sure, the second is, and knows as much at
/// least.
pub open spec fn follows(a: Option<Known>, b: Option<Known>) -> bool {
    a matches Some(known) ==> b is Some && known_within(known, b.unwrap())
}

/// The walk over a list with one instruction more.
pub proof fn lemma_sure_push(s: Seq<Instr>, i: Instr, known: Known)
    ensures
        sure_list(s.push(i), known, false) == match sure_list(s, known, false) {
            None => None,
            Some(mid) => sure_instr(i, mid, false),
        },
{
    lemma_push_parts(s, i);
}

/// The walk over one instruction as a list.
pub proof fn lemma_sure_single(i: Instr, known: Known)
    ensures
        sure_list(seq![i], known, false) == sure_instr(i, known, false),
{
    let s = seq![i];
    assert(s.drop_last() =~= Seq::<Instr>::empty());
    assert(s.last() == i);
    assert(sure_list(s.drop_last(), known, false) == Some(known));
}

/// An instruction that is sure is sure from more that is known, and then
/// more is known after it.
pub proof fn lemma_more_instr(i: Instr, a: Known, b: Known)
    requires
        known_within(a, b),
    ensures
        follows(sure_instr(i, a, false), sure_instr(i, b, false)),
    decreases i, 0int,
{
    match i {
        Instr::Loop(balanced, c, body) => {
            if balanced {
                lemma_more_list(body, a, b);
            }
        },
        Instr::If(balanced, c, body) => {
            lemma_more_list(body, a, b);
        },
        Instr::Modify(c, _) => {},
        Instr::Output(c) => {},
        Instr::Input(c) => {},
        Instr::SetCell(c, _) => {},
        Instr::AddMultiple { target, base, .. } => {},
        Instr::Move(d) => {},
        Instr::BoundsCheck { start, length } => {},
    }
}

/// A list that is sure is sure from more that is known, and then more is
/// known after it.
pub proof fn lemma_more_list(s: Seq<Instr>, a: Known, b: Known)
    requires
        known_within(a, b),
    ensures
        follows(sure_list(s, a, false), sure_list(s, b, false)),
    decreases s, 1int,
{
    if s.len() > 0 {
        lemma_more_list(s.drop_last(), a, b);
        match sure_list(s.drop_last(), a, false) {
            Some(mid) => lemma_more_instr(s.last(), mid, sure_list(s.drop_last(), b, false).unwrap()),
            None => {},
        }
    }
}

// ---------------------------------------------------------------------------
// Without dead code
// ---------------------------------------------------------------------------

/// What is left of a still list without its dead code is still.
pub proof fn lemma_without_dead_still(s: Seq<Instr>)
    requires
        still(s),
    ensures
        still(without_dead(s)),
    decreases s.len(),
{
    if s.len() > 0 {
        let front = s.drop_last();
        assert forall|k: int| 0 <= k < front.len() implies !(#[trigger] front[k]).moves_pointer() by {
            assert(front[k] == s[k]);
        }
        lemma_without_dead_still(front);
        assert(!s[s.len() - 1].moves_pointer());
        match live(s.last()) {
            Some(i) => {
                let rest = without_dead(front);
                let out = rest.push(i);
                assert forall|k: int| 0 <= k < out.len() implies !(#[trigger] out[k]).moves_pointer() by {
                    if k < rest.len() {
                        assert(out[k] == rest[k]);
                    }
                }
            },
            None => {},
        }
    }
}

/// What is left of an instruction that is sure is sure; where nothing is
/// left, as much is known as after the instruction.
pub proof fn lemma_live_sure(i: Instr, a: Known, b: Known)
    requires
        known_within(a, b),
    ensures
        follows(
            sure_instr(i, a, false),
            match live(i) {
                Some(left) => sure_instr(left, b, false),
                None => Some(b),
            },
        ),
    decreases i, 0int,
{
    match i {
        Instr::Loop(balanced, c, body) => {
            if balanced {
                lemma_without_dead_sure(body, a, b);
                if still(body) {
                    lemma_without_dead_still(body);
                }
            } else {
                lemma_without_dead_sure(body, guard_only(c), guard_only(c));
            }
        },
        Instr::If(balanced, c, body) => {
            lemma_without_dead_sure(body, a, b);
            if balanced && still(body) {
                lemma_without_dead_still(body);
            }
        },
        Instr::Modify(c, amount) => {},
        Instr::Move(d) => {},
        Instr::Output(c) => {},
        Instr::Input(c) => {},
        Instr::SetCell(c, _) => {},
        Instr::AddMultiple { target, base, .. } => {},
        Instr::BoundsCheck { start, length } => {},
    }
}

/// Removing dead code from a list that is sure leaves it sure.
pub proof fn lemma_without_dead_sure(s: Seq<Instr>, a: Known, b: Known)
    requires
        known_within(a, b),
    ensures
        follows(sure_list(s, a, false), sure_list(without_dead(s), b, false)),
    decreases s, 1int,
{
    if s.len() > 0 {
        let front = s.drop_last();
        let i = s.last();
        lemma_without_dead_sure(front, a, b);
        match sure_list(front, a, false) {
            Some(mid) => {
                let wide = sure_list(without_dead(front), b, false).unwrap();
                lemma_live_sure(i, mid, wide);
                match live(i) {
                    Some(left) => lemma_sure_push(without_dead(front), left, b),
                    None => {},
                }
            },
            None => {},
        }
    }
}

// ---------------------------------------------------------------------------
// Flags
// ---------------------------------------------------------------------------

/// A still list that is sure is still once its flags are set.
pub proof fn lemma_marked_still(s: Seq<Instr>, known: Known)
    requires
        still(s),
        sure_list(s, known, false) is Some,
    ensures
        still(marked(s)),
    decreases s, 1int,
{
    if s.len() > 0 {
        let front = s.drop_last();
        let i = s.last();
        assert forall|k: int| 0 <= k < front.len() implies !(#[trigger] front[k]).moves_pointer() by {
            assert(front[k] == s[k]);
        }
        assert(!s[s.len() - 1].moves_pointer());
        lemma_marked_still(front, known);
        let mid = sure_list(front, known, false).unwrap();
        assert(sure_instr(i, mid, false) is Some);
        assert(!i.moves_pointer());
        match i {
            Instr::Loop(balanced, c, body) => {
                assert(balanced);
                lemma_marked_still(body, mid);
            },
            Instr::If(balanced, c, body) => {
                assert(balanced);
                lemma_marked_still(body, mid);
            },
            _ => {},
        }
        let rest = marked(front);
        let out = rest.push(marked_instr(i));
        assert forall|k: int| 0 <= k < out.len() implies !(#[trigger] out[k]).moves_pointer() by {
            if k < rest.len() {
                assert(out[k] == rest[k]);
            }
        }
    }
}

/// An instruction that is sure is sure once its flags are set.
pub proof fn lemma_marked_instr_sure(i: Instr, a: Known, b: Known)
    requires
        known_within(a, b),
    ensures
        follows(sure_instr(i, a, false), sure_instr(marked_instr(i), b, false)),
    decreases i, 0int,
{
    match i {
        Instr::Loop(balanced, c, body) => {
            if sure_instr(i, a, false) is Some {
                if balanced {
                    lemma_marked_still(body, a);
                    lemma_marked_sure(body, a, b);
                } else if still(marked(body)) {
                    lemma_marked_sure(body, guard_only(c), b);
                } else {
                    lemma_marked_sure(body, guard_only(c), guard_only(c));
                }
            }
        },
        Instr::If(balanced, c, body) => {
            if sure_instr(i, a, false) is Some {
                if balanced {
                    lemma_marked_still(body, a);
                }
                lemma_marked_sure(body, a, b);
            }
        },
        _ => {
            lemma_more_instr(i, a, b);
        },
    }
}

/// Setting the flags of a list that is sure leaves it sure.
pub proof fn lemma_marked_sure(s: Seq<Instr>, a: Known, b: Known)
    requires
        known_within(a, b),
    ensures
        follows(sure_list(s, a, false), sure_list(marked(s), b, false)),
    decreases s, 1int,
{
    if s.len() > 0 {
        let front = s.drop_last();
        lemma_marked_sure(front, a, b);
        match sure_list(front, a, false) {
            Some(mid) => {
                let wide = sure_list(marked(front), b, false).unwrap();
                lemma_marked_instr_sure(s.last(), mid, wide);
                lemma_sure_push(marked(front), marked_instr(s.last()), b);
            },
            None => {},
        }
    }
}

// ---------------------------------------------------------------------------
// Conditionals that need no guard
// ---------------------------------------------------------------------------

/// Two still lists, one after the other, are still.
pub proof fn lemma_still_join(a: Seq<Instr>, b: Seq<Instr>)
    requires
        still(a),
        still(b),
    ensures
        still(a + b),
{
    let s = a + b;
    assert forall|k: int| 0 <= k < s.len() implies !(#[trigger] s[k]).moves_pointer() by {
        if k < a.len() {
            assert(s[k] == a[k]);
        } else {
            assert(s[k] == b[k - a.len()]);
        }
    }
}

/// The front of a still list is still, and its last instruction does not
/// move the pointer.
pub proof fn lemma_still_parts(s: Seq<Instr>)
    requires
        still(s),
        s.len() > 0,
    ensures
        still(s.drop_last()),
        !s.last().moves_pointer(),
{
    let front = s.drop_last();
    assert forall|k: int| 0 <= k < front.len() implies !(#[trigger] front[k]).moves_pointer() by {
        assert(front[k] == s[k]);
    }
    assert(!s[s.len() - 1].moves_pointer());
}

/// A body that does nothing on a zero guard cell is still, and the walk
/// over it leaves what is known as it is.
pub proof fn lemma_dead_guard_body(body: Seq<Instr>, c: int, known: Known)
    requires
        guard_is_dead(body, c),
    ensures
        still(body),
        sure_list(body, known, false) is Some ==> sure_list(body, known, false) == Some(known),
    decreases body.len(),
{
    if body.len() > 0 {
        let front = body.drop_last();
        assert forall|k: int| 0 <= k < front.len() implies idle_on_zero(#[trigger] front[k], c) by {
            assert(front[k] == body[k]);
        }
        assert(idle_on_zero(body[body.len() - 1], c));
        lemma_dead_guard_body(front, c, known);
        if sure_list(body, known, false) is Some {
            assert(sure_list(front, known, false) == Some(known));
            match body.last() {
                Instr::AddMultiple { target, base, factor } => {},
                Instr::SetCell(cell, val) => {},
                _ => {},
            }
            assert(sure_instr(body.last(), known, false) == Some(known));
        }
        assert forall|k: int| 0 <= k < body.len() implies !(#[trigger] body[k]).moves_pointer() by {
            assert(idle_on_zero(body[k], c));
        }
    }
}

/// What is left of a still list without the guards that it does not need
/// is still.
pub proof fn lemma_unguarded_still(s: Seq<Instr>)
    requires
        still(s),
    ensures
        still(unguarded(s)),
    decreases s.len(),
{
    if s.len() > 0 {
        lemma_still_parts(s);
        lemma_unguarded_still(s.drop_last());
        match s.last() {
            Instr::If(b, c, body) => {
                if guard_is_dead(body, c) {
                    lemma_dead_guard_body(body, c, None);
                }
            },
            _ => {},
        }
        lemma_still_join(unguarded(s.drop_last()), unguarded_instr(s.last()));
    }
}

/// What stands in place of an instruction that is sure is sure.
pub proof fn lemma_unguarded_instr_sure(i: Instr, a: Known, b: Known)
    requires
        known_within(a, b),
    ensures
        follows(sure_instr(i, a, false), sure_list(unguarded_instr(i), b, false)),
    decreases i, 0int,
{
    match i {
        Instr::Loop(balanced, c, body) => {
            lemma_sure_single(Instr::Loop(balanced, c, unguarded(body)), b);
            if balanced {
                lemma_unguarded_sure(body, a, b);
                if still(body) {
                    lemma_unguarded_still(body);
                }
            } else {
                lemma_unguarded_sure(body, guard_only(c), guard_only(c));
            }
        },
        Instr::If(balanced, c, body) => {
            if guard_is_dead(body, c) {
                lemma_more_list(body, a, b);
                lemma_dead_guard_body(body, c, b);
            } else {
                lemma_sure_single(Instr::If(balanced, c, unguarded(body)), b);
                lemma_unguarded_sure(body, a, b);
                if balanced && still(body) {
                    lemma_unguarded_still(body);
                }
            }
        },
        _ => {
            lemma_sure_single(i, b);
            lemma_more_instr(i, a, b);
        },
    }
}

/// Replacing the conditionals that need no guard by their bodies leaves a
/// list that is sure sure.
pub proof fn lemma_unguarded_sure(s: Seq<Instr>, a: Known, b: Known)
    requires
        known_within(a, b),
    ensures
        follows(sure_list(s, a, false), sure_list(unguarded(s), b, false)),
    decreases s, 1int,
{
    if s.len() > 0 {
        let front = s.drop_last();
        lemma_unguarded_sure(front, a, b);
        lemma_sure_concat(unguarded(front), unguarded_instr(s.last()), b);
        match sure_list(front, a, false) {
            Some(mid) => {
                let wide = sure_list(unguarded(front), b, false).unwrap();
                lemma_unguarded_instr_sure(s.last(), mid, wide);
            },
            None => {},
        }
    }
}

// ---------------------------------------------------------------------------
// Loops that add multiples
// ---------------------------------------------------------------------------

/// A still list with a still instruction more is still.
pub proof fn lemma_still_more(s: Seq<Instr>, i: Instr)
    requires
        still(s),
        !i.moves_pointer(),
    ensures
        still(s.push(i)),
{
    let out = s.push(i);
    assert forall|k: int| 0 <= k < out.len() implies !(#[trigger] out[k]).moves_pointer() by {
        if k < s.len() {
            assert(out[k] == s[k]);
        }
    }
}

/// What is left of a still list with its addition loops replaced is still.
pub proof fn lemma_recognized_still(s: Seq<Instr>)
    requires
        still(s),
    ensures
        still(recognized(s)),
    decreases s.len(),
{
    if s.len() > 0 {
        lemma_still_parts(s);
        lemma_recognized_still(s.drop_last());
        lemma_still_more(recognized(s.drop_last()), recognized_instr(s.last()));
    }
}

/// The additions that stand for the body of a loop are sure where the body
/// is: they are still, and the walk over them leaves what is known as it
/// is.
pub proof fn lemma_additions_sure(body: Seq<Instr>, base: int, known: Known)
    requires
        addition_scan(body, base) is Some,
        sure_list(body, known, false) is Some,
        known_has(known, base),
    ensures
        sure_list(body, known, false) == Some(known),
        sure_list(addition_scan(body, base).unwrap().0, known, false) == Some(known),
        still(addition_scan(body, base).unwrap().0),
    decreases body.len(),
{
    if body.len() > 0 {
        let front = body.drop_last();
        lemma_additions_sure(front, base, known);
        let (args, decremented) = addition_scan(front, base).unwrap();
        assert(sure_list(front, known, false) == Some(known));
        assert(sure_list(body, known, false) == sure_instr(body.last(), known, false));
        match body.last() {
            Instr::Modify(cell, amount) => {
                assert(known_has(known, cell));
                if !(cell == base && amount == -1i8) {
                    let i = Instr::AddMultiple { target: cell, base, factor: amount };
                    assert(sure_instr(i, known, false) == Some(known));
                    lemma_sure_push(args, i, known);
                    lemma_still_more(args, i);
                    assert(addition_scan(body, base).unwrap().0 == args.push(i));
                } else {
                    assert(addition_scan(body, base).unwrap().0 == args);
                }
            },
            _ => {},
        }
    } else {
        assert(addition_scan(body, base).unwrap().0 =~= Seq::<Instr>::empty());
        assert(sure_list(Seq::<Instr>::empty(), known, false) == Some(known));
    }
}

/// An instruction that is sure is sure with its addition loops replaced.
pub proof fn lemma_recognized_instr_sure(i: Instr, a: Known, b: Known)
    requires
        known_within(a, b),
    ensures
        follows(sure_instr(i, a, false), sure_instr(recognized_instr(i), b, false)),
    decreases i, 0int,
{
    match i {
        Instr::Loop(balanced, base, body) => {
            if sure_instr(i, a, false) is Some {
                let inner = recognized(body);
                if balanced {
                    lemma_recognized_sure(body, a, b);
                    lemma_recognized_still(body);
                } else {
                    lemma_recognized_sure(body, guard_only(base), guard_only(base));
                    lemma_more_list(inner, guard_only(base), b);
                }
                match addition_scan(inner, base) {
                    Some((args, true)) => {
                        let last = Instr::SetCell(base, 0);
                        lemma_additions_sure(inner, base, b);
                        lemma_sure_push(args, last, b);
                        lemma_still_more(args, last);
                    },
                    _ => {},
                }
            }
        },
        _ => {
            lemma_more_instr(i, a, b);
        },
    }
}

/// Replacing the addition loops of a list that is sure leaves it sure.
pub proof fn lemma_recognized_sure(s: Seq<Instr>, a: Known, b: Known)
    requires
        known_within(a, b),
    ensures
        follows(sure_list(s, a, false), sure_list(recognized(s), b, false)),
    decreases s, 1int,
{
    if s.len() > 0 {
        let front = s.drop_last();
        lemma_recognized_sure(front, a, b);
        match sure_list(front, a, false) {
            Some(mid) => {
                let wide = sure_list(recognized(front), b, false).unwrap();
                lemma_recognized_instr_sure(s.last(), mid, wide);
                lemma_sure_push(recognized(front), recognized_instr(s.last()), b);
            },
            None => {},
        }
    }
}

// ---------------------------------------------------------------------------
// Checks that are covered
// ---------------------------------------------------------------------------

/// The range that the removal of covered checks knows to be checked is
/// known to the walk.
pub open spec fn range_within(range: Option<(int, int)>, known: Known) -> bool {
    match range {
        None => true,
        Some((start, length)) => known matches Some((lo, hi)) && lo <= start && start + length
            <= hi,
    }
}

/// What is left of a still list without its covered checks is still.
pub proof fn lemma_cover_still(s: Seq<Instr>, range: Option<(int, int)>)
    requires
        still(s),
    ensures
        still(cover_scan(s, range).0),
    decreases s.len(),
{
    if s.len() > 0 {
        lemma_still_parts(s);
        lemma_cover_still(s.drop_last(), range);
        let (kept, carried) = cover_scan(s.drop_last(), range);
        match s.last() {
            Instr::BoundsCheck { start, length } => {
                lemma_still_more(kept, s.last());
            },
            Instr::Loop(b, c, body) => {
                lemma_still_more(kept, Instr::Loop(b, c, cover_scan(body, carried).0));
            },
            Instr::If(b, c, body) => {
                lemma_still_more(kept, Instr::If(b, c, cover_scan(body, carried).0));
            },
            _ => {
                lemma_still_more(kept, s.last());
            },
        }
    }
}

/// An instruction that is no block, no check and no move leaves what is
/// known as it is.
pub proof fn lemma_plain_keeps(i: Instr, known: Known)
    requires
        !i.is_block(),
        !(i is BoundsCheck),
        !(i is Move),
        sure_instr(i, known, false) is Some,
    ensures
        sure_instr(i, known, false) == Some(known),
{
}

/// Removing the covered checks of a list that is sure leaves it sure, and
/// what the removal knows to be checked is known to the walk over what is
/// left.
pub proof fn lemma_cover_sure(s: Seq<Instr>, range: Option<(int, int)>, a: Known, b: Known)
    requires
        known_within(a, b),
        range_within(range, b),
    ensures
        follows(sure_list(s, a, false), sure_list(cover_scan(s, range).0, b, false)),
        sure_list(s, a, false) is Some ==> range_within(
            cover_scan(s, range).1,
            sure_list(cover_scan(s, range).0, b, false).unwrap(),
        ),
    decreases s, 1int,
{
    if s.len() > 0 {
        let front = s.drop_last();
        let i = s.last();
        lemma_cover_sure(front, range, a, b);
        match sure_list(front, a, false) {
            Some(mid) => {
                let (kept, carried) = cover_scan(front, range);
                let wide = sure_list(kept, b, false).unwrap();
                lemma_cover_step_sure(i, carried, mid, wide);
                let here = if i.moves_pointer() {
                    None
                } else {
                    carried
                };
                match i {
                    Instr::BoundsCheck { start, length } => {
                        lemma_sure_push(kept, i, b);
                    },
                    Instr::Loop(balanced, c, body) => {
                        lemma_sure_push(kept, Instr::Loop(balanced, c, cover_scan(body, here).0), b);
                    },
                    Instr::If(balanced, c, body) => {
                        lemma_sure_push(kept, Instr::If(balanced, c, cover_scan(body, here).0), b);
                    },
                    _ => {
                        lemma_sure_push(kept, i, b);
                    },
                }
            },
            None => {},
        }
    }
}

/// What the removal of covered checks makes of one instruction.
pub open spec fn cover_one(i: Instr, carried: Option<(int, int)>) -> (
    Option<Instr>,
    Option<(int, int)>,
) {
    let here = if i.moves_pointer() {
        None
    } else {
        carried
    };
    match i {
        Instr::BoundsCheck { start, length } => match here {
            Some((ks, kl)) => if covers(ks, kl, start, length) {
                (None, here)
            } else {
                (Some(i), Some(hull(ks, kl, start, length)))
            },
            None => (Some(i), Some((start, length))),
        },
        Instr::Loop(b, c, body) => (Some(Instr::Loop(b, c, cover_scan(body, here).0)), here),
        Instr::If(b, c, body) => (Some(Instr::If(b, c, cover_scan(body, here).0)), here),
        _ => (Some(i), here),
    }
}

/// One instruction that is sure, with its covered checks removed, is
/// sure; where it is a covered check itself, as much is known without it.
pub proof fn lemma_cover_step_sure(i: Instr, carried: Option<(int, int)>, a: Known, b: Known)
    requires
        known_within(a, b),
        range_within(carried, b),
    ensures
        follows(
            sure_instr(i, a, false),
            match cover_one(i, carried).0 {
                Some(left) => sure_instr(left, b, false),
                None => Some(b),
            },
        ),
        sure_instr(i, a, false) is Some ==> range_within(
            cover_one(i, carried).1,
            match cover_one(i, carried).0 {
                Some(left) => sure_instr(left, b, false).unwrap(),
                None => b,
            },
        ),
    decreases i, 0int,
{
    let here = if i.moves_pointer() {
        None
    } else {
        carried
    };
    match i {
        Instr::BoundsCheck { start, length } => {},
        Instr::Loop(balanced, c, body) => {
            if sure_instr(i, a, false) is Some {
                if balanced {
                    lemma_cover_sure(body, here, a, b);
                    lemma_cover_still(body, here);
                } else {
                    lemma_cover_sure(body, None, guard_only(c), guard_only(c));
                }
            }
        },
        Instr::If(balanced, c, body) => {
            if sure_instr(i, a, false) is Some {
                lemma_cover_sure(body, here, a, b);
                if balanced {
                    lemma_cover_still(body, here);
                }
            }
        },
        Instr::Move(d) => {},
        _ => {
            lemma_more_instr(i, a, b);
            if sure_instr(i, a, false) is Some {
                lemma_plain_keeps(i, b);
            }
        },
    }
}

/// Removing the covered checks of a program that is sure leaves it sure.
pub proof fn lemma_without_covered_sure(s: Seq<Instr>, a: Known, b: Known)
    requires
        known_within(a, b),
    ensures
        follows(sure_list(s, a, false), sure_list(without_covered(s), b, false)),
{
    lemma_cover_sure(s, None, a, b);
}

// ---------------------------------------------------------------------------
// Merged checks
// ---------------------------------------------------------------------------

/// What is known in front of the segment of a walk that merges checks, once
/// the merged check has been passed.
pub open spec fn after_pending(pending: Option<(int, int)>, known: Known) -> Known {
    match pending {
        Some((start, length)) => known_with(known, start, length),
        None => known,
    }
}

/// The walk over what a merging walk has made: over what lies before the
/// segment, then the merged check, then the segment.
pub proof fn lemma_flushed_sure(scan: MergeScan, known: Known)
    ensures
        sure_list(scan.flushed(), known, false) == match sure_list(scan.done, known, false) {
            None => None,
            Some(mid) => sure_list(scan.segment, after_pending(scan.pending, mid), false),
        },
{
    match scan.pending {
        Some((start, length)) => {
            let check = Instr::BoundsCheck { start, length };
            lemma_sure_concat(scan.done.push(check), scan.segment, known);
            lemma_sure_push(scan.done, check, known);
        },
        None => {
            lemma_sure_concat(scan.done, scan.segment, known);
        },
    }
}

/// A still list has one segment, and the merged instructions of it are
/// still.
pub proof fn lemma_merge_scan_still(s: Seq<Instr>)
    requires
        still(s),
    ensures
        merge_scan(s).done.len() == 0,
        still(merge_scan(s).segment),
    decreases s.len(),
{
    if s.len() > 0 {
        lemma_still_parts(s);
        lemma_merge_scan_still(s.drop_last());
        lemma_still_more(merge_scan(s.drop_last()).segment, merged_instr(s.last()));
    }
}

/// What is left of a still list with its checks merged is still.
pub proof fn lemma_merged_still(s: Seq<Instr>)
    requires
        still(s),
    ensures
        still(merged(s)),
{
    let scan = merge_scan(s);
    lemma_merge_scan_still(s);
    match scan.pending {
        Some((start, length)) => {
            let check = Instr::BoundsCheck { start, length };
            let head = scan.done.push(check);
            assert forall|k: int| 0 <= k < head.len() implies !(#[trigger] head[k]).moves_pointer() by {
            }
            lemma_still_join(head, scan.segment);
        },
        None => {
            lemma_still_join(scan.done, scan.segment);
        },
    }
}

/// No instruction of the list moves the pointer, and none is a check.
pub open spec fn calm(t: Seq<Instr>) -> bool {
    forall|j: int|
        0 <= j < t.len() ==> !(#[trigger] t[j]).moves_pointer() && !(t[j] is BoundsCheck)
}

/// The segment of a merging walk holds no check and nothing that moves the
/// pointer.
pub proof fn lemma_segment_calm(s: Seq<Instr>)
    ensures
        calm(merge_scan(s).segment),
    decreases s.len(),
{
    if s.len() > 0 {
        lemma_segment_calm(s.drop_last());
        let before = merge_scan(s.drop_last()).segment;
        let now = merge_scan(s).segment;
        assert forall|j: int| 0 <= j < now.len() implies !(#[trigger] now[j]).moves_pointer() && !(
        now[j] is BoundsCheck) by {
            if !s.last().moves_pointer() && !(s.last() is BoundsCheck) {
                if j < before.len() {
                    assert(now[j] == before[j]);
                } else {
                    assert(now[j] == merged_instr(s.last()));
                    match s.last() {
                        Instr::Loop(b, c, body) => {},
                        Instr::If(b, c, body) => {},
                        _ => {},
                    }
                }
            } else if !s.last().moves_pointer() {
                assert(now[j] == before[j]);
            }
        }
    }
}

/// The walk over a list without checks and moves leaves what is known as
/// it is.
pub proof fn lemma_calm_keeps(t: Seq<Instr>, known: Known)
    requires
        calm(t),
    ensures
        sure_list(t, known, false) is Some ==> sure_list(t, known, false) == Some(known),
    decreases t.len(),
{
    if t.len() > 0 {
        let front = t.drop_last();
        assert forall|j: int| 0 <= j < front.len() implies !(#[trigger] front[j]).moves_pointer() && !(
        front[j] is BoundsCheck) by {
            assert(front[j] == t[j]);
        }
        lemma_calm_keeps(front, known);
        assert(!t[t.len() - 1].moves_pointer() && !(t[t.len() - 1] is BoundsCheck));
        assert(t.last() == t[t.len() - 1]);
        if sure_list(t, known, false) is Some {
            assert(sure_list(front, known, false) == Some(known));
            assert(sure_list(t, known, false) == sure_instr(t.last(), known, false));
            match t.last() {
                Instr::Loop(balanced, c, body) => {},
                Instr::If(balanced, c, body) => {},
                Instr::Modify(c, _) => {},
                Instr::Output(c) => {},
                Instr::Input(c) => {},
                Instr::SetCell(c, _) => {},
                Instr::AddMultiple { target, base, .. } => {},
                _ => {},
            }
        }
    }
}

/// An instruction that is sure is sure with the checks of its bodies
/// merged.
pub proof fn lemma_merged_instr_sure(i: Instr, a: Known, b: Known)
    requires
        known_within(a, b),
    ensures
        follows(sure_instr(i, a, false), sure_instr(merged_instr(i), b, false)),
    decreases i, 0int,
{
    match i {
        Instr::Loop(balanced, c, body) => {
            if sure_instr(i, a, false) is Some {
                if balanced {
                    lemma_merged_sure(body, a, b);
                    lemma_merged_still(body);
                } else {
                    lemma_merged_sure(body, guard_only(c), guard_only(c));
                }
            }
        },
        Instr::If(balanced, c, body) => {
            if sure_instr(i, a, false) is Some {
                lemma_merged_sure(body, a, b);
                if balanced {
                    lemma_merged_still(body);
                }
            }
        },
        _ => {
            lemma_more_instr(i, a, b);
        },
    }
}

/// Merging the checks of a list that is sure leaves it sure.
pub proof fn lemma_merged_sure(s: Seq<Instr>, a: Known, b: Known)
    requires
        known_within(a, b),
    ensures
        follows(sure_list(s, a, false), sure_list(merged(s), b, false)),
    decreases s, 2int,
{
    lemma_merge_scan_sure(s, a, b);
}

/// What a merging walk has made of a list that is sure is sure.
pub proof fn lemma_merge_scan_sure(s: Seq<Instr>, a: Known, b: Known)
    requires
        known_within(a, b),
    ensures
        follows(sure_list(s, a, false), sure_list(merge_scan(s).flushed(), b, false)),
    decreases s, 1int,
{
    if s.len() > 0 {
        let front = s.drop_last();
        let i = s.last();
        let before = merge_scan(front);
        let scan = merge_scan(s);
        let item = merged_instr(i);
        lemma_merge_scan_sure(front, a, b);
        match sure_list(front, a, false) {
            Some(mid) => {
                let wide = sure_list(before.flushed(), b, false).unwrap();
                lemma_merged_instr_sure(i, mid, wide);
                if i.moves_pointer() {
                    assert(scan.flushed() =~= before.flushed().push(item));
                    lemma_sure_push(before.flushed(), item, b);
                } else {
                    lemma_flushed_sure(before, b);
                    lemma_flushed_sure(scan, b);
                    let base = sure_list(before.done, b, false).unwrap();
                    let narrow = after_pending(before.pending, base);
                    let broad = after_pending(scan.pending, base);
                    assert(known_within(narrow, broad));
                    lemma_more_list(before.segment, narrow, broad);
                    match i {
                        Instr::BoundsCheck { start, length } => {
                            lemma_segment_calm(front);
                            lemma_calm_keeps(before.segment, narrow);
                            lemma_calm_keeps(before.segment, broad);
                            assert(known_within(known_with(mid, start, length), broad));
                        },
                        _ => {
                            lemma_sure_push(before.segment, item, broad);
                            let reached = sure_list(before.segment, broad, false).unwrap();
                            lemma_more_instr(item, wide, reached);
                        },
                    }
                }
            },
            None => {},
        }
    }
}

// ---------------------------------------------------------------------------
// Moves folded into offsets
// ---------------------------------------------------------------------------

/// What is known, seen from `by` cells to the left.
pub open spec fn known_up(known: Known, by: int) -> Known {
    known_moved(known, -by)
}

/// A still list has no move of its own, and is still with its moves folded
/// into offsets.
pub proof fn lemma_shifted_still(s: Seq<Instr>, entry: int)
    requires
        still(s),
    ensures
        net_move(s) == 0,
        still(shifted_list(s, entry)),
        normalized(s, entry) == shifted_list(s, entry),
    decreases s.len(),
{
    if s.len() > 0 {
        lemma_still_parts(s);
        lemma_shifted_still(s.drop_last(), entry);
        lemma_still_more(
            shifted_list(s.drop_last(), entry),
            shifted(s.last(), entry + net_move(s.drop_last())),
        );
    }
}

/// An instruction that is sure is sure with an offset folded into it, seen
/// from that offset.
pub proof fn lemma_shifted_sure(i: Instr, offset: int, known: Known)
    requires
        sure_instr(i, known, false) is Some,
    ensures
        sure_instr(shifted(i, offset), known_up(known, offset), false) == Some(
            known_up(sure_instr(i, known, false).unwrap(), offset + move_amount(i)),
        ),
    decreases i, 0int,
{
    match i {
        Instr::Loop(balanced, c, body) => {
            if balanced {
                lemma_normalized_sure(body, offset, known);
                lemma_shifted_still(body, offset);
            } else {
                lemma_normalized_sure(body, offset, guard_only(c));
                assert(known_up(guard_only(c), offset) == guard_only(c + offset));
            }
        },
        Instr::If(balanced, c, body) => {
            lemma_normalized_sure(body, offset, known);
            if balanced {
                lemma_shifted_still(body, offset);
            }
        },
        Instr::Modify(c, _) => {},
        Instr::Move(d) => {},
        Instr::Output(c) => {},
        Instr::Input(c) => {},
        Instr::SetCell(c, _) => {},
        Instr::AddMultiple { target, base, .. } => {},
        Instr::BoundsCheck { start, length } => {},
    }
}

/// A list that is sure is sure with its moves folded into offsets, seen
/// from the offset that has run up.
pub proof fn lemma_shifted_list_sure(s: Seq<Instr>, entry: int, known: Known)
    requires
        sure_list(s, known, false) is Some,
    ensures
        sure_list(shifted_list(s, entry), known_up(known, entry), false) == Some(
            known_up(sure_list(s, known, false).unwrap(), entry + net_move(s)),
        ),
    decreases s, 1int,
{
    if s.len() > 0 {
        let front = s.drop_last();
        let mid = sure_list(front, known, false).unwrap();
        let offset = entry + net_move(front);
        lemma_shifted_list_sure(front, entry, known);
        lemma_shifted_sure(s.last(), offset, mid);
        lemma_sure_push(shifted_list(front, entry), shifted(s.last(), offset), known_up(known, entry));
    } else {
        assert(known_up(known, entry + 0) == known_up(known, entry));
    }
}

/// A list that is sure is sure once it is normalised, seen from the
/// offset at its entry.
pub proof fn lemma_normalized_sure(s: Seq<Instr>, entry: int, known: Known)
    requires
        sure_list(s, known, false) is Some,
    ensures
        sure_list(normalized(s, entry), known_up(known, entry), false) == Some(
            known_up(sure_list(s, known, false).unwrap(), entry),
        ),
    decreases s, 2int,
{
    let d = net_move(s);
    lemma_shifted_list_sure(s, entry, known);
    if d != 0 {
        lemma_sure_push(shifted_list(s, entry), Instr::Move(d), known_up(known, entry));
    }
}

// ---------------------------------------------------------------------------
// The schedule
// ---------------------------------------------------------------------------

/// The schedule keeps a program sure: where it can be told of a program
/// that every read and write falls on a cell that a bounds check has made
/// sure of, it can be told of the optimized program.
pub proof fn lemma_optimized_sure(s: Seq<Instr>)
    requires
        sure_list(s, None, false) is Some,
    ensures
        sure_list(checked(s), None, false) is Some,
        sure_list(optimized(s), None, false) is Some,
{
    let s1 = normalized(s, 0);
    let s2 = without_dead(s1);
    let s3 = marked(s2);
    let s4 = merged(s3);
    let s5 = without_covered(s4);
    let s6 = recognized(s5);
    let s7 = unguarded(s6);
    let s8 = merged(s7);
    let s9 = without_covered(s8);
    assert(s5 == checked(s));
    assert(s9 == optimized(s));
    lemma_normalized_sure(s, 0, None);
    assert(known_up(None, 0) == None::<(int, int)>);
    lemma_without_dead_sure(s1, None, None);
    lemma_marked_sure(s2, None, None);
    lemma_merged_sure(s3, None, None);
    lemma_without_covered_sure(s4, None, None);
    lemma_recognized_sure(s5, None, None);
    lemma_unguarded_sure(s6, None, None);
    lemma_merged_sure(s7, None, None);
    lemma_without_covered_sure(s8, None, None);
}

} // verus!
