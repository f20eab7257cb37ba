use vstd::prelude::*;
use super::ast::{expr_tree_of, Node};
use super::expr_tree::{lemma_push_parts, Instr};
use super::laws::{
    cover_fixed, cover_step, head_only, heads_only, lemma_cover_concat, lemma_cover_fixed_parts,
    lemma_cover_push, lemma_cover_twice, lemma_heads_parts, lemma_merged_heads,
    lemma_recognized_twice, lemma_scan_only_modifies, lemma_settled_stays,
};
use super::optimize::{
    addition_scan, checked, cover_scan, guard_is_dead, idle_on_zero, live, marked, marked_instr,
    merge_scan, merged, merged_instr, move_amount, net_move, normalized, optimized, recognized,
    recognized_instr, shifted, shifted_list, still, unguarded, unguarded_instr, without_covered,
    without_dead,
};

verus! {

// ---------------------------------------------------------------------------
// The shape of a program that the schedule has worked on
// ---------------------------------------------------------------------------

/// No conditional stands in the list, at any depth.
pub open spec fn if_free(s: Seq<Instr>) -> bool
    decreases s, 1int,
{
    forall|k: int| 0 <= k < s.len() ==> if_free_instr(#[trigger] s[k])
}

pub open spec fn if_free_instr(i: Instr) -> bool
    decreases i, 0int,
{
    match i {
        Instr::Loop(_, _, body) => if_free(body),
        Instr::If(_, _, _) => false,
        _ => true,
    }
}

/// The shape of one instruction: no modification or move by zero; with
/// `flags`, a loop is flagged as balanced exactly if nothing in its body
/// moves the pointer; a conditional only with `ifs`, and then one that is
/// flagged as balanced and holds nothing but additions of multiples of its
/// guard cell and clearings of it, and at least one of them.
pub open spec fn shaped_instr(i: Instr, flags: bool, ifs: bool) -> bool
    decreases i, 0int,
{
    match i {
        Instr::Modify(_, a) => a != 0,
        Instr::Move(d) => d != 0,
        Instr::Loop(b, _, body) => shaped(body, flags, ifs) && (flags ==> b == still(body)),
        Instr::If(b, c, body) => ifs && b && body.len() > 0 && guard_is_dead(body, c),
        _ => true,
    }
}

/// The shape of a list: every instruction has the shape, and a move stands
/// at the end of the list or nowhere.
pub open spec fn shaped(s: Seq<Instr>, flags: bool, ifs: bool) -> bool
    decreases s, 1int,
{
    forall|k: int|
        0 <= k < s.len() ==> shaped_instr(#[trigger] s[k], flags, ifs) && (s[k] is Move ==> k
            == s.len() - 1)
}

/// The list has the shape and no move at all.
pub open spec fn shaped_still(s: Seq<Instr>, flags: bool, ifs: bool) -> bool {
    shaped(s, flags, ifs) && forall|k: int| 0 <= k < s.len() ==> !((#[trigger] s[k]) is Move)
}

proof fn lemma_shaped_parts(s: Seq<Instr>, flags: bool, ifs: bool)
    requires
        s.len() > 0,
        shaped(s, flags, ifs),
    ensures
        shaped_still(s.drop_last(), flags, ifs),
        shaped_instr(s.last(), flags, ifs),
{
    let front = s.drop_last();
    assert forall|k: int| 0 <= k < front.len() implies shaped_instr(
        #[trigger] front[k],
        flags,
        ifs,
    ) && !(front[k] is Move) by {
        assert(front[k] == s[k]);
    }
    assert(s.last() == s[s.len() - 1]);
}

proof fn lemma_shaped_still_parts(s: Seq<Instr>, flags: bool, ifs: bool)
    requires
        s.len() > 0,
        shaped_still(s, flags, ifs),
    ensures
        shaped_still(s.drop_last(), flags, ifs),
        shaped_instr(s.last(), flags, ifs),
        !(s.last() is Move),
{
    lemma_shaped_parts(s, flags, ifs);
    assert(s.last() == s[s.len() - 1]);
}

/// A list without moves and with the shape, and an instruction with the
/// shape behind it, make a list with the shape.
proof fn lemma_shaped_push(s: Seq<Instr>, i: Instr, flags: bool, ifs: bool)
    requires
        shaped_still(s, flags, ifs),
        shaped_instr(i, flags, ifs),
    ensures
        shaped(s.push(i), flags, ifs),
        !(i is Move) ==> shaped_still(s.push(i), flags, ifs),
{
    let t = s.push(i);
    assert forall|k: int| 0 <= k < t.len() implies shaped_instr(#[trigger] t[k], flags, ifs) && (
    t[k] is Move ==> k == t.len() - 1) by {
        if k < s.len() {
            assert(t[k] == s[k]);
        }
    }
    if !(i is Move) {
        assert forall|k: int| 0 <= k < t.len() implies !((#[trigger] t[k]) is Move) by {
            if k < s.len() {
                assert(t[k] == s[k]);
            }
        }
    }
}

/// Two lists without moves and with the shape make one.
proof fn lemma_shaped_concat(a: Seq<Instr>, b: Seq<Instr>, flags: bool, ifs: bool)
    requires
        shaped_still(a, flags, ifs),
        shaped_still(b, flags, ifs),
    ensures
        shaped_still(a + b, flags, ifs),
{
    let t = a + b;
    assert forall|k: int| 0 <= k < t.len() implies shaped_instr(#[trigger] t[k], flags, ifs)
        && !(t[k] is Move) by {
        if k < a.len() {
            assert(t[k] == a[k]);
        } else {
            assert(t[k] == b[k - a.len()]);
        }
    }
}

proof fn lemma_if_free_parts(s: Seq<Instr>)
    requires
        s.len() > 0,
        if_free(s),
    ensures
        if_free(s.drop_last()),
        if_free_instr(s.last()),
{
    assert forall|k: int| 0 <= k < s.drop_last().len() implies if_free_instr(
        #[trigger] s.drop_last()[k],
    ) by {
        assert(s.drop_last()[k] == s[k]);
    }
    assert(s.last() == s[s.len() - 1]);
}

/// Two lists without conditionals make one.
proof fn lemma_if_free_concat(a: Seq<Instr>, b: Seq<Instr>)
    requires
        if_free(a),
        if_free(b),
    ensures
        if_free(a + b),
{
    assert forall|k: int| 0 <= k < (a + b).len() implies if_free_instr(#[trigger] (a + b)[k]) by {
        if k < a.len() {
            assert((a + b)[k] == a[k]);
        } else {
            assert((a + b)[k] == b[k - a.len()]);
        }
    }
}

/// The expression tree of a syntax tree holds no conditional.
pub proof fn lemma_expr_tree_if_free(nodes: Seq<Node>)
    ensures
        if_free(expr_tree_of(nodes)),
    decreases nodes, 2int,
{
    if nodes.len() > 0 {
        lemma_expr_tree_if_free(nodes.drop_last());
        let last = nodes.last();
        match last {
            Node::Loop(body) => {
                lemma_expr_tree_if_free(body);
                let inner = expr_tree_of(body).push(super::ast::current_cell_check());
                assert forall|k: int| 0 <= k < inner.len() implies if_free_instr(
                    #[trigger] inner[k],
                ) by {
                    if k < inner.len() - 1 {
                        assert(inner[k] == expr_tree_of(body)[k]);
                    }
                }
            },
            _ => {},
        }
        let items = last.instructions();
        assert forall|k: int| 0 <= k < items.len() implies if_free_instr(#[trigger] items[k]) by {
        }
        lemma_if_free_concat(expr_tree_of(nodes.drop_last()), items);
    }
}

// ---------------------------------------------------------------------------
// Normalising and removing dead instructions
// ---------------------------------------------------------------------------

/// What is left of a shifted list has the shape, and no move.
proof fn lemma_shifted_shape(s: Seq<Instr>, entry: int)
    requires
        if_free(s),
    ensures
        shaped_still(without_dead(shifted_list(s, entry)), false, false),
    decreases s, 1int,
{
    if s.len() == 0 {
    } else {
        lemma_if_free_parts(s);
        let front = s.drop_last();
        let offset = entry + net_move(front);
        lemma_shifted_shape(front, entry);
        let item = shifted(s.last(), offset);
        lemma_push_parts(shifted_list(front, entry), item);
        let before = without_dead(shifted_list(front, entry));
        match s.last() {
            Instr::Loop(b, c, body) => {
                lemma_normal_shape(body, offset);
            },
            _ => {},
        }
        match live(item) {
            Some(kept) => {
                lemma_shaped_push(before, kept, false, false);
            },
            None => {},
        }
    }
}

/// Normalising a program without conditionals and removing what is dead
/// gives a program with the shape.
pub proof fn lemma_normal_shape(s: Seq<Instr>, entry: int)
    requires
        if_free(s),
    ensures
        shaped(without_dead(normalized(s, entry)), false, false),
    decreases s, 2int,
{
    lemma_shifted_shape(s, entry);
    let d = net_move(s);
    if d != 0 {
        let list = shifted_list(s, entry);
        lemma_push_parts(list, Instr::Move(d));
        assert(live(Instr::Move(d)) == Some(Instr::Move(d)));
        assert(normalized(s, entry) == list.push(Instr::Move(d)));
        assert(without_dead(list.push(Instr::Move(d))) == without_dead(list).push(Instr::Move(d)));
        lemma_shaped_push(without_dead(list), Instr::Move(d), false, false);
    }
}

/// A list without moves has no net move.
proof fn lemma_still_net(s: Seq<Instr>)
    requires
        forall|k: int| 0 <= k < s.len() ==> !((#[trigger] s[k]) is Move),
    ensures
        net_move(s) == 0,
    decreases s.len(),
{
    if s.len() > 0 {
        assert forall|k: int| 0 <= k < s.drop_last().len() implies !((
        #[trigger] s.drop_last()[k]) is Move) by {
            assert(s.drop_last()[k] == s[k]);
        }
        lemma_still_net(s.drop_last());
        assert(s.last() == s[s.len() - 1]);
    }
}

/// Shifting by nothing a list with the shape and without moves, and
/// removing what is dead, gives the list.
proof fn lemma_shifted_fixed(s: Seq<Instr>, flags: bool)
    requires
        shaped_still(s, flags, false),
    ensures
        without_dead(shifted_list(s, 0)) == s,
    decreases s, 1int,
{
    if s.len() > 0 {
        lemma_shaped_still_parts(s, flags, false);
        let front = s.drop_last();
        lemma_shifted_fixed(front, flags);
        lemma_still_net(front);
        let item = shifted(s.last(), 0);
        lemma_push_parts(shifted_list(front, 0), item);
        match s.last() {
            Instr::Loop(b, c, body) => {
                lemma_normal_fixed(body, flags);
            },
            _ => {},
        }
        assert(live(item) == Some(s.last()));
        assert(front.push(s.last()) =~= s);
    } else {
        assert(without_dead(shifted_list(s, 0)) =~= s);
    }
}

/// Normalising a program with the shape and removing what is dead gives
/// the program.
pub proof fn lemma_normal_fixed(s: Seq<Instr>, flags: bool)
    requires
        shaped(s, flags, false),
    ensures
        without_dead(normalized(s, 0)) == s,
    decreases s, 2int,
{
    if s.len() == 0 {
        assert(without_dead(normalized(s, 0)) =~= s);
    } else {
        lemma_shaped_parts(s, flags, false);
        let front = s.drop_last();
        lemma_still_net(front);
        match s.last() {
            Instr::Move(d) => {
                // The list is a list without moves, and the move.
                lemma_shifted_fixed(front, flags);
                let shifted_front = shifted_list(front, 0);
                assert(shifted(s.last(), 0 + net_move(front)) == Instr::Move(0));
                assert(shifted_list(s, 0) == shifted_front.push(
                    shifted(s.last(), 0 + net_move(front)),
                ));
                assert(move_amount(s.last()) == d);
                assert(net_move(s) == d);
                let middle = shifted_front.push(Instr::Move(0));
                let whole = middle.push(Instr::Move(d));
                assert(normalized(s, 0) == whole);
                lemma_push_parts(middle, Instr::Move(d));
                lemma_push_parts(shifted_front, Instr::Move(0));
                assert(live(Instr::Move(0)) is None);
                assert(live(Instr::Move(d)) == Some(Instr::Move(d)));
                assert(without_dead(middle) == without_dead(shifted_front));
                assert(without_dead(whole) == without_dead(middle).push(Instr::Move(d)));
                assert(front.push(Instr::Move(d)) =~= s);
            },
            _ => {
                assert forall|k: int| 0 <= k < s.len() implies !((#[trigger] s[k]) is Move) by {
                    if k < s.len() - 1 {
                        assert(front[k] == s[k]);
                    }
                }
                lemma_still_net(s);
                lemma_shifted_fixed(s, flags);
            },
        }
    }
}

// ---------------------------------------------------------------------------
// Marking
// ---------------------------------------------------------------------------

/// Marking a program with the shape gives it exact flags.
pub proof fn lemma_marked_shape(s: Seq<Instr>)
    requires
        shaped(s, false, false),
    ensures
        shaped(marked(s), true, false),
        marked(s).len() == s.len(),
        forall|k: int| 0 <= k < s.len() ==> ((#[trigger] marked(s)[k]) is Move <==> s[k] is Move),
    decreases s, 1int,
{
    if s.len() > 0 {
        lemma_shaped_parts(s, false, false);
        let front = s.drop_last();
        lemma_marked_shape(front);
        let item = marked_instr(s.last());
        match s.last() {
            Instr::Loop(_, _, body) => lemma_marked_shape(body),
            _ => {},
        }
        let t = marked(s);
        assert forall|k: int| 0 <= k < t.len() implies shaped_instr(#[trigger] t[k], true, false)
            && (t[k] is Move ==> k == t.len() - 1) && (t[k] is Move <==> s[k] is Move) by {
            if k < front.len() {
                assert(t[k] == marked(front)[k]);
                assert(front[k] == s[k]);
                assert(shaped_instr(marked(front)[k], true, false));
            } else {
                assert(t[k] == item);
                assert(s[k] == s.last());
            }
        }
    }
}

/// Marking a program with exact flags changes nothing.
pub proof fn lemma_marked_fixed(s: Seq<Instr>)
    requires
        shaped(s, true, false),
    ensures
        marked(s) == s,
    decreases s, 1int,
{
    if s.len() > 0 {
        lemma_shaped_parts(s, true, false);
        lemma_marked_fixed(s.drop_last());
        match s.last() {
            Instr::Loop(_, _, body) => lemma_marked_fixed(body),
            _ => {},
        }
        assert(marked_instr(s.last()) == s.last());
        assert(marked(s) == marked(s.drop_last()).push(marked_instr(s.last())));
        assert(s.drop_last().push(s.last()) =~= s);
    } else {
        assert(marked(s) =~= s);
    }
}

/// A program without conditionals has none that needs no guard.
pub proof fn lemma_unguarded_fixed(s: Seq<Instr>, flags: bool)
    requires
        shaped(s, flags, false),
    ensures
        unguarded(s) == s,
    decreases s, 1int,
{
    if s.len() > 0 {
        lemma_shaped_parts(s, flags, false);
        lemma_unguarded_fixed(s.drop_last(), flags);
        match s.last() {
            Instr::Loop(_, _, body) => lemma_unguarded_fixed(body, flags),
            _ => {},
        }
        assert(unguarded_instr(s.last()) =~= seq![s.last()]);
        assert(s.drop_last() + seq![s.last()] =~= s);
    } else {
        assert(unguarded(s) =~= s);
    }
}

// ---------------------------------------------------------------------------
// Lists of which nothing moves the pointer
// ---------------------------------------------------------------------------

proof fn lemma_still_push(s: Seq<Instr>, i: Instr)
    ensures
        still(s.push(i)) == (still(s) && !i.moves_pointer()),
{
    let t = s.push(i);
    if still(t) {
        assert forall|k: int| 0 <= k < s.len() implies !(#[trigger] s[k]).moves_pointer() by {
            assert(t[k] == s[k]);
        }
        assert(t[s.len() as int] == i);
    }
    if still(s) && !i.moves_pointer() {
        assert forall|k: int| 0 <= k < t.len() implies !(#[trigger] t[k]).moves_pointer() by {
            if k < s.len() {
                assert(t[k] == s[k]);
            }
        }
    }
}

proof fn lemma_still_concat(a: Seq<Instr>, b: Seq<Instr>)
    ensures
        still(a + b) == (still(a) && still(b)),
    decreases b.len(),
{
    if b.len() == 0 {
        assert(a + b =~= a);
    } else {
        assert(a + b =~= (a + b.drop_last()).push(b.last()));
        lemma_still_concat(a, b.drop_last());
        lemma_still_push(a + b.drop_last(), b.last());
        assert(b.drop_last().push(b.last()) =~= b);
        lemma_still_push(b.drop_last(), b.last());
    }
}

// ---------------------------------------------------------------------------
// Merging keeps the shape
// ---------------------------------------------------------------------------

proof fn lemma_merged_instr_shape(i: Instr, ifs: bool)
    requires
        shaped_instr(i, true, ifs),
    ensures
        shaped_instr(merged_instr(i), true, ifs),
        merged_instr(i).moves_pointer() == i.moves_pointer(),
        merged_instr(i) is Move <==> i is Move,
        i is Loop ==> merged_instr(i) is Loop,
    decreases i, 0int,
{
    match i {
        Instr::Loop(b, c, body) => {
            lemma_merged_shape(body, ifs);
        },
        Instr::If(b, c, body) => {
            lemma_merged_flat(body, c);
        },
        _ => {},
    }
}

/// A list of additions and clearings holds no check and no block.
pub open spec fn flat(s: Seq<Instr>) -> bool {
    forall|k: int|
        0 <= k < s.len() ==> (#[trigger] s[k]) is AddMultiple || s[k] is SetCell
}

proof fn lemma_dead_guard_flat(body: Seq<Instr>, c: int)
    requires
        guard_is_dead(body, c),
    ensures
        flat(body),
{
    assert forall|k: int| 0 <= k < body.len() implies (#[trigger] body[k]) is AddMultiple
        || body[k] is SetCell by {
        assert(idle_on_zero(body[k], c));
    }
}

/// Merging leaves a list of additions and clearings as it is.
proof fn lemma_merged_flat(body: Seq<Instr>, c: int)
    requires
        guard_is_dead(body, c),
    ensures
        merged(body) == body,
{
    lemma_dead_guard_flat(body, c);
    lemma_merge_scan_flat(body);
    assert(Seq::<Instr>::empty() + body =~= body);
}

proof fn lemma_merge_scan_flat(body: Seq<Instr>)
    requires
        flat(body),
    ensures
        merge_scan(body).done == Seq::<Instr>::empty(),
        merge_scan(body).segment == body,
        merge_scan(body).pending is None,
    decreases body.len(),
{
    if body.len() > 0 {
        assert forall|k: int| 0 <= k < body.drop_last().len() implies (
        #[trigger] body.drop_last()[k]) is AddMultiple || body.drop_last()[k] is SetCell by {
            assert(body.drop_last()[k] == body[k]);
        }
        lemma_merge_scan_flat(body.drop_last());
        assert(body.last() == body[body.len() - 1]);
        assert(merged_instr(body.last()) == body.last());
        assert(!body.last().moves_pointer());
        assert(body.drop_last().push(body.last()) =~= body);
    } else {
        assert(merge_scan(body).segment =~= body);
    }
}

proof fn lemma_merge_scan_shape(s: Seq<Instr>, ifs: bool)
    requires
        shaped_still(s, true, ifs),
    ensures
        shaped_still(merge_scan(s).done, true, ifs),
        shaped_still(merge_scan(s).segment, true, ifs),
        shaped_still(merge_scan(s).flushed(), true, ifs),
        (still(merge_scan(s).done) && still(merge_scan(s).segment)) == still(s),
        still(merge_scan(s).flushed()) == still(s),
        still(merge_scan(s).segment),
    decreases s, 0int,
{
    let scan = merge_scan(s);
    if s.len() > 0 {
        lemma_shaped_still_parts(s, true, ifs);
        let front = s.drop_last();
        lemma_merge_scan_shape(front, ifs);
        lemma_merged_instr_shape(s.last(), ifs);
        let before = merge_scan(front);
        let item = merged_instr(s.last());
        assert(front.push(s.last()) =~= s);
        lemma_still_push(front, s.last());
        if s.last().moves_pointer() {
            lemma_shaped_push(before.flushed(), item, true, ifs);
            lemma_still_push(before.flushed(), item);
            assert(scan.done + scan.segment =~= scan.done);
        } else {
            lemma_shaped_push(before.segment, item, true, ifs);
            lemma_still_push(before.segment, item);
        }
    }
    match scan.pending {
        Some((start, length)) => {
            let check = Instr::BoundsCheck { start, length };
            lemma_shaped_push(scan.done, check, true, ifs);
            lemma_shaped_concat(scan.done.push(check), scan.segment, true, ifs);
            lemma_still_push(scan.done, check);
            lemma_still_concat(scan.done.push(check), scan.segment);
        },
        None => {
            lemma_shaped_concat(scan.done, scan.segment, true, ifs);
            lemma_still_concat(scan.done, scan.segment);
        },
    }
}

/// Merging the bounds checks keeps the shape, and keeps still what is still.
pub proof fn lemma_merged_shape(s: Seq<Instr>, ifs: bool)
    requires
        shaped(s, true, ifs),
    ensures
        shaped(merged(s), true, ifs),
        still(merged(s)) == still(s),
    decreases s, 1int,
{
    if s.len() == 0 {
        lemma_merge_scan_shape(s, ifs);
    } else {
        lemma_shaped_parts(s, true, ifs);
        let front = s.drop_last();
        match s.last() {
            Instr::Move(d) => {
                lemma_merge_scan_shape(front, ifs);
                let before = merge_scan(front);
                assert(merged(s) =~= before.flushed().push(s.last()));
                lemma_shaped_push(before.flushed(), s.last(), true, ifs);
                lemma_still_push(before.flushed(), s.last());
                assert(front.push(s.last()) =~= s);
                lemma_still_push(front, s.last());
            },
            _ => {
                assert forall|k: int| 0 <= k < s.len() implies !((#[trigger] s[k]) is Move) by {
                    if k < s.len() - 1 {
                        assert(front[k] == s[k]);
                    }
                }
                lemma_merge_scan_shape(s, ifs);
            },
        }
    }
}

// ---------------------------------------------------------------------------
// Removing covered checks keeps the shape
// ---------------------------------------------------------------------------

/// The walk over a list of additions and clearings keeps all of it, and
/// knows at the end what it knew.
proof fn lemma_cover_flat(body: Seq<Instr>, known: Option<(int, int)>)
    requires
        flat(body),
    ensures
        cover_scan(body, known) == (body, known),
    decreases body.len(),
{
    if body.len() > 0 {
        assert forall|k: int| 0 <= k < body.drop_last().len() implies (
        #[trigger] body.drop_last()[k]) is AddMultiple || body.drop_last()[k] is SetCell by {
            assert(body.drop_last()[k] == body[k]);
        }
        lemma_cover_flat(body.drop_last(), known);
        assert(body.last() == body[body.len() - 1]);
        assert(body.drop_last().push(body.last()) =~= body);
    } else {
        assert(cover_scan(body, known).0 =~= body);
    }
}

proof fn lemma_cover_still_shape(s: Seq<Instr>, known: Option<(int, int)>, ifs: bool)
    requires
        shaped_still(s, true, ifs),
    ensures
        shaped_still(cover_scan(s, known).0, true, ifs),
        still(cover_scan(s, known).0) == still(s),
    decreases s, 0int,
{
    if s.len() > 0 {
        lemma_shaped_still_parts(s, true, ifs);
        let front = s.drop_last();
        lemma_cover_still_shape(front, known, ifs);
        let before = cover_scan(front, known);
        let here = if s.last().moves_pointer() {
            None
        } else {
            before.1
        };
        let now = cover_scan(s, known).0;
        assert(front.push(s.last()) =~= s);
        lemma_still_push(front, s.last());
        match s.last() {
            Instr::BoundsCheck { start, length } => {
                if now != before.0 {
                    lemma_shaped_push(before.0, s.last(), true, ifs);
                    lemma_still_push(before.0, s.last());
                }
            },
            Instr::Loop(b, c, body) => {
                lemma_cover_shape(body, here, ifs);
                let item = Instr::Loop(b, c, cover_scan(body, here).0);
                lemma_shaped_push(before.0, item, true, ifs);
                lemma_still_push(before.0, item);
            },
            Instr::If(b, c, body) => {
                lemma_dead_guard_flat(body, c);
                lemma_cover_flat(body, here);
                lemma_shaped_push(before.0, s.last(), true, ifs);
                lemma_still_push(before.0, s.last());
            },
            _ => {
                lemma_shaped_push(before.0, s.last(), true, ifs);
                lemma_still_push(before.0, s.last());
            },
        }
    }
}

/// Removing the covered checks keeps the shape, and keeps still what is still.
pub proof fn lemma_cover_shape(s: Seq<Instr>, known: Option<(int, int)>, ifs: bool)
    requires
        shaped(s, true, ifs),
    ensures
        shaped(cover_scan(s, known).0, true, ifs),
        still(cover_scan(s, known).0) == still(s),
    decreases s, 1int,
{
    if s.len() == 0 {
        lemma_cover_still_shape(s, known, ifs);
    } else {
        lemma_shaped_parts(s, true, ifs);
        let front = s.drop_last();
        match s.last() {
            Instr::Move(d) => {
                lemma_cover_still_shape(front, known, ifs);
                let before = cover_scan(front, known);
                lemma_shaped_push(before.0, s.last(), true, ifs);
                lemma_still_push(before.0, s.last());
                assert(front.push(s.last()) =~= s);
                lemma_still_push(front, s.last());
            },
            _ => {
                assert forall|k: int| 0 <= k < s.len() implies !((#[trigger] s[k]) is Move) by {
                    if k < s.len() - 1 {
                        assert(front[k] == s[k]);
                    }
                }
                lemma_cover_still_shape(s, known, ifs);
            },
        }
    }
}

// ---------------------------------------------------------------------------
// Recognising additions keeps the shape
// ---------------------------------------------------------------------------

/// The additions that stand for a body are additions of multiples of the counter.
proof fn lemma_additions_dead_guard(body: Seq<Instr>, base: int)
    ensures
        addition_scan(body, base) matches Some((args, _)) ==> guard_is_dead(args, base),
    decreases body.len(),
{
    if body.len() > 0 {
        lemma_additions_dead_guard(body.drop_last(), base);
        match (addition_scan(body.drop_last(), base), addition_scan(body, base)) {
            (Some((before, _)), Some((args, _))) => {
                assert forall|k: int| 0 <= k < args.len() implies idle_on_zero(
                    #[trigger] args[k],
                    base,
                ) by {
                    if k < before.len() {
                        assert(args[k] == before[k]);
                    }
                }
            },
            _ => {},
        }
    }
}

/// The recognised list holds the recognised instructions, place by place.
pub proof fn lemma_recognized_index(s: Seq<Instr>)
    ensures
        recognized(s).len() == s.len(),
        forall|k: int| 0 <= k < s.len() ==> #[trigger] recognized(s)[k] == recognized_instr(s[k]),
    decreases s.len(),
{
    if s.len() > 0 {
        lemma_recognized_index(s.drop_last());
        assert forall|k: int| 0 <= k < s.len() implies #[trigger] recognized(s)[k]
            == recognized_instr(s[k]) by {
            if k < s.len() - 1 {
                assert(recognized(s)[k] == recognized(s.drop_last())[k]);
                assert(s.drop_last()[k] == s[k]);
            }
        }
    }
}

/// A list of modifications moves nothing.
proof fn lemma_modifies_still(s: Seq<Instr>)
    requires
        forall|k: int| 0 <= k < s.len() ==> (#[trigger] s[k]) is Modify,
    ensures
        still(s),
{
    assert forall|k: int| 0 <= k < s.len() implies !(#[trigger] s[k]).moves_pointer() by {
        assert(s[k] is Modify);
    }
}

proof fn lemma_recognized_instr_shape(i: Instr)
    requires
        shaped_instr(i, true, false),
    ensures
        shaped_instr(recognized_instr(i), true, true),
        recognized_instr(i).moves_pointer() == i.moves_pointer(),
        recognized_instr(i) is Move <==> i is Move,
        recognized_instr(i) is BoundsCheck <==> i is BoundsCheck,
        i is BoundsCheck ==> recognized_instr(i) == i,
    decreases i, 0int,
{
    match i {
        Instr::Loop(b, base, body) => {
            lemma_recognized_shape(body);
            let inner = recognized(body);
            match addition_scan(inner, base) {
                Some((args, true)) => {
                    lemma_additions_dead_guard(inner, base);
                    lemma_scan_only_modifies(inner, base);
                    lemma_modifies_still(inner);
                    let whole = args.push(Instr::SetCell(base, 0));
                    assert forall|k: int| 0 <= k < whole.len() implies idle_on_zero(
                        #[trigger] whole[k],
                        base,
                    ) by {
                        if k < args.len() {
                            assert(whole[k] == args[k]);
                        }
                    }
                },
                _ => {},
            }
        },
        _ => {},
    }
}

/// Recognising the addition loops gives the shape with conditionals, and
/// keeps still what is still.
pub proof fn lemma_recognized_shape(s: Seq<Instr>)
    requires
        shaped(s, true, false),
    ensures
        shaped(recognized(s), true, true),
        still(recognized(s)) == still(s),
    decreases s, 1int,
{
    lemma_recognized_index(s);
    let t = recognized(s);
    assert forall|k: int| 0 <= k < t.len() implies shaped_instr(#[trigger] t[k], true, true) && (
    t[k] is Move ==> k == t.len() - 1) && t[k].moves_pointer() == s[k].moves_pointer() by {
        assert(shaped_instr(s[k], true, false));
        lemma_recognized_instr_shape(s[k]);
    }
    if still(s) {
        assert forall|k: int| 0 <= k < t.len() implies !(#[trigger] t[k]).moves_pointer() by {
            assert(!s[k].moves_pointer());
        }
    }
    if still(t) {
        assert forall|k: int| 0 <= k < s.len() implies !(#[trigger] s[k]).moves_pointer() by {
            assert(!t[k].moves_pointer());
        }
    }
}

// ---------------------------------------------------------------------------
// Replacing conditionals keeps the shape
// ---------------------------------------------------------------------------

proof fn lemma_flat_shape(body: Seq<Instr>)
    requires
        flat(body),
    ensures
        shaped_still(body, true, false),
        still(body),
        heads_only(body),
        recognized(body) == body,
{
    assert forall|k: int| 0 <= k < body.len() implies shaped_instr(
        #[trigger] body[k],
        true,
        false,
    ) && !(body[k] is Move) && !body[k].moves_pointer() && head_only(body[k]) && !(
    body[k] is BoundsCheck) by {
        assert(body[k] is AddMultiple || body[k] is SetCell);
    }
    lemma_recognized_index(body);
    assert forall|k: int| 0 <= k < body.len() implies recognized(body)[k] == body[k] by {
        assert(body[k] is AddMultiple || body[k] is SetCell);
    }
    assert(recognized(body) =~= body);
}

proof fn lemma_unguarded_instr_shape(i: Instr)
    requires
        shaped_instr(i, true, true),
    ensures
        shaped(unguarded_instr(i), true, false),
        !(i is Move) ==> shaped_still(unguarded_instr(i), true, false),
        still(unguarded_instr(i)) == !i.moves_pointer(),
        unguarded_instr(i).len() > 0,
        unguarded_instr(i).last().moves_pointer() == i.moves_pointer(),
        (unguarded_instr(i)[0] is BoundsCheck) == (i is BoundsCheck),
        i is BoundsCheck ==> unguarded_instr(i) == seq![i],
    decreases i, 0int,
{
    let x = unguarded_instr(i);
    match i {
        Instr::Loop(b, c, body) => {
            lemma_unguarded_shape(body);
            let item = Instr::Loop(b, c, unguarded(body));
            assert(x == seq![item]);
            assert forall|k: int| 0 <= k < x.len() implies shaped_instr(
                #[trigger] x[k],
                true,
                false,
            ) && !(x[k] is Move) by {
                assert(x[k] == item);
            }
            lemma_still_push(Seq::empty(), item);
            assert(Seq::<Instr>::empty().push(item) =~= x);
        },
        Instr::If(b, c, body) => {
            lemma_dead_guard_flat(body, c);
            lemma_flat_shape(body);
            assert(body.last() == body[body.len() - 1]);
            assert(body[0] is AddMultiple || body[0] is SetCell);
            assert(body.last() is AddMultiple || body.last() is SetCell);
        },
        _ => {
            assert(x == seq![i]);
            assert forall|k: int| 0 <= k < x.len() implies shaped_instr(
                #[trigger] x[k],
                true,
                false,
            ) && (x[k] is Move ==> k == x.len() - 1) by {
                assert(x[k] == i);
            }
            lemma_still_push(Seq::empty(), i);
            assert(Seq::<Instr>::empty().push(i) =~= x);
        },
    }
}

proof fn lemma_unguarded_still_shape(s: Seq<Instr>)
    requires
        shaped_still(s, true, true),
    ensures
        shaped_still(unguarded(s), true, false),
        still(unguarded(s)) == still(s),
    decreases s, 0int,
{
    if s.len() > 0 {
        lemma_shaped_still_parts(s, true, true);
        let front = s.drop_last();
        lemma_unguarded_still_shape(front);
        lemma_unguarded_instr_shape(s.last());
        lemma_shaped_concat(unguarded(front), unguarded_instr(s.last()), true, false);
        lemma_still_concat(unguarded(front), unguarded_instr(s.last()));
        assert(front.push(s.last()) =~= s);
        lemma_still_push(front, s.last());
    }
}

/// Replacing the conditionals that need no guard by their bodies gives the
/// shape without conditionals, and keeps still what is still.
pub proof fn lemma_unguarded_shape(s: Seq<Instr>)
    requires
        shaped(s, true, true),
    ensures
        shaped(unguarded(s), true, false),
        still(unguarded(s)) == still(s),
    decreases s, 1int,
{
    if s.len() == 0 {
        lemma_unguarded_still_shape(s);
    } else {
        lemma_shaped_parts(s, true, true);
        let front = s.drop_last();
        match s.last() {
            Instr::Move(d) => {
                lemma_unguarded_still_shape(front);
                assert(unguarded_instr(s.last()) == seq![s.last()]);
                assert(unguarded(s) =~= unguarded(front).push(s.last()));
                lemma_shaped_push(unguarded(front), s.last(), true, false);
                lemma_still_push(unguarded(front), s.last());
                assert(front.push(s.last()) =~= s);
                lemma_still_push(front, s.last());
            },
            _ => {
                assert forall|k: int| 0 <= k < s.len() implies !((#[trigger] s[k]) is Move) by {
                    if k < s.len() - 1 {
                        assert(front[k] == s[k]);
                    }
                }
                lemma_unguarded_still_shape(s);
            },
        }
    }
}

// ---------------------------------------------------------------------------
// A settled program stays settled
// ---------------------------------------------------------------------------

/// Recognising the addition loops of a settled program leaves it settled.
proof fn lemma_recognized_settled(v: Seq<Instr>, known: Option<(int, int)>)
    requires
        shaped(v, true, false),
        cover_fixed(v, known),
        heads_only(v),
    ensures
        cover_scan(recognized(v), known) == (recognized(v), cover_scan(v, known).1),
        heads_only(recognized(v)),
    decreases v, 1int,
{
    lemma_recognized_index(v);
    let t = recognized(v);
    if v.len() == 0 {
        assert(t =~= v);
    } else {
        let front = v.drop_last();
        lemma_shaped_parts(v, true, false);
        lemma_cover_fixed_parts(v, known);
        lemma_heads_parts(v);
        lemma_recognized_settled(front, known);
        lemma_recognized_instr_shape(v.last());
        let acc = cover_scan(front, known);
        let item = recognized_instr(v.last());
        let here = if v.last().moves_pointer() {
            None
        } else {
            acc.1
        };
        lemma_cover_push(recognized(front), item, known);
        assert(cover_scan(v, known).0.last() == v.last());
        match v.last() {
            Instr::Loop(b, base, body) => {
                assert(cover_fixed(body, here));
                let inner = recognized(body);
                lemma_recognized_settled(body, here);
                match addition_scan(inner, base) {
                    Some((args, true)) => {
                        lemma_additions_dead_guard(inner, base);
                        let whole = args.push(Instr::SetCell(base, 0));
                        assert forall|k: int| 0 <= k < whole.len() implies (
                        #[trigger] whole[k]) is AddMultiple || whole[k] is SetCell by {
                            if k < args.len() {
                                assert(whole[k] == args[k]);
                                assert(idle_on_zero(args[k], base));
                            }
                        }
                        lemma_cover_flat(whole, here);
                        lemma_flat_shape(whole);
                    },
                    _ => {},
                }
            },
            _ => {},
        }
        assert(cover_step((recognized(front), acc.1), item) == (
            recognized(front).push(item),
            cover_scan(v, known).1,
        ));
        assert forall|j: int| 0 <= j < t.len() implies head_only(#[trigger] t[j]) && (
        t[j] is BoundsCheck ==> j == 0 || t[j - 1].moves_pointer()) by {
            if j < front.len() {
                assert(t[j] == recognized(front)[j]);
                if j > 0 {
                    assert(t[j - 1] == recognized(front)[j - 1]);
                }
            } else {
                assert(t[j] == item);
                if j > 0 {
                    assert(shaped_instr(v[j - 1], true, false));
                    lemma_recognized_instr_shape(v[j - 1]);
                }
            }
        }
    }
}

/// The walk over one instruction.
proof fn lemma_cover_single(i: Instr, known: Option<(int, int)>)
    ensures
        cover_scan(seq![i], known) == cover_step((Seq::empty(), known), i),
{
    lemma_cover_push(Seq::empty(), i, known);
    assert(Seq::<Instr>::empty().push(i) =~= seq![i]);
}

/// A list with its checks at the heads, and behind it a list with its
/// checks at the heads that starts with a check only where the first list
/// ends with an instruction that moves the pointer, make such a list.
proof fn lemma_heads_join(a: Seq<Instr>, b: Seq<Instr>)
    requires
        heads_only(a),
        heads_only(b),
        b.len() > 0 && b[0] is BoundsCheck ==> a.len() == 0 || a.last().moves_pointer(),
    ensures
        heads_only(a + b),
{
    let t = a + b;
    assert forall|j: int| 0 <= j < t.len() implies head_only(#[trigger] t[j]) && (
    t[j] is BoundsCheck ==> j == 0 || t[j - 1].moves_pointer()) by {
        if j < a.len() {
            assert(t[j] == a[j]);
            if j > 0 {
                assert(t[j - 1] == a[j - 1]);
            }
        } else {
            assert(t[j] == b[j - a.len()]);
            if j > a.len() {
                assert(t[j - 1] == b[j - a.len() - 1]);
            } else if j > 0 {
                assert(t[j - 1] == a[a.len() - 1]);
            }
        }
    }
}

/// Replacing the conditionals of a settled program leaves it settled.
proof fn lemma_unguarded_settled(w: Seq<Instr>, known: Option<(int, int)>)
    requires
        shaped(w, true, true),
        cover_fixed(w, known),
        heads_only(w),
    ensures
        cover_scan(unguarded(w), known) == (unguarded(w), cover_scan(w, known).1),
        heads_only(unguarded(w)),
        w.len() > 0 ==> unguarded(w).len() > 0 && unguarded(w).last().moves_pointer()
            == w.last().moves_pointer(),
    decreases w, 1int,
{
    if w.len() == 0 {
        assert(unguarded(w) =~= w);
    } else {
        let front = w.drop_last();
        lemma_shaped_parts(w, true, true);
        lemma_cover_fixed_parts(w, known);
        lemma_heads_parts(w);
        lemma_unguarded_settled(front, known);
        lemma_unguarded_instr_shape(w.last());
        let acc = cover_scan(front, known);
        let x = unguarded_instr(w.last());
        let here = if w.last().moves_pointer() {
            None
        } else {
            acc.1
        };
        lemma_cover_concat(unguarded(front), x, known);
        assert(cover_scan(w, known).0.last() == w.last());
        match w.last() {
            Instr::Loop(b, c, body) => {
                assert(cover_fixed(body, here));
                lemma_unguarded_settled(body, here);
                lemma_cover_single(Instr::Loop(b, c, unguarded(body)), acc.1);
                let item = Instr::Loop(b, c, unguarded(body));
                assert forall|j: int| 0 <= j < x.len() implies head_only(#[trigger] x[j]) && (
                x[j] is BoundsCheck ==> j == 0 || x[j - 1].moves_pointer()) by {
                    assert(x[j] == item);
                }
            },
            Instr::If(b, c, body) => {
                lemma_dead_guard_flat(body, c);
                lemma_cover_flat(body, acc.1);
                lemma_flat_shape(body);
            },
            _ => {
                lemma_cover_single(w.last(), acc.1);
                assert forall|j: int| 0 <= j < x.len() implies head_only(#[trigger] x[j]) && (
                x[j] is BoundsCheck ==> j == 0 || x[j - 1].moves_pointer()) by {
                    assert(x[j] == w.last());
                }
            },
        }
        assert(cover_scan(x, acc.1) == (x, cover_scan(w, known).1));
        if front.len() > 0 {
            assert(front.last() == w[w.len() - 2]);
        }
        lemma_heads_join(unguarded(front), x);
        assert((unguarded(front) + x).last() == x.last());
    }
}

// ---------------------------------------------------------------------------
// No addition loop comes up again
// ---------------------------------------------------------------------------

/// Recognition works instruction by instruction.
proof fn lemma_recognized_concat(a: Seq<Instr>, b: Seq<Instr>)
    ensures
        recognized(a + b) == recognized(a) + recognized(b),
{
    lemma_recognized_index(a);
    lemma_recognized_index(b);
    lemma_recognized_index(a + b);
    assert forall|k: int| 0 <= k < (a + b).len() implies recognized(a + b)[k] == (recognized(a)
        + recognized(b))[k] by {
        if k < a.len() {
            assert((a + b)[k] == a[k]);
        } else {
            assert((a + b)[k] == b[k - a.len()]);
        }
    }
    assert(recognized(a + b) =~= recognized(a) + recognized(b));
}

/// A list that recognition leaves as it is has parts that it leaves as they are.
proof fn lemma_recognized_fixed_parts(w: Seq<Instr>)
    requires
        w.len() > 0,
        recognized(w) == w,
    ensures
        recognized(w.drop_last()) == w.drop_last(),
        recognized_instr(w.last()) == w.last(),
{
    lemma_recognized_index(w);
    lemma_recognized_index(w.drop_last());
    assert forall|k: int| 0 <= k < w.drop_last().len() implies recognized(w.drop_last())[k]
        == w.drop_last()[k] by {
        assert(w.drop_last()[k] == w[k]);
        assert(recognized(w)[k] == recognized_instr(w[k]));
    }
    assert(recognized(w.drop_last()) =~= w.drop_last());
    assert(recognized(w)[w.len() - 1] == recognized_instr(w[w.len() - 1]));
}

/// Where what stands in place of a list is modifications alone, it is the list.
proof fn lemma_unguarded_modifies(body: Seq<Instr>)
    requires
        shaped(body, true, true),
        forall|k: int| 0 <= k < unguarded(body).len() ==> (#[trigger] unguarded(body)[k]) is Modify,
    ensures
        unguarded(body) == body,
    decreases body.len(),
{
    if body.len() > 0 {
        let front = body.drop_last();
        lemma_shaped_parts(body, true, true);
        let a = unguarded(front);
        let x = unguarded_instr(body.last());
        lemma_unguarded_instr_shape(body.last());
        let whole = unguarded(body);
        assert(whole == a + x);
        assert forall|k: int| 0 <= k < a.len() implies (#[trigger] a[k]) is Modify by {
            assert(whole[k] == a[k]);
            assert(whole[k] is Modify);
        }
        assert(whole[a.len() as int] == x[0]);
        assert(whole[a.len() as int] is Modify);
        assert(x[0] is Modify);
        lemma_unguarded_modifies(front);
        match body.last() {
            Instr::If(b, c, inner) => {
                lemma_dead_guard_flat(inner, c);
                assert(inner[0] is AddMultiple || inner[0] is SetCell);
            },
            _ => {},
        }
        assert(x == seq![body.last()]);
        assert(front + seq![body.last()] =~= body);
    } else {
        assert(unguarded(body) =~= body);
    }
}

/// Where recognition has left a program as it is, it leaves it as it is
/// once the conditionals are replaced.
proof fn lemma_unguarded_recognized(w: Seq<Instr>)
    requires
        shaped(w, true, true),
        recognized(w) == w,
    ensures
        recognized(unguarded(w)) == unguarded(w),
    decreases w, 1int,
{
    if w.len() == 0 {
        assert(unguarded(w) =~= w);
    } else {
        let front = w.drop_last();
        lemma_shaped_parts(w, true, true);
        lemma_recognized_fixed_parts(w);
        lemma_unguarded_recognized(front);
        let x = unguarded_instr(w.last());
        lemma_recognized_concat(unguarded(front), x);
        match w.last() {
            Instr::Loop(b, c, body) => {
                // Recognition has left the loop, so it has left the body.
                let inner = recognized(body);
                assert(recognized_instr(w.last()) == Instr::Loop(b, c, inner));
                assert(inner == body);
                lemma_unguarded_recognized(body);
                let after = unguarded(body);
                if addition_scan(after, c) matches Some((_, true)) {
                    lemma_scan_only_modifies(after, c);
                    lemma_unguarded_modifies(body);
                }
                let item = Instr::Loop(b, c, after);
                assert(recognized_instr(item) == item);
                lemma_recognized_index(seq![item]);
                assert(recognized(seq![item]) =~= seq![item]);
            },
            Instr::If(b, c, body) => {
                lemma_dead_guard_flat(body, c);
                lemma_flat_shape(body);
            },
            _ => {
                lemma_recognized_index(seq![w.last()]);
                assert(recognized_instr(w.last()) == w.last());
                assert(recognized(seq![w.last()]) =~= seq![w.last()]);
            },
        }
    }
}

// ---------------------------------------------------------------------------
// The schedule, twice
// ---------------------------------------------------------------------------

/// The schedule gives a program in the shape without conditionals, with
/// exact flags. This holds of every program without conditionals, such as
/// every program that the parser gives.
pub proof fn lemma_optimized_shape(s: Seq<Instr>)
    requires
        if_free(s),
    ensures
        shaped(optimized(s), true, false),
{
    let a = without_dead(normalized(s, 0));
    let b = marked(a);
    let v = without_covered(merged(b));
    let w = recognized(v);
    let u = unguarded(w);
    assert(v == checked(s));
    lemma_normal_shape(s, 0);
    lemma_marked_shape(a);
    lemma_merged_shape(b, false);
    lemma_cover_shape(merged(b), None, false);
    lemma_recognized_shape(v);
    lemma_unguarded_shape(w);
    lemma_merged_shape(u, false);
    lemma_cover_shape(merged(u), None, false);
}

/// Running the schedule a second time changes nothing. This holds of every
/// program without conditionals, such as every program that the parser gives.
pub proof fn lemma_optimized_twice(s: Seq<Instr>)
    requires
        if_free(s),
    ensures
        optimized(optimized(s)) == optimized(s),
{
    let a = without_dead(normalized(s, 0));
    let b = marked(a);
    let v = without_covered(merged(b));
    let w = recognized(v);
    let u = unguarded(w);
    let t = without_covered(merged(u));
    assert(v == checked(s));
    assert(t == optimized(s));
    lemma_normal_shape(s, 0);
    lemma_marked_shape(a);
    lemma_merged_shape(b, false);
    lemma_cover_shape(merged(b), None, false);
    // The first round on the checks leaves a settled program.
    lemma_cover_twice(merged(b), None);
    lemma_merged_heads(b, None);
    assert(cover_fixed(v, None));
    lemma_recognized_shape(v);
    lemma_recognized_settled(v, None);
    lemma_recognized_twice(v);
    lemma_unguarded_shape(w);
    lemma_unguarded_settled(w, None);
    lemma_unguarded_recognized(w);
    assert(cover_fixed(u, None));
    // The second round on the checks changes nothing.
    lemma_settled_stays(u, None);
    assert(t == u);
    // Nor does any pass of a second run.
    lemma_normal_fixed(t, true);
    lemma_marked_fixed(t);
    lemma_unguarded_fixed(t, true);
}

} // verus!
