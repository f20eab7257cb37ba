use vstd::prelude::*;
use super::expr_tree::{covers, hull, lemma_push_parts, Instr};
use super::optimize::{
    addition_scan, checked, cover_scan, guard_is_dead, idle_on_zero, live, marked, marked_instr,
    merge_scan, merged, merged_instr, move_amount, net_move, normalized, optimized, recognized,
    recognized_instr, shifted, shifted_list, still, unguarded, unguarded_instr, without_covered,
    without_dead, MergeScan,
};
use crate::ir::exec::wrap8;
use super::semantics::{
    agree, halts_with, lemma_agree_step, lemma_if_agrees, lemma_initial_wf, lemma_list_fuel,
    lemma_loop_agrees, lemma_run_concat, lemma_run_list_wf, lemma_run_push, lemma_run_single,
    lemma_write_same, run_instr, run_list, stands_for, State,
};

verus! {

// ---------------------------------------------------------------------------
// What it means to do the same
// ---------------------------------------------------------------------------

/// The list, started in `st`, comes to an end in `end`.
pub open spec fn ends_in(s: Seq<Instr>, st: State, end: State) -> bool {
    exists|fuel: nat| #[trigger] run_list(s, st, fuel) == Some(end)
}

/// Two lists come to an end from the same states, and then in the same
/// state: with the same tape, pointer, input left and output written. Where
/// one runs for ever, so does the other.
pub open spec fn same_runs(a: Seq<Instr>, b: Seq<Instr>) -> bool {
    forall|st: State, end: State|
        st.wf() ==> (#[trigger] ends_in(a, st, end) <==> ends_in(b, st, end))
}

/// Lists that agree step for step have the same runs.
pub proof fn lemma_agree_same_runs(a: Seq<Instr>, b: Seq<Instr>)
    requires
        agree(a, b),
    ensures
        same_runs(a, b),
{
    assert forall|st: State, end: State| st.wf() implies (#[trigger] ends_in(a, st, end)
        <==> ends_in(b, st, end)) by {
        if ends_in(a, st, end) {
            let fuel = choose|fuel: nat| #[trigger] run_list(a, st, fuel) == Some(end);
            assert(run_list(b, st, fuel) == Some(end));
        }
        if ends_in(b, st, end) {
            let fuel = choose|fuel: nat| #[trigger] run_list(b, st, fuel) == Some(end);
            assert(run_list(a, st, fuel) == Some(end));
        }
    }
}

pub proof fn lemma_same_runs_chain(a: Seq<Instr>, b: Seq<Instr>, c: Seq<Instr>)
    requires
        same_runs(a, b),
        same_runs(b, c),
    ensures
        same_runs(a, c),
{
    assert forall|st: State, end: State| st.wf() implies (#[trigger] ends_in(a, st, end)
        <==> ends_in(c, st, end)) by {
        assert(ends_in(a, st, end) <==> ends_in(b, st, end));
        assert(ends_in(b, st, end) <==> ends_in(c, st, end));
    }
}

pub proof fn lemma_agree_chain(a: Seq<Instr>, b: Seq<Instr>, c: Seq<Instr>)
    requires
        agree(a, b),
        agree(b, c),
    ensures
        agree(a, c),
{
    assert forall|st: State, fuel: nat| st.wf() implies #[trigger] run_list(a, st, fuel)
        == run_list(c, st, fuel) by {
        assert(run_list(a, st, fuel) == run_list(b, st, fuel));
        assert(run_list(b, st, fuel) == run_list(c, st, fuel));
    }
}

/// One instruction stands for itself.
proof fn lemma_stands_for_itself(i: Instr)
    ensures
        stands_for(seq![i], i),
{
    assert forall|st: State, fuel: nat| st.wf() implies #[trigger] run_list(seq![i], st, fuel)
        == run_instr(i, st, fuel) by {
        lemma_run_single(i, st, fuel);
    }
}

/// A loop stands for the loop on a body that agrees with its own.
proof fn lemma_loop_stands_for(b1: bool, b2: bool, c: int, body1: Seq<Instr>, body2: Seq<Instr>)
    requires
        agree(body1, body2),
    ensures
        stands_for(seq![Instr::Loop(b1, c, body1)], Instr::Loop(b2, c, body2)),
{
    assert forall|st: State, fuel: nat| st.wf() implies #[trigger] run_list(
        seq![Instr::Loop(b1, c, body1)],
        st,
        fuel,
    ) == run_instr(Instr::Loop(b2, c, body2), st, fuel) by {
        lemma_run_single(Instr::Loop(b1, c, body1), st, fuel);
        lemma_loop_agrees(b1, b2, c, body1, body2, st, fuel);
    }
}

/// A conditional stands for the conditional on a body that agrees with its own.
proof fn lemma_if_stands_for(b1: bool, b2: bool, c: int, body1: Seq<Instr>, body2: Seq<Instr>)
    requires
        agree(body1, body2),
    ensures
        stands_for(seq![Instr::If(b1, c, body1)], Instr::If(b2, c, body2)),
{
    assert forall|st: State, fuel: nat| st.wf() implies #[trigger] run_list(
        seq![Instr::If(b1, c, body1)],
        st,
        fuel,
    ) == run_instr(Instr::If(b2, c, body2), st, fuel) by {
        lemma_run_single(Instr::If(b1, c, body1), st, fuel);
        lemma_if_agrees(b1, b2, c, body1, body2, st, fuel);
    }
}

/// The step of an induction over a list: the front agrees, the last
/// instruction is stood for.
proof fn lemma_agree_last(whole: Seq<Instr>, front: Seq<Instr>, tail: Seq<Instr>, s: Seq<Instr>)
    requires
        s.len() > 0,
        agree(front, s.drop_last()),
        stands_for(tail, s.last()),
        whole == front + tail,
    ensures
        agree(whole, s),
{
    lemma_agree_step(front, s.drop_last(), tail, s.last());
    assert(s.drop_last().push(s.last()) =~= s);
}

// ---------------------------------------------------------------------------
// Marking balanced blocks
// ---------------------------------------------------------------------------

/// Marking the balanced blocks changes no run.
pub proof fn lemma_marked_agrees(s: Seq<Instr>)
    ensures
        agree(marked(s), s),
    decreases s, 1int,
{
    if s.len() > 0 {
        lemma_marked_agrees(s.drop_last());
        match s.last() {
            Instr::Loop(b, c, body) => {
                lemma_marked_agrees(body);
                lemma_loop_stands_for(still(marked(body)), b, c, marked(body), body);
            },
            Instr::If(b, c, body) => {
                lemma_marked_agrees(body);
                lemma_if_stands_for(still(marked(body)), b, c, marked(body), body);
            },
            _ => lemma_stands_for_itself(s.last()),
        }
        assert(marked(s) =~= marked(s.drop_last()) + seq![marked_instr(s.last())]);
        lemma_agree_last(marked(s), marked(s.drop_last()), seq![marked_instr(s.last())], s);
    }
}

// ---------------------------------------------------------------------------
// Removing dead instructions
// ---------------------------------------------------------------------------

/// What is left of an instruction, as a list.
pub open spec fn live_list(i: Instr) -> Seq<Instr> {
    match live(i) {
        Some(j) => seq![j],
        None => Seq::empty(),
    }
}

proof fn lemma_live_stands_for(i: Instr)
    ensures
        stands_for(live_list(i), i),
    decreases i, 0int,
{
    match i {
        Instr::Loop(b, c, body) => {
            lemma_without_dead_agrees(body);
            lemma_loop_stands_for(b, b, c, without_dead(body), body);
        },
        Instr::If(b, c, body) => {
            lemma_without_dead_agrees(body);
            let rest = without_dead(body);
            if rest.len() == 0 {
                assert forall|st: State, fuel: nat| st.wf() implies #[trigger] run_list(
                    live_list(i),
                    st,
                    fuel,
                ) == run_instr(i, st, fuel) by {
                    assert(run_list(rest, st, fuel) == run_list(body, st, fuel));
                }
            } else {
                lemma_if_stands_for(b, b, c, rest, body);
            }
        },
        Instr::Modify(c, a) => {
            if a == 0 {
                assert forall|st: State, fuel: nat| st.wf() implies #[trigger] run_list(
                    live_list(i),
                    st,
                    fuel,
                ) == run_instr(i, st, fuel) by {
                    lemma_write_same(st, c);
                }
            } else {
                lemma_stands_for_itself(i);
            }
        },
        Instr::Move(d) => {
            if d == 0 {
                assert forall|st: State, fuel: nat| st.wf() implies #[trigger] run_list(
                    live_list(i),
                    st,
                    fuel,
                ) == run_instr(i, st, fuel) by {
                    assert(st.moved(0) == st);
                }
            } else {
                lemma_stands_for_itself(i);
            }
        },
        _ => lemma_stands_for_itself(i),
    }
}

/// Removing dead instructions changes no run.
pub proof fn lemma_without_dead_agrees(s: Seq<Instr>)
    ensures
        agree(without_dead(s), s),
    decreases s, 1int,
{
    if s.len() > 0 {
        lemma_without_dead_agrees(s.drop_last());
        lemma_live_stands_for(s.last());
        assert(without_dead(s) =~= without_dead(s.drop_last()) + live_list(s.last()));
        lemma_agree_last(without_dead(s), without_dead(s.drop_last()), live_list(s.last()), s);
    }
}

// ---------------------------------------------------------------------------
// Merging and removing bounds checks
// ---------------------------------------------------------------------------

/// A bounds check does nothing to the state.
proof fn lemma_check_is_idle(start: int, length: int)
    ensures
        stands_for(Seq::empty(), Instr::BoundsCheck { start, length }),
{
}

impl MergeScan {
    /// What the walk has made, without the merged check.
    pub open spec fn plain(self) -> Seq<Instr> {
        self.done + self.segment
    }
}

proof fn lemma_flushed_agrees(scan: MergeScan)
    ensures
        agree(scan.flushed(), scan.plain()),
{
    match scan.pending {
        Some((start, length)) => {
            let check = Instr::BoundsCheck { start, length };
            assert forall|st: State, fuel: nat| st.wf() implies #[trigger] run_list(
                scan.flushed(),
                st,
                fuel,
            ) == run_list(scan.plain(), st, fuel) by {
                lemma_run_concat(scan.done.push(check), scan.segment, st, fuel);
                lemma_run_concat(scan.done, scan.segment, st, fuel);
                lemma_run_push(scan.done, check, st, fuel);
            }
        },
        None => {},
    }
}

proof fn lemma_merged_instr_stands_for(i: Instr)
    ensures
        stands_for(seq![merged_instr(i)], i),
    decreases i, 0int,
{
    match i {
        Instr::Loop(b, c, body) => {
            lemma_merged_agrees(body);
            lemma_loop_stands_for(b, b, c, merged(body), body);
        },
        Instr::If(b, c, body) => {
            lemma_merged_agrees(body);
            lemma_if_stands_for(b, b, c, merged(body), body);
        },
        _ => lemma_stands_for_itself(i),
    }
}

proof fn lemma_merge_scan_agrees(s: Seq<Instr>)
    ensures
        agree(merge_scan(s).plain(), s),
    decreases s, 1int,
{
    if s.len() > 0 {
        lemma_merge_scan_agrees(s.drop_last());
        lemma_merged_instr_stands_for(s.last());
        let before = merge_scan(s.drop_last());
        let item = merged_instr(s.last());
        if s.last().moves_pointer() {
            lemma_flushed_agrees(before);
            lemma_agree_chain(before.flushed(), before.plain(), s.drop_last());
            assert(merge_scan(s).plain() =~= before.flushed() + seq![item]);
            lemma_agree_last(merge_scan(s).plain(), before.flushed(), seq![item], s);
        } else {
            match s.last() {
                Instr::BoundsCheck { start, length } => {
                    lemma_check_is_idle(start, length);
                    assert(merge_scan(s).plain() =~= before.plain() + Seq::<Instr>::empty());
                    lemma_agree_last(
                        merge_scan(s).plain(),
                        before.plain(),
                        Seq::<Instr>::empty(),
                        s,
                    );
                },
                _ => {
                    assert(merge_scan(s).plain() =~= before.plain() + seq![item]);
                    lemma_agree_last(merge_scan(s).plain(), before.plain(), seq![item], s);
                },
            }
        }
    } else {
        assert(merge_scan(s).plain() =~= s);
    }
}

/// Merging the bounds checks changes no run.
pub proof fn lemma_merged_agrees(s: Seq<Instr>)
    ensures
        agree(merged(s), s),
    decreases s, 2int,
{
    lemma_merge_scan_agrees(s);
    lemma_flushed_agrees(merge_scan(s));
    lemma_agree_chain(merged(s), merge_scan(s).plain(), s);
}

/// Removing covered checks changes no run, whatever is known to be checked.
pub proof fn lemma_cover_scan_agrees(s: Seq<Instr>, known: Option<(int, int)>)
    ensures
        agree(cover_scan(s, known).0, s),
    decreases s, 1int,
{
    if s.len() > 0 {
        lemma_cover_scan_agrees(s.drop_last(), known);
        let (kept, carried) = cover_scan(s.drop_last(), known);
        let here = if s.last().moves_pointer() {
            None
        } else {
            carried
        };
        let now = cover_scan(s, known).0;
        match s.last() {
            Instr::BoundsCheck { start, length } => {
                if now == kept {
                    lemma_check_is_idle(start, length);
                    assert(now =~= kept + Seq::<Instr>::empty());
                    lemma_agree_last(now, kept, Seq::empty(), s);
                } else {
                    lemma_stands_for_itself(s.last());
                    assert(now =~= kept + seq![s.last()]);
                    lemma_agree_last(now, kept, seq![s.last()], s);
                }
            },
            Instr::Loop(b, c, body) => {
                lemma_cover_scan_agrees(body, here);
                lemma_loop_stands_for(b, b, c, cover_scan(body, here).0, body);
                let item = Instr::Loop(b, c, cover_scan(body, here).0);
                assert(now =~= kept + seq![item]);
                lemma_agree_last(now, kept, seq![item], s);
            },
            Instr::If(b, c, body) => {
                lemma_cover_scan_agrees(body, here);
                lemma_if_stands_for(b, b, c, cover_scan(body, here).0, body);
                let item = Instr::If(b, c, cover_scan(body, here).0);
                assert(now =~= kept + seq![item]);
                lemma_agree_last(now, kept, seq![item], s);
            },
            _ => {
                lemma_stands_for_itself(s.last());
                assert(now =~= kept + seq![s.last()]);
                lemma_agree_last(now, kept, seq![s.last()], s);
            },
        }
    }
}

/// Removing covered checks changes no run.
pub proof fn lemma_without_covered_agrees(s: Seq<Instr>)
    ensures
        agree(without_covered(s), s),
{
    lemma_cover_scan_agrees(s, None);
}

// ---------------------------------------------------------------------------
// Conditionals that need no guard
// ---------------------------------------------------------------------------

/// A body of instructions that are idle on a zero guard leaves a state with
/// a zero guard as it is.
proof fn lemma_idle_body(body: Seq<Instr>, con: int, st: State, fuel: nat)
    requires
        guard_is_dead(body, con),
        st.wf(),
        st.read(con) == 0,
    ensures
        run_list(body, st, fuel) == Some(st),
    decreases body.len(),
{
    if body.len() > 0 {
        assert forall|k: int| 0 <= k < body.drop_last().len() implies idle_on_zero(
            #[trigger] body.drop_last()[k],
            con,
        ) by {
            assert(body.drop_last()[k] == body[k]);
        }
        lemma_idle_body(body.drop_last(), con, st, fuel);
        assert(idle_on_zero(body[body.len() - 1], con));
        match body.last() {
            Instr::AddMultiple { target, base, factor } => {
                assert(st.read(base) * factor == 0) by (nonlinear_arith)
                    requires
                        st.read(base) == 0,
                ;
                assert(wrap8(st.read(target) + 0) == st.read(target));
                lemma_write_same(st, target);
                assert(st.apply(body.last()) == st);
            },
            Instr::SetCell(c, v) => {
                lemma_write_same(st, c);
                assert(st.apply(body.last()) == st);
            },
            _ => {},
        }
        assert(run_instr(body.last(), st, fuel) == Some(st));
    }
}

proof fn lemma_unguarded_instr_stands_for(i: Instr)
    ensures
        stands_for(unguarded_instr(i), i),
    decreases i, 0int,
{
    match i {
        Instr::Loop(b, c, body) => {
            lemma_unguarded_agrees(body);
            lemma_loop_stands_for(b, b, c, unguarded(body), body);
        },
        Instr::If(b, c, body) => {
            if guard_is_dead(body, c) {
                assert forall|st: State, fuel: nat| st.wf() implies #[trigger] run_list(
                    body,
                    st,
                    fuel,
                ) == run_instr(i, st, fuel) by {
                    if st.read(c) == 0 {
                        lemma_idle_body(body, c, st, fuel);
                    }
                }
            } else {
                lemma_unguarded_agrees(body);
                lemma_if_stands_for(b, b, c, unguarded(body), body);
            }
        },
        _ => lemma_stands_for_itself(i),
    }
}

/// Replacing conditionals that need no guard by their bodies changes no run.
pub proof fn lemma_unguarded_agrees(s: Seq<Instr>)
    ensures
        agree(unguarded(s), s),
    decreases s, 1int,
{
    if s.len() > 0 {
        lemma_unguarded_agrees(s.drop_last());
        lemma_unguarded_instr_stands_for(s.last());
        lemma_agree_last(unguarded(s), unguarded(s.drop_last()), unguarded_instr(s.last()), s);
    }
}

// ---------------------------------------------------------------------------
// Pointer normalisation
// ---------------------------------------------------------------------------

/// The end of a run, seen from a data pointer that stands `d` further.
pub open spec fn seen_from(end: Option<State>, d: int) -> Option<State> {
    match end {
        Some(x) => Some(x.moved(d)),
        None => None,
    }
}

/// A shifted instruction does at the pointer what the instruction does
/// `offset` further on; it leaves the pointer behind by the offset and by
/// the move that it has given up.
proof fn lemma_shifted_runs(i: Instr, offset: int, st: State, fuel: nat)
    ensures
        run_instr(shifted(i, offset), st, fuel) == seen_from(
            run_instr(i, st.moved(offset), fuel),
            -(offset + move_amount(i)),
        ),
    decreases fuel, i, 0int,
{
    let there = st.moved(offset);
    match i {
        Instr::Loop(b, c, body) => {
            let inner = normalized(body, offset);
            assert(st.read(c + offset) == there.read(c));
            if st.read(c + offset) == 0 {
                assert(there.moved(-offset) == st);
            } else if fuel > 0 {
                lemma_normalized_runs(body, offset, st, (fuel - 1) as nat);
                match run_list(body, there, (fuel - 1) as nat) {
                    Some(x) => {
                        let next = x.moved(-offset);
                        assert(next.moved(offset) == x);
                        lemma_shifted_runs(i, offset, next, (fuel - 1) as nat);
                    },
                    None => {},
                }
            }
        },
        Instr::If(b, c, body) => {
            assert(st.read(c + offset) == there.read(c));
            if st.read(c + offset) == 0 {
                assert(there.moved(-offset) == st);
            } else {
                lemma_normalized_runs(body, offset, st, fuel);
            }
        },
        Instr::Modify(c, a) => {
            assert(there.apply(i).moved(-offset) == st.apply(shifted(i, offset)));
        },
        Instr::Move(d) => {
            assert(there.apply(i).moved(-(offset + d)) == st);
            assert(st.apply(shifted(i, offset)) == st);
        },
        Instr::Output(c) => {
            assert(there.apply(i).moved(-offset) == st.apply(shifted(i, offset)));
        },
        Instr::Input(c) => {
            assert(there.apply(i).moved(-offset) == st.apply(shifted(i, offset)));
        },
        Instr::SetCell(c, v) => {
            assert(there.apply(i).moved(-offset) == st.apply(shifted(i, offset)));
        },
        Instr::AddMultiple { target, base, factor } => {
            assert(there.apply(i).moved(-offset) == st.apply(shifted(i, offset)));
        },
        Instr::BoundsCheck { start, length } => {
            assert(there.apply(i).moved(-offset) == st.apply(shifted(i, offset)));
        },
    }
}

proof fn lemma_shifted_list_runs(s: Seq<Instr>, entry: int, st: State, fuel: nat)
    ensures
        run_list(shifted_list(s, entry), st, fuel) == seen_from(
            run_list(s, st.moved(entry), fuel),
            -(entry + net_move(s)),
        ),
    decreases fuel, s, 1int,
{
    if s.len() == 0 {
        assert(st.moved(entry).moved(-entry) == st);
    } else {
        let front = s.drop_last();
        let offset = entry + net_move(front);
        lemma_shifted_list_runs(front, entry, st, fuel);
        lemma_run_push(shifted_list(front, entry), shifted(s.last(), offset), st, fuel);
        match run_list(front, st.moved(entry), fuel) {
            Some(x) => {
                let next = x.moved(-offset);
                assert(next.moved(offset) == x);
                lemma_shifted_runs(s.last(), offset, next, fuel);
            },
            None => {},
        }
    }
}

/// A normalised list does at the pointer what the list does `entry` further
/// on, and leaves the pointer behind by that much.
pub proof fn lemma_normalized_runs(s: Seq<Instr>, entry: int, st: State, fuel: nat)
    ensures
        run_list(normalized(s, entry), st, fuel) == seen_from(
            run_list(s, st.moved(entry), fuel),
            -entry,
        ),
    decreases fuel, s, 2int,
{
    lemma_shifted_list_runs(s, entry, st, fuel);
    let d = net_move(s);
    if d != 0 {
        lemma_run_push(shifted_list(s, entry), Instr::Move(d), st, fuel);
        match run_list(s, st.moved(entry), fuel) {
            Some(x) => {
                assert(x.moved(-(entry + d)).moved(d) == x.moved(-entry));
            },
            None => {},
        }
    }
}

/// Folding the moves into the offsets changes no run.
pub proof fn lemma_normalized_agrees(s: Seq<Instr>)
    ensures
        agree(normalized(s, 0), s),
{
    assert forall|st: State, fuel: nat| st.wf() implies #[trigger] run_list(
        normalized(s, 0),
        st,
        fuel,
    ) == run_list(s, st, fuel) by {
        lemma_normalized_runs(s, 0, st, fuel);
        assert(st.moved(0) == st);
        match run_list(s, st, fuel) {
            Some(x) => {
                assert(x.moved(0) == x);
            },
            None => {},
        }
    }
}

// ---------------------------------------------------------------------------
// Balanced blocks keep the pointer
// ---------------------------------------------------------------------------

/// Wherever the list comes to an end, the data pointer is where it was.
pub open spec fn keeps_pointer(s: Seq<Instr>) -> bool {
    forall|st: State, fuel: nat|
        (#[trigger] run_list(s, st, fuel)) matches Some(end) ==> end.pointer == st.pointer
}

/// Every block of the instruction that is flagged as balanced, at any depth,
/// has a body of which nothing moves the pointer, going by the flags.
pub open spec fn flag_holds(i: Instr) -> bool
    decreases i, 0int,
{
    match i {
        Instr::Loop(b, _, body) => (b ==> still(body)) && flags_hold(body),
        Instr::If(b, _, body) => (b ==> still(body)) && flags_hold(body),
        _ => true,
    }
}

pub open spec fn flags_hold(s: Seq<Instr>) -> bool
    decreases s, 1int,
{
    forall|k: int| 0 <= k < s.len() ==> flag_holds(#[trigger] s[k])
}

/// The body of every block of the instruction that is flagged as balanced,
/// at any depth, keeps the pointer.
pub open spec fn balanced_keeps_pointer(i: Instr) -> bool
    decreases i, 0int,
{
    match i {
        Instr::Loop(b, _, body) => (b ==> keeps_pointer(body)) && all_balanced_keep_pointer(body),
        Instr::If(b, _, body) => (b ==> keeps_pointer(body)) && all_balanced_keep_pointer(body),
        _ => true,
    }
}

pub open spec fn all_balanced_keep_pointer(s: Seq<Instr>) -> bool
    decreases s, 1int,
{
    forall|k: int| 0 <= k < s.len() ==> balanced_keeps_pointer(#[trigger] s[k])
}

proof fn lemma_still_instr_keeps(i: Instr, st: State, fuel: nat)
    requires
        !i.moves_pointer(),
        flag_holds(i),
    ensures
        run_instr(i, st, fuel) matches Some(end) ==> end.pointer == st.pointer,
    decreases fuel, i, 0int,
{
    match i {
        Instr::Loop(b, c, body) => {
            if st.read(c) != 0 && fuel > 0 {
                lemma_still_list_keeps(body, st, (fuel - 1) as nat);
                match run_list(body, st, (fuel - 1) as nat) {
                    Some(next) => lemma_still_instr_keeps(i, next, (fuel - 1) as nat),
                    None => {},
                }
            }
        },
        Instr::If(b, c, body) => {
            lemma_still_list_keeps(body, st, fuel);
        },
        _ => {},
    }
}

pub proof fn lemma_still_list_keeps(s: Seq<Instr>, st: State, fuel: nat)
    requires
        still(s),
        flags_hold(s),
    ensures
        run_list(s, st, fuel) matches Some(end) ==> end.pointer == st.pointer,
    decreases fuel, s, 1int,
{
    if s.len() > 0 {
        let front = s.drop_last();
        assert forall|k: int| 0 <= k < front.len() implies !(#[trigger] front[k]).moves_pointer()
            && flag_holds(front[k]) by {
            assert(front[k] == s[k]);
        }
        lemma_still_list_keeps(front, st, fuel);
        assert(s.last() == s[s.len() - 1]);
        match run_list(front, st, fuel) {
            Some(next) => lemma_still_instr_keeps(s.last(), next, fuel),
            None => {},
        }
    }
}

/// A list of which nothing moves the pointer, going by flags that hold,
/// keeps the pointer.
pub proof fn lemma_still_keeps_pointer(s: Seq<Instr>)
    requires
        still(s),
        flags_hold(s),
    ensures
        keeps_pointer(s),
{
    assert forall|st: State, fuel: nat|
        (#[trigger] run_list(s, st, fuel)) matches Some(end) ==> end.pointer == st.pointer by {
        lemma_still_list_keeps(s, st, fuel);
    }
}

/// Flags that hold are sound: the flagged bodies keep the pointer.
pub proof fn lemma_flags_sound(s: Seq<Instr>)
    requires
        flags_hold(s),
    ensures
        all_balanced_keep_pointer(s),
    decreases s, 1int,
{
    assert forall|k: int| 0 <= k < s.len() implies balanced_keeps_pointer(#[trigger] s[k]) by {
        lemma_flag_sound(s[k]);
    }
}

proof fn lemma_flag_sound(i: Instr)
    requires
        flag_holds(i),
    ensures
        balanced_keeps_pointer(i),
    decreases i, 0int,
{
    match i {
        Instr::Loop(b, _, body) => {
            lemma_flags_sound(body);
            if b {
                lemma_still_keeps_pointer(body);
            }
        },
        Instr::If(b, _, body) => {
            lemma_flags_sound(body);
            if b {
                lemma_still_keeps_pointer(body);
            }
        },
        _ => {},
    }
}

/// After marking, every flag holds.
pub proof fn lemma_marked_flags_hold(s: Seq<Instr>)
    ensures
        flags_hold(marked(s)),
        marked(s).len() == s.len(),
    decreases s, 1int,
{
    if s.len() > 0 {
        lemma_marked_flags_hold(s.drop_last());
        match s.last() {
            Instr::Loop(_, _, body) => lemma_marked_flags_hold(body),
            Instr::If(_, _, body) => lemma_marked_flags_hold(body),
            _ => {},
        }
        let front = marked(s.drop_last());
        let item = marked_instr(s.last());
        assert forall|k: int| 0 <= k < marked(s).len() implies flag_holds(
            #[trigger] marked(s)[k],
        ) by {
            if k < front.len() {
                assert(marked(s)[k] == front[k]);
            } else {
                assert(marked(s)[k] == item);
            }
        }
    }
}

/// Whatever `mark_balanced_blocks` flags as balanced keeps the data pointer:
/// a run of the body of such a block, from any state, ends with the pointer
/// where it was.
pub proof fn lemma_marked_is_sound(s: Seq<Instr>)
    ensures
        all_balanced_keep_pointer(marked(s)),
{
    lemma_marked_flags_hold(s);
    lemma_flags_sound(marked(s));
}

// ---------------------------------------------------------------------------
// Recognising additions twice
// ---------------------------------------------------------------------------

proof fn lemma_recognized_instr_twice(i: Instr)
    ensures
        recognized_instr(recognized_instr(i)) == recognized_instr(i),
    decreases i, 0int,
{
    match i {
        Instr::Loop(b, base, body) => {
            lemma_recognized_twice(body);
        },
        _ => {},
    }
}

/// Recognising the addition loops a second time changes nothing: the pass is
/// idempotent on every program, and so on every normalised one.
pub proof fn lemma_recognized_twice(s: Seq<Instr>)
    ensures
        recognized(recognized(s)) == recognized(s),
    decreases s, 1int,
{
    if s.len() > 0 {
        lemma_recognized_twice(s.drop_last());
        lemma_recognized_instr_twice(s.last());
        lemma_push_parts(recognized(s.drop_last()), recognized_instr(s.last()));
    }
}

// ---------------------------------------------------------------------------
// Loops that add multiples
// ---------------------------------------------------------------------------

/// The decrement by one is the only modification of the counter.
pub open spec fn only_decrement(body: Seq<Instr>, base: int) -> bool {
    forall|k: int|
        0 <= k < body.len() ==> ((#[trigger] body[k]) matches Instr::Modify(c, a) ==> (c == base
            ==> a == -1i8))
}

/// Every loop that recognition replaces modifies its counter by the
/// decrement alone. Recognition looks at the loops of the list and of the
/// bodies of loops.
pub open spec fn faithful_instr(i: Instr) -> bool
    decreases i, 0int,
{
    match i {
        Instr::Loop(_, base, body) => faithful(body) && (addition_scan(recognized(body), base)
            matches Some((_, true)) ==> only_decrement(recognized(body), base)),
        _ => true,
    }
}

pub open spec fn faithful(s: Seq<Instr>) -> bool
    decreases s, 1int,
{
    forall|k: int| 0 <= k < s.len() ==> faithful_instr(#[trigger] s[k])
}

/// The additions that stand for the modifications of the body.
pub open spec fn additions(body: Seq<Instr>, base: int) -> Seq<Instr> {
    match addition_scan(body, base) {
        Some((args, _)) => args,
        None => Seq::empty(),
    }
}

/// Whether the walk over the body has met the decrement of the counter.
pub open spec fn decrement_met(body: Seq<Instr>, base: int) -> bool {
    match addition_scan(body, base) {
        Some((_, met)) => met,
        None => false,
    }
}

/// What one turn of the body adds to the cell at offset `x`, the counter aside.
pub open spec fn gain(body: Seq<Instr>, base: int, x: int) -> int
    decreases body.len(),
{
    if body.len() == 0 {
        0
    } else {
        gain(body.drop_last(), base, x) + match body.last() {
            Instr::Modify(c, a) => if c == x && c != base {
                a as int
            } else {
                0
            },
            _ => 0,
        }
    }
}

/// The state with `times` turns of the body added to every cell but the
/// counter, which takes the value `counter`.
pub open spec fn after_turns(st: State, body: Seq<Instr>, base: int, times: int, counter: u8) -> State {
    State {
        tape: Map::new(
            |a: int| true,
            |a: int|
                if a == st.pointer + base {
                    counter
                } else {
                    wrap8(st.tape[a] + times * gain(body, base, a - st.pointer))
                },
        ),
        ..st
    }
}

proof fn lemma_wrap_twice(u: int, v: int)
    ensures
        wrap8(wrap8(u) + v) == wrap8(u + v),
{
    assert(((u % 0x100) + v) % 0x100 == (u + v) % 0x100) by {
        vstd::arithmetic::div_mod::lemma_add_mod_noop(u, v, 0x100);
        vstd::arithmetic::div_mod::lemma_mod_twice(u, 0x100);
        vstd::arithmetic::div_mod::lemma_add_mod_noop(u % 0x100, v, 0x100);
    }
    assert(0 <= u % 0x100 < 0x100);
}

/// The walk over a body succeeds on bodies of modifications alone.
pub proof fn lemma_scan_only_modifies(body: Seq<Instr>, base: int)
    requires
        addition_scan(body, base) is Some,
    ensures
        forall|k: int| 0 <= k < body.len() ==> (#[trigger] body[k]) is Modify,
        decrement_met(body, base) ==> exists|k: int|
            0 <= k < body.len() && #[trigger] body[k] == Instr::Modify(base, -1i8),
    decreases body.len(),
{
    if body.len() > 0 {
        lemma_scan_only_modifies(body.drop_last(), base);
        assert forall|k: int| 0 <= k < body.len() implies (#[trigger] body[k]) is Modify by {
            if k < body.len() - 1 {
                assert(body.drop_last()[k] == body[k]);
            }
        }
        if decrement_met(body, base) {
            if decrement_met(body.drop_last(), base) {
                let k = choose|k: int|
                    0 <= k < body.drop_last().len() && #[trigger] body.drop_last()[k]
                        == Instr::Modify(base, -1i8);
                assert(body[k] == Instr::Modify(base, -1i8));
            } else {
                assert(body[body.len() - 1] == Instr::Modify(base, -1i8));
            }
        }
    }
}

/// One turn of the body: every cell gains what the body adds to it, and the
/// counter is one less where the decrement has been met.
proof fn lemma_body_turn(body: Seq<Instr>, base: int, st: State, fuel: nat)
    requires
        addition_scan(body, base) is Some,
        only_decrement(body, base),
        st.wf(),
    ensures
        run_list(body, st, fuel) == Some(
            after_turns(
                st,
                body,
                base,
                1,
                if decrement_met(body, base) {
                    wrap8(st.read(base) - 1)
                } else {
                    st.read(base)
                },
            ),
        ),
    decreases body.len(),
{
    let decremented = decrement_met(body, base);
    let counter = if decremented {
        wrap8(st.read(base) - 1)
    } else {
        st.read(base)
    };
    if body.len() == 0 {
        assert(after_turns(st, body, base, 1, counter).tape =~= st.tape);
    } else {
        let front = body.drop_last();
        assert forall|k: int| 0 <= k < front.len() implies ((#[trigger] front[k]) matches Instr::Modify(
            c,
            a,
        ) ==> (c == base ==> a == -1i8)) by {
            assert(front[k] == body[k]);
        }
        lemma_body_turn(front, base, st, fuel);
        let before = decrement_met(front, base);
        let mid = after_turns(
            st,
            front,
            base,
            1,
            if before {
                wrap8(st.read(base) - 1)
            } else {
                st.read(base)
            },
        );
        assert(body.last() == body[body.len() - 1]);
        match body.last() {
            Instr::Modify(c, a) => {
                let end = mid.apply(body.last());
                assert(run_instr(body.last(), mid, fuel) == Some(end));
                assert forall|x: int| end.tape[x] == after_turns(
                    st,
                    body,
                    base,
                    1,
                    counter,
                ).tape[x] by {
                    if x == st.pointer + c {
                        if c == base {
                        } else {
                            lemma_wrap_twice(
                                st.tape[x] + 1 * gain(front, base, x - st.pointer),
                                a as int,
                            );
                        }
                    }
                }
                assert(end.tape =~= after_turns(st, body, base, 1, counter).tape);
            },
            _ => {},
        }
    }
}

/// The additions: every cell gains what the body adds to it, times the
/// counter, and the counter stays.
proof fn lemma_additions_run(body: Seq<Instr>, base: int, st: State, fuel: nat)
    requires
        addition_scan(body, base) is Some,
        only_decrement(body, base),
        st.wf(),
    ensures
        run_list(additions(body, base), st, fuel) == Some(
            after_turns(st, body, base, st.read(base) as int, st.read(base)),
        ),
    decreases body.len(),
{
    let n = st.read(base) as int;
    if body.len() == 0 {
        assert forall|x: int| st.tape[x] == after_turns(st, body, base, n, st.read(base)).tape[x] by {
            assert(n * gain(body, base, x - st.pointer) == 0) by (nonlinear_arith)
                requires
                    gain(body, base, x - st.pointer) == 0,
            ;
        }
        assert(after_turns(st, body, base, n, st.read(base)).tape =~= st.tape);
    } else {
        let front = body.drop_last();
        assert forall|k: int| 0 <= k < front.len() implies ((#[trigger] front[k]) matches Instr::Modify(
            c,
            a,
        ) ==> (c == base ==> a == -1i8)) by {
            assert(front[k] == body[k]);
        }
        lemma_additions_run(front, base, st, fuel);
        let mid = after_turns(st, front, base, n, st.read(base));
        let whole = after_turns(st, body, base, n, st.read(base));
        assert(body.last() == body[body.len() - 1]);
        match body.last() {
            Instr::Modify(c, a) => {
                if c == base {
                    assert forall|x: int| mid.tape[x] == whole.tape[x] by {
                    }
                    assert(mid.tape =~= whole.tape);
                } else {
                    let add = Instr::AddMultiple { target: c, base, factor: a };
                    let args = additions(front, base);
                    lemma_run_push(args, add, st, fuel);
                    let end = mid.apply(add);
                    assert(mid.read(base) == st.read(base));
                    assert forall|x: int| end.tape[x] == whole.tape[x] by {
                        if x == st.pointer + c {
                            let g = gain(front, base, x - st.pointer);
                            lemma_wrap_twice(st.tape[x] + n * g, n * a);
                            assert(n * g + n * a == n * (g + a)) by (nonlinear_arith);
                        }
                    }
                    assert(end.tape =~= whole.tape);
                }
            },
            _ => {},
        }
    }
}

/// The state at the end of a loop that only adds multiples: every cell has
/// gained what the body adds to it, times what the counter held, and the
/// counter holds zero.
pub open spec fn loop_end(st: State, body: Seq<Instr>, base: int) -> State {
    after_turns(st, body, base, st.read(base) as int, 0)
}

/// A loop that only adds multiples comes to its end within as much fuel as
/// its counter holds, and not within less.
proof fn lemma_addition_loop(b: bool, body: Seq<Instr>, base: int, st: State, fuel: nat)
    requires
        addition_scan(body, base) matches Some((_, true)),
        only_decrement(body, base),
        st.wf(),
    ensures
        fuel >= st.read(base) ==> run_instr(Instr::Loop(b, base, body), st, fuel) == Some(
            loop_end(st, body, base),
        ),
        fuel < st.read(base) ==> run_instr(Instr::Loop(b, base, body), st, fuel) is None,
    decreases fuel,
{
    let n = st.read(base) as int;
    if n == 0 {
        assert forall|x: int| st.tape[x] == loop_end(st, body, base).tape[x] by {
            assert(0 * gain(body, base, x - st.pointer) == 0) by (nonlinear_arith);
        }
        assert(loop_end(st, body, base).tape =~= st.tape);
    } else if fuel > 0 {
        lemma_body_turn(body, base, st, (fuel - 1) as nat);
        let next = after_turns(st, body, base, 1, wrap8(n - 1));
        assert(next.wf());
        assert(next.read(base) == n - 1);
        lemma_addition_loop(b, body, base, next, (fuel - 1) as nat);
        if fuel >= n {
            let end = loop_end(next, body, base);
            let whole = loop_end(st, body, base);
            assert forall|x: int| end.tape[x] == whole.tape[x] by {
                if x != st.pointer + base {
                    let g = gain(body, base, x - st.pointer);
                    lemma_wrap_twice(st.tape[x] + 1 * g, (n - 1) * g);
                    assert(1 * g + (n - 1) * g == n * g) by (nonlinear_arith);
                }
            }
            assert(end.tape =~= whole.tape);
        }
    }
}

/// The conditional that stands for a loop that only adds multiples comes to
/// the same end, with any fuel.
proof fn lemma_addition_if(body: Seq<Instr>, base: int, st: State, fuel: nat)
    requires
        addition_scan(body, base) matches Some((_, true)),
        only_decrement(body, base),
        st.wf(),
    ensures
        run_instr(
            Instr::If(true, base, additions(body, base).push(Instr::SetCell(base, 0))),
            st,
            fuel,
        ) == Some(loop_end(st, body, base)),
{
    let n = st.read(base) as int;
    let args = additions(body, base);
    if n == 0 {
        assert forall|x: int| st.tape[x] == loop_end(st, body, base).tape[x] by {
            assert(0 * gain(body, base, x - st.pointer) == 0) by (nonlinear_arith);
        }
        assert(loop_end(st, body, base).tape =~= st.tape);
    } else {
        lemma_additions_run(body, base, st, fuel);
        lemma_run_push(args, Instr::SetCell(base, 0), st, fuel);
        let mid = after_turns(st, body, base, n, st.read(base));
        let end = mid.apply(Instr::SetCell(base, 0));
        assert(end.tape =~= loop_end(st, body, base).tape);
    }
}

/// Where recognition finds a loop that only adds multiples, it has left the
/// body as it was.
pub proof fn lemma_recognized_modifies(body: Seq<Instr>, base: int)
    requires
        addition_scan(recognized(body), base) is Some,
    ensures
        recognized(body) == body,
    decreases body.len(),
{
    lemma_recognized_len(body);
    if body.len() > 0 {
        let front = body.drop_last();
        lemma_push_parts(recognized(front), recognized_instr(body.last()));
        lemma_recognized_modifies(front, base);
        lemma_scan_only_modifies(recognized(body), base);
        assert(recognized(body)[body.len() - 1] is Modify);
        assert(recognized(body) =~= body);
    }
}

pub proof fn lemma_recognized_len(s: Seq<Instr>)
    ensures
        recognized(s).len() == s.len(),
    decreases s.len(),
{
    if s.len() > 0 {
        lemma_recognized_len(s.drop_last());
    }
}

proof fn lemma_faithful_parts(s: Seq<Instr>)
    requires
        s.len() > 0,
        faithful(s),
    ensures
        faithful(s.drop_last()),
        faithful_instr(s.last()),
{
    assert forall|k: int| 0 <= k < s.drop_last().len() implies faithful_instr(
        #[trigger] s.drop_last()[k],
    ) by {
        assert(s.drop_last()[k] == s[k]);
    }
    assert(s.last() == s[s.len() - 1]);
}

/// What an instruction does, its recognised form does with the same fuel.
proof fn lemma_recognized_instr_follows(i: Instr, st: State, fuel: nat)
    requires
        faithful_instr(i),
        st.wf(),
        run_instr(i, st, fuel) is Some,
    ensures
        run_instr(recognized_instr(i), st, fuel) == run_instr(i, st, fuel),
    decreases fuel, i, 0int,
{
    match i {
        Instr::Loop(b, base, body) => {
            let inner = recognized(body);
            match addition_scan(inner, base) {
                Some((args, true)) => {
                    lemma_recognized_modifies(body, base);
                    lemma_addition_loop(b, body, base, st, fuel);
                    lemma_addition_if(body, base, st, fuel);
                },
                _ => {
                    if st.read(base) != 0 {
                        let next = run_list(body, st, (fuel - 1) as nat)->0;
                        lemma_recognized_follows(body, st, (fuel - 1) as nat);
                        lemma_run_list_wf(body, st, (fuel - 1) as nat);
                        lemma_recognized_instr_follows(i, next, (fuel - 1) as nat);
                    }
                },
            }
        },
        _ => {},
    }
}

proof fn lemma_recognized_follows(s: Seq<Instr>, st: State, fuel: nat)
    requires
        faithful(s),
        st.wf(),
        run_list(s, st, fuel) is Some,
    ensures
        run_list(recognized(s), st, fuel) == run_list(s, st, fuel),
    decreases fuel, s, 1int,
{
    if s.len() > 0 {
        lemma_faithful_parts(s);
        lemma_recognized_follows(s.drop_last(), st, fuel);
        lemma_run_push(recognized(s.drop_last()), recognized_instr(s.last()), st, fuel);
        let next = run_list(s.drop_last(), st, fuel)->0;
        lemma_run_list_wf(s.drop_last(), st, fuel);
        lemma_recognized_instr_follows(s.last(), next, fuel);
    }
}

/// What the recognised form of an instruction does, the instruction does
/// with as much fuel more as a counter can hold.
proof fn lemma_recognized_instr_leads(i: Instr, st: State, fuel: nat)
    requires
        faithful_instr(i),
        st.wf(),
        run_instr(recognized_instr(i), st, fuel) is Some,
    ensures
        run_instr(i, st, fuel + 255) == run_instr(recognized_instr(i), st, fuel),
    decreases fuel, i, 0int,
{
    match i {
        Instr::Loop(b, base, body) => {
            let inner = recognized(body);
            match addition_scan(inner, base) {
                Some((args, true)) => {
                    lemma_recognized_modifies(body, base);
                    lemma_addition_loop(b, body, base, st, fuel + 255);
                    lemma_addition_if(body, base, st, fuel);
                },
                _ => {
                    if st.read(base) != 0 {
                        let next = run_list(inner, st, (fuel - 1) as nat)->0;
                        lemma_recognized_leads(body, st, (fuel - 1) as nat);
                        lemma_run_list_wf(inner, st, (fuel - 1) as nat);
                        lemma_recognized_instr_leads(i, next, (fuel - 1) as nat);
                        assert(((fuel - 1) as nat) + 255 == ((fuel + 255) - 1) as nat);
                    }
                },
            }
        },
        Instr::If(b, c, body) => {
            if st.read(c) != 0 {
                lemma_list_fuel(body, st, fuel, fuel + 255);
            }
        },
        _ => {},
    }
}

proof fn lemma_recognized_leads(s: Seq<Instr>, st: State, fuel: nat)
    requires
        faithful(s),
        st.wf(),
        run_list(recognized(s), st, fuel) is Some,
    ensures
        run_list(s, st, fuel + 255) == run_list(recognized(s), st, fuel),
    decreases fuel, s, 1int,
{
    if s.len() > 0 {
        lemma_faithful_parts(s);
        lemma_run_push(recognized(s.drop_last()), recognized_instr(s.last()), st, fuel);
        lemma_recognized_leads(s.drop_last(), st, fuel);
        let next = run_list(recognized(s.drop_last()), st, fuel)->0;
        lemma_run_list_wf(recognized(s.drop_last()), st, fuel);
        lemma_recognized_instr_leads(s.last(), next, fuel);
    }
}

/// Replacing the loops that only add multiples leaves every run as it is,
/// provided that such a loop modifies its counter by its decrement alone.
pub proof fn lemma_recognized_same_runs(s: Seq<Instr>)
    requires
        faithful(s),
    ensures
        same_runs(recognized(s), s),
{
    assert forall|st: State, end: State| st.wf() implies (#[trigger] ends_in(
        recognized(s),
        st,
        end,
    ) <==> ends_in(s, st, end)) by {
        if ends_in(recognized(s), st, end) {
            let fuel = choose|fuel: nat| #[trigger] run_list(recognized(s), st, fuel) == Some(end);
            lemma_recognized_leads(s, st, fuel);
            assert(run_list(s, st, fuel + 255) == Some(end));
        }
        if ends_in(s, st, end) {
            let fuel = choose|fuel: nat| #[trigger] run_list(s, st, fuel) == Some(end);
            lemma_recognized_follows(s, st, fuel);
            assert(run_list(recognized(s), st, fuel) == Some(end));
        }
    }
}

// ---------------------------------------------------------------------------
// The schedule
// ---------------------------------------------------------------------------

/// The passes up to the first removal of covered checks change no run.
pub proof fn lemma_checked_agrees(s: Seq<Instr>)
    ensures
        agree(checked(s), s),
{
    let s1 = normalized(s, 0);
    let s2 = without_dead(s1);
    let s3 = marked(s2);
    let s4 = merged(s3);
    let s5 = without_covered(s4);
    lemma_normalized_agrees(s);
    lemma_without_dead_agrees(s1);
    lemma_marked_agrees(s2);
    lemma_merged_agrees(s3);
    lemma_without_covered_agrees(s4);
    lemma_agree_chain(s5, s4, s3);
    lemma_agree_chain(s5, s3, s2);
    lemma_agree_chain(s5, s2, s1);
    lemma_agree_chain(s5, s1, s);
}

/// The optimized program does what the program does: started in the same
/// state, the two come to an end in the same state, with the same output
/// written, or neither comes to an end. This holds of every program in which
/// each loop that is replaced by additions modifies its counter by its
/// decrement alone.
pub proof fn lemma_optimized_same_runs(s: Seq<Instr>)
    requires
        faithful(checked(s)),
    ensures
        same_runs(optimized(s), s),
        forall|input: Seq<u8>, output: Seq<u8>|
            halts_with(optimized(s), input, output) <==> halts_with(s, input, output),
{
    let s5 = checked(s);
    let s6 = recognized(s5);
    let s7 = unguarded(s6);
    let s8 = merged(s7);
    let s9 = without_covered(s8);
    lemma_checked_agrees(s);
    lemma_recognized_same_runs(s5);
    lemma_unguarded_agrees(s6);
    lemma_merged_agrees(s7);
    lemma_without_covered_agrees(s8);
    lemma_agree_chain(s9, s8, s7);
    lemma_agree_chain(s9, s7, s6);
    lemma_agree_same_runs(s9, s6);
    lemma_agree_same_runs(s5, s);
    lemma_same_runs_chain(s9, s6, s5);
    lemma_same_runs_chain(s9, s5, s);
    assert forall|input: Seq<u8>, output: Seq<u8>|
        halts_with(optimized(s), input, output) <==> halts_with(s, input, output) by {
        if halts_with(optimized(s), input, output) {
            lemma_same_runs_halts(optimized(s), s, input, output);
        }
        if halts_with(s, input, output) {
            lemma_same_runs_halts(s, optimized(s), input, output);
        }
    }
}

proof fn lemma_same_runs_halts(a: Seq<Instr>, b: Seq<Instr>, input: Seq<u8>, output: Seq<u8>)
    requires
        same_runs(a, b) || same_runs(b, a),
        halts_with(a, input, output),
    ensures
        halts_with(b, input, output),
{
    let st = State::initial(input);
    lemma_initial_wf(input);
    let fuel = choose|fuel: nat|
        (#[trigger] run_list(a, st, fuel)) matches Some(end) && end.output == output;
    let end = run_list(a, st, fuel).unwrap();
    assert(ends_in(a, st, end));
    if same_runs(a, b) {
        assert(ends_in(a, st, end) <==> ends_in(b, st, end));
    } else {
        assert(ends_in(b, st, end) <==> ends_in(a, st, end));
    }
    let other = choose|other: nat| #[trigger] run_list(b, st, other) == Some(end);
    assert(run_list(b, st, other) matches Some(e) && e.output == output);
}

// ---------------------------------------------------------------------------
// Merging and removing checks settles at once
// ---------------------------------------------------------------------------

/// What is known to be checked covers the range.
pub open spec fn known_covers(known: Option<(int, int)>, start: int, length: int) -> bool {
    known matches Some((ks, kl)) && covers(ks, kl, start, length)
}

/// One step of the walk that removes covered checks.
pub open spec fn cover_step(acc: (Seq<Instr>, Option<(int, int)>), i: Instr) -> (
    Seq<Instr>,
    Option<(int, int)>,
) {
    let (kept, carried) = acc;
    let here = if i.moves_pointer() {
        None
    } else {
        carried
    };
    match i {
        Instr::BoundsCheck { start, length } => match here {
            Some((ks, kl)) => if covers(ks, kl, start, length) {
                (kept, here)
            } else {
                (kept.push(i), Some(hull(ks, kl, start, length)))
            },
            None => (kept.push(i), Some((start, length))),
        },
        Instr::Loop(b, c, body) => (kept.push(Instr::Loop(b, c, cover_scan(body, here).0)), here),
        Instr::If(b, c, body) => (kept.push(Instr::If(b, c, cover_scan(body, here).0)), here),
        _ => (kept.push(i), here),
    }
}

pub proof fn lemma_cover_push(u: Seq<Instr>, i: Instr, known: Option<(int, int)>)
    ensures
        cover_scan(u.push(i), known) == cover_step(cover_scan(u, known), i),
{
    lemma_push_parts(u, i);
}

pub proof fn lemma_cover_len(u: Seq<Instr>, known: Option<(int, int)>)
    ensures
        cover_scan(u, known).0.len() <= u.len(),
    decreases u.len(),
{
    if u.len() > 0 {
        lemma_cover_len(u.drop_last(), known);
    }
}

/// Walking two lists one after the other.
pub proof fn lemma_cover_concat(a: Seq<Instr>, b: Seq<Instr>, known: Option<(int, int)>)
    ensures
        cover_scan(a + b, known) == (
            cover_scan(a, known).0 + cover_scan(b, cover_scan(a, known).1).0,
            cover_scan(b, cover_scan(a, known).1).1,
        ),
    decreases b.len(),
{
    let first = cover_scan(a, known);
    if b.len() == 0 {
        assert(a + b =~= a);
        assert(first.0 + cover_scan(b, first.1).0 =~= first.0);
    } else {
        let front = b.drop_last();
        assert((a + b).drop_last() =~= a + front);
        assert((a + b).last() == b.last());
        lemma_cover_concat(a, front, known);
        let second = cover_scan(front, first.1);
        let whole = cover_step((first.0 + second.0, second.1), b.last());
        let tail = cover_step(second, b.last());
        assert(whole.0 =~= first.0 + tail.0);
    }
}

/// A list that the walk leaves as it is.
pub open spec fn cover_fixed(t: Seq<Instr>, known: Option<(int, int)>) -> bool {
    cover_scan(t, known).0 == t
}

/// What the walk has kept, it keeps.
pub proof fn lemma_cover_twice(u: Seq<Instr>, known: Option<(int, int)>)
    ensures
        cover_scan(cover_scan(u, known).0, known) == cover_scan(u, known),
    decreases u, 0int,
{
    if u.len() > 0 {
        let front = u.drop_last();
        lemma_cover_twice(front, known);
        let before = cover_scan(front, known);
        let here = if u.last().moves_pointer() {
            None
        } else {
            before.1
        };
        let now = cover_scan(u, known);
        match u.last() {
            Instr::BoundsCheck { start, length } => {
                if now.0 != before.0 {
                    lemma_cover_push(before.0, u.last(), known);
                }
            },
            Instr::Loop(b, c, body) => {
                lemma_cover_twice(body, here);
                lemma_cover_push(before.0, Instr::Loop(b, c, cover_scan(body, here).0), known);
            },
            Instr::If(b, c, body) => {
                lemma_cover_twice(body, here);
                lemma_cover_push(before.0, Instr::If(b, c, cover_scan(body, here).0), known);
            },
            _ => {
                lemma_cover_push(before.0, u.last(), known);
            },
        }
    }
}

/// A list that the walk leaves as it is has a front that the walk leaves as
/// it is, and a last instruction that the walk keeps.
pub proof fn lemma_cover_fixed_parts(t: Seq<Instr>, known: Option<(int, int)>)
    requires
        t.len() > 0,
        cover_fixed(t, known),
    ensures
        cover_fixed(t.drop_last(), known),
        cover_scan(t, known).0 == cover_scan(t.drop_last(), known).0.push(t.last()),
{
    let front = t.drop_last();
    lemma_cover_len(front, known);
    let before = cover_scan(front, known);
    let now = cover_scan(t, known);
    assert(now.0.len() == t.len());
    assert(now.0.len() == before.0.len() + 1);
    assert(now.0.drop_last() =~= before.0);
    assert(now.0.last() == t.last());
    assert(now.0 =~= before.0.push(t.last()));
}

/// Every check that stands directly in the list stands at the head of its
/// straight run, and likewise in every body.
pub open spec fn heads_only(t: Seq<Instr>) -> bool
    decreases t, 1int,
{
    forall|j: int|
        0 <= j < t.len() ==> head_only(#[trigger] t[j]) && (t[j] is BoundsCheck ==> j == 0 || t[j
            - 1].moves_pointer())
}

pub open spec fn head_only(i: Instr) -> bool
    decreases i, 0int,
{
    match i {
        Instr::Loop(_, _, body) => heads_only(body),
        Instr::If(_, _, body) => heads_only(body),
        _ => true,
    }
}

pub proof fn lemma_heads_parts(t: Seq<Instr>)
    requires
        t.len() > 0,
        heads_only(t),
    ensures
        heads_only(t.drop_last()),
        head_only(t.last()),
        t.last() is BoundsCheck ==> t.len() == 1 || t[t.len() - 2].moves_pointer(),
{
    let front = t.drop_last();
    assert forall|j: int| 0 <= j < front.len() implies head_only(#[trigger] front[j]) && (
    front[j] is BoundsCheck ==> j == 0 || front[j - 1].moves_pointer()) by {
        assert(front[j] == t[j]);
        if j > 0 {
            assert(front[j - 1] == t[j - 1]);
        }
    }
    assert(head_only(t[t.len() - 1]));
}

/// The walk that merges stands at the head of a straight run behind an
/// instruction that moves the pointer.
proof fn lemma_merge_scan_after_barrier(s: Seq<Instr>)
    requires
        s.len() == 0 || s.last().moves_pointer(),
    ensures
        merge_scan(s).segment == Seq::<Instr>::empty(),
        merge_scan(s).pending is None,
        merge_scan(s).flushed() == merge_scan(s).done,
{
    assert(merge_scan(s).done + Seq::<Instr>::empty() =~= merge_scan(s).done);
}

/// Merging and then removing leaves a settled list as the removing alone
/// leaves it: as it is.
pub proof fn lemma_settled_stays(t: Seq<Instr>, known: Option<(int, int)>)
    requires
        cover_fixed(t, known),
        heads_only(t),
    ensures
        cover_scan(merged(t), known) == cover_scan(t, known),
    decreases t, 1int,
{
    let scan = merge_scan(t);
    if t.len() == 0 {
        assert(scan.flushed() =~= t);
    } else {
        let front = t.drop_last();
        lemma_cover_fixed_parts(t, known);
        lemma_heads_parts(t);
        lemma_settled_stays(front, known);
        let before = merge_scan(front);
        let item = merged_instr(t.last());
        let acc = cover_scan(front, known);
        let here = if t.last().moves_pointer() {
            None
        } else {
            acc.1
        };
        // The walk does to the merged instruction what it does to the instruction.
        match t.last() {
            Instr::Loop(b, c, body) => {
                assert(cover_scan(t, known).0.last() == t.last());
                assert(cover_fixed(body, here));
                lemma_settled_stays(body, here);
            },
            Instr::If(b, c, body) => {
                assert(cover_scan(t, known).0.last() == t.last());
                assert(cover_fixed(body, here));
                lemma_settled_stays(body, here);
            },
            _ => {},
        }
        assert(cover_step(acc, item) == cover_step(acc, t.last()));
        if t.last().moves_pointer() {
            assert(scan.flushed() =~= before.flushed().push(item));
            lemma_cover_push(before.flushed(), item, known);
        } else if t.last() is BoundsCheck {
            if front.len() > 0 {
                assert(front.last() == t[t.len() - 2]);
            }
            lemma_merge_scan_after_barrier(front);
            let check = t.last();
            assert(scan.flushed() =~= before.done.push(check));
            lemma_cover_push(before.done, check, known);
        } else {
            assert(scan.flushed() =~= before.flushed().push(item));
            lemma_cover_push(before.flushed(), item, known);
        }
    }
}

/// No check stands directly in the list.
pub open spec fn no_checks(t: Seq<Instr>) -> bool {
    forall|j: int| 0 <= j < t.len() ==> !((#[trigger] t[j]) is BoundsCheck)
}

/// No instruction of the list moves the pointer, and every check that stands
/// directly in it lies within the range.
pub open spec fn run_within(t: Seq<Instr>, range: Option<(int, int)>) -> bool {
    forall|j: int|
        0 <= j < t.len() ==> !(#[trigger] t[j]).moves_pointer() && (t[j] matches Instr::BoundsCheck {
            start,
            length,
        } ==> known_covers(range, start, length))
}

/// The walk over a straight run of which every check is known to be checked
/// keeps no check, and knows at the end what it knew.
proof fn lemma_cover_run(t: Seq<Instr>, range: Option<(int, int)>, known: Option<(int, int)>)
    requires
        run_within(t, range),
        range matches Some((s, l)) ==> known_covers(known, s, l),
    ensures
        no_checks(cover_scan(t, known).0),
        cover_scan(t, known).1 == known,
        forall|j: int|
            0 <= j < cover_scan(t, known).0.len() ==> !(#[trigger] cover_scan(
                t,
                known,
            ).0[j]).moves_pointer(),
    decreases t.len(),
{
    if t.len() > 0 {
        let front = t.drop_last();
        assert forall|j: int| 0 <= j < front.len() implies !(#[trigger] front[j]).moves_pointer()
            && (front[j] matches Instr::BoundsCheck { start, length } ==> known_covers(
            range,
            start,
            length,
        )) by {
            assert(front[j] == t[j]);
        }
        lemma_cover_run(front, range, known);
        assert(t.last() == t[t.len() - 1]);
        let before = cover_scan(front, known).0;
        let now = cover_scan(t, known).0;
        assert forall|j: int| 0 <= j < now.len() implies !((#[trigger] now[j]) is BoundsCheck)
            && !now[j].moves_pointer() by {
            if j < before.len() {
                assert(now[j] == before[j]);
            }
        }
    }
}

/// What the walk that merges holds as its segment is a straight run within
/// the pending range.
proof fn lemma_segment_within(s: Seq<Instr>)
    ensures
        run_within(merge_scan(s).segment, merge_scan(s).pending),
    decreases s.len(),
{
    if s.len() > 0 {
        lemma_segment_within(s.drop_last());
        let before = merge_scan(s.drop_last());
        let now = merge_scan(s);
        if !s.last().moves_pointer() {
            assert forall|j: int| 0 <= j < now.segment.len() implies !(
            #[trigger] now.segment[j]).moves_pointer() && (
            now.segment[j] matches Instr::BoundsCheck { start, length } ==> known_covers(
                now.pending,
                start,
                length,
            )) by {
                if j < before.segment.len() {
                    assert(now.segment[j] == before.segment[j]);
                    match before.segment[j] {
                        Instr::BoundsCheck { start, length } => {
                            assert(known_covers(before.pending, start, length));
                        },
                        _ => {},
                    }
                } else {
                    assert(now.segment[j] == merged_instr(s.last()));
                }
            }
        }
    }
}

/// A list with a straight run without checks behind it has its checks at
/// the heads where the list has.
proof fn lemma_heads_concat(a: Seq<Instr>, b: Seq<Instr>)
    requires
        heads_only(a),
        no_checks(b),
        forall|j: int| 0 <= j < b.len() ==> head_only(#[trigger] b[j]),
    ensures
        heads_only(a + b),
{
    let t = a + b;
    assert forall|j: int| 0 <= j < t.len() implies head_only(#[trigger] t[j]) && (
    t[j] is BoundsCheck ==> j == 0 || t[j - 1].moves_pointer()) by {
        if j < a.len() {
            assert(t[j] == a[j]);
            if j > 0 {
                assert(t[j - 1] == a[j - 1]);
            }
        } else {
            assert(t[j] == b[j - a.len()]);
        }
    }
}

/// What the removing keeps of a merged instruction has its checks at the heads.
proof fn lemma_kept_instr_heads(i: Instr, acc: (Seq<Instr>, Option<(int, int)>))
    ensures
        forall|j: int|
            acc.0.len() <= j < cover_step(acc, merged_instr(i)).0.len() ==> head_only(
                #[trigger] cover_step(acc, merged_instr(i)).0[j],
            ),
    decreases i, 0int,
{
    let here = if i.moves_pointer() {
        None
    } else {
        acc.1
    };
    let now = cover_step(acc, merged_instr(i)).0;
    match i {
        Instr::Loop(b, c, body) => {
            lemma_merged_heads(body, here);
            assert(now == acc.0.push(Instr::Loop(b, c, cover_scan(merged(body), here).0)));
        },
        Instr::If(b, c, body) => {
            lemma_merged_heads(body, here);
            assert(now == acc.0.push(Instr::If(b, c, cover_scan(merged(body), here).0)));
        },
        Instr::BoundsCheck { start, length } => {
            assert(now == acc.0 || now == acc.0.push(i));
        },
        _ => {
            assert(now == acc.0.push(i));
        },
    }
}

/// The walk over the merged instructions of a list keeps instructions with
/// their checks at the heads.
proof fn lemma_kept_heads(s: Seq<Instr>, known: Option<(int, int)>)
    ensures
        forall|j: int|
            0 <= j < cover_scan(merge_scan(s).segment, known).0.len() ==> head_only(
                #[trigger] cover_scan(merge_scan(s).segment, known).0[j],
            ),
    decreases s, 0int,
{
    if s.len() > 0 {
        lemma_kept_heads(s.drop_last(), known);
        let before = merge_scan(s.drop_last());
        let now = merge_scan(s);
        if s.last() is BoundsCheck {
            assert(now.segment == before.segment);
        } else if !s.last().moves_pointer() {
            let item = merged_instr(s.last());
            assert(now.segment == before.segment.push(item));
            lemma_cover_push(before.segment, item, known);
            let acc = cover_scan(before.segment, known);
            lemma_kept_instr_heads(s.last(), acc);
            let kept = cover_scan(now.segment, known).0;
            assert forall|j: int| 0 <= j < kept.len() implies head_only(#[trigger] kept[j]) by {
                if j < acc.0.len() {
                    assert(kept[j] == acc.0[j]);
                } else {
                    assert(head_only(cover_step(acc, merged_instr(s.last())).0[j]));
                }
            }
        }
    }
}

/// Merging and then removing leaves every check at the head of its straight
/// run, whatever is known to be checked.
pub proof fn lemma_merged_heads(s: Seq<Instr>, known: Option<(int, int)>)
    ensures
        heads_only(cover_scan(merged(s), known).0),
    decreases s, 1int,
{
    let scan = merge_scan(s);
    if s.len() == 0 {
        assert(scan.flushed() =~= Seq::<Instr>::empty());
    } else if s.last().moves_pointer() {
        // The list ends with its last barrier: what is in front is done.
        let before = merge_scan(s.drop_last());
        let item = merged_instr(s.last());
        lemma_merged_heads(s.drop_last(), known);
        assert(scan.flushed() =~= before.flushed().push(item));
        lemma_cover_push(before.flushed(), item, known);
        let acc = cover_scan(before.flushed(), known);
        lemma_kept_instr_heads(s.last(), acc);
        let t = cover_scan(scan.flushed(), known).0;
        assert(!(item is BoundsCheck));
        assert forall|j: int| 0 <= j < t.len() implies head_only(#[trigger] t[j]) && (
        t[j] is BoundsCheck ==> j == 0 || t[j - 1].moves_pointer()) by {
            if j < acc.0.len() {
                assert(t[j] == acc.0[j]);
                if j > 0 {
                    assert(t[j - 1] == acc.0[j - 1]);
                }
            } else {
                assert(head_only(cover_step(acc, merged_instr(s.last())).0[j]));
            }
        }
    } else {
        lemma_done_heads(s, known);
        let first = cover_scan(scan.done, known);
        lemma_segment_within(s);
        lemma_kept_heads(s, first.1);
        match scan.pending {
            Some((start, length)) => {
                let check = Instr::BoundsCheck { start, length };
                lemma_cover_concat(scan.done.push(check), scan.segment, known);
                lemma_cover_push(scan.done, check, known);
                let second = cover_scan(scan.done.push(check), known);
                lemma_cover_run(scan.segment, scan.pending, second.1);
                lemma_kept_heads(s, second.1);
                lemma_heads_concat(second.0, cover_scan(scan.segment, second.1).0);
            },
            None => {
                lemma_cover_concat(scan.done, scan.segment, known);
                lemma_cover_run(scan.segment, scan.pending, first.1);
                lemma_heads_concat(first.0, cover_scan(scan.segment, first.1).0);
            },
        }
    }
}

/// What the walk that merges has done ends with an instruction that moves
/// the pointer, and with the head of a straight run behind it: the removing
/// keeps of it a list with its checks at the heads, to which a check can be
/// appended.
proof fn lemma_done_heads(s: Seq<Instr>, known: Option<(int, int)>)
    ensures
        heads_only(cover_scan(merge_scan(s).done, known).0),
        merge_scan(s).done.len() == 0 || merge_scan(s).done.last().moves_pointer(),
        cover_scan(merge_scan(s).done, known).0.len() == 0 || cover_scan(
            merge_scan(s).done,
            known,
        ).0.last().moves_pointer(),
        forall|start: int, length: int|
            heads_only(
                #[trigger] cover_scan(
                    merge_scan(s).done.push(Instr::BoundsCheck { start, length }),
                    known,
                ).0,
            ),
    decreases s, 0int,
{
    let scan = merge_scan(s);
    if s.len() > 0 {
        if s.last().moves_pointer() {
            let before = merge_scan(s.drop_last());
            let item = merged_instr(s.last());
            lemma_merged_heads(s.drop_last(), known);
            lemma_cover_push(before.flushed(), item, known);
            let acc = cover_scan(before.flushed(), known);
            lemma_kept_instr_heads(s.last(), acc);
            let t = cover_scan(scan.done, known).0;
            assert(item.moves_pointer());
            assert(t == acc.0.push(cover_step(acc, item).0.last()));
            assert(t.last().moves_pointer());
            assert forall|j: int| 0 <= j < t.len() implies head_only(#[trigger] t[j]) && (
            t[j] is BoundsCheck ==> j == 0 || t[j - 1].moves_pointer()) by {
                if j < acc.0.len() {
                    assert(t[j] == acc.0[j]);
                    if j > 0 {
                        assert(t[j - 1] == acc.0[j - 1]);
                    }
                } else {
                    assert(head_only(cover_step(acc, merged_instr(s.last())).0[j]));
                }
            }
        } else {
            lemma_done_heads(s.drop_last(), known);
        }
    }
    let kept = cover_scan(scan.done, known);
    assert forall|start: int, length: int|
        heads_only(
            #[trigger] cover_scan(scan.done.push(Instr::BoundsCheck { start, length }), known).0,
        ) by {
        let check = Instr::BoundsCheck { start, length };
        lemma_cover_push(scan.done, check, known);
        let t = cover_scan(scan.done.push(check), known).0;
        assert forall|j: int| 0 <= j < t.len() implies head_only(#[trigger] t[j]) && (
        t[j] is BoundsCheck ==> j == 0 || t[j - 1].moves_pointer()) by {
            if j < kept.0.len() {
                assert(t[j] == kept.0[j]);
                if j > 0 {
                    assert(t[j - 1] == kept.0[j - 1]);
                }
            } else {
                if j > 0 {
                    assert(t[j - 1] == kept.0[j - 1]);
                    assert(kept.0.last() == kept.0[kept.0.len() - 1]);
                }
            }
        }
    }
}

/// The two passes on bounds checks, one after the other.
pub open spec fn checks_settled(s: Seq<Instr>) -> Seq<Instr> {
    without_covered(merged(s))
}

/// Merging the bounds checks and removing the covered ones reaches its
/// fixpoint with the first round: a second round changes nothing, and so
/// neither does a third.
pub proof fn lemma_checks_settle(s: Seq<Instr>)
    ensures
        checks_settled(checks_settled(s)) == checks_settled(s),
        checks_settled(checks_settled(checks_settled(s))) == checks_settled(checks_settled(s)),
{
    let t = checks_settled(s);
    lemma_cover_twice(merged(s), None);
    lemma_merged_heads(s, None);
    lemma_settled_stays(t, None);
}

} // verus!
