use vstd::prelude::*;
use super::expr_tree::{
    copy_instruction, covers, hull, is_offset, lemma_insert_between, lemma_list_view_insert,
    lemma_list_view_push, lemma_list_view_take, lemma_push_parts, lemma_take_all, lemma_take_step,
    list_view, BoundsRange, CellOffset, Instr, Instruction, Program,
};

verus! {

// ---------------------------------------------------------------------------
// Pointer normalisation
// ---------------------------------------------------------------------------

/// The amount by which an instruction standing directly in a list shifts the
/// offsets of what follows it: the amount of a `Move`, nothing otherwise.
pub open spec fn move_amount(i: Instr) -> int {
    match i {
        Instr::Move(d) => d,
        _ => 0,
    }
}

/// The sum of the moves that stand directly in the list.
pub open spec fn net_move(s: Seq<Instr>) -> int
    decreases s.len(),
{
    if s.len() == 0 {
        0
    } else {
        net_move(s.drop_last()) + move_amount(s.last())
    }
}

/// The instruction with `offset` folded into its cell offsets; a move becomes
/// the empty move, and a body is normalised from the same offset.
pub open spec fn shifted(i: Instr, offset: int) -> Instr
    decreases i, 0int,
{
    match i {
        Instr::Modify(c, a) => Instr::Modify(c + offset, a),
        Instr::Move(_) => Instr::Move(0),
        Instr::Output(c) => Instr::Output(c + offset),
        Instr::Input(c) => Instr::Input(c + offset),
        Instr::SetCell(c, v) => Instr::SetCell(c + offset, v),
        Instr::AddMultiple { target, base, factor } => Instr::AddMultiple {
            target: target + offset,
            base: base + offset,
            factor,
        },
        Instr::BoundsCheck { start, length } => Instr::BoundsCheck { start: start + offset, length },
        Instr::Loop(b, c, body) => Instr::Loop(b, c + offset, normalized(body, offset)),
        Instr::If(b, c, body) => Instr::If(b, c + offset, normalized(body, offset)),
    }
}

/// Each instruction of the list shifted by the offset that has run up before
/// it, starting from `entry`.
pub open spec fn shifted_list(s: Seq<Instr>, entry: int) -> Seq<Instr>
    decreases s, 1int,
{
    if s.len() == 0 {
        Seq::empty()
    } else {
        shifted_list(s.drop_last(), entry).push(
            shifted(s.last(), entry + net_move(s.drop_last())),
        )
    }
}

/// The list with its moves folded into offsets, and one move at its end that
/// makes up for them where they do not cancel.
pub open spec fn normalized(s: Seq<Instr>, entry: int) -> Seq<Instr>
    decreases s, 2int,
{
    let d = net_move(s);
    if d != 0 {
        shifted_list(s, entry).push(Instr::Move(d))
    } else {
        shifted_list(s, entry)
    }
}

/// Whether every offset that normalising the instruction computes is one that
/// the machine form can hold.
pub open spec fn shift_fits(i: Instr, offset: int) -> bool
    decreases i, 0int,
{
    match i {
        Instr::Modify(c, _) => is_offset(c + offset),
        Instr::Move(_) => true,
        Instr::Output(c) => is_offset(c + offset),
        Instr::Input(c) => is_offset(c + offset),
        Instr::SetCell(c, _) => is_offset(c + offset),
        Instr::AddMultiple { target, base, .. } => is_offset(target + offset) && is_offset(
            base + offset,
        ),
        Instr::BoundsCheck { start, .. } => is_offset(start + offset),
        Instr::Loop(_, c, body) => is_offset(c + offset) && normalize_fits(body, offset),
        Instr::If(_, c, body) => is_offset(c + offset) && normalize_fits(body, offset),
    }
}

/// Whether every offset that normalising the list from `entry` computes is one
/// that the machine form can hold.
pub open spec fn normalize_fits(s: Seq<Instr>, entry: int) -> bool
    decreases s, 1int,
{
    &&& is_offset(net_move(s))
    &&& forall|k: int| 0 <= k <= s.len() ==> is_offset(entry + net_move(#[trigger] s.take(k)))
    &&& forall|k: int|
        0 <= k < s.len() ==> shift_fits(s[k], entry + net_move(#[trigger] s.take(k)))
}

/// Folds every move into the offsets of the instructions around it.
pub fn normalize_pointer_movement(program: &mut Program)
    requires
        normalize_fits(old(program)@, 0),
    ensures
        final(program)@ == normalized(old(program)@, 0),
{
    let r = normalize_pointer_rec(&program.0, 0);
    program.0 = r;
}

/// What the precondition of normalising gives for the instruction at `k`.
proof fn lemma_fits_step(s: Seq<Instr>, entry: int, k: int)
    requires
        normalize_fits(s, entry),
        0 <= k < s.len(),
    ensures
        shift_fits(s[k], entry + net_move(s.take(k))),
        net_move(s.take(k + 1)) == net_move(s.take(k)) + move_amount(s[k]),
        is_offset(entry + net_move(s.take(k))),
        is_offset(entry + net_move(s.take(k + 1))),
{
    lemma_take_step(s, k);
    assert(is_offset(entry + net_move(s.take(k))));
    assert(is_offset(entry + net_move(s.take(k + 1))));
}

fn shift_instruction(i: &Instruction, offset: isize) -> (r: Instruction)
    requires
        shift_fits(i@, offset as int),
    ensures
        r@ == shifted(i@, offset as int),
    decreases i, 0int,
{
    match i {
        Instruction::Move(_) => Instruction::Move(0),
        Instruction::Modify(cell, a) => Instruction::Modify(*cell + offset, *a),
        Instruction::Output(cell) => Instruction::Output(*cell + offset),
        Instruction::Input(cell) => Instruction::Input(*cell + offset),
        Instruction::SetCell(cell, v) => Instruction::SetCell(*cell + offset, *v),
        Instruction::AddMultiple { target, base, factor } => Instruction::AddMultiple {
            target: *target + offset,
            base: *base + offset,
            factor: *factor,
        },
        Instruction::BoundsCheck(range) => Instruction::BoundsCheck(
            BoundsRange { start: range.start + offset, length: range.length },
        ),
        Instruction::Loop(b, cell, body) => Instruction::Loop(
            *b,
            *cell + offset,
            normalize_pointer_rec(body, offset),
        ),
        Instruction::If(b, cell, body) => Instruction::If(
            *b,
            *cell + offset,
            normalize_pointer_rec(body, offset),
        ),
    }
}

fn normalize_pointer_rec(i: &Vec<Instruction>, entry: isize) -> (r: Vec<Instruction>)
    requires
        normalize_fits(list_view(i@), entry as int),
    ensures
        list_view(r@) == normalized(list_view(i@), entry as int),
    decreases i, 1int,
{
    let ghost s = list_view(i@);
    let mut out: Vec<Instruction> = Vec::new();
    let mut offset: isize = entry;
    let mut k: usize = 0;
    proof {
        lemma_take_all(s);
    }
    while k < i.len()
        invariant
            k <= i.len(),
            s == list_view(i@),
            s.len() == i.len(),
            normalize_fits(s, entry as int),
            offset == entry + net_move(s.take(k as int)),
            list_view(out@) == shifted_list(s.take(k as int), entry as int),
        decreases i.len() - k,
    {
        proof {
            lemma_fits_step(s, entry as int, k as int);
            lemma_take_step(s, k as int);
            lemma_list_view_take(i@, k as int);
        }
        let item = shift_instruction(&i[k], offset);
        proof {
            lemma_list_view_push(out@, item);
        }
        if let Instruction::Move(movement) = &i[k] {
            offset = offset + *movement;
        }
        out.push(item);
        k += 1;
    }
    if offset != entry {
        let item = Instruction::Move(offset - entry);
        proof {
            lemma_list_view_push(out@, item);
        }
        out.push(item);
    }
    out
}

// ---------------------------------------------------------------------------
// Dead instructions
// ---------------------------------------------------------------------------

/// What is left of an instruction once dead code is gone: nothing of a
/// modification or a move by zero, nothing of a conditional whose body is
/// left empty. A loop stays even with an empty body.
pub open spec fn live(i: Instr) -> Option<Instr>
    decreases i, 0int,
{
    match i {
        Instr::Modify(_, a) => if a == 0 { None } else { Some(i) },
        Instr::Move(d) => if d == 0 { None } else { Some(i) },
        Instr::Loop(b, c, body) => Some(Instr::Loop(b, c, without_dead(body))),
        Instr::If(b, c, body) => {
            let rest = without_dead(body);
            if rest.len() == 0 {
                None
            } else {
                Some(Instr::If(b, c, rest))
            }
        },
        _ => Some(i),
    }
}

/// The list without its dead instructions, at any depth.
pub open spec fn without_dead(s: Seq<Instr>) -> Seq<Instr>
    decreases s, 1int,
{
    if s.len() == 0 {
        Seq::empty()
    } else {
        match live(s.last()) {
            Some(i) => without_dead(s.drop_last()).push(i),
            None => without_dead(s.drop_last()),
        }
    }
}

/// Removes modifications and moves by zero, and conditionals with nothing in them.
pub fn remove_dead(program: &mut Program)
    ensures
        final(program)@ == without_dead(old(program)@),
{
    let r = remove_dead_rec(&program.0);
    program.0 = r;
}

fn remove_dead_rec(i: &Vec<Instruction>) -> (r: Vec<Instruction>)
    ensures
        list_view(r@) == without_dead(list_view(i@)),
    decreases i,
{
    let ghost s = list_view(i@);
    let mut out: Vec<Instruction> = Vec::new();
    let mut k: usize = 0;
    proof {
        lemma_take_all(s);
    }
    while k < i.len()
        invariant
            k <= i.len(),
            s == list_view(i@),
            s.len() == i.len(),
            list_view(out@) == without_dead(s.take(k as int)),
        decreases i.len() - k,
    {
        proof {
            lemma_take_step(s, k as int);
            lemma_list_view_take(i@, k as int);
        }
        let kept: Option<Instruction> = match &i[k] {
            Instruction::Modify(c, amount) => if *amount != 0 {
                Some(Instruction::Modify(*c, *amount))
            } else {
                None
            },
            Instruction::Move(amount) => if *amount != 0 {
                Some(Instruction::Move(*amount))
            } else {
                None
            },
            Instruction::Loop(b, c, body) => Some(Instruction::Loop(*b, *c, remove_dead_rec(body))),
            Instruction::If(b, c, body) => {
                let rest = remove_dead_rec(body);
                if rest.len() != 0 {
                    Some(Instruction::If(*b, *c, rest))
                } else {
                    None
                }
            },
            other => Some(copy_instruction(other)),
        };
        proof {
            assert(s[k as int] == i[k as int]@);
            if let Some(item) = &kept {
                assert(live(s[k as int]) == Some(item@));
                lemma_list_view_push(out@, *item);
            } else {
                assert(live(s[k as int]) is None);
            }
        }
        match kept {
            Some(item) => out.push(item),
            None => {},
        }
        k += 1;
    }
    out
}

// ---------------------------------------------------------------------------
// Balanced blocks
// ---------------------------------------------------------------------------

/// No instruction of the list moves the data pointer, going by the flags.
pub open spec fn still(s: Seq<Instr>) -> bool {
    forall|k: int| 0 <= k < s.len() ==> !(#[trigger] s[k]).moves_pointer()
}

/// The instruction with the flags of its blocks set: a block is balanced
/// exactly if, once its body is marked, nothing in the body moves the pointer.
pub open spec fn marked_instr(i: Instr) -> Instr
    decreases i, 0int,
{
    match i {
        Instr::Loop(_, c, body) => {
            let inner = marked(body);
            Instr::Loop(still(inner), c, inner)
        },
        Instr::If(_, c, body) => {
            let inner = marked(body);
            Instr::If(still(inner), c, inner)
        },
        _ => i,
    }
}

/// The list with the flags of all its blocks set, innermost first.
pub open spec fn marked(s: Seq<Instr>) -> Seq<Instr>
    decreases s, 1int,
{
    if s.len() == 0 {
        Seq::empty()
    } else {
        marked(s.drop_last()).push(marked_instr(s.last()))
    }
}

/// Sets the flag of every block: balanced exactly if nothing in its body
/// moves the pointer.
pub fn mark_balanced_blocks(p: &mut Program)
    ensures
        final(p)@ == marked(old(p)@),
{
    let r = mark_bal_blocks_rec(&p.0);
    p.0 = r;
}

pub(crate) fn none_moves(i: &Vec<Instruction>) -> (r: bool)
    ensures
        r == still(list_view(i@)),
{
    let mut k: usize = 0;
    while k < i.len()
        invariant
            k <= i.len(),
            forall|j: int| 0 <= j < k ==> !(#[trigger] list_view(i@)[j]).moves_pointer(),
        decreases i.len() - k,
    {
        if i[k].moves_pointer() {
            assert(list_view(i@)[k as int].moves_pointer());
            return false;
        }
        k += 1;
    }
    true
}

fn mark_bal_blocks_rec(i: &Vec<Instruction>) -> (r: Vec<Instruction>)
    ensures
        list_view(r@) == marked(list_view(i@)),
    decreases i,
{
    let ghost s = list_view(i@);
    let mut out: Vec<Instruction> = Vec::new();
    let mut k: usize = 0;
    proof {
        lemma_take_all(s);
    }
    while k < i.len()
        invariant
            k <= i.len(),
            s == list_view(i@),
            s.len() == i.len(),
            list_view(out@) == marked(s.take(k as int)),
        decreases i.len() - k,
    {
        proof {
            lemma_take_step(s, k as int);
            lemma_list_view_take(i@, k as int);
        }
        let item = match &i[k] {
            Instruction::Loop(_, c, body) => {
                let inner = mark_bal_blocks_rec(body);
                let bal = none_moves(&inner);
                Instruction::Loop(bal, *c, inner)
            },
            Instruction::If(_, c, body) => {
                let inner = mark_bal_blocks_rec(body);
                let bal = none_moves(&inner);
                Instruction::If(bal, *c, inner)
            },
            other => copy_instruction(other),
        };
        proof {
            assert(s[k as int] == i[k as int]@);
            assert(item@ == marked_instr(s[k as int]));
            lemma_list_view_push(out@, item);
        }
        out.push(item);
        k += 1;
    }
    out
}

// ---------------------------------------------------------------------------
// Merging bounds checks
// ---------------------------------------------------------------------------

/// The end of the checked run is itself an offset.
pub open spec fn range_valid(start: int, length: int) -> bool {
    start + length <= isize::MAX
}

/// Every bounds check of the instruction, at any depth, has a valid range.
pub open spec fn check_valid(i: Instr) -> bool
    decreases i, 0int,
{
    match i {
        Instr::BoundsCheck { start, length } => range_valid(start, length),
        Instr::Loop(_, _, body) => checks_valid(body),
        Instr::If(_, _, body) => checks_valid(body),
        _ => true,
    }
}

/// Every bounds check of the list, at any depth, has a valid range.
pub open spec fn checks_valid(s: Seq<Instr>) -> bool
    decreases s, 1int,
{
    forall|k: int| 0 <= k < s.len() ==> check_valid(#[trigger] s[k])
}

/// The mathematical form of a range that may be absent.
pub open spec fn range_view(r: Option<BoundsRange>) -> Option<(int, int)> {
    match r {
        Some(r) => Some((r.start as int, r.length as int)),
        None => None,
    }
}

/// The range gathered so far, widened by one more check.
pub open spec fn joined(pending: Option<(int, int)>, start: int, length: int) -> (int, int) {
    match pending {
        Some((s, l)) => hull(s, l, start, length),
        None => (start, length),
    }
}

/// Where a walk over one list stands: what lies before the current segment,
/// the segment itself (the instructions since the last one that moves the
/// pointer), and the hull of the checks that stand directly in the segment.
pub struct MergeScan {
    pub done: Seq<Instr>,
    pub segment: Seq<Instr>,
    pub pending: Option<(int, int)>,
}

impl MergeScan {
    /// The list that the walk has made: the merged check goes in front of its segment.
    pub open spec fn flushed(self) -> Seq<Instr> {
        match self.pending {
            Some((start, length)) => self.done.push(Instr::BoundsCheck { start, length })
                + self.segment,
            None => self.done + self.segment,
        }
    }
}

/// The instruction with the checks of its bodies merged.
pub open spec fn merged_instr(i: Instr) -> Instr
    decreases i, 0int,
{
    match i {
        Instr::Loop(b, c, body) => Instr::Loop(b, c, merged(body)),
        Instr::If(b, c, body) => Instr::If(b, c, merged(body)),
        _ => i,
    }
}

/// The walk over a list, instruction by instruction. An instruction that
/// moves the pointer closes the segment; a check widens the pending range
/// and does not stay in the segment.
pub open spec fn merge_scan(s: Seq<Instr>) -> MergeScan
    decreases s, 1int,
{
    if s.len() == 0 {
        MergeScan { done: Seq::empty(), segment: Seq::empty(), pending: None }
    } else {
        let before = merge_scan(s.drop_last());
        let item = merged_instr(s.last());
        if s.last().moves_pointer() {
            MergeScan {
                done: before.flushed().push(item),
                segment: Seq::empty(),
                pending: None,
            }
        } else {
            match s.last() {
                Instr::BoundsCheck { start, length } => MergeScan {
                    done: before.done,
                    segment: before.segment,
                    pending: Some(joined(before.pending, start, length)),
                },
                _ => MergeScan {
                    done: before.done,
                    segment: before.segment.push(item),
                    pending: before.pending,
                },
            }
        }
    }
}

/// The list with the checks of each segment merged: in front of a segment
/// that held a check stands one check of the hull of its checks, and no
/// other check stands directly in the segment; likewise in every body.
pub open spec fn merged(s: Seq<Instr>) -> Seq<Instr>
    decreases s, 2int,
{
    merge_scan(s).flushed()
}

/// Merges the bounds checks of every straight run of instructions into one
/// check in front of the run, which covers them all.
pub fn merge_verifications(p: &mut Program)
    requires
        checks_valid(old(p)@),
    ensures
        final(p)@ == merged(old(p)@),
{
    let r = merge_verif_rec(&p.0);
    p.0 = r;
}

fn merge_instruction(i: &Instruction) -> (r: Instruction)
    requires
        check_valid(i@),
    ensures
        r@ == merged_instr(i@),
    decreases i, 0int,
{
    match i {
        Instruction::Loop(b, c, body) => Instruction::Loop(*b, *c, merge_verif_rec(body)),
        Instruction::If(b, c, body) => Instruction::If(*b, *c, merge_verif_rec(body)),
        other => copy_instruction(other),
    }
}

fn merge_verif_rec(instructions: &Vec<Instruction>) -> (r: Vec<Instruction>)
    requires
        checks_valid(list_view(instructions@)),
    ensures
        list_view(r@) == merged(list_view(instructions@)),
    decreases instructions, 1int,
{
    let ghost s = list_view(instructions@);
    let mut out: Vec<Instruction> = Vec::new();
    let mut insert_index: usize = 0;
    let mut insert_value: Option<BoundsRange> = None;
    let mut k: usize = 0;
    proof {
        lemma_take_all(s);
        assert(list_view(out@) =~= merge_scan(s.take(0)).done + merge_scan(s.take(0)).segment);
    }
    while k < instructions.len()
        invariant
            k <= instructions.len(),
            s == list_view(instructions@),
            s.len() == instructions.len(),
            checks_valid(s),
            list_view(out@) == merge_scan(s.take(k as int)).done + merge_scan(
                s.take(k as int),
            ).segment,
            insert_index == merge_scan(s.take(k as int)).done.len(),
            insert_index <= out.len(),
            range_view(insert_value) == merge_scan(s.take(k as int)).pending,
            insert_value matches Some(r) ==> r.valid(),
        decreases instructions.len() - k,
    {
        proof {
            lemma_take_step(s, k as int);
            lemma_list_view_take(instructions@, k as int);
            assert(check_valid(s[k as int]));
        }
        let ghost before = merge_scan(s.take(k as int));
        let item = merge_instruction(&instructions[k]);
        assert(list_view(out@).len() == out.len());
        if instructions[k].moves_pointer() {
            if let Some(val) = insert_value {
                let check = Instruction::BoundsCheck(val);
                proof {
                    lemma_list_view_insert(out@, insert_index as int, check);
                    lemma_insert_between(before.done, before.segment, check@);
                }
                out.insert(insert_index, check);
            }
            proof {
                assert(list_view(out@) =~= before.flushed());
                lemma_list_view_push(out@, item);
                assert(before.flushed().push(item@) =~= before.flushed().push(item@)
                    + Seq::<Instr>::empty());
            }
            out.push(item);
            insert_index = out.len();
            insert_value = None;
        } else if let Instruction::BoundsCheck(cell) = &instructions[k] {
            insert_value =
            match insert_value {
                Some(val) => Some(val.merge(*cell)),
                None => Some(*cell),
            };
        } else {
            proof {
                lemma_list_view_push(out@, item);
                assert((before.done + before.segment).push(item@) =~= before.done
                    + before.segment.push(item@));
            }
            out.push(item);
        }
        k += 1;
    }
    if let Some(val) = insert_value {
        let check = Instruction::BoundsCheck(val);
        proof {
            lemma_list_view_insert(out@, insert_index as int, check);
            lemma_insert_between(merge_scan(s).done, merge_scan(s).segment, check@);
        }
        out.insert(insert_index, check);
    }
    out
}

// ---------------------------------------------------------------------------
// Bounds checks that an earlier check covers
// ---------------------------------------------------------------------------

/// Walks a list with the range that is known to be checked, `known`; gives
/// the list without the checks that the known range covers, and the range
/// known after the list. A body starts from what is known in front of its
/// block, and what it adds is not known after the block. Nothing is known
/// where the pointer may have moved.
pub open spec fn cover_scan(s: Seq<Instr>, known: Option<(int, int)>) -> (
    Seq<Instr>,
    Option<(int, int)>,
)
    decreases s, 1int,
{
    if s.len() == 0 {
        (Seq::empty(), known)
    } else {
        let (kept, carried) = cover_scan(s.drop_last(), known);
        let here = if s.last().moves_pointer() {
            None
        } else {
            carried
        };
        match s.last() {
            Instr::BoundsCheck { start, length } => match here {
                Some((ks, kl)) => if covers(ks, kl, start, length) {
                    (kept, here)
                } else {
                    (kept.push(s.last()), Some(hull(ks, kl, start, length)))
                },
                None => (kept.push(s.last()), Some((start, length))),
            },
            Instr::Loop(b, c, body) => (
                kept.push(Instr::Loop(b, c, cover_scan(body, here).0)),
                here,
            ),
            Instr::If(b, c, body) => (kept.push(Instr::If(b, c, cover_scan(body, here).0)), here),
            _ => (kept.push(s.last()), here),
        }
    }
}

/// The list without the checks that an earlier check of the same straight run covers.
pub open spec fn without_covered(s: Seq<Instr>) -> Seq<Instr> {
    cover_scan(s, None).0
}

/// Removes every bounds check whose range an earlier check already covers.
pub fn remove_dead_verifications(program: &mut Program)
    requires
        checks_valid(old(program)@),
    ensures
        final(program)@ == without_covered(old(program)@),
{
    let r = remove_dead_verify_rec(&program.0, None);
    program.0 = r.0;
}

fn remove_dead_verify_rec(i: &Vec<Instruction>, verified: Option<BoundsRange>) -> (r: (
    Vec<Instruction>,
    Option<BoundsRange>,
))
    requires
        checks_valid(list_view(i@)),
        verified matches Some(v) ==> v.valid(),
    ensures
        (list_view(r.0@), range_view(r.1)) == cover_scan(list_view(i@), range_view(verified)),
        r.1 matches Some(v) ==> v.valid(),
    decreases i,
{
    let ghost s = list_view(i@);
    let ghost known = range_view(verified);
    let mut out: Vec<Instruction> = Vec::new();
    let mut verified = verified;
    let mut k: usize = 0;
    proof {
        lemma_take_all(s);
    }
    while k < i.len()
        invariant
            k <= i.len(),
            s == list_view(i@),
            s.len() == i.len(),
            checks_valid(s),
            (list_view(out@), range_view(verified)) == cover_scan(s.take(k as int), known),
            verified matches Some(v) ==> v.valid(),
        decreases i.len() - k,
    {
        proof {
            lemma_take_step(s, k as int);
            lemma_list_view_take(i@, k as int);
            assert(check_valid(s[k as int]));
        }
        if i[k].moves_pointer() {
            verified = None;
        }
        let kept: Option<Instruction> = match &i[k] {
            Instruction::BoundsCheck(cell) => {
                match verified {
                    Some(highest) => {
                        if !highest.includes(cell) {
                            verified = Some(highest.merge(*cell));
                            Some(Instruction::BoundsCheck(*cell))
                        } else {
                            None
                        }
                    },
                    None => {
                        verified = Some(*cell);
                        Some(Instruction::BoundsCheck(*cell))
                    },
                }
            },
            Instruction::Loop(b, c, body) => {
                let inner = remove_dead_verify_rec(body, verified);
                Some(Instruction::Loop(*b, *c, inner.0))
            },
            Instruction::If(b, c, body) => {
                let inner = remove_dead_verify_rec(body, verified);
                Some(Instruction::If(*b, *c, inner.0))
            },
            other => Some(copy_instruction(other)),
        };
        proof {
            if let Some(item) = &kept {
                lemma_list_view_push(out@, *item);
            }
        }
        match kept {
            Some(item) => out.push(item),
            None => {},
        }
        k += 1;
    }
    (out, verified)
}

// ---------------------------------------------------------------------------
// Loops that add multiples
// ---------------------------------------------------------------------------

/// Walks the body of a loop on `base`. `None`: the body is not one of
/// modifications alone, or it modifies `base` after having decremented it.
/// Otherwise the additions that stand for the modifications seen, and whether
/// the decrement of `base` by one was among them.
pub open spec fn addition_scan(body: Seq<Instr>, base: int) -> Option<(Seq<Instr>, bool)>
    decreases body.len(),
{
    if body.len() == 0 {
        Some((Seq::empty(), false))
    } else {
        match addition_scan(body.drop_last(), base) {
            None => None,
            Some((args, decremented)) => match body.last() {
                Instr::Modify(cell, amount) => if decremented && cell == base {
                    None
                } else if cell == base && amount == -1i8 {
                    Some((args, true))
                } else {
                    Some(
                        (
                            args.push(Instr::AddMultiple { target: cell, base, factor: amount }),
                            decremented,
                        ),
                    )
                },
                _ => None,
            },
        }
    }
}

/// The instruction with every loop that only adds multiples of its counter
/// replaced by the additions, under a balanced conditional. Loops are looked
/// for in the bodies of loops, innermost first, and not in conditionals.
pub open spec fn recognized_instr(i: Instr) -> Instr
    decreases i, 0int,
{
    match i {
        Instr::Loop(b, base, body) => {
            let inner = recognized(body);
            match addition_scan(inner, base) {
                Some((args, true)) => Instr::If(true, base, args.push(Instr::SetCell(base, 0))),
                _ => Instr::Loop(b, base, inner),
            }
        },
        _ => i,
    }
}

/// The list with its addition loops replaced.
pub open spec fn recognized(s: Seq<Instr>) -> Seq<Instr>
    decreases s, 1int,
{
    if s.len() == 0 {
        Seq::empty()
    } else {
        recognized(s.drop_last()).push(recognized_instr(s.last()))
    }
}

/// Replaces each loop that decrements its counter by one and otherwise only
/// modifies cells by the additions it amounts to.
pub fn recog_additions(p: &mut Program)
    ensures
        final(p)@ == recognized(old(p)@),
{
    let r = recog_additions_list(&p.0);
    p.0 = r;
}

fn recog_additions_list(i: &Vec<Instruction>) -> (r: Vec<Instruction>)
    ensures
        list_view(r@) == recognized(list_view(i@)),
    decreases i, 1int,
{
    let ghost s = list_view(i@);
    let mut out: Vec<Instruction> = Vec::new();
    let mut k: usize = 0;
    proof {
        lemma_take_all(s);
    }
    while k < i.len()
        invariant
            k <= i.len(),
            s == list_view(i@),
            s.len() == i.len(),
            list_view(out@) == recognized(s.take(k as int)),
        decreases i.len() - k,
    {
        proof {
            lemma_take_step(s, k as int);
            lemma_list_view_take(i@, k as int);
        }
        let item = recog_additions_rec(&i[k]);
        proof {
            lemma_list_view_push(out@, item);
        }
        out.push(item);
        k += 1;
    }
    out
}

/// The additions that stand for the body of a loop on `base`, where it is one
/// that only adds multiples.
fn additions_of(body: &Vec<Instruction>, base: CellOffset) -> (r: Option<Vec<Instruction>>)
    ensures
        match addition_scan(list_view(body@), base as int) {
            Some((args, true)) => r matches Some(v) && list_view(v@) == args,
            _ => r is None,
        },
{
    let ghost s = list_view(body@);
    let mut args: Vec<Instruction> = Vec::new();
    let mut decremented = false;
    let mut k: usize = 0;
    proof {
        lemma_take_all(s);
    }
    while k < body.len()
        invariant
            k <= body.len(),
            s == list_view(body@),
            s.len() == body.len(),
            addition_scan(s.take(k as int), base as int) == Some((list_view(args@), decremented)),
        decreases body.len() - k,
    {
        proof {
            lemma_take_step(s, k as int);
            lemma_list_view_take(body@, k as int);
        }
        if let Instruction::Modify(cell, amount) = &body[k] {
            if decremented && *cell == base {
                proof {
                    lemma_scan_fails_for_good(s, base as int, k as int + 1);
                }
                return None;
            } else if *cell == base && *amount == -1 {
                decremented = true;
            } else {
                let item = Instruction::AddMultiple { target: *cell, base, factor: *amount };
                proof {
                    lemma_list_view_push(args@, item);
                }
                args.push(item);
            }
        } else {
            proof {
                lemma_scan_fails_for_good(s, base as int, k as int + 1);
            }
            return None;
        }
        k += 1;
    }
    if decremented {
        Some(args)
    } else {
        None
    }
}

/// Once the walk over a body has failed, it fails on every longer stretch.
proof fn lemma_scan_fails_for_good(s: Seq<Instr>, base: int, k: int)
    requires
        0 <= k <= s.len(),
        addition_scan(s.take(k), base) is None,
    ensures
        addition_scan(s, base) is None,
    decreases s.len() - k,
{
    if k < s.len() {
        lemma_take_step(s, k);
        lemma_scan_fails_for_good(s, base, k + 1);
    } else {
        lemma_take_all(s);
    }
}

fn recog_additions_rec(i: &Instruction) -> (r: Instruction)
    ensures
        r@ == recognized_instr(i@),
    decreases i, 0int,
{
    match i {
        Instruction::Loop(b, base, body) => {
            let inner = recog_additions_list(body);
            match additions_of(&inner, *base) {
                Some(args) => {
                    let mut args = args;
                    let last = Instruction::SetCell(*base, 0);
                    proof {
                        lemma_list_view_push(args@, last);
                    }
                    args.push(last);
                    Instruction::If(true, *base, args)
                },
                None => Instruction::Loop(*b, *base, inner),
            }
        },
        other => copy_instruction(other),
    }
}

// ---------------------------------------------------------------------------
// Conditionals that need no guard
// ---------------------------------------------------------------------------

/// An instruction that does nothing where the cell at `con` holds zero: an
/// addition of a multiple of that cell, or the clearing of it.
pub open spec fn idle_on_zero(i: Instr, con: int) -> bool {
    match i {
        Instr::AddMultiple { base, .. } => base == con,
        Instr::SetCell(cell, val) => cell == con && val == 0,
        _ => false,
    }
}

/// Every instruction of the body does nothing where the guard cell holds zero.
pub open spec fn guard_is_dead(body: Seq<Instr>, con: int) -> bool {
    forall|k: int| 0 <= k < body.len() ==> idle_on_zero(#[trigger] body[k], con)
}

/// What stands in place of an instruction: the body of a conditional that
/// needs no guard, else the instruction with its bodies treated likewise.
pub open spec fn unguarded_instr(i: Instr) -> Seq<Instr>
    decreases i, 0int,
{
    match i {
        Instr::Loop(b, c, body) => seq![Instr::Loop(b, c, unguarded(body))],
        Instr::If(b, c, body) => if guard_is_dead(body, c) {
            body
        } else {
            seq![Instr::If(b, c, unguarded(body))]
        },
        _ => seq![i],
    }
}

/// The list with every conditional that needs no guard replaced by its body.
pub open spec fn unguarded(s: Seq<Instr>) -> Seq<Instr>
    decreases s, 1int,
{
    if s.len() == 0 {
        Seq::empty()
    } else {
        unguarded(s.drop_last()) + unguarded_instr(s.last())
    }
}

/// Replaces each conditional whose body does nothing on a zero guard cell by
/// that body.
pub fn remove_dead_if_statements(p: &mut Program)
    ensures
        final(p)@ == unguarded(old(p)@),
{
    let r = remove_dead_if_rec(&p.0);
    p.0 = r;
}

fn if_is_dead(i: &Vec<Instruction>, con: CellOffset) -> (r: bool)
    ensures
        r == guard_is_dead(list_view(i@), con as int),
{
    let mut k: usize = 0;
    while k < i.len()
        invariant
            k <= i.len(),
            forall|j: int| 0 <= j < k ==> idle_on_zero(#[trigger] list_view(i@)[j], con as int),
        decreases i.len() - k,
    {
        let idle = match &i[k] {
            Instruction::AddMultiple { base, .. } => *base == con,
            Instruction::SetCell(cell, val) => *cell == con && *val == 0,
            _ => false,
        };
        if !idle {
            assert(!idle_on_zero(list_view(i@)[k as int], con as int));
            return false;
        }
        k += 1;
    }
    true
}

fn remove_dead_if_rec(instructions: &Vec<Instruction>) -> (r: Vec<Instruction>)
    ensures
        list_view(r@) == unguarded(list_view(instructions@)),
    decreases instructions,
{
    let ghost s = list_view(instructions@);
    let mut out: Vec<Instruction> = Vec::new();
    let mut k: usize = 0;
    proof {
        lemma_take_all(s);
    }
    while k < instructions.len()
        invariant
            k <= instructions.len(),
            s == list_view(instructions@),
            s.len() == instructions.len(),
            list_view(out@) == unguarded(s.take(k as int)),
        decreases instructions.len() - k,
    {
        proof {
            lemma_take_step(s, k as int);
            lemma_list_view_take(instructions@, k as int);
        }
        let ghost before = list_view(out@);
        assert(s[k as int] == instructions[k as int]@);
        match &instructions[k] {
            Instruction::Loop(b, c, body) => {
                let item = Instruction::Loop(*b, *c, remove_dead_if_rec(body));
                proof {
                    lemma_list_view_push(out@, item);
                    assert(seq![item@] =~= unguarded_instr(s[k as int]));
                    assert(before.push(item@) =~= before + seq![item@]);
                }
                out.push(item);
            },
            Instruction::If(b, c, body) => {
                if if_is_dead(body, *c) {
                    let mut j: usize = 0;
                    proof {
                        lemma_take_all(list_view(body@));
                        assert(before + list_view(body@).take(0) =~= before);
                    }
                    while j < body.len()
                        invariant
                            j <= body.len(),
                            list_view(out@) == before + list_view(body@).take(j as int),
                        decreases body.len() - j,
                    {
                        let item = copy_instruction(&body[j]);
                        proof {
                            lemma_list_view_push(out@, item);
                            lemma_take_step(list_view(body@), j as int);
                            assert((before + list_view(body@).take(j as int)).push(item@)
                                =~= before + list_view(body@).take(j as int + 1));
                        }
                        out.push(item);
                        j += 1;
                    }
                    proof {
                        lemma_take_all(list_view(body@));
                        assert(unguarded_instr(s[k as int]) == list_view(body@));
                        assert(before == unguarded(s.take(k as int)));
                            }
                } else {
                    let item = Instruction::If(*b, *c, remove_dead_if_rec(body));
                    proof {
                        lemma_list_view_push(out@, item);
                        assert(seq![item@] =~= unguarded_instr(s[k as int]));
                    assert(before.push(item@) =~= before + seq![item@]);
                    }
                    out.push(item);
                    }
            },
            other => {
                let item = copy_instruction(other);
                proof {
                    lemma_list_view_push(out@, item);
                    assert(seq![item@] =~= unguarded_instr(s[k as int]));
                    assert(before.push(item@) =~= before + seq![item@]);
                }
                out.push(item);
            },
        }
        k += 1;
    }
    out
}

// ---------------------------------------------------------------------------
// Valid ranges stay valid
// ---------------------------------------------------------------------------

/// A list is valid exactly if its front and its last instruction are.
pub proof fn lemma_valid_parts(s: Seq<Instr>)
    requires
        s.len() > 0,
    ensures
        checks_valid(s) <==> checks_valid(s.drop_last()) && check_valid(s.last()),
{
    if checks_valid(s) {
        assert forall|k: int| 0 <= k < s.drop_last().len() implies check_valid(
            #[trigger] s.drop_last()[k],
        ) by {
            assert(s.drop_last()[k] == s[k]);
        }
    }
    if checks_valid(s.drop_last()) && check_valid(s.last()) {
        assert forall|k: int| 0 <= k < s.len() implies check_valid(#[trigger] s[k]) by {
            if k < s.len() - 1 {
                assert(s.drop_last()[k] == s[k]);
            }
        }
    }
}

/// Two valid lists make a valid list.
pub proof fn lemma_valid_concat(a: Seq<Instr>, b: Seq<Instr>)
    requires
        checks_valid(a),
        checks_valid(b),
    ensures
        checks_valid(a + b),
{
    assert forall|k: int| 0 <= k < (a + b).len() implies check_valid(#[trigger] (a + b)[k]) by {
        if k < a.len() {
            assert((a + b)[k] == a[k]);
        } else {
            assert((a + b)[k] == b[k - a.len()]);
        }
    }
}

/// A valid list with a valid instruction appended is valid.
pub proof fn lemma_valid_push(s: Seq<Instr>, i: Instr)
    requires
        checks_valid(s),
        check_valid(i),
    ensures
        checks_valid(s.push(i)),
{
    lemma_push_parts(s, i);
    lemma_valid_parts(s.push(i));
}

/// Removing dead instructions keeps the ranges valid.
pub proof fn lemma_without_dead_valid(s: Seq<Instr>)
    requires
        checks_valid(s),
    ensures
        checks_valid(without_dead(s)),
    decreases s, 1int,
{
    if s.len() > 0 {
        lemma_valid_parts(s);
        lemma_without_dead_valid(s.drop_last());
        lemma_live_valid(s.last());
        match live(s.last()) {
            Some(i) => lemma_valid_push(without_dead(s.drop_last()), i),
            None => {},
        }
    }
}

proof fn lemma_live_valid(i: Instr)
    requires
        check_valid(i),
    ensures
        live(i) matches Some(j) ==> check_valid(j),
    decreases i, 0int,
{
    match i {
        Instr::Loop(_, _, body) => lemma_without_dead_valid(body),
        Instr::If(_, _, body) => lemma_without_dead_valid(body),
        _ => {},
    }
}

/// Marking the balanced blocks keeps the ranges valid.
pub proof fn lemma_marked_valid(s: Seq<Instr>)
    requires
        checks_valid(s),
    ensures
        checks_valid(marked(s)),
    decreases s, 1int,
{
    if s.len() > 0 {
        lemma_valid_parts(s);
        lemma_marked_valid(s.drop_last());
        match s.last() {
            Instr::Loop(_, _, body) => lemma_marked_valid(body),
            Instr::If(_, _, body) => lemma_marked_valid(body),
            _ => {},
        }
        lemma_valid_push(marked(s.drop_last()), marked_instr(s.last()));
    }
}

proof fn lemma_merge_scan_valid(s: Seq<Instr>)
    requires
        checks_valid(s),
    ensures
        checks_valid(merge_scan(s).done),
        checks_valid(merge_scan(s).segment),
        merge_scan(s).pending matches Some((a, l)) ==> range_valid(a, l),
        checks_valid(merge_scan(s).flushed()),
    decreases s, 1int,
{
    if s.len() > 0 {
        lemma_valid_parts(s);
        lemma_merge_scan_valid(s.drop_last());
        let before = merge_scan(s.drop_last());
        match s.last() {
            Instr::Loop(_, _, body) => lemma_merged_valid(body),
            Instr::If(_, _, body) => lemma_merged_valid(body),
            _ => {},
        }
        let item = merged_instr(s.last());
        if s.last().moves_pointer() {
            lemma_valid_push(before.flushed(), item);
        } else {
            lemma_valid_push(before.segment, item);
        }
    }
    let now = merge_scan(s);
    match now.pending {
        Some((start, length)) => {
            lemma_valid_push(now.done, Instr::BoundsCheck { start, length });
            lemma_valid_concat(now.done.push(Instr::BoundsCheck { start, length }), now.segment);
        },
        None => lemma_valid_concat(now.done, now.segment),
    }
}

/// Merging the bounds checks keeps the ranges valid.
pub proof fn lemma_merged_valid(s: Seq<Instr>)
    requires
        checks_valid(s),
    ensures
        checks_valid(merged(s)),
    decreases s, 2int,
{
    lemma_merge_scan_valid(s);
}

/// Removing the covered checks keeps the ranges valid.
pub proof fn lemma_cover_scan_valid(s: Seq<Instr>, known: Option<(int, int)>)
    requires
        checks_valid(s),
        known matches Some((a, l)) ==> range_valid(a, l),
    ensures
        checks_valid(cover_scan(s, known).0),
        cover_scan(s, known).1 matches Some((a, l)) ==> range_valid(a, l),
    decreases s, 1int,
{
    if s.len() > 0 {
        lemma_valid_parts(s);
        lemma_cover_scan_valid(s.drop_last(), known);
        let (kept, carried) = cover_scan(s.drop_last(), known);
        let here = if s.last().moves_pointer() {
            None
        } else {
            carried
        };
        match s.last() {
            Instr::BoundsCheck { start, length } => {
                lemma_valid_push(kept, s.last());
            },
            Instr::Loop(b, c, body) => {
                lemma_cover_scan_valid(body, here);
                lemma_valid_push(kept, Instr::Loop(b, c, cover_scan(body, here).0));
            },
            Instr::If(b, c, body) => {
                lemma_cover_scan_valid(body, here);
                lemma_valid_push(kept, Instr::If(b, c, cover_scan(body, here).0));
            },
            _ => {
                lemma_valid_push(kept, s.last());
            },
        }
    }
}

proof fn lemma_addition_scan_valid(body: Seq<Instr>, base: int)
    ensures
        addition_scan(body, base) matches Some((args, _)) ==> checks_valid(args),
    decreases body.len(),
{
    if body.len() > 0 {
        lemma_addition_scan_valid(body.drop_last(), base);
        match addition_scan(body.drop_last(), base) {
            Some((args, _)) => {
                match body.last() {
                    Instr::Modify(cell, amount) => {
                        lemma_valid_push(
                            args,
                            Instr::AddMultiple { target: cell, base, factor: amount },
                        );
                    },
                    _ => {},
                }
            },
            None => {},
        }
    }
}

/// Replacing the addition loops keeps the ranges valid.
pub proof fn lemma_recognized_valid(s: Seq<Instr>)
    requires
        checks_valid(s),
    ensures
        checks_valid(recognized(s)),
    decreases s, 1int,
{
    if s.len() > 0 {
        lemma_valid_parts(s);
        lemma_recognized_valid(s.drop_last());
        match s.last() {
            Instr::Loop(_, base, body) => {
                lemma_recognized_valid(body);
                lemma_addition_scan_valid(recognized(body), base);
                match addition_scan(recognized(body), base) {
                    Some((args, true)) => lemma_valid_push(args, Instr::SetCell(base, 0)),
                    _ => {},
                }
            },
            _ => {},
        }
        lemma_valid_push(recognized(s.drop_last()), recognized_instr(s.last()));
    }
}

/// Replacing conditionals by their bodies keeps the ranges valid.
pub proof fn lemma_unguarded_valid(s: Seq<Instr>)
    requires
        checks_valid(s),
    ensures
        checks_valid(unguarded(s)),
    decreases s, 1int,
{
    if s.len() > 0 {
        lemma_valid_parts(s);
        lemma_unguarded_valid(s.drop_last());
        match s.last() {
            Instr::Loop(_, _, body) => lemma_unguarded_valid(body),
            Instr::If(_, _, body) => lemma_unguarded_valid(body),
            _ => {},
        }
        assert(checks_valid(unguarded_instr(s.last())));
        lemma_valid_concat(unguarded(s.drop_last()), unguarded_instr(s.last()));
    }
}

// ---------------------------------------------------------------------------
// The schedule
// ---------------------------------------------------------------------------

/// The passes up to and including the first removal of covered checks.
pub open spec fn checked(s: Seq<Instr>) -> Seq<Instr> {
    without_covered(merged(marked(without_dead(normalized(s, 0)))))
}

/// The whole schedule, in its fixed order.
pub open spec fn optimized(s: Seq<Instr>) -> Seq<Instr> {
    without_covered(merged(unguarded(recognized(checked(s)))))
}

/// Whether the schedule can run on the program: normalising fits the machine
/// integers, and leaves every bounds check with a valid range.
pub open spec fn optimizable(s: Seq<Instr>) -> bool {
    normalize_fits(s, 0) && checks_valid(normalized(s, 0))
}

/// Runs the passes in their fixed order.
pub fn apply_optimizations(program: &mut Program)
    requires
        optimizable(old(program)@),
    ensures
        final(program)@ == optimized(old(program)@),
{
    normalize_pointer_movement(program);
    proof {
        lemma_without_dead_valid(program@);
    }
    remove_dead(program);
    proof {
        lemma_marked_valid(program@);
    }
    mark_balanced_blocks(program);
    proof {
        lemma_merged_valid(program@);
    }
    merge_verifications(program);
    proof {
        lemma_cover_scan_valid(program@, None);
    }
    remove_dead_verifications(program);
    proof {
        lemma_recognized_valid(program@);
    }
    recog_additions(program);
    proof {
        lemma_unguarded_valid(program@);
    }
    remove_dead_if_statements(program);
    proof {
        lemma_merged_valid(program@);
    }
    merge_verifications(program);
    remove_dead_verifications(program);
}

// ---------------------------------------------------------------------------
// Whether the schedule can run
// ---------------------------------------------------------------------------

/// The shifted list holds the shifted instructions, place by place.
pub proof fn lemma_shifted_list_index(s: Seq<Instr>, entry: int)
    ensures
        shifted_list(s, entry).len() == s.len(),
        forall|k: int|
            0 <= k < s.len() ==> #[trigger] shifted_list(s, entry)[k] == shifted(
                s[k],
                entry + net_move(s.take(k)),
            ),
    decreases s.len(),
{
    if s.len() > 0 {
        let front = s.drop_last();
        lemma_shifted_list_index(front, entry);
        assert forall|k: int| 0 <= k < s.len() implies #[trigger] shifted_list(s, entry)[k]
            == shifted(s[k], entry + net_move(s.take(k))) by {
            if k < s.len() - 1 {
                assert(front.take(k) =~= s.take(k));
                assert(front[k] == s[k]);
            } else {
                assert(s.take(k) =~= front);
            }
        }
    }
}

/// Whether normalising the list from `entry` fits the machine integers and
/// leaves every bounds check with a valid range.
pub open spec fn normalizable(s: Seq<Instr>, entry: int) -> bool {
    normalize_fits(s, entry) && checks_valid(normalized(s, entry))
}

/// The same of one instruction and the offset that has run up before it.
pub open spec fn shiftable(i: Instr, offset: int) -> bool {
    shift_fits(i, offset) && check_valid(shifted(i, offset))
}

/// A list can be normalised exactly if each of its instructions can, and
/// the offsets that run up fit.
proof fn lemma_normalizable(s: Seq<Instr>, entry: int)
    ensures
        normalizable(s, entry) <==> {
            &&& is_offset(net_move(s))
            &&& forall|k: int| 0 <= k <= s.len() ==> is_offset(entry + net_move(#[trigger] s.take(k)))
            &&& forall|k: int|
                0 <= k < s.len() ==> shiftable(s[k], entry + net_move(#[trigger] s.take(k)))
        },
{
    lemma_shifted_list_index(s, entry);
    let list = shifted_list(s, entry);
    let whole = normalized(s, entry);
    if normalize_fits(s, entry) {
        if checks_valid(whole) {
            assert forall|k: int| 0 <= k < s.len() implies shiftable(
                s[k],
                entry + net_move(#[trigger] s.take(k)),
            ) by {
                assert(whole[k] == list[k]);
                assert(check_valid(whole[k]));
            }
        }
        if forall|k: int|
            0 <= k < s.len() ==> shiftable(s[k], entry + net_move(#[trigger] s.take(k))) {
            assert forall|k: int| 0 <= k < whole.len() implies check_valid(#[trigger] whole[k]) by {
                if k < s.len() {
                    assert(whole[k] == list[k]);
                    assert(shiftable(s[k], entry + net_move(s.take(k))));
                }
            }
        }
    }
}

/// Whether the schedule can run on the program: whether normalising it fits
/// the machine integers and leaves every bounds check with a valid range.
pub fn can_optimize(program: &Program) -> (r: bool)
    ensures
        r == optimizable(program@),
{
    can_normalize(&program.0, 0)
}

fn can_shift(i: &Instruction, offset: isize) -> (r: bool)
    ensures
        r == shiftable(i@, offset as int),
    decreases i, 0int,
{
    match i {
        Instruction::Move(_) => true,
        Instruction::Modify(cell, _) => cell.checked_add(offset).is_some(),
        Instruction::Output(cell) => cell.checked_add(offset).is_some(),
        Instruction::Input(cell) => cell.checked_add(offset).is_some(),
        Instruction::SetCell(cell, _) => cell.checked_add(offset).is_some(),
        Instruction::AddMultiple { target, base, .. } => target.checked_add(offset).is_some()
            && base.checked_add(offset).is_some(),
        Instruction::BoundsCheck(range) => match range.start.checked_add(offset) {
            Some(start) => start.checked_add_unsigned(range.length).is_some(),
            None => false,
        },
        Instruction::Loop(_, cell, body) => cell.checked_add(offset).is_some() && can_normalize(
            body,
            offset,
        ),
        Instruction::If(_, cell, body) => cell.checked_add(offset).is_some() && can_normalize(
            body,
            offset,
        ),
    }
}

fn can_normalize(i: &Vec<Instruction>, entry: isize) -> (r: bool)
    ensures
        r == normalizable(list_view(i@), entry as int),
    decreases i, 1int,
{
    let ghost s = list_view(i@);
    let mut offset: isize = entry;
    let mut k: usize = 0;
    proof {
        lemma_take_all(s);
        lemma_normalizable(s, entry as int);
    }
    while k < i.len()
        invariant
            k <= i.len(),
            s == list_view(i@),
            s.len() == i.len(),
            offset == entry + net_move(s.take(k as int)),
            forall|j: int| 0 <= j <= k ==> is_offset(entry + net_move(#[trigger] s.take(j))),
            forall|j: int|
                0 <= j < k ==> shiftable(s[j], entry + net_move(#[trigger] s.take(j))),
            normalizable(s, entry as int) <==> {
                &&& is_offset(net_move(s))
                &&& forall|k: int|
                    0 <= k <= s.len() ==> is_offset(entry + net_move(#[trigger] s.take(k)))
                &&& forall|k: int|
                    0 <= k < s.len() ==> shiftable(s[k], entry + net_move(#[trigger] s.take(k)))
            },
        decreases i.len() - k,
    {
        proof {
            lemma_take_step(s, k as int);
            lemma_list_view_take(i@, k as int);
        }
        if !can_shift(&i[k], offset) {
            assert(!shiftable(s[k as int], entry + net_move(s.take(k as int))));
            return false;
        }
        if let Instruction::Move(movement) = &i[k] {
            match offset.checked_add(*movement) {
                Some(next) => {
                    offset = next;
                },
                None => {
                    assert(!is_offset(entry + net_move(s.take(k as int + 1))));
                    return false;
                },
            }
        }
        k += 1;
    }
    offset.checked_sub(entry).is_some()
}

} // verus!
