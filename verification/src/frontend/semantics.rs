use vstd::prelude::*;
use super::expr_tree::{lemma_push_parts, Instr};
use crate::ir::exec::wrap8;

verus! {

/// The state of the tape machine that runs the expression tree: a tape
/// without end in either direction, the data pointer, the bytes not yet
/// read, and the bytes written.
pub struct State {
    pub tape: Map<int, u8>,
    pub pointer: int,
    pub input: Seq<u8>,
    pub output: Seq<u8>,
}

impl State {
    /// The tape holds a value at every address.
    pub open spec fn wf(self) -> bool {
        forall|a: int| self.tape.dom().contains(a)
    }

    /// The state that every run starts from: the tape holds zero everywhere.
    pub open spec fn initial(input: Seq<u8>) -> State {
        State { tape: Map::total(|a: int| 0u8), pointer: 0, input, output: Seq::empty() }
    }

    /// The value of the cell at `offset` from the data pointer.
    pub open spec fn read(self, offset: int) -> u8 {
        self.tape[self.pointer + offset]
    }

    /// The state with the cell at `offset` from the data pointer set to `v`.
    pub open spec fn write(self, offset: int, v: u8) -> State {
        State { tape: self.tape.insert(self.pointer + offset, v), ..self }
    }

    /// The state with the data pointer moved by `d`.
    pub open spec fn moved(self, d: int) -> State {
        State { pointer: self.pointer + d, ..self }
    }

    /// What an instruction that is no block does.
    pub open spec fn apply(self, i: Instr) -> State {
        match i {
            Instr::Modify(c, d) => self.write(c, wrap8(self.read(c) + d)),
            Instr::Move(d) => self.moved(d),
            Instr::Output(c) => State { output: self.output.push(self.read(c)), ..self },
            Instr::Input(c) => if self.input.len() > 0 {
                State { input: self.input.skip(1), ..self.write(c, self.input[0]) }
            } else {
                self
            },
            Instr::SetCell(c, v) => self.write(c, v),
            Instr::AddMultiple { target, base, factor } => self.write(
                target,
                wrap8(self.read(target) + self.read(base) * factor),
            ),
            _ => self,
        }
    }
}

/// The state after an instruction, where it comes to an end within the fuel:
/// every turn of a loop uses up one unit.
pub open spec fn run_instr(i: Instr, st: State, fuel: nat) -> Option<State>
    decreases fuel, i, 0int,
{
    match i {
        Instr::Loop(_, c, body) => if st.read(c) == 0 {
            Some(st)
        } else if fuel == 0 {
            None
        } else {
            match run_list(body, st, (fuel - 1) as nat) {
                None => None,
                Some(next) => run_instr(i, next, (fuel - 1) as nat),
            }
        },
        Instr::If(_, c, body) => if st.read(c) == 0 {
            Some(st)
        } else {
            run_list(body, st, fuel)
        },
        _ => Some(st.apply(i)),
    }
}

/// The state after a list of instructions, where it comes to an end within the fuel.
pub open spec fn run_list(s: Seq<Instr>, st: State, fuel: nat) -> Option<State>
    decreases fuel, s, 1int,
{
    if s.len() == 0 {
        Some(st)
    } else {
        match run_list(s.drop_last(), st, fuel) {
            None => None,
            Some(next) => run_instr(s.last(), next, fuel),
        }
    }
}

/// The program halts on the input, having written `output`.
pub open spec fn halts_with(program: Seq<Instr>, input: Seq<u8>, output: Seq<u8>) -> bool {
    exists|fuel: nat|
        (#[trigger] run_list(program, State::initial(input), fuel)) matches Some(end)
            && end.output == output
}

/// The program halts on the input.
pub open spec fn halts(program: Seq<Instr>, input: Seq<u8>) -> bool {
    exists|fuel: nat| (#[trigger] run_list(program, State::initial(input), fuel)) is Some
}

/// Two lists do the same from every state, with the same fuel.
pub open spec fn agree(a: Seq<Instr>, b: Seq<Instr>) -> bool {
    forall|st: State, fuel: nat|
        st.wf() ==> #[trigger] run_list(a, st, fuel) == run_list(b, st, fuel)
}

/// A list does what one instruction does, from every state, with the same fuel.
pub open spec fn stands_for(a: Seq<Instr>, i: Instr) -> bool {
    forall|st: State, fuel: nat|
        st.wf() ==> #[trigger] run_list(a, st, fuel) == run_instr(i, st, fuel)
}

// ---------------------------------------------------------------------------
// Basic facts
// ---------------------------------------------------------------------------

pub proof fn lemma_initial_wf(input: Seq<u8>)
    ensures
        State::initial(input).wf(),
{
}

/// A run leaves the tape whole.
pub proof fn lemma_run_instr_wf(i: Instr, st: State, fuel: nat)
    requires
        st.wf(),
    ensures
        run_instr(i, st, fuel) matches Some(end) ==> end.wf(),
    decreases fuel, i, 0int,
{
    match i {
        Instr::Loop(_, c, body) => {
            if st.read(c) != 0 && fuel > 0 {
                lemma_run_list_wf(body, st, (fuel - 1) as nat);
                match run_list(body, st, (fuel - 1) as nat) {
                    Some(next) => lemma_run_instr_wf(i, next, (fuel - 1) as nat),
                    None => {},
                }
            }
        },
        Instr::If(_, c, body) => {
            lemma_run_list_wf(body, st, fuel);
        },
        _ => {},
    }
}

pub proof fn lemma_run_list_wf(s: Seq<Instr>, st: State, fuel: nat)
    requires
        st.wf(),
    ensures
        run_list(s, st, fuel) matches Some(end) ==> end.wf(),
    decreases fuel, s, 1int,
{
    if s.len() > 0 {
        lemma_run_list_wf(s.drop_last(), st, fuel);
        match run_list(s.drop_last(), st, fuel) {
            Some(next) => lemma_run_instr_wf(s.last(), next, fuel),
            None => {},
        }
    }
}

/// A run that ends within some fuel ends the same way within more.
pub proof fn lemma_instr_fuel(i: Instr, st: State, fuel: nat, more: nat)
    requires
        run_instr(i, st, fuel) is Some,
        fuel <= more,
    ensures
        run_instr(i, st, more) == run_instr(i, st, fuel),
    decreases fuel, i, 0int,
{
    match i {
        Instr::Loop(_, c, body) => {
            if st.read(c) != 0 {
                lemma_list_fuel(body, st, (fuel - 1) as nat, (more - 1) as nat);
                let next = run_list(body, st, (fuel - 1) as nat)->0;
                lemma_instr_fuel(i, next, (fuel - 1) as nat, (more - 1) as nat);
            }
        },
        Instr::If(_, c, body) => {
            if st.read(c) != 0 {
                lemma_list_fuel(body, st, fuel, more);
            }
        },
        _ => {},
    }
}

pub proof fn lemma_list_fuel(s: Seq<Instr>, st: State, fuel: nat, more: nat)
    requires
        run_list(s, st, fuel) is Some,
        fuel <= more,
    ensures
        run_list(s, st, more) == run_list(s, st, fuel),
    decreases fuel, s, 1int,
{
    if s.len() > 0 {
        lemma_list_fuel(s.drop_last(), st, fuel, more);
        let next = run_list(s.drop_last(), st, fuel)->0;
        lemma_instr_fuel(s.last(), next, fuel, more);
    }
}

/// Running a list with one instruction more.
pub proof fn lemma_run_push(s: Seq<Instr>, i: Instr, st: State, fuel: nat)
    ensures
        run_list(s.push(i), st, fuel) == match run_list(s, st, fuel) {
            None => None,
            Some(next) => run_instr(i, next, fuel),
        },
{
    lemma_push_parts(s, i);
}

/// Running two lists one after the other.
pub proof fn lemma_run_concat(a: Seq<Instr>, b: Seq<Instr>, st: State, fuel: nat)
    ensures
        run_list(a + b, st, fuel) == match run_list(a, st, fuel) {
            None => None,
            Some(next) => run_list(b, next, fuel),
        },
    decreases b.len(),
{
    if b.len() == 0 {
        assert(a + b =~= a);
    } else {
        assert((a + b).drop_last() =~= a + b.drop_last());
        assert((a + b).last() == b.last());
        lemma_run_concat(a, b.drop_last(), st, fuel);
    }
}

/// Running a list of one instruction.
pub proof fn lemma_run_single(i: Instr, st: State, fuel: nat)
    ensures
        run_list(seq![i], st, fuel) == run_instr(i, st, fuel),
{
    assert(seq![i].drop_last() =~= Seq::<Instr>::empty());
    assert(seq![i].last() == i);
    assert(run_list(seq![i].drop_last(), st, fuel) == Some(st));
}

/// Loops on bodies that agree do the same.
pub proof fn lemma_loop_agrees(
    b1: bool,
    b2: bool,
    c: int,
    body1: Seq<Instr>,
    body2: Seq<Instr>,
    st: State,
    fuel: nat,
)
    requires
        agree(body1, body2),
        st.wf(),
    ensures
        run_instr(Instr::Loop(b1, c, body1), st, fuel) == run_instr(
            Instr::Loop(b2, c, body2),
            st,
            fuel,
        ),
    decreases fuel,
{
    if st.read(c) != 0 && fuel > 0 {
        assert(run_list(body1, st, (fuel - 1) as nat) == run_list(body2, st, (fuel - 1) as nat));
        match run_list(body1, st, (fuel - 1) as nat) {
            Some(next) => {
                lemma_run_list_wf(body1, st, (fuel - 1) as nat);
                lemma_loop_agrees(b1, b2, c, body1, body2, next, (fuel - 1) as nat);
            },
            None => {},
        }
    }
}

/// Conditionals on bodies that agree do the same.
pub proof fn lemma_if_agrees(
    b1: bool,
    b2: bool,
    c: int,
    body1: Seq<Instr>,
    body2: Seq<Instr>,
    st: State,
    fuel: nat,
)
    requires
        agree(body1, body2),
        st.wf(),
    ensures
        run_instr(Instr::If(b1, c, body1), st, fuel) == run_instr(Instr::If(b2, c, body2), st, fuel),
{
    assert(run_list(body1, st, fuel) == run_list(body2, st, fuel));
}

/// Lists that agree, each with a list more that stands for the same
/// instruction, agree.
pub proof fn lemma_agree_step(a: Seq<Instr>, b: Seq<Instr>, tail: Seq<Instr>, i: Instr)
    requires
        agree(a, b),
        stands_for(tail, i),
    ensures
        agree(a + tail, b.push(i)),
{
    assert forall|st: State, fuel: nat| st.wf() implies #[trigger] run_list(a + tail, st, fuel)
        == run_list(b.push(i), st, fuel) by {
        lemma_run_concat(a, tail, st, fuel);
        lemma_run_push(b, i, st, fuel);
        assert(run_list(a, st, fuel) == run_list(b, st, fuel));
        match run_list(a, st, fuel) {
            Some(next) => {
                lemma_run_list_wf(a, st, fuel);
                assert(run_list(tail, next, fuel) == run_instr(i, next, fuel));
            },
            None => {},
        }
    }
}

/// Writing to a cell what it holds changes nothing.
pub proof fn lemma_write_same(st: State, c: int)
    requires
        st.wf(),
    ensures
        st.write(c, st.read(c)) == st,
{
    assert(st.tape.insert(st.pointer + c, st.tape[st.pointer + c]) =~= st.tape);
}

// ---------------------------------------------------------------------------
// Runs on a tape of finite reach
// ---------------------------------------------------------------------------

/// A state together with the reach of the tape: the number of cells, from
/// the first on, that bounds checks have made sure of.
pub struct Reached {
    pub state: State,
    pub reach: int,
}

impl Reached {
    /// The cell at `offset` from the data pointer is within reach.
    pub open spec fn reaches(self, offset: int) -> bool {
        0 <= self.state.pointer + offset < self.reach
    }

    /// The cells that the instruction, which is no block, reads or writes
    /// are within reach; the range of a bounds check ends on the tape, which
    /// has no more cells than can be counted.
    pub open spec fn allows(self, i: Instr) -> bool {
        match i {
            Instr::Modify(c, _) => self.reaches(c),
            Instr::Output(c) => self.reaches(c),
            Instr::Input(c) => self.reaches(c),
            Instr::SetCell(c, _) => self.reaches(c),
            Instr::AddMultiple { target, base, .. } => self.reaches(target) && self.reaches(base),
            Instr::BoundsCheck { start, length } => 0 <= self.state.pointer + start + length
                <= usize::MAX,
            _ => true,
        }
    }

    /// The range of a bounds check lies on the tape, which begins at the
    /// first cell and has no more cells than can be counted.
    pub open spec fn on_tape(self, start: int, length: int) -> bool {
        0 <= self.state.pointer + start && 0 <= length && self.state.pointer + start + length
            <= usize::MAX
    }

    /// What an instruction that is no block does: a bounds check makes the
    /// tape reach up to the end of its range.
    pub open spec fn apply(self, i: Instr) -> Reached {
        match i {
            Instr::BoundsCheck { start, length } => Reached {
                reach: if self.state.pointer + start + length > self.reach {
                    self.state.pointer + start + length
                } else {
                    self.reach
                },
                ..self
            },
            _ => Reached { state: self.state.apply(i), ..self },
        }
    }
}

/// The state after an instruction, where it comes to an end within the fuel
/// and reads and writes no cell out of reach.
pub open spec fn reach_instr(i: Instr, c: Reached, fuel: nat) -> Option<Reached>
    decreases fuel, i, 0int,
{
    match i {
        Instr::Loop(_, cell, body) => if !c.reaches(cell) {
            None
        } else if c.state.read(cell) == 0 {
            Some(c)
        } else if fuel == 0 {
            None
        } else {
            match reach_list(body, c, (fuel - 1) as nat) {
                None => None,
                Some(next) => reach_instr(i, next, (fuel - 1) as nat),
            }
        },
        Instr::If(_, cell, body) => if !c.reaches(cell) {
            None
        } else if c.state.read(cell) == 0 {
            Some(c)
        } else {
            reach_list(body, c, fuel)
        },
        _ => if c.allows(i) {
            Some(c.apply(i))
        } else {
            None
        },
    }
}

/// The state after a list of instructions, where it comes to an end within
/// the fuel and reads and writes no cell out of reach.
pub open spec fn reach_list(s: Seq<Instr>, c: Reached, fuel: nat) -> Option<Reached>
    decreases fuel, s, 1int,
{
    if s.len() == 0 {
        Some(c)
    } else {
        match reach_list(s.drop_last(), c, fuel) {
            None => None,
            Some(next) => reach_instr(s.last(), next, fuel),
        }
    }
}

/// A run within reach is a run.
pub proof fn lemma_reach_instr_runs(i: Instr, c: Reached, fuel: nat)
    ensures
        reach_instr(i, c, fuel) matches Some(end) ==> run_instr(i, c.state, fuel) == Some(
            end.state,
        ) && end.reach >= c.reach,
    decreases fuel, i, 0int,
{
    match i {
        Instr::Loop(_, cell, body) => {
            if c.reaches(cell) && c.state.read(cell) != 0 && fuel > 0 {
                lemma_reach_list_runs(body, c, (fuel - 1) as nat);
                match reach_list(body, c, (fuel - 1) as nat) {
                    Some(next) => lemma_reach_instr_runs(i, next, (fuel - 1) as nat),
                    None => {},
                }
            }
        },
        Instr::If(_, cell, body) => {
            lemma_reach_list_runs(body, c, fuel);
        },
        _ => {},
    }
}

pub proof fn lemma_reach_list_runs(s: Seq<Instr>, c: Reached, fuel: nat)
    ensures
        reach_list(s, c, fuel) matches Some(end) ==> run_list(s, c.state, fuel) == Some(end.state)
            && end.reach >= c.reach,
    decreases fuel, s, 1int,
{
    if s.len() > 0 {
        lemma_reach_list_runs(s.drop_last(), c, fuel);
        match reach_list(s.drop_last(), c, fuel) {
            Some(next) => lemma_reach_instr_runs(s.last(), next, fuel),
            None => {},
        }
    }
}

/// The state after an instruction, where it comes to an end within the fuel
/// and the range of every bounds check lies on the tape. Reads and writes
/// are not held to the reach.
pub open spec fn guarded_instr(i: Instr, c: Reached, fuel: nat) -> Option<Reached>
    decreases fuel, i, 0int,
{
    match i {
        Instr::Loop(_, cell, body) => if c.state.read(cell) == 0 {
            Some(c)
        } else if fuel == 0 {
            None
        } else {
            match guarded_list(body, c, (fuel - 1) as nat) {
                None => None,
                Some(next) => guarded_instr(i, next, (fuel - 1) as nat),
            }
        },
        Instr::If(_, cell, body) => if c.state.read(cell) == 0 {
            Some(c)
        } else {
            guarded_list(body, c, fuel)
        },
        Instr::BoundsCheck { start, length } => if c.on_tape(start, length) {
            Some(c.apply(i))
        } else {
            None
        },
        _ => Some(c.apply(i)),
    }
}

/// The state after a list of instructions, where it comes to an end within
/// the fuel and the range of every bounds check lies on the tape.
pub open spec fn guarded_list(s: Seq<Instr>, c: Reached, fuel: nat) -> Option<Reached>
    decreases fuel, s, 1int,
{
    if s.len() == 0 {
        Some(c)
    } else {
        match guarded_list(s.drop_last(), c, fuel) {
            None => None,
            Some(next) => guarded_instr(s.last(), next, fuel),
        }
    }
}

/// Every read and write of a run of the list falls on a cell that a bounds
/// check has made sure of before: a run in which the range of every bounds
/// check lies on the tape stays within reach.
pub open spec fn covered(s: Seq<Instr>) -> bool {
    forall|c: Reached, fuel: nat|
        (#[trigger] guarded_list(s, c, fuel)) is Some ==> reach_list(s, c, fuel) == guarded_list(
            s,
            c,
            fuel,
        )
}

} // verus!
