use vstd::prelude::*;
use super::exec::{eval_leaf, Machine, Value};
use super::instruction::Op;
use super::laws::lemma_failed_stays;
use super::ModuleView;

verus! {

/// The end of the bounds check that the machine stands at and passes;
/// nothing where it stands at none, or fails on it.
pub open spec fn check_end(m: ModuleView, s: Machine) -> int {
    if s.running() && !s.blocked(m) {
        match s.current(m) {
            Some(Op::BoundsCheck(_, end)) => match eval_leaf(s.registers, end) {
                Ok(Value::I64(e)) => if e <= usize::MAX {
                    e as int
                } else {
                    0
                },
                _ => 0,
            },
            _ => 0,
        }
    } else {
        0
    }
}

/// The greatest end of the bounds checks that the machine passes within
/// the next `fuel` steps.
pub open spec fn reached(m: ModuleView, s: Machine, fuel: nat) -> int
    decreases fuel,
{
    if fuel == 0 || !s.running() || s.blocked(m) {
        0
    } else {
        let rest = reached(m, s.step(m), (fuel - 1) as nat);
        if check_end(m, s) >= rest {
            check_end(m, s)
        } else {
            rest
        }
    }
}

/// The cell that the machine reads or writes next, where it stands at a
/// load or a store.
pub open spec fn next_access(m: ModuleView, s: Machine) -> Option<int> {
    if s.running() && !s.blocked(m) {
        match s.current(m) {
            Some(Op::LoadCell(_, index)) => match eval_leaf(s.registers, index) {
                Ok(Value::I64(a)) => Some(a as int),
                _ => None,
            },
            Some(Op::StoreCell(index, _)) => match eval_leaf(s.registers, index) {
                Ok(Value::I64(a)) => Some(a as int),
                _ => None,
            },
            _ => None,
        }
    } else {
        None
    }
}

/// One step changes the length of the tape only at a bounds check that the
/// machine passes, and then to the end of that check where the tape is
/// shorter.
pub proof fn lemma_step_tape(m: ModuleView, s: Machine)
    requires
        s.running(),
        !s.blocked(m),
    ensures
        s.step(m).cells.len() == if check_end(m, s) >= s.cells.len() {
            check_end(m, s)
        } else {
            s.cells.len() as int
        },
{
    match s.current(m) {
        Some(op) => {
            match op {
                Op::Jump(t) => {},
                Op::Branch(c, t, e) => {},
                Op::LoadCell(target, index) => {},
                Op::StoreCell(index, value) => {},
                Op::BoundsCheck(lo, end) => {},
                Op::Assign(target, e) => {},
                Op::Output(value) => {},
                Op::Input(target, default) => {},
                Op::Nop => {},
            }
        },
        None => {},
    }
}

/// The tape at the end of a run reaches as far as it did, or as far as the
/// bounds checks that the run has passed have made it reach.
pub proof fn lemma_tape_is_reached(m: ModuleView, s: Machine, fuel: nat)
    ensures
        s.run(m, fuel).cells.len() == if reached(m, s, fuel) >= s.cells.len() {
            reached(m, s, fuel)
        } else {
            s.cells.len() as int
        },
        reached(m, s, fuel) >= 0,
    decreases fuel,
{
    if fuel > 0 && s.running() && !s.blocked(m) {
        lemma_step_tape(m, s);
        lemma_tape_is_reached(m, s.step(m), (fuel - 1) as nat);
    }
}

/// A run of so many steps and then of so many more is a run of all of
/// them.
pub proof fn lemma_run_on(m: ModuleView, s: Machine, a: nat, b: nat)
    ensures
        s.run(m, a + b) == s.run(m, a).run(m, b),
    decreases a,
{
    if a == 0 || !s.running() || s.blocked(m) {
        if a > 0 {
            assert(s.run(m, a) == s);
            assert(s.run(m, a + b) == s);
            assert(s.run(m, b) == s);
        }
    } else {
        lemma_run_on(m, s.step(m), (a - 1) as nat, b);
        assert(((a + b) - 1) as nat == (a - 1) as nat + b);
    }
}

/// What a run has reached was the end of a bounds check that it passed.
pub proof fn lemma_reached_by(m: ModuleView, s: Machine, fuel: nat) -> (k: nat)
    requires
        reached(m, s, fuel) > 0,
    ensures
        k < fuel,
        check_end(m, s.run(m, k)) == reached(m, s, fuel),
    decreases fuel,
{
    let rest = reached(m, s.step(m), (fuel - 1) as nat);
    if check_end(m, s) >= rest {
        assert(s.run(m, 0) == s);
        0
    } else {
        let j = lemma_reached_by(m, s.step(m), (fuel - 1) as nat);
        lemma_run_on(m, s, 1, j);
        assert(s.run(m, 1) == s.step(m)) by {
            assert(s.step(m).run(m, 0) == s.step(m));
        }
        j + 1
    }
}

/// Every load and store of a run that does not fail falls on a cell that a
/// bounds check on the way has made sure of: where the program, started on
/// a machine without cells, stands after `k` steps at a load or a store of
/// the cell `a`, and the run goes on without a failure, a bounds check
/// that the run has passed before has an end beyond `a`.
pub proof fn lemma_access_checked(m: ModuleView, s: Machine, k: nat, fuel: nat) -> (j: nat)
    requires
        s.cells.len() == 0,
        k < fuel,
        !(s.started(m).run(m, fuel).status is Failed),
        next_access(m, s.started(m).run(m, k)) is Some,
    ensures
        j < k,
        next_access(m, s.started(m).run(m, k)).unwrap() < check_end(m, s.started(m).run(m, j)),
{
    let start = s.started(m);
    let t = start.run(m, k);
    let a = next_access(m, t).unwrap();
    // The step at the access does not fail.
    lemma_run_on(m, start, k, 1);
    lemma_run_on(m, start, k + 1, (fuel - k - 1) as nat);
    assert(t.run(m, 1) == t.step(m)) by {
        assert(t.step(m).run(m, 0) == t.step(m));
    }
    if t.step(m).status is Failed {
        lemma_failed_stays(m, t.step(m), (fuel - k - 1) as nat);
    }
    // So the cell lies on the tape, which is as long as the run has reached.
    assert(start.cells.len() == 0) by {
        match m.entry {
            Some(entry) => {},
            None => {},
        }
    }
    lemma_tape_is_reached(m, start, k);
    assert(a < t.cells.len()) by {
        match t.current(m) {
            Some(Op::LoadCell(target, index)) => {},
            Some(Op::StoreCell(index, value)) => {},
            _ => {},
        }
    }
    lemma_reached_by(m, start, k)
}

} // verus!
