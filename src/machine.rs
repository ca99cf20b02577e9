use vstd::prelude::*;
use crate::ast::{Tree, TreeKind};

verus! {

broadcast use {vstd::seq::axiom_seq_index_decreases, vstd::seq::axiom_seq_subrange_decreases};

/// Why a run stopped before the end of the program.
#[derive(Copy, Clone, Debug, PartialEq, Eq, Structural)]
pub enum InterpretationError {
    /// A `Previous` would have moved the pointer below cell 0.
    PointerUnderflow,
    /// A `Next` would have moved the pointer past the last index a tape can have.
    PointerOverflow,
    /// A loop was about to start one iteration more than the run's budget allowed.
    StepLimitReached,
}

pub type InterpretationResult = Result<(), InterpretationError>;

/// The state of the abstract machine: the cells grown so far, the pointer,
/// the input bytes not yet read and every byte written so far.
pub struct Machine {
    pub tape: Seq<u8>,
    pub ptr: nat,
    pub input: Seq<u8>,
    pub output: Seq<u8>,
}

/// Pointers stay below this bound, so that the tape up to the pointer fits in memory.
pub open spec fn pointer_bound() -> nat {
    usize::MAX as nat
}

/// The tape grown with zero cells so that it holds the cell at `p`.
pub open spec fn expand(tape: Seq<u8>, p: nat) -> Seq<u8> {
    if p < tape.len() {
        tape
    } else {
        tape + Seq::new((p + 1 - tape.len()) as nat, |i: int| 0u8)
    }
}

/// The machine with its tape grown to hold the current cell.
pub open spec fn grown(m: Machine) -> Machine {
    Machine { tape: expand(m.tape, m.ptr), ..m }
}

/// The current cell (after growing the tape).
pub open spec fn cell(m: Machine) -> u8 {
    expand(m.tape, m.ptr)[m.ptr as int]
}

/// The machine with the current cell set to `v` (after growing the tape).
pub open spec fn set_cell(m: Machine, v: u8) -> Machine {
    Machine { tape: expand(m.tape, m.ptr).update(m.ptr as int, v), ..m }
}

/// Cell arithmetic is modulo 256.
pub open spec fn wrap(v: int) -> u8 {
    (v % 256) as u8
}

/// One instruction that is neither a loop nor a program.
pub open spec fn step(t: Tree, m: Machine) -> (Machine, Option<InterpretationError>) {
    match t.kind {
        TreeKind::Next(n) => if m.ptr + n < pointer_bound() {
            (Machine { ptr: m.ptr + n, ..m }, None)
        } else {
            (m, Some(InterpretationError::PointerOverflow))
        },
        TreeKind::Previous(n) => if n > m.ptr {
            (m, Some(InterpretationError::PointerUnderflow))
        } else {
            (Machine { ptr: (m.ptr - n) as nat, ..m }, None)
        },
        TreeKind::Increment(n) => (set_cell(m, wrap(cell(m) + n)), None),
        TreeKind::Decrement(n) => (set_cell(m, wrap(cell(m) - n)), None),
        TreeKind::SetCell(v) => (set_cell(m, wrap(v as int)), None),
        TreeKind::Output => (Machine { output: m.output.push(cell(m)), ..grown(m) }, None),
        TreeKind::Input => if m.input.len() > 0 {
            (Machine { input: m.input.drop_first(), ..set_cell(m, m.input[0]) }, None)
        } else {
            (grown(m), None)
        },
        _ => (m, None),
    }
}

/// Runs a node from machine `m`. Each loop may start at most `fuel` iterations,
/// and each iteration's body runs with one less; a run that would need more
/// stops with `StepLimitReached`. A stop returns the machine as it was then.
pub open spec fn run(t: Tree, m: Machine, fuel: nat) -> (Machine, Option<InterpretationError>)
    decreases fuel, t, 2nat,
{
    match t.kind {
        TreeKind::Program(s) => run_seq(s, m, fuel),
        TreeKind::Loop(s) => run_loop(s, m, fuel),
        _ => step(t, m),
    }
}

/// Runs a sibling list in order, stopping at the first error.
pub open spec fn run_seq(s: Seq<Tree>, m: Machine, fuel: nat) -> (Machine, Option<InterpretationError>)
    decreases fuel, s, 1nat,
{
    if s.len() == 0 {
        (m, None)
    } else {
        let (m1, e) = run_seq(s.drop_last(), m, fuel);
        if e is Some {
            (m1, e)
        } else {
            run(s.last(), m1, fuel)
        }
    }
}

/// A loop with body `s`: tests the current cell before every iteration.
pub open spec fn run_loop(s: Seq<Tree>, m: Machine, fuel: nat) -> (Machine, Option<InterpretationError>)
    decreases fuel, s, 0nat,
{
    let m0 = grown(m);
    if cell(m) == 0 {
        (m0, None)
    } else if fuel == 0 {
        (m0, Some(InterpretationError::StepLimitReached))
    } else {
        let (m1, e) = run_seq(s, m0, (fuel - 1) as nat);
        if e is Some {
            (m1, e)
        } else {
            run_loop(s, m1, (fuel - 1) as nat)
        }
    }
}

/// A fresh machine: no cells yet, pointer at 0, nothing written.
pub open spec fn fresh(input: Seq<u8>) -> Machine {
    Machine { tape: Seq::empty(), ptr: 0, input, output: Seq::empty() }
}

} // verus!
