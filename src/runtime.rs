use vstd::prelude::*;
use crate::code_run::op_tree;
use crate::codegen::{CodeOp, GROWTH_MARGIN, INITIAL_CELLS};
use crate::machine::{InterpretationError, Machine, cell, expand, set_cell, step, wrap};

verus! {

/// Printed by the generated program when it cannot allocate its first tape.
pub const ALLOC_FAILED_TEXT: &'static str = "\nError: Failed to allocate cell array\n";

/// Printed by the generated program when it cannot grow its tape.
pub const RESIZE_FAILED_TEXT: &'static str = "\nError: Failed to resize cell array\n";

/// Printed by the generated program when the pointer would go below cell 0.
pub const INDEX_UNDERFLOW_TEXT: &'static str = "\nError: Tried to decrement index, resulting underflow\n";

/// Printed by the generated program when the pointer would pass the last index.
pub const INDEX_OVERFLOW_TEXT: &'static str = "\nError: Tried to increment index, resulting overflow\n";

/// The fatal conditions of the generated program, each with its message.
#[derive(Copy, Clone, Debug, PartialEq, Eq, Structural)]
pub enum FatalMessage {
    AllocFailed,
    ResizeFailed,
    IndexUnderflow,
    IndexOverflow,
}

/// The routines of the generated program's runtime. Every routine takes the
/// tape, its length and the pointer (all by reference); all but `Resize`,
/// `Output` and `Input` also take an amount.
#[derive(Copy, Clone, Debug, PartialEq, Eq, Structural)]
pub enum Routine {
    Resize,
    Next,
    Previous,
    Increment,
    Decrement,
    SetCell,
    Output,
    Input,
}

/// One instruction of a runtime routine or of the prologue. Registers are
/// numbered 0 to 3; jump targets are indices of `Block` markers further on.
/// Wide values are 64-bit, byte values 8-bit.
#[derive(Copy, Clone, Debug, PartialEq, Eq, Structural)]
pub enum RtInstr {
    /// Starts a new basic block; reached by falling through or by a jump.
    Block,
    /// The routine's amount argument.
    Param(u8),
    /// A wide constant.
    Const(u8, u64),
    LoadLen(u8),
    LoadIndex(u8),
    StoreLen(u8),
    StoreIndex(u8),
    /// Wide addition and subtraction, modulo 2^64.
    AddWide(u8, u8, u8),
    SubWide(u8, u8, u8),
    /// Byte addition and subtraction, modulo 256.
    AddByte(u8, u8, u8),
    SubByte(u8, u8, u8),
    /// Reads the cell at the pointer.
    LoadCell(u8),
    /// Writes the low byte of a register to the cell at the pointer.
    StoreCell(u8),
    /// Jumps when the first register is below the second (unsigned), else falls through.
    JumpIfLess(u8, u8, usize),
    /// Jumps when the register is negative (an end of input), else falls through.
    JumpIfNegative(u8, usize),
    Jump(usize),
    /// Allocates a buffer of the register's size; the result may be null.
    Malloc(u8),
    /// Jumps when the last allocation returned null, else falls through.
    JumpIfNull(usize),
    /// Fills the new buffer's first (register) bytes with zeros.
    ZeroFresh(u8),
    /// Copies the tape's first (register) bytes into the new buffer.
    CopyToFresh(u8),
    /// Releases the tape's buffer.
    FreeTape,
    /// Makes the new buffer the tape.
    InstallFresh,
    /// Writes the low byte of a register to standard output and flushes.
    PutChar(u8),
    /// Reads one byte from standard input; -1 at the end of input.
    GetChar(u8),
    /// Runs the `Resize` routine.
    CallResize,
    Return,
    /// Prints the message and ends the process with status 1.
    Fatal(FatalMessage),
}

/// What the runtime sees: the tape buffer, its recorded length, the pointer,
/// the input still to come, the bytes written, and whether allocations fail.
pub struct RtState {
    pub tape: Seq<u8>,
    pub len: nat,
    pub index: nat,
    pub input: Seq<u8>,
    pub output: Seq<u8>,
    pub alloc_fails: bool,
}

/// How a routine ends.
#[derive(Copy, Clone, Debug, PartialEq, Eq, Structural)]
pub enum RtExit {
    Return,
    Fatal(FatalMessage),
    /// A jump that does not lead forward: no routine of this library has one.
    Malformed,
}

/// A routine's registers and the buffer of its last allocation (`None`: null).
pub struct Frame {
    pub regs: Seq<int>,
    pub fresh: Option<Seq<u8>>,
}

pub open spec fn wide(x: int) -> int {
    x % (u64::MAX as int + 1)
}

pub open spec fn byte(x: int) -> int {
    x % 256
}

pub open spec fn reg(f: Frame, r: u8) -> int {
    f.regs[r as int]
}

pub open spec fn set_reg(f: Frame, r: u8, v: int) -> Frame {
    Frame { regs: f.regs.update(r as int, v), ..f }
}

pub open spec fn zeros(n: nat) -> Seq<u8> {
    Seq::new(n, |i: int| 0u8)
}

/// A buffer of `n` bytes whose contents are not known.
pub open spec fn unknown_bytes(n: nat) -> Seq<u8> {
    Seq::new(n, |i: int| arbitrary::<u8>())
}

/// `buf` with its first `k` bytes taken from `tape` (as far as `tape` goes).
pub open spec fn copied(buf: Seq<u8>, tape: Seq<u8>, k: int) -> Seq<u8> {
    Seq::new(buf.len(), |i: int| if i < k && i < tape.len() { tape[i] } else { buf[i] })
}

/// Runs `code` from index `pc`.
pub open spec fn rt_exec(code: Seq<RtInstr>, pc: nat, f: Frame, s: RtState, amount: nat) -> (RtState, RtExit)
    decreases code.len() - pc,
{
    if pc >= code.len() {
        (s, RtExit::Return)
    } else {
        let next = pc + 1;
        match code[pc as int] {
            RtInstr::Block => rt_exec(code, next, f, s, amount),
            RtInstr::Param(d) => rt_exec(code, next, set_reg(f, d, amount as int), s, amount),
            RtInstr::Const(d, v) => rt_exec(code, next, set_reg(f, d, v as int), s, amount),
            RtInstr::LoadLen(d) => rt_exec(code, next, set_reg(f, d, s.len as int), s, amount),
            RtInstr::LoadIndex(d) => rt_exec(code, next, set_reg(f, d, s.index as int), s, amount),
            RtInstr::StoreLen(r) => rt_exec(code, next, f, RtState { len: reg(f, r) as nat, ..s }, amount),
            RtInstr::StoreIndex(r) => rt_exec(code, next, f, RtState { index: reg(f, r) as nat, ..s }, amount),
            RtInstr::AddWide(d, a, b) => rt_exec(code, next, set_reg(f, d, wide(reg(f, a) + reg(f, b))), s, amount),
            RtInstr::SubWide(d, a, b) => rt_exec(code, next, set_reg(f, d, wide(reg(f, a) - reg(f, b))), s, amount),
            RtInstr::AddByte(d, a, b) => rt_exec(code, next, set_reg(f, d, byte(reg(f, a) + reg(f, b))), s, amount),
            RtInstr::SubByte(d, a, b) => rt_exec(code, next, set_reg(f, d, byte(reg(f, a) - reg(f, b))), s, amount),
            RtInstr::LoadCell(d) => rt_exec(code, next, set_reg(f, d, s.tape[s.index as int] as int), s, amount),
            RtInstr::StoreCell(r) => rt_exec(
                code,
                next,
                f,
                RtState { tape: s.tape.update(s.index as int, byte(reg(f, r)) as u8), ..s },
                amount,
            ),
            RtInstr::JumpIfLess(a, b, t) => if reg(f, a) < reg(f, b) {
                if pc < t <= code.len() { rt_exec(code, t as nat, f, s, amount) } else { (s, RtExit::Malformed) }
            } else {
                rt_exec(code, next, f, s, amount)
            },
            RtInstr::JumpIfNegative(r, t) => if reg(f, r) < 0 {
                if pc < t <= code.len() { rt_exec(code, t as nat, f, s, amount) } else { (s, RtExit::Malformed) }
            } else {
                rt_exec(code, next, f, s, amount)
            },
            RtInstr::Jump(t) => if pc < t <= code.len() {
                rt_exec(code, t as nat, f, s, amount)
            } else {
                (s, RtExit::Malformed)
            },
            RtInstr::Malloc(r) => {
                let fresh = if s.alloc_fails { None } else { Some(unknown_bytes(reg(f, r) as nat)) };
                rt_exec(code, next, Frame { fresh, ..f }, s, amount)
            },
            RtInstr::JumpIfNull(t) => if f.fresh is None {
                if pc < t <= code.len() { rt_exec(code, t as nat, f, s, amount) } else { (s, RtExit::Malformed) }
            } else {
                rt_exec(code, next, f, s, amount)
            },
            RtInstr::ZeroFresh(r) => {
                let fresh = match f.fresh {
                    Some(b) => Some(Seq::new(b.len(), |i: int| if i < reg(f, r) { 0u8 } else { b[i] })),
                    None => None,
                };
                rt_exec(code, next, Frame { fresh, ..f }, s, amount)
            },
            RtInstr::CopyToFresh(r) => {
                let fresh = match f.fresh {
                    Some(b) => Some(copied(b, s.tape, reg(f, r))),
                    None => None,
                };
                rt_exec(code, next, Frame { fresh, ..f }, s, amount)
            },
            RtInstr::FreeTape => rt_exec(code, next, f, s, amount),
            RtInstr::InstallFresh => match f.fresh {
                Some(b) => rt_exec(code, next, f, RtState { tape: b, ..s }, amount),
                None => (s, RtExit::Malformed),
            },
            RtInstr::PutChar(r) => rt_exec(
                code,
                next,
                f,
                RtState { output: s.output.push(byte(reg(f, r)) as u8), ..s },
                amount,
            ),
            RtInstr::GetChar(d) => if s.input.len() == 0 {
                rt_exec(code, next, set_reg(f, d, -1), s, amount)
            } else {
                rt_exec(code, next, set_reg(f, d, s.input[0] as int), RtState { input: s.input.drop_first(), ..s }, amount)
            },
            RtInstr::CallResize => {
                let (s1, x) = resize_spec(s);
                if x == RtExit::Return {
                    rt_exec(code, next, f, s1, amount)
                } else {
                    (s1, x)
                }
            },
            RtInstr::Return => (s, RtExit::Return),
            RtInstr::Fatal(m) => (s, RtExit::Fatal(m)),
        }
    }
}

/// Runs `code` from its start with fresh registers and no allocation yet.
pub open spec fn rt_run(code: Seq<RtInstr>, s: RtState, amount: nat) -> (RtState, RtExit) {
    rt_exec(code, 0, Frame { regs: Seq::new(4, |i: int| 0int), fresh: None }, s, amount)
}

/// Growing the tape: when the pointer is at or past the recorded length, a
/// buffer of `index + GROWTH_MARGIN` zero bytes replaces the tape, keeping the
/// old cells; a failed allocation is fatal.
pub open spec fn resize_spec(s: RtState) -> (RtState, RtExit) {
    if s.index < s.len {
        (s, RtExit::Return)
    } else if s.alloc_fails {
        (s, RtExit::Fatal(FatalMessage::ResizeFailed))
    } else {
        let n = wide(s.index + GROWTH_MARGIN as int) as nat;
        (RtState { tape: copied(zeros(n), s.tape, s.len as int), len: n, ..s }, RtExit::Return)
    }
}

/// Grows the tape, then applies `g` to the grown state.
pub open spec fn after_resize(s: RtState, g: spec_fn(RtState) -> (RtState, RtExit)) -> (RtState, RtExit) {
    let (s1, x) = resize_spec(s);
    if x == RtExit::Return { g(s1) } else { (s1, x) }
}

/// What each routine does, with `amount` its amount argument.
pub open spec fn routine_spec(r: Routine, s: RtState, amount: nat) -> (RtState, RtExit) {
    match r {
        Routine::Resize => resize_spec(s),
        Routine::Next => if amount < wide(usize::MAX - s.index) {
            (RtState { index: wide(s.index + amount as int) as nat, ..s }, RtExit::Return)
        } else {
            (s, RtExit::Fatal(FatalMessage::IndexOverflow))
        },
        Routine::Previous => if s.index < amount {
            (s, RtExit::Fatal(FatalMessage::IndexUnderflow))
        } else {
            (RtState { index: wide(s.index - amount) as nat, ..s }, RtExit::Return)
        },
        Routine::Increment => after_resize(s, |t: RtState|
            (RtState { tape: t.tape.update(t.index as int, byte(t.tape[t.index as int] + amount) as u8), ..t }, RtExit::Return)),
        Routine::Decrement => after_resize(s, |t: RtState|
            (RtState { tape: t.tape.update(t.index as int, byte(t.tape[t.index as int] - amount) as u8), ..t }, RtExit::Return)),
        Routine::SetCell => after_resize(s, |t: RtState|
            (RtState { tape: t.tape.update(t.index as int, byte(amount as int) as u8), ..t }, RtExit::Return)),
        Routine::Output => after_resize(s, |t: RtState|
            (RtState { output: t.output.push(t.tape[t.index as int]), ..t }, RtExit::Return)),
        Routine::Input => after_resize(s, |t: RtState|
            if t.input.len() == 0 {
                (t, RtExit::Return)
            } else {
                (RtState { tape: t.tape.update(t.index as int, t.input[0]), input: t.input.drop_first(), ..t }, RtExit::Return)
            }),
    }
}

/// The program's prologue: the tape becomes `INITIAL_CELLS` zero cells with
/// the pointer at 0; a failed allocation is fatal.
pub open spec fn prologue_spec(s: RtState) -> (RtState, RtExit) {
    let s1 = RtState { len: INITIAL_CELLS as nat, index: 0, ..s };
    if s.alloc_fails {
        (s1, RtExit::Fatal(FatalMessage::AllocFailed))
    } else {
        (RtState { tape: zeros(INITIAL_CELLS as nat), ..s1 }, RtExit::Return)
    }
}

pub open spec fn resize_seq() -> Seq<RtInstr> {
    seq![
        RtInstr::LoadLen(0),
        RtInstr::LoadIndex(1),
        RtInstr::JumpIfLess(1, 0, 18),
        RtInstr::Block,
        RtInstr::Const(2, GROWTH_MARGIN),
        RtInstr::AddWide(2, 1, 2),
        RtInstr::Malloc(2),
        RtInstr::JumpIfNull(15),
        RtInstr::Block,
        RtInstr::ZeroFresh(2),
        RtInstr::CopyToFresh(0),
        RtInstr::FreeTape,
        RtInstr::InstallFresh,
        RtInstr::StoreLen(2),
        RtInstr::Jump(18),
        RtInstr::Block,
        RtInstr::FreeTape,
        RtInstr::Fatal(FatalMessage::ResizeFailed),
        RtInstr::Block,
        RtInstr::Return,
    ]
}

proof fn lemma_resize_code(s: RtState, a: nat)
    ensures
        rt_run(resize_seq(), s, a) == routine_spec(Routine::Resize, s, a),
{
    reveal_with_fuel(rt_exec, 21);
    let code = resize_seq();
    if !(s.index < s.len) && !s.alloc_fails {
        let n = wide(s.index + GROWTH_MARGIN as int) as nat;
        assert(copied(Seq::new(n, |i: int| if i < n { 0u8 } else { unknown_bytes(n)[i] }), s.tape, s.len as int)
            =~= copied(zeros(n), s.tape, s.len as int));
    }
}

pub open spec fn next_seq() -> Seq<RtInstr> {
    seq![
        RtInstr::Param(0),
        RtInstr::LoadIndex(1),
        RtInstr::Const(2, usize::MAX as u64),
        RtInstr::SubWide(2, 2, 1),
        RtInstr::JumpIfLess(0, 2, 8),
        RtInstr::Block,
        RtInstr::FreeTape,
        RtInstr::Fatal(FatalMessage::IndexOverflow),
        RtInstr::Block,
        RtInstr::AddWide(1, 1, 0),
        RtInstr::StoreIndex(1),
        RtInstr::Return,
    ]
}

pub open spec fn previous_seq() -> Seq<RtInstr> {
    seq![
        RtInstr::Param(0),
        RtInstr::LoadIndex(1),
        RtInstr::JumpIfLess(1, 0, 7),
        RtInstr::Block,
        RtInstr::SubWide(1, 1, 0),
        RtInstr::StoreIndex(1),
        RtInstr::Return,
        RtInstr::Block,
        RtInstr::FreeTape,
        RtInstr::Fatal(FatalMessage::IndexUnderflow),
    ]
}

pub open spec fn increment_seq() -> Seq<RtInstr> {
    seq![
        RtInstr::CallResize,
        RtInstr::Param(0),
        RtInstr::LoadCell(1),
        RtInstr::AddByte(1, 1, 0),
        RtInstr::StoreCell(1),
        RtInstr::Return,
    ]
}

pub open spec fn decrement_seq() -> Seq<RtInstr> {
    seq![
        RtInstr::CallResize,
        RtInstr::Param(0),
        RtInstr::LoadCell(1),
        RtInstr::SubByte(1, 1, 0),
        RtInstr::StoreCell(1),
        RtInstr::Return,
    ]
}

pub open spec fn set_seq() -> Seq<RtInstr> {
    seq![RtInstr::CallResize, RtInstr::Param(0), RtInstr::StoreCell(0), RtInstr::Return]
}

pub open spec fn output_seq() -> Seq<RtInstr> {
    seq![RtInstr::CallResize, RtInstr::LoadCell(0), RtInstr::PutChar(0), RtInstr::Return]
}

pub open spec fn input_seq() -> Seq<RtInstr> {
    seq![
        RtInstr::CallResize,
        RtInstr::GetChar(0),
        RtInstr::JumpIfNegative(0, 5),
        RtInstr::Block,
        RtInstr::StoreCell(0),
        RtInstr::Block,
        RtInstr::Return,
    ]
}

pub open spec fn prologue_seq() -> Seq<RtInstr> {
    seq![
        RtInstr::Const(0, INITIAL_CELLS),
        RtInstr::StoreLen(0),
        RtInstr::Const(1, 0),
        RtInstr::StoreIndex(1),
        RtInstr::Malloc(0),
        RtInstr::JumpIfNull(10),
        RtInstr::Block,
        RtInstr::ZeroFresh(0),
        RtInstr::InstallFresh,
        RtInstr::Jump(12),
        RtInstr::Block,
        RtInstr::Fatal(FatalMessage::AllocFailed),
        RtInstr::Block,
    ]
}

/// The code of each routine.
pub open spec fn routine_seq(r: Routine) -> Seq<RtInstr> {
    match r {
        Routine::Resize => resize_seq(),
        Routine::Next => next_seq(),
        Routine::Previous => previous_seq(),
        Routine::Increment => increment_seq(),
        Routine::Decrement => decrement_seq(),
        Routine::SetCell => set_seq(),
        Routine::Output => output_seq(),
        Routine::Input => input_seq(),
    }
}

proof fn lemma_next_code(s: RtState, a: nat)
    ensures
        rt_run(next_seq(), s, a) == routine_spec(Routine::Next, s, a),
{
    reveal_with_fuel(rt_exec, 13);
}

proof fn lemma_previous_code(s: RtState, a: nat)
    ensures
        rt_run(previous_seq(), s, a) == routine_spec(Routine::Previous, s, a),
{
    reveal_with_fuel(rt_exec, 11);
}

proof fn lemma_increment_code(s: RtState, a: nat)
    ensures
        rt_run(increment_seq(), s, a) == routine_spec(Routine::Increment, s, a),
{
    reveal_with_fuel(rt_exec, 7);
}

proof fn lemma_decrement_code(s: RtState, a: nat)
    ensures
        rt_run(decrement_seq(), s, a) == routine_spec(Routine::Decrement, s, a),
{
    reveal_with_fuel(rt_exec, 7);
}

proof fn lemma_set_code(s: RtState, a: nat)
    ensures
        rt_run(set_seq(), s, a) == routine_spec(Routine::SetCell, s, a),
{
    reveal_with_fuel(rt_exec, 5);
}

proof fn lemma_output_code(s: RtState, a: nat)
    ensures
        rt_run(output_seq(), s, a) == routine_spec(Routine::Output, s, a),
{
    reveal_with_fuel(rt_exec, 5);
    let t = resize_spec(s).0;
    assert(byte(t.tape[t.index as int] as int) as u8 == t.tape[t.index as int]);
}

proof fn lemma_input_code(s: RtState, a: nat)
    ensures
        rt_run(input_seq(), s, a) == routine_spec(Routine::Input, s, a),
{
    reveal_with_fuel(rt_exec, 8);
    let t = resize_spec(s).0;
    if t.input.len() > 0 {
        assert(byte(t.input[0] as int) as u8 == t.input[0]);
    }
}

proof fn lemma_prologue_code(s: RtState)
    ensures
        rt_run(prologue_seq(), s, 0) == prologue_spec(s),
{
    reveal_with_fuel(rt_exec, 14);
    if !s.alloc_fails {
        let n = INITIAL_CELLS as nat;
        assert(Seq::new(n, |i: int| if i < n { 0u8 } else { unknown_bytes(n)[i] }) =~= zeros(n));
    }
}

/// Every routine's code does what `routine_spec` says, on every state and amount.
pub proof fn lemma_routine_code(r: Routine, s: RtState, a: nat)
    ensures
        rt_run(routine_seq(r), s, a) == routine_spec(r, s, a),
{
    match r {
        Routine::Resize => lemma_resize_code(s, a),
        Routine::Next => lemma_next_code(s, a),
        Routine::Previous => lemma_previous_code(s, a),
        Routine::Increment => lemma_increment_code(s, a),
        Routine::Decrement => lemma_decrement_code(s, a),
        Routine::SetCell => lemma_set_code(s, a),
        Routine::Output => lemma_output_code(s, a),
        Routine::Input => lemma_input_code(s, a),
    }
}

/// The code of a runtime routine.
pub fn routine_code(r: Routine) -> (code: Vec<RtInstr>)
    ensures
        code@ == routine_seq(r),
        forall|s: RtState, a: nat| #[trigger] rt_run(code@, s, a) == routine_spec(r, s, a),
{
    let code = match r {
        Routine::Resize => vec![
            RtInstr::LoadLen(0),
            RtInstr::LoadIndex(1),
            RtInstr::JumpIfLess(1, 0, 18),
            RtInstr::Block,
            RtInstr::Const(2, GROWTH_MARGIN),
            RtInstr::AddWide(2, 1, 2),
            RtInstr::Malloc(2),
            RtInstr::JumpIfNull(15),
            RtInstr::Block,
            RtInstr::ZeroFresh(2),
            RtInstr::CopyToFresh(0),
            RtInstr::FreeTape,
            RtInstr::InstallFresh,
            RtInstr::StoreLen(2),
            RtInstr::Jump(18),
            RtInstr::Block,
            RtInstr::FreeTape,
            RtInstr::Fatal(FatalMessage::ResizeFailed),
            RtInstr::Block,
            RtInstr::Return,
        ],
        Routine::Next => vec![
            RtInstr::Param(0),
            RtInstr::LoadIndex(1),
            RtInstr::Const(2, usize::MAX as u64),
            RtInstr::SubWide(2, 2, 1),
            RtInstr::JumpIfLess(0, 2, 8),
            RtInstr::Block,
            RtInstr::FreeTape,
            RtInstr::Fatal(FatalMessage::IndexOverflow),
            RtInstr::Block,
            RtInstr::AddWide(1, 1, 0),
            RtInstr::StoreIndex(1),
            RtInstr::Return,
        ],
        Routine::Previous => vec![
            RtInstr::Param(0),
            RtInstr::LoadIndex(1),
            RtInstr::JumpIfLess(1, 0, 7),
            RtInstr::Block,
            RtInstr::SubWide(1, 1, 0),
            RtInstr::StoreIndex(1),
            RtInstr::Return,
            RtInstr::Block,
            RtInstr::FreeTape,
            RtInstr::Fatal(FatalMessage::IndexUnderflow),
        ],
        Routine::Increment => vec![
            RtInstr::CallResize,
            RtInstr::Param(0),
            RtInstr::LoadCell(1),
            RtInstr::AddByte(1, 1, 0),
            RtInstr::StoreCell(1),
            RtInstr::Return,
        ],
        Routine::Decrement => vec![
            RtInstr::CallResize,
            RtInstr::Param(0),
            RtInstr::LoadCell(1),
            RtInstr::SubByte(1, 1, 0),
            RtInstr::StoreCell(1),
            RtInstr::Return,
        ],
        Routine::SetCell => vec![RtInstr::CallResize, RtInstr::Param(0), RtInstr::StoreCell(0), RtInstr::Return],
        Routine::Output => vec![RtInstr::CallResize, RtInstr::LoadCell(0), RtInstr::PutChar(0), RtInstr::Return],
        Routine::Input => vec![
            RtInstr::CallResize,
            RtInstr::GetChar(0),
            RtInstr::JumpIfNegative(0, 5),
            RtInstr::Block,
            RtInstr::StoreCell(0),
            RtInstr::Block,
            RtInstr::Return,
        ],
    };
    proof {
        assert(code@ =~= routine_seq(r));
        assert forall|s: RtState, a: nat| #[trigger] rt_run(code@, s, a) == routine_spec(r, s, a) by {
            lemma_routine_code(r, s, a);
        }
    }
    code
}

/// The code of the program's prologue, which runs before the first instruction.
pub fn prologue_code() -> (code: Vec<RtInstr>)
    ensures
        code@ == prologue_seq(),
        forall|s: RtState| #[trigger] rt_run(code@, s, 0) == prologue_spec(s),
{
    let code = vec![
        RtInstr::Const(0, INITIAL_CELLS),
        RtInstr::StoreLen(0),
        RtInstr::Const(1, 0),
        RtInstr::StoreIndex(1),
        RtInstr::Malloc(0),
        RtInstr::JumpIfNull(10),
        RtInstr::Block,
        RtInstr::ZeroFresh(0),
        RtInstr::InstallFresh,
        RtInstr::Jump(12),
        RtInstr::Block,
        RtInstr::Fatal(FatalMessage::AllocFailed),
        RtInstr::Block,
    ];
    proof {
        assert(code@ =~= prologue_seq());
        assert forall|s: RtState| #[trigger] rt_run(code@, s, 0) == prologue_spec(s) by {
            lemma_prologue_code(s);
        }
    }
    code
}

/// Cell `i` of a tape, zero past its end.
pub open spec fn cell_at(t: Seq<u8>, i: int) -> u8 {
    if 0 <= i < t.len() { t[i] } else { 0 }
}

/// The runtime's state stands for the abstract machine's: same cells (zero
/// past either tape's end), pointer, input and output; a tape as long as its
/// recorded length; and allocations that succeed.
pub open spec fn corresponds(m: Machine, s: RtState) -> bool {
    &&& s.tape.len() == s.len
    &&& m.ptr == s.index
    &&& m.input == s.input
    &&& m.output == s.output
    &&& !s.alloc_fails
    &&& forall|i: int| #[trigger] cell_at(m.tape, i) == cell_at(s.tape, i)
}

/// The routine that an op of the entry procedure calls, and its amount.
pub open spec fn op_routine(op: CodeOp) -> (Routine, nat) {
    match op {
        CodeOp::Next(n) => (Routine::Next, n as nat),
        CodeOp::Previous(n) => (Routine::Previous, n as nat),
        CodeOp::Increment(n) => (Routine::Increment, n as nat),
        CodeOp::Decrement(n) => (Routine::Decrement, n as nat),
        CodeOp::SetCell(n) => (Routine::SetCell, n as nat),
        CodeOp::Output => (Routine::Output, 0),
        _ => (Routine::Input, 0),
    }
}

/// The fatal condition that stands for an interpreter error.
pub open spec fn fatal_of(e: InterpretationError) -> RtExit {
    match e {
        InterpretationError::PointerUnderflow => RtExit::Fatal(FatalMessage::IndexUnderflow),
        InterpretationError::PointerOverflow => RtExit::Fatal(FatalMessage::IndexOverflow),
        InterpretationError::StepLimitReached => RtExit::Malformed,
    }
}

proof fn lemma_expand_cells(t: Seq<u8>, p: nat)
    ensures
        forall|i: int| #[trigger] cell_at(expand(t, p), i) == cell_at(t, i),
        expand(t, p).len() > p,
{
}

proof fn lemma_resize_keeps(m: Machine, s: RtState)
    requires
        corresponds(m, s),
        s.index + GROWTH_MARGIN <= usize::MAX,
    ensures
        resize_spec(s).1 == RtExit::Return,
        corresponds(m, resize_spec(s).0),
        resize_spec(s).0.index < resize_spec(s).0.len,
        resize_spec(s).0.input == s.input,
        resize_spec(s).0.output == s.output,
        resize_spec(s).0.index == s.index,
{
    if !(s.index < s.len) {
        let n = wide(s.index + GROWTH_MARGIN as int) as nat;
        assert(n == s.index + GROWTH_MARGIN);
        let t = resize_spec(s).0;
        assert forall|i: int| #[trigger] cell_at(m.tape, i) == cell_at(t.tape, i) by {
            assert(cell_at(m.tape, i) == cell_at(s.tape, i));
        }
    }
}

/// Each routine that an op calls does to the runtime's state what the
/// interpreter's step does to the abstract machine, as long as allocations
/// succeed and the pointer leaves room to grow the tape: the same cells,
/// pointer, input and output afterwards, and the matching fatal condition
/// where the step fails.
pub proof fn lemma_routine_agrees_with_step(op: CodeOp, m: Machine, s: RtState)
    requires
        !(op is LoopStart),
        !(op is LoopEnd),
        corresponds(m, s),
        s.index + GROWTH_MARGIN <= usize::MAX,
    ensures
        ({
            let (m2, e) = step(op_tree(op), m);
            let (s2, x) = routine_spec(op_routine(op).0, s, op_routine(op).1);
            &&& e is None ==> x == RtExit::Return && corresponds(m2, s2)
            &&& e matches Some(err) ==> x == fatal_of(err) && err != InterpretationError::StepLimitReached
        }),
{
    let (m2, e) = step(op_tree(op), m);
    let (s2, x) = routine_spec(op_routine(op).0, s, op_routine(op).1);
    let p = m.ptr;
    match op {
        CodeOp::Next(n) => {
            if e is None {
                assert forall|i: int| #[trigger] cell_at(m2.tape, i) == cell_at(s2.tape, i) by {
                    assert(cell_at(m.tape, i) == cell_at(s.tape, i));
                }
            }
        },
        CodeOp::Previous(n) => {
            if e is None {
                assert forall|i: int| #[trigger] cell_at(m2.tape, i) == cell_at(s2.tape, i) by {
                    assert(cell_at(m.tape, i) == cell_at(s.tape, i));
                }
            }
        },
        _ => {
            lemma_resize_keeps(m, s);
            lemma_expand_cells(m.tape, p);
            let t = resize_spec(s).0;
            assert(cell_at(m.tape, p as int) == cell_at(t.tape, p as int));
            assert(cell(m) == t.tape[p as int]);
            assert forall|i: int| #[trigger] cell_at(m2.tape, i) == cell_at(s2.tape, i) by {
                assert(cell_at(m.tape, i) == cell_at(t.tape, i));
                assert(cell_at(expand(m.tape, p), i) == cell_at(m.tape, i));
            }
        },
    }
}

} // verus!
