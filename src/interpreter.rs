use vstd::prelude::*;
use vstd::arithmetic::div_mod::{lemma_fundamental_div_mod, lemma_mod_multiples_vanish};
use crate::ast::{InstructionNode, NodeType, Tree, tree_of, trees_of};
pub use crate::machine::{InterpretationError, InterpretationResult};
use crate::machine::{
    Machine, cell, expand, fresh, run, run_loop, run_seq, wrap,
};

verus! {

broadcast use {
    vstd::std_specs::vec::axiom_vec_decreases_to_view,
    vstd::std_specs::vec::axiom_vec_index_decreases,
};

/// Where the program's input comes from, one byte at a time.
pub trait ByteSource {
    /// Whether `pending` describes this source. A source whose coming input
    /// is not known in advance (a console) keeps the default: no claim.
    open spec fn is_modeled(&self) -> bool {
        false
    }

    /// The bytes that this source will still hand out, in order.
    open spec fn pending(&self) -> Seq<u8> {
        Seq::empty()
    }

    /// The next byte, or `None` at the end of the input.
    fn read(&mut self) -> (r: Option<u8>)
        ensures
            final(self).is_modeled() == old(self).is_modeled(),
            old(self).is_modeled() && old(self).pending().len() == 0 ==> r is None && final(self).pending() == old(self).pending(),
            old(self).is_modeled() && old(self).pending().len() > 0 ==> r == Some(old(self).pending()[0])
                && final(self).pending() == old(self).pending().drop_first(),
    ;
}

/// Where the program's output goes; each byte is delivered at once.
pub trait ByteWriter {
    /// Whether `written` describes this writer. A writer that hands its bytes
    /// on (a console) keeps the default: no claim.
    open spec fn is_modeled(&self) -> bool {
        false
    }

    /// Every byte written so far, in order.
    open spec fn written(&self) -> Seq<u8> {
        Seq::empty()
    }

    fn write(&mut self, val: u8)
        ensures
            final(self).is_modeled() == old(self).is_modeled(),
            old(self).is_modeled() ==> final(self).written() == old(self).written().push(val),
    ;
}

/// Called after each instruction, to slow a run down for watching it.
pub trait Pause {
    fn pause(&mut self);
}

/// A pause that does nothing.
pub struct NoPause;

impl Pause for NoPause {
    fn pause(&mut self) {
    }
}

/// A source that hands out the bytes of a vector.
pub struct VecSource {
    bytes: Vec<u8>,
    pos: usize,
}

impl VecSource {
    pub fn new(bytes: Vec<u8>) -> (r: VecSource)
        ensures
            r.pending() == bytes@,
    {
        proof {
            assert(bytes@.subrange(0, bytes@.len() as int) =~= bytes@);
        }
        VecSource { bytes, pos: 0 }
    }
}

impl ByteSource for VecSource {
    open spec fn is_modeled(&self) -> bool {
        true
    }

    closed spec fn pending(&self) -> Seq<u8> {
        if self.pos <= self.bytes@.len() {
            self.bytes@.subrange(self.pos as int, self.bytes@.len() as int)
        } else {
            Seq::empty()
        }
    }

    fn read(&mut self) -> (r: Option<u8>) {
        if self.pos < self.bytes.len() {
            let b = self.bytes[self.pos];
            self.pos = self.pos + 1;
            proof {
                assert(self.pending() =~= old(self).pending().drop_first());
            }
            Some(b)
        } else {
            None
        }
    }
}

/// A writer that keeps the bytes in a vector.
pub struct VecWriter {
    bytes: Vec<u8>,
}

impl VecWriter {
    pub fn new() -> (r: VecWriter)
        ensures
            r.written() == Seq::<u8>::empty(),
    {
        VecWriter { bytes: Vec::new() }
    }

    /// The bytes written so far.
    pub fn bytes(&self) -> (r: &Vec<u8>)
        ensures
            r@ == self.written(),
    {
        &self.bytes
    }
}

impl ByteWriter for VecWriter {
    open spec fn is_modeled(&self) -> bool {
        true
    }

    closed spec fn written(&self) -> Seq<u8> {
        self.bytes@
    }

    fn write(&mut self, val: u8) {
        self.bytes.push(val);
    }
}

/// The outcome of a run as a result value.
pub open spec fn result_of(e: Option<InterpretationError>) -> InterpretationResult {
    match e {
        None => Ok(()),
        Some(x) => Err(x),
    }
}

/// Runs a program on a fresh machine: cells start at zero and the pointer at
/// cell 0; bytes come from `src` and go to `out`. Every loop may start at most
/// `fuel` iterations (each iteration's body one less), which bounds the run.
pub fn interpret<R: ByteSource, W: ByteWriter, P: Pause>(
    node: &InstructionNode,
    out: &mut W,
    src: &mut R,
    pause: &mut P,
    fuel: u64,
) -> (r: InterpretationResult)
    ensures
        final(out).is_modeled() == old(out).is_modeled(),
        final(src).is_modeled() == old(src).is_modeled(),
        old(out).is_modeled() && old(src).is_modeled() ==> ({
            let (m, e) = run(node@, Machine { output: old(out).written(), ..fresh(old(src).pending()) }, fuel as nat);
            &&& final(out).written() == m.output
            &&& final(src).pending() == m.input
            &&& r == result_of(e)
        }),
{
    let mut context = Context { memory: Vec::with_capacity(30000), p: 0 };
    context.interpret_node(node, out, src, pause, fuel)
}

/// The interpreter's machine: the cells grown so far and the pointer.
struct Context {
    memory: Vec<u8>,
    p: usize,
}

pub open spec fn machine_of(tape: Seq<u8>, p: usize, input: Seq<u8>, output: Seq<u8>) -> Machine {
    Machine { tape, ptr: p as nat, input, output }
}

proof fn lemma_run_seq_stops(s: Seq<Tree>, i: int, m: Machine, fuel: nat)
    requires
        0 <= i <= s.len(),
        run_seq(s.take(i), m, fuel).1 is Some,
    ensures
        run_seq(s, m, fuel) == run_seq(s.take(i), m, fuel),
    decreases s.len() - i,
{
    if i < s.len() {
        assert(s.take(i + 1).drop_last() =~= s.take(i));
        lemma_run_seq_stops(s, i + 1, m, fuel);
    } else {
        assert(s.take(i) =~= s);
    }
}

proof fn lemma_wrap_add(c: u8, n: usize)
    ensures
        ((c as u16 + (n % 256) as u16) % 256) as u8 == wrap(c + n),
{
    lemma_fundamental_div_mod(n as int, 256);
    lemma_mod_multiples_vanish(n as int / 256, c + n as int % 256, 256);
}

proof fn lemma_wrap_sub(c: u8, n: usize)
    ensures
        ((c as u16 + 256 - (n % 256) as u16) % 256) as u8 == wrap(c - n),
{
    lemma_fundamental_div_mod(n as int, 256);
    lemma_mod_multiples_vanish(-(n as int / 256 + 1), c + 256 - n as int % 256, 256);
}

impl Context {
    /// Grows the tape with zero cells until it holds the cell at the pointer.
    fn expand_memory(&mut self)
        ensures
            final(self).memory@ == expand(old(self).memory@, old(self).p as nat),
            final(self).p == old(self).p,
    {
        let ghost orig = self.memory@;
        while self.memory.len() <= self.p
            invariant
                self.p == old(self).p,
                orig == old(self).memory@,
                orig.len() <= self.memory@.len(),
                self.memory@.len() > orig.len() ==> self.memory@.len() <= self.p + 1,
                self.memory@ == orig + Seq::new((self.memory@.len() - orig.len()) as nat, |i: int| 0u8),
            decreases self.p + 1 - self.memory.len(),
        {
            self.memory.push(0);
            proof {
                assert(self.memory@ =~= orig + Seq::new((self.memory@.len() - orig.len()) as nat, |i: int| 0u8));
            }
        }
        proof {
            if self.p < orig.len() {
                assert(self.memory@ =~= orig);
            } else {
                assert(self.memory@ =~= expand(orig, self.p as nat));
            }
        }
    }

    fn interpret_node<W: ByteWriter, R: ByteSource, P: Pause>(
        &mut self,
        node: &InstructionNode,
        out: &mut W,
        src: &mut R,
        pause: &mut P,
        fuel: u64,
    ) -> (r: InterpretationResult)
        requires
            old(self).p < usize::MAX,
        ensures
            final(out).is_modeled() == old(out).is_modeled(),
            final(src).is_modeled() == old(src).is_modeled(),
            old(out).is_modeled() && old(src).is_modeled() ==> ({
                let (m, e) = run(node@, machine_of(old(self).memory@, old(self).p, old(src).pending(), old(out).written()), fuel as nat);
                &&& machine_of(final(self).memory@, final(self).p, final(src).pending(), final(out).written()) == m
                &&& r == result_of(e)
            }),
            final(self).p < usize::MAX,
        decreases fuel, node, 1nat,
    {
        let ghost m0 = machine_of(self.memory@, self.p, src.pending(), out.written());
        match &node.node_type {
            NodeType::Program(nodes) => {
                let r = self.interpret_seq(nodes, out, src, pause, fuel);
                if r.is_err() {
                    return r;
                }
            },
            NodeType::Loop(nodes) => {
                let mut f = fuel;
                loop
                    invariant
                        m0 == machine_of(old(self).memory@, old(self).p, old(src).pending(), old(out).written()),
                        self.p < usize::MAX,
                        f <= fuel,
                        src.is_modeled() == old(src).is_modeled(),
                        out.is_modeled() == old(out).is_modeled(),
                        old(out).is_modeled() && old(src).is_modeled() ==> run(node@, m0, fuel as nat) == run_loop(trees_of(nodes@), machine_of(self.memory@, self.p, src.pending(), out.written()), f as nat),
                        node@.kind == crate::ast::TreeKind::Loop(trees_of(nodes@)),
                    ensures
                        old(out).is_modeled() && old(src).is_modeled() ==> run(node@, m0, fuel as nat) == (machine_of(self.memory@, self.p, src.pending(), out.written()), None::<InterpretationError>),
                        src.is_modeled() == old(src).is_modeled(),
                        out.is_modeled() == old(out).is_modeled(),
                        self.p < usize::MAX,
                    decreases f,
                {
                    self.expand_memory();
                    if self.memory[self.p] == 0 {
                        break;
                    }
                    if f == 0 {
                        return Err(InterpretationError::StepLimitReached);
                    }
                    let r = self.interpret_seq(nodes, out, src, pause, f - 1);
                    f = f - 1;
                    if r.is_err() {
                        return r;
                    }
                }
            },
            NodeType::Next(amount) => {
                if *amount >= usize::MAX - self.p {
                    return Err(InterpretationError::PointerOverflow);
                }
                self.p = self.p + *amount;
            },
            NodeType::Previous(amount) => {
                if *amount > self.p {
                    return Err(InterpretationError::PointerUnderflow);
                }
                self.p = self.p - *amount;
            },
            NodeType::Increment(amount) => {
                self.expand_memory();
                let c = self.memory[self.p];
                proof {
                    lemma_wrap_add(c, *amount);
                }
                let v = ((c as u16 + (*amount % 256) as u16) % 256) as u8;
                self.memory.set(self.p, v);
            },
            NodeType::Decrement(amount) => {
                self.expand_memory();
                let c = self.memory[self.p];
                proof {
                    lemma_wrap_sub(c, *amount);
                }
                let v = ((c as u16 + 256 - (*amount % 256) as u16) % 256) as u8;
                self.memory.set(self.p, v);
            },
            NodeType::Output => {
                self.expand_memory();
                let val = self.memory[self.p];
                out.write(val);
            },
            NodeType::Input => {
                self.expand_memory();
                match src.read() {
                    Some(val) => {
                        self.memory.set(self.p, val);
                    },
                    None => {},
                }
            },
            NodeType::SetCell(val) => {
                self.expand_memory();
                self.memory.set(self.p, (*val % 256) as u8);
            },
        }
        pause.pause();
        Ok(())
    }

    fn interpret_seq<W: ByteWriter, R: ByteSource, P: Pause>(
        &mut self,
        nodes: &Vec<InstructionNode>,
        out: &mut W,
        src: &mut R,
        pause: &mut P,
        fuel: u64,
    ) -> (r: InterpretationResult)
        requires
            old(self).p < usize::MAX,
        ensures
            final(out).is_modeled() == old(out).is_modeled(),
            final(src).is_modeled() == old(src).is_modeled(),
            old(out).is_modeled() && old(src).is_modeled() ==> ({
                let (m, e) = run_seq(trees_of(nodes@), machine_of(old(self).memory@, old(self).p, old(src).pending(), old(out).written()), fuel as nat);
                &&& machine_of(final(self).memory@, final(self).p, final(src).pending(), final(out).written()) == m
                &&& r == result_of(e)
            }),
            final(self).p < usize::MAX,
        decreases fuel, nodes, 0nat,
    {
        let ghost m0 = machine_of(self.memory@, self.p, src.pending(), out.written());
        let ghost s = trees_of(nodes@);
        let mut i: usize = 0;
        proof {
            assert(s.take(0) =~= Seq::<Tree>::empty());
        }
        while i < nodes.len()
            invariant
                m0 == machine_of(old(self).memory@, old(self).p, old(src).pending(), old(out).written()),
                s == trees_of(nodes@),
                i <= nodes@.len(),
                self.p < usize::MAX,
                src.is_modeled() == old(src).is_modeled(),
                out.is_modeled() == old(out).is_modeled(),
                old(out).is_modeled() && old(src).is_modeled() ==> run_seq(s.take(i as int), m0, fuel as nat) == (machine_of(self.memory@, self.p, src.pending(), out.written()), None::<InterpretationError>),
            decreases nodes@.len() - i,
        {
            proof {
                assert(s.take(i + 1).drop_last() =~= s.take(i as int));
                assert(s.take(i + 1).last() == tree_of(nodes@[i as int]));
            }
            let r = self.interpret_node(&nodes[i], out, src, pause, fuel);
            i = i + 1;
            proof {
                if src.is_modeled() && out.is_modeled() {
                    let mi = machine_of(self.memory@, self.p, src.pending(), out.written());
                    assert(run_seq(s.take(i as int), m0, fuel as nat) == (mi, match r { Ok(_) => None::<InterpretationError>, Err(x) => Some(x) }));
                }
            }
            if r.is_err() {
                proof {
                    if src.is_modeled() && out.is_modeled() {
                        lemma_run_seq_stops(s, i as int, m0, fuel as nat);
                    }
                }
                return r;
            }
        }
        proof {
            assert(s.take(i as int) =~= s);
        }
        Ok(())
    }
}

} // verus!
