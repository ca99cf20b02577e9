use vstd::prelude::*;
use crate::ast::{InstructionNode, NodeType, Tree, TreeKind, tree_of, trees_of};

verus! {

broadcast use {
    vstd::std_specs::vec::axiom_vec_decreases_to_view,
    vstd::std_specs::vec::axiom_vec_index_decreases,
    vstd::seq::axiom_seq_index_decreases,
    vstd::seq::axiom_seq_subrange_decreases,
};

/// Cells allocated by the generated program's prologue.
pub const INITIAL_CELLS: u64 = 30000;

/// When the runtime grows the tape for index `i`, the new length is `i + GROWTH_MARGIN`.
pub const GROWTH_MARGIN: u64 = 100;

/// One step of the lowered program. Cell amounts are already reduced modulo
/// 256. A loop is a header (`LoopStart`: leave for the instruction after the
/// matching `LoopEnd` when the current cell is zero, else fall into the body),
/// the body, and `LoopEnd`, which jumps back to the header.
#[derive(Copy, Clone, Debug, PartialEq, Eq, Structural)]
pub enum CodeOp {
    Next(u64),
    Previous(u64),
    Increment(u8),
    Decrement(u8),
    SetCell(u8),
    Output,
    Input,
    /// The loop header; `end` is the index of the matching `LoopEnd`.
    LoopStart { end: usize },
    /// The jump back; `start` is the index of the matching `LoopStart`.
    LoopEnd { start: usize },
}

/// The code of one node placed at index `pc`.
pub open spec fn code_of(t: Tree, pc: nat) -> Seq<CodeOp>
    decreases t, 1nat,
{
    match t.kind {
        TreeKind::Program(s) => code_of_seq(s, pc),
        TreeKind::Loop(s) => {
            let body = code_of_seq(s, pc + 1);
            seq![CodeOp::LoopStart { end: (pc + 1 + body.len()) as usize }] + body + seq![
                CodeOp::LoopEnd { start: pc as usize },
            ]
        },
        TreeKind::Next(n) => seq![CodeOp::Next(n as u64)],
        TreeKind::Previous(n) => seq![CodeOp::Previous(n as u64)],
        TreeKind::Increment(n) => seq![CodeOp::Increment((n % 256) as u8)],
        TreeKind::Decrement(n) => seq![CodeOp::Decrement((n % 256) as u8)],
        TreeKind::SetCell(n) => seq![CodeOp::SetCell((n % 256) as u8)],
        TreeKind::Output => seq![CodeOp::Output],
        TreeKind::Input => seq![CodeOp::Input],
    }
}

/// The code of a sibling list placed at index `pc`: each node's code follows
/// the code of the nodes before it.
pub open spec fn code_of_seq(s: Seq<Tree>, pc: nat) -> Seq<CodeOp>
    decreases s, 0nat,
{
    if s.len() == 0 {
        Seq::empty()
    } else {
        let pre = code_of_seq(s.drop_last(), pc);
        pre + code_of(s.last(), pc + pre.len())
    }
}

/// Lowers a tree into the code of the generated program's entry procedure.
pub fn lower(node: &InstructionNode) -> (code: Vec<CodeOp>)
    ensures
        code@ == code_of(node@, 0),
{
    let mut code: Vec<CodeOp> = Vec::new();
    lower_node(node, &mut code);
    proof {
        assert(code@ =~= code_of(node@, 0));
    }
    code
}

fn lower_node(node: &InstructionNode, code: &mut Vec<CodeOp>)
    ensures
        final(code)@ == old(code)@ + code_of(node@, old(code)@.len()),
    decreases node, 1nat,
{
    match &node.node_type {
        NodeType::Program(nodes) => lower_seq(nodes, code),
        NodeType::Loop(nodes) => {
            let start = code.len();
            code.push(CodeOp::LoopStart { end: 0 });
            lower_seq(nodes, code);
            let end = code.len();
            code.set(start, CodeOp::LoopStart { end });
            code.push(CodeOp::LoopEnd { start });
            proof {
                let body = code_of_seq(trees_of(nodes@), (start + 1) as nat);
                assert(code@ =~= old(code)@ + (seq![CodeOp::LoopStart { end }] + body + seq![CodeOp::LoopEnd { start }]));
            }
        },
        NodeType::Next(n) => code.push(CodeOp::Next(*n as u64)),
        NodeType::Previous(n) => code.push(CodeOp::Previous(*n as u64)),
        NodeType::Increment(n) => code.push(CodeOp::Increment((*n % 256) as u8)),
        NodeType::Decrement(n) => code.push(CodeOp::Decrement((*n % 256) as u8)),
        NodeType::SetCell(n) => code.push(CodeOp::SetCell((*n % 256) as u8)),
        NodeType::Output => code.push(CodeOp::Output),
        NodeType::Input => code.push(CodeOp::Input),
    }
    proof {
        assert(final(code)@ =~= old(code)@ + code_of(node@, old(code)@.len()));
    }
}

fn lower_seq(nodes: &Vec<InstructionNode>, code: &mut Vec<CodeOp>)
    ensures
        final(code)@ == old(code)@ + code_of_seq(trees_of(nodes@), old(code)@.len()),
    decreases nodes, 0nat,
{
    let ghost s = trees_of(nodes@);
    let ghost base = code@;
    let mut i: usize = 0;
    proof {
        assert(s.take(0) =~= Seq::<Tree>::empty());
        assert(code@ =~= base + code_of_seq(s.take(0), base.len()));
    }
    while i < nodes.len()
        invariant
            s == trees_of(nodes@),
            i <= nodes@.len(),
            base == old(code)@,
            code@ == base + code_of_seq(s.take(i as int), base.len()),
        decreases nodes@.len() - i,
    {
        proof {
            assert(s.take(i + 1).drop_last() =~= s.take(i as int));
            assert(s.take(i + 1).last() == tree_of(nodes@[i as int]));
        }
        lower_node(&nodes[i], code);
        i = i + 1;
        proof {
            assert(code@ =~= base + code_of_seq(s.take(i as int), base.len()));
        }
    }
    proof {
        assert(s.take(i as int) =~= s);
    }
}

/// Every loop header in `c`, placed at index `base`, names a later loop end
/// that names it back, and every loop end names an earlier header that names
/// it back; all targets lie inside `c`.
pub open spec fn jumps_match(c: Seq<CodeOp>, base: nat) -> bool {
    &&& forall|i: int|
        0 <= i < c.len() && (#[trigger] c[i]) is LoopStart ==> {
            let end = c[i]->LoopStart_end as int;
            &&& base + i < end < base + c.len()
            &&& c[end - base] == CodeOp::LoopEnd { start: (base + i) as usize }
        }
    &&& forall|i: int|
        0 <= i < c.len() && (#[trigger] c[i]) is LoopEnd ==> {
            let start = c[i]->LoopEnd_start as int;
            &&& base <= start < base + i
            &&& c[start - base] == CodeOp::LoopStart { end: (base + i) as usize }
        }
}

proof fn lemma_jumps_concat(a: Seq<CodeOp>, b: Seq<CodeOp>, base: nat)
    requires
        jumps_match(a, base),
        jumps_match(b, base + a.len()),
    ensures
        jumps_match(a + b, base),
{
    let c = a + b;
    assert forall|i: int| 0 <= i < c.len() && (#[trigger] c[i]) is LoopStart implies ({
        let end = c[i]->LoopStart_end as int;
        &&& base + i < end < base + c.len()
        &&& c[end - base] == CodeOp::LoopEnd { start: (base + i) as usize }
    }) by {
        if i >= a.len() {
            assert(c[i] == b[i - a.len()]);
        }
    }
    assert forall|i: int| 0 <= i < c.len() && (#[trigger] c[i]) is LoopEnd implies ({
        let start = c[i]->LoopEnd_start as int;
        &&& base <= start < base + i
        &&& c[start - base] == CodeOp::LoopStart { end: (base + i) as usize }
    }) by {
        if i >= a.len() {
            assert(c[i] == b[i - a.len()]);
        }
    }
}

proof fn lemma_code_jumps(t: Tree, base: nat)
    requires
        base + code_of(t, base).len() <= usize::MAX,
    ensures
        jumps_match(code_of(t, base), base),
    decreases t, 1nat,
{
    match t.kind {
        TreeKind::Program(s) => lemma_code_seq_jumps(s, base),
        TreeKind::Loop(s) => {
            let body = code_of_seq(s, base + 1);
            lemma_code_seq_jumps(s, base + 1);
            let head = seq![CodeOp::LoopStart { end: (base + 1 + body.len()) as usize }];
            let tail = seq![CodeOp::LoopEnd { start: base as usize }];
            let c = head + body + tail;
            assert forall|i: int| 0 <= i < c.len() && (#[trigger] c[i]) is LoopStart implies ({
                let end = c[i]->LoopStart_end as int;
                &&& base + i < end < base + c.len()
                &&& c[end - base] == CodeOp::LoopEnd { start: (base + i) as usize }
            }) by {
                if i > 0 {
                    assert(c[i] == body[i - 1]);
                    assert(c[c[i]->LoopStart_end as int - base] == body[c[i]->LoopStart_end as int - base - 1]);
                }
            }
            assert forall|i: int| 0 <= i < c.len() && (#[trigger] c[i]) is LoopEnd implies ({
                let start = c[i]->LoopEnd_start as int;
                &&& base <= start < base + i
                &&& c[start - base] == CodeOp::LoopStart { end: (base + i) as usize }
            }) by {
                if 0 < i < c.len() - 1 {
                    assert(c[i] == body[i - 1]);
                    assert(c[c[i]->LoopEnd_start as int - base] == body[c[i]->LoopEnd_start as int - base - 1]);
                }
            }
        },
        _ => {},
    }
}

proof fn lemma_code_seq_jumps(s: Seq<Tree>, base: nat)
    requires
        base + code_of_seq(s, base).len() <= usize::MAX,
    ensures
        jumps_match(code_of_seq(s, base), base),
    decreases s, 0nat,
{
    if s.len() > 0 {
        let pre = code_of_seq(s.drop_last(), base);
        lemma_code_seq_jumps(s.drop_last(), base);
        lemma_code_jumps(s.last(), base + pre.len());
        lemma_jumps_concat(pre, code_of(s.last(), base + pre.len()), base);
    }
}

/// In lowered code, each loop header and loop end name each other: the
/// header's exit target is its own loop end, and the loop end jumps back to
/// its own header.
pub proof fn lemma_lowered_jumps_match(t: Tree)
    requires
        code_of(t, 0).len() <= usize::MAX,
    ensures
        jumps_match(code_of(t, 0), 0),
{
    lemma_code_jumps(t, 0);
}

} // verus!
