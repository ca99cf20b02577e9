use vstd::prelude::*;
use vstd::arithmetic::div_mod::{lemma_add_mod_noop_right, lemma_sub_mod_noop_right, lemma_mod_twice};
use crate::ast::{InstructionNode, NodeType, Tree, TreeKind, tree_of, trees_of};
use crate::codegen::{CodeOp, code_of, code_of_seq};
use crate::machine::{InterpretationError, Machine, cell, grown, run, run_loop, run_seq, step};

verus! {

broadcast use {
    vstd::std_specs::vec::axiom_vec_decreases_to_view,
    vstd::std_specs::vec::axiom_vec_index_decreases,
    vstd::seq::axiom_seq_index_decreases,
    vstd::seq::axiom_seq_subrange_decreases,
};

/// The single instruction that an op other than a loop marker performs.
pub open spec fn op_tree(op: CodeOp) -> Tree {
    let kind = match op {
        CodeOp::Next(n) => TreeKind::Next(n as nat),
        CodeOp::Previous(n) => TreeKind::Previous(n as nat),
        CodeOp::Increment(n) => TreeKind::Increment(n as nat),
        CodeOp::Decrement(n) => TreeKind::Decrement(n as nat),
        CodeOp::SetCell(n) => TreeKind::SetCell(n as nat),
        CodeOp::Output => TreeKind::Output,
        CodeOp::Input => TreeKind::Input,
        _ => TreeKind::Program(Seq::empty()),
    };
    Tree { kind, line: 0, char: 0 }
}

/// Runs lowered code from index `pc` for at most `steps` steps on the
/// abstract machine: a loop header tests the current cell and either enters
/// the body or leaves past its loop end; a loop end jumps back to its header.
/// The run ends at an error, when `pc` leaves the code, or when the steps are used up.
pub open spec fn exec_code(code: Seq<CodeOp>, pc: nat, m: Machine, steps: nat) -> (nat, Machine, Option<InterpretationError>)
    decreases steps,
{
    if pc >= code.len() || steps == 0 {
        (pc, m, None)
    } else {
        match code[pc as int] {
            CodeOp::LoopStart { end } => if cell(m) == 0 {
                exec_code(code, (end + 1) as nat, grown(m), (steps - 1) as nat)
            } else {
                exec_code(code, pc + 1, grown(m), (steps - 1) as nat)
            },
            CodeOp::LoopEnd { start } => exec_code(code, start as nat, m, (steps - 1) as nat),
            op => {
                let (m1, e) = step(op_tree(op), m);
                if e is Some {
                    (pc, m1, e)
                } else {
                    exec_code(code, pc + 1, m1, (steps - 1) as nat)
                }
            },
        }
    }
}

/// All counts in the tree fit a `usize`, as they do in every instruction node.
pub open spec fn counts_fit(t: Tree) -> bool
    decreases t,
{
    match t.kind {
        TreeKind::Program(s) => forall|i: int| 0 <= i < s.len() ==> counts_fit(#[trigger] s[i]),
        TreeKind::Loop(s) => forall|i: int| 0 <= i < s.len() ==> counts_fit(#[trigger] s[i]),
        TreeKind::Next(n) => n <= usize::MAX,
        TreeKind::Previous(n) => n <= usize::MAX,
        TreeKind::Increment(n) => n <= usize::MAX,
        TreeKind::Decrement(n) => n <= usize::MAX,
        TreeKind::SetCell(n) => n <= usize::MAX,
        _ => true,
    }
}

pub proof fn lemma_node_counts_fit(n: InstructionNode)
    ensures
        counts_fit(n@),
    decreases n,
{
    match n.node_type {
        NodeType::Program(v) => {
            assert forall|i: int| 0 <= i < trees_of(v@).len() implies counts_fit(#[trigger] trees_of(v@)[i]) by {
                assert(trees_of(v@)[i] == tree_of(v@[i]));
                lemma_node_counts_fit(v@[i]);
            }
            assert(n@.kind == TreeKind::Program(trees_of(v@)));
        },
        NodeType::Loop(v) => {
            assert forall|i: int| 0 <= i < trees_of(v@).len() implies counts_fit(#[trigger] trees_of(v@)[i]) by {
                assert(trees_of(v@)[i] == tree_of(v@[i]));
                lemma_node_counts_fit(v@[i]);
            }
            assert(n@.kind == TreeKind::Loop(trees_of(v@)));
        },
        _ => {},
    }
}

/// Running `k1` steps and then `k2` more is running `k1 + k2` steps.
proof fn lemma_exec_split(code: Seq<CodeOp>, pc: nat, m: Machine, k1: nat, k2: nat)
    requires
        exec_code(code, pc, m, k1).2 is None,
    ensures
        exec_code(code, pc, m, k1 + k2) == exec_code(code, exec_code(code, pc, m, k1).0, exec_code(code, pc, m, k1).1, k2),
    decreases k1,
{
    if pc < code.len() && k1 > 0 {
        match code[pc as int] {
            CodeOp::LoopStart { end } => {
                if cell(m) == 0 {
                    lemma_exec_split(code, (end + 1) as nat, grown(m), (k1 - 1) as nat, k2);
                } else {
                    lemma_exec_split(code, pc + 1, grown(m), (k1 - 1) as nat, k2);
                }
                assert((k1 + k2 - 1) as nat == (k1 - 1) as nat + k2);
            },
            CodeOp::LoopEnd { start } => {
                lemma_exec_split(code, start as nat, m, (k1 - 1) as nat, k2);
                assert((k1 + k2 - 1) as nat == (k1 - 1) as nat + k2);
            },
            op => {
                let (m1, e) = step(op_tree(op), m);
                if e is None {
                    lemma_exec_split(code, pc + 1, m1, (k1 - 1) as nat, k2);
                    assert((k1 + k2 - 1) as nat == (k1 - 1) as nat + k2);
                }
            },
        }
    } else if pc >= code.len() {
        assert(exec_code(code, pc, m, k2) == (pc, m, None::<InterpretationError>));
    }
}

/// What running placed code must give for a tree outcome `r`: the same
/// machine and error, and, without error, the index just past the code.
pub open spec fn matches_outcome(x: (nat, Machine, Option<InterpretationError>), r: (Machine, Option<InterpretationError>), end: nat) -> bool {
    &&& x.1 == r.0
    &&& x.2 == r.1
    &&& r.1 is None ==> x.0 == end
}

proof fn lemma_leaf_step(t: Tree, m: Machine)
    requires
        counts_fit(t),
        !(t.kind is Program),
        !(t.kind is Loop),
    ensures
        code_of(t, 0).len() == 1,
        step(op_tree(code_of(t, 0)[0]), m) == step(t, m),
        !(code_of(t, 0)[0] is LoopStart),
        !(code_of(t, 0)[0] is LoopEnd),
{
    let c = cell(m) as int;
    match t.kind {
        TreeKind::Increment(n) => {
            lemma_add_mod_noop_right(c, n as int, 256);
        },
        TreeKind::Decrement(n) => {
            lemma_sub_mod_noop_right(c, n as int, 256);
        },
        TreeKind::SetCell(n) => {
            lemma_mod_twice(n as int, 256);
        },
        _ => {},
    }
}

proof fn lemma_code_len_free(t: Tree, a: nat, b: nat)
    ensures
        code_of(t, a).len() == code_of(t, b).len(),
        forall|i: int| 0 <= i < code_of(t, a).len() ==> !(code_of(t, a)[i] is LoopStart) && !(code_of(t, a)[i] is LoopEnd)
            ==> #[trigger] code_of(t, a)[i] == code_of(t, b)[i],
    decreases t, 1nat,
{
    match t.kind {
        TreeKind::Program(s) => lemma_code_seq_len_free(s, a, b),
        TreeKind::Loop(s) => {
            lemma_code_seq_len_free(s, a + 1, b + 1);
            let ba = code_of_seq(s, a + 1);
            let bb = code_of_seq(s, b + 1);
            let ca = code_of(t, a);
            let cb = code_of(t, b);
            assert forall|i: int| 0 <= i < ca.len() implies !(ca[i] is LoopStart) && !(ca[i] is LoopEnd) ==> #[trigger] ca[i] == cb[i] by {
                if 0 < i < ca.len() - 1 {
                    assert(ca[i] == ba[i - 1]);
                    assert(cb[i] == bb[i - 1]);
                }
            }
        },
        _ => {},
    }
}

proof fn lemma_code_seq_len_free(s: Seq<Tree>, a: nat, b: nat)
    ensures
        code_of_seq(s, a).len() == code_of_seq(s, b).len(),
        forall|i: int| 0 <= i < code_of_seq(s, a).len() ==> !(code_of_seq(s, a)[i] is LoopStart) && !(code_of_seq(s, a)[i] is LoopEnd)
            ==> #[trigger] code_of_seq(s, a)[i] == code_of_seq(s, b)[i],
    decreases s, 0nat,
{
    if s.len() > 0 {
        let pa = code_of_seq(s.drop_last(), a);
        let pb = code_of_seq(s.drop_last(), b);
        lemma_code_seq_len_free(s.drop_last(), a, b);
        lemma_code_len_free(s.last(), a + pa.len(), b + pb.len());
        let la = code_of(s.last(), a + pa.len());
        let lb = code_of(s.last(), b + pb.len());
        assert forall|i: int| 0 <= i < (pa + la).len() implies !((pa + la)[i] is LoopStart) && !((pa + la)[i] is LoopEnd) ==> #[trigger] (pa + la)[i] == (pb + lb)[i] by {
            if i >= pa.len() {
                assert((pa + la)[i] == la[i - pa.len()]);
                assert((pb + lb)[i] == lb[i - pa.len()]);
            }
        }
    }
}

/// Code placed at `base` inside `code` runs like the tree it was lowered from.
proof fn lemma_code_runs(code: Seq<CodeOp>, t: Tree, base: nat, m: Machine, fuel: nat) -> (k: nat)
    requires
        counts_fit(t),
        base + code_of(t, base).len() <= code.len() <= usize::MAX,
        code.subrange(base as int, (base + code_of(t, base).len()) as int) == code_of(t, base),
        run(t, m, fuel).1 != Some(InterpretationError::StepLimitReached),
    ensures
        matches_outcome(exec_code(code, base, m, k), run(t, m, fuel), base + code_of(t, base).len()),
    decreases fuel, t, 2nat,
{
    match t.kind {
        TreeKind::Program(s) => {
            assert forall|i: int| 0 <= i < s.len() implies counts_fit(#[trigger] s[i]) by {}
            assert(code_of(t, base) == code_of_seq(s, base));
            assert(run(t, m, fuel) == run_seq(s, m, fuel));
            let k = lemma_code_seq_runs(code, s, base, m, fuel);
            k
        },
        TreeKind::Loop(s) => {
            assert forall|i: int| 0 <= i < s.len() implies counts_fit(#[trigger] s[i]) by {}
            assert(code_of(t, base) == code_of(Tree { kind: TreeKind::Loop(s), line: 0, char: 0 }, base));
            assert(run(t, m, fuel) == run_loop(s, m, fuel));
            let k = lemma_code_loop_runs(code, s, base, m, fuel);
            k
        },
        _ => {
            lemma_leaf_step(t, m);
            lemma_code_len_free(t, 0, base);
            assert(code[base as int] == code_of(t, base)[0]);
            let r = step(t, m);
            assert(exec_code(code, base + 1, r.0, 0) == (base + 1, r.0, None::<InterpretationError>));
            1
        },
    }
}

proof fn lemma_code_seq_runs(code: Seq<CodeOp>, s: Seq<Tree>, base: nat, m: Machine, fuel: nat) -> (k: nat)
    requires
        forall|i: int| 0 <= i < s.len() ==> counts_fit(#[trigger] s[i]),
        base + code_of_seq(s, base).len() <= code.len() <= usize::MAX,
        code.subrange(base as int, (base + code_of_seq(s, base).len()) as int) == code_of_seq(s, base),
        run_seq(s, m, fuel).1 != Some(InterpretationError::StepLimitReached),
    ensures
        matches_outcome(exec_code(code, base, m, k), run_seq(s, m, fuel), base + code_of_seq(s, base).len()),
    decreases fuel, s, 1nat,
{
    if s.len() == 0 {
        0
    } else {
        let d = s.drop_last();
        let pre = code_of_seq(d, base);
        let last = code_of(s.last(), base + pre.len());
        assert forall|i: int| 0 <= i < d.len() implies counts_fit(#[trigger] d[i]) by {
            assert(d[i] == s[i]);
        }
        assert(code.subrange(base as int, (base + pre.len()) as int) =~= pre) by {
            assert(code.subrange(base as int, (base + pre.len()) as int) =~= code.subrange(base as int, (base + (pre + last).len()) as int).subrange(0, pre.len() as int));
        }
        let k1 = lemma_code_seq_runs(code, d, base, m, fuel);
        let r1 = run_seq(d, m, fuel);
        if r1.1 is Some {
            k1
        } else {
            let mid = base + pre.len();
            assert(code.subrange(mid as int, (mid + last.len()) as int) =~= last) by {
                assert(code.subrange(mid as int, (mid + last.len()) as int) =~= code.subrange(base as int, (base + (pre + last).len()) as int).subrange(pre.len() as int, (pre + last).len() as int));
            }
            assert(counts_fit(s[s.len() - 1]));
            let k2 = lemma_code_runs(code, s.last(), mid, r1.0, fuel);
            lemma_exec_split(code, base, m, k1, k2);
            k1 + k2
        }
    }
}

proof fn lemma_code_loop_runs(code: Seq<CodeOp>, s: Seq<Tree>, base: nat, m: Machine, fuel: nat) -> (k: nat)
    requires
        forall|i: int| 0 <= i < s.len() ==> counts_fit(#[trigger] s[i]),
        base + code_of_seq(s, base + 1).len() + 2 <= code.len() <= usize::MAX,
        code.subrange(base as int, (base + code_of_seq(s, base + 1).len() + 2) as int) == code_of(
            Tree { kind: TreeKind::Loop(s), line: 0, char: 0 },
            base,
        ),
        run_loop(s, m, fuel).1 != Some(InterpretationError::StepLimitReached),
    ensures
        matches_outcome(exec_code(code, base, m, k), run_loop(s, m, fuel), base + code_of_seq(s, base + 1).len() + 2),
    decreases fuel, s, 0nat,
{
    let body = code_of_seq(s, base + 1);
    let endpc = base + 1 + body.len();
    let whole = code_of(Tree { kind: TreeKind::Loop(s), line: 0, char: 0 }, base);
    assert(code[base as int] == whole[0]);
    assert(code[endpc as int] == whole[endpc - base]);
    assert(whole[0] == CodeOp::LoopStart { end: endpc as usize });
    assert(whole[endpc - base] == CodeOp::LoopEnd { start: base as usize });
    let m0 = grown(m);
    if cell(m) == 0 {
        assert(exec_code(code, endpc + 1, m0, 0) == (endpc + 1, m0, None::<InterpretationError>));
        assert(exec_code(code, base, m, 1) == (endpc + 1, m0, None::<InterpretationError>));
        1
    } else {
        assert(code.subrange((base + 1) as int, endpc as int) =~= body) by {
            assert(code.subrange((base + 1) as int, endpc as int) =~= code.subrange(base as int, (endpc + 1) as int).subrange(1, (endpc - base) as int));
        }
        let kb = lemma_code_seq_runs(code, s, base + 1, m0, (fuel - 1) as nat);
        let rb = run_seq(s, m0, (fuel - 1) as nat);
        assert(exec_code(code, base + 1, m0, 0) == (base + 1, m0, None::<InterpretationError>));
        assert(exec_code(code, base, m, 1) == (base + 1, m0, None::<InterpretationError>));
        lemma_exec_split(code, base, m, 1, kb);
        if rb.1 is Some {
            1 + kb
        } else {
            assert(exec_code(code, base, rb.0, 0) == (base, rb.0, None::<InterpretationError>));
            assert(exec_code(code, endpc, rb.0, 1) == (base, rb.0, None::<InterpretationError>));
            let kl = lemma_code_loop_runs(code, s, base, rb.0, (fuel - 1) as nat);
            lemma_exec_split(code, base, m, 1 + kb, 1);
            lemma_exec_split(code, base, m, 1 + kb + 1, kl);
            1 + kb + 1 + kl
        }
    }
}

/// Lowered code runs like the tree it came from: where a node's run finishes
/// within its loop budget, running its lowered code on the same machine,
/// from index 0, for some number of steps gives the same machine and the
/// same error, and, without error, ends just past the last op.
pub proof fn lemma_lowered_code_agrees(n: InstructionNode, m: Machine, fuel: nat)
    requires
        code_of(n@, 0).len() <= usize::MAX,
        run(n@, m, fuel).1 != Some(InterpretationError::StepLimitReached),
    ensures
        exists|k: nat| matches_outcome(#[trigger] exec_code(code_of(n@, 0), 0, m, k), run(n@, m, fuel), code_of(n@, 0).len()),
{
    let code = code_of(n@, 0);
    lemma_node_counts_fit(n);
    assert(code.subrange(0, code.len() as int) =~= code);
    let k = lemma_code_runs(code, n@, 0, m, fuel);
    assert(matches_outcome(exec_code(code, 0, m, k), run(n@, m, fuel), code.len()));
}

} // verus!
