use vstd::prelude::*;
use vstd::arithmetic::div_mod::{
    lemma_add_mod_noop, lemma_add_mod_noop_right, lemma_sub_mod_noop, lemma_sub_mod_noop_right,
};
use crate::ast::{Tree, TreeKind};
use crate::machine::{
    InterpretationError, Machine, cell, expand, grown, run, run_loop, run_seq, set_cell, wrap,
};
use crate::optimizer::{
    RunKind, collapse_list, collapse_tree, drop_leading_loops, is_zeroing_loop, optimize_spec,
    remove_comment_loop_spec, run_count, run_node, set_zero_list, set_zero_node, set_zero_tree,
};

verus! {

broadcast use {vstd::seq::axiom_seq_index_decreases, vstd::seq::axiom_seq_subrange_decreases};

/// Two outcomes that nobody can tell apart from outside: the same error or
/// none, the same bytes written, the same input left; and, where neither
/// stopped, the same machine.
pub open spec fn agree(a: (Machine, Option<InterpretationError>), b: (Machine, Option<InterpretationError>)) -> bool {
    &&& a.1 == b.1
    &&& a.0.output == b.0.output
    &&& a.0.input == b.0.input
    &&& (a.1 is None ==> a.0 == b.0)
}

/// Runs `t` after an earlier outcome, unless that outcome was a stop.
pub open spec fn then_run(r: (Machine, Option<InterpretationError>), t: Tree, fuel: nat) -> (Machine, Option<InterpretationError>) {
    if r.1 is Some {
        r
    } else {
        run(t, r.0, fuel)
    }
}

proof fn lemma_expand_settled(tape: Seq<u8>, p: nat, v: u8)
    ensures
        expand(expand(tape, p).update(p as int, v), p) == expand(tape, p).update(p as int, v),
        expand(expand(tape, p), p) == expand(tape, p),
        expand(tape, p).len() > p,
{
}

proof fn lemma_wrap_twice_add(c: int, a: int, b: int)
    ensures
        wrap(wrap(c + a) + b) == wrap(c + a + b),
{
    lemma_add_mod_noop(c + a, b, 256);
    lemma_add_mod_noop_right((c + a) % 256, b, 256);
    assert(((c + a) % 256) % 256 == (c + a) % 256) by {
        vstd::arithmetic::div_mod::lemma_mod_twice(c + a, 256);
    }
}

proof fn lemma_wrap_twice_sub(c: int, a: int, b: int)
    ensures
        wrap(wrap(c - a) - b) == wrap(c - a - b),
{
    lemma_sub_mod_noop(c - a, b, 256);
    lemma_sub_mod_noop_right((c - a) % 256, b, 256);
    assert(((c - a) % 256) % 256 == (c - a) % 256) by {
        vstd::arithmetic::div_mod::lemma_mod_twice(c - a, 256);
    }
}

/// Two consecutive nodes of one kind act as one node with the summed count.
proof fn lemma_merge_two(k: RunKind, x: Tree, y: Tree, m: Machine, fuel: nat)
    requires
        run_count(x, k) is Some,
        run_count(y, k) is Some,
    ensures
        agree(
            run(run_node(k, run_count(x, k)->Some_0 + run_count(y, k)->Some_0, x), m, fuel),
            then_run(run(x, m, fuel), y, fuel),
        ),
{
    let a = run_count(x, k)->Some_0;
    let b = run_count(y, k)->Some_0;
    let c = cell(m) as int;
    lemma_expand_settled(m.tape, m.ptr, wrap(c + a));
    lemma_expand_settled(m.tape, m.ptr, wrap(c - a));
    match k {
        RunKind::Increment => {
            lemma_wrap_twice_add(c, a as int, b as int);
            let m1 = set_cell(m, wrap(c + a));
            assert(cell(m1) == wrap(c + a));
            assert(set_cell(m1, wrap(cell(m1) + b)).tape =~= set_cell(m, wrap(c + a + b)).tape);
        },
        RunKind::Decrement => {
            lemma_wrap_twice_sub(c, a as int, b as int);
            let m1 = set_cell(m, wrap(c - a));
            assert(cell(m1) == wrap(c - a));
            assert(set_cell(m1, wrap(cell(m1) - b)).tape =~= set_cell(m, wrap(c - (a + b))).tape);
        },
        RunKind::Next => {},
        RunKind::Previous => {},
    }
}

/// Run merging of kind `k` leaves what a node does unchanged.
pub proof fn lemma_collapse_node(t: Tree, k: RunKind, m: Machine, fuel: nat)
    ensures
        agree(run(collapse_tree(t, k), m, fuel), run(t, m, fuel)),
    decreases fuel, t, 2nat,
{
    match t.kind {
        TreeKind::Program(s) => {
            lemma_collapse_seq(s, k, m, fuel);
        },
        TreeKind::Loop(s) => {
            lemma_collapse_loop(s, k, m, fuel);
        },
        _ => {},
    }
}

proof fn lemma_collapse_loop(s: Seq<Tree>, k: RunKind, m: Machine, fuel: nat)
    ensures
        agree(run_loop(collapse_list(s, k), m, fuel), run_loop(s, m, fuel)),
    decreases fuel, s, 0nat,
{
    if cell(m) != 0 && fuel > 0 {
        let m0 = grown(m);
        lemma_collapse_seq(s, k, m0, (fuel - 1) as nat);
        let r = run_seq(s, m0, (fuel - 1) as nat);
        if r.1 is None {
            lemma_collapse_loop(s, k, r.0, (fuel - 1) as nat);
        }
    }
}

proof fn lemma_collapse_seq(s: Seq<Tree>, k: RunKind, m: Machine, fuel: nat)
    ensures
        agree(run_seq(collapse_list(s, k), m, fuel), run_seq(s, m, fuel)),
    decreases fuel, s, 1nat,
{
    if s.len() > 0 {
        let pre = collapse_list(s.drop_last(), k);
        let x = s.last();
        lemma_collapse_seq(s.drop_last(), k, m, fuel);
        let rs = run_seq(s.drop_last(), m, fuel);
        let merging = run_count(x, k) is Some && pre.len() > 0 && run_count(pre.last(), k) is Some
            && run_count(pre.last(), k)->Some_0 + run_count(x, k)->Some_0 <= usize::MAX;
        if merging {
            let w = pre.last();
            let merged = run_node(k, run_count(w, k)->Some_0 + run_count(x, k)->Some_0, w);
            assert(pre.drop_last().push(merged).drop_last() =~= pre.drop_last());
            assert(pre.drop_last().push(w) =~= pre);
            let m1 = run_seq(pre.drop_last(), m, fuel);
            if m1.1 is None {
                lemma_merge_two(k, w, x, m1.0, fuel);
            }
        } else {
            assert(collapse_list(s, k).drop_last() =~= pre);
            if rs.1 is None && run_count(x, k) is None {
                lemma_collapse_node(x, k, rs.0, fuel);
            }
        }
    }
}

/// A zeroing loop that finishes within its budget leaves the current cell at zero.
proof fn lemma_zeroing_loop(t: Tree, m: Machine, fuel: nat)
    requires
        is_zeroing_loop(t),
        run(t, m, fuel).1 != Some(InterpretationError::StepLimitReached),
    ensures
        run(t, m, fuel) == (set_cell(m, 0), None::<InterpretationError>),
    decreases fuel,
{
    let body = t.kind->Loop_0;
    let m0 = grown(m);
    lemma_expand_settled(m.tape, m.ptr, 0);
    if cell(m) == 0 {
        assert(m0.tape =~= set_cell(m, 0).tape);
    } else {
        let m1 = set_cell(m0, wrap(cell(m0) - 1));
        assert(body.drop_last() =~= Seq::<Tree>::empty());
        assert(run_seq(body.drop_last(), m0, (fuel - 1) as nat) == (m0, None::<InterpretationError>));
        assert(body.last().kind == TreeKind::Decrement(1));
        assert(run(body.last(), m0, (fuel - 1) as nat) == (m1, None::<InterpretationError>));
        assert(run_seq(body, m0, (fuel - 1) as nat) == (m1, None::<InterpretationError>));
        lemma_zeroing_loop(t, m1, (fuel - 1) as nat);
        lemma_expand_settled(m0.tape, m.ptr, wrap(cell(m0) - 1));
        assert(set_cell(m1, 0).tape =~= set_cell(m, 0).tape);
    }
}

/// Replacing zeroing loops by `SetCell(0)` leaves what a node does unchanged,
/// wherever the unoptimized run finishes within its budget.
pub proof fn lemma_set_zero_tree(t: Tree, m: Machine, fuel: nat)
    requires
        run(t, m, fuel).1 != Some(InterpretationError::StepLimitReached),
    ensures
        agree(run(set_zero_tree(t), m, fuel), run(t, m, fuel)),
    decreases fuel, t, 3nat,
{
    match t.kind {
        TreeKind::Program(s) => {
            lemma_set_zero_seq(s, m, fuel);
        },
        TreeKind::Loop(s) => {
            lemma_set_zero_loop(s, m, fuel);
        },
        _ => {},
    }
}

proof fn lemma_set_zero_node(t: Tree, m: Machine, fuel: nat)
    requires
        run(t, m, fuel).1 != Some(InterpretationError::StepLimitReached),
    ensures
        agree(run(set_zero_node(t), m, fuel), run(t, m, fuel)),
    decreases fuel, t, 4nat,
{
    if is_zeroing_loop(t) {
        lemma_zeroing_loop(t, m, fuel);
    } else {
        lemma_set_zero_tree(t, m, fuel);
    }
}

proof fn lemma_set_zero_loop(s: Seq<Tree>, m: Machine, fuel: nat)
    requires
        run_loop(s, m, fuel).1 != Some(InterpretationError::StepLimitReached),
    ensures
        agree(run_loop(set_zero_list(s), m, fuel), run_loop(s, m, fuel)),
    decreases fuel, s, 0nat,
{
    if cell(m) != 0 && fuel > 0 {
        let m0 = grown(m);
        let r = run_seq(s, m0, (fuel - 1) as nat);
        lemma_set_zero_seq(s, m0, (fuel - 1) as nat);
        if r.1 is None {
            lemma_set_zero_loop(s, r.0, (fuel - 1) as nat);
        }
    }
}

proof fn lemma_set_zero_seq(s: Seq<Tree>, m: Machine, fuel: nat)
    requires
        run_seq(s, m, fuel).1 != Some(InterpretationError::StepLimitReached),
    ensures
        agree(run_seq(set_zero_list(s), m, fuel), run_seq(s, m, fuel)),
    decreases fuel, s, 1nat,
{
    if s.len() > 0 {
        assert(set_zero_list(s).drop_last() =~= set_zero_list(s.drop_last()));
        let rs = run_seq(s.drop_last(), m, fuel);
        lemma_set_zero_seq(s.drop_last(), m, fuel);
        if rs.1 is None {
            lemma_set_zero_node(s.last(), rs.0, fuel);
        }
    }
}

/// The default pipeline keeps what a program does: on a program whose
/// top-level list does not open with a loop, from any machine, whenever the
/// unoptimized run finishes within its loop budget, the optimized run with the
/// same budget writes the same bytes, reads the same input and ends with the
/// same error or none.
pub proof fn lemma_optimize_preserves_run(t: Tree, m: Machine, fuel: nat)
    requires
        t.kind is Program,
        t.kind->Program_0.len() > 0 ==> !(t.kind->Program_0[0].kind is Loop),
        run(t, m, fuel).1 != Some(InterpretationError::StepLimitReached),
    ensures
        agree(run(optimize_spec(t), m, fuel), run(t, m, fuel)),
{
    let s = t.kind->Program_0;
    assert(drop_leading_loops(s) == s);
    assert(remove_comment_loop_spec(t) == t);
    let t1 = collapse_tree(t, RunKind::Increment);
    let t2 = collapse_tree(t1, RunKind::Decrement);
    let t3 = collapse_tree(t2, RunKind::Next);
    let t4 = collapse_tree(t3, RunKind::Previous);
    lemma_collapse_node(t, RunKind::Increment, m, fuel);
    lemma_collapse_node(t1, RunKind::Decrement, m, fuel);
    lemma_collapse_node(t2, RunKind::Next, m, fuel);
    lemma_collapse_node(t3, RunKind::Previous, m, fuel);
    lemma_set_zero_tree(t4, m, fuel);
}

/// A zeroing loop whose budget covers the current cell's value leaves the cell at zero.
proof fn lemma_zeroing_loop_budget(t: Tree, m: Machine, fuel: nat)
    requires
        is_zeroing_loop(t),
        fuel >= cell(m),
    ensures
        run(t, m, fuel) == (set_cell(m, 0), None::<InterpretationError>),
    decreases fuel,
{
    let body = t.kind->Loop_0;
    let m0 = grown(m);
    lemma_expand_settled(m.tape, m.ptr, 0);
    if cell(m) == 0 {
        assert(m0.tape =~= set_cell(m, 0).tape);
    } else {
        let m1 = set_cell(m0, wrap(cell(m0) - 1));
        assert(body.drop_last() =~= Seq::<Tree>::empty());
        assert(run_seq(body.drop_last(), m0, (fuel - 1) as nat) == (m0, None::<InterpretationError>));
        assert(body.last().kind == TreeKind::Decrement(1));
        assert(run(body.last(), m0, (fuel - 1) as nat) == (m1, None::<InterpretationError>));
        assert(run_seq(body, m0, (fuel - 1) as nat) == (m1, None::<InterpretationError>));
        lemma_expand_settled(m0.tape, m.ptr, wrap(cell(m0) - 1));
        assert(cell(m1) == cell(m) - 1);
        lemma_zeroing_loop_budget(t, m1, (fuel - 1) as nat);
        assert(set_cell(m1, 0).tape =~= set_cell(m, 0).tape);
    }
}

/// Where a tree with zeroing loops replaced finishes within a budget, the
/// unoptimized tree finishes within 255 more and agrees with it.
proof fn lemma_set_zero_tree_back(t: Tree, m: Machine, fuel: nat)
    requires
        run(set_zero_tree(t), m, fuel).1 != Some(InterpretationError::StepLimitReached),
    ensures
        agree(run(set_zero_tree(t), m, fuel), run(t, m, fuel + 255)),
    decreases fuel, t, 3nat,
{
    match t.kind {
        TreeKind::Program(s) => {
            lemma_set_zero_seq_back(s, m, fuel);
        },
        TreeKind::Loop(s) => {
            lemma_set_zero_loop_back(s, m, fuel);
        },
        _ => {},
    }
}

proof fn lemma_set_zero_node_back(t: Tree, m: Machine, fuel: nat)
    requires
        run(set_zero_node(t), m, fuel).1 != Some(InterpretationError::StepLimitReached),
    ensures
        agree(run(set_zero_node(t), m, fuel), run(t, m, fuel + 255)),
    decreases fuel, t, 4nat,
{
    if is_zeroing_loop(t) {
        lemma_zeroing_loop_budget(t, m, fuel + 255);
        lemma_expand_settled(m.tape, m.ptr, 0);
    } else {
        lemma_set_zero_tree_back(t, m, fuel);
    }
}

proof fn lemma_set_zero_loop_back(s: Seq<Tree>, m: Machine, fuel: nat)
    requires
        run_loop(set_zero_list(s), m, fuel).1 != Some(InterpretationError::StepLimitReached),
    ensures
        agree(run_loop(set_zero_list(s), m, fuel), run_loop(s, m, fuel + 255)),
    decreases fuel, s, 0nat,
{
    if cell(m) != 0 {
        let m0 = grown(m);
        let r = run_seq(set_zero_list(s), m0, (fuel - 1) as nat);
        lemma_set_zero_seq_back(s, m0, (fuel - 1) as nat);
        assert((fuel - 1) as nat + 255 == (fuel + 255 - 1) as nat);
        if r.1 is None {
            lemma_set_zero_loop_back(s, r.0, (fuel - 1) as nat);
        }
    }
}

proof fn lemma_set_zero_seq_back(s: Seq<Tree>, m: Machine, fuel: nat)
    requires
        run_seq(set_zero_list(s), m, fuel).1 != Some(InterpretationError::StepLimitReached),
    ensures
        agree(run_seq(set_zero_list(s), m, fuel), run_seq(s, m, fuel + 255)),
    decreases fuel, s, 1nat,
{
    if s.len() > 0 {
        assert(set_zero_list(s).drop_last() =~= set_zero_list(s.drop_last()));
        let rs = run_seq(set_zero_list(s.drop_last()), m, fuel);
        lemma_set_zero_seq_back(s.drop_last(), m, fuel);
        if rs.1 is None {
            lemma_set_zero_node_back(s.last(), rs.0, fuel);
        }
    }
}

/// The converse: on a program whose top-level list does not open with a loop,
/// from any machine, whenever the optimized run finishes within its loop
/// budget, the unoptimized run with 255 more writes the same bytes, reads the
/// same input and ends with the same error or none. (Each replaced zeroing
/// loop may run up to 255 iterations.)
pub proof fn lemma_optimized_run_reflects(t: Tree, m: Machine, fuel: nat)
    requires
        t.kind is Program,
        t.kind->Program_0.len() > 0 ==> !(t.kind->Program_0[0].kind is Loop),
        run(optimize_spec(t), m, fuel).1 != Some(InterpretationError::StepLimitReached),
    ensures
        agree(run(optimize_spec(t), m, fuel), run(t, m, fuel + 255)),
{
    let s = t.kind->Program_0;
    assert(drop_leading_loops(s) == s);
    assert(remove_comment_loop_spec(t) == t);
    let t1 = collapse_tree(t, RunKind::Increment);
    let t2 = collapse_tree(t1, RunKind::Decrement);
    let t3 = collapse_tree(t2, RunKind::Next);
    let t4 = collapse_tree(t3, RunKind::Previous);
    lemma_set_zero_tree_back(t4, m, fuel);
    lemma_collapse_node(t, RunKind::Increment, m, fuel + 255);
    lemma_collapse_node(t1, RunKind::Decrement, m, fuel + 255);
    lemma_collapse_node(t2, RunKind::Next, m, fuel + 255);
    lemma_collapse_node(t3, RunKind::Previous, m, fuel + 255);
}

} // verus!
