use vstd::prelude::*;
use crate::ast::{Tree, TreeKind};
use crate::optimizer::{
    RunKind, collapse_list, collapse_tree, drop_leading_loops, is_zeroing_loop, optimize_spec,
    remove_comment_loop_spec, run_count, set_zero_list, set_zero_node, set_zero_tree,
};

verus! {

broadcast use {vstd::seq::axiom_seq_index_decreases, vstd::seq::axiom_seq_subrange_decreases};

/// Whether `a` followed by `b` would be merged by run merging of kind `k`.
pub open spec fn mergeable(a: Tree, b: Tree, k: RunKind) -> bool {
    &&& run_count(a, k) is Some
    &&& run_count(b, k) is Some
    &&& run_count(a, k)->Some_0 + run_count(b, k)->Some_0 <= usize::MAX
}

/// No sibling list below `t` holds two neighbours that run merging of kind `k` would merge.
pub open spec fn collapsed_tree(t: Tree, k: RunKind) -> bool
    decreases t, 1nat,
{
    match t.kind {
        TreeKind::Program(s) => collapsed_list(s, k),
        TreeKind::Loop(s) => collapsed_list(s, k),
        _ => true,
    }
}

pub open spec fn collapsed_list(s: Seq<Tree>, k: RunKind) -> bool
    decreases s, 0nat,
{
    &&& forall|i: int| 0 <= i < s.len() - 1 ==> !mergeable(#[trigger] s[i], s[i + 1], k)
    &&& forall|i: int| 0 <= i < s.len() ==> collapsed_tree(#[trigger] s[i], k)
}

/// No zeroing loop anywhere below `t`.
pub open spec fn zero_free_tree(t: Tree) -> bool
    decreases t, 1nat,
{
    match t.kind {
        TreeKind::Program(s) => zero_free_list(s),
        TreeKind::Loop(s) => zero_free_list(s),
        _ => true,
    }
}

pub open spec fn zero_free_list(s: Seq<Tree>) -> bool
    decreases s, 0nat,
{
    forall|i: int| 0 <= i < s.len() ==> !is_zeroing_loop(#[trigger] s[i]) && zero_free_tree(s[i])
}

/// A program whose top-level list does not open with a loop (other roots qualify).
pub open spec fn no_leading_loop(t: Tree) -> bool {
    t.kind is Program && t.kind->Program_0.len() > 0 ==> !(t.kind->Program_0[0].kind is Loop)
}

proof fn lemma_collapse_same_shape(t: Tree, k: RunKind)
    ensures
        run_count(t, k) is None ==> {
            &&& (collapse_tree(t, k).kind is Loop <==> t.kind is Loop)
            &&& (collapse_tree(t, k).kind is Program <==> t.kind is Program)
            &&& forall|j: RunKind| #[trigger] run_count(collapse_tree(t, k), j) == run_count(t, j)
        },
{
}

/// The first and last nodes of a merged list match those of the input list in kind.
proof fn lemma_collapse_ends(s: Seq<Tree>, k: RunKind)
    ensures
        collapse_list(s, k).len() <= s.len(),
        s.len() > 0 ==> collapse_list(s, k).len() > 0,
        s.len() > 0 ==> (collapse_list(s, k)[0].kind is Loop <==> s[0].kind is Loop),
        s.len() > 0 ==> forall|j: RunKind| j != k ==> #[trigger] run_count(collapse_list(s, k).last(), j) == run_count(s.last(), j),
        s.len() > 0 ==> (run_count(collapse_list(s, k).last(), k) is Some <==> run_count(s.last(), k) is Some),
    decreases s.len(),
{
    if s.len() > 0 {
        lemma_collapse_ends(s.drop_last(), k);
        lemma_collapse_same_shape(s.last(), k);
        if s.len() == 1 {
            assert(s.drop_last().len() == 0);
        } else {
            assert(s.drop_last()[0] == s[0]);
        }
    }
}

/// Run merging of kind `k` leaves no two neighbours it would merge.
pub proof fn lemma_collapse_collapsed(t: Tree, k: RunKind)
    ensures
        collapsed_tree(collapse_tree(t, k), k),
    decreases t, 1nat,
{
    match t.kind {
        TreeKind::Program(s) => lemma_collapse_list_collapsed(s, k),
        TreeKind::Loop(s) => lemma_collapse_list_collapsed(s, k),
        _ => {},
    }
}

proof fn lemma_collapse_list_collapsed(s: Seq<Tree>, k: RunKind)
    ensures
        collapsed_list(collapse_list(s, k), k),
    decreases s, 0nat,
{
    if s.len() > 0 {
        let pre = collapse_list(s.drop_last(), k);
        let x = s.last();
        let out = collapse_list(s, k);
        lemma_collapse_list_collapsed(s.drop_last(), k);
        if run_count(x, k) is None {
            lemma_collapse_collapsed(x, k);
            lemma_collapse_same_shape(x, k);
        }
        assert forall|i: int| 0 <= i < out.len() - 1 implies !mergeable(#[trigger] out[i], out[i + 1], k) by {
            if i < out.len() - 2 {
                assert(out[i] == pre[i] && out[i + 1] == pre[i + 1]);
            } else if out.len() == pre.len() {
                assert(out[i] == pre[i]);
                assert(!mergeable(pre[i], pre[i + 1], k));
            } else {
                assert(out[i] == pre[i]);
            }
        }
        assert forall|i: int| 0 <= i < out.len() implies collapsed_tree(#[trigger] out[i], k) by {
            if i < out.len() - 1 {
                assert(out[i] == pre[i]);
            }
        }
    }
}

/// Run merging changes nothing in a list that has no neighbours to merge.
pub proof fn lemma_collapse_fixed(t: Tree, k: RunKind)
    requires
        collapsed_tree(t, k),
    ensures
        collapse_tree(t, k) == t,
    decreases t, 1nat,
{
    match t.kind {
        TreeKind::Program(s) => lemma_collapse_list_fixed(s, k),
        TreeKind::Loop(s) => lemma_collapse_list_fixed(s, k),
        _ => {},
    }
}

proof fn lemma_collapse_list_fixed(s: Seq<Tree>, k: RunKind)
    requires
        collapsed_list(s, k),
    ensures
        collapse_list(s, k) == s,
    decreases s, 0nat,
{
    if s.len() > 0 {
        let d = s.drop_last();
        assert forall|i: int| 0 <= i < d.len() - 1 implies !mergeable(#[trigger] d[i], d[i + 1], k) by {
            assert(d[i] == s[i] && d[i + 1] == s[i + 1]);
        }
        assert forall|i: int| 0 <= i < d.len() implies collapsed_tree(#[trigger] d[i], k) by {
            assert(d[i] == s[i]);
        }
        lemma_collapse_list_fixed(d, k);
        let x = s.last();
        assert(collapsed_tree(s[s.len() - 1], k));
        if run_count(x, k) is None {
            lemma_collapse_fixed(x, k);
        }
        if s.len() > 1 {
            assert(!mergeable(s[s.len() - 2], s[s.len() - 1], k));
        }
        assert(d.push(x) =~= s);
    }
}

/// Run merging of one kind keeps a list free of mergeable neighbours of another kind.
pub proof fn lemma_collapse_keeps(t: Tree, k: RunKind, j: RunKind)
    requires
        j != k,
        collapsed_tree(t, j),
    ensures
        collapsed_tree(collapse_tree(t, k), j),
    decreases t, 1nat,
{
    match t.kind {
        TreeKind::Program(s) => lemma_collapse_list_keeps(s, k, j),
        TreeKind::Loop(s) => lemma_collapse_list_keeps(s, k, j),
        _ => {},
    }
}

proof fn lemma_collapse_list_keeps(s: Seq<Tree>, k: RunKind, j: RunKind)
    requires
        j != k,
        collapsed_list(s, j),
    ensures
        collapsed_list(collapse_list(s, k), j),
    decreases s, 0nat,
{
    if s.len() > 0 {
        let d = s.drop_last();
        assert forall|i: int| 0 <= i < d.len() - 1 implies !mergeable(#[trigger] d[i], d[i + 1], j) by {
            assert(d[i] == s[i] && d[i + 1] == s[i + 1]);
        }
        assert forall|i: int| 0 <= i < d.len() implies collapsed_tree(#[trigger] d[i], j) by {
            assert(d[i] == s[i]);
        }
        lemma_collapse_list_keeps(d, k, j);
        let pre = collapse_list(d, k);
        let x = s.last();
        let out = collapse_list(s, k);
        assert(collapsed_tree(s[s.len() - 1], j));
        lemma_collapse_ends(d, k);
        lemma_collapse_same_shape(x, k);
        if run_count(x, k) is None {
            lemma_collapse_keeps(x, k, j);
        }
        if d.len() > 0 {
            assert(!mergeable(s[s.len() - 2], s[s.len() - 1], j));
            assert(d.last() == s[s.len() - 2]);
        }
        assert forall|i: int| 0 <= i < out.len() - 1 implies !mergeable(#[trigger] out[i], out[i + 1], j) by {
            if i < out.len() - 2 {
                assert(out[i] == pre[i] && out[i + 1] == pre[i + 1]);
            } else if out.len() == pre.len() {
                assert(out[i] == pre[i]);
            } else {
                assert(out[i] == pre[i]);
                assert(out[i + 1] == pre.last() || out[i + 1] == x || out[i + 1] == collapse_tree(x, k));
            }
        }
        assert forall|i: int| 0 <= i < out.len() implies collapsed_tree(#[trigger] out[i], j) by {
            if i < out.len() - 1 {
                assert(out[i] == pre[i]);
            }
        }
    }
}

proof fn lemma_set_zero_node_shape(t: Tree)
    ensures
        forall|j: RunKind| #[trigger] run_count(set_zero_node(t), j) == run_count(t, j),
        set_zero_node(t).kind is Loop ==> t.kind is Loop,
        !(set_zero_node(t).kind is Decrement) || set_zero_node(t) == t,
{
}

/// Replacing zeroing loops keeps a list free of mergeable neighbours.
pub proof fn lemma_set_zero_keeps(t: Tree, j: RunKind)
    requires
        collapsed_tree(t, j),
    ensures
        collapsed_tree(set_zero_tree(t), j),
    decreases t, 1nat,
{
    match t.kind {
        TreeKind::Program(s) => lemma_set_zero_list_keeps(s, j),
        TreeKind::Loop(s) => lemma_set_zero_list_keeps(s, j),
        _ => {},
    }
}

proof fn lemma_set_zero_list_keeps(s: Seq<Tree>, j: RunKind)
    requires
        collapsed_list(s, j),
    ensures
        collapsed_list(set_zero_list(s), j),
    decreases s, 0nat,
{
    let out = set_zero_list(s);
    assert forall|i: int| 0 <= i < out.len() - 1 implies !mergeable(#[trigger] out[i], out[i + 1], j) by {
        lemma_set_zero_node_shape(s[i]);
        lemma_set_zero_node_shape(s[i + 1]);
    }
    assert forall|i: int| 0 <= i < out.len() implies collapsed_tree(#[trigger] out[i], j) by {
        if !is_zeroing_loop(s[i]) {
            lemma_set_zero_keeps(s[i], j);
        }
    }
}

/// After replacing zeroing loops, none is left.
pub proof fn lemma_set_zero_free(t: Tree)
    ensures
        zero_free_tree(set_zero_tree(t)),
    decreases t, 1nat,
{
    match t.kind {
        TreeKind::Program(s) => lemma_set_zero_list_free(s),
        TreeKind::Loop(s) => lemma_set_zero_list_free(s),
        _ => {},
    }
}

proof fn lemma_set_zero_list_free(s: Seq<Tree>)
    ensures
        zero_free_list(set_zero_list(s)),
    decreases s, 0nat,
{
    let out = set_zero_list(s);
    assert forall|i: int| 0 <= i < out.len() implies !is_zeroing_loop(#[trigger] out[i]) && zero_free_tree(out[i]) by {
        if !is_zeroing_loop(s[i]) {
            lemma_set_zero_free(s[i]);
            if s[i].kind is Loop && s[i].kind->Loop_0.len() == 1 {
                let b = s[i].kind->Loop_0;
                assert(set_zero_list(b)[0] == set_zero_node(b[0]));
                lemma_set_zero_node_shape(b[0]);
            }
        }
    }
}

/// Replacing zeroing loops changes nothing where there are none.
pub proof fn lemma_set_zero_fixed(t: Tree)
    requires
        zero_free_tree(t),
    ensures
        set_zero_tree(t) == t,
    decreases t, 1nat,
{
    match t.kind {
        TreeKind::Program(s) => lemma_set_zero_list_fixed(s),
        TreeKind::Loop(s) => lemma_set_zero_list_fixed(s),
        _ => {},
    }
}

proof fn lemma_set_zero_list_fixed(s: Seq<Tree>)
    requires
        zero_free_list(s),
    ensures
        set_zero_list(s) == s,
    decreases s, 0nat,
{
    assert forall|i: int| 0 <= i < s.len() implies set_zero_list(s)[i] == s[i] by {
        lemma_set_zero_fixed(s[i]);
    }
    assert(set_zero_list(s) =~= s);
}

proof fn lemma_drop_leading(s: Seq<Tree>)
    ensures
        drop_leading_loops(s).len() > 0 ==> !(drop_leading_loops(s)[0].kind is Loop),
    decreases s.len(),
{
    if s.len() > 0 && s[0].kind is Loop {
        lemma_drop_leading(s.drop_first());
    }
}

/// Running the default pipeline a second time changes nothing.
pub proof fn lemma_optimize_idempotent(t: Tree)
    ensures
        optimize_spec(optimize_spec(t)) == optimize_spec(t),
{
    let t0 = remove_comment_loop_spec(t);
    let t1 = collapse_tree(t0, RunKind::Increment);
    let t2 = collapse_tree(t1, RunKind::Decrement);
    let t3 = collapse_tree(t2, RunKind::Next);
    let t4 = collapse_tree(t3, RunKind::Previous);
    let t5 = set_zero_tree(t4);
    // the pipeline's output opens with no loop
    if let TreeKind::Program(s) = t.kind {
        lemma_drop_leading(s);
    }
    assert(no_leading_loop(t0));
    if let TreeKind::Program(s) = t0.kind {
        lemma_collapse_ends(s, RunKind::Increment);
    }
    if let TreeKind::Program(s) = t1.kind {
        lemma_collapse_ends(s, RunKind::Decrement);
    }
    if let TreeKind::Program(s) = t2.kind {
        lemma_collapse_ends(s, RunKind::Next);
    }
    if let TreeKind::Program(s) = t3.kind {
        lemma_collapse_ends(s, RunKind::Previous);
    }
    if let TreeKind::Program(s) = t4.kind {
        if s.len() > 0 {
            lemma_set_zero_node_shape(s[0]);
        }
    }
    assert(no_leading_loop(t5));
    if let TreeKind::Program(s) = t5.kind {
        assert(drop_leading_loops(s) == s);
    }
    assert(remove_comment_loop_spec(t5) == t5);
    // no mergeable neighbours of any kind, and no zeroing loop
    lemma_collapse_collapsed(t0, RunKind::Increment);
    lemma_collapse_keeps(t1, RunKind::Decrement, RunKind::Increment);
    lemma_collapse_keeps(t2, RunKind::Next, RunKind::Increment);
    lemma_collapse_keeps(t3, RunKind::Previous, RunKind::Increment);
    lemma_set_zero_keeps(t4, RunKind::Increment);
    lemma_collapse_collapsed(t1, RunKind::Decrement);
    lemma_collapse_keeps(t2, RunKind::Next, RunKind::Decrement);
    lemma_collapse_keeps(t3, RunKind::Previous, RunKind::Decrement);
    lemma_set_zero_keeps(t4, RunKind::Decrement);
    lemma_collapse_collapsed(t2, RunKind::Next);
    lemma_collapse_keeps(t3, RunKind::Previous, RunKind::Next);
    lemma_set_zero_keeps(t4, RunKind::Next);
    lemma_collapse_collapsed(t3, RunKind::Previous);
    lemma_set_zero_keeps(t4, RunKind::Previous);
    lemma_set_zero_free(t4);
    lemma_collapse_fixed(t5, RunKind::Increment);
    lemma_collapse_fixed(t5, RunKind::Decrement);
    lemma_collapse_fixed(t5, RunKind::Next);
    lemma_collapse_fixed(t5, RunKind::Previous);
    lemma_set_zero_fixed(t5);
}

} // verus!
