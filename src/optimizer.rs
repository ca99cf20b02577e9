use vstd::prelude::*;
use crate::ast::{
    InstructionNode, NodeType, Tree, TreeKind, lemma_trees_drop_last, lemma_trees_push, lemma_trees_take, tree_of, trees_of,
};

verus! {

broadcast use {
    vstd::std_specs::vec::axiom_vec_decreases_to_view,
    vstd::std_specs::vec::axiom_vec_index_decreases,
    vstd::seq::axiom_seq_index_decreases,
    vstd::seq::axiom_seq_subrange_decreases,
};

/// The four node kinds whose consecutive runs are merged into one node.
#[derive(Copy, Clone, Debug, PartialEq, Eq, Structural)]
pub enum RunKind {
    Increment,
    Decrement,
    Next,
    Previous,
}

/// The count of `t` if it is a node of kind `k`.
pub open spec fn run_count(t: Tree, k: RunKind) -> Option<nat> {
    match (t.kind, k) {
        (TreeKind::Increment(n), RunKind::Increment) => Some(n),
        (TreeKind::Decrement(n), RunKind::Decrement) => Some(n),
        (TreeKind::Next(n), RunKind::Next) => Some(n),
        (TreeKind::Previous(n), RunKind::Previous) => Some(n),
        _ => None,
    }
}

/// A node of kind `k` with count `n` at the position of `at`.
pub open spec fn run_node(k: RunKind, n: nat, at: Tree) -> Tree {
    let kind = match k {
        RunKind::Increment => TreeKind::Increment(n),
        RunKind::Decrement => TreeKind::Decrement(n),
        RunKind::Next => TreeKind::Next(n),
        RunKind::Previous => TreeKind::Previous(n),
    };
    Tree { kind, line: at.line, char: at.char }
}

/// Merges, in every sibling list of `t`, each run of consecutive nodes of
/// kind `k` into one node carrying the sum of their counts and the position
/// of the first. A run whose sum would not fit a `usize` is split where the
/// next count no longer fits.
pub open spec fn collapse_tree(t: Tree, k: RunKind) -> Tree
    decreases t,
{
    match t.kind {
        TreeKind::Program(s) => Tree { kind: TreeKind::Program(collapse_list(s, k)), ..t },
        TreeKind::Loop(s) => Tree { kind: TreeKind::Loop(collapse_list(s, k)), ..t },
        _ => t,
    }
}

/// Run merging on one sibling list, scanning from the left.
pub open spec fn collapse_list(s: Seq<Tree>, k: RunKind) -> Seq<Tree>
    decreases s,
{
    if s.len() == 0 {
        s
    } else {
        let pre = collapse_list(s.drop_last(), k);
        let x = s.last();
        match run_count(x, k) {
            Some(b) => if pre.len() > 0 && run_count(pre.last(), k) is Some
                && run_count(pre.last(), k)->Some_0 + b <= usize::MAX {
                pre.drop_last().push(run_node(k, run_count(pre.last(), k)->Some_0 + b, pre.last()))
            } else {
                pre.push(x)
            },
            None => pre.push(collapse_tree(x, k)),
        }
    }
}

/// Drops the loops at the start of the program's top-level list.
pub open spec fn drop_leading_loops(s: Seq<Tree>) -> Seq<Tree>
    decreases s.len(),
{
    if s.len() > 0 && s[0].kind is Loop {
        drop_leading_loops(s.drop_first())
    } else {
        s
    }
}

pub open spec fn remove_comment_loop_spec(t: Tree) -> Tree {
    match t.kind {
        TreeKind::Program(s) => Tree { kind: TreeKind::Program(drop_leading_loops(s)), ..t },
        _ => t,
    }
}

/// Whether `t` is a loop whose body is exactly one `Decrement(1)`.
pub open spec fn is_zeroing_loop(t: Tree) -> bool {
    t.kind is Loop && t.kind->Loop_0.len() == 1 && t.kind->Loop_0[0].kind == TreeKind::Decrement(1)
}

/// Replaces every zeroing loop, at any depth, by `SetCell(0)` at its position.
pub open spec fn set_zero_tree(t: Tree) -> Tree
    decreases t, 0nat,
{
    match t.kind {
        TreeKind::Program(s) => Tree { kind: TreeKind::Program(set_zero_list(s)), ..t },
        TreeKind::Loop(s) => Tree { kind: TreeKind::Loop(set_zero_list(s)), ..t },
        _ => t,
    }
}

pub open spec fn set_zero_list(s: Seq<Tree>) -> Seq<Tree>
    decreases s, 0nat,
{
    Seq::new(s.len(), |i: int| if 0 <= i < s.len() { set_zero_node(s[i]) } else { arbitrary() })
}

pub open spec fn set_zero_node(t: Tree) -> Tree
    decreases t, 1nat,
{
    if is_zeroing_loop(t) {
        Tree { kind: TreeKind::SetCell(0), line: t.line, char: t.char }
    } else {
        set_zero_tree(t)
    }
}

/// The count of `n` if it is a node of kind `k`.
fn count_of(n: &InstructionNode, k: RunKind) -> (r: Option<usize>)
    ensures
        match r {
            Some(c) => run_count(n@, k) == Some(c as nat),
            None => run_count(n@, k) is None,
        },
{
    match (&n.node_type, k) {
        (NodeType::Increment(c), RunKind::Increment) => Some(*c),
        (NodeType::Decrement(c), RunKind::Decrement) => Some(*c),
        (NodeType::Next(c), RunKind::Next) => Some(*c),
        (NodeType::Previous(c), RunKind::Previous) => Some(*c),
        _ => None,
    }
}

fn make_run(k: RunKind, n: usize, line: u32, char: u32) -> (r: InstructionNode)
    ensures
        r@ == run_node(k, n as nat, Tree { kind: TreeKind::Output, line, char }),
{
    let node_type = match k {
        RunKind::Increment => NodeType::Increment(n),
        RunKind::Decrement => NodeType::Decrement(n),
        RunKind::Next => NodeType::Next(n),
        RunKind::Previous => NodeType::Previous(n),
    };
    InstructionNode { node_type, line, char }
}

fn collapse_owned(node: InstructionNode, k: RunKind) -> (r: InstructionNode)
    ensures
        r@ == collapse_tree(node@, k),
    decreases node,
{
    let InstructionNode { node_type, line, char } = node;
    match node_type {
        NodeType::Program(v) => {
            let w = collapse_node_list(v, k);
            InstructionNode { node_type: NodeType::Program(w), line, char }
        },
        NodeType::Loop(v) => {
            let w = collapse_node_list(v, k);
            InstructionNode { node_type: NodeType::Loop(w), line, char }
        },
        other => InstructionNode { node_type: other, line, char },
    }
}

/// Run merging on one sibling list; nodes of other kinds are rewritten inside.
fn collapse_node_list(nodes: Vec<InstructionNode>, k: RunKind) -> (r: Vec<InstructionNode>)
    ensures
        trees_of(r@) == collapse_list(trees_of(nodes@), k),
    decreases nodes,
{
    let ghost orig = nodes@;
    let mut new_nodes: Vec<InstructionNode> = Vec::with_capacity(nodes.len());
    proof {
        assert(trees_of(orig.take(0)) =~= Seq::<Tree>::empty());
        assert(trees_of(new_nodes@) =~= Seq::<Tree>::empty());
    }
    for node in it: nodes.into_iter()
        invariant
            it.seq() == orig,
            orig == nodes@,
            trees_of(new_nodes@) == collapse_list(trees_of(orig.take(it.index() as int)), k),
    {
        let ghost i = it.index() as int;
        proof {
            lemma_trees_take(orig, i);
            assert(node == nodes[i]);
        }
        match count_of(&node, k) {
            Some(b) => {
                let mut merged = false;
                if new_nodes.len() > 0 {
                    match count_of(&new_nodes[new_nodes.len() - 1], k) {
                        Some(a) => {
                            if a <= usize::MAX - b {
                                proof {
                                    lemma_trees_drop_last(new_nodes@);
                                }
                                match new_nodes.pop() {
                                    Some(last) => {
                                        let m = make_run(k, a + b, last.line, last.char);
                                        proof {
                                            lemma_trees_push(new_nodes@, m);
                                        }
                                        new_nodes.push(m);
                                        merged = true;
                                    },
                                    None => {},
                                }
                            }
                        },
                        None => {},
                    }
                }
                if !merged {
                    proof {
                        lemma_trees_push(new_nodes@, node);
                    }
                    new_nodes.push(node);
                }
            },
            None => {
                let c = collapse_owned(node, k);
                proof {
                    lemma_trees_push(new_nodes@, c);
                }
                new_nodes.push(c);
            },
        }
    }
    proof {
        assert(orig.take(orig.len() as int) == orig);
    }
    new_nodes
}

/// Applies run merging of kind `k` below the node at `program`.
fn collapse_runs(program: &mut InstructionNode, k: RunKind)
    ensures
        final(program)@ == collapse_tree(old(program)@, k),
{
    let mut taken = InstructionNode { node_type: NodeType::Output, line: 0, char: 0 };
    std::mem::swap(program, &mut taken);
    *program = collapse_owned(taken, k);
}

/// Merges every run of consecutive `Next` nodes into one `Next` with the summed count.
pub fn collapse_next(program: &mut InstructionNode)
    ensures
        final(program)@ == collapse_tree(old(program)@, RunKind::Next),
{
    collapse_runs(program, RunKind::Next)
}

/// Merges every run of consecutive `Previous` nodes into one `Previous` with the summed count.
pub fn collapse_previous(program: &mut InstructionNode)
    ensures
        final(program)@ == collapse_tree(old(program)@, RunKind::Previous),
{
    collapse_runs(program, RunKind::Previous)
}

/// Merges every run of consecutive `Increment` nodes into one `Increment` with the summed count.
pub fn collapse_increments(program: &mut InstructionNode)
    ensures
        final(program)@ == collapse_tree(old(program)@, RunKind::Increment),
{
    collapse_runs(program, RunKind::Increment)
}

/// Merges every run of consecutive `Decrement` nodes into one `Decrement` with the summed count.
pub fn collapse_decrements(program: &mut InstructionNode)
    ensures
        final(program)@ == collapse_tree(old(program)@, RunKind::Decrement),
{
    collapse_runs(program, RunKind::Decrement)
}

/// Whether `n` is a loop whose body is exactly one `Decrement(1)`.
fn is_zeroing(n: &InstructionNode) -> (b: bool)
    ensures
        b == is_zeroing_loop(n@),
{
    match &n.node_type {
        NodeType::Loop(children) => {
            proof {
                if children@.len() == 1 {
                    assert(trees_of(children@)[0] == tree_of(children@[0]));
                }
            }
            if children.len() == 1 {
                match children[0].node_type {
                    NodeType::Decrement(c) => c == 1,
                    _ => false,
                }
            } else {
                false
            }
        },
        _ => false,
    }
}

fn set_zero_owned(node: InstructionNode) -> (r: InstructionNode)
    ensures
        r@ == set_zero_tree(node@),
    decreases node, 0nat,
{
    let InstructionNode { node_type, line, char } = node;
    match node_type {
        NodeType::Program(v) => {
            let w = collapse_nodes(v);
            InstructionNode { node_type: NodeType::Program(w), line, char }
        },
        NodeType::Loop(v) => {
            let w = collapse_nodes(v);
            InstructionNode { node_type: NodeType::Loop(w), line, char }
        },
        other => InstructionNode { node_type: other, line, char },
    }
}

/// Rewrites every node of a sibling list: zeroing loops become `SetCell(0)`,
/// other nodes are rewritten inside.
fn collapse_nodes(nodes: Vec<InstructionNode>) -> (r: Vec<InstructionNode>)
    ensures
        trees_of(r@) == set_zero_list(trees_of(nodes@)),
    decreases nodes, 0nat,
{
    let ghost orig = nodes@;
    let mut new_nodes: Vec<InstructionNode> = Vec::with_capacity(nodes.len());
    for node in it: nodes.into_iter()
        invariant
            it.seq() == orig,
            orig == nodes@,
            new_nodes@.len() == it.index(),
            forall|j: int| 0 <= j < it.index() ==> #[trigger] tree_of(new_nodes@[j]) == set_zero_node(tree_of(orig[j])),
    {
        let ghost i = it.index() as int;
        proof {
            assert(node == nodes[i]);
        }
        if is_zeroing(&node) {
            new_nodes.push(InstructionNode { node_type: NodeType::SetCell(0), line: node.line, char: node.char });
        } else {
            let c = set_zero_owned(node);
            new_nodes.push(c);
        }
    }
    proof {
        assert(new_nodes@.len() == orig.len());
        assert forall|j: int| 0 <= j < orig.len() implies trees_of(new_nodes@)[j] == set_zero_list(trees_of(orig))[j] by {
            assert(tree_of(new_nodes@[j]) == set_zero_node(tree_of(orig[j])));
        }
        assert(trees_of(new_nodes@) =~= set_zero_list(trees_of(orig)));
    }
    new_nodes
}

/// Replaces every loop whose body is exactly one `Decrement(1)`, at any depth
/// below `node`, by `SetCell(0)`: such a loop always ends with the cell at zero.
pub fn collapse_set_zero(node: &mut InstructionNode)
    ensures
        final(node)@ == set_zero_tree(old(node)@),
{
    let mut taken = InstructionNode { node_type: NodeType::Output, line: 0, char: 0 };
    std::mem::swap(node, &mut taken);
    *node = set_zero_owned(taken);
}

/// Removes the loops that open the program. The tape starts all zero, so a
/// loop met before any instruction has run is never entered.
pub fn remove_comment_loop(program: &mut InstructionNode)
    ensures
        final(program)@ == remove_comment_loop_spec(old(program)@),
{
    let mut node_type = NodeType::Output;
    std::mem::swap(&mut program.node_type, &mut node_type);
    match node_type {
        NodeType::Program(nodes) => {
            let mut nodes = nodes;
            let ghost orig = nodes@;
            while nodes.len() != 0 && matches!(nodes[0].node_type, NodeType::Loop(_))
                invariant
                    drop_leading_loops(trees_of(orig)) == drop_leading_loops(trees_of(nodes@)),
                decreases nodes.len(),
            {
                proof {
                    assert(trees_of(nodes@.remove(0)) =~= trees_of(nodes@).drop_first());
                }
                nodes.remove(0);
            }
            program.node_type = NodeType::Program(nodes);
        },
        other => {
            program.node_type = other;
        },
    }
}

/// One rewrite pass of the optimizer.
#[derive(Copy, Clone, Debug, PartialEq, Eq, Structural)]
pub enum OptimizerPass {
    RemoveCommentLoop,
    CollapseIncrements,
    CollapseDecrements,
    CollapseNext,
    CollapsePrevious,
    CollapseSetZero,
}

/// What one pass makes of a tree.
pub open spec fn pass_spec(p: OptimizerPass, t: Tree) -> Tree {
    match p {
        OptimizerPass::RemoveCommentLoop => remove_comment_loop_spec(t),
        OptimizerPass::CollapseIncrements => collapse_tree(t, RunKind::Increment),
        OptimizerPass::CollapseDecrements => collapse_tree(t, RunKind::Decrement),
        OptimizerPass::CollapseNext => collapse_tree(t, RunKind::Next),
        OptimizerPass::CollapsePrevious => collapse_tree(t, RunKind::Previous),
        OptimizerPass::CollapseSetZero => set_zero_tree(t),
    }
}

/// What a list of passes, applied in order, makes of a tree.
pub open spec fn passes_spec(ps: Seq<OptimizerPass>, t: Tree) -> Tree
    decreases ps.len(),
{
    if ps.len() == 0 {
        t
    } else {
        pass_spec(ps.last(), passes_spec(ps.drop_last(), t))
    }
}

/// The default pipeline, in its required order.
pub open spec fn default_passes() -> Seq<OptimizerPass> {
    seq![
        OptimizerPass::RemoveCommentLoop,
        OptimizerPass::CollapseIncrements,
        OptimizerPass::CollapseDecrements,
        OptimizerPass::CollapseNext,
        OptimizerPass::CollapsePrevious,
        OptimizerPass::CollapseSetZero,
    ]
}

/// What the default pipeline makes of a tree.
pub open spec fn optimize_spec(t: Tree) -> Tree {
    set_zero_tree(
        collapse_tree(
            collapse_tree(
                collapse_tree(collapse_tree(remove_comment_loop_spec(t), RunKind::Increment), RunKind::Decrement),
                RunKind::Next,
            ),
            RunKind::Previous,
        ),
    )
}

fn run_pass(p: OptimizerPass, program: &mut InstructionNode)
    ensures
        final(program)@ == pass_spec(p, old(program)@),
{
    match p {
        OptimizerPass::RemoveCommentLoop => remove_comment_loop(program),
        OptimizerPass::CollapseIncrements => collapse_increments(program),
        OptimizerPass::CollapseDecrements => collapse_decrements(program),
        OptimizerPass::CollapseNext => collapse_next(program),
        OptimizerPass::CollapsePrevious => collapse_previous(program),
        OptimizerPass::CollapseSetZero => collapse_set_zero(program),
    }
}

/// Runs the default pipeline on a tree.
pub fn apply_default_optimizations(program: &mut InstructionNode)
    ensures
        final(program)@ == optimize_spec(old(program)@),
        final(program)@ == passes_spec(default_passes(), old(program)@),
{
    let opt = Optimizer::new()
        .with_pass(OptimizerPass::RemoveCommentLoop)
        .with_pass(OptimizerPass::CollapseIncrements)
        .with_pass(OptimizerPass::CollapseDecrements)
        .with_pass(OptimizerPass::CollapseNext)
        .with_pass(OptimizerPass::CollapsePrevious)
        .with_pass(OptimizerPass::CollapseSetZero);
    proof {
        assert(opt.passes() =~= default_passes());
        reveal_with_fuel(passes_spec, 7);
    }
    opt.apply(program);
}

/// An ordered list of passes, applied one after the other.
pub struct Optimizer {
    passes: Vec<OptimizerPass>,
}

impl Optimizer {
    pub closed spec fn passes(&self) -> Seq<OptimizerPass> {
        self.passes@
    }

    pub fn new() -> (r: Optimizer)
        ensures
            r.passes() == Seq::<OptimizerPass>::empty(),
    {
        Optimizer { passes: Vec::new() }
    }

    /// Adds a pass after those already there.
    pub fn with_pass(self, pass: OptimizerPass) -> (r: Optimizer)
        ensures
            r.passes() == self.passes().push(pass),
    {
        let mut passes = self.passes;
        passes.push(pass);
        Optimizer { passes }
    }

    /// Runs the passes in order, each on the output of the one before.
    pub fn apply(self, program: &mut InstructionNode)
        ensures
            final(program)@ == passes_spec(self.passes(), old(program)@),
    {
        let ghost start = program@;
        let ghost ps = self.passes@;
        let mut i: usize = 0;
        while i < self.passes.len()
            invariant
                ps == self.passes@,
                i <= ps.len(),
                program@ == passes_spec(ps.take(i as int), start),
            decreases ps.len() - i,
        {
            proof {
                assert(ps.take(i + 1).drop_last() =~= ps.take(i as int));
            }
            run_pass(self.passes[i], program);
            i += 1;
        }
        proof {
            assert(ps.take(ps.len() as int) =~= ps);
        }
    }
}

} // verus!
