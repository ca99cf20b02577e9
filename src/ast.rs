use vstd::prelude::*;

verus! {

broadcast use {
    vstd::std_specs::vec::axiom_vec_decreases_to_view,
    vstd::seq::axiom_seq_index_decreases,
};

/// What an instruction node does. `Program` and `Loop` own their children.
#[derive(Debug, PartialEq, Eq)]
pub enum NodeType {
    Program(Vec<InstructionNode>),
    Next(usize),
    Previous(usize),
    Increment(usize),
    Decrement(usize),
    Output,
    Input,
    Loop(Vec<InstructionNode>),
    /// Only produced by optimization: sets the current cell to a value.
    SetCell(usize),
}

/// A node of the instruction tree, with the source position of the token it
/// came from (0, 0 for the program root).
#[derive(Debug, PartialEq, Eq)]
pub struct InstructionNode {
    pub node_type: NodeType,
    pub line: u32,
    pub char: u32,
}

/// The mathematical form of a node's kind.
pub enum TreeKind {
    Program(Seq<Tree>),
    Next(nat),
    Previous(nat),
    Increment(nat),
    Decrement(nat),
    Output,
    Input,
    Loop(Seq<Tree>),
    SetCell(nat),
}

/// The mathematical form of an instruction node.
pub struct Tree {
    pub kind: TreeKind,
    pub line: u32,
    pub char: u32,
}

pub open spec fn tree_of(n: InstructionNode) -> Tree
    decreases n,
{
    let kind = match n.node_type {
        NodeType::Program(v) => TreeKind::Program(trees_of(v@)),
        NodeType::Next(a) => TreeKind::Next(a as nat),
        NodeType::Previous(a) => TreeKind::Previous(a as nat),
        NodeType::Increment(a) => TreeKind::Increment(a as nat),
        NodeType::Decrement(a) => TreeKind::Decrement(a as nat),
        NodeType::Output => TreeKind::Output,
        NodeType::Input => TreeKind::Input,
        NodeType::Loop(v) => TreeKind::Loop(trees_of(v@)),
        NodeType::SetCell(a) => TreeKind::SetCell(a as nat),
    };
    Tree { kind, line: n.line, char: n.char }
}

pub open spec fn trees_of(s: Seq<InstructionNode>) -> Seq<Tree>
    decreases s,
{
    Seq::new(s.len(), |i: int| if 0 <= i < s.len() { tree_of(s[i]) } else { arbitrary() })
}

impl View for InstructionNode {
    type V = Tree;

    open spec fn view(&self) -> Tree {
        tree_of(*self)
    }
}

pub proof fn lemma_trees_take(s: Seq<InstructionNode>, i: int)
    requires
        0 <= i < s.len(),
    ensures
        trees_of(s.take(i + 1)).drop_last() == trees_of(s.take(i)),
        trees_of(s.take(i + 1)).last() == tree_of(s[i]),
        trees_of(s.take(i + 1)).len() > 0,
{
    assert(trees_of(s.take(i + 1)).drop_last() =~= trees_of(s.take(i)));
}

pub proof fn lemma_trees_push(v: Seq<InstructionNode>, n: InstructionNode)
    ensures
        trees_of(v.push(n)) == trees_of(v).push(tree_of(n)),
        trees_of(v).len() == v.len(),
{
    assert(trees_of(v.push(n)) =~= trees_of(v).push(tree_of(n)));
}

pub proof fn lemma_trees_drop_last(v: Seq<InstructionNode>)
    requires
        v.len() > 0,
    ensures
        trees_of(v.drop_last()) == trees_of(v).drop_last(),
        trees_of(v).last() == tree_of(v.last()),
{
    assert(trees_of(v.drop_last()) =~= trees_of(v).drop_last());
}

} // verus!
