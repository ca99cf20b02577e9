use vstd::prelude::*;
pub use crate::ast::{InstructionNode, NodeType};
use crate::ast::{Tree, TreeKind, lemma_trees_push, tree_of, trees_of};
use crate::lexer::{Token, TokenType};

verus! {

/// A bracket without its partner, with the position of the offending bracket.
#[derive(Copy, Clone, Debug, PartialEq, Eq, Structural)]
pub enum ParsingError {
    /// An opening `[` that the input ends before closing.
    UnmatchedBeginLoop { line: u32, char: u32 },
    /// A closing `]` with no loop open.
    UnmatchedEndLoop { line: u32, char: u32 },
}

/// The node kind of a token other than a bracket.
pub open spec fn leaf_kind(t: TokenType) -> TreeKind {
    match t {
        TokenType::Next => TreeKind::Next(1),
        TokenType::Previous => TreeKind::Previous(1),
        TokenType::Increment => TreeKind::Increment(1),
        TokenType::Decrement => TreeKind::Decrement(1),
        TokenType::Output => TreeKind::Output,
        TokenType::Input => TreeKind::Input,
        _ => TreeKind::Output,
    }
}

/// Parses the sibling list that starts at token `i`: nodes up to the end of
/// input (at top level, `open` is `None`) or up to the `]` that closes the
/// loop opened by `open`. Gives the nodes and the index where the list stops.
pub open spec fn parse_seq(toks: Seq<Token>, i: nat, open: Option<Token>) -> Result<(Seq<Tree>, nat), ParsingError>
    decreases toks.len() - i, 1nat,
{
    if i >= toks.len() {
        match open {
            Some(b) => Err(ParsingError::UnmatchedBeginLoop { line: b.line, char: b.char }),
            None => Ok((Seq::empty(), i)),
        }
    } else if toks[i as int].token_type == TokenType::EndLoop {
        match open {
            Some(_) => Ok((Seq::empty(), i)),
            None => Err(ParsingError::UnmatchedEndLoop { line: toks[i as int].line, char: toks[i as int].char }),
        }
    } else {
        match parse_item(toks, i) {
            Err(e) => Err(e),
            Ok((t, j)) => if i < j <= toks.len() {
                match parse_seq(toks, j, open) {
                    Err(e) => Err(e),
                    Ok((rest, k)) => Ok((seq![t] + rest, k)),
                }
            } else {
                Err(arbitrary())
            },
        }
    }
}

/// Parses the single node that starts at token `i` (not a `]`): a leaf, or a
/// whole loop up to and including its `]`. Gives the node and the index after it.
pub open spec fn parse_item(toks: Seq<Token>, i: nat) -> Result<(Tree, nat), ParsingError>
    decreases toks.len() - i, 0nat,
{
    if i >= toks.len() {
        Err(arbitrary())
    } else {
        let tok = toks[i as int];
        if tok.token_type == TokenType::BeginLoop {
            match parse_seq(toks, i + 1, Some(tok)) {
                Err(e) => Err(e),
                Ok((body, j)) => Ok((Tree { kind: TreeKind::Loop(body), line: tok.line, char: tok.char }, j + 1)),
            }
        } else {
            Ok((Tree { kind: leaf_kind(tok.token_type), line: tok.line, char: tok.char }, i + 1))
        }
    }
}

/// The tree of a whole token stream: a `Program` root at position (0, 0).
pub open spec fn parse_spec(toks: Seq<Token>) -> Result<Tree, ParsingError> {
    match parse_seq(toks, 0, None) {
        Err(e) => Err(e),
        Ok((body, _)) => Ok(Tree { kind: TreeKind::Program(body), line: 0, char: 0 }),
    }
}

/// Prepends `prefix` to the nodes of a successful parse result.
pub open spec fn after(prefix: Seq<Tree>, r: Result<(Seq<Tree>, nat), ParsingError>) -> Result<(Seq<Tree>, nat), ParsingError> {
    match r {
        Err(e) => Err(e),
        Ok((s, k)) => Ok((prefix + s, k)),
    }
}

pub proof fn lemma_parse_progress(toks: Seq<Token>, i: nat, open: Option<Token>)
    ensures
        parse_seq(toks, i, open) matches Ok((_, k)) ==> {
            &&& i <= k
            &&& (i <= toks.len() ==> k <= toks.len())
            &&& (open is Some && i <= toks.len() ==> k < toks.len() && toks[k as int].token_type == TokenType::EndLoop)
        },
        i < toks.len() ==> (parse_item(toks, i) matches Ok((_, k)) ==> i < k <= toks.len()),
    decreases toks.len() - i,
{
    if i < toks.len() {
        if toks[i as int].token_type == TokenType::BeginLoop {
            lemma_parse_progress(toks, i + 1, Some(toks[i as int]));
        }
        if toks[i as int].token_type != TokenType::EndLoop {
            if let Ok((_, j)) = parse_item(toks, i) {
                lemma_parse_progress(toks, j, open);
            }
        }
    }
}

proof fn lemma_parse_step(toks: Seq<Token>, i: nat, open: Option<Token>, prefix: Seq<Tree>)
    requires
        i < toks.len(),
        toks[i as int].token_type != TokenType::EndLoop,
    ensures
        after(prefix, parse_seq(toks, i, open)) == match parse_item(toks, i) {
            Err(e) => Err(e),
            Ok((t, j)) => after(prefix.push(t), parse_seq(toks, j, open)),
        },
{
    lemma_parse_progress(toks, i, open);
    if let Ok((t, j)) = parse_item(toks, i) {
        if let Ok((rest, k)) = parse_seq(toks, j, open) {
            assert(prefix + (seq![t] + rest) =~= prefix.push(t) + rest);
        }
    }
}

/// Builds the tree of a token stream: brackets nest loops, every other token
/// becomes a node of count 1 at its own position.
pub fn parse(tokens: &[Token]) -> (r: Result<InstructionNode, ParsingError>)
    ensures
        match (r, parse_spec(tokens@)) {
            (Ok(n), Ok(t)) => n@ == t,
            (Err(e), Err(f)) => e == f,
            _ => false,
        },
{
    ParsingContext::new(tokens).parse_all()
}

/// A cursor over a token stream during parsing.
pub struct ParsingContext<'a> {
    tokens: &'a [Token],
    index: usize,
}

impl<'a> ParsingContext<'a> {
    pub closed spec fn tokens(&self) -> Seq<Token> {
        self.tokens@
    }

    pub closed spec fn index(&self) -> nat {
        self.index as nat
    }

    pub fn new(tokens: &'a [Token]) -> (r: ParsingContext<'a>)
        ensures
            r.tokens() == tokens@,
            r.index() == 0,
    {
        ParsingContext { tokens, index: 0 }
    }

    /// Parses the tokens from the cursor to the end as the body of a program.
    pub fn parse_all(self) -> (r: Result<InstructionNode, ParsingError>)
        ensures
            match (r, parse_seq(self.tokens(), self.index(), None)) {
                (Ok(n), Ok((body, _))) => n@ == (Tree { kind: TreeKind::Program(body), line: 0, char: 0 }),
                (Err(e), Err(f)) => e == f,
                _ => false,
            },
            self.index() == 0 ==> match (r, parse_spec(self.tokens())) {
                (Ok(n), Ok(t)) => n@ == t,
                (Err(e), Err(f)) => e == f,
                _ => false,
            },
    {
        let ghost toks = self.tokens@;
        let ghost i0 = self.index as nat;
        let mut ctx = self;
        let mut nodes: Vec<InstructionNode> = Vec::with_capacity(ctx.tokens.len());
        while !ctx.is_end()
            invariant
                ctx.tokens@ == toks,
                toks == self.tokens(),
                i0 == self.index(),
                i0 <= ctx.index,
                ctx.index > toks.len() ==> ctx.index == i0 && nodes@.len() == 0,
                parse_seq(toks, i0, None) == after(trees_of(nodes@), parse_seq(toks, ctx.index as nat, None)),
            decreases toks.len() - ctx.index,
        {
            let ghost i = ctx.index as nat;
            proof {
                if toks[i as int].token_type != TokenType::EndLoop {
                    lemma_parse_step(toks, i, None, trees_of(nodes@));
                    lemma_parse_progress(toks, i, None);
                }
            }
            match ctx.parse_token() {
                Err(e) => {
                    return Err(e);
                },
                Ok(n) => {
                    proof {
                        lemma_trees_push(nodes@, n);
                    }
                    nodes.push(n);
                },
            }
        }
        proof {
            assert(trees_of(nodes@) + Seq::<Tree>::empty() =~= trees_of(nodes@));
            assert(trees_of(Seq::<InstructionNode>::empty()) =~= Seq::<Tree>::empty());
        }
        Ok(InstructionNode { node_type: NodeType::Program(nodes), line: 0, char: 0 })
    }

    fn current(&self) -> (t: Token)
        requires
            self.index < self.tokens@.len(),
        ensures
            t == self.tokens@[self.index as int],
    {
        self.tokens[self.index]
    }

    fn is_end(&self) -> (b: bool)
        ensures
            b == (self.index >= self.tokens@.len()),
    {
        self.index >= self.tokens.len()
    }

    fn construct_node(&self, n_type: NodeType) -> (n: InstructionNode)
        requires
            self.index < self.tokens@.len(),
        ensures
            n.node_type == n_type,
            n.line == self.tokens@[self.index as int].line,
            n.char == self.tokens@[self.index as int].char,
    {
        InstructionNode { node_type: n_type, line: self.current().line, char: self.current().char }
    }

    /// Parses the node at the cursor and moves the cursor past it.
    fn parse_token(&mut self) -> (r: Result<InstructionNode, ParsingError>)
        requires
            old(self).index < old(self).tokens@.len(),
        ensures
            final(self).tokens@ == old(self).tokens@,
            old(self).tokens@[old(self).index as int].token_type == TokenType::EndLoop ==> r == Err::<InstructionNode, ParsingError>(
                ParsingError::UnmatchedEndLoop {
                    line: old(self).tokens@[old(self).index as int].line,
                    char: old(self).tokens@[old(self).index as int].char,
                },
            ),
            old(self).tokens@[old(self).index as int].token_type != TokenType::EndLoop ==> match (r, parse_item(old(self).tokens@, old(self).index as nat)) {
                (Ok(n), Ok((t, j))) => n@ == t && final(self).index == j,
                (Err(e), Err(f)) => e == f,
                _ => false,
            },
        decreases old(self).tokens@.len() - old(self).index, 1nat,
    {
        let ghost toks = self.tokens@;
        let ghost i0 = self.index as nat;
        let len = self.tokens.len();
        let c = self.current();
        let ret;
        match c.token_type {
            TokenType::Next => ret = self.construct_node(NodeType::Next(1)),
            TokenType::Previous => ret = self.construct_node(NodeType::Previous(1)),
            TokenType::Increment => ret = self.construct_node(NodeType::Increment(1)),
            TokenType::Decrement => ret = self.construct_node(NodeType::Decrement(1)),
            TokenType::Output => ret = self.construct_node(NodeType::Output),
            TokenType::Input => ret = self.construct_node(NodeType::Input),
            TokenType::BeginLoop => {
                match self.parse_loop() {
                    Ok(n) => ret = n,
                    Err(e) => {
                        return Err(e);
                    },
                }
            },
            TokenType::EndLoop => {
                return Err(ParsingError::UnmatchedEndLoop { line: c.line, char: c.char });
            },
        }
        proof {
            lemma_parse_progress(toks, i0, None);
            lemma_parse_progress(toks, i0 + 1, Some(c));
        }
        self.index += 1;
        Ok(ret)
    }

    /// Parses the loop whose `[` is at the cursor, leaving the cursor on its `]`.
    fn parse_loop(&mut self) -> (r: Result<InstructionNode, ParsingError>)
        requires
            old(self).index < old(self).tokens@.len(),
            old(self).tokens@[old(self).index as int].token_type == TokenType::BeginLoop,
        ensures
            final(self).tokens@ == old(self).tokens@,
            match (r, parse_seq(old(self).tokens@, (old(self).index + 1) as nat, Some(old(self).tokens@[old(self).index as int]))) {
                (Ok(n), Ok((body, j))) => {
                    &&& n@ == (Tree { kind: TreeKind::Loop(body), line: old(self).tokens@[old(self).index as int].line, char: old(self).tokens@[old(self).index as int].char })
                    &&& final(self).index == j
                },
                (Err(e), Err(f)) => e == f,
                _ => false,
            },
        decreases old(self).tokens@.len() - old(self).index, 0nat,
    {
        let ghost toks = self.tokens@;
        let ghost i0 = self.index as nat;
        let begin = self.current();
        let begin_line = begin.line;
        let begin_char = begin.char;
        let len = self.tokens.len();
        let ghost open = Some(begin);
        let ghost start = (self.index + 1) as nat;
        self.index += 1;
        let mut children: Vec<InstructionNode> = Vec::new();
        loop
            invariant
                self.tokens@ == toks,
                start <= self.index <= toks.len(),
                start == i0 + 1,
                toks == old(self).tokens@,
                i0 == old(self).index,
                open == Some(toks[start - 1]),
                begin == toks[start - 1],
                begin_line == begin.line,
                begin_char == begin.char,
                parse_seq(toks, start, open) == after(trees_of(children@), parse_seq(toks, self.index as nat, open)),
            ensures
                self.tokens@ == toks,
                self.index < toks.len(),
                toks[self.index as int].token_type == TokenType::EndLoop,
                parse_seq(toks, start, open) == after(trees_of(children@), parse_seq(toks, self.index as nat, open)),
            decreases toks.len() - self.index,
        {
            if self.is_end() {
                return Err(ParsingError::UnmatchedBeginLoop { line: begin_line, char: begin_char });
            } else if self.current().token_type == TokenType::EndLoop {
                break;
            } else {
                let ghost i = self.index as nat;
                proof {
                    lemma_parse_step(toks, i, open, trees_of(children@));
                    lemma_parse_progress(toks, i, open);
                }
                match self.parse_token() {
                    Err(e) => {
                        return Err(e);
                    },
                    Ok(n) => {
                        proof {
                            lemma_trees_push(children@, n);
                        }
                        children.push(n);
                    },
                }
            }
        }
        proof {
            assert(trees_of(children@) + Seq::<Tree>::empty() =~= trees_of(children@));
        }
        Ok(InstructionNode { node_type: NodeType::Loop(children), line: begin_line, char: begin_char })
    }
}

} // verus!
