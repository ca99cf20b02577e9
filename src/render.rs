use vstd::prelude::*;
use crate::ast::{InstructionNode, NodeType, Tree, TreeKind, tree_of, trees_of};
use crate::lexer::{Token, TokenType};

verus! {

broadcast use {
    vstd::std_specs::vec::axiom_vec_decreases_to_view,
    vstd::std_specs::vec::axiom_vec_index_decreases,
    vstd::seq::axiom_seq_index_decreases,
};

/// The character of a decimal digit.
pub open spec fn digit_char(d: nat) -> char {
    if d == 0 { '0' } else if d == 1 { '1' } else if d == 2 { '2' } else if d == 3 { '3' } else if d == 4 { '4' }
    else if d == 5 { '5' } else if d == 6 { '6' } else if d == 7 { '7' } else if d == 8 { '8' } else { '9' }
}

/// The decimal digits of `n`, most significant first, without leading zeros.
pub open spec fn digits(n: nat) -> Seq<char>
    decreases n,
{
    if n < 10 {
        seq![digit_char(n)]
    } else {
        digits(n / 10).push(digit_char(n % 10))
    }
}

/// `s` followed by spaces up to width `w`.
pub open spec fn pad_right(s: Seq<char>, w: nat) -> Seq<char> {
    if s.len() < w { s + Seq::new((w - s.len()) as nat, |i: int| ' ') } else { s }
}

/// `s` preceded by zeros up to width `w`.
pub open spec fn pad_left_zero(s: Seq<char>, w: nat) -> Seq<char> {
    if s.len() < w { Seq::new((w - s.len()) as nat, |i: int| '0') + s } else { s }
}

/// The name of a token kind.
pub open spec fn kind_name(t: TokenType) -> Seq<char> {
    match t {
        TokenType::Next => seq!['N', 'e', 'x', 't'],
        TokenType::Previous => seq!['P', 'r', 'e', 'v', 'i', 'o', 'u', 's'],
        TokenType::Increment => seq!['I', 'n', 'c', 'r', 'e', 'm', 'e', 'n', 't'],
        TokenType::Decrement => seq!['D', 'e', 'c', 'r', 'e', 'm', 'e', 'n', 't'],
        TokenType::Output => seq!['O', 'u', 't', 'p', 'u', 't'],
        TokenType::Input => seq!['I', 'n', 'p', 'u', 't'],
        TokenType::BeginLoop => seq!['B', 'e', 'g', 'i', 'n', 'L', 'o', 'o', 'p'],
        TokenType::EndLoop => seq!['E', 'n', 'd', 'L', 'o', 'o', 'p'],
    }
}

/// The three columns of a token listing.
pub open spec fn column(t: Token, col: nat) -> Seq<char> {
    if col == 0 {
        kind_name(t.token_type)
    } else if col == 1 {
        digits(t.line as nat)
    } else {
        digits(t.char as nat)
    }
}

/// The width of a column: its longest entry.
pub open spec fn column_width(ts: Seq<Token>, col: nat) -> nat
    decreases ts.len(),
{
    if ts.len() == 0 {
        0
    } else {
        let w = column_width(ts.drop_last(), col);
        let l = column(ts.last(), col).len();
        if l > w { l } else { w }
    }
}

/// One line of a token listing: `Token: <kind> (<line>|<column>)`, the kind
/// padded to `tw`, the line zero-filled to `lw`, the column padded to `cw`.
pub open spec fn token_line(t: Token, tw: nat, lw: nat, cw: nat) -> Seq<char> {
    seq!['T', 'o', 'k', 'e', 'n', ':', ' '] + pad_right(column(t, 0), tw) + seq![' ', '('] + pad_left_zero(column(t, 1), lw)
        + seq!['|'] + pad_right(column(t, 2), cw) + seq![')', '\n']
}

pub open spec fn token_lines(ts: Seq<Token>, k: nat, tw: nat, lw: nat, cw: nat) -> Seq<char>
    decreases k,
{
    if k == 0 || k > ts.len() {
        Seq::empty()
    } else {
        token_lines(ts, (k - 1) as nat, tw, lw, cw) + token_line(ts[k - 1], tw, lw, cw)
    }
}

/// The listing of a token stream, one aligned line per token.
pub open spec fn tokens_text(ts: Seq<Token>) -> Seq<char> {
    token_lines(ts, ts.len(), column_width(ts, 0), column_width(ts, 1), column_width(ts, 2))
}

/// `name(n)`.
pub open spec fn counted(name: Seq<char>, n: nat) -> Seq<char> {
    name + seq!['('] + digits(n) + seq![')']
}

/// What a tree listing says of one node.
pub open spec fn node_label(t: Tree) -> Seq<char> {
    match t.kind {
        TreeKind::Next(n) => counted(seq!['N', 'e', 'x', 't'], n),
        TreeKind::Previous(n) => counted(seq!['P', 'r', 'e', 'v', 'i', 'o', 'u', 's'], n),
        TreeKind::Increment(n) => counted(seq!['I', 'n', 'c', 'r', 'e', 'm', 'e', 'n', 't'], n),
        TreeKind::Decrement(n) => counted(seq!['D', 'e', 'c', 'r', 'e', 'm', 'e', 'n', 't'], n),
        TreeKind::SetCell(n) => counted(seq!['S', 'e', 't', 'C', 'e', 'l', 'l'], n),
        TreeKind::Output => seq!['O', 'u', 't', 'p', 'u', 't'],
        TreeKind::Input => seq!['I', 'n', 'p', 'u', 't'],
        TreeKind::Loop(_) => seq!['L', 'o', 'o', 'p', ':'],
        TreeKind::Program(_) => seq!['P', 'r', 'o', 'g', 'r', 'a', 'm', ':'],
    }
}

/// The branch drawn before a node: a corner for the last child, a tee otherwise.
pub open spec fn branch(last: bool) -> Seq<char> {
    if last { seq!['\u{2514}', '\u{2500}', '\u{2500}'] } else { seq!['\u{251c}', '\u{2500}', '\u{2500}'] }
}

/// What the children of a node add to the indent.
pub open spec fn indent_step(last: bool) -> Seq<char> {
    if last { seq![' ', ' ', ' '] } else { seq!['\u{2502}', ' ', ' '] }
}

/// A tree listing: the node's line after `indent` and its branch, then each
/// child's listing one level deeper.
pub open spec fn tree_text(t: Tree, indent: Seq<char>, last: bool) -> Seq<char>
    decreases t, 0nat,
{
    let head = indent + branch(last) + node_label(t) + seq!['\n'];
    let inner = indent + indent_step(last);
    match t.kind {
        TreeKind::Program(s) => head + children_text(s, s.len(), inner),
        TreeKind::Loop(s) => head + children_text(s, s.len(), inner),
        _ => head,
    }
}

/// The listings of the first `k` children; only the last child of all gets a corner.
pub open spec fn children_text(s: Seq<Tree>, k: nat, indent: Seq<char>) -> Seq<char>
    decreases s, k,
{
    if k == 0 || k > s.len() {
        Seq::empty()
    } else {
        children_text(s, (k - 1) as nat, indent) + tree_text(s[k - 1], indent, k == s.len())
    }
}

fn append_chars(out: &mut Vec<char>, s: Vec<char>)
    ensures
        final(out)@ == old(out)@ + s@,
{
    let mut s = s;
    out.append(&mut s);
}

fn decimal(n: u64) -> (r: Vec<char>)
    ensures
        r@ == digits(n as nat),
    decreases n,
{
    let d = n % 10;
    let c = if d == 0 { '0' } else if d == 1 { '1' } else if d == 2 { '2' } else if d == 3 { '3' } else if d == 4 { '4' }
    else if d == 5 { '5' } else if d == 6 { '6' } else if d == 7 { '7' } else if d == 8 { '8' } else { '9' };
    if n < 10 {
        vec![c]
    } else {
        let mut v = decimal(n / 10);
        v.push(c);
        v
    }
}

fn repeat(c: char, k: usize) -> (r: Vec<char>)
    ensures
        r@ == Seq::new(k as nat, |i: int| c),
{
    let mut v: Vec<char> = Vec::new();
    while v.len() < k
        invariant
            v.len() <= k,
            v@ == Seq::new(v.len() as nat, |i: int| c),
        decreases k - v.len(),
    {
        v.push(c);
        proof {
            assert(v@ =~= Seq::new(v.len() as nat, |i: int| c));
        }
    }
    v
}

fn padded_right(s: Vec<char>, w: usize) -> (r: Vec<char>)
    ensures
        r@ == pad_right(s@, w as nat),
{
    if s.len() < w {
        let fill = repeat(' ', w - s.len());
        let mut s = s;
        append_chars(&mut s, fill);
        s
    } else {
        s
    }
}

fn padded_left_zero(s: Vec<char>, w: usize) -> (r: Vec<char>)
    ensures
        r@ == pad_left_zero(s@, w as nat),
{
    if s.len() < w {
        let mut z = repeat('0', w - s.len());
        append_chars(&mut z, s);
        z
    } else {
        s
    }
}

fn column_text(t: Token, col: usize) -> (r: Vec<char>)
    ensures
        r@ == column(t, col as nat),
{
    if col == 0 {
        match t.token_type {
            TokenType::Next => vec!['N', 'e', 'x', 't'],
            TokenType::Previous => vec!['P', 'r', 'e', 'v', 'i', 'o', 'u', 's'],
            TokenType::Increment => vec!['I', 'n', 'c', 'r', 'e', 'm', 'e', 'n', 't'],
            TokenType::Decrement => vec!['D', 'e', 'c', 'r', 'e', 'm', 'e', 'n', 't'],
            TokenType::Output => vec!['O', 'u', 't', 'p', 'u', 't'],
            TokenType::Input => vec!['I', 'n', 'p', 'u', 't'],
            TokenType::BeginLoop => vec!['B', 'e', 'g', 'i', 'n', 'L', 'o', 'o', 'p'],
            TokenType::EndLoop => vec!['E', 'n', 'd', 'L', 'o', 'o', 'p'],
        }
    } else if col == 1 {
        decimal(t.line as u64)
    } else {
        decimal(t.char as u64)
    }
}

fn width_of(tokens: &[Token], col: usize) -> (w: usize)
    ensures
        w as nat == column_width(tokens@, col as nat),
{
    let mut w: usize = 0;
    let mut i: usize = 0;
    while i < tokens.len()
        invariant
            i <= tokens@.len(),
            w as nat == column_width(tokens@.take(i as int), col as nat),
        decreases tokens@.len() - i,
    {
        proof {
            assert(tokens@.take(i + 1).drop_last() =~= tokens@.take(i as int));
        }
        let l = column_text(tokens[i], col).len();
        if l > w {
            w = l;
        }
        i += 1;
    }
    proof {
        assert(tokens@.take(i as int) =~= tokens@);
    }
    w
}

/// Lists a token stream, one line per token with its kind, line and column
/// in aligned columns (the line numbers zero-filled).
pub fn render_tokens(tokens: &[Token]) -> (r: Vec<char>)
    ensures
        r@ == tokens_text(tokens@),
{
    let tw = width_of(tokens, 0);
    let lw = width_of(tokens, 1);
    let cw = width_of(tokens, 2);
    let mut out: Vec<char> = Vec::new();
    let mut i: usize = 0;
    while i < tokens.len()
        invariant
            i <= tokens@.len(),
            out@ == token_lines(tokens@, i as nat, tw as nat, lw as nat, cw as nat),
        decreases tokens@.len() - i,
    {
        let t = tokens[i];
        append_chars(&mut out, vec!['T', 'o', 'k', 'e', 'n', ':', ' ']);
        append_chars(&mut out, padded_right(column_text(t, 0), tw));
        append_chars(&mut out, vec![' ', '(']);
        append_chars(&mut out, padded_left_zero(column_text(t, 1), lw));
        append_chars(&mut out, vec!['|']);
        append_chars(&mut out, padded_right(column_text(t, 2), cw));
        append_chars(&mut out, vec![')', '\n']);
        i += 1;
        proof {
            assert(out@ =~= token_lines(tokens@, (i - 1) as nat, tw as nat, lw as nat, cw as nat) + token_line(t, tw as nat, lw as nat, cw as nat));
        }
    }
    out
}

fn counted_text(name: Vec<char>, n: usize) -> (r: Vec<char>)
    ensures
        r@ == counted(name@, n as nat),
{
    let mut out = name;
    out.push('(');
    append_chars(&mut out, decimal(n as u64));
    out.push(')');
    out
}

fn label_text(node: &InstructionNode) -> (r: Vec<char>)
    ensures
        r@ == node_label(node@),
{
    match &node.node_type {
        NodeType::Next(n) => counted_text(vec!['N', 'e', 'x', 't'], *n),
        NodeType::Previous(n) => counted_text(vec!['P', 'r', 'e', 'v', 'i', 'o', 'u', 's'], *n),
        NodeType::Increment(n) => counted_text(vec!['I', 'n', 'c', 'r', 'e', 'm', 'e', 'n', 't'], *n),
        NodeType::Decrement(n) => counted_text(vec!['D', 'e', 'c', 'r', 'e', 'm', 'e', 'n', 't'], *n),
        NodeType::SetCell(n) => counted_text(vec!['S', 'e', 't', 'C', 'e', 'l', 'l'], *n),
        NodeType::Output => vec!['O', 'u', 't', 'p', 'u', 't'],
        NodeType::Input => vec!['I', 'n', 'p', 'u', 't'],
        NodeType::Loop(_) => vec!['L', 'o', 'o', 'p', ':'],
        NodeType::Program(_) => vec!['P', 'r', 'o', 'g', 'r', 'a', 'm', ':'],
    }
}

/// Lists a tree, one node per line, with box-drawing branches: `indent`
/// goes before the node's branch, and `last` picks a corner instead of a tee.
pub fn render_tree(node: &InstructionNode, indent: &Vec<char>, last: bool) -> (r: Vec<char>)
    ensures
        r@ == tree_text(node@, indent@, last),
    decreases node, 1nat,
{
    let mut out: Vec<char> = Vec::new();
    append_chars(&mut out, indent.clone());
    if last {
        append_chars(&mut out, vec!['\u{2514}', '\u{2500}', '\u{2500}']);
    } else {
        append_chars(&mut out, vec!['\u{251c}', '\u{2500}', '\u{2500}']);
    }
    append_chars(&mut out, label_text(node));
    out.push('\n');
    let mut inner = indent.clone();
    if last {
        append_chars(&mut inner, vec![' ', ' ', ' ']);
    } else {
        append_chars(&mut inner, vec!['\u{2502}', ' ', ' ']);
    }
    match &node.node_type {
        NodeType::Program(nodes) => {
            append_chars(&mut out, render_children(nodes, &inner));
        },
        NodeType::Loop(nodes) => {
            append_chars(&mut out, render_children(nodes, &inner));
        },
        _ => {},
    }
    out
}

fn render_children(nodes: &Vec<InstructionNode>, indent: &Vec<char>) -> (r: Vec<char>)
    ensures
        r@ == children_text(trees_of(nodes@), nodes@.len(), indent@),
    decreases nodes, 0nat,
{
    let ghost s = trees_of(nodes@);
    let mut out: Vec<char> = Vec::new();
    let mut i: usize = 0;
    while i < nodes.len()
        invariant
            s == trees_of(nodes@),
            i <= nodes@.len(),
            out@ == children_text(s, i as nat, indent@),
        decreases nodes@.len() - i,
    {
        proof {
            assert(s[i as int] == tree_of(nodes@[i as int]));
        }
        let child = render_tree(&nodes[i], indent, i + 1 == nodes.len());
        append_chars(&mut out, child);
        i += 1;
    }
    out
}

} // verus!
