use vstd::prelude::*;
use crate::ast::{Tree, TreeKind};
use crate::lexer::{Token, TokenType};
use crate::parser::{ParsingError, parse_item, parse_seq, parse_spec, leaf_kind};

verus! {

broadcast use {vstd::seq::axiom_seq_index_decreases, vstd::seq::axiom_seq_subrange_decreases};

/// How a token changes the bracket depth.
pub open spec fn delta(t: Token) -> int {
    if t.token_type == TokenType::BeginLoop {
        1
    } else if t.token_type == TokenType::EndLoop {
        -1
    } else {
        0
    }
}

/// Opening minus closing brackets among tokens `i .. j`.
pub open spec fn depth(toks: Seq<Token>, i: int, j: int) -> int
    decreases j - i,
{
    if j <= i {
        0
    } else {
        depth(toks, i, j - 1) + delta(toks[j - 1])
    }
}

/// Opening brackets among tokens `i .. j`.
pub open spec fn opens(toks: Seq<Token>, i: int, j: int) -> nat
    decreases j - i,
{
    if j <= i {
        0
    } else {
        opens(toks, i, j - 1) + if toks[j - 1].token_type == TokenType::BeginLoop { 1nat } else { 0nat }
    }
}

/// Every prefix closes no more brackets than it opens, and the whole stream
/// closes all it opens.
pub open spec fn balanced(toks: Seq<Token>) -> bool {
    &&& forall|k: int| 0 <= k <= toks.len() ==> depth(toks, 0, k) >= 0
    &&& depth(toks, 0, toks.len() as int) == 0
}

/// The loop nodes in a tree, at any depth.
pub open spec fn loop_count(t: Tree) -> nat
    decreases t, 1nat,
{
    match t.kind {
        TreeKind::Program(s) => loop_count_seq(s),
        TreeKind::Loop(s) => 1 + loop_count_seq(s),
        _ => 0,
    }
}

pub open spec fn loop_count_seq(s: Seq<Tree>) -> nat
    decreases s, 0nat,
{
    if s.len() == 0 {
        0
    } else {
        loop_count(s[0]) + loop_count_seq(s.subrange(1, s.len() as int))
    }
}

proof fn lemma_depth_split(toks: Seq<Token>, i: int, j: int, k: int)
    requires
        i <= j <= k,
    ensures
        depth(toks, i, k) == depth(toks, i, j) + depth(toks, j, k),
        opens(toks, i, k) == opens(toks, i, j) + opens(toks, j, k),
    decreases k - j,
{
    if k > j {
        lemma_depth_split(toks, i, j, k - 1);
    }
}

proof fn lemma_prepend_count(t: Tree, rest: Seq<Tree>)
    ensures
        loop_count_seq(seq![t] + rest) == loop_count(t) + loop_count_seq(rest),
{
    assert((seq![t] + rest).subrange(1, (seq![t] + rest).len() as int) =~= rest);
}

/// From an opening bracket at `i`, scanning on from `k`, finds the bracket
/// that closes it before `e`, or finds that none does.
proof fn lemma_find_close(toks: Seq<Token>, i: int, k: int, e: int) -> (m: Option<int>)
    requires
        0 <= i < k <= e <= toks.len(),
        toks[i].token_type == TokenType::BeginLoop,
        forall|j: int| i + 1 <= j <= k ==> depth(toks, i, j) >= 1,
        forall|j: int| i <= j <= e ==> depth(toks, i, j) >= 0,
    ensures
        m matches Some(m) ==> {
            &&& k <= m < e
            &&& toks[m].token_type == TokenType::EndLoop
            &&& depth(toks, i, m + 1) == 0
            &&& forall|j: int| i + 1 <= j <= m ==> depth(toks, i, j) >= 1
        },
        m is None ==> forall|j: int| i + 1 <= j <= e ==> depth(toks, i, j) >= 1,
    decreases e - k,
{
    assert(depth(toks, i, k + 1) == depth(toks, i, k) + delta(toks[k]));
    if k == e {
        None
    } else if depth(toks, i, k + 1) == 0 {
        Some(k)
    } else {
        lemma_find_close(toks, i, k + 1, e)
    }
}

/// A sibling list whose brackets stay balanced up to `e` parses up to `e`,
/// with one loop per opening bracket.
proof fn lemma_parse_balanced(toks: Seq<Token>, i: int, e: int, open: Option<Token>)
    requires
        0 <= i <= e <= toks.len(),
        forall|k: int| i <= k <= e ==> depth(toks, i, k) >= 0,
        depth(toks, i, e) == 0,
        open is None ==> e == toks.len(),
        open is Some ==> e < toks.len() && toks[e].token_type == TokenType::EndLoop,
    ensures
        parse_seq(toks, i as nat, open) matches Ok((s, j)) && j == e && loop_count_seq(s) == opens(toks, i, e),
    decreases e - i,
{
    if i < e {
        assert(depth(toks, i, i) == 0);
        assert(depth(toks, i, i + 1) == delta(toks[i]));
        let tok = toks[i];
        if tok.token_type == TokenType::BeginLoop {
            let found = lemma_find_close(toks, i, i + 1, e);
            let m = found->Some_0;
            let start = i + 1;
            assert forall|k: int| start <= k <= m implies depth(toks, start, k) >= 0 by {
                lemma_depth_split(toks, i, i + 1, k);
            }
            lemma_depth_split(toks, i, i + 1, m);
            lemma_depth_split(toks, i, m, m + 1);
            lemma_parse_balanced(toks, i + 1, m, Some(tok));
            let start = m + 1;
            assert forall|k: int| start <= k <= e implies depth(toks, start, k) >= 0 by {
                lemma_depth_split(toks, i, m + 1, k);
            }
            lemma_depth_split(toks, i, m + 1, e);
            lemma_parse_balanced(toks, m + 1, e, open);
            let body = parse_seq(toks, (i + 1) as nat, Some(tok))->Ok_0.0;
            let t = Tree { kind: TreeKind::Loop(body), line: tok.line, char: tok.char };
            assert(parse_item(toks, i as nat) == Ok::<(Tree, nat), ParsingError>((t, (m + 1) as nat)));
            let rest = parse_seq(toks, (m + 1) as nat, open)->Ok_0.0;
            lemma_prepend_count(t, rest);
            lemma_depth_split(toks, i + 1, m, m + 1);
            lemma_depth_split(toks, i, i + 1, m);
            lemma_depth_split(toks, i, m, m + 1);
            lemma_depth_split(toks, i, m + 1, e);
            assert(opens(toks, i, i + 1) == 1) by {
                assert(opens(toks, i, i) == 0);
            }
            assert(opens(toks, m, m + 1) == 0) by {
                assert(opens(toks, m, m) == 0);
            }
            assert(parse_seq(toks, i as nat, open) == Ok::<(Seq<Tree>, nat), ParsingError>((seq![t] + rest, e as nat)));
        } else {
            let start = i + 1;
            assert forall|k: int| start <= k <= e implies depth(toks, start, k) >= 0 by {
                lemma_depth_split(toks, i, i + 1, k);
            }
            lemma_depth_split(toks, i, i + 1, e);
            lemma_parse_balanced(toks, i + 1, e, open);
            let t = Tree { kind: leaf_kind(tok.token_type), line: tok.line, char: tok.char };
            assert(parse_item(toks, i as nat) == Ok::<(Tree, nat), ParsingError>((t, (i + 1) as nat)));
            let rest = parse_seq(toks, (i + 1) as nat, open)->Ok_0.0;
            lemma_prepend_count(t, rest);
            lemma_depth_split(toks, i, i + 1, e);
            assert(opens(toks, i, i + 1) == 0) by {
                assert(opens(toks, i, i) == 0);
            }
            assert(loop_count(t) == 0);
            assert(parse_seq(toks, i as nat, open) == Ok::<(Seq<Tree>, nat), ParsingError>((seq![t] + rest, e as nat)));
        }
    } else {
        assert(opens(toks, i, e) == 0);
        assert(loop_count_seq(Seq::<Tree>::empty()) == 0);
    }
}

/// A balanced token stream parses, and its tree has one loop per bracket pair.
pub proof fn lemma_balanced_parses(toks: Seq<Token>)
    requires
        balanced(toks),
    ensures
        parse_spec(toks) is Ok,
        loop_count(parse_spec(toks)->Ok_0) == opens(toks, 0, toks.len() as int),
{
    lemma_parse_balanced(toks, 0, toks.len() as int, None);
}

proof fn lemma_parse_excess_close(toks: Seq<Token>, i: int, x: int)
    requires
        0 <= i <= x < toks.len(),
        toks[x].token_type == TokenType::EndLoop,
        forall|k: int| i <= k <= x ==> depth(toks, i, k) >= 0,
        depth(toks, i, x) == 0,
    ensures
        parse_seq(toks, i as nat, None) == Err::<(Seq<Tree>, nat), ParsingError>(
            ParsingError::UnmatchedEndLoop { line: toks[x].line, char: toks[x].char },
        ),
    decreases x - i,
{
    if i < x {
        assert(depth(toks, i, i) == 0);
        assert(depth(toks, i, i + 1) == delta(toks[i]));
        let tok = toks[i];
        if tok.token_type == TokenType::BeginLoop {
            let found = lemma_find_close(toks, i, i + 1, x);
            let m = found->Some_0;
            let start = i + 1;
            assert forall|k: int| start <= k <= m implies depth(toks, start, k) >= 0 by {
                lemma_depth_split(toks, i, i + 1, k);
            }
            lemma_depth_split(toks, i, i + 1, m);
            lemma_depth_split(toks, i, m, m + 1);
            lemma_parse_balanced(toks, i + 1, m, Some(tok));
            let start = m + 1;
            assert forall|k: int| start <= k <= x implies depth(toks, start, k) >= 0 by {
                lemma_depth_split(toks, i, m + 1, k);
            }
            lemma_depth_split(toks, i, m + 1, x);
            lemma_parse_excess_close(toks, m + 1, x);
            let body = parse_seq(toks, (i + 1) as nat, Some(tok))->Ok_0.0;
            let t = Tree { kind: TreeKind::Loop(body), line: tok.line, char: tok.char };
            assert(parse_item(toks, i as nat) == Ok::<(Tree, nat), ParsingError>((t, (m + 1) as nat)));
        } else {
            let start = i + 1;
            assert forall|k: int| start <= k <= x implies depth(toks, start, k) >= 0 by {
                lemma_depth_split(toks, i, i + 1, k);
            }
            lemma_depth_split(toks, i, i + 1, x);
            lemma_parse_excess_close(toks, i + 1, x);
        }
    }
}

/// A `]` at `x` that closes more brackets than were opened before it, the
/// first such, makes parsing fail with its position.
pub proof fn lemma_excess_close_fails(toks: Seq<Token>, x: int)
    requires
        0 <= x < toks.len(),
        toks[x].token_type == TokenType::EndLoop,
        depth(toks, 0, x + 1) < 0,
        forall|k: int| 0 <= k <= x ==> depth(toks, 0, k) >= 0,
    ensures
        parse_spec(toks) == Err::<Tree, ParsingError>(ParsingError::UnmatchedEndLoop { line: toks[x].line, char: toks[x].char }),
{
    lemma_parse_excess_close(toks, 0, x);
}

/// The tokens from `v` on never close more than they open and end balanced.
pub open spec fn balanced_from(toks: Seq<Token>, v: int) -> bool {
    &&& forall|k: int| v <= k <= toks.len() ==> depth(toks, v, k) >= 0
    &&& depth(toks, v, toks.len() as int) == 0
}

proof fn lemma_parse_open_end(toks: Seq<Token>, i: int, u: Option<int>, open: Option<Token>)
    requires
        0 <= i <= toks.len(),
        forall|k: int| i <= k <= toks.len() ==> depth(toks, i, k) >= 0,
        u is None ==> depth(toks, i, toks.len() as int) == 0 && open is Some,
        u matches Some(u) ==> i <= u < toks.len() && toks[u].token_type == TokenType::BeginLoop && balanced_from(toks, u + 1),
    ensures
        parse_seq(toks, i as nat, open) == Err::<(Seq<Tree>, nat), ParsingError>(match u {
            Some(u) => ParsingError::UnmatchedBeginLoop { line: toks[u].line, char: toks[u].char },
            None => ParsingError::UnmatchedBeginLoop { line: open->Some_0.line, char: open->Some_0.char },
        }),
    decreases toks.len() - i,
{
    let n = toks.len() as int;
    if i < n {
        assert(depth(toks, i, i) == 0);
        assert(depth(toks, i, i + 1) == delta(toks[i]));
        let tok = toks[i];
        if tok.token_type == TokenType::BeginLoop {
            if u == Some(i) {
                let start = i + 1;
                assert forall|k: int| start <= k <= n implies depth(toks, start, k) >= 0 by {}
                lemma_parse_open_end(toks, i + 1, None, Some(tok));
            } else {
                match lemma_find_close(toks, i, i + 1, n) {
                    Some(m) => {
                        let start = i + 1;
                        assert forall|k: int| start <= k <= m implies depth(toks, start, k) >= 0 by {
                            lemma_depth_split(toks, i, i + 1, k);
                        }
                        lemma_depth_split(toks, i, i + 1, m);
                        lemma_depth_split(toks, i, m, m + 1);
                        lemma_parse_balanced(toks, i + 1, m, Some(tok));
                        let start = m + 1;
                        assert forall|k: int| start <= k <= n implies depth(toks, start, k) >= 0 by {
                            lemma_depth_split(toks, i, m + 1, k);
                        }
                        lemma_depth_split(toks, i, m + 1, n);
                        if let Some(u0) = u {
                            if u0 <= m {
                                lemma_depth_split(toks, i, u0, u0 + 1);
                                lemma_depth_split(toks, i, u0 + 1, m + 1);
                                assert(depth(toks, i, u0) >= 1);
                            }
                        }
                        lemma_parse_open_end(toks, m + 1, u, open);
                        let body = parse_seq(toks, (i + 1) as nat, Some(tok))->Ok_0.0;
                        let t = Tree { kind: TreeKind::Loop(body), line: tok.line, char: tok.char };
                        assert(parse_item(toks, i as nat) == Ok::<(Tree, nat), ParsingError>((t, (m + 1) as nat)));
                    },
                    None => {
                        let start = i + 1;
                        assert forall|k: int| start <= k <= n implies depth(toks, start, k) >= 0 by {
                            lemma_depth_split(toks, i, i + 1, k);
                        }
                        lemma_depth_split(toks, i, i + 1, n);
                        lemma_parse_open_end(toks, i + 1, u, Some(tok));
                    },
                }
            }
        } else {
            let start = i + 1;
            assert forall|k: int| start <= k <= n implies depth(toks, start, k) >= 0 by {
                lemma_depth_split(toks, i, i + 1, k);
            }
            lemma_depth_split(toks, i, i + 1, n);
            lemma_parse_open_end(toks, i + 1, u, open);
        }
    }
}

/// With no excess `]`, an opening bracket at `u` after which the stream is
/// balanced is the last one left open: parsing fails with its position.
pub proof fn lemma_unclosed_open_fails(toks: Seq<Token>, u: int)
    requires
        forall|k: int| 0 <= k <= toks.len() ==> depth(toks, 0, k) >= 0,
        0 <= u < toks.len(),
        toks[u].token_type == TokenType::BeginLoop,
        balanced_from(toks, u + 1),
    ensures
        parse_spec(toks) == Err::<Tree, ParsingError>(ParsingError::UnmatchedBeginLoop { line: toks[u].line, char: toks[u].char }),
{
    lemma_parse_open_end(toks, 0, Some(u), None);
}

} // verus!
