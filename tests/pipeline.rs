use bfc::ast::{InstructionNode, NodeType};
use bfc::codegen::{lower, CodeOp};
use bfc::interpreter::{interpret, NoPause, VecSource, VecWriter};
use bfc::lexer::{lex, Token, TokenType};
use bfc::machine::InterpretationError;
use bfc::optimizer::{
    apply_default_optimizations, collapse_decrements, collapse_increments, collapse_next, collapse_previous,
    collapse_set_zero, remove_comment_loop, Optimizer, OptimizerPass,
};
use bfc::parser::{parse, ParsingContext, ParsingError};
use bfc::runtime::{
    prologue_code, routine_code, FatalMessage, Routine, RtInstr, ALLOC_FAILED_TEXT, INDEX_OVERFLOW_TEXT,
    INDEX_UNDERFLOW_TEXT, RESIZE_FAILED_TEXT,
};

fn tree(src: &str) -> InstructionNode {
    parse(&lex(src)).unwrap()
}

fn optimized(src: &str) -> InstructionNode {
    let mut node = tree(src);
    apply_default_optimizations(&mut node);
    node
}

fn children(node: &InstructionNode) -> &Vec<InstructionNode> {
    match &node.node_type {
        NodeType::Program(v) => v,
        NodeType::Loop(v) => v,
        _ => panic!("node has no children"),
    }
}

fn run(node: &InstructionNode, input: &[u8], fuel: u64) -> (Result<(), InterpretationError>, Vec<u8>) {
    let mut out = VecWriter::new();
    let mut src = VecSource::new(input.to_vec());
    let r = interpret(node, &mut out, &mut src, &mut NoPause, fuel);
    (r, out.bytes().clone())
}

fn leaf(node_type: NodeType, line: u32, char: u32) -> InstructionNode {
    InstructionNode { node_type, line, char }
}

fn count_loops(node: &InstructionNode) -> usize {
    match &node.node_type {
        NodeType::Program(v) => v.iter().map(count_loops).sum(),
        NodeType::Loop(v) => 1 + v.iter().map(count_loops).sum::<usize>(),
        _ => 0,
    }
}

#[test]
fn lex_records_lines_and_columns() {
    let tokens = lex("+a\n >]");
    assert_eq!(tokens.len(), 3);
    assert_eq!(tokens[0], Token { token_type: TokenType::Increment, line: 1, char: 1 });
    assert_eq!(tokens[1], Token { token_type: TokenType::Next, line: 2, char: 2 });
    assert_eq!(tokens[2], Token { token_type: TokenType::EndLoop, line: 2, char: 3 });
}

#[test]
fn lex_skips_everything_else() {
    assert!(lex("hello world").is_empty());
    assert_eq!(lex("<>+-.,[]").len(), 8);
}

#[test]
fn parse_builds_nested_loops() {
    let node = tree("+[>[-]]");
    assert_eq!(node.line, 0);
    assert_eq!(node.char, 0);
    let top = children(&node);
    assert_eq!(top.len(), 2);
    assert_eq!(top[0].node_type, NodeType::Increment(1));
    assert_eq!((top[1].line, top[1].char), (1, 2));
    let outer = children(&top[1]);
    assert_eq!(outer.len(), 2);
    assert_eq!(outer[0].node_type, NodeType::Next(1));
    assert_eq!(children(&outer[1])[0].node_type, NodeType::Decrement(1));
}

#[test]
fn parse_balanced_counts_loops() {
    let node = tree("[[]][]+[-[.]]");
    assert_eq!(count_loops(&node), 5);
}

#[test]
fn parse_excess_close_reports_its_position() {
    let r = parse(&lex("[]]["));
    assert_eq!(r, Err(ParsingError::UnmatchedEndLoop { line: 1, char: 3 }));
    let r = parse(&lex("+\n-]"));
    assert_eq!(r, Err(ParsingError::UnmatchedEndLoop { line: 2, char: 2 }));
}

#[test]
fn parse_unclosed_open_reports_its_position() {
    let r = parse(&lex("+[[]"));
    assert_eq!(r, Err(ParsingError::UnmatchedBeginLoop { line: 1, char: 2 }));
    let r = parse(&lex("[["));
    assert_eq!(r, Err(ParsingError::UnmatchedBeginLoop { line: 1, char: 2 }));
}

#[test]
fn parsing_context_parses_all() {
    let tokens = lex("+-");
    let node = ParsingContext::new(&tokens).parse_all().unwrap();
    assert_eq!(children(&node).len(), 2);
}

#[test]
fn increments_collapse_to_one_node() {
    let node = optimized("+++");
    let top = children(&node);
    assert_eq!(top.len(), 1);
    assert_eq!(top[0].node_type, NodeType::Increment(3));
    assert_eq!((top[0].line, top[0].char), (1, 1));
}

#[test]
fn decrements_collapse_to_one_node() {
    let node = optimized("--");
    assert_eq!(children(&node).len(), 1);
    assert_eq!(children(&node)[0].node_type, NodeType::Decrement(2));
}

#[test]
fn moves_collapse_inside_loops() {
    let node = optimized("+[>>><<]");
    let body = children(&children(&node)[1]);
    assert_eq!(body.len(), 2);
    assert_eq!(body[0].node_type, NodeType::Next(3));
    assert_eq!(body[1].node_type, NodeType::Previous(2));
}

#[test]
fn runs_split_where_the_sum_overflows() {
    let mut node = leaf(
        NodeType::Program(vec![leaf(NodeType::Increment(usize::MAX), 1, 1), leaf(NodeType::Increment(1), 1, 2)]),
        0,
        0,
    );
    collapse_increments(&mut node);
    assert_eq!(children(&node).len(), 2);
}

#[test]
fn single_passes_touch_their_own_kind() {
    let mut node = tree("++-->><<");
    collapse_next(&mut node);
    assert_eq!(children(&node).len(), 7);
    collapse_previous(&mut node);
    assert_eq!(children(&node).len(), 6);
    collapse_decrements(&mut node);
    assert_eq!(children(&node).len(), 5);
    collapse_increments(&mut node);
    assert_eq!(children(&node).len(), 4);
}

#[test]
fn zeroing_loop_becomes_set_cell() {
    let mut node = tree("[-]");
    collapse_set_zero(&mut node);
    assert_eq!(children(&node).len(), 1);
    assert_eq!(children(&node)[0].node_type, NodeType::SetCell(0));
    let node = optimized("+[-]");
    assert_eq!(children(&node)[1].node_type, NodeType::SetCell(0));
}

#[test]
fn double_decrement_loop_is_kept() {
    let node = optimized("+[--]");
    let top = children(&node);
    assert_eq!(top.len(), 2);
    let body = children(&top[1]);
    assert_eq!(body.len(), 1);
    assert_eq!(body[0].node_type, NodeType::Decrement(2));
}

#[test]
fn nested_zeroing_loops_are_rewritten() {
    let node = optimized("+[[-]]");
    let outer = children(&children(&node)[1]);
    assert_eq!(outer[0].node_type, NodeType::SetCell(0));
}

#[test]
fn leading_comment_loop_is_removed() {
    let node = optimized("[this is ignored]+");
    let top = children(&node);
    assert_eq!(top.len(), 1);
    assert_eq!(top[0].node_type, NodeType::Increment(1));
}

#[test]
fn remove_comment_loop_keeps_later_loops() {
    let mut node = tree("[][-]+[-]");
    remove_comment_loop(&mut node);
    let top = children(&node);
    assert_eq!(top.len(), 2);
    assert_eq!(top[0].node_type, NodeType::Increment(1));
}

#[test]
fn optimizing_twice_changes_nothing() {
    for src in ["[x]+++[-]>>[<<+>>-]--<.", "+[[-]>+<-]", "", "[[[-]]]", ">+<<"] {
        let once = optimized(src);
        let mut twice = optimized(src);
        apply_default_optimizations(&mut twice);
        assert_eq!(once, twice);
    }
}

#[test]
fn optimizer_runs_passes_in_order() {
    let mut node = tree("+++[-]");
    Optimizer::new().with_pass(OptimizerPass::CollapseSetZero).with_pass(OptimizerPass::CollapseIncrements).apply(&mut node);
    let top = children(&node);
    assert_eq!(top.len(), 2);
    assert_eq!(top[0].node_type, NodeType::Increment(3));
    assert_eq!(top[1].node_type, NodeType::SetCell(0));
}

#[test]
fn end_to_end_addition() {
    let (r, out) = run(&tree("++>+++++[<+>-]<."), &[], 1000);
    assert_eq!(r, Ok(()));
    assert_eq!(out, vec![7]);
}

#[test]
fn optimized_program_writes_the_same_bytes() {
    let programs = ["++>+++++[<+>-]<.", "+++[-]>,[.-]<.", ",[.,]", "-.+.>+++[->++<]>.", "+<"];
    for src in programs {
        let plain = run(&tree(src), b"abc", 10_000);
        let opt = run(&optimized(src), b"abc", 10_000);
        assert_eq!(plain, opt);
    }
}

#[test]
fn pointer_underflow_stops_the_run() {
    let (r, out) = run(&tree("<"), &[], 10);
    assert_eq!(r, Err(InterpretationError::PointerUnderflow));
    assert!(out.is_empty());
    let (r, out) = run(&tree(".>.<<."), &[], 10);
    assert_eq!(r, Err(InterpretationError::PointerUnderflow));
    assert_eq!(out, vec![0, 0]);
}

#[test]
fn pointer_overflow_stops_the_run() {
    let node = leaf(NodeType::Program(vec![leaf(NodeType::Next(usize::MAX), 1, 1)]), 0, 0);
    let (r, _) = run(&node, &[], 10);
    assert_eq!(r, Err(InterpretationError::PointerOverflow));
}

#[test]
fn end_of_input_leaves_the_cell() {
    let (r, out) = run(&tree(",."), &[], 10);
    assert_eq!(r, Ok(()));
    assert_eq!(out, vec![0]);
    let (_, out) = run(&tree("+++,."), &[], 10);
    assert_eq!(out, vec![3]);
    let (_, out) = run(&tree(",.,."), b"A", 10);
    assert_eq!(out, vec![65, 65]);
}

#[test]
fn cells_wrap_modulo_256() {
    let (_, out) = run(&tree("-."), &[], 10);
    assert_eq!(out, vec![255]);
    let node = leaf(
        NodeType::Program(vec![
            leaf(NodeType::Increment(257), 1, 1),
            leaf(NodeType::Output, 1, 2),
            leaf(NodeType::Decrement(258), 1, 3),
            leaf(NodeType::Output, 1, 4),
            leaf(NodeType::SetCell(300), 1, 5),
            leaf(NodeType::Output, 1, 6),
        ]),
        0,
        0,
    );
    let (_, out) = run(&node, &[], 10);
    assert_eq!(out, vec![1, 255, 44]);
}

#[test]
fn loop_budget_bounds_the_run() {
    let (r, _) = run(&tree("+[]"), &[], 50);
    assert_eq!(r, Err(InterpretationError::StepLimitReached));
    let (r, out) = run(&tree("+++[.-]"), &[], 3);
    assert_eq!(r, Ok(()));
    assert_eq!(out, vec![3, 2, 1]);
    let (r, _) = run(&tree("+++[.-]"), &[], 2);
    assert_eq!(r, Err(InterpretationError::StepLimitReached));
}

#[test]
fn lowering_places_loops_as_header_body_back_jump() {
    let code = lower(&tree("+[-]."));
    assert_eq!(
        code,
        vec![
            CodeOp::Increment(1),
            CodeOp::LoopStart { end: 3 },
            CodeOp::Decrement(1),
            CodeOp::LoopEnd { start: 1 },
            CodeOp::Output,
        ]
    );
}

#[test]
fn lowering_reduces_amounts_modulo_256() {
    let node = leaf(
        NodeType::Program(vec![
            leaf(NodeType::Increment(300), 1, 1),
            leaf(NodeType::Decrement(256), 1, 2),
            leaf(NodeType::SetCell(255), 1, 3),
            leaf(NodeType::Next(1000), 1, 4),
            leaf(NodeType::Previous(7), 1, 5),
            leaf(NodeType::Input, 1, 6),
        ]),
        0,
        0,
    );
    assert_eq!(
        lower(&node),
        vec![
            CodeOp::Increment(44),
            CodeOp::Decrement(0),
            CodeOp::SetCell(255),
            CodeOp::Next(1000),
            CodeOp::Previous(7),
            CodeOp::Input,
        ]
    );
}

#[test]
fn lowering_nests_loops() {
    let code = lower(&tree("[[]]"));
    assert_eq!(
        code,
        vec![
            CodeOp::LoopStart { end: 3 },
            CodeOp::LoopStart { end: 2 },
            CodeOp::LoopEnd { start: 1 },
            CodeOp::LoopEnd { start: 0 },
        ]
    );
}

#[test]
fn token_listing_aligns_columns() {
    let tokens = lex("+\n\n\n\n\n\n\n\n\n>        <");
    let text: String = bfc::render::render_tokens(&tokens).into_iter().collect();
    assert_eq!(
        text,
        "Token: Increment (01|1 )\nToken: Next      (10|1 )\nToken: Previous  (10|10)\n"
    );
}

#[test]
fn token_listing_of_nothing_is_empty() {
    assert!(bfc::render::render_tokens(&[]).is_empty());
}

#[test]
fn tree_listing_draws_branches() {
    let text: String = bfc::render::render_tree(&tree("+[-]"), &Vec::new(), true).into_iter().collect();
    assert_eq!(text, "└──Program:\n   ├──Increment(1)\n   └──Loop:\n      └──Decrement(1)\n");
    let text: String = bfc::render::render_tree(&optimized("+[-]>>"), &vec!['x'], false).into_iter().collect();
    assert_eq!(text, "x├──Program:\nx│  ├──Increment(1)\nx│  ├──SetCell(0)\nx│  └──Next(2)\n");
}

#[test]
fn resize_routine_grows_then_returns() {
    let code = routine_code(Routine::Resize);
    assert_eq!(code[2], RtInstr::JumpIfLess(1, 0, 18));
    assert_eq!(code[4], RtInstr::Const(2, 100));
    assert!(code.contains(&RtInstr::Fatal(FatalMessage::ResizeFailed)));
    assert_eq!(code.last(), Some(&RtInstr::Return));
}

#[test]
fn cell_routines_resize_first() {
    for r in [Routine::Increment, Routine::Decrement, Routine::SetCell, Routine::Output, Routine::Input] {
        assert_eq!(routine_code(r)[0], RtInstr::CallResize);
    }
    for r in [Routine::Resize, Routine::Next, Routine::Previous] {
        assert!(!routine_code(r).contains(&RtInstr::CallResize));
    }
}

#[test]
fn pointer_routines_check_before_moving() {
    let prev = routine_code(Routine::Previous);
    assert_eq!(prev[2], RtInstr::JumpIfLess(1, 0, 7));
    assert_eq!(prev[9], RtInstr::Fatal(FatalMessage::IndexUnderflow));
    let next = routine_code(Routine::Next);
    assert_eq!(next[2], RtInstr::Const(2, usize::MAX as u64));
    assert_eq!(next[7], RtInstr::Fatal(FatalMessage::IndexOverflow));
}

#[test]
fn prologue_allocates_initial_cells() {
    let code = prologue_code();
    assert_eq!(code[0], RtInstr::Const(0, 30000));
    assert_eq!(code[4], RtInstr::Malloc(0));
    assert_eq!(code[11], RtInstr::Fatal(FatalMessage::AllocFailed));
    assert_eq!(code.last(), Some(&RtInstr::Block));
}

#[test]
fn runtime_messages_name_the_failure() {
    assert_eq!(ALLOC_FAILED_TEXT, "\nError: Failed to allocate cell array\n");
    assert_eq!(RESIZE_FAILED_TEXT, "\nError: Failed to resize cell array\n");
    assert!(INDEX_UNDERFLOW_TEXT.contains("underflow"));
    assert!(INDEX_OVERFLOW_TEXT.contains("overflow"));
}
