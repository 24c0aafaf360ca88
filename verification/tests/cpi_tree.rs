//! Rebuilding the CPI call tree from a flat trace, and rendering it.

use quasar_report::cpi_tree::{
    AccountMeta, ExecutedInstruction, ExecutionResult, ExecutionTrace, Instruction,
};

const TOKEN_PROGRAM: [u8; 32] = [
    6, 221, 246, 225, 215, 101, 161, 147, 217, 203, 225, 70, 206, 235, 121, 172, 28, 180, 133,
    237, 95, 91, 55, 145, 58, 140, 245, 133, 126, 255, 0, 169,
];

fn meta(byte: u8, is_signer: bool, is_writable: bool) -> AccountMeta {
    AccountMeta { pubkey: [byte; 32], is_signer, is_writable }
}

fn frame(depth: u8, program: [u8; 32], accounts: usize, data: Vec<u8>, cu: u64, result: u64) -> ExecutedInstruction {
    ExecutedInstruction {
        stack_depth: depth,
        instruction: Instruction {
            program_id: program,
            accounts: (0..accounts).map(|i| meta(i as u8, i == 0, i % 2 == 1)).collect(),
            data,
        },
        compute_units_consumed: cu,
        result,
    }
}

fn run(frames: Vec<ExecutedInstruction>) -> ExecutionResult {
    ExecutionResult { execution_trace: ExecutionTrace { instructions: frames } }
}

fn depths(frames: &[u8]) -> ExecutionResult {
    run(frames.iter().enumerate().map(|(i, d)| frame(*d, [i as u8; 32], i, vec![i as u8], i as u64, 0)).collect())
}

#[test]
fn nests_frames_by_stack_depth() {
    let result = depths(&[0, 1, 1, 2, 1, 0, 1]);
    let tree = result.cpi_tree();
    assert_eq!(tree.len(), 2);
    assert_eq!(tree[0].program_id, [0; 32]);
    assert_eq!(tree[0].children.len(), 3);
    assert_eq!(tree[0].children[0].program_id, [1; 32]);
    assert!(tree[0].children[0].children.is_empty());
    assert_eq!(tree[0].children[1].program_id, [2; 32]);
    assert_eq!(tree[0].children[1].children.len(), 1);
    assert_eq!(tree[0].children[1].children[0].program_id, [3; 32]);
    assert_eq!(tree[0].children[2].program_id, [4; 32]);
    assert_eq!(tree[1].program_id, [5; 32]);
    assert_eq!(tree[1].children.len(), 1);
    assert_eq!(tree[1].children[0].program_id, [6; 32]);
}

#[test]
fn frames_keep_their_instruction() {
    let result = run(vec![
        frame(0, TOKEN_PROGRAM, 3, vec![3, 100, 0, 0, 0, 0, 0, 0, 0], 4645, 0),
        frame(1, [0; 32], 2, vec![], 150, 2),
    ]);
    let tree = result.cpi_tree();
    assert_eq!(tree.len(), 1);
    let root = &tree[0];
    assert_eq!(root.program_id, TOKEN_PROGRAM);
    assert_eq!(root.accounts, vec![meta(0, true, false), meta(1, false, true), meta(2, false, false)]);
    assert_eq!(root.data, vec![3, 100, 0, 0, 0, 0, 0, 0, 0]);
    assert_eq!(root.compute_units_consumed, 4645);
    assert_eq!(root.result, 0);
    let inner = &root.children[0];
    assert_eq!(inner.accounts.len(), 2);
    assert_eq!(inner.result, 2);
    assert!(inner.children.is_empty());
}

#[test]
fn stops_at_a_skipped_level() {
    let tree = depths(&[0, 2, 0]).cpi_tree();
    assert_eq!(tree.len(), 1);
    assert!(tree[0].children.is_empty());
}

#[test]
fn no_tree_without_a_top_level_frame() {
    assert!(depths(&[1, 0]).cpi_tree().is_empty());
    assert!(depths(&[]).cpi_tree().is_empty());
    assert_eq!(depths(&[]).pretty_cpi_tree(), "");
}

#[test]
fn pretty_tree_has_one_indented_line_per_frame() {
    let result = run(vec![
        frame(0, TOKEN_PROGRAM, 3, vec![3, 100, 0, 0, 0, 0, 0, 0, 0], 21745, 0),
        frame(1, [0; 32], 2, vec![0; 52], 0, 0),
        frame(2, TOKEN_PROGRAM, 1, vec![], 1405, 1),
        frame(1, TOKEN_PROGRAM, 4, vec![18], 4214, 0),
    ]);
    let expected = "\u{2713} TokenkegQfeZyiNwAJbNbGKPFXCWuBvf9Ss623VQ5DA [21745cu, 3 accounts, 9 data bytes]\n\
                    \x20 \u{2713} 11111111111111111111111111111111 [0cu, 2 accounts, 52 data bytes]\n\
                    \x20   \u{2717} TokenkegQfeZyiNwAJbNbGKPFXCWuBvf9Ss623VQ5DA [1405cu, 1 accounts, 0 data bytes]\n\
                    \x20 \u{2713} TokenkegQfeZyiNwAJbNbGKPFXCWuBvf9Ss623VQ5DA [4214cu, 4 accounts, 1 data bytes]\n";
    assert_eq!(result.pretty_cpi_tree(), expected);
}

#[test]
fn pretty_tree_prints_large_counts_in_full() {
    let result = run(vec![frame(0, [255; 32], 0, vec![], u64::MAX, u64::MAX)]);
    let text = result.pretty_cpi_tree();
    assert!(text.starts_with("\u{2717} "));
    assert!(text.ends_with(" [18446744073709551615cu, 0 accounts, 0 data bytes]\n"));
    assert_eq!(text.lines().count(), 1);
}

#[test]
fn deep_chain_nests_all_the_way() {
    let chain: Vec<u8> = (0..=254).collect();
    let tree = depths(&chain).cpi_tree();
    let mut node = &tree[0];
    let mut levels = 1;
    while let Some(child) = node.children.first() {
        node = child;
        levels += 1;
    }
    assert_eq!(levels, 255);
}
