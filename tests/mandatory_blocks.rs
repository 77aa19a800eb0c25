use sierra_gas::cfg::{FlatBlock, FlatBlockEnd, LoweredStatement};
use sierra_gas::mandatory_blocks::{block_weights, find_mandatory_blocks, CfgError};
use sierra_gas::withdraw_gas_status::{find_withdraw_status, WithdrawGasStatus};

const WITHDRAW_GAS_ALL: u64 = 7;
const WITHDRAW_GAS: u64 = 8;

fn block(statements: Vec<LoweredStatement>, end: FlatBlockEnd) -> FlatBlock {
    FlatBlock { statements, end }
}

fn plain(end: FlatBlockEnd) -> FlatBlock {
    block(vec![LoweredStatement::Other], end)
}

#[test]
fn sequence_of_gotos_is_all_mandatory() {
    let blocks = vec![
        plain(FlatBlockEnd::Goto(1)),
        plain(FlatBlockEnd::Goto(2)),
        plain(FlatBlockEnd::Return),
    ];
    assert_eq!(find_mandatory_blocks(&blocks), Ok(vec![0, 1, 2]));
}

#[test]
fn empty_graph_has_no_mandatory_blocks() {
    let blocks: Vec<FlatBlock> = Vec::new();
    assert_eq!(find_mandatory_blocks(&blocks), Ok(vec![]));
}

#[test]
fn entry_block_gets_the_whole_seed() {
    let blocks = vec![
        plain(FlatBlockEnd::Match(vec![1, 2])),
        plain(FlatBlockEnd::Return),
        plain(FlatBlockEnd::Panic),
    ];
    let bw = block_weights(&blocks).ok().unwrap();
    assert_eq!(bw.scale, 2);
    assert_eq!(bw.weights[0], bw.scale);
    assert!(bw.expanded[0]);
    assert_eq!(find_mandatory_blocks(&blocks), Ok(vec![0]));
}

#[test]
fn weights_are_the_sum_of_what_predecessors_hand_on() {
    // 0 branches three ways; arm blocks 1 and 2 jump on to 3.
    let blocks = vec![
        plain(FlatBlockEnd::Match(vec![1, 2, 4])),
        plain(FlatBlockEnd::Goto(3)),
        plain(FlatBlockEnd::Goto(3)),
        plain(FlatBlockEnd::Return),
        plain(FlatBlockEnd::Return),
    ];
    let bw = block_weights(&blocks).ok().unwrap();
    assert_eq!(bw.scale, 3);
    assert_eq!(bw.weights, vec![3, 1, 1, 0, 1]);
    assert_eq!(bw.parents_left, vec![0, 0, 0, 2, 0]);
    assert_eq!(bw.expanded, vec![true, false, false, false, false]);
}

#[test]
fn single_arm_block_is_never_mandatory() {
    let blocks = vec![
        plain(FlatBlockEnd::Match(vec![1, 2])),
        plain(FlatBlockEnd::Goto(3)),
        plain(FlatBlockEnd::Return),
        plain(FlatBlockEnd::Return),
    ];
    let ids = find_mandatory_blocks(&blocks).ok().unwrap();
    assert!(!ids.contains(&1));
    assert!(!ids.contains(&2));
    assert_eq!(ids, vec![0]);
}

#[test]
fn thirds_add_up_exactly() {
    // All three arms lead to block 1: its weight is exactly the whole seed.
    let blocks = vec![
        plain(FlatBlockEnd::Match(vec![1, 1, 1])),
        plain(FlatBlockEnd::Goto(2)),
        plain(FlatBlockEnd::Return),
    ];
    let bw = block_weights(&blocks).ok().unwrap();
    assert_eq!(bw.scale, 3);
    assert_eq!(bw.weights, vec![3, 3, 3]);
    assert_eq!(find_mandatory_blocks(&blocks), Ok(vec![0, 1, 2]));
}

#[test]
fn scale_is_the_least_common_multiple_of_arm_counts() {
    let blocks = vec![
        plain(FlatBlockEnd::Match(vec![1, 2])),
        plain(FlatBlockEnd::Match(vec![3, 3, 3])),
        plain(FlatBlockEnd::Match(vec![3, 3, 3, 3])),
        plain(FlatBlockEnd::Return),
    ];
    let bw = block_weights(&blocks).ok().unwrap();
    // The least common multiple of 2, 3 and 4.
    assert_eq!(bw.scale, 12);
    assert_eq!(bw.weights[1], 6);
    assert_eq!(bw.weights[2], 6);
}

#[test]
fn unreachable_not_set_block_is_an_error() {
    let blocks = vec![
        plain(FlatBlockEnd::Return),
        plain(FlatBlockEnd::Goto(0)),
        plain(FlatBlockEnd::NotSet),
    ];
    assert_eq!(find_mandatory_blocks(&blocks), Err(CfgError::NotSet(2)));
    assert_eq!(
        find_withdraw_status(&blocks, WITHDRAW_GAS_ALL, WITHDRAW_GAS),
        Err(CfgError::NotSet(2))
    );
}

#[test]
fn scale_overflow_is_reported() {
    // Arm counts 2, 3, 5, ... 53 and 59, 61: their product passes 2^64.
    let primes: Vec<usize> = vec![2, 3, 5, 7, 11, 13, 17, 19, 23, 29, 31, 37, 41, 43, 47, 53, 59, 61];
    let mut blocks = Vec::new();
    for p in &primes {
        blocks.push(plain(FlatBlockEnd::Match(vec![0; *p])));
    }
    assert_eq!(block_weights(&blocks).err(), Some(CfgError::ScaleOverflow));
}

#[test]
fn guarded_withdrawals_do_not_count() {
    // The entry withdraws partially, then one arm withdraws all.
    let blocks = vec![
        block(
            vec![LoweredStatement::Call(WITHDRAW_GAS)],
            FlatBlockEnd::Match(vec![1, 2]),
        ),
        block(vec![LoweredStatement::Call(WITHDRAW_GAS_ALL)], FlatBlockEnd::Return),
        plain(FlatBlockEnd::Return),
    ];
    assert_eq!(
        find_withdraw_status(&blocks, WITHDRAW_GAS_ALL, WITHDRAW_GAS),
        Ok(WithdrawGasStatus::WithdrawGas)
    );
}

#[test]
fn mandatory_withdraw_all_wins() {
    let blocks = vec![
        block(vec![LoweredStatement::Call(WITHDRAW_GAS)], FlatBlockEnd::Goto(1)),
        block(
            vec![LoweredStatement::Other, LoweredStatement::Call(WITHDRAW_GAS_ALL)],
            FlatBlockEnd::Return,
        ),
    ];
    assert_eq!(
        find_withdraw_status(&blocks, WITHDRAW_GAS_ALL, WITHDRAW_GAS),
        Ok(WithdrawGasStatus::WithdrawGasAll)
    );
}

#[test]
fn no_mandatory_withdrawal() {
    let blocks = vec![
        plain(FlatBlockEnd::Match(vec![1, 2])),
        block(vec![LoweredStatement::Call(WITHDRAW_GAS)], FlatBlockEnd::Return),
        plain(FlatBlockEnd::Return),
    ];
    assert_eq!(
        find_withdraw_status(&blocks, WITHDRAW_GAS_ALL, WITHDRAW_GAS),
        Ok(WithdrawGasStatus::NoWithdrawGas)
    );
}

#[test]
fn unreachable_jump_cycle_is_not_mandatory() {
    let blocks = vec![
        plain(FlatBlockEnd::Return),
        block(vec![LoweredStatement::Call(WITHDRAW_GAS_ALL)], FlatBlockEnd::Goto(2)),
        plain(FlatBlockEnd::Goto(1)),
    ];
    assert_eq!(find_mandatory_blocks(&blocks), Ok(vec![0]));
    assert_eq!(
        find_withdraw_status(&blocks, WITHDRAW_GAS_ALL, WITHDRAW_GAS),
        Ok(WithdrawGasStatus::NoWithdrawGas)
    );
}

#[test]
fn arm_counts_four_and_six_give_scale_twelve() {
    let blocks = vec![
        plain(FlatBlockEnd::Match(vec![1, 1, 1, 1])),
        plain(FlatBlockEnd::Match(vec![2, 2, 2, 2, 2, 2])),
        plain(FlatBlockEnd::Return),
    ];
    let bw = block_weights(&blocks).ok().unwrap();
    assert_eq!(bw.scale, 12);
    assert_eq!(bw.weights, vec![12, 12, 12]);
    assert_eq!(find_mandatory_blocks(&blocks), Ok(vec![0, 1, 2]));
}
