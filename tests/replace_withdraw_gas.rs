use sierra_gas::cfg::{FlatBlock, FlatBlockEnd, LoweredStatement};
use sierra_gas::mandatory_blocks::CfgError;
use sierra_gas::replace_withdraw_gas::{replace_withdraw_gas, GasFunctionIds};
use sierra_gas::withdraw_gas_status::WithdrawGasStatus;

const IDS: GasFunctionIds = GasFunctionIds { withdraw_gas: 8, withdraw_gas_all: 7, get_builtin_costs: 9 };

#[test]
fn partial_withdrawals_are_upgraded() {
    let mut blocks = vec![
        FlatBlock {
            statements: vec![LoweredStatement::Other, LoweredStatement::Call(8)],
            end: FlatBlockEnd::Match(vec![1, 2]),
        },
        FlatBlock { statements: vec![LoweredStatement::Call(8)], end: FlatBlockEnd::Return },
        FlatBlock { statements: vec![], end: FlatBlockEnd::Panic },
    ];
    assert_eq!(replace_withdraw_gas(&mut blocks, IDS), Ok(WithdrawGasStatus::WithdrawGas));
    assert_eq!(
        blocks[0].statements,
        vec![LoweredStatement::Other, LoweredStatement::Call(9), LoweredStatement::Call(7)]
    );
    assert_eq!(blocks[1].statements, vec![LoweredStatement::Call(9), LoweredStatement::Call(7)]);
    assert!(blocks[2].statements.is_empty());
    assert!(matches!(&blocks[0].end, FlatBlockEnd::Match(arms) if arms == &vec![1, 2]));
    assert!(matches!(blocks[2].end, FlatBlockEnd::Panic));
}

#[test]
fn mandatory_withdraw_all_leaves_the_graph() {
    let mut blocks = vec![
        FlatBlock {
            statements: vec![LoweredStatement::Call(7), LoweredStatement::Call(8)],
            end: FlatBlockEnd::Return,
        },
    ];
    assert_eq!(replace_withdraw_gas(&mut blocks, IDS), Ok(WithdrawGasStatus::WithdrawGasAll));
    assert_eq!(blocks[0].statements, vec![LoweredStatement::Call(7), LoweredStatement::Call(8)]);
}

#[test]
fn invalid_graph_is_left_alone() {
    let mut blocks = vec![
        FlatBlock { statements: vec![LoweredStatement::Call(8)], end: FlatBlockEnd::NotSet },
    ];
    assert_eq!(replace_withdraw_gas(&mut blocks, IDS), Err(CfgError::NotSet(0)));
    assert_eq!(blocks[0].statements, vec![LoweredStatement::Call(8)]);
}
