use sierra_gas::compute_costs::{
    compute_costs, compute_postcost_info, compute_precost_info, ComputeCostInfoProviderImpl,
    TokenCost, VariableValue,
};
use sierra_gas::program::{
    BranchCost, BranchTarget, ConstCost, CostTokenType, Function, Invocation, PreCost, Program,
    Statement,
};
use sierra_gas::cost_type::CostTypeTrait;
use sierra_gas::wallet::{compute_wallets, CostError};

fn invoke(libfunc_id: usize, branches: Vec<BranchTarget>) -> Statement {
    Statement::Invocation(Invocation { libfunc_id, branches })
}

fn regular(steps: i32, pedersen: i64) -> BranchCost {
    BranchCost::Regular {
        const_cost: ConstCost { steps, holes: 0, range_checks: 0 },
        pre_cost: PreCost { pedersen, bitwise: 0, ec_op: 0 },
    }
}

fn zero_bases(program: &Program) -> Vec<Vec<i64>> {
    program
        .statements
        .iter()
        .map(|s| match s {
            Statement::Return => vec![],
            Statement::Invocation(inv) => vec![0; inv.branches.len()],
        })
        .collect()
}

fn program(statements: Vec<Statement>, entries: Vec<usize>) -> Program {
    let funcs = entries
        .iter()
        .enumerate()
        .map(|(i, e)| Function { id: i as u64, entry_point: *e })
        .collect();
    Program { statements, funcs }
}

#[test]
fn zero_cost_sequence_has_zero_wallets() {
    let p = program(
        vec![
            invoke(0, vec![BranchTarget::Fallthrough]),
            invoke(0, vec![BranchTarget::Fallthrough]),
            Statement::Return,
        ],
        vec![0],
    );
    let costs = vec![vec![regular(0, 0)]];
    let w = compute_wallets(&p.statements, &costs, &zero_bases(&p), false).ok().unwrap();
    assert_eq!(w, vec![0, 0, 0]);
    let info = compute_postcost_info(&p, &costs, vec![0, 0, 0]).ok().unwrap();
    assert!(info.variable_values.is_empty());
    assert_eq!(info.function_costs.len(), 1);
    assert!(info.function_costs[0].costs.is_empty());
}

/// Statement 0 branches; one arm aligns and costs 5, the other aligns and costs 2.
fn two_arms() -> (Program, Vec<Vec<BranchCost>>) {
    let p = program(
        vec![
            invoke(0, vec![BranchTarget::Fallthrough, BranchTarget::Statement(4)]),
            invoke(1, vec![BranchTarget::Fallthrough]),
            invoke(2, vec![BranchTarget::Fallthrough]),
            Statement::Return,
            invoke(1, vec![BranchTarget::Fallthrough]),
            invoke(3, vec![BranchTarget::Fallthrough]),
            Statement::Return,
        ],
        vec![0],
    );
    let costs = vec![
        vec![regular(0, 0), regular(0, 0)],
        vec![BranchCost::BranchAlign],
        vec![regular(5, 5)],
        vec![regular(2, 2)],
    ];
    (p, costs)
}

#[test]
fn branch_wallet_is_the_larger_arm() {
    let (p, costs) = two_arms();
    let mut bases = zero_bases(&p);
    bases[2] = vec![5];
    bases[5] = vec![2];
    let w = compute_wallets(&p.statements, &costs, &bases, false).ok().unwrap();
    assert_eq!(w, vec![5, 5, 5, 0, 2, 2, 0]);
}

#[test]
fn branch_align_makes_up_the_difference() {
    let (p, costs) = two_arms();
    let info = compute_precost_info(&p, &costs).ok().unwrap();
    let pedersen: Vec<VariableValue> = info
        .variable_values
        .iter()
        .copied()
        .filter(|v| v.token == CostTokenType::Pedersen)
        .collect();
    assert_eq!(
        pedersen,
        vec![
            VariableValue { statement: 1, token: CostTokenType::Pedersen, value: 0 },
            VariableValue { statement: 4, token: CostTokenType::Pedersen, value: 3 },
        ]
    );
    assert_eq!(info.variable_values.len(), 6);
    assert_eq!(
        info.function_costs[0].costs,
        vec![TokenCost { token: CostTokenType::Pedersen, cost: 5 }]
    );
}

#[test]
fn post_cost_uses_const_costs() {
    let (p, costs) = two_arms();
    let info = compute_postcost_info(&p, &costs, vec![0; 7]).ok().unwrap();
    assert_eq!(
        info.variable_values,
        vec![
            VariableValue { statement: 1, token: CostTokenType::Const, value: 0 },
            VariableValue { statement: 4, token: CostTokenType::Const, value: 300 },
        ]
    );
    assert_eq!(
        info.function_costs[0].costs,
        vec![TokenCost { token: CostTokenType::Const, cost: 500 }]
    );
}

#[test]
fn branch_align_with_ap_change_costs_a_step_and_holes() {
    let (p, costs) = two_arms();
    let mut ap = vec![0; 7];
    ap[4] = 3;
    let info = compute_postcost_info(&p, &costs, ap).ok().unwrap();
    // The cheap arm now needs 130 + 200.
    assert_eq!(info.variable_values[1].value, 500 - 330);
}

#[test]
fn const_cost_weights() {
    let c = ConstCost { steps: 1, holes: 2, range_checks: 3 };
    assert_eq!(c.cost(), 330);
}

#[test]
fn pre_cost_lookup_by_token() {
    let c = PreCost { pedersen: 1, bitwise: 2, ec_op: 3 };
    assert_eq!(c.get(CostTokenType::Bitwise), 2);
    assert_eq!(c.get(CostTokenType::EcOp), 3);
    assert_eq!(c.get(CostTokenType::Const), 0);
}

#[test]
fn recursion_behind_withdrawal_terminates() {
    // 0: withdraw; success goes on to the recursive call, failure returns.
    let p = program(
        vec![
            invoke(0, vec![BranchTarget::Fallthrough, BranchTarget::Statement(3)]),
            invoke(1, vec![BranchTarget::Fallthrough]),
            Statement::Return,
            Statement::Return,
        ],
        vec![0],
    );
    let c = ConstCost { steps: 1, holes: 0, range_checks: 0 };
    let costs = vec![
        vec![
            BranchCost::WithdrawGas { const_cost: c, success: true, with_builtin_costs: true },
            BranchCost::WithdrawGas { const_cost: c, success: false, with_builtin_costs: true },
        ],
        vec![BranchCost::FunctionCall { const_cost: c, function_entry: 0 }],
    ];
    let info = compute_postcost_info(&p, &costs, vec![0; 4]).ok().unwrap();
    // Wallet at 0 is 100; the call after it needs 100 + 100.
    assert_eq!(
        info.variable_values,
        vec![
            VariableValue { statement: 0, token: CostTokenType::Const, value: 200 },
            VariableValue { statement: 1, token: CostTokenType::Const, value: 0 },
            VariableValue { statement: 3, token: CostTokenType::Const, value: 0 },
        ]
    );
    assert_eq!(
        info.function_costs[0].costs,
        vec![TokenCost { token: CostTokenType::Const, cost: 100 }]
    );
}

#[test]
fn unguarded_recursion_is_a_cycle() {
    let p = program(vec![invoke(0, vec![BranchTarget::Fallthrough]), Statement::Return], vec![0]);
    let c = ConstCost { steps: 1, holes: 0, range_checks: 0 };
    let costs = vec![vec![BranchCost::FunctionCall { const_cost: c, function_entry: 0 }]];
    assert_eq!(compute_postcost_info(&p, &costs, vec![0; 2]).err(), Some(CostError::Cycle(0)));
}

#[test]
fn redeposit_is_unimplemented() {
    let p = program(
        vec![Statement::Return, invoke(0, vec![BranchTarget::Fallthrough]), Statement::Return],
        vec![0],
    );
    let costs = vec![vec![BranchCost::RedepositGas]];
    assert_eq!(compute_precost_info(&p, &costs).err(), Some(CostError::Unimplemented(1)));
}

#[test]
fn duplicate_adjustment_is_reported() {
    // Two branching statements whose second arms both continue at statement 4.
    let p = program(
        vec![
            invoke(0, vec![BranchTarget::Fallthrough, BranchTarget::Statement(4)]),
            invoke(0, vec![BranchTarget::Fallthrough, BranchTarget::Statement(4)]),
            Statement::Return,
            Statement::Return,
            Statement::Return,
        ],
        vec![0],
    );
    let costs = vec![vec![regular(0, 0), regular(0, 0)]];
    assert_eq!(
        compute_postcost_info(&p, &costs, vec![0; 5]).err(),
        Some(CostError::DuplicateVariable(4))
    );
}

#[test]
fn wallet_covers_every_branch() {
    let (p, costs) = two_arms();
    let mut bases = zero_bases(&p);
    bases[0] = vec![1, 4];
    bases[2] = vec![5];
    bases[5] = vec![2];
    let w = compute_wallets(&p.statements, &costs, &bases, false).ok().unwrap();
    // Branch requirements at 0: 1 + 5 and 4 + 2.
    assert_eq!(w[0], 6);
    assert!(w[0] >= 1 + w[1]);
    assert!(w[0] >= 4 + w[4]);
}

#[test]
fn running_twice_gives_the_same_output() {
    let (p, costs) = two_arms();
    let a = compute_precost_info(&p, &costs).ok().unwrap();
    let b = compute_precost_info(&p, &costs).ok().unwrap();
    assert_eq!(a.variable_values, b.variable_values);
    assert_eq!(a.function_costs[0].costs, b.function_costs[0].costs);
}

#[test]
fn floor_option_holds_wallets_at_zero() {
    let p = program(vec![invoke(0, vec![BranchTarget::Fallthrough]), Statement::Return], vec![0]);
    let costs = vec![vec![regular(0, 0)]];
    let bases = vec![vec![-3], vec![]];
    let floored = compute_wallets(&p.statements, &costs, &bases, true).ok().unwrap();
    let plain = compute_wallets(&p.statements, &costs, &bases, false).ok().unwrap();
    assert_eq!(floored, vec![0, 0]);
    assert_eq!(plain, vec![-3, 0]);
}

#[test]
fn generic_costs_over_chosen_bases() {
    let (p, costs) = two_arms();
    let mut bases = zero_bases(&p);
    bases[2] = vec![7];
    let info = compute_costs(&p, &costs, &vec![CostTokenType::Bitwise], &vec![bases], false)
        .ok()
        .unwrap();
    assert_eq!(
        info.function_costs[0].costs,
        vec![TokenCost { token: CostTokenType::Bitwise, cost: 7 }]
    );
}

#[test]
fn type_sizes_by_id() {
    let provider = ComputeCostInfoProviderImpl::new(vec![1, 2, 3]);
    assert_eq!(provider.type_size(0), 1);
    assert_eq!(provider.type_size(2), 3);
}

#[test]
fn cost_type_maxima() {
    assert_eq!(<i64 as CostTypeTrait>::max(&vec![]), 0);
    assert_eq!(<i64 as CostTypeTrait>::max(&vec![-4, -2, -9]), -2);
    let a = PreCost { pedersen: 5, bitwise: 1, ec_op: -1 };
    let b = PreCost { pedersen: 2, bitwise: 3, ec_op: -2 };
    // Each token takes its worst case from a different branch.
    assert_eq!(
        <PreCost as CostTypeTrait>::max(&vec![a, b]),
        PreCost { pedersen: 5, bitwise: 3, ec_op: -1 }
    );
}

#[test]
fn huge_ap_change_overflows() {
    let (p, costs) = two_arms();
    let mut ap = vec![0; 7];
    ap[1] = usize::MAX;
    assert_eq!(compute_postcost_info(&p, &costs, ap).err(), Some(CostError::Overflow));
}

#[test]
fn largest_ap_change_that_fits() {
    let (p, costs) = two_arms();
    let mut ap = vec![0; 7];
    ap[1] = 922_337_203_685_477_570;
    assert!(compute_postcost_info(&p, &costs, ap.clone()).is_err());
    // The alignment itself fits; only the sums above it overflow.
    let mut small = vec![0; 7];
    small[1] = 1_000;
    let info = compute_postcost_info(&p, &costs, small).ok().unwrap();
    assert_eq!(info.function_costs[0].costs[0].cost, 500 + 10_100);
}

#[test]
fn generic_costs_refuse_redeposit() {
    let p = program(vec![invoke(0, vec![BranchTarget::Fallthrough]), Statement::Return], vec![0]);
    let costs = vec![vec![BranchCost::RedepositGas]];
    let bases = vec![vec![0], vec![]];
    assert_eq!(
        compute_costs(&p, &costs, &vec![CostTokenType::Const], &vec![bases], false).err(),
        Some(CostError::Unimplemented(0))
    );
}

#[test]
fn cycle_is_reported_before_overflow() {
    // The call at 0 loops on itself, and the alignment at 1 cannot be priced.
    let p = program(
        vec![invoke(0, vec![BranchTarget::Fallthrough]), invoke(1, vec![BranchTarget::Fallthrough]), Statement::Return],
        vec![0],
    );
    let c = ConstCost { steps: 1, holes: 0, range_checks: 0 };
    let costs = vec![
        vec![BranchCost::FunctionCall { const_cost: c, function_entry: 0 }],
        vec![BranchCost::BranchAlign],
    ];
    assert_eq!(
        compute_postcost_info(&p, &costs, vec![0, usize::MAX, 0]).err(),
        Some(CostError::Cycle(0))
    );
}

#[test]
fn pre_cost_wallet_may_be_negative() {
    // A branch that gives back one Pedersen unit: the pre-cost wallet is its requirement, -1.
    let p = program(vec![invoke(0, vec![BranchTarget::Fallthrough]), Statement::Return], vec![0]);
    let costs = vec![vec![regular(0, -1)]];
    let info = compute_precost_info(&p, &costs).ok().unwrap();
    assert_eq!(
        info.function_costs[0].costs,
        vec![TokenCost { token: CostTokenType::Pedersen, cost: -1 }]
    );
}
