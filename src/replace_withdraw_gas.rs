use vstd::prelude::*;

use crate::cfg::{blocks_well_formed, FlatBlock, LoweredStatement};
use crate::mandatory_blocks::CfgError;
use crate::withdraw_gas_status::{find_withdraw_status, withdraw_status_valid, WithdrawGasStatus};

verus! {

/// The function ids of the gas library functions that the rewrite deals with.
#[derive(Clone, Copy, Debug, PartialEq, Eq)]
pub struct GasFunctionIds {
    pub withdraw_gas: u64,
    pub withdraw_gas_all: u64,
    pub get_builtin_costs: u64,
}

/// The statements with each call of `withdraw_gas` replaced by a call of `get_builtin_costs`
/// followed by a call of `withdraw_gas_all`.
pub open spec fn upgrade_statements(s: Seq<LoweredStatement>, ids: GasFunctionIds) -> Seq<
    LoweredStatement,
>
    decreases s.len(),
{
    if s.len() == 0 {
        seq![]
    } else {
        let prev = upgrade_statements(s.drop_last(), ids);
        if s.last() == LoweredStatement::Call(ids.withdraw_gas) {
            prev + seq![
                LoweredStatement::Call(ids.get_builtin_costs),
                LoweredStatement::Call(ids.withdraw_gas_all),
            ]
        } else {
            prev.push(s.last())
        }
    }
}

fn upgrade_block_statements(s: &Vec<LoweredStatement>, ids: GasFunctionIds) -> (r: Vec<
    LoweredStatement,
>)
    ensures
        r@ == upgrade_statements(s@, ids),
{
    let mut r: Vec<LoweredStatement> = Vec::new();
    let mut i: usize = 0;
    while i < s.len()
        invariant
            i <= s@.len(),
            r@ == upgrade_statements(s@.subrange(0, i as int), ids),
        decreases s@.len() - i,
    {
        let ghost prev = r@;
        assert(s@.subrange(0, i + 1).drop_last() =~= s@.subrange(0, i as int));
        let st = s[i];
        if st == LoweredStatement::Call(ids.withdraw_gas) {
            r.push(LoweredStatement::Call(ids.get_builtin_costs));
            r.push(LoweredStatement::Call(ids.withdraw_gas_all));
            assert(r@ =~= prev + seq![
                LoweredStatement::Call(ids.get_builtin_costs),
                LoweredStatement::Call(ids.withdraw_gas_all),
            ]);
        } else {
            r.push(st);
        }
        i = i + 1;
    }
    assert(s@.subrange(0, s@.len() as int) =~= s@);
    r
}

/// Every block keeps its end, and its statements are upgraded.
pub open spec fn blocks_upgraded(
    before: Seq<FlatBlock>,
    after: Seq<FlatBlock>,
    ids: GasFunctionIds,
) -> bool {
    &&& after.len() == before.len()
    &&& forall|b: int|
        0 <= b < before.len() ==> (#[trigger] after[b]).end == before[b].end
            && after[b].statements@ == upgrade_statements(before[b].statements@, ids)
}

/// Makes every run of the function withdraw the gas of its built-ins too: unless the
/// function already has a mandatory call of `withdraw_gas_all`, each call of `withdraw_gas`
/// becomes a call of `get_builtin_costs` followed by a call of `withdraw_gas_all`.
/// Returns the status that the decision was taken on; on an error the blocks are left alone.
pub fn replace_withdraw_gas(blocks: &mut Vec<FlatBlock>, ids: GasFunctionIds) -> (r: Result<
    WithdrawGasStatus,
    CfgError,
>)
    requires
        blocks_well_formed(old(blocks)@),
    ensures
        match r {
            Ok(WithdrawGasStatus::WithdrawGasAll) => final(blocks)@ == old(blocks)@,
            Ok(_) => blocks_upgraded(old(blocks)@, final(blocks)@, ids),
            Err(_) => final(blocks)@ == old(blocks)@,
        },
        withdraw_status_valid(old(blocks)@, ids.withdraw_gas_all, ids.withdraw_gas, r),
{
    let status = find_withdraw_status(blocks, ids.withdraw_gas_all, ids.withdraw_gas)?;
    if let WithdrawGasStatus::WithdrawGasAll = status {
        return Ok(status);
    }
    let ghost orig = blocks@;
    let mut rest: Vec<FlatBlock> = Vec::new();
    std::mem::swap(blocks, &mut rest);
    let n = rest.len();
    let mut i: usize = 0;
    while i < n
        invariant
            i <= n == orig.len(),
            rest@ == orig.subrange(i as int, n as int),
            blocks@.len() == i,
            forall|b: int|
                0 <= b < i ==> (#[trigger] blocks@[b]).end == orig[b].end
                    && blocks@[b].statements@ == upgrade_statements(orig[b].statements@, ids),
        decreases n - i,
    {
        let block = rest.remove(0);
        assert(block == orig[i as int]);
        let statements = upgrade_block_statements(&block.statements, ids);
        blocks.push(FlatBlock { statements, end: block.end });
        assert(rest@ =~= orig.subrange(i + 1, n as int));
        i = i + 1;
    }
    Ok(status)
}

} // verus!
