use vstd::prelude::*;

use crate::cfg::{blocks_well_formed, first_not_set, FlatBlock, LoweredStatement};
use crate::mandatory_blocks::{find_mandatory_blocks, is_mandatory_list, spec_scale, CfgError};

verus! {

/// The status of a function with regard to mandatory calls of `withdraw_gas` and
/// `withdraw_gas_all`. A mandatory call is one that every run of the function makes.
#[derive(Clone, Copy, Debug, PartialEq, Eq)]
pub enum WithdrawGasStatus {
    /// The function has a mandatory call to `withdraw_gas_all`.
    WithdrawGasAll,
    /// The function has a mandatory call to `withdraw_gas`, but none to `withdraw_gas_all`.
    WithdrawGas,
    /// The function has a mandatory call to neither.
    NoWithdrawGas,
}

/// Whether the block holds a call of `function`.
pub open spec fn block_calls(block: FlatBlock, function: u64) -> bool {
    exists|j: int|
        0 <= j < block.statements.len() && block.statements@[j] == LoweredStatement::Call(
            function,
        )
}

/// Whether one of the listed blocks holds a call of `function`.
pub open spec fn some_block_calls(blocks: Seq<FlatBlock>, ids: Seq<usize>, function: u64) -> bool {
    exists|i: int|
        0 <= i < ids.len() && ids[i] < blocks.len() && block_calls(
            #[trigger] blocks[ids[i] as int],
            function,
        )
}

/// The status of a function whose mandatory blocks are `ids`.
pub open spec fn status_of(
    blocks: Seq<FlatBlock>,
    ids: Seq<usize>,
    withdraw_gas_all_id: u64,
    withdraw_gas_id: u64,
) -> WithdrawGasStatus {
    if some_block_calls(blocks, ids, withdraw_gas_all_id) {
        WithdrawGasStatus::WithdrawGasAll
    } else if some_block_calls(blocks, ids, withdraw_gas_id) {
        WithdrawGasStatus::WithdrawGas
    } else {
        WithdrawGasStatus::NoWithdrawGas
    }
}

/// `r` is the outcome of the classification: the analysis error of the graph, or the status
/// of its mandatory blocks.
pub open spec fn withdraw_status_valid(
    blocks: Seq<FlatBlock>,
    withdraw_gas_all_id: u64,
    withdraw_gas_id: u64,
    r: Result<WithdrawGasStatus, CfgError>,
) -> bool {
    match r {
        Err(CfgError::NotSet(i)) => first_not_set(blocks, 0) == Some(i as int),
        Err(CfgError::ScaleOverflow) => first_not_set(blocks, 0) is None && spec_scale(
            blocks,
            blocks.len() as int,
        ) >= u64::MAX,
        Ok(status) => first_not_set(blocks, 0) is None && exists|ids: Seq<usize>|
            is_mandatory_list(blocks, ids) && status == status_of(
                blocks,
                ids,
                withdraw_gas_all_id,
                withdraw_gas_id,
            ),
    }
}

/// Finds whether the function whose blocks are given makes a mandatory call of
/// `withdraw_gas_all` (whose function id is `withdraw_gas_all_id`) or of `withdraw_gas`
/// (whose id is `withdraw_gas_id`).
pub fn find_withdraw_status(
    blocks: &Vec<FlatBlock>,
    withdraw_gas_all_id: u64,
    withdraw_gas_id: u64,
) -> (r: Result<WithdrawGasStatus, CfgError>)
    requires
        blocks_well_formed(blocks@),
    ensures
        withdraw_status_valid(blocks@, withdraw_gas_all_id, withdraw_gas_id, r),
{
    let mandatory_blocks = match find_mandatory_blocks(blocks) {
        Ok(ids) => ids,
        Err(e) => {
            return Err(e);
        },
    };
    let ghost ids = mandatory_blocks@;
    proof {
        let bw = choose|bw| crate::mandatory_blocks::weights_valid(blocks@, bw)
            && crate::mandatory_blocks::full_weight_ids(bw, ids);
    }
    let mut has_withdraw_gas = false;
    let mut i: usize = 0;
    while i < mandatory_blocks.len()
        invariant
            i <= mandatory_blocks@.len(),
            ids == mandatory_blocks@,
            forall|k: int| 0 <= k < ids.len() ==> ids[k] < blocks@.len(),
            is_mandatory_list(blocks@, ids),
            first_not_set(blocks@, 0) is None,
            forall|k: int|
                0 <= k < i ==> !block_calls(#[trigger] blocks@[ids[k] as int], withdraw_gas_all_id),
            has_withdraw_gas <==> exists|k: int|
                0 <= k < i && block_calls(#[trigger] blocks@[ids[k] as int], withdraw_gas_id),
        decreases mandatory_blocks@.len() - i,
    {
        let block = &blocks[mandatory_blocks[i]];
        let mut j: usize = 0;
        let ghost had = has_withdraw_gas;
        while j < block.statements.len()
            invariant
                j <= block.statements@.len(),
                i < mandatory_blocks@.len(),
                ids == mandatory_blocks@,
                forall|k: int| 0 <= k < ids.len() ==> ids[k] < blocks@.len(),
                *block == blocks@[ids[i as int] as int],
                is_mandatory_list(blocks@, ids),
                first_not_set(blocks@, 0) is None,
                forall|t: int|
                    0 <= t < j ==> block.statements@[t] != LoweredStatement::Call(
                        withdraw_gas_all_id,
                    ),
                has_withdraw_gas <==> (had || exists|t: int|
                    0 <= t < j && block.statements@[t] == LoweredStatement::Call(withdraw_gas_id)),
            decreases block.statements@.len() - j,
        {
            if let LoweredStatement::Call(function) = block.statements[j] {
                if function == withdraw_gas_all_id {
                    assert(block_calls(blocks@[ids[i as int] as int], withdraw_gas_all_id));
                    assert(some_block_calls(blocks@, ids, withdraw_gas_all_id));
                    return Ok(WithdrawGasStatus::WithdrawGasAll);
                } else if function == withdraw_gas_id {
                    has_withdraw_gas = true;
                }
            }
            j = j + 1;
        }
        assert(!block_calls(blocks@[ids[i as int] as int], withdraw_gas_all_id));
        assert(has_withdraw_gas <==> (had || block_calls(
            blocks@[ids[i as int] as int],
            withdraw_gas_id,
        )));
        i = i + 1;
    }
    assert(!some_block_calls(blocks@, ids, withdraw_gas_all_id));
    assert(has_withdraw_gas <==> some_block_calls(blocks@, ids, withdraw_gas_id));
    if has_withdraw_gas {
        Ok(WithdrawGasStatus::WithdrawGas)
    } else {
        Ok(WithdrawGasStatus::NoWithdrawGas)
    }
}

} // verus!
