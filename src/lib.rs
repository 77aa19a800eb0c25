//! Static gas accounting over control-flow graphs: mandatory-block detection,
//! classification of a function's gas withdrawals, and the wallet computation
//! that gives every statement the balance it needs.

pub mod cfg;
pub mod compute_costs;
pub mod cost_type;
pub mod mandatory_blocks;
pub mod program;
pub mod replace_withdraw_gas;
pub mod wallet;
pub mod withdraw_gas_status;
