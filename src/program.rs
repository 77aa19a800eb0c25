use vstd::prelude::*;

verus! {

/// Where a branch of an invocation continues.
#[derive(Clone, Copy, Debug, PartialEq, Eq)]
pub enum BranchTarget {
    /// The statement right after the invocation.
    Fallthrough,
    /// The statement with this index.
    Statement(usize),
}

/// A call of a library function, with one target per output branch.
#[derive(Clone, Debug)]
pub struct Invocation {
    pub libfunc_id: usize,
    pub branches: Vec<BranchTarget>,
}

/// A statement of a program.
#[derive(Clone, Debug)]
pub enum Statement {
    Return,
    Invocation(Invocation),
}

/// A function of a program and the index of its first statement.
#[derive(Clone, Copy, Debug, PartialEq, Eq)]
pub struct Function {
    pub id: u64,
    pub entry_point: usize,
}

/// A program: its statements and its functions.
#[derive(Clone, Debug)]
pub struct Program {
    pub statements: Vec<Statement>,
    pub funcs: Vec<Function>,
}

/// A resource dimension that the costs are kept in.
#[derive(Clone, Copy, Debug, PartialEq, Eq, Structural, Hash)]
pub enum CostTokenType {
    /// The resolved cost of steps, holes and range checks.
    Const,
    Pedersen,
    Bitwise,
    EcOp,
}

/// A cost in steps, memory holes and range checks.
#[derive(Clone, Copy, Debug, PartialEq, Eq)]
pub struct ConstCost {
    pub steps: i32,
    pub holes: i32,
    pub range_checks: i32,
}

pub open spec fn spec_const_cost(c: ConstCost) -> int {
    c.steps * 100 + c.holes * 10 + c.range_checks * 70
}

impl ConstCost {
    /// The cost as one number: 100 per step, 10 per hole and 70 per range check.
    pub fn cost(&self) -> (r: i64)
        ensures
            r == spec_const_cost(*self),
    {
        (self.steps as i64) * 100 + (self.holes as i64) * 10 + (self.range_checks as i64) * 70
    }
}

/// Costs in the built-in tokens, before the layout of the code is known.
#[derive(Clone, Copy, Debug, PartialEq, Eq)]
pub struct PreCost {
    pub pedersen: i64,
    pub bitwise: i64,
    pub ec_op: i64,
}

pub open spec fn spec_pre_cost_of(c: PreCost, token: CostTokenType) -> i64 {
    match token {
        CostTokenType::Pedersen => c.pedersen,
        CostTokenType::Bitwise => c.bitwise,
        CostTokenType::EcOp => c.ec_op,
        CostTokenType::Const => 0,
    }
}

impl PreCost {
    /// The cost in one token; `Const` is not a token of this kind and costs nothing.
    pub fn get(&self, token: CostTokenType) -> (r: i64)
        ensures
            r == spec_pre_cost_of(*self, token),
    {
        match token {
            CostTokenType::Pedersen => self.pedersen,
            CostTokenType::Bitwise => self.bitwise,
            CostTokenType::EcOp => self.ec_op,
            CostTokenType::Const => 0,
        }
    }
}

/// The price of taking one output branch of a library function.
#[derive(Clone, Copy, Debug, PartialEq, Eq)]
pub enum BranchCost {
    Regular { const_cost: ConstCost, pre_cost: PreCost },
    /// Aligns the branches' costs; its price depends on the change of the `ap` register.
    BranchAlign,
    /// A call of the function whose first statement is `function_entry`.
    FunctionCall { const_cost: ConstCost, function_entry: usize },
    /// A gas withdrawal; `success` tells the branch taken when the withdrawal succeeds.
    WithdrawGas { const_cost: ConstCost, success: bool, with_builtin_costs: bool },
    /// Returning unused gas; not supported by the cost computation.
    RedepositGas,
}

} // verus!
