use vstd::prelude::*;

use crate::program::{
    spec_const_cost, spec_pre_cost_of, BranchCost, CostTokenType, Program, Statement,
};
use crate::wallet::{
    bases_fit, branch_count, branch_req, compute_wallets, cost_at, program_well_formed,
    target_at, wallets_valid, add_cost, sub_cost, has_ranking, lemma_wallets_unique, CostError,
    in_i64, req_fits_at, reqs_fit, solves, lemma_valid_wallets_only_solution, zero_bases,
    lemma_zero_solution, lemma_valid_wallets_ranked, on_cycle,
};

verus! {

/// Gives the per-operation cost table the sizes of the program's types, indexed by type id.
pub struct ComputeCostInfoProviderImpl {
    pub type_sizes: Vec<usize>,
}

impl ComputeCostInfoProviderImpl {
    pub fn new(type_sizes: Vec<usize>) -> (r: Self)
        ensures
            r.type_sizes@ == type_sizes@,
    {
        ComputeCostInfoProviderImpl { type_sizes }
    }

    /// The size of the type with id `ty`.
    pub fn type_size(&self, ty: usize) -> (r: usize)
        requires
            ty < self.type_sizes@.len(),
        ensures
            r == self.type_sizes@[ty as int],
    {
        self.type_sizes[ty]
    }
}

/// The adjustment of one token at one statement that code generation applies.
#[derive(Clone, Copy, Debug, PartialEq, Eq)]
pub struct VariableValue {
    pub statement: usize,
    pub token: CostTokenType,
    pub value: i64,
}

/// The cost of a function in one token.
#[derive(Clone, Copy, Debug, PartialEq, Eq)]
pub struct TokenCost {
    pub token: CostTokenType,
    pub cost: i64,
}

/// The costs that a function advertises: the wallet at its entry, per token.
#[derive(Clone, Debug)]
pub struct FunctionCost {
    pub function: u64,
    pub costs: Vec<TokenCost>,
}

/// The outcome of a cost computation.
#[derive(Clone, Debug)]
pub struct GasInfo {
    pub variable_values: Vec<VariableValue>,
    pub function_costs: Vec<FunctionCost>,
}

pub open spec fn entry_view(v: VariableValue) -> (int, CostTokenType, int) {
    (v.statement as int, v.token, v.value as int)
}

pub open spec fn entries_view(v: Seq<VariableValue>) -> Seq<(int, CostTokenType, int)> {
    v.map_values(|x: VariableValue| entry_view(x))
}

pub open spec fn max0(x: int) -> int {
    if x > 0 { x } else { 0 }
}

pub open spec fn is_withdraw_success(bc: BranchCost) -> bool {
    match bc {
        BranchCost::WithdrawGas { success, .. } => success,
        _ => false,
    }
}

/// The adjustments of token `k` for branch `j` of the invocation at `i`. After a successful
/// withdrawal: the amount to withdraw before the statement and the amount to give back
/// after it, of which at most one is positive. After any other branch: what the branch
/// leaves in the wallet beyond its own requirement.
pub open spec fn token_entries(
    stmts: Seq<Statement>,
    costs: Seq<Vec<BranchCost>>,
    tokens: Seq<CostTokenType>,
    bases: Seq<Seq<Vec<i64>>>,
    ws: Seq<Seq<i64>>,
    i: int,
    j: int,
    k: int,
) -> Seq<(int, CostTokenType, int)> {
    let bc = cost_at(stmts, costs, i, j);
    let next = target_at(stmts, i, j);
    let w = ws[k];
    if is_withdraw_success(bc) {
        let amount = bases[k][i]@[j] + w[next] - w[i];
        seq![(i, tokens[k], max0(amount)), (next, tokens[k], max0(-amount))]
    } else {
        seq![(next, tokens[k], w[i] - branch_req(stmts, costs, bases[k], w, i, j))]
    }
}

pub open spec fn tokens_upto(
    stmts: Seq<Statement>,
    costs: Seq<Vec<BranchCost>>,
    tokens: Seq<CostTokenType>,
    bases: Seq<Seq<Vec<i64>>>,
    ws: Seq<Seq<i64>>,
    i: int,
    j: int,
    k: int,
) -> Seq<(int, CostTokenType, int)>
    decreases k,
{
    if k <= 0 {
        seq![]
    } else {
        tokens_upto(stmts, costs, tokens, bases, ws, i, j, k - 1) + token_entries(
            stmts,
            costs,
            tokens,
            bases,
            ws,
            i,
            j,
            k - 1,
        )
    }
}

pub open spec fn branches_upto(
    stmts: Seq<Statement>,
    costs: Seq<Vec<BranchCost>>,
    tokens: Seq<CostTokenType>,
    bases: Seq<Seq<Vec<i64>>>,
    ws: Seq<Seq<i64>>,
    i: int,
    j: int,
) -> Seq<(int, CostTokenType, int)>
    decreases j,
{
    if j <= 0 {
        seq![]
    } else {
        branches_upto(stmts, costs, tokens, bases, ws, i, j - 1) + tokens_upto(
            stmts,
            costs,
            tokens,
            bases,
            ws,
            i,
            j - 1,
            tokens.len() as int,
        )
    }
}

/// The adjustments at statement `i`: only an invocation with two or more branches has any.
pub open spec fn statement_entries(
    stmts: Seq<Statement>,
    costs: Seq<Vec<BranchCost>>,
    tokens: Seq<CostTokenType>,
    bases: Seq<Seq<Vec<i64>>>,
    ws: Seq<Seq<i64>>,
    i: int,
) -> Seq<(int, CostTokenType, int)> {
    if branch_count(stmts, i) > 1 {
        branches_upto(stmts, costs, tokens, bases, ws, i, branch_count(stmts, i))
    } else {
        seq![]
    }
}

/// The adjustments of the first `i` statements, in order.
pub open spec fn entries_upto(
    stmts: Seq<Statement>,
    costs: Seq<Vec<BranchCost>>,
    tokens: Seq<CostTokenType>,
    bases: Seq<Seq<Vec<i64>>>,
    ws: Seq<Seq<i64>>,
    i: int,
) -> Seq<(int, CostTokenType, int)>
    decreases i,
{
    if i <= 0 {
        seq![]
    } else {
        entries_upto(stmts, costs, tokens, bases, ws, i - 1) + statement_entries(
            stmts,
            costs,
            tokens,
            bases,
            ws,
            i - 1,
        )
    }
}

/// No two adjustments share a statement and a token.
pub open spec fn keys_distinct(v: Seq<VariableValue>) -> bool {
    forall|a: int, b: int|
        0 <= a < b < v.len() ==> !(v[a].statement == v[b].statement && v[a].token == v[b].token)
}

/// The nonzero costs of the first `k` tokens at statement `entry`.
pub open spec fn function_cost_upto(
    tokens: Seq<CostTokenType>,
    ws: Seq<Seq<i64>>,
    entry: int,
    k: int,
) -> Seq<(CostTokenType, int)>
    decreases k,
{
    if k <= 0 {
        seq![]
    } else {
        let prev = function_cost_upto(tokens, ws, entry, k - 1);
        if ws[k - 1][entry] != 0 {
            prev.push((tokens[k - 1], ws[k - 1][entry] as int))
        } else {
            prev
        }
    }
}

pub open spec fn token_costs_view(v: Seq<TokenCost>) -> Seq<(CostTokenType, int)> {
    v.map_values(|x: TokenCost| (x.token, x.cost as int))
}

/// `info` is what the wallets `ws` (one per token) give: the adjustments in statement,
/// branch and token order, and per function its nonzero entry wallets.
pub open spec fn gas_info_of(
    program: Program,
    costs: Seq<Vec<BranchCost>>,
    tokens: Seq<CostTokenType>,
    bases: Seq<Seq<Vec<i64>>>,
    ws: Seq<Seq<i64>>,
    info: GasInfo,
) -> bool {
    let stmts = program.statements@;
    &&& entries_view(info.variable_values@) == entries_upto(
        stmts,
        costs,
        tokens,
        bases,
        ws,
        stmts.len() as int,
    )
    &&& keys_distinct(info.variable_values@)
    &&& info.function_costs@.len() == program.funcs@.len()
    &&& forall|f: int|
        0 <= f < program.funcs@.len() ==> (#[trigger] info.function_costs@[f]).function
            == program.funcs@[f].id && token_costs_view(info.function_costs@[f].costs@)
            == function_cost_upto(tokens, ws, program.funcs@[f].entry_point as int, tokens.len() as int)
}

/// Every function's entry is a statement of the program.
pub open spec fn funcs_well_formed(program: Program) -> bool {
    forall|f: int|
        0 <= f < program.funcs@.len() ==> (#[trigger] program.funcs@[f]).entry_point
            < program.statements@.len()
}

/// The sums behind the adjustments of token `k` for branch `j` of `i` fit in 64 bits.
pub open spec fn token_fits(
    stmts: Seq<Statement>,
    costs: Seq<Vec<BranchCost>>,
    bases: Seq<Seq<Vec<i64>>>,
    ws: Seq<Seq<i64>>,
    i: int,
    j: int,
    k: int,
) -> bool {
    let bc = cost_at(stmts, costs, i, j);
    let next = target_at(stmts, i, j);
    let w = ws[k];
    if is_withdraw_success(bc) {
        let a = bases[k][i]@[j] + w[next];
        in_i64(a) && in_i64(a - w[i]) && in_i64(-(a - w[i]))
    } else {
        req_fits_at(stmts, costs, bases[k], w, i, j) && in_i64(
            w[i] - branch_req(stmts, costs, bases[k], w, i, j),
        )
    }
}

/// Every adjustment, and the sums behind it, fits in 64 bits.
pub open spec fn outputs_fit(
    stmts: Seq<Statement>,
    costs: Seq<Vec<BranchCost>>,
    tokens: Seq<CostTokenType>,
    bases: Seq<Seq<Vec<i64>>>,
    ws: Seq<Seq<i64>>,
) -> bool {
    forall|i: int, j: int, k: int|
        0 <= i < stmts.len() && branch_count(stmts, i) > 1 && 0 <= j < branch_count(stmts, i) && 0
            <= k < tokens.len() ==> #[trigger] token_fits(stmts, costs, bases, ws, i, j, k)
}

/// The first adjustment that repeats the statement and token of an earlier one is for
/// statement `s`.
pub open spec fn duplicate_at(e: Seq<(int, CostTokenType, int)>, s: int) -> bool {
    exists|a: int, b: int|
        0 <= a < b < e.len() && (#[trigger] e[a]).0 == s && (#[trigger] e[b]).0 == s && e[a].1
            == e[b].1 && distinct_before(e, b)
}

/// The adjustments before position `b` are for distinct statement and token pairs.
pub open spec fn distinct_before(e: Seq<(int, CostTokenType, int)>, b: int) -> bool {
    forall|x: int, y: int|
        0 <= x < y < b ==> !((#[trigger] e[x]).0 == (#[trigger] e[y]).0 && e[x].1 == e[y].1)
}

proof fn lemma_duplicate_witness(e: Seq<(int, CostTokenType, int)>, s: int, a: int, b: int)
    requires
        0 <= a < b < e.len(),
        e[a].0 == s,
        e[b].0 == s,
        e[a].1 == e[b].1,
        distinct_before(e, b),
    ensures
        duplicate_at(e, s),
{
}

/// Adjustments held with distinct keys stay distinct in any sequence that starts with them.
proof fn lemma_distinct_prefix(v: Seq<VariableValue>, x: Seq<(int, CostTokenType, int)>)
    requires
        keys_distinct(v),
        v.len() <= x.len(),
        forall|z: int| 0 <= z < v.len() ==> x[z] == entry_view(v[z]),
    ensures
        distinct_before(x, v.len() as int),
{
    assert forall|u: int, w: int| 0 <= u < w < v.len() implies !((#[trigger] x[u]).0 == (
    #[trigger] x[w]).0 && x[u].1 == x[w].1) by {
        assert(x[u] == entry_view(v[u]));
        assert(x[w] == entry_view(v[w]));
    }
}

pub open spec fn is_prefix<T>(a: Seq<T>, b: Seq<T>) -> bool {
    a.len() <= b.len() && b.subrange(0, a.len() as int) == a
}

proof fn lemma_duplicate_prefix(a: Seq<(int, CostTokenType, int)>, b: Seq<(int, CostTokenType, int)>, s: int)
    requires
        is_prefix(a, b),
        duplicate_at(a, s),
    ensures
        duplicate_at(b, s),
{
    let (x, y) = choose|x: int, y: int|
        0 <= x < y < a.len() && (#[trigger] a[x]).0 == s && (#[trigger] a[y]).0 == s && a[x].1
            == a[y].1 && distinct_before(a, y);
    assert(forall|z: int| 0 <= z < a.len() ==> b[z] == b.subrange(0, a.len() as int)[z]);
    assert(b[x] == b.subrange(0, a.len() as int)[x]);
    assert(b[y] == b.subrange(0, a.len() as int)[y]);
    assert forall|u: int, v: int| 0 <= u < v < y implies !((#[trigger] b[u]).0 == (
    #[trigger] b[v]).0 && b[u].1 == b[v].1) by {
        assert(b[u] == a[u]);
        assert(b[v] == a[v]);
    }
    lemma_duplicate_witness(b, s, x, y);
}

proof fn lemma_prefix_extend<T>(a: Seq<T>, b: Seq<T>, d: Seq<T>)
    requires
        is_prefix(b, d),
    ensures
        is_prefix(a + b, a + d),
{
    assert((a + d).subrange(0, (a + b).len() as int) =~= a + b);
}

proof fn lemma_prefix_trans<T>(a: Seq<T>, b: Seq<T>, c: Seq<T>)
    requires
        is_prefix(a, b),
        is_prefix(b, c),
    ensures
        is_prefix(a, c),
{
    assert(c.subrange(0, a.len() as int) =~= b.subrange(0, a.len() as int));
}

proof fn lemma_prefix_append<T>(a: Seq<T>, b: Seq<T>)
    ensures
        is_prefix(a, a + b),
{
    assert((a + b).subrange(0, a.len() as int) =~= a);
}

proof fn lemma_prefix_refl<T>(a: Seq<T>)
    ensures
        is_prefix(a, a),
{
    assert(a.subrange(0, a.len() as int) =~= a);
}

proof fn lemma_tokens_prefix(
    stmts: Seq<Statement>,
    costs: Seq<Vec<BranchCost>>,
    tokens: Seq<CostTokenType>,
    bases: Seq<Seq<Vec<i64>>>,
    ws: Seq<Seq<i64>>,
    i: int,
    j: int,
    k: int,
    m: int,
)
    requires
        0 <= k <= m,
    ensures
        is_prefix(
            tokens_upto(stmts, costs, tokens, bases, ws, i, j, k),
            tokens_upto(stmts, costs, tokens, bases, ws, i, j, m),
        ),
    decreases m - k,
{
    if k == m {
        lemma_prefix_refl(tokens_upto(stmts, costs, tokens, bases, ws, i, j, k));
    } else {
        lemma_tokens_prefix(stmts, costs, tokens, bases, ws, i, j, k, m - 1);
        lemma_prefix_append(
            tokens_upto(stmts, costs, tokens, bases, ws, i, j, m - 1),
            token_entries(stmts, costs, tokens, bases, ws, i, j, m - 1),
        );
        lemma_prefix_trans(
            tokens_upto(stmts, costs, tokens, bases, ws, i, j, k),
            tokens_upto(stmts, costs, tokens, bases, ws, i, j, m - 1),
            tokens_upto(stmts, costs, tokens, bases, ws, i, j, m),
        );
    }
}

proof fn lemma_branches_prefix(
    stmts: Seq<Statement>,
    costs: Seq<Vec<BranchCost>>,
    tokens: Seq<CostTokenType>,
    bases: Seq<Seq<Vec<i64>>>,
    ws: Seq<Seq<i64>>,
    i: int,
    j: int,
    m: int,
)
    requires
        0 <= j <= m,
    ensures
        is_prefix(
            branches_upto(stmts, costs, tokens, bases, ws, i, j),
            branches_upto(stmts, costs, tokens, bases, ws, i, m),
        ),
    decreases m - j,
{
    if j == m {
        lemma_prefix_refl(branches_upto(stmts, costs, tokens, bases, ws, i, j));
    } else {
        lemma_branches_prefix(stmts, costs, tokens, bases, ws, i, j, m - 1);
        lemma_prefix_append(
            branches_upto(stmts, costs, tokens, bases, ws, i, m - 1),
            tokens_upto(stmts, costs, tokens, bases, ws, i, m - 1, tokens.len() as int),
        );
        lemma_prefix_trans(
            branches_upto(stmts, costs, tokens, bases, ws, i, j),
            branches_upto(stmts, costs, tokens, bases, ws, i, m - 1),
            branches_upto(stmts, costs, tokens, bases, ws, i, m),
        );
    }
}

proof fn lemma_entries_prefix(
    stmts: Seq<Statement>,
    costs: Seq<Vec<BranchCost>>,
    tokens: Seq<CostTokenType>,
    bases: Seq<Seq<Vec<i64>>>,
    ws: Seq<Seq<i64>>,
    i: int,
    m: int,
)
    requires
        0 <= i <= m,
    ensures
        is_prefix(
            entries_upto(stmts, costs, tokens, bases, ws, i),
            entries_upto(stmts, costs, tokens, bases, ws, m),
        ),
    decreases m - i,
{
    if i == m {
        lemma_prefix_refl(entries_upto(stmts, costs, tokens, bases, ws, i));
    } else {
        lemma_entries_prefix(stmts, costs, tokens, bases, ws, i, m - 1);
        lemma_prefix_append(
            entries_upto(stmts, costs, tokens, bases, ws, m - 1),
            statement_entries(stmts, costs, tokens, bases, ws, m - 1),
        );
        lemma_prefix_trans(
            entries_upto(stmts, costs, tokens, bases, ws, i),
            entries_upto(stmts, costs, tokens, bases, ws, m - 1),
            entries_upto(stmts, costs, tokens, bases, ws, m),
        );
    }
}

/// Appends an adjustment, failing where one for the same statement and token is there.
fn push_value(out: &mut Vec<VariableValue>, value: VariableValue) -> (r: Result<(), CostError>)
    requires
        keys_distinct(old(out)@),
    ensures
        match r {
            Ok(()) => final(out)@ == old(out)@.push(value) && keys_distinct(final(out)@),
            Err(e) => e == CostError::DuplicateVariable(value.statement) && exists|a: int|
                0 <= a < old(out)@.len() && old(out)@[a].statement == value.statement
                    && old(out)@[a].token == value.token,
        },
{
    let mut a: usize = 0;
    while a < out.len()
        invariant
            a <= out@.len(),
            forall|b: int|
                0 <= b < a ==> !(out@[b].statement == value.statement && out@[b].token
                    == value.token),
        decreases out@.len() - a,
    {
        if out[a].statement == value.statement && out[a].token == value.token {
            return Err(CostError::DuplicateVariable(value.statement));
        }
        a = a + 1;
    }
    out.push(value);
    Ok(())
}

proof fn lemma_view_push(v: Seq<VariableValue>, x: VariableValue)
    ensures
        entries_view(v.push(x)) == entries_view(v).push(entry_view(x)),
{
    assert(entries_view(v.push(x)) =~= entries_view(v).push(entry_view(x)));
}

/// The view of the wallet table of each token.
pub open spec fn wallets_view(ws: Seq<Vec<i64>>) -> Seq<Seq<i64>> {
    ws.map_values(|w: Vec<i64>| w@)
}

pub open spec fn bases_view(bases: Seq<Vec<Vec<i64>>>) -> Seq<Seq<Vec<i64>>> {
    bases.map_values(|b: Vec<Vec<i64>>| b@)
}

/// The per-token tables agree in shape with the program.
pub open spec fn tables_fit(
    stmts: Seq<Statement>,
    tokens: Seq<CostTokenType>,
    bases: Seq<Vec<Vec<i64>>>,
    ws: Seq<Vec<i64>>,
) -> bool {
    &&& bases.len() == tokens.len()
    &&& ws.len() == tokens.len()
    &&& forall|k: int| 0 <= k < tokens.len() ==> bases_fit(stmts, #[trigger] bases[k]@)
    &&& forall|k: int| 0 <= k < tokens.len() ==> (#[trigger] ws[k])@.len() == stmts.len()
}

/// Computes the adjustments of token `k` for branch `j` of the invocation at `i`.
fn branch_token_values(
    stmts: &Vec<Statement>,
    costs: &Vec<Vec<BranchCost>>,
    tokens: &Vec<CostTokenType>,
    bases: &Vec<Vec<Vec<i64>>>,
    ws: &Vec<Vec<i64>>,
    i: usize,
    j: usize,
    k: usize,
    out: &mut Vec<VariableValue>,
) -> (r: Result<(), CostError>)
    requires
        program_well_formed(stmts@, costs@),
        tables_fit(stmts@, tokens@, bases@, ws@),
        i < stmts@.len(),
        0 <= j < branch_count(stmts@, i as int),
        k < tokens@.len(),
        keys_distinct(old(out)@),
    ensures
        r is Ok ==> entries_view(final(out)@) == entries_view(old(out)@) + token_entries(
            stmts@,
            costs@,
            tokens@,
            bases_view(bases@),
            wallets_view(ws@),
            i as int,
            j as int,
            k as int,
        ) && keys_distinct(final(out)@),
        r matches Err(e) ==> !(e is Unimplemented) && !(e is Cycle),
        r matches Err(CostError::Overflow) ==> !token_fits(
            stmts@,
            costs@,
            bases_view(bases@),
            wallets_view(ws@),
            i as int,
            j as int,
            k as int,
        ),
        r matches Err(CostError::DuplicateVariable(s)) ==> duplicate_at(
            entries_view(old(out)@) + token_entries(
                stmts@,
                costs@,
                tokens@,
                bases_view(bases@),
                wallets_view(ws@),
                i as int,
                j as int,
                k as int,
            ),
            s as int,
        ),
{
    let ghost ss = stmts@;
    let ghost cs = costs@;
    let n_stmts = stmts.len();
    let inv = match &stmts[i] {
        Statement::Invocation(inv) => inv,
        Statement::Return => {
            return Ok(());
        },
    };
    assert(ss[i as int] is Invocation);
    let bc = costs[inv.libfunc_id][j];
    assert(bc == cost_at(ss, cs, i as int, j as int));
    let ghost next_spec = target_at(ss, i as int, j as int);
    assert(0 <= next_spec < ss.len());
    let next: usize = match inv.branches[j] {
        crate::program::BranchTarget::Fallthrough => {
            assert(i + 1 < ss.len());
            i + 1
        },
        crate::program::BranchTarget::Statement(s) => s,
    };
    assert(next == next_spec);
    let w = &ws[k];
    let base = &bases[k];
    assert(bases_fit(ss, bases@[k as int]@));
    assert(base@[i as int].len() == branch_count(ss, i as int));
    let token = tokens[k];
    let ghost old_out = out@;
    let success = match bc {
        BranchCost::WithdrawGas { success, .. } => success,
        _ => false,
    };
    if success {
        let with_cost = add_cost(base[i][j], w[next])?;
        let amount = sub_cost(with_cost, w[i])?;
        let give_back = sub_cost(0, amount)?;
        let withdrawn = if amount > 0 { amount } else { 0 };
        let returned = if give_back > 0 { give_back } else { 0 };
        let first = VariableValue { statement: i, token, value: withdrawn };
        let ghost x = entries_view(old_out) + token_entries(
            ss,
            cs,
            tokens@,
            bases_view(bases@),
            wallets_view(ws@),
            i as int,
            j as int,
            k as int,
        );
        let res = push_value(out, first);
        if let Err(e) = res {
            proof {
                let a = choose|a: int|
                    0 <= a < old_out.len() && old_out[a].statement == first.statement
                        && old_out[a].token == first.token;
                assert(x[a] == entry_view(old_out[a]));
                lemma_distinct_prefix(old_out, x);
                lemma_duplicate_witness(x, i as int, a, old_out.len() as int);
            }
            return Err(e);
        }
        proof {
            lemma_view_push(old_out, first);
        }
        let ghost mid = out@;
        let second = VariableValue { statement: next, token, value: returned };
        let res = push_value(out, second);
        if let Err(e) = res {
            proof {
                let a = choose|a: int|
                    0 <= a < mid.len() && mid[a].statement == second.statement && mid[a].token
                        == second.token;
                if a < old_out.len() {
                    assert(x[a] == entry_view(old_out[a]));
                    assert(mid[a] == old_out[a]);
                } else {
                    assert(mid[a] == first);
                }
                lemma_view_push(old_out, first);
                lemma_distinct_prefix(mid, x);
                lemma_duplicate_witness(x, next as int, a, old_out.len() as int + 1);
            }
            return Err(e);
        }
        proof {
            lemma_view_push(mid, second);
        }
        assert(entries_view(out@) =~= entries_view(old_out) + token_entries(
            ss,
            cs,
            tokens@,
            bases_view(bases@),
            wallets_view(ws@),
            i as int,
            j as int,
            k as int,
        ));
    } else {
        let mut req = base[i][j];
        if let BranchCost::FunctionCall { function_entry, .. } = bc {
            req = add_cost(req, w[function_entry])?;
        }
        let needs = match bc {
            BranchCost::WithdrawGas { success, .. } => !success,
            _ => true,
        };
        if needs {
            req = add_cost(req, w[next])?;
        }
        assert(req == branch_req(ss, cs, bases_view(bases@)[k as int], wallets_view(ws@)[k as int], i as int, j as int));
        let value = sub_cost(w[i], req)?;
        let entry = VariableValue { statement: next, token, value };
        let res = push_value(out, entry);
        if let Err(e) = res {
            proof {
                let x = entries_view(old_out) + token_entries(
                    ss,
                    cs,
                    tokens@,
                    bases_view(bases@),
                    wallets_view(ws@),
                    i as int,
                    j as int,
                    k as int,
                );
                let a = choose|a: int|
                    0 <= a < old_out.len() && old_out[a].statement == entry.statement
                        && old_out[a].token == entry.token;
                assert(x[a] == entry_view(old_out[a]));
                lemma_distinct_prefix(old_out, x);
                lemma_duplicate_witness(x, next as int, a, old_out.len() as int);
            }
            return Err(e);
        }
        proof {
            lemma_view_push(old_out, entry);
        }
        assert(entries_view(out@) =~= entries_view(old_out) + token_entries(
            ss,
            cs,
            tokens@,
            bases_view(bases@),
            wallets_view(ws@),
            i as int,
            j as int,
            k as int,
        ));
    }
    Ok(())
}

/// Computes the adjustments of every statement, in statement, branch and token order.
fn variable_values(
    stmts: &Vec<Statement>,
    costs: &Vec<Vec<BranchCost>>,
    tokens: &Vec<CostTokenType>,
    bases: &Vec<Vec<Vec<i64>>>,
    ws: &Vec<Vec<i64>>,
) -> (r: Result<Vec<VariableValue>, CostError>)
    requires
        program_well_formed(stmts@, costs@),
        tables_fit(stmts@, tokens@, bases@, ws@),
    ensures
        r matches Ok(out) ==> entries_view(out@) == entries_upto(
            stmts@,
            costs@,
            tokens@,
            bases_view(bases@),
            wallets_view(ws@),
            stmts@.len() as int,
        ) && keys_distinct(out@),
        r matches Err(e) ==> !(e is Unimplemented) && !(e is Cycle),
        r matches Err(CostError::Overflow) ==> !outputs_fit(
            stmts@,
            costs@,
            tokens@,
            bases_view(bases@),
            wallets_view(ws@),
        ),
        r matches Err(CostError::DuplicateVariable(s)) ==> duplicate_at(
            entries_upto(
                stmts@,
                costs@,
                tokens@,
                bases_view(bases@),
                wallets_view(ws@),
                stmts@.len() as int,
            ),
            s as int,
        ),
{
    let ghost ss = stmts@;
    let ghost cs = costs@;
    let ghost ts = tokens@;
    let ghost bv = bases_view(bases@);
    let ghost wv = wallets_view(ws@);
    let mut out: Vec<VariableValue> = Vec::new();
    let n = stmts.len();
    let nt = tokens.len();
    let mut i: usize = 0;
    assert(entries_view(out@) =~= entries_upto(ss, cs, ts, bv, wv, 0));
    while i < n
        invariant
            i <= n == ss.len(),
            nt == ts.len(),
            ss == stmts@,
            cs == costs@,
            ts == tokens@,
            bv == bases_view(bases@),
            wv == wallets_view(ws@),
            program_well_formed(ss, cs),
            tables_fit(ss, ts, bases@, ws@),
            keys_distinct(out@),
            entries_view(out@) == entries_upto(ss, cs, ts, bv, wv, i as int),
        decreases n - i,
    {
        let nb: usize = match &stmts[i] {
            Statement::Invocation(inv) => inv.branches.len(),
            Statement::Return => 0,
        };
        assert(nb == branch_count(ss, i as int));
        if nb > 1 {
            let ghost start = entries_view(out@);
            let mut j: usize = 0;
            assert(entries_view(out@) =~= start + branches_upto(ss, cs, ts, bv, wv, i as int, 0));
            while j < nb
                invariant
                    i < n == ss.len(),
                    nt == ts.len(),
                    ss == stmts@,
                    cs == costs@,
                    ts == tokens@,
                    bv == bases_view(bases@),
                    wv == wallets_view(ws@),
                    program_well_formed(ss, cs),
                    tables_fit(ss, ts, bases@, ws@),
                    nb == branch_count(ss, i as int),
                    nb > 1,
                    start == entries_upto(ss, cs, ts, bv, wv, i as int),
                    j <= nb,
                    keys_distinct(out@),
                    entries_view(out@) == start + branches_upto(ss, cs, ts, bv, wv, i as int, j as int),
                decreases nb - j,
            {
                let ghost start_j = entries_view(out@);
                let mut k: usize = 0;
                assert(entries_view(out@) =~= start_j + tokens_upto(ss, cs, ts, bv, wv, i as int, j as int, 0));
                while k < nt
                    invariant
                        i < n == ss.len(),
                        nt == ts.len(),
                        ss == stmts@,
                        cs == costs@,
                        ts == tokens@,
                        bv == bases_view(bases@),
                        wv == wallets_view(ws@),
                        program_well_formed(ss, cs),
                        tables_fit(ss, ts, bases@, ws@),
                        j < nb == branch_count(ss, i as int),
                        nb > 1,
                        start == entries_upto(ss, cs, ts, bv, wv, i as int),
                        start_j == start + branches_upto(ss, cs, ts, bv, wv, i as int, j as int),
                        k <= nt,
                        keys_distinct(out@),
                        entries_view(out@) == start_j + tokens_upto(
                            ss,
                            cs,
                            ts,
                            bv,
                            wv,
                            i as int,
                            j as int,
                            k as int,
                        ),
                    decreases nt - k,
                {
                    let ghost before = entries_view(out@);
                    let res = branch_token_values(stmts, costs, tokens, bases, ws, i, j, k, &mut out);
                    if let Err(e) = res {
                        proof {
                            if e == CostError::Overflow {
                                assert(!token_fits(ss, cs, bv, wv, i as int, j as int, k as int));
                            }
                            if let CostError::DuplicateVariable(s) = e {
                                let ei = entries_upto(ss, cs, ts, bv, wv, i as int);
                                let bj = branches_upto(ss, cs, ts, bv, wv, i as int, j as int);
                                let tk1 = tokens_upto(ss, cs, ts, bv, wv, i as int, j as int, k + 1);
                                let tall = tokens_upto(
                                    ss,
                                    cs,
                                    ts,
                                    bv,
                                    wv,
                                    i as int,
                                    j as int,
                                    nt as int,
                                );
                                let x = before + token_entries(
                                    ss,
                                    cs,
                                    ts,
                                    bv,
                                    wv,
                                    i as int,
                                    j as int,
                                    k as int,
                                );
                                assert(x =~= (ei + bj) + tk1);
                                lemma_tokens_prefix(ss, cs, ts, bv, wv, i as int, j as int, k + 1, nt as int);
                                lemma_prefix_extend(ei + bj, tk1, tall);
                                assert((ei + bj) + tall =~= ei + branches_upto(
                                    ss,
                                    cs,
                                    ts,
                                    bv,
                                    wv,
                                    i as int,
                                    j + 1,
                                ));
                                lemma_branches_prefix(ss, cs, ts, bv, wv, i as int, j + 1, nb as int);
                                lemma_prefix_extend(
                                    ei,
                                    branches_upto(ss, cs, ts, bv, wv, i as int, j + 1),
                                    branches_upto(ss, cs, ts, bv, wv, i as int, nb as int),
                                );
                                lemma_prefix_trans(
                                    x,
                                    ei + branches_upto(ss, cs, ts, bv, wv, i as int, j + 1),
                                    ei + branches_upto(ss, cs, ts, bv, wv, i as int, nb as int),
                                );
                                assert(ei + branches_upto(ss, cs, ts, bv, wv, i as int, nb as int)
                                    == entries_upto(ss, cs, ts, bv, wv, i + 1));
                                lemma_entries_prefix(ss, cs, ts, bv, wv, i + 1, n as int);
                                lemma_prefix_trans(
                                    x,
                                    entries_upto(ss, cs, ts, bv, wv, i + 1),
                                    entries_upto(ss, cs, ts, bv, wv, n as int),
                                );
                                lemma_duplicate_prefix(
                                    x,
                                    entries_upto(ss, cs, ts, bv, wv, n as int),
                                    s as int,
                                );
                            }
                        }
                        return Err(e);
                    }
                    assert(entries_view(out@) =~= start_j + tokens_upto(
                        ss,
                        cs,
                        ts,
                        bv,
                        wv,
                        i as int,
                        j as int,
                        k + 1,
                    ));
                    k = k + 1;
                }
                assert(entries_view(out@) =~= start + branches_upto(
                    ss,
                    cs,
                    ts,
                    bv,
                    wv,
                    i as int,
                    j + 1,
                ));
                j = j + 1;
            }
        }
        assert(entries_view(out@) =~= entries_upto(ss, cs, ts, bv, wv, i + 1));
        i = i + 1;
    }
    Ok(out)
}

/// Lists the nonzero wallets of the tokens at statement `entry`.
fn function_token_costs(tokens: &Vec<CostTokenType>, ws: &Vec<Vec<i64>>, entry: usize) -> (r: Vec<
    TokenCost,
>)
    requires
        ws@.len() == tokens@.len(),
        forall|k: int| 0 <= k < tokens@.len() ==> entry < (#[trigger] ws@[k])@.len(),
    ensures
        token_costs_view(r@) == function_cost_upto(
            tokens@,
            wallets_view(ws@),
            entry as int,
            tokens@.len() as int,
        ),
{
    let mut r: Vec<TokenCost> = Vec::new();
    let mut k: usize = 0;
    assert(token_costs_view(r@) =~= function_cost_upto(tokens@, wallets_view(ws@), entry as int, 0));
    while k < tokens.len()
        invariant
            k <= tokens@.len() == ws@.len(),
            forall|x: int| 0 <= x < tokens@.len() ==> entry < (#[trigger] ws@[x])@.len(),
            token_costs_view(r@) == function_cost_upto(
                tokens@,
                wallets_view(ws@),
                entry as int,
                k as int,
            ),
        decreases tokens@.len() - k,
    {
        let ghost prev = r@;
        let c = ws[k][entry];
        if c != 0 {
            r.push(TokenCost { token: tokens[k], cost: c });
            assert(token_costs_view(r@) =~= token_costs_view(prev).push((tokens@[k as int], c as int)));
        }
        k = k + 1;
    }
    r
}

/// Computes the adjustments and the function costs from the wallets of each token.
fn gas_info_from_wallets(
    program: &Program,
    costs: &Vec<Vec<BranchCost>>,
    tokens: &Vec<CostTokenType>,
    bases: &Vec<Vec<Vec<i64>>>,
    ws: &Vec<Vec<i64>>,
) -> (r: Result<GasInfo, CostError>)
    requires
        program_well_formed(program.statements@, costs@),
        funcs_well_formed(*program),
        tables_fit(program.statements@, tokens@, bases@, ws@),
    ensures
        r matches Ok(info) ==> gas_info_of(
            *program,
            costs@,
            tokens@,
            bases_view(bases@),
            wallets_view(ws@),
            info,
        ),
        r matches Err(e) ==> !(e is Unimplemented) && !(e is Cycle),
        r matches Err(CostError::Overflow) ==> !outputs_fit(
            program.statements@,
            costs@,
            tokens@,
            bases_view(bases@),
            wallets_view(ws@),
        ),
        r matches Err(CostError::DuplicateVariable(s)) ==> duplicate_at(
            entries_upto(
                program.statements@,
                costs@,
                tokens@,
                bases_view(bases@),
                wallets_view(ws@),
                program.statements@.len() as int,
            ),
            s as int,
        ),
{
    let variable_values = variable_values(&program.statements, costs, tokens, bases, ws)?;
    let mut function_costs: Vec<FunctionCost> = Vec::new();
    let mut f: usize = 0;
    while f < program.funcs.len()
        invariant
            f <= program.funcs@.len(),
            funcs_well_formed(*program),
            tables_fit(program.statements@, tokens@, bases@, ws@),
            function_costs@.len() == f,
            forall|g: int|
                0 <= g < f ==> (#[trigger] function_costs@[g]).function == program.funcs@[g].id
                    && token_costs_view(function_costs@[g].costs@) == function_cost_upto(
                    tokens@,
                    wallets_view(ws@),
                    program.funcs@[g].entry_point as int,
                    tokens@.len() as int,
                ),
        decreases program.funcs@.len() - f,
    {
        let func = program.funcs[f];
        assert(func.entry_point < program.statements@.len());
        let c = function_token_costs(tokens, ws, func.entry_point);
        function_costs.push(FunctionCost { function: func.id, costs: c });
        f = f + 1;
    }
    Ok(GasInfo { variable_values, function_costs })
}

/// Computes the wallets of each token (with base costs `bases[k]` for token `k`) and from
/// them the adjustments and the function costs.
pub fn compute_costs(
    program: &Program,
    costs: &Vec<Vec<BranchCost>>,
    tokens: &Vec<CostTokenType>,
    bases: &Vec<Vec<Vec<i64>>>,
    floor: bool,
) -> (r: Result<GasInfo, CostError>)
    requires
        program_well_formed(program.statements@, costs@),
        funcs_well_formed(*program),
        bases@.len() == tokens@.len(),
        forall|k: int| 0 <= k < tokens@.len() ==> bases_fit(program.statements@, #[trigger] bases@[k]@),
    ensures
        r matches Ok(info) ==> exists|ws: Seq<Seq<i64>>|
            ws.len() == tokens@.len() && (forall|k: int|
                0 <= k < tokens@.len() ==> wallets_valid(
                    program.statements@,
                    costs@,
                    bases@[k]@,
                    floor,
                    #[trigger] ws[k],
                )) && gas_info_of(*program, costs@, tokens@, bases_view(bases@), ws, info),
        match r {
            Err(CostError::Unimplemented(i)) => i < program.statements@.len() && has_redeposit(
                program.statements@,
                costs@,
                i as int,
            ) && forall|x: int| 0 <= x < i ==> !has_redeposit(program.statements@, costs@, x),
            _ => forall|x: int|
                0 <= x < program.statements@.len() ==> !has_redeposit(program.statements@, costs@, x),
        },
        r matches Err(CostError::Cycle(_)) ==> !has_ranking(program.statements@, costs@),
        r matches Err(CostError::Cycle(c)) ==> c < program.statements@.len() && on_cycle(
            program.statements@,
            costs@,
            c as int,
        ),
        tokens@.len() > 0 && !has_ranking(program.statements@, costs@) && (forall|x: int|
            0 <= x < program.statements@.len() ==> !has_redeposit(program.statements@, costs@, x))
            ==> r matches Err(CostError::Cycle(_)),
        r matches Err(CostError::Overflow) ==> forall|ws: Seq<Seq<i64>>|
            ws.len() == tokens@.len() && (forall|k: int|
                0 <= k < tokens@.len() ==> solves(
                    program.statements@,
                    costs@,
                    bases@[k]@,
                    floor,
                    #[trigger] ws[k],
                )) ==> !((forall|k: int|
                0 <= k < tokens@.len() ==> reqs_fit(
                    program.statements@,
                    costs@,
                    bases@[k]@,
                    #[trigger] ws[k],
                )) && outputs_fit(program.statements@, costs@, tokens@, bases_view(bases@), ws)),
        r matches Err(CostError::DuplicateVariable(s)) ==> exists|ws: Seq<Seq<i64>>|
            ws.len() == tokens@.len() && (forall|k: int|
                0 <= k < tokens@.len() ==> wallets_valid(
                    program.statements@,
                    costs@,
                    bases@[k]@,
                    floor,
                    #[trigger] ws[k],
                )) && duplicate_at(
                entries_upto(
                    program.statements@,
                    costs@,
                    tokens@,
                    bases_view(bases@),
                    ws,
                    program.statements@.len() as int,
                ),
                s as int,
            ),
{
    if let Some(i) = find_redeposit(&program.statements, costs) {
        return Err(CostError::Unimplemented(i));
    }
    let mut ws: Vec<Vec<i64>> = Vec::new();
    let mut k: usize = 0;
    while k < tokens.len()
        invariant
            k <= tokens@.len() == bases@.len(),
            program_well_formed(program.statements@, costs@),
            forall|x: int|
                0 <= x < program.statements@.len() ==> !has_redeposit(program.statements@, costs@, x),
            forall|x: int| 0 <= x < tokens@.len() ==> bases_fit(program.statements@, #[trigger] bases@[x]@),
            k > 0 ==> has_ranking(program.statements@, costs@),
            ws@.len() == k,
            forall|x: int|
                0 <= x < k ==> wallets_valid(
                    program.statements@,
                    costs@,
                    bases@[x]@,
                    floor,
                    (#[trigger] ws@[x])@,
                ),
        decreases tokens@.len() - k,
    {
        let w = match compute_wallets(&program.statements, costs, &bases[k], floor) {
            Ok(w) => {
                proof {
                    lemma_valid_wallets_ranked(program.statements@, costs@, bases@[k as int]@, floor, w@);
                }
                w
            },
            Err(e) => {
                proof {
                    if e == CostError::Overflow {
                        assert forall|cand: Seq<Seq<i64>>|
                            cand.len() == tokens@.len() && (forall|x: int|
                                0 <= x < tokens@.len() ==> solves(
                                    program.statements@,
                                    costs@,
                                    bases@[x]@,
                                    floor,
                                    #[trigger] cand[x],
                                )) implies !((forall|x: int|
                            0 <= x < tokens@.len() ==> reqs_fit(
                                program.statements@,
                                costs@,
                                bases@[x]@,
                                #[trigger] cand[x],
                            )) && outputs_fit(
                            program.statements@,
                            costs@,
                            tokens@,
                            bases_view(bases@),
                            cand,
                        )) by {
                            assert(solves(program.statements@, costs@, bases@[k as int]@, floor, cand[k as int]));
                            assert(!reqs_fit(program.statements@, costs@, bases@[k as int]@, cand[k as int]));
                        }
                    }
                }
                return Err(e);
            },
        };
        ws.push(w);
        k = k + 1;
    }
    let ghost wv = wallets_view(ws@);
    assert forall|x: int| 0 <= x < tokens@.len() implies (#[trigger] ws@[x])@.len()
        == program.statements@.len() by {
        assert(wallets_valid(program.statements@, costs@, bases@[x]@, floor, ws@[x]@));
    }
    assert(forall|x: int| 0 <= x < tokens@.len() ==> wv[x] == ws@[x]@);
    let info = match gas_info_from_wallets(program, costs, tokens, bases, &ws) {
        Ok(info) => info,
        Err(e) => {
            proof {
                if e == CostError::Overflow {
                    assert forall|cand: Seq<Seq<i64>>|
                        cand.len() == tokens@.len() && (forall|x: int|
                            0 <= x < tokens@.len() ==> solves(
                                program.statements@,
                                costs@,
                                bases@[x]@,
                                floor,
                                #[trigger] cand[x],
                            )) implies !((forall|x: int|
                        0 <= x < tokens@.len() ==> reqs_fit(
                            program.statements@,
                            costs@,
                            bases@[x]@,
                            #[trigger] cand[x],
                        )) && outputs_fit(
                        program.statements@,
                        costs@,
                        tokens@,
                        bases_view(bases@),
                        cand,
                    )) by {
                        assert forall|x: int| 0 <= x < tokens@.len() implies cand[x] == wv[x] by {
                            assert(solves(program.statements@, costs@, bases@[x]@, floor, cand[x]));
                            assert(wallets_valid(program.statements@, costs@, bases@[x]@, floor, ws@[x]@));
                            lemma_valid_wallets_only_solution(
                                program.statements@,
                                costs@,
                                bases@[x]@,
                                floor,
                                ws@[x]@,
                                cand[x],
                            );
                        }
                        assert(cand =~= wv);
                    }
                }
            }
            return Err(e);
        },
    };
    Ok(info)
}

/// Whether branch costs of the invocation at `i` include a redeposit.
pub open spec fn has_redeposit(stmts: Seq<Statement>, costs: Seq<Vec<BranchCost>>, i: int) -> bool {
    exists|j: int|
        0 <= j < branch_count(stmts, i) && #[trigger] cost_at(stmts, costs, i, j)
            is RedepositGas
}

/// Finds the first statement that may take a redeposit branch.
fn find_redeposit(stmts: &Vec<Statement>, costs: &Vec<Vec<BranchCost>>) -> (r: Option<usize>)
    requires
        program_well_formed(stmts@, costs@),
    ensures
        match r {
            Some(i) => i < stmts@.len() && has_redeposit(stmts@, costs@, i as int) && forall|x: int|
                0 <= x < i ==> !has_redeposit(stmts@, costs@, x),
            None => forall|x: int| 0 <= x < stmts@.len() ==> !has_redeposit(stmts@, costs@, x),
        },
{
    let mut i: usize = 0;
    while i < stmts.len()
        invariant
            i <= stmts@.len(),
            program_well_formed(stmts@, costs@),
            forall|x: int| 0 <= x < i ==> !has_redeposit(stmts@, costs@, x),
        decreases stmts@.len() - i,
    {
        if let Statement::Invocation(inv) = &stmts[i] {
            assert(stmts@[i as int] is Invocation);
            let bcs = &costs[inv.libfunc_id];
            let mut j: usize = 0;
            while j < bcs.len()
                invariant
                    j <= bcs@.len() == inv.branches@.len(),
                    i < stmts@.len(),
                    forall|x: int| 0 <= x < i ==> !has_redeposit(stmts@, costs@, x),
                    stmts@[i as int] == Statement::Invocation(*inv),
                    *bcs == costs@[inv.libfunc_id as int],
                    forall|y: int| 0 <= y < j ==> !(cost_at(stmts@, costs@, i as int, y) is RedepositGas),
                decreases bcs@.len() - j,
            {
                if let BranchCost::RedepositGas = bcs[j] {
                    assert(cost_at(stmts@, costs@, i as int, j as int) is RedepositGas);
                    return Some(i);
                }
                j = j + 1;
            }
            assert(!has_redeposit(stmts@, costs@, i as int));
        }
        i = i + 1;
    }
    None
}

/// The base cost of a branch before the layout is known, in token `token`: what a regular
/// branch states for it, and nothing for any other branch.
pub open spec fn spec_pre_base(bc: BranchCost, token: CostTokenType) -> int {
    match bc {
        BranchCost::Regular { pre_cost, .. } => spec_pre_cost_of(pre_cost, token) as int,
        _ => 0,
    }
}

/// The resolved base cost of a branch at a statement whose `ap` change is `ap`: its constant
/// cost, and for an alignment nothing without an `ap` change, else one step and a hole per
/// unit of change.
pub open spec fn spec_post_base(bc: BranchCost, ap: int) -> int {
    match bc {
        BranchCost::Regular { const_cost, .. } => spec_const_cost(const_cost),
        BranchCost::BranchAlign => if ap == 0 { 0 } else { 100 + 10 * ap },
        BranchCost::FunctionCall { const_cost, .. } => spec_const_cost(const_cost),
        BranchCost::WithdrawGas { const_cost, .. } => spec_const_cost(const_cost),
        BranchCost::RedepositGas => 0,
    }
}

/// A cost model: the tokens it keeps costs in, the base cost of each branch, and whether
/// wallets are held at zero or more.
pub trait SpecificCostContextTrait {
    spec fn spec_tokens(&self) -> Seq<CostTokenType>;

    spec fn spec_floor(&self) -> bool;

    /// The base cost, in `token`, of a branch of the invocation at statement `idx`.
    spec fn spec_base(&self, bc: BranchCost, token: CostTokenType, idx: int) -> int;

    /// The model has what it needs for a program of `n` statements.
    spec fn fits(&self, n: int) -> bool;

    fn tokens(&self) -> (r: Vec<CostTokenType>)
        ensures
            r@ == self.spec_tokens(),
    ;

    fn floor(&self) -> (r: bool)
        ensures
            r == self.spec_floor(),
    ;

    fn branch_base(&self, bc: BranchCost, token: CostTokenType, idx: usize, n: usize) -> (r:
        Result<i64, CostError>)
        requires
            self.fits(n as int),
            idx < n,
        ensures
            match r {
                Ok(v) => !(bc is RedepositGas) && v == self.spec_base(bc, token, idx as int),
                Err(e) => if bc is RedepositGas {
                    e == CostError::Unimplemented(idx)
                } else {
                    e == CostError::Overflow && !in_i64(self.spec_base(bc, token, idx as int))
                },
            },
    ;
}

/// The model before the layout is known: the built-in tokens, with component-wise sums and
/// maxima.
pub struct PreCostContext {}

impl SpecificCostContextTrait for PreCostContext {
    open spec fn spec_tokens(&self) -> Seq<CostTokenType> {
        seq![CostTokenType::Pedersen, CostTokenType::Bitwise, CostTokenType::EcOp]
    }

    open spec fn spec_floor(&self) -> bool {
        false
    }

    open spec fn spec_base(&self, bc: BranchCost, token: CostTokenType, idx: int) -> int {
        spec_pre_base(bc, token)
    }

    open spec fn fits(&self, n: int) -> bool {
        true
    }

    fn tokens(&self) -> (r: Vec<CostTokenType>) {
        let r = vec![CostTokenType::Pedersen, CostTokenType::Bitwise, CostTokenType::EcOp];
        assert(r@ =~= self.spec_tokens());
        r
    }

    fn floor(&self) -> (r: bool) {
        false
    }

    fn branch_base(&self, bc: BranchCost, token: CostTokenType, idx: usize, n: usize) -> (r:
        Result<i64, CostError>) {
        match bc {
            BranchCost::Regular { pre_cost, .. } => Ok(pre_cost.get(token)),
            BranchCost::RedepositGas => Err(CostError::Unimplemented(idx)),
            _ => Ok(0),
        }
    }
}

/// The resolved model, once the layout is known: one number, in the `Const` token, where
/// `ap_changes[i]` is the change of `ap` that the alignment at statement `i` makes up for.
pub struct PostcostContext {
    pub ap_changes: Vec<usize>,
}

impl SpecificCostContextTrait for PostcostContext {
    open spec fn spec_tokens(&self) -> Seq<CostTokenType> {
        seq![CostTokenType::Const]
    }

    open spec fn spec_floor(&self) -> bool {
        false
    }

    open spec fn spec_base(&self, bc: BranchCost, token: CostTokenType, idx: int) -> int {
        spec_post_base(bc, self.ap_changes@[idx] as int)
    }

    open spec fn fits(&self, n: int) -> bool {
        self.ap_changes@.len() == n
    }

    fn tokens(&self) -> (r: Vec<CostTokenType>) {
        let r = vec![CostTokenType::Const];
        assert(r@ =~= self.spec_tokens());
        r
    }

    fn floor(&self) -> (r: bool) {
        false
    }

    fn branch_base(&self, bc: BranchCost, token: CostTokenType, idx: usize, n: usize) -> (r:
        Result<i64, CostError>) {
        match bc {
            BranchCost::Regular { const_cost, .. } => Ok(const_cost.cost()),
            BranchCost::BranchAlign => {
                let ap = self.ap_changes[idx];
                if ap == 0 {
                    Ok(0)
                } else if ap as u64 > 922_337_203_685_477_570u64 {
                    Err(CostError::Overflow)
                } else {
                    Ok(100 + 10 * (ap as i64))
                }
            },
            BranchCost::FunctionCall { const_cost, .. } => Ok(const_cost.cost()),
            BranchCost::WithdrawGas { const_cost, .. } => Ok(const_cost.cost()),
            BranchCost::RedepositGas => Err(CostError::Unimplemented(idx)),
        }
    }
}

/// `base` holds the base cost of every branch under the model, in `token`.
pub open spec fn bases_match<C: SpecificCostContextTrait>(
    ctx: C,
    stmts: Seq<Statement>,
    costs: Seq<Vec<BranchCost>>,
    base: Seq<Vec<i64>>,
    token: CostTokenType,
) -> bool {
    &&& bases_fit(stmts, base)
    &&& forall|i: int, j: int|
        0 <= i < stmts.len() && 0 <= j < branch_count(stmts, i) ==> #[trigger] base[i]@[j]
            == ctx.spec_base(cost_at(stmts, costs, i, j), token, i)
}

/// Builds the base cost table of a model in one token.
fn build_bases<C: SpecificCostContextTrait>(
    stmts: &Vec<Statement>,
    costs: &Vec<Vec<BranchCost>>,
    ctx: &C,
    token: CostTokenType,
) -> (r: Result<Vec<Vec<i64>>, CostError>)
    requires
        program_well_formed(stmts@, costs@),
        ctx.fits(stmts@.len() as int),
        forall|x: int| 0 <= x < stmts@.len() ==> !has_redeposit(stmts@, costs@, x),
    ensures
        r matches Ok(b) ==> bases_match(*ctx, stmts@, costs@, b@, token),
        r matches Err(e) ==> e == CostError::Overflow && exists|i: int, j: int|
            0 <= i < stmts@.len() && 0 <= j < branch_count(stmts@, i) && !in_i64(
                ctx.spec_base(#[trigger] cost_at(stmts@, costs@, i, j), token, i),
            ),
{
    let n = stmts.len();
    let mut base: Vec<Vec<i64>> = Vec::new();
    let mut i: usize = 0;
    while i < n
        invariant
            i <= n == stmts@.len(),
            program_well_formed(stmts@, costs@),
            ctx.fits(n as int),
            forall|x: int| 0 <= x < stmts@.len() ==> !has_redeposit(stmts@, costs@, x),
            base@.len() == i,
            forall|x: int| 0 <= x < i ==> #[trigger] base@[x].len() == branch_count(stmts@, x),
            forall|x: int, j: int|
                0 <= x < i && 0 <= j < branch_count(stmts@, x) ==> #[trigger] base@[x]@[j]
                    == ctx.spec_base(cost_at(stmts@, costs@, x, j), token, x),
        decreases n - i,
    {
        let mut row: Vec<i64> = Vec::new();
        if let Statement::Invocation(inv) = &stmts[i] {
            assert(stmts@[i as int] is Invocation);
            let bcs = &costs[inv.libfunc_id];
            let mut j: usize = 0;
            while j < bcs.len()
                invariant
                    j <= bcs@.len() == inv.branches@.len(),
                    i < n == stmts@.len(),
                    ctx.fits(n as int),
                    !has_redeposit(stmts@, costs@, i as int),
                    stmts@[i as int] == Statement::Invocation(*inv),
                    *bcs == costs@[inv.libfunc_id as int],
                    row@.len() == j,
                    forall|y: int| 0 <= y < j ==> #[trigger] row@[y] == ctx.spec_base(
                        cost_at(stmts@, costs@, i as int, y),
                        token,
                        i as int,
                    ),
                decreases bcs@.len() - j,
            {
                assert(bcs@[j as int] == cost_at(stmts@, costs@, i as int, j as int));
                let v = match ctx.branch_base(bcs[j], token, i, n) {
                    Ok(v) => v,
                    Err(e) => {
                        proof {
                            assert(!(cost_at(stmts@, costs@, i as int, j as int) is RedepositGas));
                        }
                        return Err(e);
                    },
                };
                row.push(v);
                j = j + 1;
            }
        }
        base.push(row);
        i = i + 1;
    }
    Ok(base)
}

/// `info` is the outcome of the model: each token's base costs follow the model, its
/// wallets are the valid ones for those, and `info` is what those wallets give.
pub open spec fn model_costs<C: SpecificCostContextTrait>(
    ctx: C,
    program: Program,
    costs: Seq<Vec<BranchCost>>,
    info: GasInfo,
) -> bool {
    let stmts = program.statements@;
    let tokens = ctx.spec_tokens();
    exists|bases: Seq<Seq<Vec<i64>>>, ws: Seq<Seq<i64>>|
        bases.len() == tokens.len() && ws.len() == tokens.len() && (forall|k: int|
            0 <= k < tokens.len() ==> bases_match(ctx, stmts, costs, #[trigger] bases[k], tokens[k])
                && wallets_valid(stmts, costs, bases[k], ctx.spec_floor(), ws[k])) && gas_info_of(
            program,
            costs,
            tokens,
            bases,
            ws,
            info,
        )
}

/// Under the model some base cost does not fit in 64 bits, or with the model's base costs no
/// wallets that obey the rule keep every requirement and adjustment in 64 bits.
pub open spec fn model_overflow<C: SpecificCostContextTrait>(
    ctx: C,
    program: Program,
    costs: Seq<Vec<BranchCost>>,
) -> bool {
    let stmts = program.statements@;
    let tokens = ctx.spec_tokens();
    let floor = ctx.spec_floor();
    ||| exists|k: int, i: int, j: int|
        0 <= k < tokens.len() && 0 <= i < stmts.len() && 0 <= j < branch_count(stmts, i)
            && !in_i64(#[trigger] ctx.spec_base(cost_at(stmts, costs, i, j), tokens[k], i))
    ||| exists|bases: Seq<Seq<Vec<i64>>>|
        bases.len() == tokens.len() && (forall|k: int|
            0 <= k < tokens.len() ==> bases_match(ctx, stmts, costs, #[trigger] bases[k], tokens[k]))
            && no_fitting_wallets(stmts, costs, tokens, bases, floor)
}

/// No wallets that obey the rule under base costs `bases` keep every requirement and
/// adjustment in 64 bits.
pub open spec fn no_fitting_wallets(
    stmts: Seq<Statement>,
    costs: Seq<Vec<BranchCost>>,
    tokens: Seq<CostTokenType>,
    bases: Seq<Seq<Vec<i64>>>,
    floor: bool,
) -> bool {
    forall|ws: Seq<Seq<i64>>|
        ws.len() == tokens.len() && (forall|k: int|
            0 <= k < tokens.len() ==> solves(stmts, costs, bases[k], floor, #[trigger] ws[k]))
            ==> !((forall|k: int|
            0 <= k < tokens.len() ==> reqs_fit(stmts, costs, bases[k], #[trigger] ws[k]))
            && outputs_fit(stmts, costs, tokens, bases, ws))
}

/// Under the model, the first adjustment that repeats an earlier key is for statement `s`.
pub open spec fn model_duplicate<C: SpecificCostContextTrait>(
    ctx: C,
    program: Program,
    costs: Seq<Vec<BranchCost>>,
    s: int,
) -> bool {
    let stmts = program.statements@;
    let tokens = ctx.spec_tokens();
    exists|bases: Seq<Seq<Vec<i64>>>, ws: Seq<Seq<i64>>|
        bases.len() == tokens.len() && ws.len() == tokens.len() && (forall|k: int|
            0 <= k < tokens.len() ==> bases_match(ctx, stmts, costs, #[trigger] bases[k], tokens[k])
                && wallets_valid(stmts, costs, bases[k], ctx.spec_floor(), ws[k])) && duplicate_at(
            entries_upto(stmts, costs, tokens, bases, ws, stmts.len() as int),
            s,
        )
}

/// What the outcome of a cost computation says: the first statement that may take a
/// redeposit branch fails the computation; otherwise a success is the model's outcome.
pub open spec fn cost_result_valid<C: SpecificCostContextTrait>(
    ctx: C,
    program: Program,
    costs: Seq<Vec<BranchCost>>,
    r: Result<GasInfo, CostError>,
) -> bool {
    let stmts = program.statements@;
    &&& ((forall|x: int| 0 <= x < stmts.len() ==> !has_redeposit(stmts, costs, x)) && !has_ranking(
        stmts,
        costs,
    ) ==> r matches Err(CostError::Cycle(_)))
    &&& match r {
        Err(CostError::Unimplemented(i)) => i < stmts.len() && has_redeposit(stmts, costs, i as int)
            && forall|x: int| 0 <= x < i ==> !has_redeposit(stmts, costs, x),
        Err(CostError::Cycle(c)) => (forall|x: int|
            0 <= x < stmts.len() ==> !has_redeposit(stmts, costs, x)) && !has_ranking(stmts, costs)
            && c < stmts.len() && on_cycle(stmts, costs, c as int),
        Err(CostError::DuplicateVariable(s)) => (forall|x: int|
            0 <= x < stmts.len() ==> !has_redeposit(stmts, costs, x)) && model_duplicate(
            ctx,
            program,
            costs,
            s as int,
        ),
        Err(CostError::Overflow) => (forall|x: int|
            0 <= x < stmts.len() ==> !has_redeposit(stmts, costs, x)) && model_overflow(
            ctx,
            program,
            costs,
        ),
        Err(_) => false,
        Ok(info) => (forall|x: int| 0 <= x < stmts.len() ==> !has_redeposit(stmts, costs, x))
            && model_costs(ctx, program, costs, info),
    }
}

/// Computes the costs of a program under a model.
pub fn compute_model_costs<C: SpecificCostContextTrait>(
    program: &Program,
    costs: &Vec<Vec<BranchCost>>,
    ctx: &C,
) -> (r: Result<GasInfo, CostError>)
    requires
        program_well_formed(program.statements@, costs@),
        funcs_well_formed(*program),
        ctx.fits(program.statements@.len() as int),
    ensures
        cost_result_valid(*ctx, *program, costs@, r),
{
    if let Some(i) = find_redeposit(&program.statements, costs) {
        return Err(CostError::Unimplemented(i));
    }
    // Whether the wallets depend on themselves is decided before any cost is summed.
    let zero = zero_bases(&program.statements, costs);
    match compute_wallets(&program.statements, costs, &zero, false) {
        Ok(w) => {
            proof {
                lemma_valid_wallets_ranked(program.statements@, costs@, zero@, false, w@);
            }
        },
        Err(e) => {
            proof {
                let z = Seq::new(program.statements@.len(), |i: int| 0i64);
                lemma_zero_solution(program.statements@, costs@, zero@, z);
            }
            return Err(e);
        },
    }
    let tokens = ctx.tokens();
    let floor = ctx.floor();
    let mut bases: Vec<Vec<Vec<i64>>> = Vec::new();
    let mut k: usize = 0;
    while k < tokens.len()
        invariant
            k <= tokens@.len(),
            tokens@ == ctx.spec_tokens(),
            floor == ctx.spec_floor(),
            has_ranking(program.statements@, costs@),
            program_well_formed(program.statements@, costs@),
            ctx.fits(program.statements@.len() as int),
            forall|x: int|
                0 <= x < program.statements@.len() ==> !has_redeposit(program.statements@, costs@, x),
            bases@.len() == k,
            forall|x: int|
                0 <= x < k ==> bases_match(
                    *ctx,
                    program.statements@,
                    costs@,
                    (#[trigger] bases@[x])@,
                    tokens@[x],
                ),
        decreases tokens@.len() - k,
    {
        let b = match build_bases(&program.statements, costs, ctx, tokens[k]) {
            Ok(b) => b,
            Err(e) => {
                proof {
                    let (i, j) = choose|i: int, j: int|
                        0 <= i < program.statements@.len() && 0 <= j < branch_count(
                            program.statements@,
                            i,
                        ) && !in_i64(
                            ctx.spec_base(
                                #[trigger] cost_at(program.statements@, costs@, i, j),
                                tokens@[k as int],
                                i,
                            ),
                        );
                    assert(!in_i64(
                        ctx.spec_base(
                            cost_at(program.statements@, costs@, i, j),
                            ctx.spec_tokens()[k as int],
                            i,
                        ),
                    ));
                    assert(model_overflow(*ctx, *program, costs@));
                }
                return Err(e);
            },
        };
        bases.push(b);
        k = k + 1;
    }
    let info = match compute_costs(program, costs, &tokens, &bases, floor) {
        Ok(info) => info,
        Err(e) => {
            proof {
                let bv = bases_view(bases@);
                assert(forall|x: int| 0 <= x < tokens@.len() ==> bv[x] == bases@[x]@);
                if e == CostError::Overflow {
                    assert(no_fitting_wallets(program.statements@, costs@, tokens@, bv, floor)) by {
                    assert forall|ws: Seq<Seq<i64>>|
                        ws.len() == tokens@.len() && (forall|k: int|
                            0 <= k < tokens@.len() ==> solves(
                                program.statements@,
                                costs@,
                                bv[k],
                                floor,
                                #[trigger] ws[k],
                            )) implies !((forall|k: int|
                        0 <= k < tokens@.len() ==> reqs_fit(
                            program.statements@,
                            costs@,
                            bv[k],
                            #[trigger] ws[k],
                        )) && outputs_fit(program.statements@, costs@, tokens@, bv, ws)) by {
                        assert(forall|k: int|
                            0 <= k < tokens@.len() ==> solves(
                                program.statements@,
                                costs@,
                                bases@[k]@,
                                floor,
                                #[trigger] ws[k],
                            ));
                        if forall|k: int|
                            0 <= k < tokens@.len() ==> reqs_fit(
                                program.statements@,
                                costs@,
                                bv[k],
                                #[trigger] ws[k],
                            ) {
                            assert(forall|k: int|
                                0 <= k < tokens@.len() ==> reqs_fit(
                                    program.statements@,
                                    costs@,
                                    bases@[k]@,
                                    #[trigger] ws[k],
                                ));
                        }
                    }
                    }
                    assert(forall|x: int|
                        0 <= x < tokens@.len() ==> bases_match(
                            *ctx,
                            program.statements@,
                            costs@,
                            #[trigger] bv[x],
                            tokens@[x],
                        ));
                    assert(tokens@ == ctx.spec_tokens());
                    assert(floor == ctx.spec_floor());
                    assert(bv.len() == ctx.spec_tokens().len());
                    assert(no_fitting_wallets(
                        program.statements@,
                        costs@,
                        ctx.spec_tokens(),
                        bv,
                        ctx.spec_floor(),
                    ));
                    assert(model_overflow(*ctx, *program, costs@));
                }
                if let CostError::DuplicateVariable(s) = e {
                    let ws = choose|ws: Seq<Seq<i64>>|
                        ws.len() == tokens@.len() && (forall|k: int|
                            0 <= k < tokens@.len() ==> wallets_valid(
                                program.statements@,
                                costs@,
                                bases@[k]@,
                                floor,
                                #[trigger] ws[k],
                            )) && duplicate_at(
                            entries_upto(
                                program.statements@,
                                costs@,
                                tokens@,
                                bases_view(bases@),
                                ws,
                                program.statements@.len() as int,
                            ),
                            s as int,
                        );
                    let bv = bases_view(bases@);
                    assert(forall|x: int| 0 <= x < tokens@.len() ==> bv[x] == bases@[x]@);
                    assert(model_duplicate(*ctx, *program, costs@, s as int));
                }
            }
            return Err(e);
        },
    };
    proof {
        let ws = choose|ws: Seq<Seq<i64>>|
            ws.len() == tokens@.len() && (forall|k: int|
                0 <= k < tokens@.len() ==> wallets_valid(
                    program.statements@,
                    costs@,
                    bases@[k]@,
                    floor,
                    #[trigger] ws[k],
                )) && gas_info_of(*program, costs@, tokens@, bases_view(bases@), ws, info);
        let bv = bases_view(bases@);
        assert(forall|x: int| 0 <= x < tokens@.len() ==> bv[x] == bases@[x]@);
        assert(model_costs(*ctx, *program, costs@, info));
    }
    Ok(info)
}

/// Computes the costs before the layout of the code is known.
pub fn compute_precost_info(program: &Program, costs: &Vec<Vec<BranchCost>>) -> (r: Result<
    GasInfo,
    CostError,
>)
    requires
        program_well_formed(program.statements@, costs@),
        funcs_well_formed(*program),
    ensures
        cost_result_valid(PreCostContext {  }, *program, costs@, r),
{
    compute_model_costs(program, costs, &PreCostContext {  })
}

/// Computes the resolved costs once the layout is known, where `ap_changes[i]` is the
/// change of `ap` that the alignment at statement `i` makes up for.
pub fn compute_postcost_info(
    program: &Program,
    costs: &Vec<Vec<BranchCost>>,
    ap_changes: Vec<usize>,
) -> (r: Result<GasInfo, CostError>)
    requires
        program_well_formed(program.statements@, costs@),
        funcs_well_formed(*program),
        ap_changes@.len() == program.statements@.len(),
    ensures
        cost_result_valid(PostcostContext { ap_changes }, *program, costs@, r),
{
    let ctx = PostcostContext { ap_changes };
    compute_model_costs(program, costs, &ctx)
}

/// The outcome of a cost computation is determined by its inputs: any two outcomes computed
/// from valid wallets of the same program, cost table and base costs are equal.
pub proof fn lemma_gas_info_deterministic(
    program: Program,
    costs: Seq<Vec<BranchCost>>,
    tokens: Seq<CostTokenType>,
    bases: Seq<Seq<Vec<i64>>>,
    floor: bool,
    ws1: Seq<Seq<i64>>,
    ws2: Seq<Seq<i64>>,
    info1: GasInfo,
    info2: GasInfo,
)
    requires
        program_well_formed(program.statements@, costs),
        ws1.len() == tokens.len(),
        ws2.len() == tokens.len(),
        forall|k: int|
            0 <= k < tokens.len() ==> wallets_valid(program.statements@, costs, bases[k], floor, #[trigger] ws1[k]),
        forall|k: int|
            0 <= k < tokens.len() ==> wallets_valid(program.statements@, costs, bases[k], floor, #[trigger] ws2[k]),
        gas_info_of(program, costs, tokens, bases, ws1, info1),
        gas_info_of(program, costs, tokens, bases, ws2, info2),
    ensures
        entries_view(info1.variable_values@) == entries_view(info2.variable_values@),
        info1.function_costs@.len() == info2.function_costs@.len(),
        forall|f: int|
            0 <= f < info1.function_costs@.len() ==> (#[trigger] info1.function_costs@[f]).function
                == info2.function_costs@[f].function && token_costs_view(
                info1.function_costs@[f].costs@,
            ) == token_costs_view(info2.function_costs@[f].costs@),
{
    assert forall|k: int| 0 <= k < tokens.len() implies ws1[k] == ws2[k] by {
        lemma_wallets_unique(program.statements@, costs, bases[k], floor, ws1[k], ws2[k]);
    }
    assert(ws1 =~= ws2);
}

/// After a successful withdrawal at most one of the two adjustments is nonzero: the
/// statement either withdraws before itself or gives back after itself.
pub proof fn lemma_withdrawal_one_sided(
    stmts: Seq<Statement>,
    costs: Seq<Vec<BranchCost>>,
    tokens: Seq<CostTokenType>,
    bases: Seq<Seq<Vec<i64>>>,
    ws: Seq<Seq<i64>>,
    i: int,
    j: int,
    k: int,
)
    requires
        is_withdraw_success(cost_at(stmts, costs, i, j)),
    ensures
        token_entries(stmts, costs, tokens, bases, ws, i, j, k).len() == 2,
        token_entries(stmts, costs, tokens, bases, ws, i, j, k)[0].2 == 0 || token_entries(
            stmts,
            costs,
            tokens,
            bases,
            ws,
            i,
            j,
            k,
        )[1].2 == 0,
{
}

} // verus!
