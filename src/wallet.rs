use vstd::prelude::*;

use crate::cost_type::{seq_max, CostTypeTrait};
use crate::program::{BranchCost, BranchTarget, Invocation, Statement};

verus! {

/// Why the costs of a program could not be computed.
#[derive(Clone, Copy, Debug, PartialEq, Eq)]
pub enum CostError {
    /// The wallet at this statement depends on itself.
    Cycle(usize),
    /// A branch of the invocation at this statement has a cost kind that is not supported.
    Unimplemented(usize),
    /// A cost does not fit in 64 bits.
    Overflow,
    /// Two adjustments were computed for one slot of this statement.
    DuplicateVariable(usize),
}

/// Where a computation of a wallet stands.
#[derive(Clone, Copy, Debug, PartialEq, Eq)]
pub enum WalletStatus {
    Unvisited,
    InProgress,
    Done,
}

/// The statement that a branch of the invocation at `i` continues at.
pub open spec fn next_of(i: int, t: BranchTarget) -> int {
    match t {
        BranchTarget::Fallthrough => i + 1,
        BranchTarget::Statement(s) => s as int,
    }
}

pub open spec fn branch_count(stmts: Seq<Statement>, i: int) -> int {
    match stmts[i] {
        Statement::Return => 0,
        Statement::Invocation(inv) => inv.branches.len() as int,
    }
}

pub open spec fn invocation_at(stmts: Seq<Statement>, i: int) -> Invocation {
    stmts[i]->Invocation_0
}

pub open spec fn target_at(stmts: Seq<Statement>, i: int, j: int) -> int {
    next_of(i, invocation_at(stmts, i).branches@[j])
}

/// The cost of branch `j` of the invocation at `i`, as the table of library function costs
/// gives it.
pub open spec fn cost_at(stmts: Seq<Statement>, costs: Seq<Vec<BranchCost>>, i: int, j: int) -> BranchCost {
    costs[invocation_at(stmts, i).libfunc_id as int]@[j]
}

/// Whether the wallet at the branch's target counts towards the branch's requirement: it
/// does except after a successful withdrawal, which pays for what follows itself.
pub open spec fn needs_future(bc: BranchCost) -> bool {
    match bc {
        BranchCost::WithdrawGas { success, .. } => !success,
        _ => true,
    }
}

/// Every library function has a cost per branch, and every target and callee is a statement.
pub open spec fn program_well_formed(stmts: Seq<Statement>, costs: Seq<Vec<BranchCost>>) -> bool {
    forall|i: int|
        0 <= i < stmts.len() && (#[trigger] stmts[i]) is Invocation ==> {
            let inv = stmts[i]->Invocation_0;
            &&& inv.libfunc_id < costs.len()
            &&& costs[inv.libfunc_id as int].len() == inv.branches.len()
            &&& forall|j: int|
                0 <= j < inv.branches.len() ==> 0 <= #[trigger] target_at(stmts, i, j) < stmts.len()
                    && match cost_at(stmts, costs, i, j) {
                    BranchCost::FunctionCall { function_entry, .. } => function_entry
                        < stmts.len(),
                    _ => true,
                }
        }
}

/// The base cost table holds one entry per branch of each statement.
pub open spec fn bases_fit(stmts: Seq<Statement>, base: Seq<Vec<i64>>) -> bool {
    &&& base.len() == stmts.len()
    &&& forall|i: int| 0 <= i < stmts.len() ==> #[trigger] base[i].len() == branch_count(stmts, i)
}

/// What branch `j` of the invocation at `i` needs in the wallet: its base cost, the wallet at
/// the callee's entry for a call, and the wallet at its target unless it withdraws
/// successfully.
pub open spec fn branch_req(
    stmts: Seq<Statement>,
    costs: Seq<Vec<BranchCost>>,
    base: Seq<Vec<i64>>,
    w: Seq<i64>,
    i: int,
    j: int,
) -> int {
    let bc = cost_at(stmts, costs, i, j);
    base[i]@[j] + (match bc {
        BranchCost::FunctionCall { function_entry, .. } => w[function_entry as int] as int,
        _ => 0,
    }) + (if needs_future(bc) {
        w[target_at(stmts, i, j)] as int
    } else {
        0
    })
}

/// The largest requirement among the first `k` branches (`k >= 1`).
pub open spec fn max_req(
    stmts: Seq<Statement>,
    costs: Seq<Vec<BranchCost>>,
    base: Seq<Vec<i64>>,
    w: Seq<i64>,
    i: int,
    k: int,
) -> int
    decreases k,
{
    if k <= 1 {
        branch_req(stmts, costs, base, w, i, 0)
    } else {
        let m = max_req(stmts, costs, base, w, i, k - 1);
        let r = branch_req(stmts, costs, base, w, i, k - 1);
        if m >= r { m } else { r }
    }
}

/// The wallet that statement `i` needs: zero at a return, else the largest branch
/// requirement (zero when there is no branch), and at least zero where `floor` is set.
pub open spec fn wallet_rule(
    stmts: Seq<Statement>,
    costs: Seq<Vec<BranchCost>>,
    base: Seq<Vec<i64>>,
    floor: bool,
    w: Seq<i64>,
    i: int,
) -> int {
    let k = branch_count(stmts, i);
    if k == 0 {
        0
    } else {
        let m = max_req(stmts, costs, base, w, i, k);
        if floor && m < 0 { 0 } else { m }
    }
}

/// The statements that branch `j` of `i` reads the wallet of are ranked below `i`.
pub open spec fn deps_ranked(
    stmts: Seq<Statement>,
    costs: Seq<Vec<BranchCost>>,
    rank: Seq<nat>,
    i: int,
    j: int,
) -> bool {
    let bc = cost_at(stmts, costs, i, j);
    &&& needs_future(bc) ==> rank[target_at(stmts, i, j)] < rank[i]
    &&& match bc {
        BranchCost::FunctionCall { function_entry, .. } => rank[function_entry as int] < rank[i],
        _ => true,
    }
}

/// `w` gives every statement the wallet that the rule asks, and the statements can be ranked
/// so that each one reads only wallets of lower rank.
pub open spec fn wallets_valid(
    stmts: Seq<Statement>,
    costs: Seq<Vec<BranchCost>>,
    base: Seq<Vec<i64>>,
    floor: bool,
    w: Seq<i64>,
) -> bool {
    &&& w.len() == stmts.len()
    &&& exists|rank: Seq<nat>| ranked_solution(stmts, costs, base, floor, w, rank)
}

pub open spec fn ranked_solution(
    stmts: Seq<Statement>,
    costs: Seq<Vec<BranchCost>>,
    base: Seq<Vec<i64>>,
    floor: bool,
    w: Seq<i64>,
    rank: Seq<nat>,
) -> bool {
    &&& rank.len() == stmts.len()
    &&& forall|i: int|
        0 <= i < stmts.len() ==> #[trigger] w[i] == wallet_rule(stmts, costs, base, floor, w, i)
    &&& forall|i: int, j: int|
        0 <= i < stmts.len() && 0 <= j < branch_count(stmts, i) ==> #[trigger] deps_ranked(
            stmts,
            costs,
            rank,
            i,
            j,
        )
}

pub open spec fn in_i64(x: int) -> bool {
    i64::MIN <= x <= i64::MAX
}

/// What a call branch adds for the callee: the wallet at its entry (nothing for other kinds).
pub open spec fn callee_part(
    stmts: Seq<Statement>,
    costs: Seq<Vec<BranchCost>>,
    w: Seq<i64>,
    i: int,
    j: int,
) -> int {
    match cost_at(stmts, costs, i, j) {
        BranchCost::FunctionCall { function_entry, .. } => w[function_entry as int] as int,
        _ => 0,
    }
}

/// The partial sum and the full requirement of branch `j` of `i` fit in 64 bits.
pub open spec fn req_fits_at(
    stmts: Seq<Statement>,
    costs: Seq<Vec<BranchCost>>,
    base: Seq<Vec<i64>>,
    w: Seq<i64>,
    i: int,
    j: int,
) -> bool {
    &&& in_i64(base[i]@[j] + callee_part(stmts, costs, w, i, j))
    &&& in_i64(branch_req(stmts, costs, base, w, i, j))
}

/// Every branch requirement under the wallets `w` fits in 64 bits.
pub open spec fn reqs_fit(
    stmts: Seq<Statement>,
    costs: Seq<Vec<BranchCost>>,
    base: Seq<Vec<i64>>,
    w: Seq<i64>,
) -> bool {
    forall|i: int, j: int|
        0 <= i < stmts.len() && 0 <= j < branch_count(stmts, i) ==> #[trigger] req_fits_at(
            stmts,
            costs,
            base,
            w,
            i,
            j,
        )
}

/// `w` gives every statement the wallet that the rule asks.
pub open spec fn solves(
    stmts: Seq<Statement>,
    costs: Seq<Vec<BranchCost>>,
    base: Seq<Vec<i64>>,
    floor: bool,
    w: Seq<i64>,
) -> bool {
    &&& w.len() == stmts.len()
    &&& forall|i: int|
        0 <= i < stmts.len() ==> #[trigger] w[i] == wallet_rule(stmts, costs, base, floor, w, i)
}

/// The two wallets agree on everything that branches `0..k` of `i` read.
pub open spec fn agree_on_deps(
    stmts: Seq<Statement>,
    costs: Seq<Vec<BranchCost>>,
    w1: Seq<i64>,
    w2: Seq<i64>,
    i: int,
    k: int,
) -> bool {
    forall|j: int|
        0 <= j < k ==> {
            let bc = #[trigger] cost_at(stmts, costs, i, j);
            &&& needs_future(bc) ==> w1[target_at(stmts, i, j)] == w2[target_at(stmts, i, j)]
            &&& match bc {
                BranchCost::FunctionCall { function_entry, .. } => w1[function_entry as int]
                    == w2[function_entry as int],
                _ => true,
            }
        }
}

proof fn lemma_max_req_frame(
    stmts: Seq<Statement>,
    costs: Seq<Vec<BranchCost>>,
    base: Seq<Vec<i64>>,
    w1: Seq<i64>,
    w2: Seq<i64>,
    i: int,
    k: int,
)
    requires
        k >= 1,
        agree_on_deps(stmts, costs, w1, w2, i, k),
    ensures
        max_req(stmts, costs, base, w1, i, k) == max_req(stmts, costs, base, w2, i, k),
    decreases k,
{
    assert(cost_at(stmts, costs, i, k - 1) == cost_at(stmts, costs, i, k - 1));
    assert(cost_at(stmts, costs, i, 0) == cost_at(stmts, costs, i, 0));
    if k > 1 {
        lemma_max_req_frame(stmts, costs, base, w1, w2, i, k - 1);
    }
}

proof fn lemma_seq_max_req(
    stmts: Seq<Statement>,
    costs: Seq<Vec<BranchCost>>,
    base: Seq<Vec<i64>>,
    w: Seq<i64>,
    i: int,
    r: Seq<i64>,
)
    requires
        r.len() >= 1,
        forall|j: int| 0 <= j < r.len() ==> r[j] == #[trigger] branch_req(stmts, costs, base, w, i, j),
    ensures
        seq_max(r) == max_req(stmts, costs, base, w, i, r.len() as int),
    decreases r.len(),
{
    if r.len() > 1 {
        let p = r.drop_last();
        assert forall|j: int| 0 <= j < p.len() implies p[j] == #[trigger] branch_req(
            stmts,
            costs,
            base,
            w,
            i,
            j,
        ) by {
            assert(p[j] == r[j]);
        }
        lemma_seq_max_req(stmts, costs, base, w, i, p);
        assert(r.last() == branch_req(stmts, costs, base, w, i, r.len() - 1));
    } else {
        assert(r[0] == branch_req(stmts, costs, base, w, i, 0));
    }
}

proof fn lemma_rule_frame(
    stmts: Seq<Statement>,
    costs: Seq<Vec<BranchCost>>,
    base: Seq<Vec<i64>>,
    floor: bool,
    w1: Seq<i64>,
    w2: Seq<i64>,
    i: int,
)
    requires
        agree_on_deps(stmts, costs, w1, w2, i, branch_count(stmts, i)),
    ensures
        wallet_rule(stmts, costs, base, floor, w1, i) == wallet_rule(stmts, costs, base, floor, w2, i),
{
    if branch_count(stmts, i) > 0 {
        lemma_max_req_frame(stmts, costs, base, w1, w2, i, branch_count(stmts, i));
    }
}

/// Wallets are determined by the program: two valid wallet assignments of one program,
/// cost table and base cost table are equal.
pub proof fn lemma_wallets_unique(
    stmts: Seq<Statement>,
    costs: Seq<Vec<BranchCost>>,
    base: Seq<Vec<i64>>,
    floor: bool,
    w1: Seq<i64>,
    w2: Seq<i64>,
)
    requires
        program_well_formed(stmts, costs),
        wallets_valid(stmts, costs, base, floor, w1),
        wallets_valid(stmts, costs, base, floor, w2),
    ensures
        w1 == w2,
{
    let rank = choose|rank: Seq<nat>| ranked_solution(stmts, costs, base, floor, w1, rank);
    assert forall|i: int| 0 <= i < stmts.len() implies w1[i] == w2[i] by {
        lemma_agree_below(stmts, costs, base, floor, w1, w2, rank, i);
    }
    assert(w1 =~= w2);
}

/// Valid wallets are the only ones that obey the rule: any wallets that do are equal to them.
pub proof fn lemma_valid_wallets_only_solution(
    stmts: Seq<Statement>,
    costs: Seq<Vec<BranchCost>>,
    base: Seq<Vec<i64>>,
    floor: bool,
    w1: Seq<i64>,
    w2: Seq<i64>,
)
    requires
        program_well_formed(stmts, costs),
        wallets_valid(stmts, costs, base, floor, w1),
        solves(stmts, costs, base, floor, w2),
    ensures
        w1 == w2,
{
    let rank = choose|rank: Seq<nat>| ranked_solution(stmts, costs, base, floor, w1, rank);
    assert forall|i: int| 0 <= i < stmts.len() implies w1[i] == w2[i] by {
        lemma_agree_below(stmts, costs, base, floor, w1, w2, rank, i);
    }
    assert(w1 =~= w2);
}

proof fn lemma_agree_below(
    stmts: Seq<Statement>,
    costs: Seq<Vec<BranchCost>>,
    base: Seq<Vec<i64>>,
    floor: bool,
    w1: Seq<i64>,
    w2: Seq<i64>,
    rank: Seq<nat>,
    i: int,
)
    requires
        program_well_formed(stmts, costs),
        ranked_solution(stmts, costs, base, floor, w1, rank),
        solves(stmts, costs, base, floor, w2),
        w1.len() == stmts.len(),
        w2.len() == stmts.len(),
        0 <= i < stmts.len(),
    ensures
        w1[i] == w2[i],
    decreases rank[i],
{
    let k = branch_count(stmts, i);
    assert forall|j: int| 0 <= j < k implies {
        let bc = #[trigger] cost_at(stmts, costs, i, j);
        &&& needs_future(bc) ==> w1[target_at(stmts, i, j)] == w2[target_at(stmts, i, j)]
        &&& match bc {
            BranchCost::FunctionCall { function_entry, .. } => w1[function_entry as int]
                == w2[function_entry as int],
            _ => true,
        }
    } by {
        assert(deps_ranked(stmts, costs, rank, i, j));
        assert(0 <= target_at(stmts, i, j) < stmts.len());
        let bc = cost_at(stmts, costs, i, j);
        if needs_future(bc) {
            lemma_agree_below(stmts, costs, base, floor, w1, w2, rank, target_at(stmts, i, j));
        }
        if let BranchCost::FunctionCall { function_entry, .. } = bc {
            lemma_agree_below(stmts, costs, base, floor, w1, w2, rank, function_entry as int);
        }
    }
    lemma_rule_frame(stmts, costs, base, floor, w1, w2, i);
    assert(w1[i] == wallet_rule(stmts, costs, base, floor, w1, i));
    assert(w2[i] == wallet_rule(stmts, costs, base, floor, w2, i));
}

/// The wallet computations of one run: a status, a value and a completion rank per statement.
struct WalletTable {
    status: Vec<WalletStatus>,
    values: Vec<i64>,
    rank: Ghost<Seq<nat>>,
    next_rank: Ghost<nat>,
    /// The statements whose computation is in progress, each reading the wallet of the next.
    path: Ghost<Seq<int>>,
}

/// Statement `i` reads the wallet of statement `d`.
pub open spec fn uses(stmts: Seq<Statement>, costs: Seq<Vec<BranchCost>>, i: int, d: int) -> bool {
    exists|j: int|
        0 <= j < branch_count(stmts, i) && #[trigger] reads_at(stmts, costs, i, j, d)
}

/// Branch `j` of statement `i` reads the wallet of statement `d`.
pub open spec fn reads_at(
    stmts: Seq<Statement>,
    costs: Seq<Vec<BranchCost>>,
    i: int,
    j: int,
    d: int,
) -> bool {
    let bc = cost_at(stmts, costs, i, j);
    (needs_future(bc) && target_at(stmts, i, j) == d) || match bc {
        BranchCost::FunctionCall { function_entry, .. } => function_entry == d,
        _ => false,
    }
}

/// The statements can be ranked so that each reads only wallets of lower rank.
pub open spec fn has_ranking(stmts: Seq<Statement>, costs: Seq<Vec<BranchCost>>) -> bool {
    exists|rank: Seq<nat>|
        rank.len() == stmts.len() && forall|i: int, j: int|
            0 <= i < stmts.len() && 0 <= j < branch_count(stmts, i) ==> #[trigger] deps_ranked(
                stmts,
                costs,
                rank,
                i,
                j,
            )
}

/// Each statement on the path reads the wallet of the next.
pub open spec fn path_chain(stmts: Seq<Statement>, costs: Seq<Vec<BranchCost>>, path: Seq<int>) -> bool {
    forall|m: int| 0 <= m < path.len() - 1 ==> uses(stmts, costs, #[trigger] path[m], path[m + 1])
}

proof fn lemma_chain_ranks_decrease(
    stmts: Seq<Statement>,
    costs: Seq<Vec<BranchCost>>,
    rank: Seq<nat>,
    path: Seq<int>,
    a: int,
    b: int,
)
    requires
        rank.len() == stmts.len(),
        forall|i: int, j: int|
            0 <= i < stmts.len() && 0 <= j < branch_count(stmts, i) ==> #[trigger] deps_ranked(
                stmts,
                costs,
                rank,
                i,
                j,
            ),
        path_chain(stmts, costs, path),
        forall|m: int| 0 <= m < path.len() ==> 0 <= #[trigger] path[m] < stmts.len(),
        0 <= a <= b < path.len(),
    ensures
        rank[path[b]] <= rank[path[a]],
    decreases b - a,
{
    if a < b {
        lemma_chain_ranks_decrease(stmts, costs, rank, path, a + 1, b);
        lemma_uses_ranked(stmts, costs, rank, path[a], path[a + 1]);
    }
}

proof fn lemma_uses_ranked(
    stmts: Seq<Statement>,
    costs: Seq<Vec<BranchCost>>,
    rank: Seq<nat>,
    i: int,
    d: int,
)
    requires
        0 <= i < stmts.len(),
        forall|i: int, j: int|
            0 <= i < stmts.len() && 0 <= j < branch_count(stmts, i) ==> #[trigger] deps_ranked(
                stmts,
                costs,
                rank,
                i,
                j,
            ),
        uses(stmts, costs, i, d),
    ensures
        rank[d] < rank[i],
{
    let j = choose|j: int| 0 <= j < branch_count(stmts, i) && #[trigger] reads_at(stmts, costs, i, j, d);
    assert(deps_ranked(stmts, costs, rank, i, j));
}

/// A path of statements that each read the next, whose last one reads the wallet of one on
/// the path, leaves no ranking.
proof fn lemma_cycle_no_ranking(
    stmts: Seq<Statement>,
    costs: Seq<Vec<BranchCost>>,
    path: Seq<int>,
    k: int,
)
    requires
        path_chain(stmts, costs, path),
        forall|m: int| 0 <= m < path.len() ==> 0 <= #[trigger] path[m] < stmts.len(),
        0 <= k < path.len(),
        uses(stmts, costs, path.last(), path[k]),
    ensures
        !has_ranking(stmts, costs),
{
    if has_ranking(stmts, costs) {
        let rank = choose|rank: Seq<nat>|
            rank.len() == stmts.len() && forall|i: int, j: int|
                0 <= i < stmts.len() && 0 <= j < branch_count(stmts, i) ==> #[trigger] deps_ranked(
                    stmts,
                    costs,
                    rank,
                    i,
                    j,
                );
        lemma_chain_ranks_decrease(stmts, costs, rank, path, k, path.len() - 1);
        lemma_uses_ranked(stmts, costs, rank, path.last(), path[k]);
    }
}

/// Valid wallets exist only where a ranking does.
pub proof fn lemma_valid_wallets_ranked(
    stmts: Seq<Statement>,
    costs: Seq<Vec<BranchCost>>,
    base: Seq<Vec<i64>>,
    floor: bool,
    w: Seq<i64>,
)
    requires
        wallets_valid(stmts, costs, base, floor, w),
    ensures
        has_ranking(stmts, costs),
{
    let rank = choose|rank: Seq<nat>| ranked_solution(stmts, costs, base, floor, w, rank);
    assert(rank.len() == stmts.len());
}

/// Statement `c` reads, through a chain of statements each reading the next, its own wallet.
pub open spec fn on_cycle(stmts: Seq<Statement>, costs: Seq<Vec<BranchCost>>, c: int) -> bool {
    exists|p: Seq<int>|
        p.len() >= 1 && p[0] == c && path_chain(stmts, costs, p) && uses(
            stmts,
            costs,
            p.last(),
            c,
        ) && forall|m: int| 0 <= m < p.len() ==> 0 <= #[trigger] p[m] < stmts.len()
}

/// Every in-progress statement is on the path, the path is a chain of statements.
spec fn path_inv(stmts: Seq<Statement>, costs: Seq<Vec<BranchCost>>, t: WalletTable) -> bool {
    &&& path_chain(stmts, costs, t.path@)
    &&& forall|m: int| 0 <= m < t.path@.len() ==> 0 <= #[trigger] t.path@[m] < stmts.len()
    &&& forall|d: int|
        0 <= d < stmts.len() && #[trigger] t.status@[d] == WalletStatus::InProgress ==> exists|m: int|
            0 <= m < t.path@.len() && t.path@[m] == d
}

spec fn unvisited(st: Seq<WalletStatus>) -> nat
    decreases st.len(),
{
    if st.len() == 0 {
        0
    } else {
        unvisited(st.drop_last()) + if st.last() == WalletStatus::Unvisited {
            1nat
        } else {
            0nat
        }
    }
}

proof fn lemma_unvisited_mono(a: Seq<WalletStatus>, b: Seq<WalletStatus>, p: int)
    requires
        a.len() == b.len(),
        forall|d: int| 0 <= d < a.len() && b[d] == WalletStatus::Unvisited ==> a[d]
            == WalletStatus::Unvisited,
    ensures
        unvisited(b) <= unvisited(a),
        0 <= p < a.len() && a[p] == WalletStatus::Unvisited && b[p] != WalletStatus::Unvisited
            ==> unvisited(b) < unvisited(a),
    decreases a.len(),
{
    if a.len() > 0 {
        lemma_unvisited_mono(a.drop_last(), b.drop_last(), p);
    }
}

/// The wallet reads of branch `j` of `d` are of finished statements ranked below `d`.
spec fn deps_done(
    stmts: Seq<Statement>,
    costs: Seq<Vec<BranchCost>>,
    st: Seq<WalletStatus>,
    rank: Seq<nat>,
    d: int,
    j: int,
) -> bool {
    let bc = cost_at(stmts, costs, d, j);
    &&& deps_ranked(stmts, costs, rank, d, j)
    &&& needs_future(bc) ==> st[target_at(stmts, d, j)] == WalletStatus::Done
    &&& match bc {
        BranchCost::FunctionCall { function_entry, .. } => st[function_entry as int]
            == WalletStatus::Done,
        _ => true,
    }
}

spec fn table_inv(
    stmts: Seq<Statement>,
    costs: Seq<Vec<BranchCost>>,
    base: Seq<Vec<i64>>,
    floor: bool,
    t: WalletTable,
) -> bool {
    let n = stmts.len();
    &&& t.status@.len() == n
    &&& t.values@.len() == n
    &&& t.rank@.len() == n
    &&& forall|d: int|
        0 <= d < n && #[trigger] t.status@[d] == WalletStatus::Done ==> t.rank@[d] < t.next_rank@
            && t.values@[d] == wallet_rule(stmts, costs, base, floor, t.values@, d)
    &&& forall|d: int, j: int|
        0 <= d < n && t.status@[d] == WalletStatus::Done && 0 <= j < branch_count(stmts, d)
            ==> #[trigger] deps_done(stmts, costs, t.status@, t.rank@, d, j)
}

/// `b` is a later state of the table `a`: statuses only move forward, and finished
/// statements keep their value and rank.
spec fn keeps(a: WalletTable, b: WalletTable) -> bool {
    &&& a.status@.len() == b.status@.len()
    &&& a.next_rank@ <= b.next_rank@
    &&& forall|d: int|
        0 <= d < a.status@.len() && #[trigger] a.status@[d] == WalletStatus::Done ==> b.status@[d]
            == WalletStatus::Done && b.values@[d] == a.values@[d] && b.rank@[d] == a.rank@[d]
    &&& forall|d: int|
        0 <= d < a.status@.len() && #[trigger] a.status@[d] == WalletStatus::InProgress
            ==> b.status@[d] == WalletStatus::InProgress
    &&& forall|d: int|
        0 <= d < a.status@.len() && #[trigger] b.status@[d] == WalletStatus::Unvisited
            ==> a.status@[d] == WalletStatus::Unvisited
}

/// Adds two costs, failing where the sum does not fit in 64 bits.
pub(crate) fn add_cost(a: i64, b: i64) -> (r: Result<i64, CostError>)
    ensures
        match r {
            Ok(v) => v == a + b,
            Err(e) => e == CostError::Overflow && (a + b > i64::MAX || a + b < i64::MIN),
        },
{
    if (b > 0 && a > i64::MAX - b) || (b < 0 && a < i64::MIN - b) {
        Err(CostError::Overflow)
    } else {
        Ok(a + b)
    }
}

proof fn lemma_keeps_trans(a: WalletTable, b: WalletTable, c: WalletTable)
    requires
        keeps(a, b),
        keeps(b, c),
    ensures
        keeps(a, c),
        unvisited(c.status@) <= unvisited(a.status@),
{
    assert forall|d: int|
        0 <= d < a.status@.len() && #[trigger] c.status@[d] == WalletStatus::Unvisited implies a.status@[d]
        == WalletStatus::Unvisited by {
        assert(b.status@[d] == WalletStatus::Unvisited);
    }
    lemma_unvisited_mono(a.status@, c.status@, 0);
}

/// Subtracts two costs, failing where the difference does not fit in 64 bits.
pub(crate) fn sub_cost(a: i64, b: i64) -> (r: Result<i64, CostError>)
    ensures
        match r {
            Ok(v) => v == a - b,
            Err(e) => e == CostError::Overflow && (a - b > i64::MAX || a - b < i64::MIN),
        },
{
    if (b < 0 && a > i64::MAX + b) || (b > 0 && a < i64::MIN + b) {
        Err(CostError::Overflow)
    } else {
        Ok(a - b)
    }
}

/// Any wallets that obey the rule agree with the finished entries of the table.
proof fn lemma_table_agrees(
    stmts: Seq<Statement>,
    costs: Seq<Vec<BranchCost>>,
    base: Seq<Vec<i64>>,
    floor: bool,
    t: WalletTable,
    w: Seq<i64>,
    d: int,
)
    requires
        program_well_formed(stmts, costs),
        table_inv(stmts, costs, base, floor, t),
        solves(stmts, costs, base, floor, w),
        0 <= d < stmts.len(),
        t.status@[d] == WalletStatus::Done,
    ensures
        w[d] == t.values@[d],
    decreases t.rank@[d],
{
    let k = branch_count(stmts, d);
    assert forall|j: int| 0 <= j < k implies {
        let bc = #[trigger] cost_at(stmts, costs, d, j);
        &&& needs_future(bc) ==> t.values@[target_at(stmts, d, j)] == w[target_at(stmts, d, j)]
        &&& match bc {
            BranchCost::FunctionCall { function_entry, .. } => t.values@[function_entry as int]
                == w[function_entry as int],
            _ => true,
        }
    } by {
        assert(deps_done(stmts, costs, t.status@, t.rank@, d, j));
        assert(0 <= target_at(stmts, d, j) < stmts.len());
        let bc = cost_at(stmts, costs, d, j);
        if needs_future(bc) {
            lemma_table_agrees(stmts, costs, base, floor, t, w, target_at(stmts, d, j));
        }
        if let BranchCost::FunctionCall { function_entry, .. } = bc {
            lemma_table_agrees(stmts, costs, base, floor, t, w, function_entry as int);
        }
    }
    lemma_rule_frame(stmts, costs, base, floor, t.values@, w, d);
    assert(w[d] == wallet_rule(stmts, costs, base, floor, w, d));
}

fn compute_wallet_at(
    stmts: &Vec<Statement>,
    costs: &Vec<Vec<BranchCost>>,
    base: &Vec<Vec<i64>>,
    floor: bool,
    t: &mut WalletTable,
    idx: usize,
) -> (r: Result<i64, CostError>)
    requires
        program_well_formed(stmts@, costs@),
        bases_fit(stmts@, base@),
        idx < stmts@.len(),
        table_inv(stmts@, costs@, base@, floor, *old(t)),
        path_inv(stmts@, costs@, *old(t)),
        old(t).path@.len() > 0 ==> uses(stmts@, costs@, old(t).path@.last(), idx as int),
    ensures
        table_inv(stmts@, costs@, base@, floor, *final(t)),
        keeps(*old(t), *final(t)),
        r matches Ok(v) ==> final(t).status@[idx as int] == WalletStatus::Done
            && final(t).values@[idx as int] == v,
        r is Ok ==> final(t).path@ == old(t).path@ && path_inv(stmts@, costs@, *final(t)),
        r matches Err(e) ==> !(e is Unimplemented) && !(e is DuplicateVariable),
        r matches Err(CostError::Cycle(_)) ==> !has_ranking(stmts@, costs@),
        r matches Err(CostError::Cycle(c)) ==> c < stmts@.len() && on_cycle(stmts@, costs@, c as int),
        r matches Err(CostError::Overflow) ==> forall|w: Seq<i64>|
            solves(stmts@, costs@, base@, floor, w) ==> !reqs_fit(stmts@, costs@, base@, w),
        old(t).status@[idx as int] == WalletStatus::InProgress ==> r == Err::<i64, CostError>(
            CostError::Cycle(idx),
        ),
        old(t).status@[idx as int] == WalletStatus::Done ==> r == Ok::<i64, CostError>(
            old(t).values@[idx as int],
        ) && *final(t) == *old(t),
    decreases unvisited(old(t).status@),
{
    match t.status[idx] {
        WalletStatus::InProgress => {
            proof {
                let m = choose|m: int| 0 <= m < t.path@.len() && t.path@[m] == idx;
                lemma_cycle_no_ranking(stmts@, costs@, t.path@, m);
                let q = t.path@.subrange(m, t.path@.len() as int);
                assert forall|x: int| 0 <= x < q.len() - 1 implies uses(
                    stmts@,
                    costs@,
                    #[trigger] q[x],
                    q[x + 1],
                ) by {
                    assert(q[x] == t.path@[m + x]);
                    assert(q[x + 1] == t.path@[m + x + 1]);
                }
                assert(q.last() == t.path@.last());
                assert(forall|x: int| 0 <= x < q.len() ==> q[x] == t.path@[m + x]);
                assert(path_chain(stmts@, costs@, q));
                assert(uses(stmts@, costs@, q.last(), idx as int));
                assert(forall|x: int| 0 <= x < q.len() ==> 0 <= #[trigger] q[x] < stmts@.len());
                assert(q[0] == idx);
                assert(on_cycle(stmts@, costs@, idx as int));
            }
            return Err(CostError::Cycle(idx));
        },
        WalletStatus::Done => {
            return Ok(t.values[idx]);
        },
        WalletStatus::Unvisited => {},
    }
    let ghost t_entry = *t;
    t.status.set(idx, WalletStatus::InProgress);
    t.path = Ghost(t.path@.push(idx as int));
    proof {
        lemma_unvisited_mono(t_entry.status@, t.status@, idx as int);
        assert forall|d: int|
            0 <= d < stmts@.len() && #[trigger] t.status@[d] == WalletStatus::InProgress implies exists|m: int|
            0 <= m < t.path@.len() && t.path@[m] == d by {
            if d == idx {
                assert(t.path@[t.path@.len() - 1] == d);
            } else {
                let m = choose|m: int| 0 <= m < t_entry.path@.len() && t_entry.path@[m] == d;
                assert(t.path@[m] == d);
            }
        }
        assert forall|m: int| 0 <= m < t.path@.len() - 1 implies uses(
            stmts@,
            costs@,
            #[trigger] t.path@[m],
            t.path@[m + 1],
        ) by {
            if m < t_entry.path@.len() - 1 {
                assert(uses(stmts@, costs@, t_entry.path@[m], t_entry.path@[m + 1]));
            }
        }
        assert(path_inv(stmts@, costs@, *t));
    }
    let ghost t_marked = *t;
    let n_stmts = stmts.len();
    proof {
        assert forall|d: int, j: int|
            0 <= d < stmts@.len() && t.status@[d] == WalletStatus::Done && 0 <= j < branch_count(
                stmts@,
                d,
            ) implies #[trigger] deps_done(stmts@, costs@, t.status@, t.rank@, d, j) by {
            assert(deps_done(stmts@, costs@, t_entry.status@, t_entry.rank@, d, j));
        }
        assert(table_inv(stmts@, costs@, base@, floor, *t));
    }
    let ghost ss = stmts@;
    let ghost cs = costs@;
    let ghost bs = base@;
    let v: i64 = match &stmts[idx] {
        Statement::Return => 0,
        Statement::Invocation(inv) => {
            assert(ss[idx as int] is Invocation);
            let bcs = &costs[inv.libfunc_id];
            let k = inv.branches.len();
            let mut reqs: Vec<i64> = Vec::new();
            let mut j: usize = 0;
            while j < k
                invariant
                    ss == stmts@,
                    ss.len() == n_stmts,
                    cs == costs@,
                    bs == base@,
                    program_well_formed(ss, cs),
                    bases_fit(ss, bs),
                    idx < ss.len(),
                    ss[idx as int] == Statement::Invocation(*inv),
                    *bcs == cs[inv.libfunc_id as int],
                    k == inv.branches@.len() == bcs@.len(),
                    j <= k,
                    table_inv(ss, cs, bs, floor, *t),
                    keeps(t_marked, *t),
                    keeps(*old(t), *t),
                    path_inv(ss, cs, *t),
                    t.path@ == old(t).path@.push(idx as int),
                    old(t).status@[idx as int] == WalletStatus::Unvisited,
                    t.status@[idx as int] == WalletStatus::InProgress,
                    unvisited(t.status@) < unvisited(old(t).status@),
                    forall|jj: int|
                        0 <= jj < j ==> {
                            let bc = #[trigger] cost_at(ss, cs, idx as int, jj);
                            &&& needs_future(bc) ==> t.status@[target_at(ss, idx as int, jj)]
                                == WalletStatus::Done
                            &&& match bc {
                                BranchCost::FunctionCall { function_entry, .. } => t.status@[
                                function_entry as int] == WalletStatus::Done,
                                _ => true,
                            }
                        },
                    reqs@.len() == j,
                    forall|jj: int|
                        0 <= jj < j ==> reqs@[jj] == #[trigger] branch_req(
                            ss,
                            cs,
                            bs,
                            t.values@,
                            idx as int,
                            jj,
                        ),
                decreases k - j,
            {
                let ghost t_prev = *t;
                let bc = bcs[j];
                assert(bc == cost_at(ss, cs, idx as int, j as int));
                assert(0 <= target_at(ss, idx as int, j as int) < ss.len());
                assert(bs[idx as int].len() == k);
                let mut req: i64 = base[idx][j];
                if let BranchCost::FunctionCall { function_entry, .. } = bc {
                    assert(reads_at(ss, cs, idx as int, j as int, function_entry as int));
                    let res = compute_wallet_at(stmts, costs, base, floor, t, function_entry);
                    proof {
                        lemma_keeps_trans(*old(t), t_prev, *t);
                        lemma_unvisited_mono(t_prev.status@, t.status@, 0);
                        lemma_keeps_trans(t_marked, t_prev, *t);
                    }
                    let c = match res {
                        Ok(c) => c,
                        Err(e) => {
                            return Err(e);
                        },
                    };
                    req = match add_cost(req, c) {
                        Ok(x) => x,
                        Err(e) => {
                            proof {
                                assert forall|w: Seq<i64>| solves(ss, cs, bs, floor, w) implies !reqs_fit(
                                    ss,
                                    cs,
                                    bs,
                                    w,
                                ) by {
                                    lemma_table_agrees(ss, cs, bs, floor, *t, w, function_entry as int);
                                    assert(!req_fits_at(ss, cs, bs, w, idx as int, j as int));
                                }
                            }
                            return Err(e);
                        },
                    };
                }
                assert(req == bs[idx as int]@[j as int] + callee_part(
                    ss,
                    cs,
                    t.values@,
                    idx as int,
                    j as int,
                ));
                let ghost t_mid = *t;
                let needs = match bc {
                    BranchCost::WithdrawGas { success, .. } => !success,
                    _ => true,
                };
                assert(next_of(idx as int, inv.branches@[j as int]) == target_at(
                    ss,
                    idx as int,
                    j as int,
                ));
                if needs {
                    let target: usize = match inv.branches[j] {
                        BranchTarget::Fallthrough => {
                            assert(idx + 1 < ss.len());
                            idx + 1
                        },
                        BranchTarget::Statement(s) => s,
                    };
                    assert(target == target_at(ss, idx as int, j as int));
                    assert(reads_at(ss, cs, idx as int, j as int, target as int));
                    let res = compute_wallet_at(stmts, costs, base, floor, t, target);
                    proof {
                        lemma_keeps_trans(*old(t), t_mid, *t);
                        lemma_unvisited_mono(t_mid.status@, t.status@, 0);
                        lemma_keeps_trans(t_marked, t_mid, *t);
                    }
                    let f = match res {
                        Ok(f) => f,
                        Err(e) => {
                            return Err(e);
                        },
                    };
                    req = match add_cost(req, f) {
                        Ok(x) => x,
                        Err(e) => {
                            proof {
                                if let BranchCost::FunctionCall { function_entry, .. } = bc {
                                    assert(t_mid.status@[function_entry as int] == WalletStatus::Done);
                                }
                                assert(callee_part(ss, cs, t.values@, idx as int, j as int)
                                    == callee_part(ss, cs, t_mid.values@, idx as int, j as int));
                                assert forall|w: Seq<i64>| solves(ss, cs, bs, floor, w) implies !reqs_fit(
                                    ss,
                                    cs,
                                    bs,
                                    w,
                                ) by {
                                    lemma_table_agrees(ss, cs, bs, floor, *t, w, target as int);
                                    if let BranchCost::FunctionCall { function_entry, .. } = bc {
                                        lemma_table_agrees(
                                            ss,
                                            cs,
                                            bs,
                                            floor,
                                            *t,
                                            w,
                                            function_entry as int,
                                        );
                                    }
                                    assert(!req_fits_at(ss, cs, bs, w, idx as int, j as int));
                                }
                            }
                            return Err(e);
                        },
                    };
                }
                assert(req == branch_req(ss, cs, bs, t.values@, idx as int, j as int));
                proof {
                    assert(agree_on_deps(ss, cs, t_prev.values@, t.values@, idx as int, j as int));
                    assert forall|jj: int| 0 <= jj < j implies branch_req(
                        ss,
                        cs,
                        bs,
                        t_prev.values@,
                        idx as int,
                        jj,
                    ) == #[trigger] branch_req(ss, cs, bs, t.values@, idx as int, jj) by {
                        assert(cost_at(ss, cs, idx as int, jj) == cost_at(ss, cs, idx as int, jj));
                    }
                }
                reqs.push(req);
                j = j + 1;
            }
            let m = <i64 as CostTypeTrait>::max(&reqs);
            proof {
                if k > 0 {
                    lemma_seq_max_req(ss, cs, bs, t.values@, idx as int, reqs@);
                }
            }
            if floor && m < 0 {
                0
            } else {
                m
            }
        },
    };
    let ghost t_before = *t;
    assert(table_inv(ss, cs, bs, floor, t_before));
    assert(v == wallet_rule(ss, cs, bs, floor, t_before.values@, idx as int));
    assert(forall|jj: int|
        0 <= jj < branch_count(ss, idx as int) ==> deps_done(
            ss,
            cs,
            t_before.status@,
            t_before.rank@.update(idx as int, t_before.next_rank@),
            idx as int,
            jj,
        ));
    t.values.set(idx, v);
    t.status.set(idx, WalletStatus::Done);
    t.rank = Ghost(t.rank@.update(idx as int, t.next_rank@));
    t.next_rank = Ghost(t.next_rank@ + 1);
    t.path = Ghost(t.path@.drop_last());
    proof {
        assert(t.path@ =~= old(t).path@);
        assert forall|d: int|
            0 <= d < stmts@.len() && #[trigger] t.status@[d] == WalletStatus::InProgress implies exists|m: int|
            0 <= m < t.path@.len() && t.path@[m] == d by {
            assert(t_before.status@[d] == WalletStatus::InProgress);
            let m = choose|m: int| 0 <= m < t_before.path@.len() && t_before.path@[m] == d;
            assert(t.path@[m] == d);
        }
        assert forall|m: int| 0 <= m < t.path@.len() - 1 implies uses(
            stmts@,
            costs@,
            #[trigger] t.path@[m],
            t.path@[m + 1],
        ) by {
            assert(uses(stmts@, costs@, t_before.path@[m], t_before.path@[m + 1]));
        }
    }
    proof {
        let n = ss.len();
        assert forall|d: int|
            0 <= d < n && #[trigger] t.status@[d] == WalletStatus::Done implies t.rank@[d]
            < t.next_rank@ && t.values@[d] == wallet_rule(ss, cs, bs, floor, t.values@, d)
            && forall|j: int|
            0 <= j < branch_count(ss, d) ==> #[trigger] deps_done(ss, cs, t.status@, t.rank@, d, j) by {
            assert forall|j: int| 0 <= j < branch_count(ss, d) implies #[trigger] deps_done(
                ss,
                cs,
                t.status@,
                t.rank@,
                d,
                j,
            ) by {
                if d != idx {
                    assert(deps_done(ss, cs, t_before.status@, t_before.rank@, d, j));
                }
                assert(deps_done(ss, cs, t_before.status@, t.rank@, d, j));
                assert(forall|x: int|
                    0 <= x < n && t_before.status@[x] == WalletStatus::Done ==> t.status@[x]
                        == WalletStatus::Done);
            }
            assert forall|j: int| 0 <= j < branch_count(ss, d) implies {
                let bc = #[trigger] cost_at(ss, cs, d, j);
                &&& needs_future(bc) ==> t_before.values@[target_at(ss, d, j)] == t.values@[target_at(
                    ss,
                    d,
                    j,
                )]
                &&& match bc {
                    BranchCost::FunctionCall { function_entry, .. } => t_before.values@[function_entry as int]
                        == t.values@[function_entry as int],
                    _ => true,
                }
            } by {
                if d != idx {
                    assert(deps_done(ss, cs, t_before.status@, t_before.rank@, d, j));
                } else {
                    assert(deps_done(ss, cs, t_before.status@, t.rank@, d, j));
                }
            }
            lemma_rule_frame(ss, cs, bs, floor, t_before.values@, t.values@, d);
            assert(t.rank@[d] < t.next_rank@);
            assert(t.values@[d] == t_before.values@[d] || d == idx);
            assert(t.values@[d] == wallet_rule(ss, cs, bs, floor, t.values@, d));
        }
        assert(table_inv(ss, cs, bs, floor, *t));
    }
    Ok(v)
}

fn run_wallets(
    stmts: &Vec<Statement>,
    costs: &Vec<Vec<BranchCost>>,
    base: &Vec<Vec<i64>>,
    floor: bool,
) -> (r: Result<Vec<i64>, CostError>)
    requires
        program_well_formed(stmts@, costs@),
        bases_fit(stmts@, base@),
    ensures
        r matches Ok(w) ==> wallets_valid(stmts@, costs@, base@, floor, w@),
        r matches Err(e) ==> !(e is Unimplemented) && !(e is DuplicateVariable),
        r matches Err(CostError::Cycle(_)) ==> !has_ranking(stmts@, costs@),
        r matches Err(CostError::Cycle(c)) ==> c < stmts@.len() && on_cycle(stmts@, costs@, c as int),
        r matches Err(CostError::Overflow) ==> forall|w: Seq<i64>|
            solves(stmts@, costs@, base@, floor, w) ==> !reqs_fit(stmts@, costs@, base@, w),
        has_ranking(stmts@, costs@) && (exists|w: Seq<i64>|
            solves(stmts@, costs@, base@, floor, w) && reqs_fit(stmts@, costs@, base@, w))
            ==> r is Ok,
{
    let n = stmts.len();
    let mut t = WalletTable {
        status: Vec::new(),
        values: Vec::new(),
        rank: Ghost(Seq::new(n as nat, |i: int| 0nat)),
        next_rank: Ghost(0nat),
        path: Ghost(Seq::empty()),
    };
    let mut i: usize = 0;
    while i < n
        invariant
            i <= n == stmts@.len(),
            t.status@.len() == i,
            t.values@.len() == i,
            t.rank@.len() == n,
            t.path@.len() == 0,
            forall|d: int| 0 <= d < i ==> t.status@[d] == WalletStatus::Unvisited,
        decreases n - i,
    {
        t.status.push(WalletStatus::Unvisited);
        t.values.push(0);
        i = i + 1;
    }
    let mut i: usize = 0;
    while i < n
        invariant
            i <= n == stmts@.len(),
            program_well_formed(stmts@, costs@),
            bases_fit(stmts@, base@),
            table_inv(stmts@, costs@, base@, floor, t),
            path_inv(stmts@, costs@, t),
            t.path@.len() == 0,
            forall|d: int| 0 <= d < i ==> #[trigger] t.status@[d] == WalletStatus::Done,
        decreases n - i,
    {
        let ghost before = t;
        match compute_wallet_at(stmts, costs, base, floor, &mut t, i) {
            Ok(_) => {},
            Err(e) => {
                return Err(e);
            },
        }
        assert forall|d: int| 0 <= d <= i implies #[trigger] t.status@[d] == WalletStatus::Done by {
            if d < i {
                assert(before.status@[d] == WalletStatus::Done);
            }
        }
        i = i + 1;
    }
    proof {
        let rank = t.rank@;
        assert forall|x: int, j: int|
            0 <= x < n && 0 <= j < branch_count(stmts@, x) implies #[trigger] deps_ranked(
            stmts@,
            costs@,
            rank,
            x,
            j,
        ) by {
            assert(t.status@[x] == WalletStatus::Done);
            assert(deps_done(stmts@, costs@, t.status@, t.rank@, x, j));
        }
        assert forall|x: int| 0 <= x < n implies #[trigger] t.values@[x] == wallet_rule(
            stmts@,
            costs@,
            base@,
            floor,
            t.values@,
            x,
        ) by {
            assert(t.status@[x] == WalletStatus::Done);
        }
        assert(ranked_solution(stmts@, costs@, base@, floor, t.values@, rank));
    }
    Ok(t.values)
}

proof fn lemma_max_req_bounds(
    stmts: Seq<Statement>,
    costs: Seq<Vec<BranchCost>>,
    base: Seq<Vec<i64>>,
    w: Seq<i64>,
    i: int,
    k: int,
)
    requires
        k >= 1,
    ensures
        forall|j: int|
            0 <= j < k ==> max_req(stmts, costs, base, w, i, k) >= #[trigger] branch_req(
                stmts,
                costs,
                base,
                w,
                i,
                j,
            ),
        exists|j: int|
            0 <= j < k && max_req(stmts, costs, base, w, i, k) == #[trigger] branch_req(
                stmts,
                costs,
                base,
                w,
                i,
                j,
            ),
    decreases k,
{
    if k > 1 {
        lemma_max_req_bounds(stmts, costs, base, w, i, k - 1);
        let m = max_req(stmts, costs, base, w, i, k - 1);
        let r = branch_req(stmts, costs, base, w, i, k - 1);
        if m < r {
            assert(max_req(stmts, costs, base, w, i, k) == branch_req(stmts, costs, base, w, i, k - 1));
        } else {
            let j0 = choose|j: int| 0 <= j < k - 1 && m == #[trigger] branch_req(stmts, costs, base, w, i, j);
            assert(max_req(stmts, costs, base, w, i, k) == branch_req(stmts, costs, base, w, i, j0));
        }
    } else {
        assert(max_req(stmts, costs, base, w, i, k) == branch_req(stmts, costs, base, w, i, 0));
    }
}

/// The wallet at a statement covers every branch it may take: it is at least each branch's
/// requirement (its base cost plus the wallet after it), and it is the requirement of one of
/// them, unless all requirements are below zero and the wallet is held at zero.
pub proof fn lemma_wallet_covers_branches(
    stmts: Seq<Statement>,
    costs: Seq<Vec<BranchCost>>,
    base: Seq<Vec<i64>>,
    floor: bool,
    w: Seq<i64>,
    i: int,
)
    requires
        wallets_valid(stmts, costs, base, floor, w),
        0 <= i < stmts.len(),
    ensures
        forall|j: int|
            0 <= j < branch_count(stmts, i) ==> w[i] >= #[trigger] branch_req(
                stmts,
                costs,
                base,
                w,
                i,
                j,
            ),
        branch_count(stmts, i) > 0 ==> (exists|j: int|
            0 <= j < branch_count(stmts, i) && w[i] == #[trigger] branch_req(stmts, costs, base, w, i, j))
            || (floor && w[i] == 0),
        branch_count(stmts, i) == 0 ==> w[i] == 0,
{
    let rank = choose|rank: Seq<nat>| ranked_solution(stmts, costs, base, floor, w, rank);
    assert(w[i] == wallet_rule(stmts, costs, base, floor, w, i));
    if branch_count(stmts, i) > 0 {
        lemma_max_req_bounds(stmts, costs, base, w, i, branch_count(stmts, i));
    }
}

/// Computes the wallet that every statement needs: the smallest balance before it with
/// which every branch it may take, and everything after, can be paid for.
///
/// `base` holds the base cost of each branch of each statement; `floor` keeps every wallet at
/// zero or more. Fails with `Cycle` where a wallet depends on itself, and with `Overflow` where
/// a sum does not fit in 64 bits.
pub fn compute_wallets(
    stmts: &Vec<Statement>,
    costs: &Vec<Vec<BranchCost>>,
    base: &Vec<Vec<i64>>,
    floor: bool,
) -> (r: Result<Vec<i64>, CostError>)
    requires
        program_well_formed(stmts@, costs@),
        bases_fit(stmts@, base@),
    ensures
        r matches Ok(w) ==> wallets_valid(stmts@, costs@, base@, floor, w@),
        r matches Err(e) ==> !(e is Unimplemented) && !(e is DuplicateVariable),
        r matches Err(CostError::Cycle(_)) <==> !has_ranking(stmts@, costs@),
        r matches Err(CostError::Cycle(c)) ==> c < stmts@.len() && on_cycle(stmts@, costs@, c as int),
        r matches Err(CostError::Overflow) ==> forall|w: Seq<i64>|
            solves(stmts@, costs@, base@, floor, w) ==> !reqs_fit(stmts@, costs@, base@, w),
        has_ranking(stmts@, costs@) && (exists|w: Seq<i64>|
            solves(stmts@, costs@, base@, floor, w) && reqs_fit(stmts@, costs@, base@, w))
            ==> r is Ok,
{
    // The dependencies alone decide whether there is a cycle: with zero base costs no sum
    // can overflow, so this first run fails only on a cycle.
    let zero = zero_bases(stmts, costs);
    match run_wallets(stmts, costs, &zero, false) {
        Ok(w) => {
            proof {
                lemma_valid_wallets_ranked(stmts@, costs@, zero@, false, w@);
            }
        },
        Err(e) => {
            proof {
                let z = Seq::new(stmts@.len(), |i: int| 0i64);
                lemma_zero_solution(stmts@, costs@, zero@, z);
            }
            return Err(e);
        },
    }
    run_wallets(stmts, costs, base, floor)
}

/// A base cost table of zeros.
pub(crate) fn zero_bases(stmts: &Vec<Statement>, costs: &Vec<Vec<BranchCost>>) -> (r: Vec<Vec<i64>>)
    ensures
        bases_fit(stmts@, r@),
        forall|i: int, j: int|
            0 <= i < stmts@.len() && 0 <= j < branch_count(stmts@, i) ==> #[trigger] r@[i]@[j] == 0,
{
    let mut r: Vec<Vec<i64>> = Vec::new();
    let mut i: usize = 0;
    while i < stmts.len()
        invariant
            i <= stmts@.len(),
            r@.len() == i,
            forall|x: int| 0 <= x < i ==> #[trigger] r@[x].len() == branch_count(stmts@, x),
            forall|x: int, j: int|
                0 <= x < i && 0 <= j < branch_count(stmts@, x) ==> #[trigger] r@[x]@[j] == 0,
        decreases stmts@.len() - i,
    {
        let k: usize = match &stmts[i] {
            Statement::Return => 0,
            Statement::Invocation(inv) => inv.branches.len(),
        };
        let mut row: Vec<i64> = Vec::new();
        let mut j: usize = 0;
        while j < k
            invariant
                j <= k,
                row@.len() == j,
                forall|y: int| 0 <= y < j ==> row@[y] == 0,
            decreases k - j,
        {
            row.push(0);
            j = j + 1;
        }
        r.push(row);
        i = i + 1;
    }
    r
}

proof fn lemma_zero_max_req(
    stmts: Seq<Statement>,
    costs: Seq<Vec<BranchCost>>,
    base: Seq<Vec<i64>>,
    z: Seq<i64>,
    i: int,
    k: int,
)
    requires
        1 <= k <= branch_count(stmts, i),
        program_well_formed(stmts, costs),
        0 <= i < stmts.len(),
        z.len() == stmts.len(),
        forall|x: int| 0 <= x < z.len() ==> z[x] == 0,
        forall|j: int| 0 <= j < branch_count(stmts, i) ==> #[trigger] base[i]@[j] == 0,
    ensures
        max_req(stmts, costs, base, z, i, k) == 0,
        forall|j: int| 0 <= j < k ==> #[trigger] branch_req(stmts, costs, base, z, i, j) == 0,
    decreases k,
{
    assert forall|j: int| 0 <= j < k implies #[trigger] branch_req(stmts, costs, base, z, i, j) == 0 by {
        assert(stmts[i] is Invocation);
        assert(0 <= target_at(stmts, i, j) < stmts.len());
        assert(base[i]@[j] == 0);
    }
    if k > 1 {
        lemma_zero_max_req(stmts, costs, base, z, i, k - 1);
    }
}

/// With zero base costs, zero wallets obey the rule and every sum fits.
pub(crate) proof fn lemma_zero_solution(
    stmts: Seq<Statement>,
    costs: Seq<Vec<BranchCost>>,
    base: Seq<Vec<i64>>,
    z: Seq<i64>,
)
    requires
        program_well_formed(stmts, costs),
        z.len() == stmts.len(),
        forall|x: int| 0 <= x < z.len() ==> z[x] == 0,
        forall|i: int, j: int|
            0 <= i < stmts.len() && 0 <= j < branch_count(stmts, i) ==> #[trigger] base[i]@[j] == 0,
    ensures
        solves(stmts, costs, base, false, z),
        reqs_fit(stmts, costs, base, z),
{
    assert forall|i: int| 0 <= i < stmts.len() implies #[trigger] z[i] == wallet_rule(
        stmts,
        costs,
        base,
        false,
        z,
        i,
    ) by {
        if branch_count(stmts, i) > 0 {
            lemma_zero_max_req(stmts, costs, base, z, i, branch_count(stmts, i));
        }
    }
    assert forall|i: int, j: int|
        0 <= i < stmts.len() && 0 <= j < branch_count(stmts, i) implies #[trigger] req_fits_at(
        stmts,
        costs,
        base,
        z,
        i,
        j,
    ) by {
        lemma_zero_max_req(stmts, costs, base, z, i, branch_count(stmts, i));
        assert(stmts[i] is Invocation);
        assert(0 <= target_at(stmts, i, j) < stmts.len());
    }
}

} // verus!
