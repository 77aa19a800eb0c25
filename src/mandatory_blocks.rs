use vstd::prelude::*;

use crate::cfg::{blocks_well_formed, find_not_set, first_not_set, FlatBlock, FlatBlockEnd};

verus! {

/// Why a graph could not be analysed.
#[derive(Clone, Copy, Debug, PartialEq, Eq)]
pub enum CfgError {
    /// The block with this index ends in `NotSet`.
    NotSet(usize),
    /// The arm counts of the graph's branches have no common multiple below `u64::MAX`,
    /// so weights cannot be held exactly in 64 bits.
    ScaleOverflow,
}

/// The outcome of the weight propagation over a graph.
///
/// Weights are exact fractions of the entry block's seed, held as integers in units of
/// `1 / scale`: the seed is `scale`, and a value above `scale` is held as `scale + 1`.
pub struct BlockWeights {
    pub scale: u64,
    pub weights: Vec<u64>,
    /// Whether the block passed weight on to its successors.
    pub expanded: Vec<bool>,
    /// How many jumps into the block were never followed.
    pub parents_left: Vec<usize>,
}

/// The number of arms that a branch splits its weight between (1 for any other end).
pub open spec fn arm_count(end: FlatBlockEnd) -> int {
    match end {
        FlatBlockEnd::Match(arms) => if arms.len() > 0 { arms.len() as int } else { 1 },
        _ => 1,
    }
}

/// The greatest common divisor, by Euclid's algorithm.
pub open spec fn gcd(a: nat, b: nat) -> nat
    decreases b,
{
    if b == 0 {
        a
    } else {
        gcd(b, a % b)
    }
}

/// The least common multiple of `s` and `k` (both positive).
pub open spec fn lcm(s: int, k: int) -> int {
    s / (gcd(s as nat, k as nat) as int) * k
}

/// The least common multiple of the arm counts of the first `upto` blocks.
pub open spec fn spec_scale(blocks: Seq<FlatBlock>, upto: int) -> int
    decreases upto,
{
    if upto <= 0 {
        1
    } else {
        lcm(spec_scale(blocks, upto - 1), arm_count(blocks[upto - 1].end))
    }
}

proof fn lemma_gcd_divides(a: nat, b: nat)
    requires
        a > 0,
    ensures
        gcd(a, b) > 0,
        a % gcd(a, b) == 0,
        b % gcd(a, b) == 0,
    decreases b,
{
    if b > 0 {
        let r = a % b;
        lemma_gcd_divides(b, r);
        let g = gcd(b, r);
        assert(gcd(a, b) == g);
        vstd::arithmetic::div_mod::lemma_fundamental_div_mod(a as int, b as int);
        vstd::arithmetic::div_mod::lemma_fundamental_div_mod(b as int, g as int);
        vstd::arithmetic::div_mod::lemma_fundamental_div_mod(r as int, g as int);
        let q1 = b as int / g as int;
        let q2 = r as int / g as int;
        let d = a as int / b as int;
        assert(a as int == g as int * (q1 * d + q2)) by (nonlinear_arith)
            requires
                a as int == b as int * d + r as int,
                b as int == g as int * q1,
                r as int == g as int * q2,
        ;
        vstd::arithmetic::div_mod::lemma_mod_multiples_basic(q1 * d + q2, g as int);
        assert((q1 * d + q2) * g as int == g as int * (q1 * d + q2)) by (nonlinear_arith);
    } else {
        vstd::arithmetic::div_mod::lemma_mod_self_0(a as int);
    }
}

/// The least common multiple is `s` times a positive whole number, and a multiple of `k`.
proof fn lemma_lcm_facts(s: int, k: int)
    requires
        s >= 1,
        k >= 1,
    ensures
        lcm(s, k) == s * (k / (gcd(s as nat, k as nat) as int)),
        k / (gcd(s as nat, k as nat) as int) >= 1,
        lcm(s, k) % k == 0,
        lcm(s, k) >= s,
{
    let g = gcd(s as nat, k as nat) as int;
    lemma_gcd_divides(s as nat, k as nat);
    vstd::arithmetic::div_mod::lemma_fundamental_div_mod(s, g);
    vstd::arithmetic::div_mod::lemma_fundamental_div_mod(k, g);
    let a = s / g;
    let c = k / g;
    assert(c >= 1) by (nonlinear_arith)
        requires
            k == g * c,
            k >= 1,
            g > 0,
    ;
    assert(a * k == s * c) by (nonlinear_arith)
        requires
            s == g * a,
            k == g * c,
    ;
    vstd::arithmetic::div_mod::lemma_mod_multiples_basic(a, k);
    assert(s * c >= s) by (nonlinear_arith)
        requires
            s >= 1,
            c >= 1,
    ;
}

/// How many arms from index `k` on lead to block `b`.
pub open spec fn count_from(arms: Seq<usize>, k: int, b: int) -> int
    decreases arms.len() - k,
{
    if k < 0 || k >= arms.len() {
        0
    } else {
        (if arms[k] == b { 1int } else { 0int }) + count_from(arms, k + 1, b)
    }
}

/// The weight that a block with this end hands to block `b` when it passes on the seed.
pub open spec fn share(end: FlatBlockEnd, b: int, scale: int) -> int {
    match end {
        FlatBlockEnd::Goto(t) => if t == b { scale } else { 0 },
        FlatBlockEnd::Match(arms) => if arms.len() > 0 {
            count_from(arms@, 0, b) * (scale / (arms.len() as int))
        } else {
            0
        },
        _ => 0,
    }
}

/// Whether a block with this end jumps to `b`.
pub open spec fn goto_edge(end: FlatBlockEnd, b: int) -> int {
    match end {
        FlatBlockEnd::Goto(t) => if t == b { 1int } else { 0int },
        _ => 0,
    }
}

/// Whether a block with this end leads to `b` by a jump or an arm.
pub open spec fn leads_to(end: FlatBlockEnd, b: int) -> bool {
    match end {
        FlatBlockEnd::Goto(t) => t == b,
        FlatBlockEnd::Match(arms) => exists|j: int| 0 <= j < arms.len() && arms@[j] == b,
        _ => false,
    }
}

/// The weight that the expanded blocks among the first `upto` hand to `b`.
pub open spec fn inflow(
    blocks: Seq<FlatBlock>,
    expanded: Seq<bool>,
    scale: int,
    b: int,
    upto: int,
) -> int
    decreases upto,
{
    if upto <= 0 {
        0
    } else {
        inflow(blocks, expanded, scale, b, upto - 1) + if expanded[upto - 1] {
            share(blocks[upto - 1].end, b, scale)
        } else {
            0
        }
    }
}

/// The jumps into `b` from the expanded blocks among the first `upto`.
pub open spec fn goto_inflow(blocks: Seq<FlatBlock>, expanded: Seq<bool>, b: int, upto: int) -> int
    decreases upto,
{
    if upto <= 0 {
        0
    } else {
        goto_inflow(blocks, expanded, b, upto - 1) + if expanded[upto - 1] {
            goto_edge(blocks[upto - 1].end, b)
        } else {
            0
        }
    }
}

/// The jumps into `b` from the first `upto` blocks.
pub open spec fn goto_in(blocks: Seq<FlatBlock>, b: int, upto: int) -> int
    decreases upto,
{
    if upto <= 0 {
        0
    } else {
        goto_in(blocks, b, upto - 1) + goto_edge(blocks[upto - 1].end, b)
    }
}

/// The seed weight: the whole of it at the entry block.
pub open spec fn seed(b: int, scale: int) -> int {
    if b == 0 { scale } else { 0 }
}

/// The exact weight that reaches `b`: its seed plus all that its expanded predecessors hand it.
pub open spec fn exact_weight(blocks: Seq<FlatBlock>, expanded: Seq<bool>, scale: int, b: int) -> int {
    seed(b, scale) + inflow(blocks, expanded, scale, b, blocks.len() as int)
}

pub open spec fn capped(w: int, scale: int) -> int {
    if w > scale + 1 { scale + 1 } else { w }
}

/// The weight that the expanded blocks among the first `upto` with rank below `r` hand to `b`.
pub open spec fn inflow_below(
    blocks: Seq<FlatBlock>,
    expanded: Seq<bool>,
    rank: Seq<nat>,
    scale: int,
    b: int,
    r: nat,
    upto: int,
) -> int
    decreases upto,
{
    if upto <= 0 {
        0
    } else {
        inflow_below(blocks, expanded, rank, scale, b, r, upto - 1) + if expanded[upto - 1]
            && rank[upto - 1] < r {
            share(blocks[upto - 1].end, b, scale)
        } else {
            0
        }
    }
}

/// The expanded blocks can be put in the order they expanded in: each one got the whole seed
/// from itself or from blocks expanded before it, and every block that jumps to it expanded
/// before it.
pub open spec fn expansion_ranked(
    blocks: Seq<FlatBlock>,
    expanded: Seq<bool>,
    scale: int,
    rank: Seq<nat>,
) -> bool {
    let n = blocks.len();
    &&& rank.len() == n
    &&& forall|b: int|
        0 <= b < n && #[trigger] expanded[b] ==> seed(b, scale) + inflow_below(
            blocks,
            expanded,
            rank,
            scale,
            b,
            rank[b],
            n as int,
        ) >= scale
    &&& forall|b: int, p: int|
        0 <= b < n && 0 <= p < n && #[trigger] expanded[b] && #[trigger] goto_edge(
            blocks[p].end,
            b,
        ) > 0 ==> expanded[p] && rank[p] < rank[b]
}

/// `bw` is the outcome of the propagation: weights are what the expanded blocks hand on,
/// a block expanded only once all jumps into it were followed and its weight was the
/// whole seed, and every block for which both hold expanded. The expanded blocks can be
/// ordered as they expanded (`expansion_ranked`), so a block the walk never reaches never
/// expands.
pub open spec fn weights_valid(blocks: Seq<FlatBlock>, bw: BlockWeights) -> bool {
    let n = blocks.len();
    let s = bw.scale as int;
    let e = bw.expanded@;
    &&& bw.weights@.len() == n
    &&& e.len() == n
    &&& bw.parents_left@.len() == n
    &&& s == spec_scale(blocks, n as int)
    &&& s < u64::MAX
    &&& forall|b: int|
        0 <= b < n ==> #[trigger] bw.weights@[b] == capped(exact_weight(blocks, e, s, b), s)
    &&& forall|b: int|
        0 <= b < n ==> #[trigger] bw.parents_left@[b] + goto_inflow(blocks, e, b, n as int)
            == goto_in(blocks, b, n as int)
    &&& forall|b: int|
        0 <= b < n && #[trigger] e[b] ==> bw.parents_left@[b] == 0 && exact_weight(blocks, e, s, b)
            >= s
    &&& forall|b: int|
        0 <= b < n && !#[trigger] e[b] && bw.parents_left@[b] == 0 ==> exact_weight(
            blocks,
            e,
            s,
            b,
        ) != s
    &&& exists|rank: Seq<nat>| expansion_ranked(blocks, e, s, rank)
}

proof fn lemma_inflow_below_all(
    blocks: Seq<FlatBlock>,
    e: Seq<bool>,
    rank: Seq<nat>,
    scale: int,
    b: int,
    r: nat,
    upto: int,
)
    requires
        upto <= e.len(),
        e.len() == rank.len(),
        forall|p: int| 0 <= p < e.len() && #[trigger] e[p] ==> rank[p] < r,
    ensures
        inflow_below(blocks, e, rank, scale, b, r, upto) == inflow(blocks, e, scale, b, upto),
    decreases upto,
{
    if upto > 0 {
        lemma_inflow_below_all(blocks, e, rank, scale, b, r, upto - 1);
    }
}

proof fn lemma_inflow_below_set(
    blocks: Seq<FlatBlock>,
    e: Seq<bool>,
    rank: Seq<nat>,
    scale: int,
    b: int,
    r: nat,
    upto: int,
    x: int,
    nr: nat,
)
    requires
        upto <= e.len(),
        e.len() == rank.len(),
        0 <= x < e.len(),
        !e[x],
        r <= nr,
    ensures
        inflow_below(blocks, e.update(x, true), rank.update(x, nr), scale, b, r, upto)
            == inflow_below(blocks, e, rank, scale, b, r, upto),
    decreases upto,
{
    if upto > 0 {
        lemma_inflow_below_set(blocks, e, rank, scale, b, r, upto - 1, x, nr);
    }
}

proof fn lemma_all_gotos_followed(blocks: Seq<FlatBlock>, e: Seq<bool>, b: int, upto: int, p: int)
    requires
        upto <= e.len(),
        goto_inflow(blocks, e, b, upto) == goto_in(blocks, b, upto),
        0 <= p < upto,
        goto_edge(blocks[p].end, b) > 0,
    ensures
        e[p],
    decreases upto,
{
    lemma_goto_inflow_bounded(blocks, e, b, upto - 1);
    if p < upto - 1 {
        lemma_all_gotos_followed(blocks, e, b, upto - 1, p);
    }
}

/// `ids` lists, in increasing order, the blocks whose weight is the whole seed.
pub open spec fn full_weight_ids(bw: BlockWeights, ids: Seq<usize>) -> bool {
    &&& forall|i: int, j: int| 0 <= i < j < ids.len() ==> ids[i] < ids[j]
    &&& forall|i: int|
        0 <= i < ids.len() ==> ids[i] < bw.weights@.len() && bw.weights@[ids[i] as int]
            == bw.scale
    &&& forall|b: int|
        0 <= b < bw.weights@.len() && bw.weights@[b] == bw.scale ==> exists|i: int|
            0 <= i < ids.len() && ids[i] == b
}

/// `ids` is the list of mandatory blocks of the graph.
pub open spec fn is_mandatory_list(blocks: Seq<FlatBlock>, ids: Seq<usize>) -> bool {
    exists|bw: BlockWeights| weights_valid(blocks, bw) && full_weight_ids(bw, ids)
}

proof fn lemma_scale_step(blocks: Seq<FlatBlock>, upto: int, m: int)
    requires
        upto >= 0,
        m > 0,
        spec_scale(blocks, upto) % m == 0,
    ensures
        spec_scale(blocks, upto + 1) % m == 0,
        spec_scale(blocks, upto + 1) >= spec_scale(blocks, upto) >= 1,
{
    lemma_scale_positive(blocks, upto);
    let s = spec_scale(blocks, upto);
    let k = arm_count(blocks[upto].end);
    lemma_lcm_facts(s, k);
    let c = k / (gcd(s as nat, k as nat) as int);
    let q = s / m;
    vstd::arithmetic::div_mod::lemma_fundamental_div_mod(s, m);
    assert(s * c == (q * c) * m) by (nonlinear_arith)
        requires
            s == m * q,
    ;
    vstd::arithmetic::div_mod::lemma_mod_multiples_basic(q * c, m);
}

proof fn lemma_scale_positive(blocks: Seq<FlatBlock>, upto: int)
    ensures
        spec_scale(blocks, upto) >= 1,
    decreases upto,
{
    if upto > 0 {
        lemma_scale_positive(blocks, upto - 1);
        lemma_lcm_facts(spec_scale(blocks, upto - 1), arm_count(blocks[upto - 1].end));
    }
}

proof fn lemma_scale_monotone(blocks: Seq<FlatBlock>, i: int, j: int)
    requires
        0 <= i <= j,
    ensures
        spec_scale(blocks, i) <= spec_scale(blocks, j),
    decreases j - i,
{
    if i < j {
        lemma_scale_monotone(blocks, i, j - 1);
        lemma_scale_step(blocks, j - 1, 1);
    }
}

/// Each arm count divides the scale of a prefix that holds its block.
proof fn lemma_scale_divisible(blocks: Seq<FlatBlock>, p: int, upto: int)
    requires
        0 <= p < upto,
    ensures
        spec_scale(blocks, upto) % arm_count(blocks[p].end) == 0,
    decreases upto - p,
{
    let k = arm_count(blocks[p].end);
    if upto == p + 1 {
        lemma_scale_positive(blocks, p);
        lemma_lcm_facts(spec_scale(blocks, p), k);
    } else {
        lemma_scale_divisible(blocks, p, upto - 1);
        lemma_scale_step(blocks, upto - 1, k);
    }
}

/// Computes `gcd` by Euclid's algorithm.
fn gcd_u64(a: u64, b: u64) -> (r: u64)
    ensures
        r == gcd(a as nat, b as nat),
{
    let mut x = a;
    let mut y = b;
    while y != 0
        invariant
            gcd(x as nat, y as nat) == gcd(a as nat, b as nat),
        decreases y,
    {
        let t = x % y;
        x = y;
        y = t;
    }
    x
}

/// Computes `spec_scale` of the whole graph, or `None` where it is `u64::MAX` or more.
fn weight_scale(blocks: &Vec<FlatBlock>) -> (r: Option<u64>)
    ensures
        match r {
            Some(s) => s == spec_scale(blocks@, blocks@.len() as int) && s < u64::MAX,
            None => spec_scale(blocks@, blocks@.len() as int) >= u64::MAX,
        },
{
    let n = blocks.len();
    let mut s: u64 = 1;
    let mut i: usize = 0;
    while i < n
        invariant
            i <= n == blocks@.len(),
            s == spec_scale(blocks@, i as int),
            s < u64::MAX,
        decreases n - i,
    {
        let k: u64 = match &blocks[i].end {
            FlatBlockEnd::Match(arms) => if arms.len() > 0 { arms.len() as u64 } else { 1 },
            _ => 1,
        };
        assert(k == arm_count(blocks@[i as int].end));
        let g = gcd_u64(s, k);
        proof {
            lemma_scale_positive(blocks@, i as int);
            lemma_gcd_divides(s as nat, k as nat);
        }
        let part = s / g;
        assert(part <= s) by (nonlinear_arith)
            requires
                part == s / g,
                g >= 1,
                s >= 0,
        ;
        assert((part as int) * (k as int) < 0x1_0000_0000_0000_0000_0000_0000_0000_0000) by (
        nonlinear_arith)
            requires
                part < 0x1_0000_0000_0000_0000,
                k < 0x1_0000_0000_0000_0000,
        ;
        let wide: u128 = (part as u128) * (k as u128);
        if wide >= u64::MAX as u128 {
            proof {
                lemma_scale_monotone(blocks@, i + 1, n as int);
            }
            return None;
        }
        s = wide as u64;
        i = i + 1;
    }
    Some(s)
}

/// A pending hand-over of weight to a block.
struct Visit {
    block: usize,
    weight: u64,
    through_goto: bool,
}

spec fn pending(stack: Seq<Visit>, b: int) -> int
    decreases stack.len(),
{
    if stack.len() == 0 {
        0
    } else {
        pending(stack.drop_last(), b) + if stack.last().block == b {
            stack.last().weight as int
        } else {
            0
        }
    }
}

spec fn pending_gotos(stack: Seq<Visit>, b: int) -> int
    decreases stack.len(),
{
    if stack.len() == 0 {
        0
    } else {
        pending_gotos(stack.drop_last(), b) + if stack.last().block == b
            && stack.last().through_goto {
            1int
        } else {
            0int
        }
    }
}

spec fn count_false(s: Seq<bool>) -> nat
    decreases s.len(),
{
    if s.len() == 0 {
        0
    } else {
        count_false(s.drop_last()) + if s.last() { 0nat } else { 1nat }
    }
}

proof fn lemma_count_false_set(s: Seq<bool>, p: int)
    requires
        0 <= p < s.len(),
        !s[p],
    ensures
        count_false(s.update(p, true)) + 1 == count_false(s),
    decreases s.len(),
{
    let t = s.update(p, true);
    if p < s.len() - 1 {
        assert(t.drop_last() =~= s.drop_last().update(p, true));
        lemma_count_false_set(s.drop_last(), p);
    } else {
        assert(t.drop_last() =~= s.drop_last());
    }
}

proof fn lemma_inflow_set(
    blocks: Seq<FlatBlock>,
    e: Seq<bool>,
    scale: int,
    b: int,
    upto: int,
    p: int,
)
    requires
        0 <= p < e.len(),
        upto <= e.len(),
        !e[p],
    ensures
        inflow(blocks, e.update(p, true), scale, b, upto) == inflow(blocks, e, scale, b, upto) + (
        if p < upto {
            share(blocks[p].end, b, scale)
        } else {
            0
        }),
        goto_inflow(blocks, e.update(p, true), b, upto) == goto_inflow(blocks, e, b, upto) + (
        if p < upto {
            goto_edge(blocks[p].end, b)
        } else {
            0
        }),
    decreases upto,
{
    if upto > 0 {
        lemma_inflow_set(blocks, e, scale, b, upto - 1, p);
    }
}

proof fn lemma_inflow_none(blocks: Seq<FlatBlock>, e: Seq<bool>, scale: int, b: int, upto: int)
    requires
        upto <= e.len(),
        forall|p: int| 0 <= p < e.len() ==> !e[p],
    ensures
        inflow(blocks, e, scale, b, upto) == 0,
        goto_inflow(blocks, e, b, upto) == 0,
    decreases upto,
{
    if upto > 0 {
        lemma_inflow_none(blocks, e, scale, b, upto - 1);
    }
}

proof fn lemma_goto_inflow_bounded(blocks: Seq<FlatBlock>, e: Seq<bool>, b: int, upto: int)
    requires
        upto <= e.len(),
    ensures
        0 <= goto_inflow(blocks, e, b, upto) <= goto_in(blocks, b, upto) <= if upto >= 0 {
            upto
        } else {
            0
        },
    decreases upto,
{
    if upto > 0 {
        lemma_goto_inflow_bounded(blocks, e, b, upto - 1);
    }
}

proof fn lemma_pending_nonneg(stack: Seq<Visit>, b: int)
    ensures
        pending(stack, b) >= 0,
        pending_gotos(stack, b) >= 0,
    decreases stack.len(),
{
    if stack.len() > 0 {
        lemma_pending_nonneg(stack.drop_last(), b);
    }
}

proof fn lemma_count_from_step(arms: Seq<usize>, k: int, b: int, q: int)
    requires
        0 <= k < arms.len(),
    ensures
        count_from(arms, k, b) * q == (if arms[k] == b { q } else { 0 }) + count_from(
            arms,
            k + 1,
            b,
        ) * q,
{
    let c = count_from(arms, k + 1, b);
    if arms[k] == b {
        assert((1 + c) * q == q + c * q) by (nonlinear_arith);
    }
}

/// Propagates the seed weight from the entry block. A block hands weight on once every jump
/// into it has been followed and its weight is the whole seed: a jump hands on the whole
/// seed, a branch splits it evenly between its arms, and a return or a panic ends the walk.
/// Weights are exact (see `weights_valid`); a graph with a `NotSet` end is refused.
pub fn block_weights(blocks: &Vec<FlatBlock>) -> (r: Result<BlockWeights, CfgError>)
    requires
        blocks_well_formed(blocks@),
    ensures
        match r {
            Err(CfgError::NotSet(i)) => first_not_set(blocks@, 0) == Some(i as int),
            Err(CfgError::ScaleOverflow) => first_not_set(blocks@, 0) is None && spec_scale(
                blocks@,
                blocks@.len() as int,
            ) >= u64::MAX,
            Ok(bw) => first_not_set(blocks@, 0) is None && weights_valid(blocks@, bw),
        },
{
    if let Some(i) = find_not_set(blocks) {
        return Err(CfgError::NotSet(i));
    }
    let scale = match weight_scale(blocks) {
        Some(s) => s,
        None => {
            return Err(CfgError::ScaleOverflow);
        },
    };
    let n = blocks.len();
    let ghost bs = blocks@;
    let ghost s = scale as int;

    // Count the jumps into each block.
    let mut parents_left: Vec<usize> = Vec::new();
    let mut weights: Vec<u64> = Vec::new();
    let mut expanded: Vec<bool> = Vec::new();
    let mut i: usize = 0;
    while i < n
        invariant
            i <= n == bs.len(),
            parents_left@.len() == i,
            weights@.len() == i,
            expanded@.len() == i,
            forall|b: int| 0 <= b < i ==> parents_left@[b] == 0,
            forall|b: int| 0 <= b < i ==> weights@[b] == 0,
            forall|b: int| 0 <= b < i ==> !expanded@[b],
        decreases n - i,
    {
        parents_left.push(0);
        weights.push(0);
        expanded.push(false);
        i = i + 1;
    }
    let mut i: usize = 0;
    while i < n
        invariant
            i <= n == bs.len(),
            blocks@ == bs,
            blocks_well_formed(bs),
            parents_left@.len() == n,
            weights@.len() == n,
            expanded@.len() == n,
            forall|b: int| 0 <= b < n ==> weights@[b] == 0,
            forall|b: int| 0 <= b < n ==> !expanded@[b],
            forall|b: int| 0 <= b < n ==> parents_left@[b] == goto_in(bs, b, i as int),
        decreases n - i,
    {
        if let FlatBlockEnd::Goto(t) = &blocks[i].end {
            let t = *t;
            assert(crate::cfg::end_well_formed(bs[i as int].end, bs.len()));
            proof {
                lemma_goto_inflow_bounded(bs, expanded@, t as int, i as int);
            }
            let c = parents_left[t];
            parents_left.set(t, c + 1);
        }
        i = i + 1;
    }
    if n == 0 {
        let bw = BlockWeights { scale, weights, expanded, parents_left };
        assert(expansion_ranked(bs, bw.expanded@, bw.scale as int, Seq::<nat>::empty()));
        return Ok(bw);
    }
    proof {
        lemma_scale_positive(bs, n as int);
    }

    // Hand the seed on from the entry block.
    let mut stack: Vec<Visit> = Vec::new();
    stack.push(Visit { block: 0, weight: scale, through_goto: false });
    let ghost mut ew: Seq<int> = Seq::new(n as nat, |k: int| 0int);
    let ghost mut rank: Seq<nat> = Seq::new(n as nat, |k: int| 0nat);
    let ghost mut next_rank: nat = 0;
    proof {
        assert forall|b: int| 0 <= b < n implies inflow(bs, expanded@, s, b, n as int) == 0
            && goto_inflow(bs, expanded@, b, n as int) == 0 by {
            lemma_inflow_none(bs, expanded@, s, b, n as int);
        }
        assert(stack@.drop_last() =~= Seq::<Visit>::empty());
        assert forall|b: int| 0 <= b < n implies pending(stack@, b) == seed(b, s) && pending_gotos(
            stack@,
            b,
        ) == 0 by {
            assert(pending(Seq::<Visit>::empty(), b) == 0);
            assert(pending_gotos(Seq::<Visit>::empty(), b) == 0);
        }
        assert forall|b: int| 0 <= b < n implies #[trigger] ew[b] + pending(stack@, b) == seed(b, s)
            + inflow(bs, expanded@, s, b, n as int) by {
            assert(ew[b] == 0);
            assert(pending(Seq::<Visit>::empty(), b) == 0);
            assert(pending(stack@, b) == seed(b, s));
            lemma_inflow_none(bs, expanded@, s, b, n as int);
        }
        assert forall|b: int| 0 <= b < n implies #[trigger] parents_left@[b] + goto_inflow(
            bs,
            expanded@,
            b,
            n as int,
        ) == goto_in(bs, b, n as int) + pending_gotos(stack@, b) by {
            assert(pending_gotos(Seq::<Visit>::empty(), b) == 0);
            assert(pending_gotos(stack@, b) == 0);
            lemma_inflow_none(bs, expanded@, s, b, n as int);
        }
    }
    while stack.len() > 0
        invariant
            n == bs.len() > 0,
            blocks@ == bs,
            blocks_well_formed(bs),
            s == scale as int,
            1 <= s < u64::MAX,
            s == spec_scale(bs, n as int),
            weights@.len() == n,
            expanded@.len() == n,
            parents_left@.len() == n,
            ew.len() == n,
            forall|k: int| 0 <= k < stack@.len() ==> (#[trigger] stack@[k]).block < n,
            forall|k: int| 0 <= k < stack@.len() ==> (#[trigger] stack@[k]).weight <= s,
            forall|b: int| 0 <= b < n ==> #[trigger] weights@[b] == capped(ew[b], s),
            forall|b: int| 0 <= b < n ==> #[trigger] ew[b] >= 0,
            forall|b: int|
                0 <= b < n ==> #[trigger] ew[b] + pending(stack@, b) == seed(b, s) + inflow(
                    bs,
                    expanded@,
                    s,
                    b,
                    n as int,
                ),
            forall|b: int|
                0 <= b < n ==> #[trigger] parents_left@[b] + goto_inflow(bs, expanded@, b, n as int)
                    == goto_in(bs, b, n as int) + pending_gotos(stack@, b),
            forall|b: int|
                0 <= b < n && #[trigger] expanded@[b] ==> parents_left@[b] == 0 && ew[b] >= s,
            forall|b: int|
                0 <= b < n && !#[trigger] expanded@[b] && parents_left@[b] == 0 ==> ew[b] != s,
            forall|b: int| 0 <= b < n && #[trigger] expanded@[b] ==> rank[b] < next_rank,
            expansion_ranked(bs, expanded@, s, rank),
        decreases count_false(expanded@), stack@.len(),
    {
        let ghost old_stack = stack@;
        let ghost old_expanded = expanded@;
        let v = stack.pop().unwrap();
        assert(old_stack.drop_last() =~= stack@);
        let b = v.block;
        assert(old_stack[old_stack.len() - 1] == v);
        assert(forall|k: int| 0 <= k < stack@.len() ==> stack@[k] == old_stack[k]);
        assert(forall|x: int|
            pending(old_stack, x) == pending(stack@, x) + if b == x {
                v.weight as int
            } else {
                0
            });
        assert(forall|x: int|
            pending_gotos(old_stack, x) == pending_gotos(stack@, x) + if b == x && v.through_goto {
                1int
            } else {
                0
            });
        proof {
            lemma_pending_nonneg(stack@, b as int);
            lemma_goto_inflow_bounded(bs, expanded@, b as int, n as int);
        }
        let w = weights[b];
        let nw = if w >= scale + 1 - v.weight { scale + 1 } else { w + v.weight };
        weights.set(b, nw);
        proof {
            ew = ew.update(b as int, ew[b as int] + v.weight);
        }
        if v.through_goto {
            let c = parents_left[b];
            parents_left.set(b, c - 1);
        }
        let ghost popped = stack@;
        let ghost mut did_expand = false;
        if !expanded[b] && parents_left[b] == 0 && weights[b] == scale {
            expanded.set(b, true);
            proof {
                did_expand = true;
                let old_rank = rank;
                let r = next_rank;
                rank = rank.update(b as int, r);
                next_rank = next_rank + 1;
                lemma_pending_nonneg(popped, b as int);
                lemma_inflow_below_all(bs, old_expanded, old_rank, s, b as int, r, n as int);
                lemma_inflow_below_set(bs, old_expanded, old_rank, s, b as int, r, n as int, b as int, r);
                assert forall|x: int|
                    0 <= x < n && #[trigger] expanded@[x] implies seed(x, s) + inflow_below(
                    bs,
                    expanded@,
                    rank,
                    s,
                    x,
                    rank[x],
                    n as int,
                ) >= s by {
                    if x != b {
                        assert(old_expanded[x]);
                        lemma_inflow_below_set(
                            bs,
                            old_expanded,
                            old_rank,
                            s,
                            x,
                            old_rank[x],
                            n as int,
                            b as int,
                            r,
                        );
                    }
                }
                assert forall|x: int, p: int|
                    0 <= x < n && 0 <= p < n && #[trigger] expanded@[x] && #[trigger] goto_edge(
                        bs[p].end,
                        x,
                    ) > 0 implies expanded@[p] && rank[p] < rank[x] by {
                    if x == b {
                        lemma_all_gotos_followed(bs, old_expanded, x, n as int, p);
                    } else {
                        assert(old_expanded[x]);
                    }
                }
                assert(expansion_ranked(bs, expanded@, s, rank));
            }
            proof {
                lemma_count_false_set(old_expanded, b as int);
                assert forall|x: int| 0 <= x < n implies inflow(bs, expanded@, s, x, n as int)
                    == inflow(bs, old_expanded, s, x, n as int) + share(bs[b as int].end, x, s)
                    && goto_inflow(bs, expanded@, x, n as int) == goto_inflow(
                    bs,
                    old_expanded,
                    x,
                    n as int,
                ) + goto_edge(bs[b as int].end, x) by {
                    lemma_inflow_set(bs, old_expanded, s, x, n as int, b as int);
                }
                assert(crate::cfg::end_well_formed(bs[b as int].end, bs.len()));
            }
            match &blocks[b].end {
                FlatBlockEnd::Goto(t) => {
                    let ghost before = stack@;
                    stack.push(Visit { block: *t, weight: scale, through_goto: true });
                    assert(stack@.drop_last() =~= before);
                    assert(forall|x: int|
                        pending(stack@, x) == pending(before, x) + share(bs[b as int].end, x, s));
                    assert(forall|x: int|
                        pending_gotos(stack@, x) == pending_gotos(before, x) + goto_edge(
                            bs[b as int].end,
                            x,
                        ));
                },
                FlatBlockEnd::Match(arms) => {
                    let k_all = arms.len();
                    assert(arms@.len() == k_all);
                    if k_all > 0 {
                        proof {
                            lemma_scale_divisible(bs, b as int, n as int);
                        }
                        let part = scale / (k_all as u64);
                        assert(part <= s) by (nonlinear_arith)
                            requires
                                part == s / (k_all as int),
                                k_all >= 1,
                                s >= 1,
                        ;
                        let ghost before = stack@;
                        let mut k: usize = k_all;
                        while k > 0
                            invariant
                                k <= k_all == arms@.len(),
                                forall|j: int| 0 <= j < arms@.len() ==> arms@[j] < n,
                                part <= s,
                                stack@.len() >= before.len(),
                                forall|j: int| 0 <= j < before.len() ==> stack@[j] == before[j],
                                forall|j: int|
                                    0 <= j < stack@.len() ==> (#[trigger] stack@[j]).block < n
                                        && stack@[j].weight <= s,
                                forall|x: int|
                                    0 <= x < n ==> #[trigger] pending(stack@, x) == pending(before, x)
                                        + count_from(arms@, k as int, x) * (part as int),
                                forall|x: int|
                                    0 <= x < n ==> #[trigger] pending_gotos(stack@, x)
                                        == pending_gotos(before, x),
                            decreases k,
                        {
                            k = k - 1;
                            let ghost prev = stack@;
                            stack.push(Visit { block: arms[k], weight: part, through_goto: false });
                            assert(stack@.drop_last() =~= prev);
                            proof {
                                assert forall|x: int| 0 <= x < n implies #[trigger] pending(
                                    stack@,
                                    x,
                                ) == pending(before, x) + count_from(arms@, k as int, x) * (
                                part as int) by {
                                    assert(pending(stack@, x) == pending(prev, x) + if arms@[k as int]
                                        == x {
                                        part as int
                                    } else {
                                        0
                                    });
                                    lemma_count_from_step(arms@, k as int, x, part as int);
                                }
                                assert forall|x: int| 0 <= x < n implies #[trigger] pending_gotos(
                                    stack@,
                                    x,
                                ) == pending_gotos(before, x) by {
                                    assert(pending_gotos(stack@, x) == pending_gotos(prev, x));
                                }
                            }
                        }
                        assert(part as int == s / (arms@.len() as int));
                        assert forall|x: int| 0 <= x < n implies pending(stack@, x) == pending(
                            popped,
                            x,
                        ) + share(bs[b as int].end, x, s) by {}
                    }
                },
                _ => {},
            }
            assert(forall|x: int|
                0 <= x < n ==> pending(stack@, x) == pending(popped, x) + share(
                    bs[b as int].end,
                    x,
                    s,
                ));
        }
        assert forall|x: int| 0 <= x < n implies #[trigger] ew[x] + pending(stack@, x) == seed(x, s)
            + inflow(bs, expanded@, s, x, n as int) by {
            assert(ew[x] + pending(popped, x) == seed(x, s) + inflow(
                bs,
                old_expanded,
                s,
                x,
                n as int,
            ));
            if did_expand {
                lemma_inflow_set(bs, old_expanded, s, x, n as int, b as int);
                assert(pending(stack@, x) == pending(popped, x) + share(bs[b as int].end, x, s));
            } else {
                assert(stack@ == popped);
                assert(expanded@ == old_expanded);
            }
        }
    }
    proof {
        assert forall|b: int| 0 <= b < n implies #[trigger] weights@[b] == capped(
            exact_weight(bs, expanded@, s, b),
            s,
        ) && ew[b] == exact_weight(bs, expanded@, s, b) by {
            assert(stack@ =~= Seq::<Visit>::empty());
        }
        assert(expansion_ranked(bs, expanded@, s, rank));
    }
    let bw = BlockWeights { scale, weights, expanded, parents_left };
    assert(expansion_ranked(bs, bw.expanded@, bw.scale as int, rank));
    Ok(bw)
}

/// Finds the blocks that every run of the function passes through: those whose weight is
/// the whole seed once the propagation is over, in increasing order. An empty graph has none.
pub fn find_mandatory_blocks(blocks: &Vec<FlatBlock>) -> (r: Result<Vec<usize>, CfgError>)
    requires
        blocks_well_formed(blocks@),
    ensures
        match r {
            Err(CfgError::NotSet(i)) => first_not_set(blocks@, 0) == Some(i as int),
            Err(CfgError::ScaleOverflow) => first_not_set(blocks@, 0) is None && spec_scale(
                blocks@,
                blocks@.len() as int,
            ) >= u64::MAX,
            Ok(ids) => first_not_set(blocks@, 0) is None && is_mandatory_list(blocks@, ids@),
        },
{
    let bw = match block_weights(blocks) {
        Ok(bw) => bw,
        Err(e) => {
            return Err(e);
        },
    };
    let n = bw.weights.len();
    let mut ids: Vec<usize> = Vec::new();
    let mut b: usize = 0;
    while b < n
        invariant
            b <= n == bw.weights@.len(),
            forall|i: int, j: int| 0 <= i < j < ids@.len() ==> ids@[i] < ids@[j],
            forall|i: int|
                0 <= i < ids@.len() ==> ids@[i] < b && bw.weights@[ids@[i] as int] == bw.scale,
            forall|x: int|
                0 <= x < b && bw.weights@[x] == bw.scale ==> exists|i: int|
                    0 <= i < ids@.len() && ids@[i] == x,
        decreases n - b,
    {
        if bw.weights[b] == bw.scale {
            let ghost prev = ids@;
            ids.push(b);
            assert forall|x: int| 0 <= x <= b && bw.weights@[x] == bw.scale implies exists|i: int|
                0 <= i < ids@.len() && ids@[i] == x by {
                if x == b {
                    assert(ids@[prev.len() as int] == x);
                } else {
                    let i = choose|i: int| 0 <= i < prev.len() && prev[i] == x;
                    assert(ids@[i] == x);
                }
            }
        }
        b = b + 1;
    }
    assert(full_weight_ids(bw, ids@));
    Ok(ids)
}

proof fn lemma_count_from_absent(arms: Seq<usize>, k: int, b: int)
    requires
        forall|j: int| 0 <= j < arms.len() ==> arms[j] != b,
    ensures
        count_from(arms, k, b) == 0,
    decreases arms.len() - k,
{
    if 0 <= k < arms.len() {
        lemma_count_from_absent(arms, k + 1, b);
    }
}

proof fn lemma_share_absent(end: FlatBlockEnd, b: int, scale: int)
    requires
        !leads_to(end, b),
    ensures
        share(end, b, scale) == 0,
        goto_edge(end, b) == 0,
{
    if let FlatBlockEnd::Match(arms) = end {
        lemma_count_from_absent(arms@, 0, b);
    }
}

proof fn lemma_no_inflow(blocks: Seq<FlatBlock>, e: Seq<bool>, scale: int, b: int, upto: int)
    requires
        upto <= blocks.len(),
        forall|q: int| 0 <= q < blocks.len() ==> !leads_to(#[trigger] blocks[q].end, b),
    ensures
        inflow(blocks, e, scale, b, upto) == 0,
        goto_inflow(blocks, e, b, upto) == 0,
        goto_in(blocks, b, upto) == 0,
    decreases upto,
{
    if upto > 0 {
        lemma_no_inflow(blocks, e, scale, b, upto - 1);
        lemma_share_absent(blocks[upto - 1].end, b, scale);
    }
}

/// The entry block of a graph in which nothing leads back to it keeps exactly the whole
/// seed as its weight, and so is always mandatory.
pub proof fn lemma_entry_block_mandatory(blocks: Seq<FlatBlock>, bw: BlockWeights)
    requires
        blocks.len() > 0,
        weights_valid(blocks, bw),
        forall|q: int| 0 <= q < blocks.len() ==> !leads_to(#[trigger] blocks[q].end, 0),
    ensures
        exact_weight(blocks, bw.expanded@, bw.scale as int, 0) == bw.scale,
        bw.weights@[0] == bw.scale,
        bw.expanded@[0],
{
    lemma_no_inflow(blocks, bw.expanded@, bw.scale as int, 0, blocks.len() as int);
    assert(bw.parents_left@[0] + goto_inflow(blocks, bw.expanded@, 0, blocks.len() as int)
        == goto_in(blocks, 0, blocks.len() as int));
}

proof fn lemma_single_inflow(
    blocks: Seq<FlatBlock>,
    e: Seq<bool>,
    scale: int,
    b: int,
    p: int,
    upto: int,
)
    requires
        upto <= blocks.len(),
        0 <= p < blocks.len(),
        scale >= 0,
        forall|q: int| 0 <= q < blocks.len() && q != p ==> !leads_to(#[trigger] blocks[q].end, b),
        share(blocks[p].end, b, scale) >= 0,
    ensures
        0 <= inflow(blocks, e, scale, b, upto) <= if p < upto {
            share(blocks[p].end, b, scale)
        } else {
            0
        },
    decreases upto,
{
    if upto > 0 {
        lemma_single_inflow(blocks, e, scale, b, p, upto - 1);
        if upto - 1 != p {
            lemma_share_absent(blocks[upto - 1].end, b, scale);
        }
    }
}

/// A block other than the entry whose only way in is one arm of a branch with two or more
/// arms receives at most the branch's even part of the seed, and is never mandatory.
pub proof fn lemma_single_arm_block_not_mandatory(
    blocks: Seq<FlatBlock>,
    bw: BlockWeights,
    p: int,
    b: int,
)
    requires
        weights_valid(blocks, bw),
        0 < b < blocks.len(),
        0 <= p < blocks.len(),
        blocks[p].end is Match,
        blocks[p].end->Match_0.len() > 1,
        count_from(blocks[p].end->Match_0@, 0, b) == 1,
        forall|q: int| 0 <= q < blocks.len() && q != p ==> !leads_to(#[trigger] blocks[q].end, b),
    ensures
        exact_weight(blocks, bw.expanded@, bw.scale as int, b) <= bw.scale as int / (
        blocks[p].end->Match_0.len() as int),
        exact_weight(blocks, bw.expanded@, bw.scale as int, b) < bw.scale,
        bw.weights@[b] != bw.scale,
{
    let s = bw.scale as int;
    let k = blocks[p].end->Match_0.len() as int;
    lemma_scale_positive(blocks, blocks.len() as int);
    assert(0 <= s / k < s) by (nonlinear_arith)
        requires
            s >= 1,
            k >= 2,
    ;
    assert(share(blocks[p].end, b, s) == s / k);
    lemma_single_inflow(blocks, bw.expanded@, s, b, p, blocks.len() as int);
}

/// Every block other than the entry holds exactly the sum of what its predecessors handed
/// on; the entry holds that sum plus the seed. The weight kept is that sum, capped just above
/// the seed.
pub proof fn lemma_weight_is_inflow(blocks: Seq<FlatBlock>, bw: BlockWeights, b: int)
    requires
        weights_valid(blocks, bw),
        0 <= b < blocks.len(),
    ensures
        exact_weight(blocks, bw.expanded@, bw.scale as int, b) == seed(b, bw.scale as int) + inflow(
            blocks,
            bw.expanded@,
            bw.scale as int,
            b,
            blocks.len() as int,
        ),
        b != 0 ==> bw.weights@[b] == capped(
            inflow(blocks, bw.expanded@, bw.scale as int, b, blocks.len() as int),
            bw.scale as int,
        ),
{
    assert(bw.weights@[b] == capped(exact_weight(blocks, bw.expanded@, bw.scale as int, b), bw.scale as int));
}

proof fn lemma_positive_inflow_below(
    blocks: Seq<FlatBlock>,
    e: Seq<bool>,
    rank: Seq<nat>,
    scale: int,
    b: int,
    r: nat,
    upto: int,
)
    requires
        upto <= blocks.len(),
        inflow_below(blocks, e, rank, scale, b, r, upto) > 0,
    ensures
        exists|p: int|
            0 <= p < upto && e[p] && rank[p] < r && leads_to(#[trigger] blocks[p].end, b),
    decreases upto,
{
    if upto > 0 {
        let p = upto - 1;
        if e[p] && rank[p] < r && share(blocks[p].end, b, scale) > 0 {
            if !leads_to(blocks[p].end, b) {
                lemma_share_absent(blocks[p].end, b, scale);
            }
        } else {
            lemma_positive_inflow_below(blocks, e, rank, scale, b, r, upto - 1);
        }
    }
}

/// Every expanded block other than the entry is led to by a block that expanded before it,
/// so expansion only spreads along the graph's edges from the entry.
pub proof fn lemma_expanded_has_earlier_predecessor(
    blocks: Seq<FlatBlock>,
    bw: BlockWeights,
    rank: Seq<nat>,
    b: int,
)
    requires
        weights_valid(blocks, bw),
        expansion_ranked(blocks, bw.expanded@, bw.scale as int, rank),
        0 < b < blocks.len(),
        bw.expanded@[b],
    ensures
        exists|p: int|
            0 <= p < blocks.len() && bw.expanded@[p] && rank[p] < rank[b] && leads_to(
                #[trigger] blocks[p].end,
                b,
            ),
{
    lemma_scale_positive(blocks, blocks.len() as int);
    lemma_positive_inflow_below(
        blocks,
        bw.expanded@,
        rank,
        bw.scale as int,
        b,
        rank[b],
        blocks.len() as int,
    );
}

} // verus!
