use vstd::prelude::*;

verus! {

/// A statement of a lowered block. Only calls matter to the analyses here.
#[derive(Clone, Copy, Debug, PartialEq, Eq, Structural)]
pub enum LoweredStatement {
    /// A call of the function with the given id.
    Call(u64),
    /// Any statement that is not a call.
    Other,
}

/// How a block ends.
#[derive(Clone, Debug)]
pub enum FlatBlockEnd {
    /// A placeholder that a finished graph never holds.
    NotSet,
    /// The function returns.
    Return,
    /// The function panics.
    Panic,
    /// An unconditional jump (with a variable remapping) to the given block.
    Goto(usize),
    /// A branch with one target block per arm.
    Match(Vec<usize>),
}

/// A basic block: its statements and its terminator.
#[derive(Clone, Debug)]
pub struct FlatBlock {
    pub statements: Vec<LoweredStatement>,
    pub end: FlatBlockEnd,
}

/// Every jump and every arm names a block of the graph.
pub open spec fn blocks_well_formed(blocks: Seq<FlatBlock>) -> bool {
    forall|p: int|
        0 <= p < blocks.len() ==> #[trigger] end_well_formed(blocks[p].end, blocks.len())
}

pub open spec fn end_well_formed(end: FlatBlockEnd, n: nat) -> bool {
    match end {
        FlatBlockEnd::Goto(t) => t < n,
        FlatBlockEnd::Match(arms) => forall|j: int| 0 <= j < arms.len() ==> arms@[j] < n,
        _ => true,
    }
}

/// The index of the first block ending in `NotSet` at or after `from`, if any.
pub open spec fn first_not_set(blocks: Seq<FlatBlock>, from: int) -> Option<int>
    decreases blocks.len() - from,
{
    if from < 0 || from >= blocks.len() {
        None
    } else if blocks[from].end is NotSet {
        Some(from)
    } else {
        first_not_set(blocks, from + 1)
    }
}

proof fn lemma_first_not_set_range(blocks: Seq<FlatBlock>, from: int)
    requires
        0 <= from,
    ensures
        first_not_set(blocks, from) is Some ==> from <= first_not_set(blocks, from).unwrap()
            < blocks.len(),
    decreases blocks.len() - from,
{
    if from < blocks.len() {
        lemma_first_not_set_range(blocks, from + 1);
    }
}

/// Finds the first block that ends in `NotSet`.
pub fn find_not_set(blocks: &Vec<FlatBlock>) -> (r: Option<usize>)
    ensures
        match r {
            Some(i) => first_not_set(blocks@, 0) == Some(i as int),
            None => first_not_set(blocks@, 0) is None,
        },
{
    let n = blocks.len();
    let mut i: usize = n;
    let mut found: Option<usize> = None;
    while i > 0
        invariant
            i <= n == blocks@.len(),
            found == (match first_not_set(blocks@, i as int) {
                Some(k) => Some(k as usize),
                None => None,
            }),
        decreases i,
    {
        i = i - 1;
        proof {
            lemma_first_not_set_range(blocks@, i + 1);
        }
        if let FlatBlockEnd::NotSet = blocks[i].end {
            found = Some(i);
        }
    }
    proof {
        lemma_first_not_set_range(blocks@, 0);
    }
    found
}

} // verus!
