use vstd::prelude::*;

use crate::program::PreCost;

verus! {

/// A cost type and how costs of different branches combine into what covers all of them.
pub trait CostTypeTrait: Sized {
    /// The cost that covers each of `values`.
    spec fn spec_max(values: Seq<Self>) -> Self;

    fn max(values: &Vec<Self>) -> (r: Self)
        ensures
            r == Self::spec_max(values@),
    ;
}

/// The largest of the values, or zero for none.
pub open spec fn seq_max(values: Seq<i64>) -> i64
    decreases values.len(),
{
    if values.len() == 0 {
        0
    } else if values.len() == 1 {
        values[0]
    } else {
        let m = seq_max(values.drop_last());
        if m >= values.last() { m } else { values.last() }
    }
}

/// The component-wise maximum of the values: each token takes its largest value, which may
/// come from a different value for each token; zero for none.
pub open spec fn pre_cost_max(values: Seq<PreCost>) -> PreCost
    decreases values.len(),
{
    if values.len() == 0 {
        PreCost { pedersen: 0, bitwise: 0, ec_op: 0 }
    } else if values.len() == 1 {
        values[0]
    } else {
        let m = pre_cost_max(values.drop_last());
        let v = values.last();
        PreCost {
            pedersen: if m.pedersen >= v.pedersen { m.pedersen } else { v.pedersen },
            bitwise: if m.bitwise >= v.bitwise { m.bitwise } else { v.bitwise },
            ec_op: if m.ec_op >= v.ec_op { m.ec_op } else { v.ec_op },
        }
    }
}

impl CostTypeTrait for i64 {
    open spec fn spec_max(values: Seq<i64>) -> i64 {
        seq_max(values)
    }

    fn max(values: &Vec<i64>) -> (r: i64) {
        let mut r: i64 = 0;
        let mut i: usize = 0;
        while i < values.len()
            invariant
                i <= values@.len(),
                r == seq_max(values@.subrange(0, i as int)),
            decreases values@.len() - i,
        {
            let v = values[i];
            assert(values@.subrange(0, i + 1).drop_last() =~= values@.subrange(0, i as int));
            r = if i == 0 || v > r { v } else { r };
            i = i + 1;
        }
        assert(values@.subrange(0, values@.len() as int) =~= values@);
        r
    }
}

impl CostTypeTrait for PreCost {
    open spec fn spec_max(values: Seq<PreCost>) -> PreCost {
        pre_cost_max(values)
    }

    fn max(values: &Vec<PreCost>) -> (r: PreCost) {
        let mut r = PreCost { pedersen: 0, bitwise: 0, ec_op: 0 };
        let mut i: usize = 0;
        while i < values.len()
            invariant
                i <= values@.len(),
                r == pre_cost_max(values@.subrange(0, i as int)),
            decreases values@.len() - i,
        {
            let v = values[i];
            assert(values@.subrange(0, i + 1).drop_last() =~= values@.subrange(0, i as int));
            r = if i == 0 {
                v
            } else {
                PreCost {
                    pedersen: if r.pedersen >= v.pedersen { r.pedersen } else { v.pedersen },
                    bitwise: if r.bitwise >= v.bitwise { r.bitwise } else { v.bitwise },
                    ec_op: if r.ec_op >= v.ec_op { r.ec_op } else { v.ec_op },
                }
            };
            i = i + 1;
        }
        assert(values@.subrange(0, values@.len() as int) =~= values@);
        r
    }
}

} // verus!
