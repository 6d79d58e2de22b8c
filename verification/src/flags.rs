//! Subsets given by one flag per position.
use vstd::prelude::*;
use crate::model::{sum_nat, sub_multiset, lemma_sum_nat_push, lemma_sub_multiset_push, lemma_sub_multiset_empty};
use crate::bignat::{BigNat, vals};

verus! {

/// The values whose flag is set, in order.
pub open spec fn flagged(s: Seq<nat>, f: Seq<bool>) -> Seq<nat>
    decreases s.len(),
{
    if s.len() == 0 {
        Seq::empty()
    } else {
        let rest = flagged(s.drop_last(), f);
        if s.len() - 1 < f.len() && f[s.len() - 1] {
            rest.push(s.last())
        } else {
            rest
        }
    }
}

/// The sum of the values whose flag is set.
pub open spec fn flag_sum(s: Seq<nat>, f: Seq<bool>) -> nat {
    sum_nat(flagged(s, f))
}

/// The flagged values are a sub-multiset of all values.
pub proof fn lemma_flagged_sub(s: Seq<nat>, f: Seq<bool>)
    ensures
        sub_multiset(flagged(s, f), s),
    decreases s.len(),
{
    broadcast use vstd::seq_lib::group_to_multiset_ensures, vstd::multiset::group_multiset_axioms;

    if s.len() == 0 {
        lemma_sub_multiset_empty(s);
    } else {
        lemma_flagged_sub(s.drop_last(), f);
        assert(s.drop_last().push(s.last()) =~= s);
        lemma_sub_multiset_push(flagged(s.drop_last(), f), s.drop_last(), s.last());
    }
}

/// With no flag set nothing is flagged.
pub proof fn lemma_flagged_none(s: Seq<nat>, f: Seq<bool>)
    requires
        forall|i: int| 0 <= i < f.len() ==> !f[i],
    ensures
        flagged(s, f) == Seq::<nat>::empty(),
    decreases s.len(),
{
    if s.len() > 0 {
        lemma_flagged_none(s.drop_last(), f);
    }
}

/// Setting one more flag adds its value to the sum.
pub proof fn lemma_flag_sum_set(s: Seq<nat>, f: Seq<bool>, i: int)
    requires
        0 <= i < s.len(),
        i < f.len(),
        !f[i],
    ensures
        flag_sum(s, f.update(i, true)) == flag_sum(s, f) + s[i],
    decreases s.len(),
{
    let g = f.update(i, true);
    let k = s.len() - 1;
    if i == k {
        assert(flagged(s.drop_last(), g) == flagged(s.drop_last(), f)) by {
            lemma_flagged_agree(s.drop_last(), f, g);
        }
        lemma_sum_nat_push(flagged(s.drop_last(), f), s.last());
    } else {
        lemma_flag_sum_set(s.drop_last(), f, i);
        if f[k] {
            lemma_sum_nat_push(flagged(s.drop_last(), f), s.last());
            lemma_sum_nat_push(flagged(s.drop_last(), g), s.last());
        }
    }
}

/// Only the flags of existing positions matter.
pub proof fn lemma_flagged_agree(s: Seq<nat>, f: Seq<bool>, g: Seq<bool>)
    requires
        forall|j: int| 0 <= j < s.len() ==> (j < f.len() && f[j]) == (j < g.len() && g[j]),
    ensures
        flagged(s, f) == flagged(s, g),
    decreases s.len(),
{
    if s.len() > 0 {
        lemma_flagged_agree(s.drop_last(), f, g);
    }
}

/// Copies of the numbers whose flag is set, in order.
pub fn select_flags(nums: &Vec<BigNat>, flags: &Vec<bool>) -> (r: Vec<BigNat>)
    ensures
        vals(r@) == flagged(vals(nums@), flags@),
        sub_multiset(vals(r@), vals(nums@)),
{
    let mut r: Vec<BigNat> = Vec::new();
    let mut i: usize = 0;
    proof {
        assert(vals(nums@).take(0).len() == 0);
        assert(vals(r@) =~= flagged(vals(nums@).take(0), flags@));
    }
    while i < nums.len()
        invariant
            i <= nums.len(),
            vals(r@) == flagged(vals(nums@).take(i as int), flags@),
        decreases nums.len() - i,
    {
        let ghost before = r@;
        proof {
            assert(vals(nums@).take(i + 1).drop_last() =~= vals(nums@).take(i as int));
        }
        if i < flags.len() && flags[i] {
            r.push(nums[i].copy());
            proof {
                assert(vals(r@) =~= vals(before).push(nums@[i as int]@));
            }
        }
        i += 1;
    }
    proof {
        assert(vals(nums@).take(nums.len() as int) =~= vals(nums@));
        lemma_flagged_sub(vals(nums@), flags@);
    }
    r
}

} // verus!
