//! The problem instance as the engines read it.
use vstd::prelude::*;
use crate::model::{sum_nat, nats, lemma_sum_nat_push};
use crate::bignat::{BigNat, vals, big_add, big_le, big_to_u128, big_eq};

verus! {

/// A subset-sum instance with the aggregates the engines consult.
pub struct Profile {
    pub numbers: Vec<BigNat>,
    pub target: BigNat,
    pub n: usize,
    pub total_sum: BigNat,
    pub min_val: BigNat,
    pub max_val: BigNat,
    /// The instance was recognized as an encoding of a SAT formula.
    pub sat_encoded: bool,
}

/// Smallest value of a non-empty sequence.
pub open spec fn seq_min(s: Seq<nat>) -> nat
    decreases s.len(),
{
    if s.len() <= 1 {
        if s.len() == 0 { 0 } else { s[0] }
    } else {
        let m = seq_min(s.drop_last());
        if s.last() < m { s.last() } else { m }
    }
}

/// Largest value of a sequence (0 when empty).
pub open spec fn seq_max(s: Seq<nat>) -> nat
    decreases s.len(),
{
    if s.len() == 0 {
        0
    } else {
        let m = seq_max(s.drop_last());
        if s.last() > m { s.last() } else { m }
    }
}

pub proof fn lemma_elem_le_sum(s: Seq<nat>, i: int)
    requires
        0 <= i < s.len(),
    ensures
        s[i] <= sum_nat(s),
    decreases s.len(),
{
    if i < s.len() - 1 {
        lemma_elem_le_sum(s.drop_last(), i);
    }
}

impl Profile {
    /// The aggregates agree with `numbers`.
    pub open spec fn wf(&self) -> bool {
        &&& self.n == self.numbers.len()
        &&& self.total_sum@ == sum_nat(vals(self.numbers@))
        &&& self.min_val@ == seq_min(vals(self.numbers@))
        &&& self.max_val@ == seq_max(vals(self.numbers@))
    }

    /// The values of the numbers.
    pub open spec fn values(&self) -> Seq<nat> {
        vals(self.numbers@)
    }

    /// Builds the profile of `numbers` and `target`.
    pub fn new(numbers: Vec<BigNat>, target: BigNat) -> (p: Profile)
        ensures
            p.wf(),
            p.numbers@ == numbers@,
            p.target@ == target@,
            !p.sat_encoded,
    {
        let mut total = BigNat::zero();
        let mut lo = BigNat::zero();
        let mut hi = BigNat::zero();
        let mut i: usize = 0;
        while i < numbers.len()
            invariant
                0 <= i <= numbers.len(),
                total@ == sum_nat(vals(numbers@.take(i as int))),
                lo@ == seq_min(vals(numbers@.take(i as int))),
                hi@ == seq_max(vals(numbers@.take(i as int))),
            decreases numbers.len() - i,
        {
            let x = &numbers[i];
            proof {
                assert(numbers@.take(i + 1) =~= numbers@.take(i as int).push(numbers@[i as int]));
                assert(vals(numbers@.take(i + 1)) =~= vals(numbers@.take(i as int)).push(x@));
                assert(vals(numbers@.take(i + 1)).drop_last() =~= vals(numbers@.take(i as int)));
                lemma_sum_nat_push(vals(numbers@.take(i as int)), x@);
            }
            total = big_add(&total, x);
            if i == 0 || !big_le(&lo, x) {
                lo = x.copy();
            }
            if !big_le(x, &hi) {
                hi = x.copy();
            }
            i += 1;
        }
        proof {
            assert(numbers@.take(numbers.len() as int) =~= numbers@);
        }
        let n = numbers.len();
        Profile { numbers, target, n, total_sum: total, min_val: lo, max_val: hi, sat_encoded: false }
    }

    /// Every subset sum and the target fit in a `u128`.
    pub fn u128_safe(&self) -> (r: bool)
        ensures
            r == (self.total_sum@ <= u128::MAX && self.target@ <= u128::MAX),
    {
        big_to_u128(&self.total_sum).is_some() && big_to_u128(&self.target).is_some()
    }

    /// The target as a `u128`.
    pub fn target_u128(&self) -> (r: u128)
        requires
            self.target@ <= u128::MAX,
        ensures
            r as nat == self.target@,
    {
        match big_to_u128(&self.target) {
            Some(v) => v,
            None => 0,
        }
    }

    /// The numbers as `u128`s.
    pub fn numbers_u128(&self) -> (r: Vec<u128>)
        requires
            self.wf(),
            self.total_sum@ <= u128::MAX,
        ensures
            nats(r@) == self.values(),
    {
        let mut r: Vec<u128> = Vec::new();
        let mut i: usize = 0;
        while i < self.numbers.len()
            invariant
                self.wf(),
                self.total_sum@ <= u128::MAX,
                0 <= i <= self.numbers.len(),
                r.len() == i,
                forall|k: int| 0 <= k < i ==> r@[k] as nat == #[trigger] self.numbers@[k]@,
            decreases self.numbers.len() - i,
        {
            proof {
                lemma_elem_le_sum(vals(self.numbers@), i as int);
            }
            let v = match big_to_u128(&self.numbers[i]) {
                Some(v) => v,
                None => 0,
            };
            r.push(v);
            i += 1;
        }
        proof {
            assert(nats(r@) =~= self.values());
        }
        r
    }

    /// How many of the numbers equal `x` in value.
    pub fn count_of(&self, x: &BigNat) -> (r: usize)
        ensures
            r as nat == self.values().to_multiset().count(x@),
    {
        count_in(&self.numbers, x)
    }

    /// Whether `sol` uses each value at most as often as the numbers hold
    /// it.
    pub fn counts_fit(&self, sol: &Vec<BigNat>) -> (r: bool)
        ensures
            r == (forall|k: int|
                0 <= k < sol.len() ==> vals(sol@).to_multiset().count(#[trigger] sol@[k]@) <= self.values().to_multiset().count(
                    sol@[k]@,
                )),
            r ==> crate::model::sub_multiset(vals(sol@), self.values()),
    {
        let mut k: usize = 0;
        while k < sol.len()
            invariant
                k <= sol.len(),
                forall|j: int|
                    0 <= j < k ==> vals(sol@).to_multiset().count(#[trigger] sol@[j]@) <= self.values().to_multiset().count(
                        sol@[j]@,
                    ),
            decreases sol.len() - k,
        {
            let need = count_in(sol, &sol[k]);
            let have = self.count_of(&sol[k]);
            if need > have {
                return false;
            }
            k += 1;
        }
        proof {
            broadcast use vstd::seq_lib::group_to_multiset_ensures, vstd::multiset::group_multiset_axioms;
            assert forall|v: nat| vals(sol@).to_multiset().count(v) <= self.values().to_multiset().count(v) by {
                if vals(sol@).to_multiset().count(v) > 0 {
                    assert(vals(sol@).contains(v));
                    let j = choose|j: int| 0 <= j < vals(sol@).len() && vals(sol@)[j] == v;
                    assert(sol@[j]@ == v);
                }
            }
        }
        true
    }
}

/// How many entries of `s` equal `x` in value.
pub fn count_in(s: &Vec<BigNat>, x: &BigNat) -> (r: usize)
    ensures
        r as nat == vals(s@).to_multiset().count(x@),
{
    let mut c: usize = 0;
    let mut i: usize = 0;
    proof {
        broadcast use vstd::seq_lib::group_to_multiset_ensures, vstd::multiset::group_multiset_axioms;
        assert(vals(s@.take(0)) =~= Seq::<nat>::empty());
        assert(Seq::<nat>::empty().to_multiset().len() == 0);
    }
    while i < s.len()
        invariant
            0 <= i <= s.len(),
            c as nat == vals(s@.take(i as int)).to_multiset().count(x@),
            c <= i,
        decreases s.len() - i,
    {
        proof {
            broadcast use vstd::seq_lib::group_to_multiset_ensures, vstd::multiset::group_multiset_axioms;
            assert(vals(s@.take(i + 1)) =~= vals(s@.take(i as int)).push(s@[i as int]@));
            assert(vals(Seq::<BigNat>::empty()) =~= Seq::<nat>::empty());
        }
        if big_eq(&s[i], x) {
            c += 1;
        }
        i += 1;
    }
    proof {
        broadcast use vstd::seq_lib::group_to_multiset_ensures, vstd::multiset::group_multiset_axioms;
        assert(s@.take(s.len() as int) =~= s@);
        if s.len() == 0 {
            assert(vals(s@.take(0)) =~= Seq::<nat>::empty());
        }
    }
    c
}

} // verus!
