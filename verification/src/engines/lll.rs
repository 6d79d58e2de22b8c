//! The lattice engine's exact parts.  For `n` numbers the lattice has
//! `n + 1` rows: row `i < n` is the unit vector `e_i` followed by
//! `nf * a_i`, the last row is zero followed by `nf * target`.  A reduced
//! basis is read back by [`find_subset_row`]: a row whose first `n` entries
//! are all 0 or 1 names the numbers at its ones.  The reduction itself runs
//! on floating-point Gram-Schmidt coefficients and is not part of this
//! module.
use vstd::prelude::*;
use vstd::arithmetic::power2::pow2;
use crate::model::{sum_nat, sub_multiset, is_solution};
use crate::bignat::{BigNat, vals, bit_len, big_mul, big_shl, big_add, big_eq, big_from_u128, big_bits};
use crate::profile::Profile;
use super::sum_big;

verus! {

broadcast use vstd::seq_lib::group_to_multiset_ensures, vstd::multiset::group_multiset_axioms;

/// The smallest size the engine takes.
pub const LLL_MIN_N: usize = 4;
/// The largest size the engine takes.
pub const LLL_MAX_N: usize = 30;

/// The engine.
pub struct LLLSolver;

/// The largest of ascending `s`, or 1 when `s` is empty.
pub open spec fn last_or_one(s: Seq<nat>) -> nat {
    if s.len() == 0 { 1 } else { s.last() }
}

/// The weight of the last column: `max * 2^n * scale + 1`.
pub open spec fn nf_value(s: Seq<nat>, n: nat, scale: nat) -> nat {
    last_or_one(s) * pow2(n) * scale + 1
}

/// Entry `(i, j)` of the lattice for `nums`, `target` and weight `nf`.
pub open spec fn lattice_entry(nums: Seq<nat>, target: nat, nf: nat, n: int, i: int, j: int) -> nat {
    if i < n {
        if j == i { 1 } else if j == n { nf * nums[i] } else { 0 }
    } else {
        if j == n { nf * target } else { 0 }
    }
}

/// The first `n` entries of `row` are all 0 or 1.
pub open spec fn row01(row: Seq<nat>, n: int) -> bool {
    forall|i: int| 0 <= i < n ==> #[trigger] row[i] <= 1
}

/// The numbers at the ones among the first `n` entries of `row`.
pub open spec fn row_pick(row: Seq<nat>, nums: Seq<nat>, n: int) -> Seq<nat>
    decreases n,
{
    if n <= 0 {
        Seq::empty()
    } else {
        let r = row_pick(row, nums, n - 1);
        if row[n - 1] == 1 { r.push(nums[n - 1]) } else { r }
    }
}

/// `row` names a non-empty subset of `nums` that sums to `target`.
pub open spec fn row_hit(row: Seq<nat>, nums: Seq<nat>, n: int, target: nat) -> bool {
    &&& row01(row, n)
    &&& row_pick(row, nums, n).len() > 0
    &&& sum_nat(row_pick(row, nums, n)) == target
}

/// What a reduced basis gives back: the numbers of the first row that
/// [`row_hit`]s, if any does.
pub open spec fn first_hit(rows: Seq<Seq<nat>>, nums: Seq<nat>, n: int, target: nat, k: int) -> bool {
    &&& 0 <= k < rows.len()
    &&& row_hit(rows[k], nums, n, target)
    &&& forall|j: int| 0 <= j < k ==> !row_hit(#[trigger] rows[j], nums, n, target)
}

/// The values of each row.
pub open spec fn row_vals(basis: Seq<Vec<BigNat>>) -> Seq<Seq<nat>> {
    basis.map_values(|r: Vec<BigNat>| vals(r@))
}

proof fn lemma_row_pick_sub(row: Seq<nat>, nums: Seq<nat>, n: int)
    requires
        0 <= n <= nums.len(),
    ensures
        sub_multiset(row_pick(row, nums, n), nums.take(n)),
    decreases n,
{
    if n == 0 {
        crate::model::lemma_sub_multiset_empty(nums.take(0));
    } else {
        lemma_row_pick_sub(row, nums, n - 1);
        assert(nums.take(n) =~= nums.take(n - 1).push(nums[n - 1]));
        crate::model::lemma_sub_multiset_push(row_pick(row, nums, n - 1), nums.take(n - 1), nums[n - 1]);
    }
}

/// A row hit is a solution of the instance.
pub proof fn lemma_row_hit_solution(row: Seq<nat>, nums: Seq<nat>, n: int, target: nat)
    requires
        0 <= n <= nums.len(),
        row_hit(row, nums, n, target),
    ensures
        is_solution(nums, row_pick(row, nums, n), target),
{
    lemma_row_pick_sub(row, nums, n);
    crate::model::lemma_slice_sub(nums, 0, n);
    assert(nums.subrange(0, n) =~= nums.take(n));
    crate::model::lemma_sub_multiset_trans(row_pick(row, nums, n), nums.take(n), nums);
}

impl LLLSolver {
    pub fn name(&self) -> (r: &'static str)
        ensures
            r@ == "LLLSolver"@,
    {
        "LLLSolver"
    }

    /// Whether the engine takes the instance: 4 to 30 numbers, a largest
    /// number of at least one bit, and a density `n / bits(max)` of at most
    /// 0.65 (tested exactly as `20 n <= 13 bits(max)`).
    pub fn applies(&self, p: &Profile) -> (r: bool)
        requires
            p.wf(),
        ensures
            r == (LLL_MIN_N <= p.n <= LLL_MAX_N && bit_len(p.max_val@) >= 1
                && 20 * p.n <= 13 * bit_len(p.max_val@)),
    {
        if p.n < LLL_MIN_N || p.n > LLL_MAX_N {
            return false;
        }
        let bits = big_bits(&p.max_val);
        if bits < 1 {
            return false;
        }
        if bits >= 100 {
            true
        } else {
            20 * (p.n as u64) <= 13 * bits
        }
    }
}

/// The weight of the last column for ascending `nums`:
/// `max * 2^n * scale + 1`, with 1 standing for the maximum of no numbers.
pub fn compute_nf(nums: &Vec<BigNat>, n: u32, scale: u64) -> (r: BigNat)
    ensures
        r@ == nf_value(vals(nums@), n as nat, scale as nat),
{
    let max_val = if nums.len() == 0 { big_from_u128(1) } else { nums[nums.len() - 1].copy() };
    let shifted = big_shl(&max_val, n);
    let sc = big_from_u128(scale as u128);
    let prod = big_mul(&shifted, &sc);
    let one = big_from_u128(1);
    proof {
        assert(vals(nums@).len() == nums@.len());
        if nums.len() > 0 {
            assert(vals(nums@).last() == nums@[nums.len() - 1]@);
        }
    }
    big_add(&prod, &one)
}

/// The `(n + 1) x (n + 1)` lattice of [`lattice_entry`].
pub fn build_lattice(nums: &Vec<BigNat>, target: &BigNat, nf: &BigNat, n: usize) -> (r: Vec<Vec<BigNat>>)
    requires
        n <= nums.len(),
        n < usize::MAX,
    ensures
        r.len() == n + 1,
        forall|i: int| 0 <= i <= n ==> (#[trigger] r@[i]).len() == n + 1,
        forall|i: int, j: int| 0 <= i <= n && 0 <= j <= n ==>
            (#[trigger] r@[i]@[j])@ == lattice_entry(vals(nums@), target@, nf@, n as int, i, j),
{
    let dim = n + 1;
    let mut basis: Vec<Vec<BigNat>> = Vec::new();
    let mut i: usize = 0;
    while i < dim
        invariant
            dim == n + 1,
            n <= nums.len(),
            i <= dim,
            basis.len() == i,
            forall|a: int| 0 <= a < i ==> (#[trigger] basis@[a]).len() == dim,
            forall|a: int, j: int| 0 <= a < i && 0 <= j < dim ==>
                (#[trigger] basis@[a]@[j])@ == lattice_entry(vals(nums@), target@, nf@, n as int, a, j),
        decreases dim - i,
    {
        let mut row: Vec<BigNat> = Vec::new();
        let mut j: usize = 0;
        while j < dim
            invariant
                dim == n + 1,
                n <= nums.len(),
                i < dim,
                j <= dim,
                row.len() == j,
                forall|b: int| 0 <= b < j ==>
                    (#[trigger] row@[b])@ == lattice_entry(vals(nums@), target@, nf@, n as int, i as int, b),
            decreases dim - j,
        {
            let e = if j == n {
                if i < n {
                    big_mul(nf, &nums[i])
                } else {
                    big_mul(nf, target)
                }
            } else if i == j {
                big_from_u128(1)
            } else {
                BigNat::zero()
            };
            row.push(e);
            j += 1;
        }
        basis.push(row);
        i += 1;
    }
    basis
}

/// The numbers at the ones of `row`'s first `n` entries, or nothing when
/// one of those entries is neither 0 nor 1.
fn row_subset(row: &Vec<BigNat>, nums: &Vec<BigNat>, n: usize) -> (r: Option<Vec<BigNat>>)
    requires
        n <= nums.len(),
        n <= row.len(),
    ensures
        r is Some <==> row01(vals(row@), n as int),
        r matches Some(s) ==> vals(s@) == row_pick(vals(row@), vals(nums@), n as int),
{
    let zero = BigNat::zero();
    let one = big_from_u128(1);
    let mut subset: Vec<BigNat> = Vec::new();
    let mut i: usize = 0;
    while i < n
        invariant
            i <= n,
            n <= nums.len(),
            n <= row.len(),
            zero@ == 0,
            one@ == 1,
            row01(vals(row@), i as int),
            vals(subset@) == row_pick(vals(row@), vals(nums@), i as int),
        decreases n - i,
    {
        let ghost before = subset@;
        if big_eq(&row[i], &one) {
            subset.push(nums[i].copy());
            proof {
                assert(vals(subset@) =~= vals(before).push(nums@[i as int]@));
            }
        } else if !big_eq(&row[i], &zero) {
            proof {
                assert(vals(row@)[i as int] > 1);
            }
            return None;
        }
        proof {
            assert forall|k: int| 0 <= k < i + 1 implies #[trigger] vals(row@)[k] <= 1 by {
                if k < i {
                    assert(row01(vals(row@), i as int));
                }
            }
        }
        i += 1;
    }
    Some(subset)
}

/// The numbers named by the first row of `basis` whose first `n` entries
/// are all 0 or 1, name at least one number, and sum to `target`.
pub fn find_subset_row(basis: &Vec<Vec<BigNat>>, nums: &Vec<BigNat>, target: &BigNat, n: usize) -> (r: Option<Vec<BigNat>>)
    requires
        n <= nums.len(),
        forall|k: int| 0 <= k < basis.len() ==> n <= (#[trigger] basis@[k]).len(),
    ensures
        r matches Some(s) ==> exists|k: int| first_hit(row_vals(basis@), vals(nums@), n as int, target@, k)
            && vals(s@) == row_pick(row_vals(basis@)[k], vals(nums@), n as int),
        r matches Some(s) ==> is_solution(vals(nums@), vals(s@), target@),
        r is None ==> forall|k: int| 0 <= k < basis.len() ==> !row_hit(#[trigger] row_vals(basis@)[k], vals(nums@), n as int, target@),
{
    let ghost rows = row_vals(basis@);
    let mut k: usize = 0;
    while k < basis.len()
        invariant
            k <= basis.len(),
            n <= nums.len(),
            rows == row_vals(basis@),
            forall|q: int| 0 <= q < basis.len() ==> n <= (#[trigger] basis@[q]).len(),
            forall|j: int| 0 <= j < k ==> !row_hit(#[trigger] rows[j], vals(nums@), n as int, target@),
        decreases basis.len() - k,
    {
        proof {
            assert(rows[k as int] == vals(basis@[k as int]@));
        }
        match row_subset(&basis[k], nums, n) {
            Some(s) => {
                if s.len() > 0 {
                    let total = sum_big(&s);
                    if big_eq(&total, target) {
                        proof {
                            assert(first_hit(rows, vals(nums@), n as int, target@, k as int));
                            lemma_row_hit_solution(rows[k as int], vals(nums@), n as int, target@);
                        }
                        return Some(s);
                    }
                }
            },
            None => {},
        }
        k += 1;
    }
    None
}

} // verus!
