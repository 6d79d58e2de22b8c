//! Extended representations: each number of a short quarter takes a
//! coefficient 0 to 3, the four quarters are combined pairwise through a
//! hash table, and a combination is kept only if its coefficient-one
//! numbers alone sum to the target.  The engine's window (48 to 60 numbers
//! with quarters of at most 10) is empty, so it never searches.
use vstd::prelude::*;
use std::sync::atomic::AtomicBool;
use std::collections::HashMap;
use crate::model::{sum_nat, nats, sub_multiset, is_solution};
use crate::bignat::vals;
use crate::profile::Profile;
use crate::stop::stop_requested;
use super::{Search, to_big, lemma_u128_found, sum_u128_checked};
use super::schroeppel_shamir::slice_to_vec;
use super::bcj::{code_at, picked, clamp_i128, abs_int};

verus! {

broadcast use vstd::std_specs::hash::group_hash_axioms;

/// The smallest size the engine takes.
pub const BON_MIN_N: usize = 48;
/// The largest size the engine takes.
pub const BON_MAX_N: usize = 60;
/// The longest quarter the engine takes.
pub const BON_MAX_Q: usize = 10;

/// The engine.
pub struct BonnetainEngine;

/// `a + b`, clamped to the `i128` range.
pub fn sat_add(a: i128, b: i128) -> (r: i128)
    ensures
        r == (if a + b > i128::MAX { i128::MAX as int } else if a + b < i128::MIN { i128::MIN as int } else { a + b }),
{
    match a.checked_add(b) {
        Some(v) => v,
        None => if b > 0 { i128::MAX } else { i128::MIN },
    }
}

/// `a * b` for `a >= 0, b >= 0`, clamped to the `i128` range.
pub fn sat_mul_nonneg(a: i128, b: i128) -> (r: i128)
    requires
        a >= 0,
        b >= 0,
    ensures
        r == (if a * b > i128::MAX { i128::MAX as int } else { a * b }),
{
    match a.checked_mul(b) {
        Some(v) => v,
        None => i128::MAX,
    }
}

/// `|x|` as an unsigned number.
pub fn unsigned_abs(x: i128) -> (r: u128)
    ensures
        r as int == (if x < 0 { -x } else { x as int }),
{
    if x >= 0 {
        x as u128
    } else if x == i128::MIN {
        0x8000_0000_0000_0000_0000_0000_0000_0000u128
    } else {
        (-x) as u128
    }
}

/// The numbers of `nums` whose two-bit coefficient in `mask` is one, or
/// nothing when some coefficient is two or three.
pub fn coeff_mask_to_values(mask: u64, nums: &Vec<u128>) -> (r: Vec<u128>)
    requires
        nums.len() <= 32,
    ensures
        r@ == (if exists|i: int| 0 <= i < nums.len() && #[trigger] code_at(mask, i) > 1 {
            Seq::<u128>::empty()
        } else {
            picked(mask, nums@, 1)
        }),
        sub_multiset(r@, nums@),
{
    let mut v: Vec<u128> = Vec::new();
    let mut i: usize = 0;
    proof {
        crate::model::lemma_sub_multiset_empty(nums@.take(0));
        assert(nums@.take(0) =~= Seq::<u128>::empty());
    }
    while i < nums.len()
        invariant
            i <= nums.len(),
            nums.len() <= 32,
            sub_multiset(v@, nums@.take(i as int)),
            v@ == picked(mask, nums@.take(i as int), 1),
            forall|k: int| 0 <= k < i ==> #[trigger] code_at(mask, k) <= 1,
        decreases nums.len() - i,
    {
        let coeff = (mask >> ((i * 2) as u64)) & 3u64;
        assert(coeff == code_at(mask, i as int));
        let ghost before = v@;
        proof {
            assert(nums@.take(i + 1) =~= nums@.take(i as int).push(nums@[i as int]));
            assert(nums@.take(i + 1).drop_last() =~= nums@.take(i as int));
            crate::model::lemma_sub_multiset_push(before, nums@.take(i as int), nums@[i as int]);
        }
        if coeff == 1 {
            v.push(nums[i]);
        } else if coeff > 1 {
            let empty: Vec<u128> = Vec::new();
            proof {
                crate::model::lemma_sub_multiset_empty(nums@);
                assert(empty@ =~= Seq::<u128>::empty());
            }
            return empty;
        }
        i += 1;
    }
    proof {
        assert(nums@.take(nums.len() as int) =~= nums@);
    }
    v
}

/// `code` shifted down by `i` base-4 digits.
pub open spec fn shift4(code: u64, i: nat) -> u64
    decreases i,
{
    if i == 0 {
        code
    } else {
        shift4(code, (i - 1) as nat) / 4
    }
}

/// The running sum, mask and "still within the bound" after the first `i`
/// numbers under the coefficient vector `code` (coefficient `k` is the
/// `k`-th base-4 digit); a sum that left the bound stops the walk.
pub open spec fn ext_state(nums: Seq<u128>, code: u64, bound: int, i: nat) -> (i128, u64, bool)
    decreases i,
{
    if i == 0 {
        (0i128, 0u64, true)
    } else {
        let prev = ext_state(nums, code, bound, (i - 1) as nat);
        if !prev.2 {
            prev
        } else {
            let coeff = shift4(code, (i - 1) as nat) % 4;
            let v = nums[i - 1] as i128;
            let s: i128 = if coeff > 0 { clamp_i128(prev.0 + clamp_i128(v * coeff)) as i128 } else { prev.0 };
            let mask: u64 = if coeff > 0 { prev.1 | (coeff << (((i - 1) * 2) as u64)) } else { prev.1 };
            (s, mask, abs_int(s as int) <= bound)
        }
    }
}

/// The `(sum, mask)` of the first `c` coefficient vectors, in order, that
/// stay within the bound.
pub open spec fn ext_list(nums: Seq<u128>, bound: int, c: nat) -> Seq<(i128, u64)>
    decreases c,
{
    if c == 0 {
        Seq::empty()
    } else {
        let prev = ext_list(nums, bound, (c - 1) as nat);
        let st = ext_state(nums, (c - 1) as u64, bound, nums.len());
        if st.2 { prev.push((st.0, st.1)) } else { prev }
    }
}

/// The bound `4 |target| + 1`, computed with clamping.
pub open spec fn ext_bound(target: i128) -> int {
    let at: int = if target == i128::MIN { i128::MAX as int } else { abs_int(target as int) };
    let four = clamp_i128(at * 4);
    clamp_i128(four + 1)
}

proof fn lemma_ext_stays_out(nums: Seq<u128>, code: u64, bound: int, i: nat, j: nat)
    requires
        i <= j,
        !ext_state(nums, code, bound, i).2,
    ensures
        !ext_state(nums, code, bound, j).2,
    decreases j - i,
{
    if i < j {
        lemma_ext_stays_out(nums, code, bound, i, (j - 1) as nat);
    }
}

/// Every coefficient vector (0 to 3 per number) whose running sum stays
/// within `4 |target| + 1`, as `(sum, two-bit mask)`; nothing for more
/// than 10 numbers, the empty vector alone for none.
pub fn enumerate_extended(nums: &Vec<u128>, target: i128, stop: &AtomicBool) -> (r: Vec<(i128, u64)>)
    ensures
        nums.len() > BON_MAX_Q ==> r.len() == 0,
        nums.len() == 0 ==> r@ == seq![(0i128, 0u64)],
        1 <= nums.len() <= BON_MAX_Q ==> r@ == ext_list(nums@, ext_bound(target), pow4_spec(nums.len() as nat)),
{
    let q = nums.len();
    let mut out: Vec<(i128, u64)> = Vec::new();
    if q == 0 {
        out.push((0, 0));
        return out;
    }
    if q > BON_MAX_Q {
        return out;
    }
    let bound = sat_add(sat_mul_nonneg(unsigned_abs_i128(target), 4), 1);
    assert(bound as int == ext_bound(target));
    let ghost bd = bound as int;
    let total: u64 = pow4(q);
    let mut code: u64 = 0;
    proof {
        assert(out@ =~= ext_list(nums@, bd, 0));
    }
    while code < total
        invariant
            q == nums.len(),
            1 <= q <= BON_MAX_Q,
            bd == bound as int,
            bound >= 0,
            code <= total,
            total == pow4_spec(q as nat),
            out@ == ext_list(nums@, bd, code as nat),
        decreases total - code,
    {
        let mut s: i128 = 0;
        let mut mask: u64 = 0;
        let mut t = code;
        let mut ok = true;
        let mut i: usize = 0;
        while i < q
            invariant_except_break
                ok,
                t == shift4(code, i as nat),
                (s, mask, true) == ext_state(nums@, code, bd, i as nat),
            invariant
                i <= q,
                q == nums.len(),
                q <= BON_MAX_Q,
                bd == bound as int,
                bound >= 0,
                !ok ==> !ext_state(nums@, code, bd, q as nat).2,
            ensures
                ok ==> (s, mask, true) == ext_state(nums@, code, bd, q as nat),
                !ok ==> !ext_state(nums@, code, bd, q as nat).2,
            decreases q - i,
        {
            let coeff = t % 4;
            t = t / 4;
            if coeff > 0 {
                let v: i128 = nums[i] as i128;
                let add = if v >= 0 { sat_mul_nonneg(v, coeff as i128) } else { sat_neg_mul(v, coeff as i128) };
                s = sat_add(s, add);
                mask = mask | (coeff << ((i * 2) as u64));
            }
            proof {
                assert(coeff == shift4(code, i as nat) % 4);
                assert(t == shift4(code, (i + 1) as nat));
            }
            if unsigned_abs(s) > (bound as u128) {
                ok = false;
                proof {
                    assert(!ext_state(nums@, code, bd, (i + 1) as nat).2);
                    lemma_ext_stays_out(nums@, code, bd, (i + 1) as nat, q as nat);
                }
                break;
            }
            proof {
                assert((s, mask, true) == ext_state(nums@, code, bd, (i + 1) as nat));
            }
            i += 1;
        }
        if ok {
            out.push((s, mask));
        }
        proof {
            assert(out@ =~= ext_list(nums@, bd, (code + 1) as nat));
        }
        code += 1;
    }
    out
}

/// `|x|` kept as an `i128` (the minimum maps to the maximum).
fn unsigned_abs_i128(x: i128) -> (r: i128)
    ensures
        r >= 0,
        r as int == (if x == i128::MIN { i128::MAX as int } else if x < 0 { -x } else { x as int }),
{
    if x >= 0 {
        x
    } else if x == i128::MIN {
        i128::MAX
    } else {
        -x
    }
}

/// `v * c` for `v < 0 <= c`, clamped to the `i128` range.
fn sat_neg_mul(v: i128, c: i128) -> (r: i128)
    requires
        v < 0,
        c >= 0,
    ensures
        r == (if v * c < i128::MIN { i128::MIN as int } else { v * c }),
{
    match v.checked_mul(c) {
        Some(x) => x,
        None => {
            assert(v * c <= 0) by (nonlinear_arith)
                requires
                    v < 0,
                    c >= 0,
            ;
            i128::MIN
        },
    }
}

/// `4^i`.
pub open spec fn pow4_spec(i: nat) -> nat
    decreases i,
{
    if i == 0 { 1 } else { 4 * pow4_spec((i - 1) as nat) }
}

proof fn lemma_pow4_mono(i: nat, j: nat)
    requires
        i <= j,
    ensures
        1 <= pow4_spec(i) <= pow4_spec(j),
    decreases j,
{
    if i < j {
        lemma_pow4_mono(i, (j - 1) as nat);
    } else if i > 0 {
        lemma_pow4_mono((i - 1) as nat, (i - 1) as nat);
    }
}

/// `4^q` for `q <= 10`.
fn pow4(q: usize) -> (r: u64)
    requires
        q <= 10,
    ensures
        r == pow4_spec(q as nat),
        1 <= r <= 0x10_0000,
{
    proof {
        reveal_with_fuel(pow4_spec, 11);
        assert(pow4_spec(10) == 0x10_0000);
        lemma_pow4_mono(q as nat, 10);
    }
    let mut r: u64 = 1;
    let mut i: usize = 0;
    while i < q
        invariant
            i <= q,
            q <= 10,
            r == pow4_spec(i as nat),
            pow4_spec(q as nat) <= 0x10_0000,
        decreases q - i,
    {
        proof {
            lemma_pow4_mono((i + 1) as nat, q as nat);
        }
        r = r * 4;
        i += 1;
    }
    r
}

/// The pairwise combination: `a + b` sums in a table (first pair per
/// total), each `c + d` looking up the rest of the target; a hit counts
/// only if the coefficient-one numbers of its four masks sum to the target.
pub fn wagner4(
    la: &Vec<(i128, u64)>,
    lb: &Vec<(i128, u64)>,
    lc: &Vec<(i128, u64)>,
    ld: &Vec<(i128, u64)>,
    target: i128,
    target_u: u128,
    qa: &Vec<u128>,
    qb: &Vec<u128>,
    qc: &Vec<u128>,
    qd: &Vec<u128>,
    stop: &AtomicBool,
) -> (r: Option<Vec<u128>>)
    requires
        qa.len() <= 32 && qb.len() <= 32 && qc.len() <= 32 && qd.len() <= 32,
    ensures
        r matches Some(sol) ==> sub_multiset(sol@, qa@ + qb@ + qc@ + qd@) && sum_nat(nats(sol@)) == target_u as nat,
{
    let mut ab: HashMap<i128, (u64, u64)> = HashMap::new();
    let mut i: usize = 0;
    while i < la.len()
        invariant
            i <= la.len(),
        decreases la.len() - i,
    {
        let mut j: usize = 0;
        while j < lb.len()
            invariant
                j <= lb.len(),
                i < la.len(),
            decreases lb.len() - j,
        {
            let key = sat_add(la[i].0, lb[j].0);
            if !ab.contains_key(&key) {
                ab.insert(key, (la[i].1, lb[j].1));
            }
            j += 1;
        }
        if stop_requested(stop) {
            return None;
        }
        i += 1;
    }
    let mut c: usize = 0;
    while c < lc.len()
        invariant
            c <= lc.len(),
            qa.len() <= 32 && qb.len() <= 32 && qc.len() <= 32 && qd.len() <= 32,
        decreases lc.len() - c,
    {
        let mut d: usize = 0;
        while d < ld.len()
            invariant
                d <= ld.len(),
                c < lc.len(),
                qa.len() <= 32 && qb.len() <= 32 && qc.len() <= 32 && qd.len() <= 32,
            decreases ld.len() - d,
        {
            let need = sat_sub(target, sat_add(lc[c].0, ld[d].0));
            match ab.get(&need) {
                Some(pair) => {
                    let (ma, mb) = *pair;
                    let mut sol = coeff_mask_to_values(ma, qa);
                    let mut s2 = coeff_mask_to_values(mb, qb);
                    let mut s3 = coeff_mask_to_values(lc[c].1, qc);
                    let mut s4 = coeff_mask_to_values(ld[d].1, qd);
                    let ghost (g1, g2, g3, g4) = (sol@, s2@, s3@, s4@);
                    sol.append(&mut s2);
                    sol.append(&mut s3);
                    sol.append(&mut s4);
                    match sum_u128_checked(&sol) {
                        Some(check) => {
                            if check == target_u {
                                proof {
                                    assert(sol@ =~= ((g1 + g2) + g3) + g4);
                                    crate::model::lemma_sub_multiset_concat(g1, qa@, g2, qb@);
                                    crate::model::lemma_sub_multiset_concat(g1 + g2, qa@ + qb@, g3, qc@);
                                    crate::model::lemma_sub_multiset_concat((g1 + g2) + g3, (qa@ + qb@) + qc@, g4, qd@);
                                }
                                return Some(sol);
                            }
                        },
                        None => {},
                    }
                },
                None => {},
            }
            d += 1;
        }
        c += 1;
    }
    None
}

/// `a - b`, clamped to the `i128` range.
fn sat_sub(a: i128, b: i128) -> (r: i128)
    ensures
        r == (if a - b > i128::MAX { i128::MAX as int } else if a - b < i128::MIN { i128::MIN as int } else { a - b }),
{
    match a.checked_sub(b) {
        Some(v) => v,
        None => if b > 0 { i128::MIN } else { i128::MAX },
    }
}

impl BonnetainEngine {
    pub fn name(&self) -> (r: &'static str)
        ensures
            r@ == "Bonnetain"@,
    {
        "Bonnetain"
    }

    /// Searches sizes 48 to 60 with `u128` sums and quarters of at most 10
    /// numbers; no size meets both, so it always ends without a subset.
    pub fn run(&self, p: &Profile, stop: &AtomicBool) -> (r: Search)
        requires
            p.wf(),
        ensures
            r matches Search::Found(sol) ==> is_solution(p.values(), vals(sol@), p.target@),
            r is Done,
    {
        if p.n < BON_MIN_N || p.n > BON_MAX_N {
            return Search::Done;
        }
        if !p.u128_safe() {
            return Search::Done;
        }
        let target_u = p.target_u128();
        let target = target_u as i128;
        let nums = p.numbers_u128();
        let n = nums.len();
        let q = n / 4;
        if q == 0 || q > BON_MAX_Q {
            return Search::Done;
        }
        let qa = slice_to_vec(&nums, 0, q);
        let qb = slice_to_vec(&nums, q, 2 * q);
        let qc = slice_to_vec(&nums, 2 * q, 3 * q);
        let qd = slice_to_vec(&nums, 3 * q, n);
        let la = enumerate_extended(&qa, target, stop);
        let lb = enumerate_extended(&qb, target, stop);
        let lc = enumerate_extended(&qc, target, stop);
        let ld = enumerate_extended(&qd, target, stop);
        if stop_requested(stop) {
            return Search::Done;
        }
        match wagner4(&la, &lb, &lc, &ld, target, target_u, &qa, &qb, &qc, &qd, stop) {
            Some(sol) => {
                let big = to_big(&sol);
                proof {
                    assert(qa@ + qb@ + qc@ + qd@ =~= nums@);
                    lemma_u128_found(p, nums@, sol@, big@);
                }
                Search::Found(big)
            },
            None => Search::Done,
        }
    }
}

} // verus!
