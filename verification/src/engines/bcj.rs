//! Signed representations: each number of a quarter takes a coefficient
//! -1, 0 or +1, the combinations are bucketed by their sum modulo a power of
//! two (one preferred combination per bucket), two levels of merging bring
//! the quarters together, and a meeting is kept only if the `+1` numbers
//! minus the `-1` numbers come to the target.  Each round halves the
//! modulus.  Only a subset that sums to the target is ever handed out.
use vstd::prelude::*;
use std::sync::atomic::AtomicBool;
use crate::model::{sum_nat, nats, sub_multiset, is_solution};
use crate::bignat::vals;
use crate::profile::Profile;
use crate::stop::stop_requested;
use super::{Search, to_big, lemma_u128_found, sum_u128_checked};
use super::schroeppel_shamir::slice_to_vec;
use super::bonnetain::{sat_add, sat_mul_nonneg, unsigned_abs};

verus! {

broadcast use vstd::seq_lib::group_to_multiset_ensures, vstd::multiset::group_multiset_axioms;

/// The smallest size the engine takes.
pub const BCJ_MIN_N: usize = 40;
/// The largest size the engine takes.
pub const BCJ_MAX_N: usize = 80;
/// Bits of the first round's modulus.
pub const BUCK_BITS: u32 = 13;
/// The longest quarter the engine takes.
pub const MAX_Q: usize = 20;

/// The engine.
pub struct BcjEngine;

/// A signed combination of a quarter: its sum and its two-bit codes
/// (`1` for +1, `2` for -1, else 0).
#[derive(Clone, Copy)]
pub struct SignedEntry {
    pub sum: i128,
    pub mask: u64,
}

/// The preferred meeting of two quarters in one bucket.
#[derive(Clone, Copy)]
pub struct BucketEntry {
    pub sum: i128,
    pub mask_a: u64,
    pub mask_b: u64,
    pub neg_a: u32,
    pub neg_b: u32,
}

/// The two-bit code of position `i` in `mask`.
pub open spec fn code_at(mask: u64, i: int) -> u64 {
    if 0 <= i < 32 { (mask >> ((i * 2) as u64)) & 3u64 } else { 0 }
}

/// The numbers of `s` whose code in `mask` is `code`, in order.
pub open spec fn picked(mask: u64, s: Seq<u128>, code: u64) -> Seq<u128>
    decreases s.len(),
{
    if s.len() == 0 {
        Seq::empty()
    } else {
        let rest = picked(mask, s.drop_last(), code);
        if code_at(mask, s.len() - 1) == code { rest.push(s.last()) } else { rest }
    }
}

/// How many of the 32 positions of `mask` below `k` carry the code for -1.
pub open spec fn neg_count_below(mask: u64, k: int) -> nat
    decreases k,
{
    if k <= 0 {
        0
    } else {
        neg_count_below(mask, k - 1) + (if code_at(mask, k - 1) == 2 { 1nat } else { 0nat })
    }
}

proof fn lemma_picked_sub(mask: u64, s: Seq<u128>, code: u64)
    ensures
        sub_multiset(picked(mask, s, code), s),
    decreases s.len(),
{
    if s.len() == 0 {
        crate::model::lemma_sub_multiset_empty(s);
    } else {
        lemma_picked_sub(mask, s.drop_last(), code);
        assert(s =~= s.drop_last().push(s.last()));
        crate::model::lemma_sub_multiset_push(picked(mask, s.drop_last(), code), s.drop_last(), s.last());
    }
}

proof fn lemma_neg_count_bound(mask: u64, k: int)
    requires
        k >= 0,
    ensures
        neg_count_below(mask, k) <= k,
    decreases k,
{
    if k > 0 {
        lemma_neg_count_bound(mask, k - 1);
    }
}

/// The numbers of `nums` with coefficient +1 in `mask`.
pub fn signed_mask_positive_only(mask: u64, nums: &Vec<u128>) -> (r: Vec<u128>)
    ensures
        r@ == picked(mask, nums@, 1),
{
    signed_mask_pick(mask, nums, 1)
}

/// The numbers of `nums` with coefficient -1 in `mask`.
pub fn signed_mask_negative_only(mask: u64, nums: &Vec<u128>) -> (r: Vec<u128>)
    ensures
        r@ == picked(mask, nums@, 2),
{
    signed_mask_pick(mask, nums, 2)
}

fn signed_mask_pick(mask: u64, nums: &Vec<u128>, code: u64) -> (r: Vec<u128>)
    ensures
        r@ == picked(mask, nums@, code),
{
    let mut v: Vec<u128> = Vec::new();
    let mut i: usize = 0;
    while i < nums.len()
        invariant
            i <= nums.len(),
            v@ == picked(mask, nums@.take(i as int), code),
        decreases nums.len() - i,
    {
        proof {
            assert(nums@.take(i + 1).drop_last() =~= nums@.take(i as int));
        }
        let c: u64 = if i < 32 { (mask >> ((i * 2) as u64)) & 3u64 } else { 0 };
        assert(c == code_at(mask, i as int));
        if c == code {
            v.push(nums[i]);
        }
        i += 1;
    }
    proof {
        assert(nums@.take(nums.len() as int) =~= nums@);
    }
    v
}

/// How many of the 32 positions of `mask` carry the code for -1.
pub fn signed_mask_neg_count(mask: u64) -> (r: u32)
    ensures
        r as nat == neg_count_below(mask, 32),
        r <= 32,
{
    let mut c: u32 = 0;
    let mut i: u64 = 0;
    while i < 32
        invariant
            i <= 32,
            c as nat == neg_count_below(mask, i as int),
            c <= i,
        decreases 32 - i,
    {
        if (mask >> (i * 2)) & 3u64 == 2 {
            c += 1;
        }
        i += 1;
    }
    c
}

/// `3^i`.
pub open spec fn pow3_spec(i: nat) -> nat
    decreases i,
{
    if i == 0 { 1 } else { 3 * pow3_spec((i - 1) as nat) }
}

proof fn lemma_pow3_mono(i: nat, j: nat)
    requires
        i <= j,
    ensures
        1 <= pow3_spec(i) <= pow3_spec(j),
    decreases j,
{
    if i < j {
        lemma_pow3_mono(i, (j - 1) as nat);
    } else if i > 0 {
        lemma_pow3_mono((i - 1) as nat, (i - 1) as nat);
    }
}

/// `3^q` for `q <= 20`.
fn pow3(q: usize) -> (r: u64)
    requires
        q <= 20,
    ensures
        r == pow3_spec(q as nat),
        1 <= r <= 3486784401,
{
    proof {
        reveal_with_fuel(pow3_spec, 21);
        assert(pow3_spec(20) == 3486784401);
        lemma_pow3_mono(q as nat, 20);
    }
    let mut r: u64 = 1;
    let mut i: usize = 0;
    while i < q
        invariant
            i <= q,
            q <= 20,
            r == pow3_spec(i as nat),
            pow3_spec(q as nat) <= 3486784401,
        decreases q - i,
    {
        proof {
            lemma_pow3_mono((i + 1) as nat, q as nat);
        }
        r = r * 3;
        i += 1;
    }
    r
}

/// `s` modulo `m`, taken in `[0, m)`.
pub fn bucket_of(s: i128, m: u128) -> (r: usize)
    requires
        1 <= m <= usize::MAX,
    ensures
        r < m,
        r as int == (s as int) % (m as int),
{
    if s >= 0 {
        ((s as u128) % m) as usize
    } else {
        let a = unsigned_abs(s) % m;
        if a == 0 {
            proof {
                lemma_neg_mod_zero(-s as int, m as int);
            }
            0
        } else {
            proof {
                lemma_neg_mod(-s as int, m as int);
            }
            (m - a) as usize
        }
    }
}

proof fn lemma_neg_mod_zero(x: int, m: int)
    requires
        m > 0,
        x % m == 0,
    ensures
        (-x) % m == 0,
{
    vstd::arithmetic::div_mod::lemma_fundamental_div_mod(x, m);
    let q = x / m;
    assert(-x == m * (-q)) by (nonlinear_arith)
        requires x == m * q + 0;
    vstd::arithmetic::div_mod::lemma_mod_multiples_basic(-q, m);
    assert(m * (-q) == (-q) * m) by (nonlinear_arith);
}

proof fn lemma_neg_mod(x: int, m: int)
    requires
        m > 0,
        x > 0,
        x % m != 0,
    ensures
        (-x) % m == m - x % m,
{
    vstd::arithmetic::div_mod::lemma_fundamental_div_mod(x, m);
    let q = x / m;
    let r = x % m;
    assert(0 < r < m);
    assert(-x == (-q - 1) * m + (m - r)) by (nonlinear_arith)
        requires x == m * q + r;
    vstd::arithmetic::div_mod::lemma_fundamental_div_mod_converse(-x, m, -q - 1, m - r);
}

/// A number as a signed coefficient's magnitude: its value, clamped to
/// the `i128` range.
pub open spec fn clamp_v(x: u128) -> int {
    if x > i128::MAX { i128::MAX as int } else { x as int }
}

/// The signed combination that the base-3 digits of `t` give positions
/// `i..` (digit 1 for +1, 2 for -1), continuing from the running sum `s`
/// (clamped to `i128`), codes `mask` and count `neg` of -1 coefficients.
pub open spec fn combo_from(nums: Seq<u128>, t: nat, i: nat, s: int, mask: u64, neg: nat) -> (int, u64, nat)
    decreases nums.len() - i,
{
    if i >= nums.len() {
        (s, mask, neg)
    } else {
        let d = t % 3;
        let v = clamp_v(nums[i as int]);
        let s2 = if d == 1 { clamp_i128(s + v) } else if d == 2 { clamp_i128(s - v) } else { s };
        let m2 = if d == 1 {
            mask | (1u64 << ((i * 2) as u64))
        } else if d == 2 {
            mask | (2u64 << ((i * 2) as u64))
        } else {
            mask
        };
        let n2 = if d == 2 { neg + 1 } else { neg };
        combo_from(nums, t / 3, i + 1, s2, m2, n2)
    }
}

/// The running sum stays in the `i128` range.
proof fn lemma_combo_range(nums: Seq<u128>, t: nat, i: nat, s: int, mask: u64, neg: nat)
    requires
        i128::MIN <= s <= i128::MAX,
    ensures
        i128::MIN <= combo_from(nums, t, i, s, mask, neg).0 <= i128::MAX,
    decreases nums.len() - i,
{
    if i < nums.len() {
        let d = t % 3;
        let v = clamp_v(nums[i as int]);
        let s2 = if d == 1 { clamp_i128(s + v) } else if d == 2 { clamp_i128(s - v) } else { s };
        let m2 = if d == 1 {
            mask | (1u64 << ((i * 2) as u64))
        } else if d == 2 {
            mask | (2u64 << ((i * 2) as u64))
        } else {
            mask
        };
        let n2 = if d == 2 { neg + 1 } else { neg };
        lemma_combo_range(nums, t / 3, i + 1, s2, m2, n2);
    }
}

/// The signed combination numbered `c`.
pub open spec fn combo(nums: Seq<u128>, c: nat) -> (int, u64, nat) {
    combo_from(nums, c, 0, 0, 0, 0)
}

/// The bucket of combination `c` modulo `m`.
pub open spec fn code_key(nums: Seq<u128>, m: int, c: nat) -> int {
    combo(nums, c).0 % m
}

/// Combination `c` is no worse than `c2`: fewer -1 coefficients, or as
/// many and an absolute sum no larger.
pub open spec fn code_no_worse(nums: Seq<u128>, c: nat, c2: nat) -> bool {
    combo(nums, c).2 < combo(nums, c2).2 || (combo(nums, c).2 == combo(nums, c2).2 && abs_int(combo(nums, c).0) <= abs_int(
        combo(nums, c2).0,
    ))
}

/// The table entry of combination `c`.
pub open spec fn code_entry(nums: Seq<u128>, c: nat) -> SignedEntry {
    SignedEntry { sum: combo(nums, c).0 as i128, mask: combo(nums, c).1 }
}

/// `t` holds, per bucket modulo `m`, a preferred signed combination of
/// `nums` (nothing at all for more than 20 numbers): a bucket is empty
/// exactly when no combination falls in it, and otherwise holds one that is
/// no worse than any other of the bucket.
pub open spec fn bucket_table(t: Seq<Option<SignedEntry>>, nums: Seq<u128>, m: int) -> bool {
    &&& t.len() == m
    &&& nums.len() > MAX_Q ==> forall|k: int| 0 <= k < m ==> #[trigger] t[k] is None
    &&& nums.len() <= MAX_Q ==> forall|k: int|
        0 <= k < m ==> (#[trigger] t[k] is None ==> forall|c: nat| c < pow3_spec(nums.len()) ==> #[trigger] code_key(nums, m, c) != k)
            && (t[k] is Some ==> exists|c: nat|
            c < pow3_spec(nums.len()) && #[trigger] code_key(nums, m, c) == k && t[k].unwrap() == code_entry(nums, c)
                && forall|c2: nat| c2 < pow3_spec(nums.len()) && #[trigger] code_key(nums, m, c2) == k ==> code_no_worse(nums, c, c2))
}

/// One preferred signed combination of `nums` per bucket of its sum modulo
/// `modulus`: the fewest -1 coefficients first, then the smallest absolute
/// sum; enumeration order breaks the remaining ties (the first stays).
/// Nothing for more than 20 numbers; `None` when told to stop.
pub fn signed_buckets_mod_bcj(nums: &Vec<u128>, modulus: u128, stop: &AtomicBool) -> (r: Option<Vec<Option<SignedEntry>>>)
    requires
        1 <= modulus <= usize::MAX,
    ensures
        r matches Some(t) ==> bucket_table(t@, nums@, modulus as int),
        r matches Some(t) ==> forall|k: int| 0 <= k < t.len() ==> (#[trigger] t@[k] matches Some(e) ==> (e.sum as int) % (modulus as int) == k),
{
    let m: usize = modulus as usize;
    let mut out: Vec<Option<SignedEntry>> = Vec::new();
    let mut negs: Vec<u32> = Vec::new();
    let mut k: usize = 0;
    while k < m
        invariant
            k <= m,
            m == modulus,
            out.len() == k,
            negs.len() == k,
            forall|j: int| 0 <= j < k ==> #[trigger] out@[j] is None,
        decreases m - k,
    {
        out.push(None);
        negs.push(0);
        k += 1;
    }
    let q = nums.len();
    if q > MAX_Q {
        return Some(out);
    }
    let total: u64 = pow3(q);
    let ghost mi = modulus as int;
    let ghost mut who: Seq<nat> = Seq::new(m as nat, |j: int| 0nat);
    let mut code: u64 = 0;
    while code < total
        invariant
            q == nums.len(),
            q <= MAX_Q,
            m == modulus,
            mi == modulus as int,
            1 <= modulus <= usize::MAX,
            total == pow3_spec(q as nat),
            code <= total,
            out.len() == m,
            negs.len() == m,
            who.len() == m,
            forall|j: int| 0 <= j < m ==> (#[trigger] out@[j] matches Some(e) ==> (e.sum as int) % (modulus as int) == j),
            forall|j: int|
                0 <= j < m ==> (#[trigger] out@[j] is None ==> forall|c: nat| c < code ==> #[trigger] code_key(nums@, mi, c) != j),
            forall|j: int|
                0 <= j < m && #[trigger] out@[j] is Some ==> who[j] < code && code_key(nums@, mi, who[j]) == j && out@[j].unwrap()
                    == code_entry(nums@, who[j]) && negs@[j] as nat == combo(nums@, who[j]).2 && forall|c2: nat|
                    c2 < code && #[trigger] code_key(nums@, mi, c2) == j ==> code_no_worse(nums@, who[j], c2),
        decreases total - code,
    {
        if stop_requested(stop) {
            return None;
        }
        let mut s: i128 = 0;
        let mut mask: u64 = 0;
        let mut neg: u32 = 0;
        let mut t = code;
        let mut i: usize = 0;
        while i < q
            invariant
                i <= q,
                q == nums.len(),
                q <= MAX_Q,
                neg <= i,
                combo_from(nums@, t as nat, i as nat, s as int, mask, neg as nat) == combo(nums@, code as nat),
            decreases q - i,
        {
            let d = t % 3;
            t = t / 3;
            let v: i128 = if nums[i] > (i128::MAX as u128) { i128::MAX } else { nums[i] as i128 };
            if d == 1 {
                s = sat_add(s, v);
                mask = mask | (1u64 << ((i * 2) as u64));
            } else if d == 2 {
                s = sat_add(s, -v);
                mask = mask | (2u64 << ((i * 2) as u64));
                neg += 1;
            }
            i += 1;
        }
        let ghost cc = code as nat;
        proof {
            assert(combo(nums@, cc) == (s as int, mask, neg as nat));
        }
        let ghost old_negs = negs@;
        let key = bucket_of(s, modulus);
        let replace = match out[key] {
            None => true,
            Some(cur) => neg < negs[key] || (neg == negs[key] && unsigned_abs(s) < unsigned_abs(cur.sum)),
        };
        let ghost old_out = out@;
        let ghost old_who = who;
        if replace {
            out.set(key, Some(SignedEntry { sum: s, mask }));
            negs.set(key, neg);
            proof {
                who = who.update(key as int, cc);
            }
        }
        proof {
            assert(code_key(nums@, mi, cc) == key);
            assert forall|j: int|
                0 <= j < m && #[trigger] out@[j] is None implies forall|c: nat| c < code + 1 ==> #[trigger] code_key(nums@, mi, c) != j by {
                assert(old_out[j] is None);
            }
            assert forall|j: int|
                0 <= j < m && #[trigger] out@[j] is Some implies who[j] < code + 1 && code_key(nums@, mi, who[j]) == j && out@[j].unwrap()
                    == code_entry(nums@, who[j]) && negs@[j] as nat == combo(nums@, who[j]).2 && forall|c2: nat|
                    c2 < code + 1 && #[trigger] code_key(nums@, mi, c2) == j ==> code_no_worse(nums@, who[j], c2) by {
                if j == key as int {
                    if replace {
                        assert forall|c2: nat| c2 < code + 1 && #[trigger] code_key(nums@, mi, c2) == j implies code_no_worse(nums@, who[j], c2) by {
                            if c2 < code {
                                if old_out[j] is Some {
                                    let w = old_who[j];
                                    lemma_combo_range(nums@, w, 0, 0, 0, 0);
                                    assert(old_out[j].unwrap().sum as int == combo(nums@, w).0);
                                    assert(old_negs[j] as nat == combo(nums@, w).2);
                                    assert(code_no_worse(nums@, w, c2));
                                    assert(code_no_worse(nums@, cc, w));
                                } else {
                                    assert(code_key(nums@, mi, c2) != j);
                                }
                            }
                        }
                    } else {
                        assert(old_out[j] is Some);
                        let w = old_who[j];
                        lemma_combo_range(nums@, w, 0, 0, 0, 0);
                        assert(old_out[j].unwrap().sum as int == combo(nums@, w).0);
                        assert(old_negs[j] as nat == combo(nums@, w).2);
                        assert(code_no_worse(nums@, w, cc));
                    }
                } else {
                    assert(old_out[j] == out@[j]);
                }
            }
        }
        code += 1;
    }
    proof {
        assert forall|k: int| 0 <= k < m implies (#[trigger] out@[k] is None ==> forall|c: nat| c < pow3_spec(nums@.len()) ==> #[trigger] code_key(nums@, mi, c) != k)
            && (out@[k] is Some ==> exists|c: nat|
            c < pow3_spec(nums@.len()) && #[trigger] code_key(nums@, mi, c) == k && out@[k].unwrap() == code_entry(nums@, c)
                && forall|c2: nat| c2 < pow3_spec(nums@.len()) && #[trigger] code_key(nums@, mi, c2) == k ==> code_no_worse(nums@, c, c2)) by {
            if out@[k] is Some {
                assert(code_key(nums@, mi, who[k]) == k);
            }
        }
    }
    Some(out)
}

/// `|x|`.
pub open spec fn abs_int(x: int) -> int {
    if x < 0 { -x } else { x }
}

/// The merge bound `2 |target| + 1`, computed with clamping.
pub open spec fn level1_bound(target: i128) -> int {
    let at = abs_int(target as int);
    let m = if at > i128::MAX { i128::MAX as int } else { at };
    let twice = if 2 * m > i128::MAX { i128::MAX as int } else { 2 * m };
    if twice + 1 > i128::MAX { i128::MAX as int } else { twice + 1 }
}

/// The -1 coefficients of a signed combination.
pub open spec fn negs_of(x: SignedEntry) -> nat {
    neg_count_below(x.mask, 32)
}

/// Entries `i` of `a` and `j` of `b` meet within the bound, in bucket `k`.
pub open spec fn l1_in(a: Seq<Option<SignedEntry>>, b: Seq<Option<SignedEntry>>, m: int, target: i128, i: int, j: int, k: int) -> bool {
    &&& 0 <= i < a.len()
    &&& 0 <= j < b.len()
    &&& a[i] is Some
    &&& b[j] is Some
    &&& abs_int(clamp_i128(a[i].unwrap().sum + b[j].unwrap().sum)) <= level1_bound(target)
    &&& clamp_i128(a[i].unwrap().sum + b[j].unwrap().sum) % m == k
}

/// The bucket entry made of entries `x` and `y`.
pub open spec fn l1_entry(x: SignedEntry, y: SignedEntry) -> BucketEntry {
    BucketEntry {
        sum: clamp_i128(x.sum + y.sum) as i128,
        mask_a: x.mask,
        mask_b: y.mask,
        neg_a: negs_of(x) as u32,
        neg_b: negs_of(y) as u32,
    }
}

/// `e` is no worse than the meeting of `x` and `y`: fewer -1 coefficients,
/// or as many and an absolute sum no larger.
pub open spec fn l1_no_worse(e: BucketEntry, x: SignedEntry, y: SignedEntry) -> bool {
    let n = negs_of(x) + negs_of(y);
    let en = e.neg_a + e.neg_b;
    en < n || (en == n && abs_int(e.sum as int) <= abs_int(clamp_i128(x.sum + y.sum)))
}

/// Every pair of entries of `a` and `b` whose summed value stays within
/// `2 |target| + 1`, bucketed by that sum modulo `modulus`; per bucket the
/// pair with the fewest -1 coefficients, then the smallest absolute sum
/// (the first such pair in order stays).
#[verifier::rlimit(50)]
#[verifier::spinoff_prover]
pub fn merge_level1(
    a: &Vec<Option<SignedEntry>>,
    b: &Vec<Option<SignedEntry>>,
    modulus: u128,
    target: i128,
) -> (r: Vec<Option<BucketEntry>>)
    requires
        1 <= modulus <= usize::MAX,
    ensures
        r.len() == modulus,
        forall|k: int| 0 <= k < r.len() ==> (#[trigger] r@[k] matches Some(e) ==> (e.sum as int) % (modulus as int) == k),
        forall|k: int| 0 <= k < r.len() && #[trigger] r@[k] is Some ==> exists|i: int, j: int|
            #[trigger] l1_in(a@, b@, modulus as int, target, i, j, k) && r@[k].unwrap() == l1_entry(a@[i].unwrap(), b@[j].unwrap()),
        forall|i: int, j: int, k: int| #[trigger] l1_in(a@, b@, modulus as int, target, i, j, k) ==> r@[k] is Some && l1_no_worse(
            r@[k].unwrap(),
            a@[i].unwrap(),
            b@[j].unwrap(),
        ),
{
    let m: usize = modulus as usize;
    let abs_t: u128 = unsigned_abs(target);
    let bound: i128 = sat_add(sat_mul_nonneg(if abs_t > (i128::MAX as u128) { i128::MAX } else { abs_t as i128 }, 2), 1);
    assert(bound as int == level1_bound(target));
    let mut out: Vec<Option<BucketEntry>> = Vec::new();
    let mut k: usize = 0;
    while k < m
        invariant
            k <= m,
            m == modulus,
            out.len() == k,
            forall|j: int| 0 <= j < k ==> #[trigger] out@[j] is None,
        decreases m - k,
    {
        out.push(None);
        k += 1;
    }
    let mut i: usize = 0;
    while i < a.len()
        invariant
            i <= a.len(),
            m == modulus,
            1 <= modulus <= usize::MAX,
            out.len() == m,
            bound >= 0,
            bound as int == level1_bound(target),
            forall|j: int| 0 <= j < m ==> (#[trigger] out@[j] matches Some(e) ==> (e.sum as int) % (modulus as int) == j),
            forall|kk: int| 0 <= kk < m && #[trigger] out@[kk] is Some ==> exists|i2: int, j2: int|
                #[trigger] l1_in(a@, b@, m as int, target, i2, j2, kk) && i2 < i && out@[kk].unwrap() == l1_entry(a@[i2].unwrap(), b@[j2].unwrap()),
            forall|i2: int, j2: int, kk: int| #[trigger] l1_in(a@, b@, m as int, target, i2, j2, kk) && i2 < i ==> out@[kk] is Some
                && l1_no_worse(out@[kk].unwrap(), a@[i2].unwrap(), b@[j2].unwrap()),
        decreases a.len() - i,
    {
        if let Some(ea) = a[i] {
            let mut j: usize = 0;
            while j < b.len()
                invariant
                    j <= b.len(),
                    i < a.len(),
                    a@[i as int] == Some(ea),
                    m == modulus,
                    1 <= modulus <= usize::MAX,
                    out.len() == m,
                    bound >= 0,
                    bound as int == level1_bound(target),
                    forall|j: int| 0 <= j < m ==> (#[trigger] out@[j] matches Some(e) ==> (e.sum as int) % (modulus as int) == j),
                    forall|kk: int| 0 <= kk < m && #[trigger] out@[kk] is Some ==> exists|i2: int, j2: int|
                        #[trigger] l1_in(a@, b@, m as int, target, i2, j2, kk) && (i2 < i || (i2 == i && j2 < j)) && out@[kk].unwrap()
                            == l1_entry(a@[i2].unwrap(), b@[j2].unwrap()),
                    forall|i2: int, j2: int, kk: int| #[trigger] l1_in(a@, b@, m as int, target, i2, j2, kk) && (i2 < i || (i2 == i && j2 < j))
                        ==> out@[kk] is Some && l1_no_worse(out@[kk].unwrap(), a@[i2].unwrap(), b@[j2].unwrap()),
                decreases b.len() - j,
            {
                let ghost before = out@;
                if let Some(eb) = b[j] {
                    let s = sat_add(ea.sum, eb.sum);
                    if unsigned_abs(s) <= (bound as u128) {
                        let key = bucket_of(s, modulus);
                        let na = signed_mask_neg_count(ea.mask);
                        let nb = signed_mask_neg_count(eb.mask);
                        let total_neg: u64 = (na as u64) + (nb as u64);
                        let replace = match out[key] {
                            None => true,
                            Some(cur) => {
                                let cur_neg: u64 = (cur.neg_a as u64) + (cur.neg_b as u64);
                                total_neg < cur_neg || (total_neg == cur_neg && unsigned_abs(s) < unsigned_abs(cur.sum))
                            },
                        };
                        proof {
                            assert(l1_in(a@, b@, m as int, target, i as int, j as int, key as int));
                        }
                        if replace {
                            out.set(key, Some(BucketEntry { sum: s, mask_a: ea.mask, mask_b: eb.mask, neg_a: na, neg_b: nb }));
                            proof {
                                assert(out@[key as int].unwrap() == l1_entry(ea, eb));
                                assert forall|i2: int, j2: int, kk: int| #[trigger] l1_in(a@, b@, m as int, target, i2, j2, kk) && (i2 < i || (i2 == i && j2 < j + 1))
                                    implies out@[kk] is Some && l1_no_worse(out@[kk].unwrap(), a@[i2].unwrap(), b@[j2].unwrap()) by {
                                    if kk == key && !(i2 == i && j2 == j) {
                                        assert(before[kk] is Some);
                                        assert(l1_no_worse(before[kk].unwrap(), a@[i2].unwrap(), b@[j2].unwrap()));
                                    }
                                }
                                assert forall|kk: int| 0 <= kk < m && #[trigger] out@[kk] is Some implies exists|i2: int, j2: int|
                                    #[trigger] l1_in(a@, b@, m as int, target, i2, j2, kk) && (i2 < i || (i2 == i && j2 < j + 1)) && out@[kk].unwrap()
                                        == l1_entry(a@[i2].unwrap(), b@[j2].unwrap()) by {
                                    if kk != key {
                                        assert(before[kk] is Some);
                                        let (i2, j2) = choose|i2: int, j2: int|
                                            #[trigger] l1_in(a@, b@, m as int, target, i2, j2, kk) && (i2 < i || (i2 == i && j2 < j)) && before[kk].unwrap()
                                                == l1_entry(a@[i2].unwrap(), b@[j2].unwrap());
                                        assert(l1_in(a@, b@, m as int, target, i2, j2, kk));
                                    } else {
                                        assert(l1_in(a@, b@, m as int, target, i as int, j as int, kk));
                                    }
                                }
                            }
                        } else {
                            proof {
                                assert forall|i2: int, j2: int, kk: int| #[trigger] l1_in(a@, b@, m as int, target, i2, j2, kk) && (i2 < i || (i2 == i && j2 < j + 1))
                                    implies out@[kk] is Some && l1_no_worse(out@[kk].unwrap(), a@[i2].unwrap(), b@[j2].unwrap()) by {
                                    if i2 == i && j2 == j {
                                        assert(kk == key);
                                    }
                                }
                            }
                        }
                    } else {
                        proof {
                            assert forall|kk: int| !#[trigger] l1_in(a@, b@, m as int, target, i as int, j as int, kk) by {}
                        }
                    }
                } else {
                    proof {
                        assert forall|kk: int| !#[trigger] l1_in(a@, b@, m as int, target, i as int, j as int, kk) by {}
                    }
                }
                j += 1;
            }
        } else {
            proof {
                assert forall|j2: int, kk: int| !#[trigger] l1_in(a@, b@, m as int, target, i as int, j2, kk) by {}
            }
        }
        i += 1;
    }
    out
}

/// The first meeting of a `cd` entry and an `ab` entry whose sums add up to
/// `target` and whose +1 numbers are not empty and exceed the -1 numbers by
/// exactly the target: those +1 numbers.
/// `x` clamped to the `i128` range.
pub open spec fn clamp_i128(x: int) -> int {
    if x > i128::MAX { i128::MAX as int } else if x < i128::MIN { i128::MIN as int } else { x }
}

/// The numbers with coefficient `code` in a meeting of `e1` (on the first
/// two quarters) and `e2` (on the last two).
pub open spec fn meeting_vals(e1: BucketEntry, e2: BucketEntry, qa: Seq<u128>, qb: Seq<u128>, qc: Seq<u128>, qd: Seq<u128>, code: u64) -> Seq<u128> {
    picked(e1.mask_a, qa, code) + picked(e1.mask_b, qb, code) + picked(e2.mask_a, qc, code) + picked(e2.mask_b, qd, code)
}

/// The meeting counts: the clamped sums add up to `target`, and the +1
/// numbers are not empty and exceed the -1 numbers by exactly `target`
/// (both sums within `u128`).
pub open spec fn meets(e1: BucketEntry, e2: BucketEntry, target: i128, qa: Seq<u128>, qb: Seq<u128>, qc: Seq<u128>, qd: Seq<u128>) -> bool {
    let pos = meeting_vals(e1, e2, qa, qb, qc, qd, 1);
    let neg = meeting_vals(e1, e2, qa, qb, qc, qd, 2);
    &&& clamp_i128(e1.sum + e2.sum) == target
    &&& pos.len() > 0
    &&& target >= 0
    &&& sum_nat(nats(pos)) <= u128::MAX
    &&& sum_nat(nats(neg)) <= u128::MAX
    &&& sum_nat(nats(pos)) > sum_nat(nats(neg))
    &&& sum_nat(nats(pos)) - sum_nat(nats(neg)) == target
}

pub fn meet_level2(
    ab: &Vec<Option<BucketEntry>>,
    cd: &Vec<Option<BucketEntry>>,
    target: i128,
    qa: &Vec<u128>,
    qb: &Vec<u128>,
    qc: &Vec<u128>,
    qd: &Vec<u128>,
) -> (r: Option<Vec<u128>>)
    ensures
        r matches Some(sol) ==> sub_multiset(sol@, qa@ + qb@ + qc@ + qd@),
        r matches Some(sol) ==> exists|c: int, a: int|
            0 <= c < cd.len() && 0 <= a < ab.len() && #[trigger] cd@[c] is Some && #[trigger] ab@[a] is Some && meets(
                ab@[a].unwrap(),
                cd@[c].unwrap(),
                target,
                qa@,
                qb@,
                qc@,
                qd@,
            ) && sol@ == meeting_vals(ab@[a].unwrap(), cd@[c].unwrap(), qa@, qb@, qc@, qd@, 1),
        r is None ==> forall|c: int, a: int|
            0 <= c < cd.len() && 0 <= a < ab.len() && #[trigger] cd@[c] is Some && #[trigger] ab@[a] is Some ==> !meets(
                ab@[a].unwrap(),
                cd@[c].unwrap(),
                target,
                qa@,
                qb@,
                qc@,
                qd@,
            ),
{
    let mut c: usize = 0;
    while c < cd.len()
        invariant
            c <= cd.len(),
            forall|c2: int, a2: int|
                0 <= c2 < c && 0 <= a2 < ab.len() && #[trigger] cd@[c2] is Some && #[trigger] ab@[a2] is Some ==> !meets(
                    ab@[a2].unwrap(),
                    cd@[c2].unwrap(),
                    target,
                    qa@,
                    qb@,
                    qc@,
                    qd@,
                ),
        decreases cd.len() - c,
    {
        if let Some(ecd) = cd[c] {
            let mut a: usize = 0;
            while a < ab.len()
                invariant
                    a <= ab.len(),
                    c < cd.len(),
                    cd@[c as int] == Some(ecd),
                    forall|c2: int, a2: int|
                        0 <= c2 < c && 0 <= a2 < ab.len() && #[trigger] cd@[c2] is Some && #[trigger] ab@[a2] is Some ==> !meets(
                            ab@[a2].unwrap(),
                            cd@[c2].unwrap(),
                            target,
                            qa@,
                            qb@,
                            qc@,
                            qd@,
                        ),
                    forall|a2: int| 0 <= a2 < a && #[trigger] ab@[a2] is Some ==> !meets(ab@[a2].unwrap(), ecd, target, qa@, qb@, qc@, qd@),
                decreases ab.len() - a,
            {
                if let Some(eab) = ab[a] {
                    if sat_add(eab.sum, ecd.sum) == target {
                        let mut sol = signed_mask_positive_only(eab.mask_a, qa);
                        let mut s2 = signed_mask_positive_only(eab.mask_b, qb);
                        let mut s3 = signed_mask_positive_only(ecd.mask_a, qc);
                        let mut s4 = signed_mask_positive_only(ecd.mask_b, qd);
                        let ghost (g1, g2, g3, g4) = (sol@, s2@, s3@, s4@);
                        sol.append(&mut s2);
                        sol.append(&mut s3);
                        sol.append(&mut s4);
                        let mut neg = signed_mask_negative_only(eab.mask_a, qa);
                        let mut n2 = signed_mask_negative_only(eab.mask_b, qb);
                        let mut n3 = signed_mask_negative_only(ecd.mask_a, qc);
                        let mut n4 = signed_mask_negative_only(ecd.mask_b, qd);
                        neg.append(&mut n2);
                        neg.append(&mut n3);
                        neg.append(&mut n4);
                        proof {
                            assert(sol@ =~= meeting_vals(eab, ecd, qa@, qb@, qc@, qd@, 1));
                            assert(neg@ =~= meeting_vals(eab, ecd, qa@, qb@, qc@, qd@, 2));
                        }
                        if sol.len() > 0 && target >= 0 {
                            match (sum_u128_checked(&sol), sum_u128_checked(&neg)) {
                                (Some(pos_sum), Some(neg_sum)) => {
                                    if pos_sum > neg_sum && pos_sum - neg_sum == target as u128 {
                                        proof {
                                            assert(sol@ =~= ((g1 + g2) + g3) + g4);
                                            lemma_picked_sub(eab.mask_a, qa@, 1);
                                            lemma_picked_sub(eab.mask_b, qb@, 1);
                                            lemma_picked_sub(ecd.mask_a, qc@, 1);
                                            lemma_picked_sub(ecd.mask_b, qd@, 1);
                                            crate::model::lemma_sub_multiset_concat(g1, qa@, g2, qb@);
                                            crate::model::lemma_sub_multiset_concat(g1 + g2, qa@ + qb@, g3, qc@);
                                            crate::model::lemma_sub_multiset_concat((g1 + g2) + g3, (qa@ + qb@) + qc@, g4, qd@);
                                            assert(meets(eab, ecd, target, qa@, qb@, qc@, qd@));
                                            assert(cd@[c as int] is Some && ab@[a as int] is Some);
                                            assert(ab@[a as int].unwrap() == eab);
                                        }
                                        return Some(sol);
                                    }
                                },
                                _ => {},
                            }
                        }
                    }
                    assert(!meets(eab, ecd, target, qa@, qb@, qc@, qd@));
                }
                a += 1;
            }
        }
        proof {
            assert forall|c2: int, a2: int|
                0 <= c2 < c + 1 && 0 <= a2 < ab.len() && #[trigger] cd@[c2] is Some && #[trigger] ab@[a2] is Some implies !meets(
                    ab@[a2].unwrap(),
                    cd@[c2].unwrap(),
                    target,
                    qa@,
                    qb@,
                    qc@,
                    qd@,
                ) by {
                if c2 == c {
                    assert(ab@[a2] is Some);
                }
            }
        }
        c += 1;
    }
    None
}

/// Quarter `i` (0 to 3) of `nums`: runs of `n / 4` numbers, the last one
/// taking the rest.
pub open spec fn qtr(nums: Seq<u128>, i: int) -> Seq<u128> {
    let q = (nums.len() / 4) as int;
    if i < 3 {
        nums.subrange(i * q, (i + 1) * q)
    } else {
        nums.subrange(3 * q, nums.len() as int)
    }
}

/// No bucket holds an entry.
pub open spec fn no_entries<T>(v: Seq<Option<T>>) -> bool {
    forall|k: int| 0 <= k < v.len() ==> #[trigger] v[k] is None
}

/// `r` is a merge of `a` and `b` as [`merge_level1`] describes it.
pub open spec fn merged(r: Seq<Option<BucketEntry>>, a: Seq<Option<SignedEntry>>, b: Seq<Option<SignedEntry>>, m: int, target: i128) -> bool {
    &&& r.len() == m
    &&& forall|k: int| 0 <= k < r.len() ==> (#[trigger] r[k] matches Some(e) ==> (e.sum as int) % m == k)
    &&& forall|k: int| 0 <= k < r.len() && #[trigger] r[k] is Some ==> exists|i: int, j: int|
        #[trigger] l1_in(a, b, m, target, i, j, k) && r[k].unwrap() == l1_entry(a[i].unwrap(), b[j].unwrap())
    &&& forall|i: int, j: int, k: int| #[trigger] l1_in(a, b, m, target, i, j, k) ==> r[k] is Some && l1_no_worse(
        r[k].unwrap(),
        a[i].unwrap(),
        b[j].unwrap(),
    )
}

/// The four quarter tables of a round.
pub open spec fn tables4(
    la: Seq<Option<SignedEntry>>,
    lb: Seq<Option<SignedEntry>>,
    lc: Seq<Option<SignedEntry>>,
    ld: Seq<Option<SignedEntry>>,
    nums: Seq<u128>,
    m: int,
) -> bool {
    &&& bucket_table(la, qtr(nums, 0), m)
    &&& bucket_table(lb, qtr(nums, 1), m)
    &&& bucket_table(lc, qtr(nums, 2), m)
    &&& bucket_table(ld, qtr(nums, 3), m)
}

/// No entry of `ab` meets an entry of `cd`.
pub open spec fn no_meeting(ab: Seq<Option<BucketEntry>>, cd: Seq<Option<BucketEntry>>, nums: Seq<u128>, target: i128) -> bool {
    forall|c: int, a: int|
        0 <= c < cd.len() && 0 <= a < ab.len() && #[trigger] cd[c] is Some && #[trigger] ab[a] is Some ==> !meets(
            ab[a].unwrap(),
            cd[c].unwrap(),
            target,
            qtr(nums, 0),
            qtr(nums, 1),
            qtr(nums, 2),
            qtr(nums, 3),
        )
}

/// Merged tables of a round with no meeting.
pub open spec fn second_quiet(
    ab: Seq<Option<BucketEntry>>,
    cd: Seq<Option<BucketEntry>>,
    la: Seq<Option<SignedEntry>>,
    lb: Seq<Option<SignedEntry>>,
    lc: Seq<Option<SignedEntry>>,
    ld: Seq<Option<SignedEntry>>,
    nums: Seq<u128>,
    m: int,
    target: i128,
) -> bool {
    &&& merged(ab, la, lb, m, target)
    &&& merged(cd, lc, ld, m, target)
    &&& (no_entries(ab) || no_entries(cd) || no_meeting(ab, cd, nums, target))
}

/// Quarter tables of a round from which no meeting comes.
pub open spec fn quiet_with(
    la: Seq<Option<SignedEntry>>,
    lb: Seq<Option<SignedEntry>>,
    lc: Seq<Option<SignedEntry>>,
    ld: Seq<Option<SignedEntry>>,
    nums: Seq<u128>,
    m: int,
    target: i128,
) -> bool {
    &&& tables4(la, lb, lc, ld, nums, m)
    &&& (no_entries(la) || no_entries(lb) || no_entries(lc) || no_entries(ld) || exists|
        ab: Seq<Option<BucketEntry>>,
        cd: Seq<Option<BucketEntry>>,
    | #[trigger] second_quiet(ab, cd, la, lb, lc, ld, nums, m, target))
}

/// The round with modulus `m` finds no meeting.
pub open spec fn round_quiet(nums: Seq<u128>, m: int, target: i128) -> bool {
    exists|
        la: Seq<Option<SignedEntry>>,
        lb: Seq<Option<SignedEntry>>,
        lc: Seq<Option<SignedEntry>>,
        ld: Seq<Option<SignedEntry>>,
    | #[trigger] quiet_with(la, lb, lc, ld, nums, m, target)
}

/// Merged tables of a round with a meeting whose +1 numbers do not sum
/// to `tu`.
pub open spec fn second_wrong(
    ab: Seq<Option<BucketEntry>>,
    cd: Seq<Option<BucketEntry>>,
    la: Seq<Option<SignedEntry>>,
    lb: Seq<Option<SignedEntry>>,
    lc: Seq<Option<SignedEntry>>,
    ld: Seq<Option<SignedEntry>>,
    nums: Seq<u128>,
    m: int,
    target: i128,
    tu: nat,
) -> bool {
    &&& merged(ab, la, lb, m, target)
    &&& merged(cd, lc, ld, m, target)
    &&& !no_entries(ab)
    &&& !no_entries(cd)
    &&& exists|c: int, a: int|
        0 <= c < cd.len() && 0 <= a < ab.len() && cd[c] is Some && ab[a] is Some && #[trigger] meets(
            ab[a].unwrap(),
            cd[c].unwrap(),
            target,
            qtr(nums, 0),
            qtr(nums, 1),
            qtr(nums, 2),
            qtr(nums, 3),
        ) && sum_nat(nats(meeting_vals(ab[a].unwrap(), cd[c].unwrap(), qtr(nums, 0), qtr(nums, 1), qtr(nums, 2), qtr(nums, 3), 1))) != tu
}

/// Quarter tables of a round that end in a meeting whose +1 numbers do not
/// sum to `tu`.
pub open spec fn wrong_with(
    la: Seq<Option<SignedEntry>>,
    lb: Seq<Option<SignedEntry>>,
    lc: Seq<Option<SignedEntry>>,
    ld: Seq<Option<SignedEntry>>,
    nums: Seq<u128>,
    m: int,
    target: i128,
    tu: nat,
) -> bool {
    &&& tables4(la, lb, lc, ld, nums, m)
    &&& !no_entries(la) && !no_entries(lb) && !no_entries(lc) && !no_entries(ld)
    &&& exists|ab: Seq<Option<BucketEntry>>, cd: Seq<Option<BucketEntry>>|
        #[trigger] second_wrong(ab, cd, la, lb, lc, ld, nums, m, target, tu)
}

/// The round with modulus `m` meets, and the meeting's +1 numbers do not
/// sum to `tu`.
pub open spec fn round_wrong(nums: Seq<u128>, m: int, target: i128, tu: nat) -> bool {
    exists|
        la: Seq<Option<SignedEntry>>,
        lb: Seq<Option<SignedEntry>>,
        lc: Seq<Option<SignedEntry>>,
        ld: Seq<Option<SignedEntry>>,
    | #[trigger] wrong_with(la, lb, lc, ld, nums, m, target, tu)
}

/// The modulus of round `r`: `2^(13 - r)`.
pub open spec fn round_modulus(r: u32) -> int {
    (1u128 << ((13 - r) as u32)) as int
}

/// The number of rounds for `n` numbers.
pub open spec fn bcj_rounds(n: nat) -> u32 {
    if n >= 66 { 6 } else if n >= 55 { 4 } else { 2 }
}

/// The first `stopped_at` of `rounds` rounds found no meeting, and, when
/// it is not the last, round `stopped_at` met with +1 numbers not summing
/// to `tu`.
pub open spec fn bcj_trail(nums: Seq<u128>, target: i128, tu: nat, stopped_at: u32, rounds: u32) -> bool {
    &&& stopped_at <= rounds
    &&& forall|r: u32| r < stopped_at ==> #[trigger] round_quiet(nums, round_modulus(r), target)
    &&& stopped_at < rounds ==> round_wrong(nums, round_modulus(stopped_at), target, tu)
}

/// The values as `u128`.
pub open spec fn as_u128(vs: Seq<nat>) -> Seq<u128> {
    vs.map_values(|v: nat| v as u128)
}

/// The target clamped to the `i128` range.
pub open spec fn clamp_target(t: nat) -> i128 {
    if t > i128::MAX { i128::MAX } else { t as i128 }
}

impl BcjEngine {
    pub fn name(&self) -> (r: &'static str)
        ensures
            r@ == "BCJ"@,
    {
        "BCJ"
    }

    /// Sizes 40 to 80 with `u128` sums: two, four or six rounds (by size)
    /// with moduli `2^13`, `2^12`, ...; the first meeting whose +1 numbers
    /// sum to the target is found.  A meeting whose +1 numbers do not sum
    /// to the target ends the run without a subset.
    pub fn run(&self, p: &Profile, stop: &AtomicBool) -> (r: Search)
        requires
            p.wf(),
        ensures
            r matches Search::Found(sol) ==> is_solution(p.values(), vals(sol@), p.target@),
            r is Found || r is Done || r is Stopped,
            (p.n < BCJ_MIN_N || p.n > BCJ_MAX_N) ==> r is Done,
            r is Done && BCJ_MIN_N <= p.n <= BCJ_MAX_N && p.total_sum@ <= u128::MAX && p.target@ <= u128::MAX ==> exists|
                stopped_at: u32,
            | #[trigger] bcj_trail(as_u128(p.values()), clamp_target(p.target@), p.target@, stopped_at, bcj_rounds(p.n as nat)),
    {
        if p.n < BCJ_MIN_N || p.n > BCJ_MAX_N {
            return Search::Done;
        }
        if !p.u128_safe() {
            return Search::Done;
        }
        let target_u = p.target_u128();
        let target: i128 = if target_u > (i128::MAX as u128) { i128::MAX } else { target_u as i128 };
        let nums = p.numbers_u128();
        let n = nums.len();
        let q = n / 4;
        if q == 0 || q > MAX_Q {
            return Search::Done;
        }
        let qa = slice_to_vec(&nums, 0, q);
        let qb = slice_to_vec(&nums, q, 2 * q);
        let qc = slice_to_vec(&nums, 2 * q, 3 * q);
        let qd = slice_to_vec(&nums, 3 * q, n);
        proof {
            assert(qa@ + qb@ + qc@ + qd@ =~= nums@);
        }
        let rounds: u32 = if n >= 66 { 6 } else if n >= 55 { 4 } else { 2 };
        let ghost ns = nums@;
        proof {
            assert(ns =~= as_u128(p.values())) by {
                assert forall|x: int| 0 <= x < ns.len() implies ns[x] == as_u128(p.values())[x] by {
                    assert(nats(ns)[x] == p.values()[x]);
                }
            }
            assert(qa@ == qtr(ns, 0));
            assert(qb@ == qtr(ns, 1));
            assert(qc@ == qtr(ns, 2));
            assert(qd@ == qtr(ns, 3));
            assert(rounds == bcj_rounds(p.n as nat));
            assert(target == clamp_target(p.target@));
        }
        let mut round: u32 = 0;
        while round < rounds
            invariant
                2 <= rounds <= 6,
                rounds == bcj_rounds(p.n as nat),
                round <= rounds,
                p.wf(),
                BCJ_MIN_N <= p.n <= BCJ_MAX_N,
                nats(nums@) == p.values(),
                ns == nums@,
                ns == as_u128(p.values()),
                qa@ + qb@ + qc@ + qd@ == nums@,
                qa@ == qtr(ns, 0),
                qb@ == qtr(ns, 1),
                qc@ == qtr(ns, 2),
                qd@ == qtr(ns, 3),
                target_u == p.target@,
                target == clamp_target(p.target@),
                forall|r: u32| r < round ==> #[trigger] round_quiet(ns, round_modulus(r), target),
            decreases rounds - round,
        {
            if stop_requested(stop) {
                return Search::Stopped;
            }
            let bb: u32 = BUCK_BITS - round;
            let modulus: u128 = 1u128 << bb;
            proof {
                assert(256 <= (1u128 << bb) <= 8192) by (bit_vector)
                    requires 8 <= bb <= 13;
                assert(modulus as int == round_modulus(round));
            }
            let ghost mi = modulus as int;
            let la = match signed_buckets_mod_bcj(&qa, modulus, stop) {
                Some(t) => t,
                None => {
                    return Search::Stopped;
                },
            };
            let lb = match signed_buckets_mod_bcj(&qb, modulus, stop) {
                Some(t) => t,
                None => {
                    return Search::Stopped;
                },
            };
            let lc = match signed_buckets_mod_bcj(&qc, modulus, stop) {
                Some(t) => t,
                None => {
                    return Search::Stopped;
                },
            };
            let ld = match signed_buckets_mod_bcj(&qd, modulus, stop) {
                Some(t) => t,
                None => {
                    return Search::Stopped;
                },
            };
            if stop_requested(stop) {
                return Search::Stopped;
            }
            proof {
                assert(tables4(la@, lb@, lc@, ld@, ns, mi));
            }
            if all_empty(&la) || all_empty(&lb) || all_empty(&lc) || all_empty(&ld) {
                proof {
                    assert(quiet_with(la@, lb@, lc@, ld@, ns, mi, target));
                    lemma_quiet_step(ns, mi, target, round, la@, lb@, lc@, ld@);
                }
                round += 1;
                continue;
            }
            let ab = merge_level1(&la, &lb, modulus, target);
            let cd = merge_level1(&lc, &ld, modulus, target);
            proof {
                assert(merged(ab@, la@, lb@, mi, target));
                assert(merged(cd@, lc@, ld@, mi, target));
            }
            if all_empty(&ab) || all_empty(&cd) {
                proof {
                    assert(second_quiet(ab@, cd@, la@, lb@, lc@, ld@, ns, mi, target));
                    assert(quiet_with(la@, lb@, lc@, ld@, ns, mi, target));
                    lemma_quiet_step(ns, mi, target, round, la@, lb@, lc@, ld@);
                }
                round += 1;
                continue;
            }
            if stop_requested(stop) {
                return Search::Stopped;
            }
            match meet_level2(&ab, &cd, target, &qa, &qb, &qc, &qd) {
                Some(sol) => {
                    let checked = sum_u128_checked(&sol);
                    match checked {
                        Some(s) => {
                            if s == target_u {
                                let big = to_big(&sol);
                                proof {
                                    lemma_u128_found(p, nums@, sol@, big@);
                                }
                                return Search::Found(big);
                            }
                        },
                        None => {},
                    }
                    proof {
                        let (c, a) = choose|c: int, a: int|
                            0 <= c < cd.len() && 0 <= a < ab.len() && #[trigger] cd@[c] is Some && #[trigger] ab@[a] is Some && meets(
                                ab@[a].unwrap(),
                                cd@[c].unwrap(),
                                target,
                                qa@,
                                qb@,
                                qc@,
                                qd@,
                            ) && sol@ == meeting_vals(ab@[a].unwrap(), cd@[c].unwrap(), qa@, qb@, qc@, qd@, 1);
                        assert(meets(ab@[a].unwrap(), cd@[c].unwrap(), target, qtr(ns, 0), qtr(ns, 1), qtr(ns, 2), qtr(ns, 3)));
                        assert(sum_nat(nats(sol@)) != p.target@);
                        assert(second_wrong(ab@, cd@, la@, lb@, lc@, ld@, ns, mi, target, p.target@));
                        assert(wrong_with(la@, lb@, lc@, ld@, ns, mi, target, p.target@));
                        assert(round_wrong(ns, round_modulus(round), target, p.target@));
                        assert(bcj_trail(ns, target, p.target@, round, rounds));
                    }
                    return Search::Done;
                },
                None => {
                    proof {
                        assert(no_meeting(ab@, cd@, ns, target));
                        assert(second_quiet(ab@, cd@, la@, lb@, lc@, ld@, ns, mi, target));
                        assert(quiet_with(la@, lb@, lc@, ld@, ns, mi, target));
                        lemma_quiet_step(ns, mi, target, round, la@, lb@, lc@, ld@);
                    }
                },
            }
            round += 1;
        }
        proof {
            assert(bcj_trail(ns, target, p.target@, rounds, rounds));
        }
        Search::Done
    }
}

/// A quiet round extends the quiet prefix.
proof fn lemma_quiet_step(
    ns: Seq<u128>,
    mi: int,
    target: i128,
    round: u32,
    la: Seq<Option<SignedEntry>>,
    lb: Seq<Option<SignedEntry>>,
    lc: Seq<Option<SignedEntry>>,
    ld: Seq<Option<SignedEntry>>,
)
    requires
        mi == round_modulus(round),
        quiet_with(la, lb, lc, ld, ns, mi, target),
        forall|r: u32| r < round ==> #[trigger] round_quiet(ns, round_modulus(r), target),
    ensures
        forall|r: u32| r < round + 1 ==> #[trigger] round_quiet(ns, round_modulus(r), target),
{
    assert(round_quiet(ns, round_modulus(round), target));
}

/// Whether no bucket holds an entry.
pub fn all_empty<T: Copy>(v: &Vec<Option<T>>) -> (r: bool)
    ensures
        r <==> forall|k: int| 0 <= k < v.len() ==> v@[k] is None,
{
    let mut i: usize = 0;
    while i < v.len()
        invariant
            i <= v.len(),
            forall|k: int| 0 <= k < i ==> v@[k] is None,
        decreases v.len() - i,
    {
        if v[i].is_some() {
            return false;
        }
        i += 1;
    }
    true
}

} // verus!
