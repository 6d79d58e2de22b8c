//! Goal distances: how far a partial sum is from the target along several
//! axes (the plain remainder, a small-prime residue test, the nearest
//! cluster centre, and a balanced split point), and the cluster centres
//! themselves, the means of consecutive chunks of the sorted numbers.
//! Everything here is exact integer arithmetic; scaling the parts to
//! fractions of the largest number is left to the caller.
use vstd::prelude::*;
use crate::model::{sum_nat, nats};
use crate::engines::sort_u128;
use crate::bignat::{BigNat, big_to_u128};

verus! {

/// The numbers in increasing order.
pub open spec fn ascending_u128(s: Seq<u128>) -> Seq<u128> {
    s.sort_by(|a: u128, b: u128| a <= b)
}

/// The mean (rounded down) of `s[lo..hi]`.
pub open spec fn chunk_mean(s: Seq<u128>, lo: int, hi: int) -> nat {
    sum_nat(nats(s.subrange(lo, hi))) / ((hi - lo) as nat)
}

/// The chunk length: `ceil(n / k)`.
pub open spec fn chunk_len(n: nat, k: nat) -> nat {
    if n % k == 0 { n / k } else { n / k + 1 }
}

/// The start of chunk `i`.
pub open spec fn chunk_start(n: nat, k: nat, i: nat) -> nat {
    i * chunk_len(n, k)
}

/// The end of chunk `i`.
pub open spec fn chunk_end(n: nat, k: nat, i: nat) -> nat {
    if chunk_start(n, k, i + 1) < n { chunk_start(n, k, i + 1) } else { n }
}

/// How many chunks of `chunk_len(n, k)` cover `n` numbers.
pub open spec fn chunk_count(n: nat, k: nat) -> nat {
    ((n + chunk_len(n, k) - 1) as nat) / chunk_len(n, k)
}

/// The cluster centres of `s` for `k`: none for `k == 0` or no numbers;
/// the sorted numbers when there are at most `k`; else the means of the
/// consecutive chunks of the sorted numbers.
pub open spec fn centres(s: Seq<u128>, k: nat) -> Seq<nat> {
    let n = s.len();
    if k == 0 || n == 0 {
        Seq::empty()
    } else if n <= k {
        nats(ascending_u128(s))
    } else {
        Seq::new(
            chunk_count(n, k),
            |i: int| chunk_mean(ascending_u128(s), chunk_start(n, k, i as nat) as int, chunk_end(n, k, i as nat) as int),
        )
    }
}

/// Up to `k` cluster centres: the numbers themselves (sorted) when there
/// are at most `k`, otherwise the means of consecutive chunks of
/// `ceil(n / k)` sorted numbers (the last chunk may be shorter, and chunks
/// that would start past the end are dropped).
pub fn compute_clusters(numbers: &Vec<u128>, k: usize) -> (r: Vec<u128>)
    requires
        0 < k < numbers.len() ==> sum_nat(nats(numbers@)) <= u128::MAX,
    ensures
        numbers.len() == 0 || k == 0 ==> r.len() == 0,
        0 < numbers.len() <= k ==> r@ == ascending_u128(numbers@),
        0 < k < numbers.len() ==> r.len() <= k && (forall|i: int|
            0 <= i < r.len() ==> #[trigger] r@[i]
                == chunk_mean(
                ascending_u128(numbers@),
                chunk_start(numbers.len() as nat, k as nat, i as nat) as int,
                chunk_end(numbers.len() as nat, k as nat, i as nat) as int,
            )) && (forall|i: int| 0 <= i < r.len() ==> #[trigger] chunk_start(numbers.len() as nat, k as nat, i as nat) < numbers.len())
            && chunk_start(numbers.len() as nat, k as nat, r.len() as nat) >= numbers.len(),
        nats(r@) == centres(numbers@, k as nat),
        0 < k < numbers.len() ==> forall|i: int, j: int| 0 <= i <= j < r.len() ==> r@[i] <= r@[j],
        0 < k < numbers.len() ==> forall|i: int|
            0 <= i < r.len() ==> ascending_u128(numbers@)[0] <= #[trigger] r@[i] <= ascending_u128(numbers@)[numbers.len() - 1],
{
    if numbers.len() == 0 || k == 0 {
        return Vec::new();
    }
    let mut sorted = numbers.clone();
    proof {
        assert(sorted@ =~= numbers@);
    }
    sort_u128(&mut sorted);
    let n = sorted.len();
    proof {
        broadcast use vstd::seq_lib::group_to_multiset_ensures;
        assert(sorted@.to_multiset().len() == sorted@.len());
        assert(numbers@.to_multiset().len() == numbers@.len());
        let leq = |a: u128, b: u128| a <= b;
        assert(vstd::relations::total_ordering(leq));
        numbers@.lemma_sort_by_ensures(leq);
        assert(vstd::relations::sorted_by(sorted@, leq));
        vstd::seq_lib::lemma_sorted_unique(sorted@, numbers@.sort_by(leq), leq);
        crate::model::lemma_nats_perm(sorted@, numbers@);
        crate::model::lemma_perm_sum(nats(sorted@), nats(numbers@));
    }
    if n <= k {
        proof {
            assert(nats(sorted@) == centres(numbers@, k as nat));
        }
        return sorted;
    }
    proof {
        assert(n / k <= n && n / k >= 1 && (n % k != 0 ==> n / k + 1 <= n)) by (nonlinear_arith)
            requires
                0 < k < n,
        ;
    }
    let step = n / k + if n % k == 0 { 0 } else { 1 };
    assert(step as nat == chunk_len(n as nat, k as nat));
    assert(chunk_start(n as nat, k as nat, 0) == 0);
    let mut centers: Vec<u128> = Vec::new();
    let mut i: usize = 0;
    let mut lo: usize = 0;
    while i < k && lo < n
        invariant
            i <= k,
            k < n,
            n == sorted.len(),
            n == numbers.len(),
            step as nat == chunk_len(n as nat, k as nat),
            1 <= step <= n,
            lo <= n,
            lo < n ==> lo == chunk_start(n as nat, k as nat, i as nat),
            lo == n ==> chunk_start(n as nat, k as nat, i as nat) >= n,
            forall|c: int| 0 <= c < i ==> #[trigger] chunk_start(n as nat, k as nat, c as nat) < n,
            sorted@ == ascending_u128(numbers@),
            sum_nat(nats(sorted@)) <= u128::MAX,
            centers.len() == i,
            forall|c: int|
                0 <= c < i ==> #[trigger] centers@[c] == chunk_mean(
                    sorted@,
                    chunk_start(n as nat, k as nat, c as nat) as int,
                    chunk_end(n as nat, k as nat, c as nat) as int,
                ),
        decreases k - i,
    {
        let hi = if step < n - lo { lo + step } else { n };
        proof {
            assert(chunk_start(n as nat, k as nat, (i + 1) as nat) == lo + step) by (nonlinear_arith)
                requires
                    lo == i * chunk_len(n as nat, k as nat),
                    step as nat == chunk_len(n as nat, k as nat),
            ;
            assert(hi as nat == chunk_end(n as nat, k as nat, i as nat));
        }
        let mut acc: u128 = 0;
        let mut j: usize = lo;
        proof {
            assert(nats(sorted@.subrange(lo as int, lo as int)) =~= Seq::<nat>::empty());
        }
        while j < hi
            invariant
                lo <= j <= hi,
                hi <= n,
                lo < n,
                lo == chunk_start(n as nat, k as nat, i as nat),
                hi as nat == chunk_end(n as nat, k as nat, i as nat),
                n == sorted.len(),
                sum_nat(nats(sorted@)) <= u128::MAX,
                acc as nat == sum_nat(nats(sorted@.subrange(lo as int, j as int))),
            decreases hi - j,
        {
            proof {
                let t = sorted@.subrange(lo as int, j + 1);
                assert(t =~= sorted@.subrange(lo as int, j as int).push(sorted@[j as int]));
                crate::model::lemma_nats_push(sorted@.subrange(lo as int, j as int), sorted@[j as int]);
                crate::model::lemma_sum_nat_push(nats(sorted@.subrange(lo as int, j as int)), sorted@[j as int] as nat);
                crate::model::lemma_slice_sub(sorted@, lo as int, j + 1);
                crate::model::lemma_nats_sub(t, sorted@);
                crate::model::lemma_sub_multiset_sum_le(nats(t), nats(sorted@));
            }
            acc = acc + sorted[j];
            j += 1;
        }
        let ghost before = centers@;
        centers.push(acc / ((hi - lo) as u128));
        proof {
            assert forall|c: int|
                0 <= c < i + 1 implies #[trigger] centers@[c] == chunk_mean(
                    sorted@,
                    chunk_start(n as nat, k as nat, c as nat) as int,
                    chunk_end(n as nat, k as nat, c as nat) as int,
                ) by {
                if c < i {
                    assert(centers@[c] == before[c]);
                } else {
                    assert(centers@[c] == acc / ((hi - lo) as u128));
                }
            }
        }
        proof {
            assert forall|c: int| 0 <= c < i + 1 implies #[trigger] chunk_start(n as nat, k as nat, c as nat) < n by {
                if c == i {
                    assert(lo == chunk_start(n as nat, k as nat, i as nat));
                }
            }
        }
        i += 1;
        lo = hi;
    }
    proof {
        if lo < n {
            assert(i == k);
            let q = n / k;
            let rm = n % k;
            vstd::arithmetic::div_mod::lemma_fundamental_div_mod(n as int, k as int);
            assert(k * chunk_len(n as nat, k as nat) >= n) by (nonlinear_arith)
                requires
                    n == k * q + rm,
                    0 <= rm < k,
                    chunk_len(n as nat, k as nat) == (if rm == 0 { q as int } else { q + 1 }),
            ;
            assert(chunk_start(n as nat, k as nat, k as nat) == k * chunk_len(n as nat, k as nat));
        }
    }
    proof {
        assert forall|c: int| 0 <= c < centers.len() implies #[trigger] centers@[c] == chunk_mean(
            ascending_u128(numbers@),
            chunk_start(numbers.len() as nat, k as nat, c as nat) as int,
            chunk_end(numbers.len() as nat, k as nat, c as nat) as int,
        ) by {
        }
        let len = chunk_len(n as nat, k as nat);
        let m = centers.len() as int;
        assert(m >= 1) by {
            assert(chunk_start(n as nat, k as nat, 0) == 0);
        }
        assert(chunk_start(n as nat, k as nat, (m - 1) as nat) < n);
        assert(chunk_start(n as nat, k as nat, (m - 1) as nat) == (m - 1) * len);
        assert(chunk_start(n as nat, k as nat, m as nat) == m * len);
        assert(m == (n + len - 1) / (len as int)) by (nonlinear_arith)
            requires
                len >= 1,
                (m - 1) * len < n,
                m * len >= n,
                m >= 1,
        {
            let q = (n + len - 1) / (len as int);
            assert(q * len <= n + len - 1 < (q + 1) * len);
            if m < q {
                assert(m * len <= (q - 1) * len);
            } else if m > q {
                assert((m - 1) * len >= q * len);
            }
        }
        assert(nats(centers@) =~= centres(numbers@, k as nat));
        lemma_centres_ordered(numbers@, k as nat);
        assert forall|i: int, j: int| 0 <= i <= j < centers.len() implies centers@[i] <= centers@[j] by {
            assert(nats(centers@)[i] == centers@[i] as nat);
            assert(nats(centers@)[j] == centers@[j] as nat);
        }
        assert forall|i: int| 0 <= i < centers.len() implies ascending_u128(numbers@)[0] <= #[trigger] centers@[i]
            <= ascending_u128(numbers@)[numbers.len() - 1] by {
            assert(nats(centers@)[i] == centers@[i] as nat);
        }
    }
    centers
}

/// The centres do not depend on the order of the numbers.
pub proof fn lemma_centres_permutation(a: Seq<u128>, b: Seq<u128>, k: nat)
    requires
        a.to_multiset() == b.to_multiset(),
    ensures
        centres(a, k) == centres(b, k),
{
    broadcast use vstd::seq_lib::group_to_multiset_ensures;
    let leq = |x: u128, y: u128| x <= y;
    assert(vstd::relations::total_ordering(leq));
    a.lemma_sort_by_ensures(leq);
    b.lemma_sort_by_ensures(leq);
    vstd::seq_lib::lemma_sorted_unique(a.sort_by(leq), b.sort_by(leq), leq);
    assert(a.to_multiset().len() == a.len());
    assert(b.to_multiset().len() == b.len());
    assert(ascending_u128(a) == ascending_u128(b));
}

/// Values between `lo` and `hi` sum to between `len * lo` and `len * hi`.
proof fn lemma_sum_between(s: Seq<nat>, lo: nat, hi: nat)
    requires
        forall|i: int| 0 <= i < s.len() ==> lo <= #[trigger] s[i] <= hi,
    ensures
        s.len() * lo <= sum_nat(s) <= s.len() * hi,
    decreases s.len(),
{
    if s.len() > 0 {
        lemma_sum_between(s.drop_last(), lo, hi);
        assert(s.len() * lo == (s.len() - 1) * lo + lo) by (nonlinear_arith);
        assert(s.len() * hi == (s.len() - 1) * hi + hi) by (nonlinear_arith);
    }
}

/// The mean of a chunk of a sorted sequence lies between the chunk's
/// first and last values.
proof fn lemma_chunk_mean_bounds(s: Seq<u128>, lo: int, hi: int)
    requires
        0 <= lo < hi <= s.len(),
        forall|i: int, j: int| 0 <= i <= j < s.len() ==> s[i] <= s[j],
    ensures
        s[lo] <= chunk_mean(s, lo, hi) <= s[hi - 1],
{
    let t = nats(s.subrange(lo, hi));
    let len = (hi - lo) as nat;
    assert forall|i: int| 0 <= i < t.len() implies s[lo] <= #[trigger] t[i] <= s[hi - 1] by {
        assert(t[i] == s[lo + i] as nat);
    }
    lemma_sum_between(t, s[lo] as nat, s[hi - 1] as nat);
    let a = s[lo] as nat;
    let b = s[hi - 1] as nat;
    let sm = sum_nat(t);
    assert(a <= sm / len <= b) by (nonlinear_arith)
        requires
            len > 0,
            len * a <= sm,
            sm <= len * b,
    {
        vstd::arithmetic::div_mod::lemma_fundamental_div_mod(sm as int, len as int);
        let q = sm / len;
        if q < a {
            assert(len * q <= len * (a - 1));
        }
        if q > b {
            assert(len * q >= len * (b + 1));
        }
    }
}

/// For more numbers than `k > 0`, the centres never decrease and lie
/// between the smallest and the largest number.
pub proof fn lemma_centres_ordered(s: Seq<u128>, k: nat)
    requires
        0 < k < s.len(),
    ensures
        forall|i: int, j: int| 0 <= i <= j < centres(s, k).len() ==> centres(s, k)[i] <= centres(s, k)[j],
        forall|i: int|
            0 <= i < centres(s, k).len() ==> ascending_u128(s)[0] <= #[trigger] centres(s, k)[i] <= ascending_u128(s)[s.len() - 1],
{
    broadcast use vstd::seq_lib::group_to_multiset_ensures;
    let leq = |x: u128, y: u128| x <= y;
    assert(vstd::relations::total_ordering(leq));
    s.lemma_sort_by_ensures(leq);
    let a = ascending_u128(s);
    let n = s.len();
    assert(a.to_multiset().len() == a.len());
    assert(s.to_multiset().len() == s.len());
    assert(a.len() == n);
    assert forall|i: int, j: int| 0 <= i <= j < a.len() implies a[i] <= a[j] by {
        if i < j {
            assert(leq(a[i], a[j]));
        }
    }
    let len = chunk_len(n, k);
    let c = centres(s, k);
    assert(len >= 1) by (nonlinear_arith)
        requires
            0 < k < n,
            len == (if n % k == 0 { n / k } else { n / k + 1 }),
    ;
    assert forall|i: int| 0 <= i < c.len() implies chunk_start(n, k, i as nat) < chunk_end(n, k, i as nat) <= n && a[chunk_start(
        n,
        k,
        i as nat,
    ) as int] <= #[trigger] c[i] <= a[chunk_end(n, k, i as nat) - 1] by {
        assert(i < chunk_count(n, k));
        assert(i * len < n) by (nonlinear_arith)
            requires
                0 <= i < (n + len - 1) / (len as int),
                len >= 1,
        {
            let q = (n + len - 1) / (len as int);
            assert(q * len <= n + len - 1);
            assert((i + 1) * len <= q * len);
        }
        assert(chunk_start(n, k, i as nat) == i * len);
        assert(chunk_start(n, k, (i + 1) as nat) == (i + 1) * len) by (nonlinear_arith)
            requires
                chunk_start(n, k, (i + 1) as nat) == (i + 1) * chunk_len(n, k),
                len == chunk_len(n, k),
        ;
        assert((i + 1) * len == i * len + len) by (nonlinear_arith);
        assert(chunk_start(n, k, i as nat) < chunk_end(n, k, i as nat) <= n);
        lemma_chunk_mean_bounds(a, chunk_start(n, k, i as nat) as int, chunk_end(n, k, i as nat) as int);
    }
    assert forall|i: int, j: int| 0 <= i <= j < c.len() implies c[i] <= c[j] by {
        if i < j {
            assert(a[chunk_start(n, k, j as nat) as int] <= c[j]);
            assert(chunk_start(n, k, (i + 1) as nat) == (i + 1) * len);
            assert(chunk_start(n, k, j as nat) == j * len);
            assert(chunk_start(n, k, (i + 1) as nat) <= chunk_start(n, k, j as nat)) by (nonlinear_arith)
                requires
                    chunk_start(n, k, (i + 1) as nat) == (i + 1) * len,
                    chunk_start(n, k, j as nat) == j * len,
                    i + 1 <= j,
                    len >= 1,
            ;
            assert(chunk_end(n, k, i as nat) == chunk_start(n, k, (i + 1) as nat));
            let x = chunk_end(n, k, i as nat) - 1;
            let y = chunk_start(n, k, j as nat) as int;
            assert((i + 1) * len >= 1) by (nonlinear_arith)
                requires
                    i >= 0,
                    len >= 1,
            ;
            assert(0 <= x);
            assert(x <= y);
            assert(chunk_start(n, k, j as nat) < chunk_end(n, k, j as nat) <= n);
            assert(y < a.len());
            assert(a[x] <= a[y]);
        }
    }
    assert forall|i: int| 0 <= i < c.len() implies a[0] <= #[trigger] c[i] <= a[n - 1] by {
        assert(a[chunk_start(n, k, i as nat) as int] <= c[i]);
        let x = chunk_start(n, k, i as nat) as int;
        let y = chunk_end(n, k, i as nat) - 1;
        assert(0 <= x < a.len() && 0 <= y < a.len());
        assert(a[0] <= a[x]);
        assert(a[y] <= a[n - 1]);
    }
}

/// `|a - b|`.
pub fn absdiff(a: u128, b: u128) -> (r: u128)
    ensures
        r as int == (if a > b { a - b } else { b - a }),
{
    if a > b { a - b } else { b - a }
}

/// How many of the primes 2, 3, 5, 7 leave `remaining` one short of a
/// multiple (`remaining % p == p - 1`).
pub open spec fn parity_bad_spec(remaining: u128) -> nat {
    (if remaining % 2 == 1 { 1nat } else { 0nat })
        + (if remaining % 3 == 2 { 1nat } else { 0nat })
        + (if remaining % 5 == 4 { 1nat } else { 0nat })
        + (if remaining % 7 == 6 { 1nat } else { 0nat })
}

/// [`parity_bad_spec`], computed.
pub fn parity_bad(remaining: u128) -> (r: u32)
    ensures
        r as nat == parity_bad_spec(remaining),
        r <= 4,
{
    let primes: [u128; 4] = [2, 3, 5, 7];
    let mut bad: u32 = 0;
    let mut i: usize = 0;
    while i < 4
        invariant
            i <= 4,
            primes@ == seq![2u128, 3u128, 5u128, 7u128],
            bad as nat == (if i > 0 && remaining % 2 == 1 { 1nat } else { 0nat })
                + (if i > 1 && remaining % 3 == 2 { 1nat } else { 0nat })
                + (if i > 2 && remaining % 5 == 4 { 1nat } else { 0nat })
                + (if i > 3 && remaining % 7 == 6 { 1nat } else { 0nat }),
            bad <= i,
        decreases 4 - i,
    {
        let p = primes[i];
        if remaining % p == p - 1 {
            bad += 1;
        }
        i += 1;
    }
    bad
}

/// The smallest `|x - c|` over the centres `c`.
pub open spec fn nearest_spec(x: u128, centers: Seq<u128>) -> nat
    decreases centers.len(),
{
    if centers.len() == 0 {
        0
    } else if centers.len() == 1 {
        (if x > centers[0] { x - centers[0] } else { centers[0] - x }) as nat
    } else {
        let d = (if x > centers.last() { x - centers.last() } else { centers.last() - x }) as nat;
        let rest = nearest_spec(x, centers.drop_last());
        if d < rest { d } else { rest }
    }
}

/// The distance between two values.
pub open spec fn gap(a: u128, b: u128) -> nat {
    (if a > b { a - b } else { b - a }) as nat
}

/// The nearest distance is the least distance from `x` to any centre: no
/// centre is closer, and some centre is exactly that far. Without centres
/// it is 0.
pub proof fn lemma_nearest_is_least(x: u128, centers: Seq<u128>)
    ensures
        centers.len() == 0 ==> nearest_spec(x, centers) == 0,
        forall|i: int| 0 <= i < centers.len() ==> nearest_spec(x, centers) <= #[trigger] gap(x, centers[i]),
        centers.len() > 0 ==> exists|j: int| 0 <= j < centers.len() && nearest_spec(x, centers) == #[trigger] gap(x, centers[j]),
    decreases centers.len(),
{
    if centers.len() > 1 {
        let rest = centers.drop_last();
        lemma_nearest_is_least(x, rest);
        assert forall|i: int| 0 <= i < centers.len() implies nearest_spec(x, centers) <= #[trigger] gap(x, centers[i]) by {
            if i < centers.len() - 1 {
                assert(centers[i] == rest[i]);
            }
        }
        if gap(x, centers.last()) < nearest_spec(x, rest) {
            assert(nearest_spec(x, centers) == gap(x, centers[centers.len() - 1]));
        } else {
            let j = choose|j: int| 0 <= j < rest.len() && nearest_spec(x, rest) == #[trigger] gap(x, rest[j]);
            assert(centers[j] == rest[j]);
            assert(nearest_spec(x, centers) == gap(x, centers[j]));
        }
    } else if centers.len() == 1 {
        assert(nearest_spec(x, centers) == gap(x, centers[0]));
    }
}

/// [`nearest_spec`], computed: the least distance from `x` to a centre.
pub fn nearest_center(x: u128, centers: &Vec<u128>) -> (r: u128)
    ensures
        r as nat == nearest_spec(x, centers@),
        centers.len() == 0 ==> r == 0,
        forall|i: int| 0 <= i < centers.len() ==> r <= (if x > #[trigger] centers@[i] { x - centers@[i] } else { centers@[i] - x }),
        centers.len() > 0 ==> exists|j: int| 0 <= j < centers.len() && r == (if x > #[trigger] centers@[j] { x - centers@[j] } else { centers@[j] - x }),
{
    proof {
        lemma_nearest_is_least(x, centers@);
    }
    if centers.len() == 0 {
        return 0;
    }
    let mut best = absdiff(x, centers[0]);
    let mut i: usize = 1;
    proof {
        assert(centers@.take(1).drop_last() =~= Seq::<u128>::empty());
    }
    while i < centers.len()
        invariant
            1 <= i <= centers.len(),
            best as nat == nearest_spec(x, centers@.take(i as int)),
        decreases centers.len() - i,
    {
        let d = absdiff(x, centers[i]);
        proof {
            assert(centers@.take(i + 1).drop_last() =~= centers@.take(i as int));
        }
        if d < best {
            best = d;
        }
        i += 1;
    }
    proof {
        assert(centers@.take(centers.len() as int) =~= centers@);
        assert forall|i: int| 0 <= i < centers.len() implies best <= (if x > #[trigger] centers@[i] {
            x - centers@[i]
        } else {
            centers@[i] - x
        }) by {
            assert(nearest_spec(x, centers@) <= gap(x, centers@[i]));
        }
        let j = choose|j: int| 0 <= j < centers.len() && nearest_spec(x, centers@) == #[trigger] gap(x, centers@[j]);
        assert(best == (if x > centers@[j] { x - centers@[j] } else { centers@[j] - x }));
    }
    best
}

/// The integer parts of a goal distance.
pub struct GdvsParts {
    /// `target - current_sum`, or 0 when the sum is past the target.
    pub remaining: u128,
    /// [`parity_bad_spec`] of the remainder (out of 4).
    pub parity_bad: u32,
    /// The distance from the remainder to the nearest cluster centre; 0
    /// without centres or when nothing remains.
    pub nearest: u128,
    /// `|current_sum - target / (chosen + 1)|`, or nothing when nothing
    /// is chosen yet.
    pub structural: Option<u128>,
}

/// The integer parts of the goal distance of a partial state that has
/// chosen `chosen_count` numbers summing to `current_sum`.
pub fn gdvs_parts(current_sum: u128, target: u128, chosen_count: usize, cluster_centers: &Vec<u128>) -> (r: GdvsParts)
    ensures
        r.remaining as int == (if target >= current_sum { target - current_sum } else { 0 }),
        r.parity_bad as nat == parity_bad_spec(r.remaining),
        r.nearest as nat == (if cluster_centers.len() == 0 || r.remaining == 0 { 0 } else {
            nearest_spec(r.remaining, cluster_centers@) }),
        chosen_count == 0 ==> r.structural is None,
        chosen_count > 0 ==> (r.structural matches Some(d) && d as int == {
            let bp = target as int / (chosen_count as int + 1);
            if current_sum > bp { current_sum - bp } else { bp - current_sum }
        }),
{
    let remaining = if target >= current_sum { target - current_sum } else { 0 };
    let parity = parity_bad(remaining);
    let nearest = if cluster_centers.len() == 0 || remaining == 0 { 0 } else { nearest_center(remaining, cluster_centers) };
    let structural = if chosen_count == 0 {
        None
    } else {
        let bp = target / (chosen_count as u128 + 1);
        Some(absdiff(current_sum, bp))
    };
    GdvsParts { remaining, parity_bad: parity, nearest, structural }
}

/// The value as a `u128` when it fits.
pub fn safe_to_u128(b: &BigNat) -> (r: Option<u128>)
    ensures
        r is Some <==> b@ <= u128::MAX,
        r matches Some(v) ==> v as nat == b@,
{
    big_to_u128(b)
}

} // verus!
