//! The fast path: instances settled without search (zero target, whole
//! set, one or two numbers) and impossibility by size, parity, common
//! divisor and small-prime residues.
use vstd::prelude::*;
use crate::model::{sum_nat, is_solution, solvable, reach, lemma_reach_iff_solvable, lemma_reach_le_sum};
use crate::bignat::{BigNat, vals, spec_gcd, big_eq, big_le, big_sub, big_rem, big_gcd, big_from_u128};
use crate::profile::{Profile, seq_min};
use crate::sort::sort_asc;
use crate::engines::digit_filter::{residue_reachable, mod_reach, lemma_reach_mod};
use vstd::multiset::Multiset;

verus! {

broadcast use vstd::seq_lib::group_to_multiset_ensures, vstd::multiset::group_multiset_axioms;

/// What the fast path decided.
pub enum Trivial {
    Solved(Vec<BigNat>),
    Impossible,
    Continue,
}

/// `d` divides `a` (only 0 is a multiple of 0).
pub open spec fn divides(d: nat, a: nat) -> bool {
    if d == 0 {
        a == 0
    } else {
        a % d == 0
    }
}

/// The greatest common divisor divides both arguments.
pub proof fn lemma_gcd_divides(a: nat, b: nat)
    ensures
        divides(spec_gcd(a, b), a),
        divides(spec_gcd(a, b), b),
    decreases b,
{
    if b == 0 {
        if a > 0 {
            vstd::arithmetic::div_mod::lemma_mod_self_0(a as int);
        }
    } else {
        let r = a % b;
        lemma_gcd_divides(b, r);
        let d = spec_gcd(b, r);
        assert(d > 0);
        lemma_multiple_of_sum(d, b, r, a / b, a);
    }
}

/// `d | b` and `d | r` with `a == b * q + r` give `d | a`.
proof fn lemma_multiple_of_sum(d: nat, b: nat, r: nat, q: nat, a: nat)
    requires
        d > 0,
        b > 0,
        divides(d, b),
        divides(d, r),
        r == a % b,
        q == a / b,
    ensures
        divides(d, a),
{
    vstd::arithmetic::div_mod::lemma_fundamental_div_mod(a as int, b as int);
    vstd::arithmetic::div_mod::lemma_fundamental_div_mod(b as int, d as int);
    vstd::arithmetic::div_mod::lemma_fundamental_div_mod(r as int, d as int);
    let u = b / d;
    let w = r / d;
    assert(a == d * (u * q + w)) by (nonlinear_arith)
        requires
            a == b * q + r,
            b == d * u,
            r == d * w,
    ;
    vstd::arithmetic::div_mod::lemma_mod_multiples_basic((u * q + w) as int, d as int);
    assert((u * q + w) * d == d * (u * q + w)) by (nonlinear_arith);
}

/// Divisibility is transitive.
pub proof fn lemma_divides_trans(d: nat, g: nat, a: nat)
    requires
        divides(d, g),
        divides(g, a),
    ensures
        divides(d, a),
{
    if d > 0 && g > 0 {
        vstd::arithmetic::div_mod::lemma_fundamental_div_mod(g as int, d as int);
        vstd::arithmetic::div_mod::lemma_fundamental_div_mod(a as int, g as int);
        let u = g / d;
        let w = a / g;
        assert(a == d * (u * w)) by (nonlinear_arith)
            requires
                g == d * u,
                a == g * w,
        ;
        vstd::arithmetic::div_mod::lemma_mod_multiples_basic((u * w) as int, d as int);
        assert((u * w) * d == d * (u * w)) by (nonlinear_arith);
    }
}

/// A common divisor of the values divides every reachable amount.
pub proof fn lemma_reach_divides(s: Seq<nat>, g: nat, r: nat)
    requires
        g > 0,
        forall|i: int| 0 <= i < s.len() ==> divides(g, #[trigger] s[i]),
        reach(s, r),
    ensures
        divides(g, r),
    decreases s.len(),
{
    if r == 0 {
        vstd::arithmetic::div_mod::lemma_small_mod(0, g);
    } else if reach(s.drop_first(), r) {
        lemma_reach_divides(s.drop_first(), g, r);
    } else {
        let r0 = (r - s[0]) as nat;
        lemma_reach_divides(s.drop_first(), g, r0);
        assert(divides(g, s[0]));
        vstd::arithmetic::div_mod::lemma_fundamental_div_mod(r0 as int, g as int);
        vstd::arithmetic::div_mod::lemma_fundamental_div_mod(s[0] as int, g as int);
        let u = r0 / g;
        let w = s[0] / g;
        assert(r == g * (u + w)) by (nonlinear_arith)
            requires
                r == r0 + s[0],
                r0 == g * u,
                s[0] == g * w,
        ;
        vstd::arithmetic::div_mod::lemma_mod_multiples_basic((u + w) as int, g as int);
        assert((u + w) * g == g * (u + w)) by (nonlinear_arith);
    }
}

/// A target that a common divisor of all the numbers does not divide is
/// out of reach.
pub proof fn law_gcd_refutes(s: Seq<nat>, g: nat, r: nat)
    requires
        g > 0,
        forall|i: int| 0 <= i < s.len() ==> divides(g, #[trigger] s[i]),
        !divides(g, r),
    ensures
        !solvable(s, r),
{
    if solvable(s, r) {
        lemma_reach_iff_solvable(s, r);
        lemma_reach_divides(s, g, r);
    }
}

/// When every value exceeds `r > 0`, no subset reaches `r`.
pub proof fn lemma_reach_all_above(s: Seq<nat>, r: nat)
    requires
        r > 0,
        forall|i: int| 0 <= i < s.len() ==> #[trigger] s[i] > r,
    ensures
        !reach(s, r),
    decreases s.len(),
{
    if s.len() > 0 {
        lemma_reach_all_above(s.drop_first(), r);
    }
}

/// The minimum is at most every value.
pub proof fn lemma_seq_min_le(s: Seq<nat>, i: int)
    requires
        0 <= i < s.len(),
    ensures
        seq_min(s) <= s[i],
    decreases s.len(),
{
    if s.len() > 1 && i < s.len() - 1 {
        lemma_seq_min_le(s.drop_last(), i);
    }
}

/// Every number is a multiple of `d`.
pub open spec fn divides_all(d: nat, s: Seq<nat>) -> bool {
    forall|j: int| 0 <= j < s.len() ==> divides(d, #[trigger] s[j])
}

/// A common divisor of `a` and `b` divides their greatest common divisor.
pub proof fn lemma_common_divides_gcd(d: nat, a: nat, b: nat)
    requires
        d > 0,
        divides(d, a),
        divides(d, b),
    ensures
        divides(d, spec_gcd(a, b)),
    decreases b,
{
    if b > 0 {
        let r = a % b;
        let q = a / b;
        vstd::arithmetic::div_mod::lemma_fundamental_div_mod(a as int, b as int);
        vstd::arithmetic::div_mod::lemma_fundamental_div_mod(a as int, d as int);
        vstd::arithmetic::div_mod::lemma_fundamental_div_mod(b as int, d as int);
        let u = a / d;
        let w = b / d;
        let k: int = u - w * q;
        assert(r == d * k) by (nonlinear_arith)
            requires
                a == b * q + r,
                a == d * u,
                b == d * w,
                k == u - w * q,
        ;
        assert(k >= 0) by (nonlinear_arith)
            requires
                r == d * k,
                d > 0,
                r >= 0,
        ;
        vstd::arithmetic::div_mod::lemma_mod_multiples_basic(k, d as int);
        assert(k * d == d * k) by (nonlinear_arith);
        lemma_common_divides_gcd(d, b, r);
    }
}

/// Numbers that are all zero add up to zero.
pub proof fn lemma_sum_all_zero(s: Seq<nat>)
    requires
        forall|j: int| 0 <= j < s.len() ==> #[trigger] s[j] == 0,
    ensures
        sum_nat(s) == 0,
    decreases s.len(),
{
    if s.len() > 0 {
        lemma_sum_all_zero(s.drop_last());
    }
}

/// The values at two different positions form a sub-multiset.
pub proof fn lemma_pair_sub(s: Seq<nat>, i: int, j: int)
    requires
        0 <= i < s.len(),
        0 <= j < s.len(),
        i != j,
    ensures
        seq![s[i], s[j]].to_multiset().subset_of(s.to_multiset()),
        s[i] == s[j] ==> s.to_multiset().count(s[i]) >= 2,
{
    let m = s.to_multiset();
    let r = s.remove(j);
    assert(r[if i < j { i } else { i - 1 }] == s[i]);
    assert(r.contains(s[i]));
    assert(r.to_multiset().count(s[i]) > 0);
    assert(r.to_multiset() == m.remove(s[j]));
    assert(s.contains(s[i]) && s.contains(s[j]));
    assert(m.count(s[i]) > 0 && m.count(s[j]) > 0);
    assert(seq![s[i], s[j]] =~= Seq::<nat>::empty().push(s[i]).push(s[j]));
    assert(Seq::<nat>::empty().to_multiset() =~= Multiset::empty());
    let pm = seq![s[i], s[j]].to_multiset();
    assert(pm =~= Multiset::singleton(s[i]).insert(s[j]));
    if s[i] == s[j] {
        assert(m.remove(s[j]).count(s[i]) == m.count(s[i]) - 1);
    }
    assert forall|v: nat| pm.count(v) <= m.count(v) by {
        if v == s[i] && v == s[j] {
            assert(m.remove(s[j]).count(s[i]) == m.count(s[i]) - 1);
        }
    }
}

/// Two numbers at different positions sum to `t`.
pub open spec fn has_pair(vs: Seq<nat>, t: nat) -> bool {
    exists|i: int, j: int|
        #![trigger vs[i], vs[j]]
        0 <= i < vs.len() && 0 <= j < vs.len() && i != j && vs[i] + vs[j] == t
}

/// The small primes whose residues are checked.
pub open spec fn residue_primes() -> Seq<usize> {
    seq![2, 3, 5, 7, 11, 13]
}

/// The `q`-th of the checked primes.
fn residue_prime(q: usize) -> (m: usize)
    requires
        q < 6,
    ensures
        m == residue_primes()[q as int],
        0 < m <= 13,
{
    if q == 0 {
        2
    } else if q == 1 {
        3
    } else if q == 2 {
        5
    } else if q == 3 {
        7
    } else if q == 4 {
        11
    } else {
        13
    }
}

/// Settles what needs no search: a zero target (the empty subset), no
/// numbers, the whole set, a target above the total or below every
/// number, a single number equal to the target, a pair (first number in
/// order whose complement is also present), an odd target with even
/// numbers, a common divisor that does not divide the target, or a target
/// residue that no subset reaches modulo 2, 3, 5, 7, 11 or 13.
#[verifier::rlimit(50)]
#[verifier::spinoff_prover]
pub fn solve(p: &Profile) -> (r: Trivial)
    requires
        p.wf(),
    ensures
        r matches Trivial::Solved(sol) ==> is_solution(p.values(), vals(sol@), p.target@),
        r is Impossible ==> !solvable(p.values(), p.target@),
        p.target@ == 0 ==> (r matches Trivial::Solved(sol) && sol.len() == 0),
        p.target@ > 0 && p.target@ == p.total_sum@ ==> (r matches Trivial::Solved(sol) && vals(sol@) == p.values()),
        p.target@ > p.total_sum@ ==> r is Impossible,
        p.target@ > 0 && p.min_val@ > p.target@ ==> r is Impossible,
        p.target@ > 0 && p.target@ != p.total_sum@ && p.values().contains(p.target@) ==> (r matches Trivial::Solved(sol)
            && vals(sol@) == seq![p.target@]),
        p.target@ > 0 && p.target@ != p.total_sum@ && !p.values().contains(p.target@) && has_pair(p.values(), p.target@)
            ==> (r matches Trivial::Solved(sol) && sol.len() == 2),
        p.target@ % 2 == 1 && divides_all(2, p.values()) ==> r is Impossible,
        (exists|d: nat| d > 1 && !divides(d, p.target@) && #[trigger] divides_all(d, p.values())) ==> r is Impossible,
        (exists|q: int| 0 <= q < 6 && !mod_reach(p.values(), p.target@ as int, #[trigger] residue_primes()[q] as int))
            ==> r is Impossible,
{
    let target = &p.target;
    let zero = BigNat::zero();
    let ghost vs = p.values();
    let ghost t = p.target@;
    proof {
        if t % 2 == 1 && divides_all(2, vs) {
            law_gcd_refutes(vs, 2, t);
        }
        if exists|d: nat| d > 1 && !divides(d, t) && #[trigger] divides_all(d, vs) {
            let d = choose|d: nat| d > 1 && !divides(d, t) && #[trigger] divides_all(d, vs);
            law_gcd_refutes(vs, d, t);
        }
        if exists|q: int| 0 <= q < 6 && !mod_reach(vs, t as int, #[trigger] residue_primes()[q] as int) {
            let q = choose|q: int| 0 <= q < 6 && !mod_reach(vs, t as int, #[trigger] residue_primes()[q] as int);
            if solvable(vs, t) {
                lemma_reach_iff_solvable(vs, t);
                lemma_reach_mod(vs, t, residue_primes()[q] as int);
            }
        }
        if t > 0 && seq_min(vs) > t {
            assert forall|i: int| 0 <= i < vs.len() implies #[trigger] vs[i] > t by {
                lemma_seq_min_le(vs, i);
            }
            lemma_reach_all_above(vs, t);
            lemma_reach_iff_solvable(vs, t);
            if vs.len() > 0 {
                lemma_seq_min_le(vs, 0);
                crate::model::lemma_sum_nat_first(vs);
                assert(p.total_sum@ >= vs[0]);
            }
        }
        if t > 0 && vs.contains(t) {
            assert(seq![t].to_multiset() =~= Multiset::singleton(t));
            assert(sum_nat(seq![t]) == t) by {
                reveal_with_fuel(sum_nat, 2);
            }
            crate::model::lemma_sub_multiset_sum_le(seq![t], vs);
            let i = choose|i: int| 0 <= i < vs.len() && vs[i] == t;
            lemma_seq_min_le(vs, i);
        }
        if has_pair(vs, t) {
            let (i, j) = choose|i: int, j: int|
                #![trigger vs[i], vs[j]]
                0 <= i < vs.len() && 0 <= j < vs.len() && i != j && vs[i] + vs[j] == t;
            lemma_pair_sub(vs, i, j);
            assert(sum_nat(seq![vs[i], vs[j]]) == t) by {
                reveal_with_fuel(sum_nat, 3);
            }
            crate::model::lemma_sub_multiset_sum_le(seq![vs[i], vs[j]], vs);
            lemma_seq_min_le(vs, i);
            if vs[i] > t {
            }
        }
    }
    if big_eq(target, &zero) {
        let sol: Vec<BigNat> = Vec::new();
        proof {
            crate::model::lemma_sub_multiset_empty(p.values());
            assert(vals(sol@) =~= Seq::<nat>::empty());
            assert(is_solution(p.values(), vals(sol@), p.target@));
        }
        return Trivial::Solved(sol);
    }
    if p.n == 0 {
        proof {
            lemma_reach_iff_solvable(p.values(), p.target@);
        }
        return Trivial::Impossible;
    }
    if big_eq(target, &p.total_sum) {
        let mut sol: Vec<BigNat> = Vec::new();
        let mut i: usize = 0;
        while i < p.numbers.len()
            invariant
                i <= p.numbers.len(),
                sol@.len() == i,
                forall|k: int| 0 <= k < i ==> #[trigger] sol@[k]@ == p.numbers@[k]@,
            decreases p.numbers.len() - i,
        {
            sol.push(p.numbers[i].copy());
            i += 1;
        }
        proof {
            assert(vals(sol@) =~= p.values());
            crate::model::lemma_sub_multiset_refl(p.values());
            assert(is_solution(p.values(), vals(sol@), p.target@));
        }
        return Trivial::Solved(sol);
    }
    if !big_le(target, &p.total_sum) {
        proof {
            lemma_reach_iff_solvable(p.values(), p.target@);
            if reach(p.values(), p.target@) {
                lemma_reach_le_sum(p.values(), p.target@);
            }
        }
        return Trivial::Impossible;
    }
    if !big_le(&p.min_val, target) {
        proof {
            assert forall|i: int| 0 <= i < p.values().len() implies #[trigger] p.values()[i] > p.target@ by {
                lemma_seq_min_le(p.values(), i);
            }
            lemma_reach_all_above(p.values(), p.target@);
            lemma_reach_iff_solvable(p.values(), p.target@);
        }
        return Trivial::Impossible;
    }
    if p.count_of(target) > 0 {
        let mut sol: Vec<BigNat> = Vec::new();
        sol.push(target.copy());
        proof {
            assert(vals(sol@) =~= seq![p.target@]);
            assert(sum_nat(seq![p.target@]) == p.target@) by {
                reveal_with_fuel(sum_nat, 2);
            }
            assert(vals(sol@).to_multiset() =~= Multiset::singleton(p.target@));
            assert(is_solution(p.values(), vals(sol@), p.target@));
        }
        return Trivial::Solved(sol);
    }
    proof {
        assert(!vs.contains(t));
    }
    let mut i: usize = 0;
    while i < p.numbers.len()
        invariant
            i <= p.numbers.len(),
            p.wf(),
            p.target@ > 0,
            p.target@ < p.total_sum@,
            p.min_val@ <= p.target@,
            target@ == p.target@,
            vs == p.values(),
            t == p.target@,
            !vs.contains(t),
            (exists|d: nat| d > 1 && !divides(d, t) && #[trigger] divides_all(d, vs)) ==> !solvable(vs, t),
            (exists|q: int| 0 <= q < 6 && !mod_reach(vs, t as int, #[trigger] residue_primes()[q] as int)) ==> !solvable(vs, t),
            t % 2 == 1 && divides_all(2, vs) ==> !solvable(vs, t),
            forall|a: int, b: int|
                #![trigger vs[a], vs[b]]
                0 <= a < i && 0 <= b < vs.len() && a != b ==> vs[a] + vs[b] != t,
        decreases p.numbers.len() - i,
    {
        let x = &p.numbers[i];
        proof {
            assert(vs[i as int] == x@);
        }
        if big_le(target, x) {
            proof {
                assert forall|a: int, b: int|
                    #![trigger vs[a], vs[b]]
                    0 <= a < i + 1 && 0 <= b < vs.len() && a != b implies vs[a] + vs[b] != t by {
                    if a == i && vs[a] + vs[b] == t {
                        assert(vs[a] == t);
                    }
                }
            }
            i += 1;
            continue;
        }
        let c = big_sub(target, x);
        let cnt = p.count_of(&c);
        if cnt > 0 && (!big_eq(&c, x) || cnt >= 2) {
            let mut pair: Vec<BigNat> = Vec::new();
            pair.push(x.copy());
            pair.push(c);
            let sol = sort_asc(&pair);
            proof {
                assert(vs.to_multiset().count(x@) > 0) by {
                    assert(vs.contains(x@));
                }
                let cv = pair@[1]@;
                assert(vals(pair@) =~= Seq::<nat>::empty().push(x@).push(cv));
                crate::model::lemma_sum_nat_push(Seq::<nat>::empty(), x@);
                crate::model::lemma_sum_nat_push(Seq::<nat>::empty().push(x@), cv);
                assert(Seq::<nat>::empty().to_multiset() =~= Multiset::empty());
                assert(vals(pair@).to_multiset() =~= Multiset::singleton(x@).insert(cv));
                assert(vs.to_multiset().count(cv) == cnt);
                assert forall|v: nat| vals(pair@).to_multiset().count(v) <= vs.to_multiset().count(v) by {
                    if v == x@ && v == cv {
                        assert(cnt >= 2);
                    }
                }
                assert(vals(pair@).to_multiset().subset_of(vs.to_multiset()));
                crate::model::lemma_perm_sum(vals(sol@), vals(pair@));
                assert(vals(sol@).to_multiset().len() == vals(sol@).len());
                assert(vals(pair@).to_multiset().len() == vals(pair@).len());
                assert(vals(sol@).len() == vals(pair@).len());
                assert(is_solution(p.values(), vals(sol@), p.target@));
            }
            return Trivial::Solved(sol);
        }
        proof {
            assert forall|a: int, b: int|
                #![trigger vs[a], vs[b]]
                0 <= a < i + 1 && 0 <= b < vs.len() && a != b implies vs[a] + vs[b] != t by {
                if a == i && vs[a] + vs[b] == t {
                    assert(vs[b] == c@);
                    assert(vs.contains(vs[b]));
                    if vs[b] == vs[a] {
                        lemma_pair_sub(vs, a, b);
                    }
                }
            }
        }
        i += 1;
    }
    proof {
        assert(!has_pair(vs, t));
    }
    let two = big_from_u128(2);
    let one = big_from_u128(1);
    if big_eq(&big_rem(target, &two), &one) {
        let mut all_even = true;
        let mut k: usize = 0;
        while k < p.numbers.len()
            invariant
                k <= p.numbers.len(),
                two@ == 2,
                zero@ == 0,
                vs == p.values(),
                !has_pair(vs, t) && !vs.contains(t),
                all_even ==> forall|j: int| 0 <= j < k ==> divides(2, #[trigger] vs[j]),
                !all_even ==> !divides_all(2, vs),
            ensures
                all_even ==> divides_all(2, vs),
                !all_even ==> !divides_all(2, vs),
            decreases p.numbers.len() - k,
        {
            assert(vs[k as int] == p.numbers@[k as int]@);
            if !big_eq(&big_rem(&p.numbers[k], &two), &zero) {
                all_even = false;
                assert(!divides(2, vs[k as int]));
                break;
            }
            k += 1;
        }
        if all_even {
            proof {
                lemma_reach_iff_solvable(p.values(), p.target@);
                if reach(p.values(), p.target@) {
                    lemma_reach_divides(p.values(), 2, p.target@);
                }
            }
            return Trivial::Impossible;
        }
    }
    let ghost dw: nat = if exists|d: nat| d > 1 && !divides(d, t) && #[trigger] divides_all(d, vs) {
        choose|d: nat| d > 1 && !divides(d, t) && #[trigger] divides_all(d, vs)
    } else {
        0
    };
    let mut g = p.numbers[0].copy();
    let mut k: usize = 1;
    proof {
        lemma_gcd_divides(p.values()[0], 0);
        assert(spec_gcd(p.values()[0], 0) == p.values()[0]);
    }
    while k < p.numbers.len()
        invariant
            1 <= k <= p.numbers.len(),
            one@ == 1,
            vs == p.values(),
            !has_pair(vs, t) && !vs.contains(t),
            forall|j: int| 0 <= j < k ==> divides(g@, #[trigger] p.values()[j]),
            dw > 1 && divides_all(dw, vs) ==> divides(dw, g@),
        ensures
            g@ == 1 || forall|j: int| 0 <= j < p.numbers.len() ==> divides(g@, #[trigger] p.values()[j]),
            dw > 1 && divides_all(dw, vs) ==> divides(dw, g@),
        decreases p.numbers.len() - k,
    {
        let ng = big_gcd(&g, &p.numbers[k]);
        proof {
            lemma_gcd_divides(g@, p.values()[k as int]);
            assert forall|j: int| 0 <= j < k + 1 implies divides(ng@, #[trigger] p.values()[j]) by {
                if j < k {
                    lemma_divides_trans(ng@, g@, p.values()[j]);
                }
            }
            if dw > 1 && divides_all(dw, vs) {
                assert(divides(dw, vs[k as int]));
                lemma_common_divides_gcd(dw, g@, p.values()[k as int]);
            }
        }
        g = ng;
        if big_eq(&g, &one) {
            break;
        }
        k += 1;
    }
    if !big_le(&g, &one) {
        if !big_eq(&big_rem(target, &g), &zero) {
            proof {
                lemma_reach_iff_solvable(p.values(), p.target@);
                if reach(p.values(), p.target@) {
                    lemma_reach_divides(p.values(), g@, p.target@);
                }
            }
            return Trivial::Impossible;
        }
    }
    proof {
        if dw > 1 && divides_all(dw, vs) {
            if g@ == 0 {
                assert forall|j: int| 0 <= j < vs.len() implies #[trigger] vs[j] == 0 by {
                    assert(divides(g@, p.values()[j]));
                }
                lemma_sum_all_zero(vs);
            } else if g@ == 1 {
                vstd::arithmetic::div_mod::lemma_small_mod(1, dw);
            } else {
                lemma_divides_trans(dw, g@, t);
            }
        }
    }
    let mut q: usize = 0;
    while q < 6
        invariant
            q <= 6,
            p.wf(),
            p.target@ > 0,
            p.target@ < p.total_sum@,
            p.min_val@ <= p.target@,
            target@ == p.target@,
            vs == p.values(),
            t == p.target@,
            !has_pair(vs, t) && !vs.contains(t),
            forall|q2: int| 0 <= q2 < q ==> mod_reach(vs, t as int, #[trigger] residue_primes()[q2] as int),
        decreases 6 - q,
    {
        let m = residue_prime(q);
        if !residue_reachable(&p.numbers, target, m) {
            return Trivial::Impossible;
        }
        q += 1;
    }
    proof {
        if t % 2 == 1 && divides_all(2, vs) {
            assert(dw > 1 && divides_all(dw, vs)) by {
                assert(2 > 1 && !divides(2, t) && divides_all(2, vs));
            }
        }
    }
    Trivial::Continue
}

} // verus!
