//! An open-addressing table from `u128` keys to `u64` values with linear
//! probing.  A key keeps the value it was first inserted with.
use vstd::prelude::*;

verus! {

/// The mixing function: the two 64-bit halves multiplied by odd
/// constants, combined with the high half of the low word.
pub open spec fn hash_spec(key: u128) -> u64 {
    let lo = key as u64;
    let hi = (key >> 64u128) as u64;
    lo.wrapping_mul(0x9E3779B97F4A7C15u64) ^ hi.wrapping_mul(0xBF58476D1CE4E5B9u64) ^ (lo >> 32u64)
}

/// Number of set flags.
pub open spec fn occ_count(s: Seq<bool>) -> nat
    decreases s.len(),
{
    if s.len() == 0 {
        0
    } else {
        occ_count(s.drop_last()) + if s.last() { 1nat } else { 0nat }
    }
}

proof fn lemma_occ_count_set(s: Seq<bool>, i: int)
    requires
        0 <= i < s.len(),
        !s[i],
    ensures
        occ_count(s.update(i, true)) == occ_count(s) + 1,
    decreases s.len(),
{
    if i < s.len() - 1 {
        assert(s.update(i, true).drop_last() =~= s.drop_last().update(i, true));
        lemma_occ_count_set(s.drop_last(), i);
    } else {
        assert(s.update(i, true).drop_last() =~= s.drop_last());
    }
}

proof fn lemma_occ_count_full(s: Seq<bool>)
    requires
        forall|i: int| 0 <= i < s.len() ==> s[i],
    ensures
        occ_count(s) == s.len(),
    decreases s.len(),
{
    if s.len() > 0 {
        lemma_occ_count_full(s.drop_last());
    }
}

proof fn lemma_occ_count_none(s: Seq<bool>)
    requires
        forall|i: int| 0 <= i < s.len() ==> !s[i],
    ensures
        occ_count(s) == 0,
    decreases s.len(),
{
    if s.len() > 0 {
        lemma_occ_count_none(s.drop_last());
    }
}

/// The slot `d` steps after `h` on a ring of `cap` slots.
pub open spec fn probe(h: int, d: int, cap: int) -> int {
    (h + d) % cap
}

proof fn lemma_probe_step(h: int, d: int, cap: int)
    requires
        cap > 1,
        0 <= h,
        0 <= d,
    ensures
        (probe(h, d, cap) + 1) % cap == probe(h, d + 1, cap),
        0 <= probe(h, d, cap) < cap,
{
    vstd::arithmetic::div_mod::lemma_add_mod_noop(h + d, 1, cap);
    vstd::arithmetic::div_mod::lemma_small_mod(1, cap as nat);
    vstd::arithmetic::div_mod::lemma_mod_twice(h + d, cap);
    vstd::arithmetic::div_mod::lemma_mod_bound(h + d, cap);
}

/// Every slot is `d < cap` steps after `h`.
proof fn lemma_probe_covers(h: int, j: int, cap: int)
    requires
        cap > 0,
        0 <= h < cap,
        0 <= j < cap,
    ensures
        0 <= (j - h + cap) % cap < cap,
        probe(h, (j - h + cap) % cap, cap) == j,
{
    let d = (j - h + cap) % cap;
    vstd::arithmetic::div_mod::lemma_mod_bound(j - h + cap, cap);
    if j >= h {
        vstd::arithmetic::div_mod::lemma_mod_add_multiples_vanish(j - h, cap);
        vstd::arithmetic::div_mod::lemma_small_mod((j - h) as nat, cap as nat);
        assert(d == j - h);
        vstd::arithmetic::div_mod::lemma_small_mod(j as nat, cap as nat);
    } else {
        vstd::arithmetic::div_mod::lemma_small_mod((j - h + cap) as nat, cap as nat);
        assert(d == j - h + cap);
        vstd::arithmetic::div_mod::lemma_mod_add_multiples_vanish(j, cap);
        vstd::arithmetic::div_mod::lemma_small_mod(j as nat, cap as nat);
    }
}

/// Distinct steps below `cap` reach distinct slots.
proof fn lemma_probe_injective(h: int, d1: int, d2: int, cap: int)
    requires
        cap > 0,
        0 <= h < cap,
        0 <= d1 < cap,
        0 <= d2 < cap,
        probe(h, d1, cap) == probe(h, d2, cap),
    ensures
        d1 == d2,
{
    lemma_probe_value(h, d1, cap);
    lemma_probe_value(h, d2, cap);
}

proof fn lemma_probe_value(h: int, d: int, cap: int)
    requires
        cap > 0,
        0 <= h < cap,
        0 <= d < cap,
    ensures
        probe(h, d, cap) == if h + d < cap { h + d } else { h + d - cap },
{
    if h + d < cap {
        vstd::arithmetic::div_mod::lemma_small_mod((h + d) as nat, cap as nat);
    } else {
        vstd::arithmetic::div_mod::lemma_mod_add_multiples_vanish(h + d - cap, cap);
        vstd::arithmetic::div_mod::lemma_small_mod((h + d - cap) as nat, cap as nat);
    }
}

/// `c` is a power of two.
pub open spec fn is_pow2(c: nat) -> bool
    decreases c,
{
    if c <= 1 {
        c == 1
    } else {
        c % 2 == 0 && is_pow2(c / 2)
    }
}

/// Doubling a power of two gives a power of two.
pub proof fn lemma_pow2_double(c: nat)
    requires
        is_pow2(c),
    ensures
        is_pow2(2 * c),
{
    assert((2 * c) / 2 == c);
}

/// The table.
pub struct FastHash {
    keys: Vec<u128>,
    vals: Vec<u64>,
    occupied: Vec<bool>,
    size: usize,
    capacity: usize,
    contents: Ghost<Map<u128, u64>>,
}

impl View for FastHash {
    type V = Map<u128, u64>;

    closed spec fn view(&self) -> Map<u128, u64> {
        self.contents@
    }
}

/// The map after inserting `k -> v`: a key already present keeps its value.
pub open spec fn inserted(m: Map<u128, u64>, k: u128, v: u64) -> Map<u128, u64> {
    if m.contains_key(k) { m } else { m.insert(k, v) }
}

/// What a lookup of `k` gives.
pub open spec fn lookup(m: Map<u128, u64>, k: u128) -> Option<u64> {
    if m.contains_key(k) { Some(m[k]) } else { None }
}

/// A read after a write: the written key reads back its first value (the
/// one just written when it was new), and every other key reads as before.
pub proof fn law_read_after_write(m: Map<u128, u64>, k: u128, v: u64, j: u128)
    ensures
        lookup(inserted(m, k, v), k) == Some(if m.contains_key(k) { m[k] } else { v }),
        j != k ==> lookup(inserted(m, k, v), j) == lookup(m, j),
{
}

/// The table after inserting the pairs `kvs` in order into `m`.
pub open spec fn inserted_all(m: Map<u128, u64>, kvs: Seq<(u128, u64)>) -> Map<u128, u64>
    decreases kvs.len(),
{
    if kvs.len() == 0 {
        m
    } else {
        inserted(inserted_all(m, kvs.drop_last()), kvs.last().0, kvs.last().1)
    }
}

/// The first position of key `k` in `kvs`, if any.
pub open spec fn first_pos(kvs: Seq<(u128, u64)>, k: u128) -> Option<int>
    decreases kvs.len(),
{
    if kvs.len() == 0 {
        None
    } else {
        match first_pos(kvs.drop_last(), k) {
            Some(j) => Some(j),
            None => if kvs.last().0 == k { Some(kvs.len() - 1) } else { None },
        }
    }
}

/// [`first_pos`] finds the first occurrence.
pub proof fn lemma_first_pos(kvs: Seq<(u128, u64)>, k: u128)
    ensures
        (match first_pos(kvs, k) {
            Some(j) => 0 <= j < kvs.len() && kvs[j].0 == k && forall|i: int| 0 <= i < j ==> (#[trigger] kvs[i]).0 != k,
            None => forall|i: int| 0 <= i < kvs.len() ==> (#[trigger] kvs[i]).0 != k,
        }),
    decreases kvs.len(),
{
    if kvs.len() > 0 {
        let init = kvs.drop_last();
        lemma_first_pos(init, k);
        assert forall|i: int| 0 <= i < init.len() implies #[trigger] kvs[i] == init[i] by {}
    }
}

/// The keys of `kvs`.
pub open spec fn keys_of(kvs: Seq<(u128, u64)>) -> Set<u128> {
    kvs.map_values(|p: (u128, u64)| p.0).to_set()
}

/// Inserting a sequence into an empty table: a key reads the value of its
/// first insertion, or nothing if it was never inserted; the table holds
/// exactly the keys inserted, so its size counts the distinct keys.
pub proof fn law_insert_sequence(kvs: Seq<(u128, u64)>, k: u128)
    ensures
        lookup(inserted_all(Map::empty(), kvs), k) == (match first_pos(kvs, k) {
            Some(j) => Some(kvs[j].1),
            None => None,
        }),
        inserted_all(Map::empty(), kvs).dom() == keys_of(kvs),
        inserted_all(Map::empty(), kvs).len() == keys_of(kvs).len(),
    decreases kvs.len(),
{
    if kvs.len() > 0 {
        let init = kvs.drop_last();
        law_insert_sequence(init, k);
        lemma_first_pos(init, k);
        match first_pos(init, k) {
            Some(j) => {
                assert(kvs[j] == init[j]);
            },
            None => {},
        }
        assert forall|x: u128| keys_of(kvs).contains(x) == (keys_of(init).contains(x) || x == kvs.last().0) by {
            let ks = kvs.map_values(|p: (u128, u64)| p.0);
            let ki = init.map_values(|p: (u128, u64)| p.0);
            assert(ks =~= ki.push(kvs.last().0));
            if ks.contains(x) {
                let i = choose|i: int| 0 <= i < ks.len() && ks[i] == x;
                if i < ki.len() {
                    assert(ki[i] == x);
                }
            }
            if ki.contains(x) {
                let i = choose|i: int| 0 <= i < ki.len() && ki[i] == x;
                assert(ks[i] == x);
            }
            if x == kvs.last().0 {
                assert(ks[ks.len() - 1] == x);
            }
        }
        assert(inserted_all(Map::empty(), kvs).dom() =~= keys_of(kvs));
    } else {
        assert(keys_of(kvs) =~= Set::<u128>::empty());
        assert(inserted_all(Map::empty(), kvs).dom() =~= Set::<u128>::empty());
    }
}

impl FastHash {
    /// The home slot of `key`.
    pub closed spec fn home(&self, key: u128) -> int {
        (hash_spec(key) as int) % (self.capacity as int)
    }

    /// The slots, the contents and the probe chains agree.
    #[verifier::opaque]
    pub closed spec fn wf(&self) -> bool {
        &&& self.keys.len() == self.capacity
        &&& self.vals.len() == self.capacity
        &&& self.occupied.len() == self.capacity
        &&& self.capacity >= 16
        &&& self.capacity % 2 == 0
        &&& self.size * 2 <= self.capacity
        &&& self.contents@.dom().finite()
        &&& self.size == self.contents@.dom().len()
        &&& self.size == occ_count(self.occupied@)
        &&& forall|i: int|
            0 <= i < self.capacity && #[trigger] self.occupied@[i] ==> self.contents@.contains_key(self.keys@[i])
                && self.contents@[self.keys@[i]] == self.vals@[i]
        &&& forall|k: u128|
            #[trigger] self.contents@.contains_key(k) ==> exists|i: int|
                0 <= i < self.capacity && self.occupied@[i] && #[trigger] self.keys@[i] == k
        &&& forall|i: int, j: int|
            0 <= i < self.capacity && 0 <= j < self.capacity && #[trigger] self.occupied@[i] && #[trigger] self.occupied@[j]
                && self.keys@[i] == self.keys@[j] ==> i == j
        &&& forall|i: int, d: int|
            0 <= i < self.capacity && #[trigger] self.occupied@[i] && 0 <= d < (i - self.home(self.keys@[i])
                + self.capacity) % (self.capacity as int) ==> #[trigger] self.occupied@[probe(
                self.home(self.keys@[i]),
                d,
                self.capacity as int,
            )]
    }

    /// An empty table of `cap` slots.
    fn empty_table(cap: usize) -> (r: FastHash)
        requires
            16 <= cap,
            cap % 2 == 0,
        ensures
            r.wf(),
            r@ == Map::<u128, u64>::empty(),
            r.capacity == cap,
    {
        let r = FastHash {
            keys: vec![0u128; cap],
            vals: vec![0u64; cap],
            occupied: vec![false; cap],
            size: 0,
            capacity: cap,
            contents: Ghost(Map::empty()),
        };
        proof {
            lemma_occ_count_none(r.occupied@);
            reveal(FastHash::wf);
        }
        r
    }

    /// The number of slots.
    pub closed spec fn slots(&self) -> nat {
        self.capacity as nat
    }

    /// An empty table with room for about `cap / 2` keys: `max(cap, 16)`
    /// rounded up to a power of two slots.
    pub fn with_capacity(cap: usize) -> (r: FastHash)
        requires
            cap <= usize::MAX / 2 + 1,
        ensures
            r.wf(),
            r@ == Map::<u128, u64>::empty(),
            is_pow2(r.slots()),
            r.slots() >= 16,
            r.slots() >= cap,
            r.slots() > 16 ==> r.slots() / 2 < cap,
    {
        let mut c: usize = 16;
        proof {
            reveal_with_fuel(is_pow2, 6);
        }
        while c < cap
            invariant
                16 <= c,
                c % 2 == 0,
                cap <= usize::MAX / 2 + 1,
                is_pow2(c as nat),
                c > 16 ==> c / 2 < cap,
            decreases usize::MAX - c,
        {
            proof {
                assert((2 * c) as nat / 2 == c as nat);
            }
            c = c * 2;
        }
        Self::empty_table(c)
    }

    /// The mixing function.
    fn hash(key: u128) -> (h: u64)
        ensures
            h == hash_spec(key),
    {
        let lo = key as u64;
        let hi = (key >> 64u128) as u64;
        lo.wrapping_mul(0x9E3779B97F4A7C15u64) ^ hi.wrapping_mul(0xBF58476D1CE4E5B9u64) ^ (lo >> 32u64)
    }

    /// `key` is not stored when its probe chain from the home slot holds
    /// other keys for `steps` slots and then a free slot (or wraps around).
    proof fn lemma_absent(&self, key: u128, hh: int, cap: int, steps: int)
        requires
            self.wf(),
            hh == self.home(key),
            cap == self.capacity,
            0 <= steps <= cap,
            forall|d: int|
                0 <= d < steps ==> #[trigger] self.occupied@[probe(hh, d, cap)] && self.keys@[probe(hh, d, cap)] != key,
            steps == cap || !self.occupied@[probe(hh, steps, cap)],
        ensures
            !self@.contains_key(key),
    {
        reveal(FastHash::wf);
        vstd::arithmetic::div_mod::lemma_mod_bound(hash_spec(key) as int, cap);
        if self@.contains_key(key) {
            let i = choose|i: int| 0 <= i < self.capacity && self.occupied@[i] && #[trigger] self.keys@[i] == key;
            let di = (i - hh + cap) % cap;
            lemma_probe_covers(hh, i, cap);
            if di < steps {
                assert(self.keys@[probe(hh, di, cap)] != key);
            } else if di > steps {
                assert(self.occupied@[probe(hh, steps, cap)]);
            }
        }
    }

    /// What `wf` says of one occupied slot.
    proof fn lemma_slot(&self, i: int)
        requires
            self.wf(),
            0 <= i < self.capacity,
            self.occupied@[i],
        ensures
            self@.contains_key(self.keys@[i]),
            self@[self.keys@[i]] == self.vals@[i],
    {
        reveal(FastHash::wf);
    }

    /// A well-formed table has at least 16 slots and at most half of
    /// them hold keys, so every probe chain reaches a free slot.
    pub proof fn lemma_room(&self)
        requires
            self.wf(),
        ensures
            self.slots() >= 16,
            self@.len() * 2 <= self.slots(),
    {
        reveal(FastHash::wf);
    }

    /// The keys form a finite set.
    pub proof fn lemma_finite(&self)
        requires
            self.wf(),
        ensures
            self@.dom().finite(),
    {
        reveal(FastHash::wf);
    }

    /// The sizes `wf` fixes.
    proof fn lemma_shape(&self)
        requires
            self.wf(),
        ensures
            self.keys.len() == self.capacity,
            self.vals.len() == self.capacity,
            self.occupied.len() == self.capacity,
            self.capacity >= 16,
            self.capacity % 2 == 0,
            self.size * 2 <= self.capacity,
            self.size == self@.len(),
            self.size == occ_count(self.occupied@),
    {
        reveal(FastHash::wf);
    }

    /// Filling the free slot `idx`, `steps` after the home slot of a key
    /// not stored, keeps the table well formed and adds the key.
    proof fn lemma_fill(old_t: &FastHash, t: &FastHash, key: u128, val: u64, idx: int, steps: int)
        requires
            old_t.wf(),
            old_t.size * 2 < old_t.capacity,
            !old_t@.contains_key(key),
            0 <= steps < old_t.capacity,
            idx == probe(old_t.home(key), steps, old_t.capacity as int),
            !old_t.occupied@[idx],
            forall|d: int|
                0 <= d < steps ==> #[trigger] old_t.occupied@[probe(old_t.home(key), d, old_t.capacity as int)],
            t.capacity == old_t.capacity,
            t.keys@ == old_t.keys@.update(idx, key),
            t.vals@ == old_t.vals@.update(idx, val),
            t.occupied@ == old_t.occupied@.update(idx, true),
            t.size == old_t.size + 1,
            t.contents@ == old_t.contents@.insert(key, val),
        ensures
            t.wf(),
    {
        reveal(FastHash::wf);
        let c = t.capacity as int;
        let hh = old_t.home(key);
        let old_occ = old_t.occupied@;
        let old_keys = old_t.keys@;
        vstd::arithmetic::div_mod::lemma_mod_bound(hash_spec(key) as int, c);
        lemma_probe_step(hh, steps, c);
        lemma_occ_count_set(old_occ, idx);
        assert forall|i: int, d: int|
            0 <= i < c && #[trigger] t.occupied@[i] && 0 <= d < (i - t.home(t.keys@[i]) + c) % c
                implies #[trigger] t.occupied@[probe(t.home(t.keys@[i]), d, c)] by {
            if i == idx {
                lemma_probe_covers(hh, i, c);
                lemma_probe_injective(hh, (i - hh + c) % c, steps, c);
                assert(old_occ[probe(hh, d, c)]);
            } else {
                assert(old_occ[i]);
                assert(old_occ[probe(old_t.home(old_keys[i]), d, c)]);
            }
        }
        assert forall|k: u128| #[trigger] t.contents@.contains_key(k) implies exists|i: int|
            0 <= i < t.capacity && t.occupied@[i] && #[trigger] t.keys@[i] == k by {
            if k == key {
                assert(t.keys@[idx] == k);
            } else {
                let i = choose|i: int| 0 <= i < old_t.capacity && old_occ[i] && #[trigger] old_keys[i] == k;
                assert(t.keys@[i] == k);
            }
        }
        assert forall|i: int, j: int|
            0 <= i < t.capacity && 0 <= j < t.capacity && #[trigger] t.occupied@[i] && #[trigger] t.occupied@[j]
                && t.keys@[i] == t.keys@[j] implies i == j by {
            if i == idx && j != idx {
                assert(old_occ[j]);
            } else if j == idx && i != idx {
                assert(old_occ[i]);
            }
        }
        assert forall|i: int| 0 <= i < c && #[trigger] t.occupied@[i] implies t.contents@.contains_key(t.keys@[i])
            && t.contents@[t.keys@[i]] == t.vals@[i] by {
            if i != idx {
                assert(old_occ[i]);
            }
        }
    }

    /// Puts `key` in the first free slot of its probe chain unless it is
    /// already there.
    fn place(&mut self, key: u128, val: u64)
        requires
            old(self).wf(),
            old(self).size * 2 < old(self).capacity,
        ensures
            final(self).wf(),
            final(self).capacity == old(self).capacity,
            final(self)@ == inserted(old(self)@, key, val),
    {
        proof {
            self.lemma_shape();
        }
        let cap = self.capacity;
        let h = (Self::hash(key) % (cap as u64)) as usize;
        let ghost hh = h as int;
        assert(hh == self.home(key));
        proof {
            vstd::arithmetic::div_mod::lemma_small_mod(hh as nat, cap as nat);
        }
        let mut idx = h;
        let mut steps: usize = 0;
        while steps < cap
            invariant
                self.wf(),
                self.capacity == cap,
                self.keys.len() == cap && self.vals.len() == cap && self.occupied.len() == cap,
                cap >= 16,
                self.size * 2 < cap,
                *self == *old(self),
                hh == self.home(key),
                0 <= hh < cap,
                steps <= cap,
                idx as int == probe(hh, steps as int, cap as int),
                forall|d: int|
                    0 <= d < steps ==> #[trigger] self.occupied@[probe(hh, d, cap as int)] && self.keys@[probe(
                        hh,
                        d,
                        cap as int,
                    )] != key,
            decreases cap - steps,
        {
            proof {
                lemma_probe_step(hh, steps as int, cap as int);
            }
            if !self.occupied[idx] {
                proof {
                    self.lemma_absent(key, hh, cap as int, steps as int);
                }
                let ghost before = *self;
                self.keys.set(idx, key);
                self.vals.set(idx, val);
                self.occupied.set(idx, true);
                self.size = self.size + 1;
                self.contents = Ghost(self.contents@.insert(key, val));
                proof {
                    FastHash::lemma_fill(&before, self, key, val, idx as int, steps as int);
                }
                return;
            }
            if self.keys[idx] == key {
                proof {
                    self.lemma_slot(idx as int);
                }
                return;
            }
            proof {
                assert(self.occupied@[probe(hh, steps as int, cap as int)]);
                assert(self.keys@[probe(hh, steps as int, cap as int)] != key);
                assert forall|d: int| 0 <= d < steps + 1 implies #[trigger] self.occupied@[probe(hh, d, cap as int)]
                    && self.keys@[probe(hh, d, cap as int)] != key by {
                    if d < steps {
                        assert(self.occupied@[probe(hh, d, cap as int)]);
                    }
                }
            }
            idx = (idx + 1) % cap;
            steps += 1;
        }
        proof {
            self.lemma_absent(key, hh, cap as int, cap as int);
            assert forall|j: int| 0 <= j < cap implies self.occupied@[j] by {
                lemma_probe_covers(hh, j, cap as int);
                let d = (j - hh + cap) % (cap as int);
                assert(self.occupied@[probe(hh, d, cap as int)]);
            }
            lemma_occ_count_full(self.occupied@);
        }
    }

    /// Inserts `key` with `val` unless the key is already present (it then
    /// keeps its first value); the table doubles when half full.
    pub fn insert(&mut self, key: u128, val: u64)
        requires
            old(self).wf(),
            old(self)@.len() < usize::MAX / 4,
        ensures
            final(self).wf(),
            final(self)@ == inserted(old(self)@, key, val),
            final(self).slots() == old(self).slots() || final(self).slots() == 2 * old(self).slots(),
    {
        proof {
            self.lemma_shape();
        }
        if self.size * 2 >= self.capacity {
            self.resize();
        }
        self.place(key, val);
    }

    /// The value of `key`, if present.
    pub fn get(&self, key: u128) -> (r: Option<u64>)
        requires
            self.wf(),
        ensures
            r == lookup(self@, key),
    {
        proof {
            self.lemma_shape();
        }
        let cap = self.capacity;
        let h = (Self::hash(key) % (cap as u64)) as usize;
        let ghost hh = h as int;
        proof {
            vstd::arithmetic::div_mod::lemma_small_mod(hh as nat, cap as nat);
        }
        let mut idx = h;
        let mut steps: usize = 0;
        loop
            invariant
                self.wf(),
                cap == self.capacity,
                self.keys.len() == cap && self.vals.len() == cap && self.occupied.len() == cap,
                cap >= 16,
                hh == self.home(key),
                0 <= hh < cap,
                steps < cap,
                idx as int == probe(hh, steps as int, cap as int),
                forall|d: int|
                    0 <= d < steps ==> #[trigger] self.occupied@[probe(hh, d, cap as int)] && self.keys@[probe(
                        hh,
                        d,
                        cap as int,
                    )] != key,
            decreases cap - steps,
        {
            proof {
                lemma_probe_step(hh, steps as int, cap as int);
            }
            if !self.occupied[idx] {
                proof {
                    self.lemma_absent(key, hh, cap as int, steps as int);
                }
                return None;
            }
            if self.keys[idx] == key {
                proof {
                    self.lemma_slot(idx as int);
                }
                return Some(self.vals[idx]);
            }
            proof {
                assert(self.occupied@[probe(hh, steps as int, cap as int)]);
                assert(self.keys@[probe(hh, steps as int, cap as int)] != key);
                assert forall|d: int| 0 <= d < steps + 1 implies #[trigger] self.occupied@[probe(hh, d, cap as int)]
                    && self.keys@[probe(hh, d, cap as int)] != key by {
                    if d < steps {
                        assert(self.occupied@[probe(hh, d, cap as int)]);
                    }
                }
            }
            idx = (idx + 1) % cap;
            steps += 1;
            if steps >= cap {
                proof {
                    self.lemma_absent(key, hh, cap as int, cap as int);
                }
                return None;
            }
        }
    }

    /// The number of keys.
    pub fn len(&self) -> (r: usize)
        requires
            self.wf(),
        ensures
            r == self@.len(),
    {
        proof {
            self.lemma_shape();
        }
        self.size
    }

    /// Whether there is no key.
    pub fn is_empty(&self) -> (r: bool)
        requires
            self.wf(),
        ensures
            r == (self@.len() == 0),
    {
        proof {
            self.lemma_shape();
        }
        self.size == 0
    }

    /// Moves every entry into a table of twice the slots.
    fn resize(&mut self)
        requires
            old(self).wf(),
            old(self).size * 2 >= old(self).capacity,
            old(self)@.len() < usize::MAX / 4,
        ensures
            final(self).wf(),
            final(self)@ == old(self)@,
            final(self).size * 2 < final(self).capacity,
            final(self).capacity == 2 * old(self).capacity,
    {
        proof {
            self.lemma_shape();
        }
        let new_cap = self.capacity * 2;
        let mut t = FastHash {
            keys: vec![0u128; new_cap],
            vals: vec![0u64; new_cap],
            occupied: vec![false; new_cap],
            size: 0,
            capacity: new_cap,
            contents: Ghost(Map::empty()),
        };
        proof {
            lemma_occ_count_none(t.occupied@);
            reveal(FastHash::wf);
        }
        let mut i: usize = 0;
        while i < self.capacity
            invariant
                self.wf(),
                self.keys.len() == self.capacity && self.vals.len() == self.capacity && self.occupied.len()
                    == self.capacity,
                self.size == self@.len(),
                self@.len() < usize::MAX / 4,
                t.wf(),
                t.capacity == new_cap,
                new_cap == self.capacity * 2,
                self.size * 2 >= self.capacity,
                i <= self.capacity,
                t.size == t@.len(),
                forall|k: u128| #[trigger] t@.contains_key(k) ==> self@.contains_key(k) && t@[k] == self@[k],
                forall|k: u128|
                    #[trigger] t@.contains_key(k) ==> exists|j: int| 0 <= j < i && self.occupied@[j] && #[trigger] self.keys@[j] == k,
                forall|j: int| 0 <= j < i && #[trigger] self.occupied@[j] ==> t@.contains_key(self.keys@[j]),
            decreases self.capacity - i,
        {
            if self.occupied[i] {
                proof {
                    self.lemma_slot(i as int);
                    reveal(FastHash::wf);
                    let k0 = self.keys@[i as int];
                    if t@.contains_key(k0) {
                        let j = choose|j: int| 0 <= j < i && self.occupied@[j] && #[trigger] self.keys@[j] == k0;
                        assert(false);
                    }
                    assert(t@.dom().subset_of(self@.dom()));
                    vstd::set_lib::lemma_len_subset(t@.dom().insert(k0), self@.dom());
                }
                t.place(self.keys[i], self.vals[i]);
                proof {
                    t.lemma_shape();
                }
            }
            i += 1;
        }
        proof {
            reveal(FastHash::wf);
            assert(t@.dom() =~= self@.dom()) by {
                assert forall|k: u128| self@.contains_key(k) implies t@.contains_key(k) by {
                    let j = choose|j: int| 0 <= j < self.capacity && self.occupied@[j] && #[trigger] self.keys@[j] == k;
                }
            }
            assert(t@ =~= self@);
        }
        *self = t;
    }
}

} // verus!
