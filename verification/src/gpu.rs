//! What the solver knows of a GPU, and the rules applied to it.  Probing
//! the tools and the cache file is done by the caller.
use vstd::prelude::*;
use crate::input::{std_parse_uint, find_from, find_char, chars_range, parse_u32, parse_u64, trim, trim_start, is_ws, trim_chars, all_digits, decimal_value};

verus! {

/// A detected GPU.
pub struct GpuInfo {
    /// Compute units (0: no GPU).
    pub compute_units: u32,
    /// Human-readable name.
    pub name: String,
    /// `cuda`, `rocm`, `opencl` or `none`.
    pub backend: String,
    /// Memory in bytes (0: unknown).
    pub memory_bytes: u64,
}

impl Default for GpuInfo {
    fn default() -> (r: GpuInfo)
        ensures
            r.compute_units == 0,
            r.memory_bytes == 0,
            r.name@ == Seq::<char>::empty(),
            r.backend@ == Seq::<char>::empty(),
    {
        GpuInfo { compute_units: 0, name: String::new(), backend: String::new(), memory_bytes: 0 }
    }
}

/// The number of parallel work slots: the CPU cores (GPU kernels are not
/// used for the search).
pub fn optimal_partition_count(cpu_cores: usize) -> (r: usize)
    ensures
        r == cpu_cores,
{
    cpu_cores
}

/// The compute units of a detected GPU (0 when there is none).
pub fn gpu_compute_units(info: &GpuInfo) -> (r: u32)
    ensures
        r == info.compute_units,
{
    info.compute_units
}

/// The compute units estimated from an NVIDIA card's memory in MiB.
pub fn compute_units_for_memory(mem_mib: u64) -> (r: u32)
    ensures
        r == (if mem_mib >= 24000 {
            16384u32
        } else if mem_mib >= 12000 {
            9728u32
        } else if mem_mib >= 8000 {
            6144u32
        } else if mem_mib >= 4000 {
            3584u32
        } else {
            1024u32
        }),
{
    if mem_mib >= 24000 {
        16384
    } else if mem_mib >= 12000 {
        9728
    } else if mem_mib >= 8000 {
        6144
    } else if mem_mib >= 4000 {
        3584
    } else {
        1024
    }
}

/// Memory in bytes from MiB, when it fits.
pub fn memory_bytes_from_mib(mem_mib: u64) -> (r: Option<u64>)
    ensures
        r matches Some(b) ==> b == mem_mib * 1024 * 1024,
        r is None ==> mem_mib * 1024 * 1024 > u64::MAX,
{
    match mem_mib.checked_mul(1024 * 1024) {
        Some(b) => Some(b),
        None => None,
    }
}

/// The four fields of a cache line `backend|units|bytes|name`: split at
/// the first three `|` (the name may hold more).
pub open spec fn cache_fields(s: Seq<char>) -> Option<(Seq<char>, Seq<char>, Seq<char>, Seq<char>)> {
    let a = find_from(s, '|', 0);
    let b = find_from(s, '|', a + 1);
    let c = find_from(s, '|', b + 1);
    if a < 0 || b < 0 || c < 0 {
        None
    } else {
        Some((s.subrange(0, a), s.subrange(a + 1, b), s.subrange(b + 1, c), s.subrange(c + 1, s.len() as int)))
    }
}

/// A cache line read back: backend, compute units, memory bytes and name,
/// when the two numbers read as `u32` and `u64`.
pub open spec fn cache_entry(s: Seq<char>) -> Option<(Seq<char>, nat, nat, Seq<char>)> {
    match cache_fields(s) {
        None => None,
        Some((b, u, m, n)) => match (std_parse_uint(u), std_parse_uint(m)) {
            (Some(units), Some(bytes)) => if units <= u32::MAX && bytes <= u64::MAX {
                Some((b, units, bytes, n))
            } else {
                None
            },
            _ => None,
        },
    }
}

/// The ASCII digit for `d < 10`.
pub open spec fn digit_char(d: nat) -> char {
    (d + 48) as char
}

/// The decimal digits of `x`, without leading zeros ("0" for zero).
pub open spec fn dec_digits(x: nat) -> Seq<char>
    decreases x,
{
    if x < 10 {
        seq![digit_char(x)]
    } else {
        dec_digits(x / 10).push(digit_char(x % 10))
    }
}

/// The decimal digits of `x` are digits and read back as `x`.
pub proof fn lemma_dec_digits(x: nat)
    ensures
        dec_digits(x).len() > 0,
        all_digits(dec_digits(x)),
        decimal_value(dec_digits(x)) == x,
        !dec_digits(x).contains('|'),
        dec_digits(x)[0] != '+',
    decreases x,
{
    let d = digit_char(x % 10);
    assert(d as int == x % 10 + 48);
    if x < 10 {
        let t = seq![digit_char(x)];
        assert(t.drop_last() =~= Seq::<char>::empty());
        assert(x % 10 == x);
        assert(decimal_value(t) == decimal_value(t.drop_last()) * 10 + ((t.last() as int - '0' as int) as nat));
    } else {
        lemma_dec_digits(x / 10);
        let t = dec_digits(x);
        assert(t.drop_last() =~= dec_digits(x / 10));
        assert(t.last() == d);
        assert(decimal_value(t) == decimal_value(t.drop_last()) * 10 + ((t.last() as int - '0' as int) as nat));
        assert(x == (x / 10) * 10 + x % 10);
        assert(t[0] == dec_digits(x / 10)[0]);
        assert forall|i: int| 0 <= i < t.len() implies '0' <= #[trigger] t[i] && t[i] <= '9' by {
            if i < t.len() - 1 {
                assert(t[i] == dec_digits(x / 10)[i]);
            }
        }
        if t.contains('|') {
            let i = choose|i: int| 0 <= i < t.len() && t[i] == '|';
            if i < t.len() - 1 {
                assert(dec_digits(x / 10)[i] == '|');
            }
        }
    }
}

/// The cache line `backend|units|bytes|name`.
pub open spec fn cache_line_spec(backend: Seq<char>, units: nat, bytes: nat, name: Seq<char>) -> Seq<char> {
    backend + seq!['|'] + dec_digits(units) + seq!['|'] + dec_digits(bytes) + seq!['|'] + name
}

/// Appends the decimal digits of `x`.
fn push_decimal(v: &mut Vec<char>, x: u64)
    ensures
        final(v)@ == old(v)@ + dec_digits(x as nat),
    decreases x,
{
    if x >= 10 {
        push_decimal(v, x / 10);
    }
    let d: u8 = (x % 10) as u8;
    v.push((d + 48u8) as char);
    proof {
        assert(((d + 48u8) as char) == digit_char((x % 10) as nat));
        if x >= 10 {
            assert(dec_digits(x as nat) == dec_digits((x / 10) as nat).push(digit_char((x % 10) as nat)));
        }
    }
}

/// Appends the characters of `t`.
fn push_all(v: &mut Vec<char>, t: &Vec<char>)
    ensures
        final(v)@ == old(v)@ + t@,
{
    let ghost start = v@;
    let mut i: usize = 0;
    while i < t.len()
        invariant
            i <= t.len(),
            v@ == start + t@.take(i as int),
        decreases t.len() - i,
    {
        v.push(t[i]);
        proof {
            assert(t@.take(i + 1) =~= t@.take(i as int).push(t@[i as int]));
        }
        i += 1;
    }
    proof {
        assert(t@.take(t.len() as int) =~= t@);
    }
}

/// Writes the cache line `backend|units|bytes|name` that
/// [`parse_cache_line`] reads.
pub fn cache_line(backend: &Vec<char>, units: u32, bytes: u64, name: &Vec<char>) -> (r: Vec<char>)
    ensures
        r@ == cache_line_spec(backend@, units as nat, bytes as nat, name@),
{
    let mut v: Vec<char> = Vec::new();
    push_all(&mut v, backend);
    v.push('|');
    push_decimal(&mut v, units as u64);
    v.push('|');
    push_decimal(&mut v, bytes);
    v.push('|');
    push_all(&mut v, name);
    proof {
        assert(v@ =~= cache_line_spec(backend@, units as nat, bytes as nat, name@));
    }
    v
}

/// The first `c` at or after `from` is at `k` when none lies between.
proof fn lemma_find_at(s: Seq<char>, c: char, from: int, k: int)
    requires
        0 <= from <= k < s.len(),
        s[k] == c,
        forall|i: int| from <= i < k ==> s[i] != c,
    ensures
        find_from(s, c, from) == k,
    decreases k - from,
{
    if from < k {
        lemma_find_at(s, c, from + 1, k);
    }
}

/// A written cache line reads back as what was written, whenever the
/// backend holds no `|` (the name may hold any characters).
pub proof fn lemma_cache_round_trip(backend: Seq<char>, units: u32, bytes: u64, name: Seq<char>)
    requires
        !backend.contains('|'),
    ensures
        cache_entry(cache_line_spec(backend, units as nat, bytes as nat, name)) == Some(
            (backend, units as nat, bytes as nat, name),
        ),
{
    let du = dec_digits(units as nat);
    let dm = dec_digits(bytes as nat);
    lemma_dec_digits(units as nat);
    lemma_dec_digits(bytes as nat);
    let s = cache_line_spec(backend, units as nat, bytes as nat, name);
    let a = backend.len() as int;
    let b = a + 1 + du.len();
    let c = b + 1 + dm.len();
    assert(s.len() == c + 1 + name.len());
    assert forall|i: int| 0 <= i < a implies s[i] != '|' by {
        assert(s[i] == backend[i]);
    }
    assert(s[a] == '|');
    lemma_find_at(s, '|', 0, a);
    assert forall|i: int| a + 1 <= i < b implies s[i] != '|' by {
        assert(s[i] == du[i - a - 1]);
    }
    assert(s[b] == '|');
    lemma_find_at(s, '|', a + 1, b);
    assert forall|i: int| b + 1 <= i < c implies s[i] != '|' by {
        assert(s[i] == dm[i - b - 1]);
    }
    assert(s[c] == '|');
    lemma_find_at(s, '|', b + 1, c);
    assert(s.subrange(0, a) =~= backend);
    assert(s.subrange(a + 1, b) =~= du);
    assert(s.subrange(b + 1, c) =~= dm);
    assert(s.subrange(c + 1, s.len() as int) =~= name);
    assert(std_parse_uint(du) == Some(units as nat));
    assert(std_parse_uint(dm) == Some(bytes as nat));
}

/// Reads a cache line ([`cache_entry`]).
pub fn parse_cache_line(s: &Vec<char>) -> (r: Option<(Vec<char>, u32, u64, Vec<char>)>)
    ensures
        match cache_entry(s@) {
            None => r is None,
            Some((b, u, m, n)) => r matches Some((rb, ru, rm, rn)) && rb@ == b && ru == u && rm == m && rn@ == n,
        },
{
    let a = match find_char(s, '|', 0) {
        Some(a) => a,
        None => {
            return None;
        },
    };
    let b = match find_char(s, '|', a + 1) {
        Some(b) => b,
        None => {
            return None;
        },
    };
    let c = match find_char(s, '|', b + 1) {
        Some(c) => c,
        None => {
            return None;
        },
    };
    proof {
        assert(find_from(s@, '|', 0) == a);
    }
    let backend = chars_range(s, 0, a);
    let units_text = chars_range(s, a + 1, b);
    let bytes_text = chars_range(s, b + 1, c);
    let name = chars_range(s, c + 1, s.len());
    let units = match parse_u32(&units_text) {
        Some(u) => u,
        None => {
            return None;
        },
    };
    let bytes = match parse_u64(&bytes_text) {
        Some(m) => m,
        None => {
            return None;
        },
    };
    Some((backend, units, bytes, name))
}

/// The first line of `s` (without its line ending), or nothing for an
/// empty text, as `str::lines` gives it.
pub open spec fn first_line(s: Seq<char>) -> Option<Seq<char>> {
    if s.len() == 0 {
        None
    } else {
        let i = find_from(s, '\n', 0);
        if i < 0 {
            Some(s)
        } else {
            let l = s.subrange(0, i);
            Some(if l.len() > 0 && l.last() == '\r' { l.drop_last() } else { l })
        }
    }
}

/// The first white-space-separated word of `t`, if any.
pub open spec fn first_word(t: Seq<char>) -> Option<Seq<char>> {
    let u = trim_start(t);
    if u.len() == 0 {
        None
    } else {
        Some(u.take(first_ws(u, 0)))
    }
}

/// The first white-space position at or after `from`, or the length.
pub open spec fn first_ws(s: Seq<char>, from: int) -> int
    decreases s.len() - from,
{
    if from < 0 || from >= s.len() {
        s.len() as int
    } else if is_ws(s[from]) {
        from
    } else {
        first_ws(s, from + 1)
    }
}

/// What one `nvidia-smi` line `name, memory MiB, ...` says: the trimmed
/// name and the memory in MiB (0 when it does not read as a number).
pub open spec fn nvidia_fields(s: Seq<char>) -> Option<(Seq<char>, nat)> {
    match first_line(s) {
        None => None,
        Some(line) => {
            let a = find_from(line, ',', 0);
            if a < 0 {
                None
            } else {
                let b = find_from(line, ',', a + 1);
                let second = if b < 0 { line.subrange(a + 1, line.len() as int) } else { line.subrange(a + 1, b) };
                let mib = match first_word(trim(second)) {
                    None => 0,
                    Some(w) => match std_parse_uint(w) {
                        Some(v) => if v <= u64::MAX { v } else { 0 },
                        None => 0,
                    },
                };
                Some((trim(line.subrange(0, a)), mib))
            }
        }
    }
}

fn first_word_of(t: &Vec<char>) -> (r: Option<Vec<char>>)
    ensures
        match first_word(t@) {
            None => r is None,
            Some(w) => r matches Some(v) && v@ == w,
        },
{
    let mut lo: usize = 0;
    while lo < t.len() && crate::input::char_is_ws(t[lo])
        invariant
            lo <= t.len(),
            forall|k: int| 0 <= k < lo ==> is_ws(#[trigger] t@[k]),
        decreases t.len() - lo,
    {
        lo += 1;
    }
    proof {
        crate::input::lemma_trim_start_at(t@, lo as int);
    }
    if lo == t.len() {
        return None;
    }
    let ghost u = t@.subrange(lo as int, t.len() as int);
    let mut hi: usize = lo;
    while hi < t.len() && !crate::input::char_is_ws(t[hi])
        invariant
            lo <= hi <= t.len(),
            u == t@.subrange(lo as int, t.len() as int),
            first_ws(u, 0) == first_ws(u, hi - lo),
        decreases t.len() - hi,
    {
        hi += 1;
    }
    proof {
        assert(u.take(first_ws(u, 0)) =~= t@.subrange(lo as int, hi as int));
    }
    Some(chars_range(t, lo, hi))
}

/// Reads the first line of `nvidia-smi --query-gpu=name,memory.total,...`
/// ([`nvidia_fields`]) and gives the name, the compute units estimated
/// from the memory, and the memory in bytes (0 when it does not fit).
pub fn parse_nvidia_line(s: &Vec<char>) -> (r: Option<(Vec<char>, u32, u64)>)
    ensures
        match nvidia_fields(s@) {
            None => r is None,
            Some((name, mib)) => r matches Some((n, units, bytes)) && n@ == name
                && units == compute_units_for_memory_spec(mib)
                && bytes as nat == (if mib * 1024 * 1024 <= u64::MAX { mib * 1024 * 1024 } else { 0 }),
        },
{
    if s.len() == 0 {
        return None;
    }
    let line = match find_char(s, '\n', 0) {
        None => chars_range(s, 0, s.len()),
        Some(i) => {
            if i > 0 && s[i - 1] == '\r' {
                chars_range(s, 0, i - 1)
            } else {
                chars_range(s, 0, i)
            }
        },
    };
    proof {
        if find_from(s@, '\n', 0) < 0 {
            assert(line@ =~= s@);
        } else {
            let i = find_from(s@, '\n', 0);
            let l = s@.subrange(0, i);
            if l.len() > 0 && l.last() == '\r' {
                assert(l.drop_last() =~= s@.subrange(0, i - 1));
            }
        }
        assert(first_line(s@) == Some(line@));
    }
    let a = match find_char(&line, ',', 0) {
        Some(a) => a,
        None => {
            return None;
        },
    };
    let second = match find_char(&line, ',', a + 1) {
        Some(b) => chars_range(&line, a + 1, b),
        None => chars_range(&line, a + 1, line.len()),
    };
    let name_raw = chars_range(&line, 0, a);
    let name = trim_chars(&name_raw);
    let second_t = trim_chars(&second);
    let mib: u64 = match first_word_of(&second_t) {
        None => 0,
        Some(w) => match parse_u64(&w) {
            Some(v) => v,
            None => 0,
        },
    };
    let units = compute_units_for_memory(mib);
    let bytes = match memory_bytes_from_mib(mib) {
        Some(b) => b,
        None => 0,
    };
    Some((name, units, bytes))
}

/// [`compute_units_for_memory`] as a formula.
pub open spec fn compute_units_for_memory_spec(mem_mib: nat) -> u32 {
    if mem_mib >= 24000 {
        16384u32
    } else if mem_mib >= 12000 {
        9728u32
    } else if mem_mib >= 8000 {
        6144u32
    } else if mem_mib >= 4000 {
        3584u32
    } else {
        1024u32
    }
}

} // verus!
