//! The machine the solver runs on, and the engine set chosen for it.
//!
//! Gathering the facts (cores, memory, GPU, environment) is done by the
//! caller; this module holds the classification rules and the selection.
use vstd::prelude::*;
use crate::input::{std_parse_uint, find_from, find_char, chars_range, parse_u32, trim, trim_chars};

verus! {

/// The kind of machine.
#[derive(Clone, Copy, PartialEq, Eq, Structural, Debug)]
pub enum HardwareClass {
    /// 1 to 64 cores, limited memory.
    Desktop,
    /// 64 to 256 cores, large memory, possibly a GPU.
    Server,
    /// 256 cores or more, distributed memory.
    Supercomputer,
    /// A quantum computer.
    Quantum,
    /// Not known: treated as a desktop.
    Unknown,
}

impl HardwareClass {
    /// The display name (an unknown machine shows as a desktop).
    pub fn name(&self) -> (r: &'static str)
        ensures
            r == class_name(*self),
    {
        match self {
            HardwareClass::Desktop => "Desktop",
            HardwareClass::Server => "Server",
            HardwareClass::Supercomputer => "Supercomputer",
            HardwareClass::Quantum => "Quantum",
            HardwareClass::Unknown => "Desktop",
        }
    }
}

/// The display name of each class.
pub open spec fn class_name(c: HardwareClass) -> &'static str {
    match c {
        HardwareClass::Desktop => "Desktop",
        HardwareClass::Server => "Server",
        HardwareClass::Supercomputer => "Supercomputer",
        HardwareClass::Quantum => "Quantum",
        HardwareClass::Unknown => "Desktop",
    }
}

/// How much memory is available for tables.
#[derive(Clone, Copy, PartialEq, Eq, Structural, Debug)]
pub enum MemoryTier {
    /// Below 2 GiB.
    Tight,
    /// 2 to 8 GiB.
    Moderate,
    /// 8 to 64 GiB.
    Generous,
    /// 64 to 512 GiB.
    Ample,
    /// 512 GiB or more.
    Massive,
}

/// One gibibyte.
pub const GIB: u64 = 0x4000_0000;

/// The tier of `available_ram` bytes.
pub fn classify_memory(available_ram: u64) -> (r: MemoryTier)
    ensures
        r == (if available_ram < 2 * GIB {
            MemoryTier::Tight
        } else if available_ram < 8 * GIB {
            MemoryTier::Moderate
        } else if available_ram < 64 * GIB {
            MemoryTier::Generous
        } else if available_ram < 512 * GIB {
            MemoryTier::Ample
        } else {
            MemoryTier::Massive
        }),
{
    if available_ram < 2 * GIB {
        MemoryTier::Tight
    } else if available_ram < 8 * GIB {
        MemoryTier::Moderate
    } else if available_ram < 64 * GIB {
        MemoryTier::Generous
    } else if available_ram < 512 * GIB {
        MemoryTier::Ample
    } else {
        MemoryTier::Massive
    }
}

/// The class of a machine with `cpu_cores` cores and `total_ram` bytes:
/// a supercomputer from 256 cores and 512 GiB, a server from 64 cores and
/// 64 GiB with a GPU or 128 GiB without, a desktop otherwise.
pub fn classify_hardware(cpu_cores: usize, total_ram: u64, has_gpu: bool) -> (r: HardwareClass)
    ensures
        r == (if cpu_cores >= 256 && total_ram >= 512 * GIB {
            HardwareClass::Supercomputer
        } else if cpu_cores >= 64 && total_ram >= 64 * GIB && has_gpu {
            HardwareClass::Server
        } else if cpu_cores >= 64 && total_ram >= 128 * GIB {
            HardwareClass::Server
        } else {
            HardwareClass::Desktop
        }),
{
    if cpu_cores >= 256 && total_ram >= 512 * GIB {
        HardwareClass::Supercomputer
    } else if cpu_cores >= 64 && total_ram >= 64 * GIB && has_gpu {
        HardwareClass::Server
    } else if cpu_cores >= 64 && total_ram >= 128 * GIB {
        HardwareClass::Server
    } else {
        HardwareClass::Desktop
    }
}

/// What is known of the machine.
pub struct HardwareProfile {
    pub class: HardwareClass,
    /// Logical CPU cores.
    pub cpu_cores: usize,
    /// Available physical memory in bytes.
    pub available_ram: u64,
    /// Total physical memory in bytes.
    pub total_ram: u64,
    pub memory_tier: MemoryTier,
    /// A CUDA-capable (or ROCm) GPU was found.
    pub has_gpu: bool,
    /// GPU compute capability, major * 10 + minor.
    pub gpu_compute_cap: u32,
    /// MPI-style distributed execution is available.
    pub has_mpi: bool,
    /// Running on a quantum machine (or its simulator).
    pub is_quantum: bool,
}

impl HardwareProfile {
    /// The profile of the detected facts; `class_override` is the class
    /// named in the environment, if any.
    pub fn from_facts(
        cpu_cores: usize,
        total_ram: u64,
        available_ram: u64,
        has_gpu: bool,
        gpu_compute_cap: u32,
        has_mpi: bool,
        is_quantum: bool,
        class_override: Option<HardwareClass>,
    ) -> (r: HardwareProfile)
        ensures
            r.class == (match class_override {
                Some(c) => c,
                None => classify_hardware_spec(cpu_cores, total_ram, has_gpu),
            }),
            r.memory_tier == memory_tier_spec(available_ram),
            r.cpu_cores == cpu_cores,
            r.total_ram == total_ram,
            r.available_ram == available_ram,
            r.has_gpu == has_gpu,
            r.gpu_compute_cap == gpu_compute_cap,
            r.has_mpi == has_mpi,
            r.is_quantum == is_quantum,
    {
        let class = match class_override {
            Some(c) => c,
            None => classify_hardware(cpu_cores, total_ram, has_gpu),
        };
        HardwareProfile {
            class,
            cpu_cores,
            available_ram,
            total_ram,
            memory_tier: classify_memory(available_ram),
            has_gpu,
            gpu_compute_cap,
            has_mpi,
            is_quantum,
        }
    }

    /// The largest target a reachability table fits: 80% of the memory
    /// left after 256 MiB for the system, in bits.
    pub fn max_bitset_target(&self) -> (r: u64)
        ensures
            r as int == min_int(usable_bytes(self.available_ram) * 8, u64::MAX as int),
    {
        let available_bytes: u64 = if self.available_ram > 256 * 1024 * 1024 {
            self.available_ram - 256 * 1024 * 1024
        } else {
            0
        };
        let usable: u64 = available_bytes / 5 * 4 + available_bytes % 5 * 4 / 5;
        proof {
            assert(usable as int == (available_bytes as int) * 4 / 5) by (nonlinear_arith)
                requires
                    usable == available_bytes / 5 * 4 + available_bytes % 5 * 4 / 5,
            ;
        }
        match usable.checked_mul(8) {
            Some(v) => v,
            None => u64::MAX,
        }
    }

    /// Worker count for sum-range partitioning: the cores (at least two
    /// on a desktop), cores times `nodes` up to 1024 on a supercomputer,
    /// one on a quantum machine.
    pub fn optimal_partition_count(&self, nodes: usize) -> (r: usize)
        ensures
            r == match self.class {
                HardwareClass::Desktop => if self.cpu_cores < 2 { 2 } else { self.cpu_cores },
                HardwareClass::Server => self.cpu_cores,
                HardwareClass::Supercomputer => min_int(self.cpu_cores * nodes, 1024) as usize,
                HardwareClass::Quantum => 1,
                HardwareClass::Unknown => self.cpu_cores,
            },
    {
        match self.class {
            HardwareClass::Desktop => if self.cpu_cores < 2 { 2 } else { self.cpu_cores },
            HardwareClass::Server => self.cpu_cores,
            HardwareClass::Supercomputer => {
                match self.cpu_cores.checked_mul(nodes) {
                    Some(total) => if total < 1024 { total } else { 1024 },
                    None => 1024,
                }
            },
            HardwareClass::Quantum => 1,
            HardwareClass::Unknown => self.cpu_cores,
        }
    }

    /// GPU offload needs a GPU of compute capability 6.0 or more.
    pub fn use_gpu(&self) -> (r: bool)
        ensures
            r == (self.has_gpu && self.gpu_compute_cap >= 60),
    {
        self.has_gpu && self.gpu_compute_cap >= 60
    }

    /// The distributed engine set is used with MPI or on a supercomputer.
    pub fn use_distributed(&self) -> (r: bool)
        ensures
            r == (self.has_mpi || self.class == HardwareClass::Supercomputer),
    {
        self.has_mpi || self.class == HardwareClass::Supercomputer
    }

    /// The quantum formulation is used on a quantum machine.
    pub fn use_quantum(&self) -> (r: bool)
        ensures
            r == (self.is_quantum || self.class == HardwareClass::Quantum),
    {
        self.is_quantum || self.class == HardwareClass::Quantum
    }
}

/// The smaller of two integers.
pub open spec fn min_int(a: int, b: int) -> int {
    if a < b { a } else { b }
}

/// 80% (rounded down) of the memory above 256 MiB.
pub open spec fn usable_bytes(available_ram: u64) -> int {
    let above = if available_ram > 256 * 1024 * 1024 { available_ram - 256 * 1024 * 1024 } else { 0 };
    above * 4 / 5
}

/// The class rule as a value.
pub open spec fn classify_hardware_spec(cpu_cores: usize, total_ram: u64, has_gpu: bool) -> HardwareClass {
    if cpu_cores >= 256 && total_ram >= 512 * GIB {
        HardwareClass::Supercomputer
    } else if cpu_cores >= 64 && total_ram >= 64 * GIB && has_gpu {
        HardwareClass::Server
    } else if cpu_cores >= 64 && total_ram >= 128 * GIB {
        HardwareClass::Server
    } else {
        HardwareClass::Desktop
    }
}

/// The tier rule as a value.
pub open spec fn memory_tier_spec(available_ram: u64) -> MemoryTier {
    if available_ram < 2 * GIB {
        MemoryTier::Tight
    } else if available_ram < 8 * GIB {
        MemoryTier::Moderate
    } else if available_ram < 64 * GIB {
        MemoryTier::Generous
    } else if available_ram < 512 * GIB {
        MemoryTier::Ample
    } else {
        MemoryTier::Massive
    }
}

/// The engines for a desktop: the heuristics always; exact methods for
/// up to 30 numbers; the four-list merge up to 70; the cryptanalytic
/// engines from 40 to 80 numbers with `u128` sums; the magnitude hierarchy
/// above 70; more heuristics above 20; the table for targets of at most
/// 24 bits.
pub open spec fn desktop_engines(n: usize, target_bits: u64, u128_safe: bool) -> Seq<&'static str> {
    let a = seq!["GDEP", "Greedy", "Bridge", "Decompose"];
    let b = if n <= 30 { a + seq!["MITM", "BitsetDP"] } else { a };
    let c = if n <= 70 { b.push("Schroeppel-Shamir") } else { b };
    let d = if u128_safe && n >= 40 && n <= 80 { c + seq!["BCJ", "HGJ", "Bonnetain"] } else { c };
    let e = if n > 70 { d.push("MD-MITM") } else { d };
    let f = if n > 20 { e + seq!["APDE", "PMAS-Balance", "PMAS-Difference", "DualCollapse"] } else { e };
    if target_bits <= 24 { f.push("BitsetDP") } else { f }
}

/// The engines for a server: the desktop set, then more heuristics, the
/// merge again with a GPU, the table up to 28 bits, and the cryptanalytic
/// engines with `u128` sums.
pub open spec fn server_engines(gpu: bool, n: usize, target_bits: u64, u128_safe: bool) -> Seq<&'static str> {
    let a = desktop_engines(n, target_bits, u128_safe) + seq!["GDEP", "Greedy"];
    let b = if gpu { a.push("Schroeppel-Shamir") } else { a };
    let c = if target_bits <= 28 { b.push("BitsetDP") } else { b };
    if u128_safe { c + seq!["BCJ", "HGJ", "Bonnetain"] } else { c }
}

/// The engines for a supercomputer.
pub open spec fn supercomputer_engines(gpu: bool, n: usize) -> Seq<&'static str> {
    let a = seq!["DistributedSolver", "GDEP", "MD-MITM", "Greedy", "Bridge"];
    let b = if n > 80 { a.push("MD-MITM") } else { a };
    if gpu { b + seq!["BitsetDP", "Schroeppel-Shamir"] } else { b }
}

/// The engines for a quantum machine.
pub open spec fn quantum_engines(n: usize) -> Seq<&'static str> {
    let a = seq!["QuantumGrover", "GDEP", "Bridge"];
    if n <= 70 { a.push("Schroeppel-Shamir") } else { a }
}

proof fn lemma_desktop_listing(n: usize, target_bits: u64, u128_safe: bool)
    ensures
        ({
            let d = desktop_engines(n, target_bits, u128_safe);
            &&& d.contains("GDEP") && d.contains("Greedy") && d.contains("Bridge") && d.contains("Decompose")
            &&& n <= 30 ==> d.contains("MITM") && d.contains("BitsetDP")
            &&& n <= 70 ==> d.contains("Schroeppel-Shamir")
            &&& u128_safe && 40 <= n <= 80 ==> d.contains("BCJ") && d.contains("HGJ") && d.contains("Bonnetain")
            &&& n > 70 ==> d.contains("MD-MITM")
            &&& n > 20 ==> d.contains("APDE") && d.contains("PMAS-Balance") && d.contains("PMAS-Difference")
                && d.contains("DualCollapse")
            &&& target_bits <= 24 ==> d.contains("BitsetDP")
            &&& d.len() == 4 + (if n <= 30 { 2int } else { 0 }) + (if n <= 70 { 1int } else { 0 }) + (if u128_safe && 40
                <= n <= 80 { 3int } else { 0 }) + (if n > 70 { 1int } else { 0 }) + (if n > 20 { 4int } else { 0 }) + (
            if target_bits <= 24 { 1int } else { 0 })
        }),
{
    broadcast use vstd::seq_lib::group_seq_properties;
}

proof fn lemma_server_listing(gpu: bool, n: usize, target_bits: u64, u128_safe: bool)
    ensures
        ({
            let s = server_engines(gpu, n, target_bits, u128_safe);
            let d = desktop_engines(n, target_bits, u128_safe);
            &&& forall|x: &'static str| d.contains(x) ==> #[trigger] s.contains(x)
            &&& gpu ==> s.contains("Schroeppel-Shamir")
            &&& target_bits <= 28 ==> s.contains("BitsetDP")
            &&& u128_safe ==> s.contains("BCJ") && s.contains("HGJ") && s.contains("Bonnetain")
            &&& s.len() == d.len() + 2 + (if gpu { 1int } else { 0 }) + (if target_bits <= 28 { 1int } else { 0 }) + (
            if u128_safe { 3int } else { 0 })
        }),
{
    broadcast use vstd::seq_lib::group_seq_properties;
}

proof fn lemma_supercomputer_listing(gpu: bool, n: usize)
    ensures
        ({
            let s = supercomputer_engines(gpu, n);
            &&& s.contains("DistributedSolver") && s.contains("GDEP") && s.contains("MD-MITM")
            &&& s.contains("Greedy") && s.contains("Bridge")
            &&& gpu ==> s.contains("BitsetDP") && s.contains("Schroeppel-Shamir")
            &&& s.len() == 5 + (if n > 80 { 1int } else { 0 }) + (if gpu { 2int } else { 0 })
        }),
{
    broadcast use vstd::seq_lib::group_seq_properties;
}

proof fn lemma_quantum_listing(n: usize)
    ensures
        ({
            let s = quantum_engines(n);
            &&& s.contains("QuantumGrover") && s.contains("GDEP") && s.contains("Bridge")
            &&& n <= 70 ==> s.contains("Schroeppel-Shamir")
            &&& s.len() == 3 + (if n <= 70 { 1int } else { 0 })
        }),
{
    broadcast use vstd::seq_lib::group_seq_properties;
}

fn push_all(v: &mut Vec<&'static str>, names: &[&'static str])
    ensures
        final(v)@ == old(v)@ + names@,
{
    let mut i: usize = 0;
    let ghost start = v@;
    while i < names.len()
        invariant
            i <= names.len(),
            v@ == start + names@.take(i as int),
        decreases names.len() - i,
    {
        v.push(names[i]);
        proof {
            assert(names@.take(i + 1) =~= names@.take(i as int).push(names@[i as int]));
        }
        i += 1;
    }
    proof {
        assert(names@.take(names.len() as int) =~= names@);
    }
}

fn select_desktop_engines(n: usize, target_bits: u64, u128_safe: bool) -> (r: Vec<&'static str>)
    ensures
        r@ == desktop_engines(n, target_bits, u128_safe),
{
    let mut engines: Vec<&'static str> = Vec::new();
    push_all(&mut engines, &["GDEP", "Greedy", "Bridge", "Decompose"]);
    if n <= 30 {
        push_all(&mut engines, &["MITM", "BitsetDP"]);
    }
    if n <= 70 {
        engines.push("Schroeppel-Shamir");
    }
    if u128_safe && n >= 40 && n <= 80 {
        push_all(&mut engines, &["BCJ", "HGJ", "Bonnetain"]);
    }
    if n > 70 {
        engines.push("MD-MITM");
    }
    if n > 20 {
        push_all(&mut engines, &["APDE", "PMAS-Balance", "PMAS-Difference", "DualCollapse"]);
    }
    if target_bits <= 24 {
        engines.push("BitsetDP");
    }
    proof {
        assert(engines@ =~= desktop_engines(n, target_bits, u128_safe));
    }
    engines
}

fn select_server_engines(hw: &HardwareProfile, n: usize, target_bits: u64, u128_safe: bool) -> (r: Vec<&'static str>)
    ensures
        r@ == server_engines(hw.has_gpu && hw.gpu_compute_cap >= 60, n, target_bits, u128_safe),
{
    let mut engines = select_desktop_engines(n, target_bits, u128_safe);
    push_all(&mut engines, &["GDEP", "Greedy"]);
    if hw.use_gpu() {
        engines.push("Schroeppel-Shamir");
    }
    if target_bits <= 28 {
        engines.push("BitsetDP");
    }
    if u128_safe {
        push_all(&mut engines, &["BCJ", "HGJ", "Bonnetain"]);
    }
    proof {
        assert(engines@ =~= server_engines(hw.has_gpu && hw.gpu_compute_cap >= 60, n, target_bits, u128_safe));
    }
    engines
}

fn select_supercomputer_engines(hw: &HardwareProfile, n: usize) -> (r: Vec<&'static str>)
    ensures
        r@ == supercomputer_engines(hw.has_gpu && hw.gpu_compute_cap >= 60, n),
{
    let mut engines: Vec<&'static str> = Vec::new();
    push_all(&mut engines, &["DistributedSolver", "GDEP", "MD-MITM", "Greedy", "Bridge"]);
    if n > 80 {
        engines.push("MD-MITM");
    }
    if hw.use_gpu() {
        push_all(&mut engines, &["BitsetDP", "Schroeppel-Shamir"]);
    }
    proof {
        assert(engines@ =~= supercomputer_engines(hw.has_gpu && hw.gpu_compute_cap >= 60, n));
    }
    engines
}

fn select_quantum_engines(n: usize) -> (r: Vec<&'static str>)
    ensures
        r@ == quantum_engines(n),
{
    let mut engines: Vec<&'static str> = Vec::new();
    push_all(&mut engines, &["QuantumGrover", "GDEP", "Bridge"]);
    if n <= 70 {
        engines.push("Schroeppel-Shamir");
    }
    proof {
        assert(engines@ =~= quantum_engines(n));
    }
    engines
}

/// The engines to run on this machine: the unified solver first, then the
/// set of its class (an unknown machine gets the desktop set).
pub fn select_engines_for_hardware(hw: &HardwareProfile, n: usize, target_bits: u64, u128_safe: bool) -> (r: Vec<
    &'static str,
>)
    ensures
        r@ == seq!["UnifiedSolver"] + match hw.class {
            HardwareClass::Server => server_engines(hw.has_gpu && hw.gpu_compute_cap >= 60, n, target_bits, u128_safe),
            HardwareClass::Supercomputer => supercomputer_engines(hw.has_gpu && hw.gpu_compute_cap >= 60, n),
            HardwareClass::Quantum => quantum_engines(n),
            _ => desktop_engines(n, target_bits, u128_safe),
        },
        r@[0] == "UnifiedSolver",
        hw.class is Desktop || hw.class is Unknown || hw.class is Server ==> {
            &&& r@.contains("GDEP") && r@.contains("Greedy") && r@.contains("Bridge") && r@.contains("Decompose")
            &&& n <= 30 ==> r@.contains("MITM") && r@.contains("BitsetDP")
            &&& n <= 70 ==> r@.contains("Schroeppel-Shamir")
            &&& u128_safe && 40 <= n <= 80 ==> r@.contains("BCJ") && r@.contains("HGJ") && r@.contains("Bonnetain")
            &&& n > 70 ==> r@.contains("MD-MITM")
            &&& n > 20 ==> r@.contains("APDE") && r@.contains("PMAS-Balance") && r@.contains("PMAS-Difference")
                && r@.contains("DualCollapse")
            &&& target_bits <= 24 ==> r@.contains("BitsetDP")
        },
        hw.class is Desktop || hw.class is Unknown ==> r@.len() == 5 + (if n <= 30 { 2int } else { 0 }) + (if n
            <= 70 { 1int } else { 0 }) + (if u128_safe && 40 <= n <= 80 { 3int } else { 0 }) + (if n > 70 { 1int } else { 0 })
            + (if n > 20 { 4int } else { 0 }) + (if target_bits <= 24 { 1int } else { 0 }),
        hw.class is Server ==> r@.len() == 5 + (if n <= 30 { 2int } else { 0 }) + (if n <= 70 { 1int } else { 0 })
            + (if u128_safe && 40 <= n <= 80 { 3int } else { 0 }) + (if n > 70 { 1int } else { 0 }) + (if n > 20 {
            4int
        } else { 0 }) + (if target_bits <= 24 { 1int } else { 0 }) + 2 + (if hw.has_gpu && hw.gpu_compute_cap >= 60 {
            1int
        } else { 0 }) + (if target_bits <= 28 { 1int } else { 0 }) + (if u128_safe { 3int } else { 0 }),
        hw.class is Supercomputer ==> r@.len() == 6 + (if n > 80 { 1int } else { 0 }) + (if hw.has_gpu
            && hw.gpu_compute_cap >= 60 { 2int } else { 0 }),
        hw.class is Quantum ==> r@.len() == 4 + (if n <= 70 { 1int } else { 0 }),
        hw.class is Server ==> {
            &&& hw.has_gpu && hw.gpu_compute_cap >= 60 ==> r@.contains("Schroeppel-Shamir")
            &&& target_bits <= 28 ==> r@.contains("BitsetDP")
            &&& u128_safe ==> r@.contains("BCJ") && r@.contains("HGJ") && r@.contains("Bonnetain")
        },
        hw.class is Supercomputer ==> {
            &&& r@.contains("DistributedSolver") && r@.contains("GDEP") && r@.contains("MD-MITM")
            &&& r@.contains("Greedy") && r@.contains("Bridge")
            &&& hw.has_gpu && hw.gpu_compute_cap >= 60 ==> r@.contains("BitsetDP") && r@.contains("Schroeppel-Shamir")
        },
        hw.class is Quantum ==> {
            &&& r@.contains("QuantumGrover") && r@.contains("GDEP") && r@.contains("Bridge")
            &&& n <= 70 ==> r@.contains("Schroeppel-Shamir")
        },
{
    broadcast use vstd::seq_lib::lemma_seq_concat_contains_all_elements;

    let ghost gpu = hw.has_gpu && hw.gpu_compute_cap >= 60;
    proof {
        lemma_desktop_listing(n, target_bits, u128_safe);
        lemma_server_listing(gpu, n, target_bits, u128_safe);
        lemma_supercomputer_listing(gpu, n);
        lemma_quantum_listing(n);
    }
    let mut engines = match hw.class {
        HardwareClass::Desktop => select_desktop_engines(n, target_bits, u128_safe),
        HardwareClass::Server => select_server_engines(hw, n, target_bits, u128_safe),
        HardwareClass::Supercomputer => select_supercomputer_engines(hw, n),
        HardwareClass::Quantum => select_quantum_engines(n),
        HardwareClass::Unknown => select_desktop_engines(n, target_bits, u128_safe),
    };
    let ghost rest = engines@;
    engines.insert(0, "UnifiedSolver");
    proof {
        assert(engines@ =~= seq!["UnifiedSolver"] + rest);
    }
    engines
}

/// `c` is `w` up to ASCII case (`w` being small).
pub open spec fn ci_eq(c: char, w: char) -> bool {
    c == w || ('A' <= c && c <= 'Z' && c as u32 + 32 == w as u32)
}

/// `name` spells the small word `w` up to ASCII case.
pub open spec fn word_ci(name: Seq<char>, w: Seq<char>) -> bool {
    name.len() == w.len() && forall|i: int| 0 <= i < w.len() ==> ci_eq(#[trigger] name[i], w[i])
}

/// A class named in configuration, compared without regard to case:
/// `desktop`, `server`, `supercomputer` (or `cluster`, `hpc`), `quantum`
/// (or `qubit`); anything else is a desktop.  (Only ASCII letters can
/// lower-case into these words, so ASCII case folding decides it.)
pub open spec fn class_for_name(name: Seq<char>) -> HardwareClass {
    if word_ci(name, seq!['s', 'e', 'r', 'v', 'e', 'r']) {
        HardwareClass::Server
    } else if word_ci(name, seq!['s', 'u', 'p', 'e', 'r', 'c', 'o', 'm', 'p', 'u', 't', 'e', 'r'])
        || word_ci(name, seq!['c', 'l', 'u', 's', 't', 'e', 'r']) || word_ci(name, seq!['h', 'p', 'c']) {
        HardwareClass::Supercomputer
    } else if word_ci(name, seq!['q', 'u', 'a', 'n', 't', 'u', 'm']) || word_ci(name, seq!['q', 'u', 'b', 'i', 't']) {
        HardwareClass::Quantum
    } else {
        HardwareClass::Desktop
    }
}

fn same_word(l: &Vec<char>, w: &[char]) -> (r: bool)
    ensures
        r == word_ci(l@, w@),
{
    if l.len() != w.len() {
        return false;
    }
    let mut i: usize = 0;
    while i < l.len()
        invariant
            i <= l.len(),
            l.len() == w.len(),
            forall|k: int| 0 <= k < i ==> ci_eq(#[trigger] l@[k], w@[k]),
        decreases l.len() - i,
    {
        let c = l[i];
        let d = w[i];
        if !(c == d || ('A' <= c && c <= 'Z' && (c as u32) + 32 == (d as u32))) {
            proof {
                assert(!ci_eq(l@[i as int], w@[i as int]));
            }
            return false;
        }
        i += 1;
    }
    true
}

/// The class named by `name` ([`class_for_name`]).
pub fn class_from_name(name: &Vec<char>) -> (r: HardwareClass)
    ensures
        r == class_for_name(name@),
{
    if same_word(name, &['s', 'e', 'r', 'v', 'e', 'r']) {
        HardwareClass::Server
    } else if same_word(name, &['s', 'u', 'p', 'e', 'r', 'c', 'o', 'm', 'p', 'u', 't', 'e', 'r'])
        || same_word(name, &['c', 'l', 'u', 's', 't', 'e', 'r']) || same_word(name, &['h', 'p', 'c']) {
        HardwareClass::Supercomputer
    } else if same_word(name, &['q', 'u', 'a', 'n', 't', 'u', 'm']) || same_word(name, &['q', 'u', 'b', 'i', 't']) {
        HardwareClass::Quantum
    } else {
        HardwareClass::Desktop
    }
}

/// The compute capability `major.minor` of `nvidia-smi` output as
/// `major * 10 + minor` (wrapping at `2^32`), each part 0 when it does not
/// read as a `u32`; nothing without a dot.
pub open spec fn compute_cap_of(text: Seq<char>) -> Option<u32> {
    let t = trim(text);
    let d = find_from(t, '.', 0);
    if d < 0 {
        None
    } else {
        let major = match std_parse_uint(t.subrange(0, d)) {
            Some(v) => if v <= u32::MAX { v } else { 0 },
            None => 0,
        };
        let minor = match std_parse_uint(t.subrange(d + 1, t.len() as int)) {
            Some(v) => if v <= u32::MAX { v } else { 0 },
            None => 0,
        };
        Some(((major * 10 + minor) % 0x1_0000_0000) as u32)
    }
}

/// [`compute_cap_of`], computed.
pub fn parse_compute_cap(text: &Vec<char>) -> (r: Option<u32>)
    ensures
        r == compute_cap_of(text@),
{
    let t = trim_chars(text);
    let d = match find_char(&t, '.', 0) {
        Some(d) => d,
        None => {
            return None;
        },
    };
    let major: u32 = match parse_u32(&chars_range(&t, 0, d)) {
        Some(v) => v,
        None => 0,
    };
    let minor: u32 = match parse_u32(&chars_range(&t, d + 1, t.len())) {
        Some(v) => v,
        None => 0,
    };
    let r = major.wrapping_mul(10).wrapping_add(minor);
    proof {
        assert(r == ((major * 10 + minor) % 0x1_0000_0000) as u32) by (nonlinear_arith)
            requires r == (((major * 10) % 0x1_0000_0000 + minor) % 0x1_0000_0000) as u32;
    }
    Some(r)
}

} // verus!
