//! Which engines race on an instance.
use vstd::prelude::*;
use crate::profile::Profile;
use crate::bignat::{BigNat, vals, big_eq};
use crate::model::sum_nat;
use crate::engines::sum_big;

verus! {

/// How large an instance is, as the caller classified it.
#[derive(Clone, Copy, PartialEq, Eq, Debug)]
pub enum ProblemClass {
    Trivial,
    Tiny,
    Small,
    Medium,
    Large,
}

/// The size class of `n` numbers.
pub open spec fn class_of(n: nat) -> ProblemClass {
    if n == 0 {
        ProblemClass::Trivial
    } else if n <= 12 {
        ProblemClass::Tiny
    } else if n <= 30 {
        ProblemClass::Small
    } else if n <= 60 {
        ProblemClass::Medium
    } else {
        ProblemClass::Large
    }
}

/// The size class of an instance of `n` numbers.
pub fn classify(n: usize) -> (r: ProblemClass)
    ensures
        r == class_of(n as nat),
{
    if n == 0 {
        ProblemClass::Trivial
    } else if n <= 12 {
        ProblemClass::Tiny
    } else if n <= 30 {
        ProblemClass::Small
    } else if n <= 60 {
        ProblemClass::Medium
    } else {
        ProblemClass::Large
    }
}

/// The engines that can prove or refute in any case.
pub open spec fn core_proof() -> Seq<&'static str> {
    seq!["Residue", "DigitFilter", "Dominance", "ColumnSAT"]
}

/// The engines for hard instances of 44 to 72 numbers.
pub open spec fn hard_engines() -> Seq<&'static str> {
    seq!["Schroeppel-Shamir", "BCJ", "HGJ", "Residue", "Dominance"]
}

/// The heuristics every non-SAT instance gets.
pub open spec fn common_heuristics() -> Seq<&'static str> {
    seq![
        "KSum", "Estimate", "Decompose", "DualCollapse", "Beam-SRP", "APDE", "PMAS-Balance",
        "PMAS-Difference", "PMAS-Bit", "PMAS-Redundancy",
    ]
}

/// The engines of each size class.
pub open spec fn class_engines(c: ProblemClass) -> Seq<&'static str> {
    match c {
        ProblemClass::Trivial | ProblemClass::Tiny => seq!["BitsetDP", "MITM", "Schroeppel-Shamir", "Greedy"],
        ProblemClass::Small => seq![
            "Schroeppel-Shamir", "BCJ", "Bonnetain", "MITM", "HGJ", "BitsetDP", "Greedy", "Backward",
        ],
        ProblemClass::Medium => seq![
            "Schroeppel-Shamir", "BCJ", "Bonnetain", "HGJ", "BitsetDP", "Greedy", "Backward", "Bridge",
        ],
        ProblemClass::Large => seq![
            "Schroeppel-Shamir", "BCJ", "HGJ", "Greedy", "Backward", "Bridge", "Randomized",
        ],
    }
}

/// The engines for a SAT encoding: the two filters first, then the column
/// SAT engine and the dominance rules.
pub open spec fn sat_engines() -> Seq<&'static str> {
    seq!["Residue", "DigitFilter", "ColumnSAT", "Dominance"]
}

/// The engine list: the SAT set for a SAT encoding; otherwise the core
/// engines, the super-increasing trio, the hard set for 44 to 72 numbers,
/// the class set, the common heuristics, and the `u128` range engine for
/// 44 numbers or more.
pub open spec fn engines_for(n: usize, super_increasing: bool, sat_encoded: bool, class: ProblemClass) -> Seq<&'static str> {
    if sat_encoded {
        sat_engines()
    } else {
        let hard_size = 44 <= n <= 72;
        let a = core_proof();
        let b = if super_increasing { a + seq!["Greedy", "Dominance", "Backward"] } else { a };
        let c = if hard_size { b + hard_engines() } else { b };
        let d = c + class_engines(class) + common_heuristics();
        if n >= 44 { d.push("Hard-U128") } else { d }
    }
}

/// Every list starts with the residue filter and holds the digit filter.
pub proof fn lemma_filters_always_run(n: usize, super_increasing: bool, sat_encoded: bool, class: ProblemClass)
    ensures
        engines_for(n, super_increasing, sat_encoded, class)[0] == "Residue",
        engines_for(n, super_increasing, sat_encoded, class).contains("DigitFilter"),
{
    let r = engines_for(n, super_increasing, sat_encoded, class);
    if sat_encoded {
        assert(r[1] == "DigitFilter");
    } else {
        let a = core_proof();
        let b = if super_increasing { a + seq!["Greedy", "Dominance", "Backward"] } else { a };
        let c = if 44 <= n <= 72 { b + hard_engines() } else { b };
        let d = c + class_engines(class) + common_heuristics();
        assert(b[1] == "DigitFilter" && b[0] == "Residue");
        assert(c[1] == "DigitFilter" && c[0] == "Residue");
        assert(d[1] == "DigitFilter" && d[0] == "Residue");
        assert(r[1] == "DigitFilter");
    }
}

/// From 44 numbers on, a non-SAT instance races the `u128` range engine
/// beside Schroeppel-Shamir.
pub proof fn lemma_hard_pair(n: usize, super_increasing: bool, class: ProblemClass)
    requires
        n >= 44,
    ensures
        engines_for(n, super_increasing, false, class).contains("Hard-U128"),
        engines_for(n, super_increasing, false, class).contains("Schroeppel-Shamir"),
{
    let r = engines_for(n, super_increasing, false, class);
    let a = core_proof();
    let b = if super_increasing { a + seq!["Greedy", "Dominance", "Backward"] } else { a };
    let c = if 44 <= n <= 72 { b + hard_engines() } else { b };
    let d = c + class_engines(class) + common_heuristics();
    assert(r[r.len() - 1] == "Hard-U128");
    assert(class_engines(class)[2] == "Schroeppel-Shamir" || class_engines(class)[0] == "Schroeppel-Shamir");
    if class_engines(class)[0] == "Schroeppel-Shamir" {
        assert(r[c.len() as int] == "Schroeppel-Shamir");
    } else {
        assert(r[c.len() + 2int] == "Schroeppel-Shamir");
    }
}

fn push_names(v: &mut Vec<&'static str>, names: &[&'static str])
    ensures
        final(v)@ == old(v)@ + names@,
{
    let mut i: usize = 0;
    let ghost start = v@;
    while i < names.len()
        invariant
            i <= names.len(),
            v@ == start + names@.take(i as int),
        decreases names.len() - i,
    {
        v.push(names[i]);
        proof {
            assert(names@.take(i + 1) =~= names@.take(i as int).push(names@[i as int]));
        }
        i += 1;
    }
    proof {
        assert(names@.take(names.len() as int) =~= names@);
    }
}

/// The engines to race on `p`, which the caller classified as `class` and
/// found super-increasing or not.
pub fn pick_engines(p: &Profile, super_increasing: bool, class: ProblemClass) -> (r: Vec<&'static str>)
    ensures
        r@ == engines_for(p.n, super_increasing, p.sat_encoded, class),
        p.sat_encoded ==> r@ == seq!["Residue", "DigitFilter", "ColumnSAT", "Dominance"],
        !p.sat_encoded ==> {
            &&& r@[0] == "Residue" && r@.contains("DigitFilter") && r@.contains("Dominance") && r@.contains("ColumnSAT")
            &&& r@.contains("KSum") && r@.contains("Estimate") && r@.contains("Decompose") && r@.contains("DualCollapse")
            &&& r@.contains("Beam-SRP") && r@.contains("APDE") && r@.contains("PMAS-Balance")
            &&& r@.contains("PMAS-Difference") && r@.contains("PMAS-Bit") && r@.contains("PMAS-Redundancy")
            &&& r@.contains("Schroeppel-Shamir") && r@.contains("Greedy")
            &&& !(class is Large) ==> r@.contains("BitsetDP")
            &&& (class is Trivial || class is Tiny || class is Small) ==> r@.contains("MITM")
            &&& !(class is Trivial || class is Tiny) ==> r@.contains("BCJ") && r@.contains("HGJ") && r@.contains("Backward")
            &&& (class is Small || class is Medium) ==> r@.contains("Bonnetain")
            &&& (class is Medium || class is Large) ==> r@.contains("Bridge")
            &&& class is Large ==> r@.contains("Randomized")
            &&& super_increasing ==> r@.contains("Backward")
            &&& 44 <= p.n <= 72 ==> r@.contains("BCJ") && r@.contains("HGJ")
            &&& p.n >= 44 ==> r@.contains("Hard-U128")
            &&& r@.len() == 4 + (if super_increasing { 3int } else { 0 }) + (if 44 <= p.n <= 72 { 5int } else { 0 })
                + (match class {
                ProblemClass::Trivial | ProblemClass::Tiny => 4int,
                ProblemClass::Small | ProblemClass::Medium => 8,
                ProblemClass::Large => 7,
            }) + 10 + (if p.n >= 44 { 1int } else { 0 })
        },
{
    broadcast use vstd::seq_lib::group_seq_properties;
    let mut v: Vec<&'static str> = Vec::new();
    push_names(&mut v, &["Residue", "DigitFilter", "Dominance", "ColumnSAT"]);
    if super_increasing {
        push_names(&mut v, &["Greedy", "Dominance", "Backward"]);
    }
    if p.sat_encoded {
        let mut s: Vec<&'static str> = Vec::new();
        push_names(&mut s, &["Residue", "DigitFilter", "ColumnSAT", "Dominance"]);
        proof {
            assert(s@ =~= sat_engines());
        }
        return s;
    }
    if p.n >= 44 && p.n <= 72 {
        push_names(&mut v, &["Schroeppel-Shamir", "BCJ", "HGJ", "Residue", "Dominance"]);
    }
    match class {
        ProblemClass::Trivial | ProblemClass::Tiny => {
            push_names(&mut v, &["BitsetDP", "MITM", "Schroeppel-Shamir", "Greedy"]);
        },
        ProblemClass::Small => {
            push_names(
                &mut v,
                &["Schroeppel-Shamir", "BCJ", "Bonnetain", "MITM", "HGJ", "BitsetDP", "Greedy", "Backward"],
            );
        },
        ProblemClass::Medium => {
            push_names(
                &mut v,
                &["Schroeppel-Shamir", "BCJ", "Bonnetain", "HGJ", "BitsetDP", "Greedy", "Backward", "Bridge"],
            );
        },
        ProblemClass::Large => {
            push_names(&mut v, &["Schroeppel-Shamir", "BCJ", "HGJ", "Greedy", "Backward", "Bridge", "Randomized"]);
        },
    }
    push_names(
        &mut v,
        &[
            "KSum",
            "Estimate",
            "Decompose",
            "DualCollapse",
            "Beam-SRP",
            "APDE",
            "PMAS-Balance",
            "PMAS-Difference",
            "PMAS-Bit",
            "PMAS-Redundancy",
        ],
    );
    if p.n >= 44 {
        v.push("Hard-U128");
    }
    proof {
        assert(v@ =~= engines_for(p.n, super_increasing, p.sat_encoded, class));
    }
    v
}

/// The result board of a race: the first reported subset that sums to the
/// target, the name of the engine that found it, and whether the race was
/// told to stop.
pub struct RaceBoard {
    pub target: BigNat,
    pub solution: Option<(Vec<BigNat>, &'static str)>,
    pub stop: bool,
}

impl RaceBoard {
    /// A recorded subset sums to the target and has stopped the race.
    pub open spec fn wf(&self) -> bool {
        self.solution matches Some((sol, _)) ==> sum_nat(vals(sol@)) == self.target@ && self.stop
    }

    /// A fresh board for `target`.
    pub fn new(target: BigNat) -> (r: RaceBoard)
        ensures
            r.wf(),
            r.target@ == target@,
            r.solution is None,
            !r.stop,
    {
        RaceBoard { target, solution: None, stop: false }
    }

    /// Tells every engine to stop; the recorded subset stays.
    pub fn stop_all(&mut self)
        requires
            old(self).wf(),
        ensures
            final(self).wf(),
            final(self).stop,
            final(self).solution == old(self).solution,
            final(self).target == old(self).target,
    {
        self.stop = true;
    }

    /// Records `sol` as found by `name` if the race is still running, no
    /// subset was recorded yet, and `sol` sums to the target; recording
    /// stops the race.  Anything else leaves the board as it was.
    pub fn report(&mut self, sol: Vec<BigNat>, name: &'static str)
        requires
            old(self).wf(),
        ensures
            final(self).wf(),
            final(self).target == old(self).target,
            (!old(self).stop && old(self).solution is None && sum_nat(vals(sol@)) == old(self).target@) ==> (
                final(self).solution == Some((sol, name)) && final(self).stop),
            !(!old(self).stop && old(self).solution is None && sum_nat(vals(sol@)) == old(self).target@) ==> (
                final(self).solution == old(self).solution && final(self).stop == old(self).stop),
    {
        if self.stop {
            return;
        }
        let s = sum_big(&sol);
        if !big_eq(&s, &self.target) {
            return;
        }
        if self.solution.is_none() {
            self.solution = Some((sol, name));
            self.stop = true;
        }
    }

    /// The race's verdict label: the engine that recorded the subset;
    /// otherwise "IMPOSSIBLE" when an engine proved there is none, else
    /// "Timeout".
    pub fn verdict(&self, proved_impossible: bool) -> (r: &'static str)
        ensures
            self.solution matches Some((_, name)) ==> r == name,
            self.solution is None && proved_impossible ==> r@ == "IMPOSSIBLE"@,
            self.solution is None && !proved_impossible ==> r@ == "Timeout"@,
    {
        match &self.solution {
            Some((_, name)) => *name,
            None => if proved_impossible {
                "IMPOSSIBLE"
            } else {
                "Timeout"
            },
        }
    }
}

/// The race's time limit in seconds: ten minutes, two hours for 65 to 68
/// numbers, five minutes below 44 numbers (a SAT encoding always gets ten
/// minutes).
pub fn race_timeout_secs(n: usize, sat_encoded: bool) -> (r: u64)
    ensures
        r == (if sat_encoded || n > 68 { 600u64 } else if n > 64 { 7200u64 } else if n >= 44 { 600u64 } else { 300u64 }),
{
    if sat_encoded {
        600
    } else if n > 100 {
        600
    } else if n > 80 {
        600
    } else if n > 68 {
        600
    } else if n > 64 {
        7200
    } else if n >= 44 {
        600
    } else if n > 60 {
        600
    } else {
        300
    }
}

} // verus!
