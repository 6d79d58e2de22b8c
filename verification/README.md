# zpp

An exact subset-sum solver: many search engines race on one instance and
the first subset that sums to the target wins.  The library (`src/`) is
written in Verus; every engine carries a contract, and the checked facts
include:

* a subset an engine hands out is drawn from the numbers (as a multiset)
  and sums to the target;
* an engine that declares an instance impossible is right
  (`engines::sound`), and several engines are complete within their size
  windows (their `Done` means no subset exists);
* the race board records only the first reported subset that sums to the
  target (`controller::RaceBoard`);
* the fast path (`trivial::solve`) and its refutations (size, parity,
  common divisor, small-prime residues);
* the instance-file and interactive-line formats (`input`).

Layout:

* `src/model.rs`, `src/bignat.rs`, `src/profile.rs`: the mathematical model
  (sums, sub-multisets, reachability), big naturals (arithmetic by
  `num-bigint`), and the instance profile.
* `src/engines/`: the engines; `src/knapsack.rs`, `src/sums.rs`,
  `src/masks.rs`, `src/heap.rs`, `src/fast_hash.rs`, `src/bitset.rs`: the
  data structures they share.
* `src/controller.rs`, `src/hardware_profile.rs`, `src/gpu.rs`,
  `src/gdvs.rs`, `src/fraction.rs`, `src/input.rs`: engine selection,
  machine classification, goal distances, fractions and text formats.
* `app/`: the interactive program (threads, timing, hardware probing, and
  the floating-point lattice reduction).
* `tests/`: tests on concrete instances.
