use loom::codec::{decode_trail, encode_trail};
use loom::execution::{Config, Execution};
use loom::model::{parse_config_value, Builder};
use loom::program::{MemOrdering, Op, Program};
use loom::scheduler::run;
use loom::semantics::CheckError;
use loom::trail::Trail;

fn config(max_threads: usize) -> Config {
    Config { max_threads, max_memory: 1 << 20, max_branches: 1000, preemption_bound: None }
}

/// Run every permutation of `prog`, returning the loads each completed run
/// observed (in order) and the committed choices of each leaf trail.
fn explore(prog: &Program, max_threads: usize) -> (Vec<Vec<u64>>, Vec<Vec<(u64, usize)>>) {
    let mut e = Execution::new(prog, config(max_threads), Trail::new(), false);
    let mut all_loads = Vec::new();
    let mut all_trails = Vec::new();
    loop {
        let res = run(&mut e, prog);
        assert!(res.is_ok(), "run failed: {:?}", res);
        all_loads.push(e.loads.clone());
        let sig: Vec<(u64, usize)> = e
            .trail
            .records
            .iter()
            .map(|d| (d.outcomes[d.chosen], d.chosen))
            .collect();
        all_trails.push(sig);
        match e.step(prog) {
            Some(e2) => e = e2,
            None => break,
        }
    }
    (all_loads, all_trails)
}

/// Two threads: one stores 1 to a shared location with relaxed ordering, the
/// other loads it. Full exploration must produce at least one permutation
/// where the load observes the pre-store value 0 and at least one where it
/// observes 1.
#[test]
fn relaxed_store_load_sees_both_values() {
    let prog = Program {
        num_locations: 1,
        threads: vec![
            vec![Op::Spawn(1), Op::Spawn(2)],
            vec![Op::Store(0, 1, MemOrdering::Relaxed)],
            vec![Op::Load(0, MemOrdering::Relaxed)],
        ],
    };
    let (loads, _) = explore(&prog, 4);
    let observed: Vec<u64> = loads.iter().map(|l| l[0]).collect();
    assert!(observed.contains(&0), "no permutation saw the pre-store value");
    assert!(observed.contains(&1), "no permutation saw the stored value");
}

/// Message passing with release/acquire: when the flag is published with a
/// releasing store and read with an acquiring load, no permutation may see
/// the flag set but the data still stale.
#[test]
fn acquire_release_forbids_stale_data() {
    let prog = Program {
        num_locations: 2,
        threads: vec![
            vec![Op::Spawn(1), Op::Spawn(2)],
            vec![
                Op::Store(0, 42, MemOrdering::Relaxed),
                Op::Store(1, 1, MemOrdering::Release),
            ],
            vec![Op::Load(1, MemOrdering::Acquire), Op::Load(0, MemOrdering::Relaxed)],
        ],
    };
    let (loads, _) = explore(&prog, 4);
    let mut saw_flag = false;
    for l in &loads {
        assert_eq!(l.len(), 2);
        if l[0] == 1 {
            saw_flag = true;
            assert_eq!(l[1], 42, "flag seen set but data stale under acquire/release");
        }
    }
    assert!(saw_flag, "no permutation saw the flag set");
}

/// The same message passing with relaxed orderings must reach the stale-data
/// permutation: that is the defect class the engine exists to surface.
#[test]
fn relaxed_message_passing_reaches_stale_data() {
    let prog = Program {
        num_locations: 2,
        threads: vec![
            vec![Op::Spawn(1), Op::Spawn(2)],
            vec![
                Op::Store(0, 42, MemOrdering::Relaxed),
                Op::Store(1, 1, MemOrdering::Relaxed),
            ],
            vec![Op::Load(1, MemOrdering::Relaxed), Op::Load(0, MemOrdering::Relaxed)],
        ],
    };
    let (loads, _) = explore(&prog, 4);
    let stale = loads.iter().any(|l| l[0] == 1 && l[1] == 0);
    assert!(stale, "relaxed exploration never saw flag=1 with stale data");
}

/// Determinism: for a fixed decision trail and fixed program, two independent
/// runs produce the identical sequence of decision resolutions and identical
/// observed loads.
#[test]
fn fixed_trail_runs_identically() {
    let prog = Program {
        num_locations: 1,
        threads: vec![
            vec![Op::Spawn(1), Op::Load(0, MemOrdering::Relaxed)],
            vec![Op::Store(0, 7, MemOrdering::Relaxed), Op::Yield],
        ],
    };
    let mut e1 = Execution::new(&prog, config(4), Trail::new(), false);
    let r1 = run(&mut e1, &prog);
    // replay the exact recorded trail
    let saved = encode_trail(&e1.trail);
    let replay = decode_trail(&saved).expect("trail must decode");
    let mut e2 = Execution::new(&prog, config(4), replay, false);
    let r2 = run(&mut e2, &prog);
    assert_eq!(r1, r2);
    assert_eq!(e1.loads, e2.loads);
    assert_eq!(e1.trail.records.len(), e2.trail.records.len());
    for (a, b) in e1.trail.records.iter().zip(e2.trail.records.iter()) {
        assert_eq!(a.kind, b.kind);
        assert_eq!(a.chosen, b.chosen);
        assert_eq!(a.outcomes, b.outcomes);
    }
}

/// Exhaustion: a bounded program's exploration ends, reporting exhaustion,
/// and no two completed runs have identical decision trails.
#[test]
fn exhaustive_search_terminates_without_duplicate_leaves() {
    let prog = Program {
        num_locations: 1,
        threads: vec![
            vec![Op::Spawn(1), Op::Spawn(2)],
            vec![Op::Store(0, 1, MemOrdering::SeqCst), Op::Load(0, MemOrdering::SeqCst)],
            vec![Op::Store(0, 2, MemOrdering::SeqCst), Op::Load(0, MemOrdering::SeqCst)],
        ],
    };
    let (_, trails) = explore(&prog, 4);
    assert!(trails.len() >= 2);
    for i in 0..trails.len() {
        for j in (i + 1)..trails.len() {
            assert_ne!(trails[i], trails[j], "two leaves share a decision trail");
        }
    }
    let report = Builder::new().check(&prog).expect("check must succeed");
    assert!(report.exhausted);
    assert_eq!(report.iterations as usize, trails.len());
}

/// Bound enforcement: a program that starts more logical threads than
/// `max_threads` fails fast with the configuration violation, never silently
/// truncating the thread count.
#[test]
fn too_many_threads_fails_fast() {
    let prog = Program {
        num_locations: 1,
        threads: vec![
            vec![Op::Spawn(1), Op::Spawn(2)],
            vec![Op::Yield],
            vec![Op::Yield],
        ],
    };
    let mut b = Builder::new();
    b.max_threads = 2;
    assert_eq!(b.check(&prog), Err(CheckError::TooManyThreads));
    b.max_threads = 3;
    assert!(b.check(&prog).is_ok());
}

/// Exceeding the bookkeeping budget is a hard configuration violation.
#[test]
fn memory_budget_is_enforced() {
    let prog = Program {
        num_locations: 1,
        threads: vec![vec![Op::Store(0, 1, MemOrdering::Relaxed)]],
    };
    let mut b = Builder::new();
    b.max_memory = 1;
    assert_eq!(b.check(&prog), Err(CheckError::MemoryExceeded));
    b.max_memory = 2;
    assert!(b.check(&prog).is_ok());
}

/// A program whose operations refer to undeclared locations or threads is
/// rejected before any exploration begins; so is spawning a thread twice.
#[test]
fn invalid_programs_are_rejected() {
    let out_of_range = Program {
        num_locations: 1,
        threads: vec![vec![Op::Load(3, MemOrdering::Relaxed)]],
    };
    assert_eq!(loom::model(&out_of_range), Err(CheckError::InvalidProgram));
    let spawn_twice = Program {
        num_locations: 1,
        threads: vec![vec![Op::Spawn(1), Op::Spawn(1)], vec![Op::Yield]],
    };
    assert_eq!(loom::model(&spawn_twice), Err(CheckError::InvalidProgram));
}

/// The permutation cap stops the search early, distinguishable from
/// exhaustion; the soft per-run bounds shrink the explored tree, and the
/// report marks such a search truncated — distinct from full exhaustion.
#[test]
fn soft_bounds_cut_exploration_short() {
    let prog = Program {
        num_locations: 1,
        threads: vec![
            vec![Op::Spawn(1), Op::Spawn(2)],
            vec![Op::Store(0, 1, MemOrdering::Relaxed)],
            vec![Op::Load(0, MemOrdering::Relaxed)],
        ],
    };
    let mut b = Builder::new();
    b.max_permutations = Some(1);
    let report = b.check(&prog).expect("capped check still succeeds");
    assert_eq!(report.iterations, 1);
    assert!(!report.exhausted);

    let full = Builder::new().check(&prog).expect("full");
    assert!(full.exhausted);
    assert!(!full.truncated);

    let mut b2 = Builder::new();
    b2.preemption_bound = Some(0);
    let bounded = b2.check(&prog).expect("bounded");
    assert!(bounded.exhausted);
    assert!(bounded.truncated, "preemption-bounded search must report truncation");
    assert!(bounded.iterations <= full.iterations);

    let mut b3 = Builder::new();
    b3.max_branches = 2;
    let cut = b3.check(&prog).expect("branch-bounded");
    assert!(cut.truncated, "branch-bounded search must report truncation");
}

/// A permutation cap of zero runs nothing and reports that.
#[test]
fn zero_permutation_cap_runs_nothing() {
    let prog = Program {
        num_locations: 1,
        threads: vec![vec![Op::Yield]],
    };
    let mut b = Builder::new();
    b.max_permutations = Some(0);
    let report = b.check(&prog).expect("capped check still succeeds");
    assert_eq!(report.iterations, 0);
    assert!(!report.exhausted);
    assert!(!report.truncated);
}

/// Builder defaults match the documented configuration surface.
#[test]
fn builder_defaults() {
    let mut b = Builder::new();
    assert_eq!(b.max_threads, 4);
    assert_eq!(b.max_memory, 67108864);
    assert_eq!(b.max_branches, 1000);
    assert_eq!(b.max_permutations, None);
    assert_eq!(b.max_duration, None);
    assert_eq!(b.preemption_bound, None);
    assert_eq!(b.checkpoint_file, None);
    assert_eq!(b.checkpoint_interval, 20000);
    assert!(!b.log);
    b.checkpoint_file("trail.bin");
    assert_eq!(b.checkpoint_file.as_deref(), Some("trail.bin"));
}

/// Malformed configuration overrides are rejected; well-formed ones parse to
/// the denoted number exactly.
#[test]
fn config_override_parsing() {
    assert_eq!(parse_config_value(b"123"), Some(123));
    assert_eq!(parse_config_value(b"0"), Some(0));
    assert_eq!(parse_config_value(b"18446744073709551615"), Some(u64::MAX));
    assert_eq!(parse_config_value(b"18446744073709551616"), None);
    assert_eq!(parse_config_value(b""), None);
    assert_eq!(parse_config_value(b"12a"), None);
    assert_eq!(parse_config_value(b" 5"), None);
}

/// Equivalence pruning keeps one representative when two threads' next
/// operations read the same location; the sentinel values show that no
/// observable outcome is lost: every reachable pair of observed values still
/// appears across the pruned exploration.
#[test]
fn pruned_reads_lose_no_outcomes() {
    let prog = Program {
        num_locations: 1,
        threads: vec![
            vec![Op::Spawn(1), Op::Spawn(2), Op::Spawn(3)],
            vec![Op::Load(0, MemOrdering::Relaxed)],
            vec![Op::Load(0, MemOrdering::Relaxed)],
            vec![Op::Store(0, 1, MemOrdering::Relaxed)],
        ],
    };
    let (loads, _) = explore(&prog, 4);
    // each permutation observes two loads; both orders of the two readers
    // are equivalent, so look at the pair of values irrespective of order
    let mut pairs: Vec<(u64, u64)> = Vec::new();
    for l in &loads {
        assert_eq!(l.len(), 2);
        let p = (l[0].min(l[1]), l[0].max(l[1]));
        if !pairs.contains(&p) {
            pairs.push(p);
        }
    }
    assert!(pairs.contains(&(0, 0)));
    assert!(pairs.contains(&(0, 1)));
    assert!(pairs.contains(&(1, 1)));
}

/// Sequentially consistent operations share one global order: a seq-cst load
/// scheduled after a seq-cst store can no longer observe the older value,
/// while a relaxed load still can.
#[test]
fn seq_cst_load_cannot_skip_the_latest_seq_cst_store() {
    let sc = Program {
        num_locations: 1,
        threads: vec![
            vec![Op::Spawn(1), Op::Store(0, 1, MemOrdering::SeqCst)],
            vec![Op::Load(0, MemOrdering::SeqCst)],
        ],
    };
    let relaxed = Program {
        num_locations: 1,
        threads: vec![
            vec![Op::Spawn(1), Op::Store(0, 1, MemOrdering::Relaxed)],
            vec![Op::Load(0, MemOrdering::Relaxed)],
        ],
    };
    let (sc_loads, _) = explore(&sc, 4);
    let (rl_loads, _) = explore(&relaxed, 4);
    let zeros = |ls: &Vec<Vec<u64>>| ls.iter().filter(|l| l[0] == 0).count();
    assert_eq!(zeros(&sc_loads), 1, "seq-cst: only the load-first order sees 0");
    assert_eq!(zeros(&rl_loads), 2, "relaxed: the load may also see past the store");
}
