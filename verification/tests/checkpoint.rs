use loom::codec::{decode_trail, encode_trail};
use loom::execution::{Config, Execution};
use loom::program::{MemOrdering, Op, Program};
use loom::scheduler::run;
use loom::trail::Trail;

fn config() -> Config {
    Config { max_threads: 4, max_memory: 1 << 20, max_branches: 1000, preemption_bound: None }
}

fn two_writer_program() -> Program {
    Program {
        num_locations: 1,
        threads: vec![
            vec![Op::Spawn(1), Op::Spawn(2)],
            vec![Op::Store(0, 1, MemOrdering::Relaxed), Op::Load(0, MemOrdering::Relaxed)],
            vec![Op::Store(0, 2, MemOrdering::Relaxed), Op::Load(0, MemOrdering::Relaxed)],
        ],
    }
}

fn leaf_signature(e: &Execution) -> Vec<(u64, usize, Vec<u64>)> {
    e.trail
        .records
        .iter()
        .map(|d| (d.outcomes[d.chosen], d.chosen, d.outcomes.clone()))
        .collect()
}

/// Explore from `trail`, returning every completed leaf's signature.
fn leaves_from(prog: &Program, trail: Trail) -> Vec<Vec<(u64, usize, Vec<u64>)>> {
    let mut e = Execution::new(prog, config(), trail, false);
    let mut leaves = Vec::new();
    loop {
        run(&mut e, prog).expect("run");
        leaves.push(leaf_signature(&e));
        match e.step(prog) {
            Some(e2) => e = e2,
            None => return leaves,
        }
    }
}

/// A trail serialized mid-search and deserialized is the identical trail.
#[test]
fn trail_round_trips_through_bytes() {
    let prog = two_writer_program();
    let mut e = Execution::new(&prog, config(), Trail::new(), false);
    run(&mut e, &prog).expect("run");
    let e2 = e.step(&prog).expect("more to explore");
    let bytes = encode_trail(&e2.trail);
    let back = decode_trail(&bytes).expect("decodes");
    assert_eq!(back.records.len(), e2.trail.records.len());
    for (a, b) in back.records.iter().zip(e2.trail.records.iter()) {
        assert_eq!(a.kind, b.kind);
        assert_eq!(a.chosen, b.chosen);
        assert_eq!(a.outcomes, b.outcomes);
    }
}

/// The empty trail round trips too.
#[test]
fn empty_trail_round_trips() {
    let bytes = encode_trail(&Trail::new());
    let back = decode_trail(&bytes).expect("decodes");
    assert_eq!(back.records.len(), 0);
}

/// Bytes that are not an encoded trail decode to nothing.
#[test]
fn corrupt_checkpoints_are_rejected() {
    assert!(decode_trail(&[1, 2, 3]).is_none());
    assert!(decode_trail(&[]).is_none());
    // a record count with no records behind it
    let mut bytes = Vec::new();
    bytes.extend_from_slice(&[5, 0, 0, 0, 0, 0, 0, 0]);
    assert!(decode_trail(&bytes).is_none());
    // trailing garbage after a valid empty trail
    let mut ok = encode_trail(&Trail::new());
    ok.extend_from_slice(&[0, 0, 0, 0, 0, 0, 0, 0]);
    assert!(decode_trail(&ok).is_none());
}

/// Checkpoint resume: serialize the trail mid-search, restart exploration
/// from the deserialized trail, and the union of leaves visited before the
/// interruption and after the resume equals the set an uninterrupted search
/// visits.
#[test]
fn resumed_search_visits_the_same_leaves() {
    let prog = two_writer_program();
    let uninterrupted = leaves_from(&prog, Trail::new());
    assert!(uninterrupted.len() >= 3, "scenario too small to interrupt");

    let cut = uninterrupted.len() / 2;
    let mut e = Execution::new(&prog, config(), Trail::new(), false);
    let mut before = Vec::new();
    let mut saved = None;
    for _ in 0..cut {
        run(&mut e, &prog).expect("run");
        before.push(leaf_signature(&e));
        match e.step(&prog) {
            Some(e2) => {
                e = e2;
            },
            None => panic!("interrupted before exhaustion"),
        }
        if before.len() == cut {
            saved = Some(encode_trail(&e.trail));
        }
    }
    let restored = decode_trail(&saved.expect("saved")).expect("decodes");
    let after = leaves_from(&prog, restored);

    let mut combined = before;
    combined.extend(after);
    assert_eq!(combined, uninterrupted);
}

/// A trail that does not replay against the program is reported as corrupt.
#[test]
fn mismatched_trail_is_corrupt() {
    let prog = two_writer_program();
    let other = Program {
        num_locations: 1,
        threads: vec![vec![Op::Load(0, MemOrdering::Relaxed)]],
    };
    let mut e = Execution::new(&prog, config(), Trail::new(), false);
    run(&mut e, &prog).expect("run");
    let foreign = e.trail;
    let mut e2 = Execution::new(&other, config(), foreign, false);
    assert_eq!(
        run(&mut e2, &other),
        Err(loom::semantics::CheckError::CorruptTrail)
    );
}
