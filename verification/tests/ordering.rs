use dag_bft::config::Committee;
use dag_bft::consensus::{ConsensusState, leader_of};
use dag_bft::types::{Certificate, DagError};

fn committee4() -> Committee {
    Committee::new(vec![1, 1, 1, 1]).unwrap()
}

fn digest(round: u64, author: usize) -> u64 {
    1000 * round + author as u64
}

/// A certificate endorsed by the whole committee; parents cite every
/// certificate of the previous round (round 1 cites the genesis digests).
fn cert(author: usize, round: u64) -> Certificate {
    let parents: Vec<u64> = if round == 1 {
        vec![0, 1, 2, 3]
    } else {
        (0..4).map(|a| digest(round - 1, a)).collect()
    };
    Certificate {
        author,
        round,
        digest: digest(round, author),
        parents,
        voters: vec![true, true, true, true],
    }
}

/// Every certificate of rounds 1..=max_round, authors ascending per round.
fn full_dag(max_round: u64) -> Vec<Certificate> {
    let mut all = Vec::new();
    for r in 1..=max_round {
        for a in 0..4 {
            all.push(cert(a, r));
        }
    }
    all
}

fn feed(state: &mut ConsensusState, certs: Vec<Certificate>) -> Vec<(u64, usize, u64)> {
    let mut out = Vec::new();
    for c in certs {
        if let Ok(batch) = state.process_certificate(c) {
            for e in batch {
                out.push((e.round, e.author, e.digest));
            }
        }
    }
    out
}

#[test]
fn leader_selection_is_deterministic() {
    let c = committee4();
    for round in 0..50u64 {
        let first = leader_of(&c, round);
        let second = leader_of(&c, round);
        assert_eq!(first, second);
        assert!(first < 4);
    }
}

#[test]
fn first_commit_emits_leader_history_in_order() {
    let c = committee4();
    let mut state = ConsensusState::new(c, 50);
    let out = feed(&mut state, full_dag(3));
    // The round-2 leader commits once a quorum of round-3 certificates cites
    // it; its history is every round-1 certificate plus the leader itself,
    // rounds ascending, authors ascending, the leader last.
    let leader = leader_of(&committee4(), 2);
    let mut expected = vec![(1, 0, digest(1, 0)), (1, 1, digest(1, 1)), (1, 2, digest(1, 2)), (1, 3, digest(1, 3))];
    expected.push((2, leader, digest(2, leader)));
    assert_eq!(out, expected);
}

#[test]
fn leader_commits_exactly_at_support_quorum() {
    let c = committee4();
    let mut state = ConsensusState::new(c, 50);
    // Nothing is committable on a fresh engine.
    assert!(state.try_commit_next().is_none());
    for cc in full_dag(2) {
        assert_eq!(state.process_certificate(cc), Ok(vec![]));
    }
    // The support round is missing entirely: the round-2 leader waits.
    assert!(state.try_commit_next().is_none());
    // Two of four stake units of round-3 support are below the quorum.
    assert_eq!(state.process_certificate(cert(0, 3)), Ok(vec![]));
    assert_eq!(state.process_certificate(cert(1, 3)), Ok(vec![]));
    assert!(state.committed().is_empty());
    // The third supporter crosses the quorum: the round-2 leader commits,
    // and it comes last in its batch.
    let batch = state.process_certificate(cert(2, 3)).unwrap();
    assert!(!batch.is_empty());
    let leader = leader_of(&committee4(), 2);
    assert_eq!(batch.last().map(|e| (e.round, e.author)), Some((2, leader)));
}

#[test]
fn redelivered_certificate_has_no_effect() {
    let c = committee4();
    let mut state = ConsensusState::new(c, 50);
    assert_eq!(state.process_certificate(cert(0, 1)), Ok(vec![]));
    let committed_before = state.committed().len();
    assert_eq!(
        state.process_certificate(cert(0, 1)),
        Err(DagError::AlreadyProcessed)
    );
    assert_eq!(state.committed().len(), committed_before);
    assert_eq!(state.digest_at(1, 0), Some(digest(1, 0)));
}

#[test]
fn equivocating_certificate_is_rejected() {
    let c = committee4();
    let mut state = ConsensusState::new(c, 50);
    assert_eq!(state.process_certificate(cert(0, 1)), Ok(vec![]));
    let mut conflicting = cert(0, 1);
    conflicting.digest = 999_999;
    assert_eq!(
        state.process_certificate(conflicting),
        Err(DagError::Equivocation)
    );
    assert_eq!(state.digest_at(1, 0), Some(digest(1, 0)));
}

#[test]
fn subquorum_parent_citations_are_rejected_outright() {
    let c = committee4();
    let mut state = ConsensusState::new(c, 50);
    for a in 0..4 {
        assert_eq!(state.process_certificate(cert(a, 1)), Ok(vec![]));
    }
    // Two of four stake units of round-1 parents is below the quorum of 3.
    let mut thin = cert(0, 2);
    thin.parents = vec![digest(1, 0), digest(1, 1)];
    assert_eq!(
        state.process_certificate(thin),
        Err(DagError::InsufficientParents)
    );
    assert_eq!(state.digest_at(2, 0), None);
}

#[test]
fn causally_incomplete_certificates_wait_for_parents() {
    let c = committee4();
    let mut state = ConsensusState::new(c, 50);
    // Round 2 before its round-1 parents: buffered, not admitted.
    assert_eq!(state.process_certificate(cert(1, 2)), Ok(vec![]));
    assert_eq!(state.digest_at(2, 1), None);
    for a in 0..4 {
        assert_eq!(state.process_certificate(cert(a, 1)), Ok(vec![]));
    }
    // The buffered certificate was admitted once its parents arrived.
    assert_eq!(state.digest_at(2, 1), Some(digest(2, 1)));
}

#[test]
fn garbage_collection_prunes_strictly_below_watermark() {
    let c = committee4();
    let mut state = ConsensusState::new(c, 1);
    feed(&mut state, full_dag(5));
    // Leaders of rounds 2 and 4 committed; with gc_depth 1 the watermark sits
    // at round 3: everything below is purged, round 3 itself is retained.
    assert_eq!(state.last_committed_round, 4);
    assert_eq!(state.base_round, 3);
    for a in 0..4 {
        assert_eq!(state.digest_at(1, a), None);
        assert_eq!(state.digest_at(2, a), None);
        assert_eq!(state.digest_at(3, a), Some(digest(3, a)));
    }
    // A certificate at or below the pruned rounds is stale.
    let mut stale = cert(0, 3);
    stale.digest = 777_777;
    assert_eq!(state.process_certificate(stale), Err(DagError::InvalidRound));
}

#[test]
fn committed_stream_is_causally_ordered() {
    let c = committee4();
    let mut state = ConsensusState::new(c, 50);
    let out = feed(&mut state, full_dag(6));
    assert!(!out.is_empty());
    let committed = state.committed();
    for i in 0..committed.len() {
        for pd in &committed[i].parents {
            // A cited parent that is ever emitted must come strictly earlier;
            // round-1 certificates cite only the genesis digests.
            if let Some(j) = committed.iter().position(|e| e.digest == *pd) {
                assert!(j < i, "parent emitted after its child");
            } else {
                assert_eq!(committed[i].round, 1);
            }
        }
    }
}

#[test]
fn every_arrival_order_yields_the_same_sequence() {
    // Four validators, one stake unit each (f = 1, quorum 3 of 4): inject the
    // full DAG in differently shuffled arrival orders; each node must emit
    // the identical, causally ordered certificate sequence.
    let reference = {
        let mut state = ConsensusState::new(committee4(), 50);
        feed(&mut state, full_dag(6))
    };
    assert!(!reference.is_empty());
    let mut seed: u64 = 0x2545F4914F6CDD1D;
    for _ in 0..8 {
        let mut certs = full_dag(6);
        // A small deterministic shuffle.
        let n = certs.len();
        for i in (1..n).rev() {
            seed = seed.wrapping_mul(6364136223846793005).wrapping_add(1442695040888963407);
            let j = (seed >> 33) as usize % (i + 1);
            certs.swap(i, j);
        }
        let mut state = ConsensusState::new(committee4(), 50);
        let out = feed(&mut state, certs);
        assert_eq!(out, reference);
    }
}

#[test]
fn emitted_positions_are_final() {
    let c = committee4();
    let mut state = ConsensusState::new(c, 50);
    feed(&mut state, full_dag(3));
    let snapshot: Vec<(u64, usize, u64)> =
        state.committed().iter().map(|e| (e.round, e.author, e.digest)).collect();
    assert!(!snapshot.is_empty());
    // Later traffic only appends: every already emitted position is stable.
    feed(&mut state, full_dag(6));
    let later: Vec<(u64, usize, u64)> =
        state.committed().iter().map(|e| (e.round, e.author, e.digest)).collect();
    assert!(later.len() > snapshot.len());
    assert_eq!(&later[..snapshot.len()], &snapshot[..]);
}
