use dag_bft::config::Committee;
use dag_bft::primary::PrimaryCore;
use dag_bft::types::{BatchRef, Certificate, DagError, Header, Vote, genesis};

fn committee4() -> Committee {
    Committee::new(vec![1, 1, 1, 1]).unwrap()
}

fn primary(author: usize) -> PrimaryCore {
    let c = committee4();
    let g = genesis(&c);
    PrimaryCore::new(c, author, &g)
}

fn peer_header(author: usize, round: u64, parents: Vec<u64>, digest: u64) -> Header {
    Header { author, round, created_at: 7, parents, payload: vec![], digest }
}

#[test]
fn genesis_parents_let_round_one_propose_at_once() {
    let mut p = primary(0);
    assert_eq!(p.round, 1);
    let payload = vec![BatchRef { worker: 0, digest: 9, size: 64 }];
    let h = p.try_propose(123, payload, 4242).expect("genesis quorum present");
    assert_eq!(h.author, 0);
    assert_eq!(h.round, 1);
    assert_eq!(h.parents, vec![0, 1, 2, 3]);
    assert_eq!(h.digest, 4242);
    // A second call never re-signs different content for the same round.
    assert!(p.try_propose(456, vec![], 9999).is_none());
}

#[test]
fn own_header_certifies_at_vote_quorum_and_round_advances() {
    let mut p = primary(1);
    let h = p.try_propose(0, vec![], 5001).unwrap();
    let vote = |voter: usize| Vote { header_digest: h.digest, round: h.round, origin: h.author, voter };
    assert_eq!(p.on_vote(&vote(1), true), Ok(None));
    assert_eq!(p.on_vote(&vote(2), true), Ok(None));
    let c = p.on_vote(&vote(3), true).unwrap().expect("third vote reaches quorum");
    assert_eq!(c.author, 1);
    assert_eq!(c.round, 1);
    assert_eq!(c.digest, 5001);
    assert_eq!(p.round, 2);
    // The new round proposes only after a fresh parent quorum.
    assert!(p.try_propose(0, vec![], 5002).is_none());
}

#[test]
fn peer_headers_are_voted_once_per_author_and_round() {
    let mut p = primary(0);
    let g = genesis(&committee4());
    let resolved: Vec<Certificate> = vec![g[0].clone(), g[1].clone(), g[2].clone()];
    let h = peer_header(2, 1, vec![0, 1, 2], 6001);
    let v = p.on_peer_header(&h, true, &resolved).expect("valid header earns a vote");
    assert_eq!(v.header_digest, 6001);
    assert_eq!(v.origin, 2);
    assert_eq!(v.voter, 0);
    // Redelivery of the accepted header is dropped idempotently.
    assert_eq!(
        p.on_peer_header(&h, true, &resolved),
        Err(DagError::AlreadyProcessed)
    );
    // A different header from the same author and round is equivocation.
    let other = peer_header(2, 1, vec![0, 1, 2], 6002);
    assert_eq!(
        p.on_peer_header(&other, true, &resolved),
        Err(DagError::Equivocation)
    );
}

#[test]
fn early_certificates_are_buffered_until_their_round() {
    let mut p = primary(2);
    // A round-1 certificate arrives while round-0 parents are collected:
    // buffered, not dropped.
    let early = Certificate {
        author: 0,
        round: 1,
        digest: 8100,
        parents: vec![0, 1, 2, 3],
        voters: vec![true, true, true, false],
    };
    assert_eq!(p.on_certificate(&early), Ok(()));
    let h = p.try_propose(0, vec![], 7101).unwrap();
    let vote = |voter: usize| Vote { header_digest: h.digest, round: h.round, origin: h.author, voter };
    assert_eq!(p.on_vote(&vote(0), true), Ok(None));
    assert_eq!(p.on_vote(&vote(1), true), Ok(None));
    assert!(p.on_vote(&vote(2), true).unwrap().is_some());
    assert_eq!(p.round, 2);
    // The buffered certificate already counts toward the round-1 quorum.
    let c2 = Certificate { author: 1, digest: 8101, ..early.clone() };
    let c3 = Certificate { author: 3, digest: 8102, ..early.clone() };
    assert_eq!(p.on_certificate(&c2), Ok(()));
    assert_eq!(p.on_certificate(&c3), Ok(()));
    let h2 = p.try_propose(0, vec![], 7102).expect("buffered parent completed the quorum");
    assert_eq!(h2.parents, vec![8100, 8101, 8102]);
    // A certificate below the collection round is stale.
    let stale = Certificate { round: 0, digest: 8103, ..early };
    assert_eq!(p.on_certificate(&stale), Err(DagError::InvalidRound));
}

#[test]
fn parent_collection_gates_the_next_proposal() {
    let mut p = primary(3);
    let h = p.try_propose(0, vec![], 7001).unwrap();
    let vote = |voter: usize| Vote { header_digest: h.digest, round: h.round, origin: h.author, voter };
    assert_eq!(p.on_vote(&vote(0), true), Ok(None));
    assert_eq!(p.on_vote(&vote(1), true), Ok(None));
    assert!(p.on_vote(&vote(2), true).unwrap().is_some());
    assert_eq!(p.round, 2);
    let c1 = Certificate {
        author: 0,
        round: 1,
        digest: 8000,
        parents: vec![0, 1, 2, 3],
        voters: vec![true, true, true, false],
    };
    assert_eq!(p.on_certificate(&c1), Ok(()));
    assert!(p.try_propose(0, vec![], 7002).is_none());
    let c2 = Certificate { author: 1, digest: 8001, ..c1.clone() };
    let c3 = Certificate { author: 2, digest: 8002, ..c1.clone() };
    assert_eq!(p.on_certificate(&c2), Ok(()));
    assert_eq!(p.on_certificate(&c3), Ok(()));
    let h2 = p.try_propose(0, vec![], 7003).expect("quorum of round-1 parents");
    assert_eq!(h2.round, 2);
    assert_eq!(h2.parents, vec![8000, 8001, 8002]);
}

#[test]
fn pruning_discards_stale_buffered_certificates() {
    let mut p = primary(0);
    let buffered = |round: u64, digest: u64| Certificate {
        author: 3,
        round,
        digest,
        parents: vec![0, 1, 2, 3],
        voters: vec![true, true, true, false],
    };
    assert_eq!(p.on_certificate(&buffered(5, 9100)), Ok(()));
    assert_eq!(p.on_certificate(&buffered(9, 9101)), Ok(()));
    assert_eq!(p.future.len(), 2);
    // The feedback watermark discards what can never be collected any more.
    p.prune(5);
    assert_eq!(p.future.len(), 1);
    assert_eq!(p.future[0].round, 9);
    assert_eq!(p.future[0].digest, 9101);
}

#[test]
fn far_future_buffering_is_bounded() {
    let mut p = primary(0);
    for i in 0..1024u64 {
        let c = Certificate {
            author: 2,
            round: 2 + i,
            digest: 10_000 + i,
            parents: vec![0, 1, 2, 3],
            voters: vec![true, true, true, false],
        };
        assert_eq!(p.on_certificate(&c), Ok(()));
    }
    // The buffer is full: a further far-future certificate is refused.
    let overflow = Certificate {
        author: 1,
        round: 3000,
        digest: 99_999,
        parents: vec![0, 1, 2, 3],
        voters: vec![true, true, true, false],
    };
    assert_eq!(p.on_certificate(&overflow), Err(DagError::InvalidRound));
}
