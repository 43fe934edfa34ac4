use dag_bft::config::Committee;
use dag_bft::primary::{ParentsAggregator, StakeAggregator, VotesAggregator, validate_header};
use dag_bft::types::{BatchRef, Certificate, DagError, Header, Vote, check_certificate};
use dag_bft::worker::{AckCollector, BatchMaker};

fn committee4() -> Committee {
    Committee::new(vec![1, 1, 1, 1]).unwrap()
}

fn cert(author: usize, round: u64, parents: Vec<u64>) -> Certificate {
    Certificate {
        author,
        round,
        digest: 1000 * round + author as u64,
        parents,
        voters: vec![true, true, true, true],
    }
}

fn header(author: usize, round: u64, parents: Vec<u64>) -> Header {
    Header {
        author,
        round,
        created_at: 0,
        parents,
        payload: vec![BatchRef { worker: 0, digest: 77, size: 128 }],
        digest: 5000 * round + author as u64,
    }
}

#[test]
fn committee_construction() {
    assert!(Committee::new(vec![]).is_none());
    assert!(Committee::new(vec![1, 0, 1]).is_none());
    assert!(Committee::new(vec![u64::MAX, 1]).is_none());
    let c = committee4();
    assert_eq!(c.size(), 4);
    assert_eq!(c.total, 4);
    assert_eq!(c.quorum, 3);
    let c10 = Committee::new(vec![10]).unwrap();
    assert_eq!(c10.quorum, 7);
}

#[test]
fn stake_aggregator_counts_each_validator_once() {
    let c = committee4();
    let mut agg = StakeAggregator::new(&c);
    assert!(agg.add(&c, 1));
    assert!(!agg.add(&c, 1));
    assert_eq!(agg.stake, 1);
    assert!(agg.add(&c, 3));
    assert_eq!(agg.stake, 2);
    assert!(!agg.reached_quorum(&c));
    assert!(agg.add(&c, 0));
    assert!(agg.reached_quorum(&c));
}

#[test]
fn votes_certify_exactly_at_quorum() {
    // Quorum is 3 of 4 stake units: two votes must never certify, the third
    // must, and later votes must not certify again.
    let c = committee4();
    let h = header(0, 3, vec![2001, 2002, 2003]);
    let mut agg = VotesAggregator::new(&c);
    let vote = |voter: usize| Vote { header_digest: h.digest, round: h.round, origin: h.author, voter };
    assert_eq!(agg.append(&c, &h, &vote(0), true), Ok(None));
    assert_eq!(agg.append(&c, &h, &vote(1), true), Ok(None));
    let third = agg.append(&c, &h, &vote(2), true).unwrap();
    let certificate = third.expect("quorum reached: a certificate must form");
    assert_eq!(certificate.author, h.author);
    assert_eq!(certificate.round, h.round);
    assert_eq!(certificate.digest, h.digest);
    assert_eq!(certificate.parents, h.parents);
    assert_eq!(certificate.voters, vec![true, true, true, false]);
    assert_eq!(agg.append(&c, &h, &vote(3), true), Ok(None));
}

#[test]
fn duplicate_vote_is_idempotent() {
    let c = committee4();
    let h = header(1, 2, vec![1001, 1002, 1003]);
    let mut agg = VotesAggregator::new(&c);
    let vote = |voter: usize| Vote { header_digest: h.digest, round: h.round, origin: h.author, voter };
    assert_eq!(agg.append(&c, &h, &vote(0), true), Ok(None));
    let before = agg.agg.stake;
    assert_eq!(agg.append(&c, &h, &vote(0), true), Err(DagError::AlreadyProcessed));
    assert_eq!(agg.agg.stake, before);
}

#[test]
fn vote_validation_errors() {
    let c = committee4();
    let h = header(1, 2, vec![1001, 1002, 1003]);
    let mut agg = VotesAggregator::new(&c);
    let bad_voter = Vote { header_digest: h.digest, round: h.round, origin: h.author, voter: 9 };
    assert_eq!(agg.append(&c, &h, &bad_voter, true), Err(DagError::UnknownValidator));
    let v = Vote { header_digest: h.digest, round: h.round, origin: h.author, voter: 2 };
    assert_eq!(agg.append(&c, &h, &v, false), Err(DagError::InvalidSignature));
    let wrong = Vote { header_digest: h.digest + 1, round: h.round, origin: h.author, voter: 2 };
    assert_eq!(agg.append(&c, &h, &wrong, true), Err(DagError::Malformed));
}

#[test]
fn header_validation_accepts_quorum_parents() {
    let c = committee4();
    let parents = vec![
        cert(0, 1, vec![0, 1, 2, 3]),
        cert(1, 1, vec![0, 1, 2, 3]),
        cert(2, 1, vec![0, 1, 2, 3]),
    ];
    let h = header(3, 2, vec![1000, 1001, 1002]);
    assert_eq!(validate_header(&c, &h, true, 2, &parents, None), Ok(()));
}

#[test]
fn header_with_subquorum_parents_is_rejected() {
    // Two of four stake units of parents is below the quorum of three.
    let c = committee4();
    let parents = vec![cert(0, 1, vec![0, 1, 2, 3]), cert(1, 1, vec![0, 1, 2, 3])];
    let h = header(3, 2, vec![1000, 1001]);
    assert_eq!(
        validate_header(&c, &h, true, 2, &parents, None),
        Err(DagError::InsufficientParents)
    );
}

#[test]
fn header_validation_error_taxonomy() {
    let c = committee4();
    let parents = vec![
        cert(0, 1, vec![0, 1, 2, 3]),
        cert(1, 1, vec![0, 1, 2, 3]),
        cert(2, 1, vec![0, 1, 2, 3]),
    ];
    let h = header(3, 2, vec![1000, 1001, 1002]);
    let unknown = header(7, 2, vec![1000, 1001, 1002]);
    assert_eq!(
        validate_header(&c, &unknown, true, 2, &parents, None),
        Err(DagError::UnknownValidator)
    );
    assert_eq!(
        validate_header(&c, &h, false, 2, &parents, None),
        Err(DagError::InvalidSignature)
    );
    assert_eq!(
        validate_header(&c, &h, true, 3, &parents, None),
        Err(DagError::InvalidRound)
    );
    let unsorted = header(3, 2, vec![1001, 1000, 1002]);
    assert_eq!(
        validate_header(&c, &unsorted, true, 2, &parents, None),
        Err(DagError::Malformed)
    );
    let missing = vec![cert(0, 1, vec![0, 1, 2, 3])];
    assert_eq!(
        validate_header(&c, &h, true, 2, &missing, None),
        Err(DagError::MissingParents)
    );
    // The first valid header from an author wins; a redelivery of it is
    // dropped idempotently and a different one is equivocation.
    assert_eq!(
        validate_header(&c, &h, true, 2, &parents, Some(h.digest)),
        Err(DagError::AlreadyProcessed)
    );
    assert_eq!(
        validate_header(&c, &h, true, 2, &parents, Some(h.digest + 1)),
        Err(DagError::Equivocation)
    );
}

#[test]
fn parents_aggregator_reaches_quorum_once() {
    let c = committee4();
    let mut agg = ParentsAggregator::new(&c, 1);
    assert_eq!(agg.append(&c, &cert(2, 1, vec![0, 1, 2, 3])), Ok(()));
    assert!(!agg.has_quorum(&c));
    assert_eq!(agg.append(&c, &cert(0, 1, vec![0, 1, 2, 3])), Ok(()));
    assert!(!agg.has_quorum(&c));
    assert_eq!(
        agg.append(&c, &cert(0, 2, vec![0, 1, 2, 3])),
        Err(DagError::InvalidRound)
    );
    assert_eq!(
        agg.append(&c, &cert(2, 1, vec![0, 1, 2, 3])),
        Err(DagError::AlreadyProcessed)
    );
    assert_eq!(agg.append(&c, &cert(1, 1, vec![0, 1, 2, 3])), Ok(()));
    assert!(agg.has_quorum(&c));
    // The collected citations come out in canonical order.
    assert_eq!(agg.parents, vec![1000, 1001, 1002]);
}

#[test]
fn certificate_check_errors() {
    let c = committee4();
    let good = cert(1, 2, vec![1000, 1001, 1002]);
    assert_eq!(check_certificate(&c, &good), Ok(()));
    let unknown = cert(9, 2, vec![1000]);
    assert_eq!(check_certificate(&c, &unknown), Err(DagError::UnknownValidator));
    let genesis_round = cert(1, 0, vec![]);
    assert_eq!(check_certificate(&c, &genesis_round), Err(DagError::InvalidRound));
    let mut arity = cert(1, 2, vec![1000]);
    arity.voters = vec![true, true, true];
    assert_eq!(check_certificate(&c, &arity), Err(DagError::Malformed));
    let unsorted = Certificate { parents: vec![1001, 1000], ..cert(1, 2, vec![]) };
    assert_eq!(check_certificate(&c, &unsorted), Err(DagError::Malformed));
    let mut weak = cert(1, 2, vec![1000, 1001, 1002]);
    weak.voters = vec![true, true, false, false];
    assert_eq!(check_certificate(&c, &weak), Err(DagError::InsufficientQuorum));
}

#[test]
fn batch_seals_at_size_threshold() {
    let mut maker = BatchMaker::new(10);
    assert_eq!(maker.submit(vec![1, 2, 3, 4]), None);
    let sealed = maker.submit(vec![5, 6, 7, 8, 9, 10]).expect("threshold reached");
    assert_eq!(sealed, vec![vec![1, 2, 3, 4], vec![5, 6, 7, 8, 9, 10]]);
    assert_eq!(maker.bytes, 0);
    assert_eq!(maker.submit(vec![0; 10]).unwrap(), vec![vec![0; 10]]);
}

#[test]
fn batch_flush_drains_buffer() {
    let mut maker = BatchMaker::new(100);
    assert_eq!(maker.flush(), None);
    assert_eq!(maker.submit(vec![1]), None);
    assert_eq!(maker.flush(), Some(vec![vec![1]]));
    assert_eq!(maker.flush(), None);
}

#[test]
fn acks_reach_quorum_exactly_once() {
    let c = committee4();
    let mut acks = AckCollector::new(&c, 42);
    assert_eq!(acks.append(&c, 0), Ok(false));
    assert_eq!(acks.append(&c, 1), Ok(false));
    assert_eq!(acks.append(&c, 0), Err(DagError::AlreadyProcessed));
    assert_eq!(acks.append(&c, 9), Err(DagError::UnknownValidator));
    assert_eq!(acks.append(&c, 3), Ok(true));
    assert_eq!(acks.append(&c, 2), Ok(false));
}
