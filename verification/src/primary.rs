//! The primary's certification logic: collecting a quorum of parent
//! certificates to propose on, validating headers from peers before voting,
//! and aggregating votes on the own header into a certificate.
//!
//! Each structure here is one decision component of the per-round state
//! machine; the event loop that feeds them with network messages and timers
//! lives outside the library.

use vstd::prelude::*;
use crate::config::{
    Committee, flag_stake, lemma_flag_stake_le_sum, lemma_flag_stake_nonneg,
    lemma_flag_stake_update, sum_stakes,
};
use crate::types::{BatchRef, Certificate, DagError, Header, Vote, strictly_increasing,
    check_strictly_increasing};

verus! {

/// Stake of the authors of a list of certificates.
pub open spec fn cited_stake(stakes: Seq<u64>, certs: Seq<Certificate>) -> int
    recommends
        forall|i: int| 0 <= i < certs.len() ==> (#[trigger] certs[i].author as int) < stakes.len(),
    decreases certs.len(),
{
    if certs.len() == 0 {
        0
    } else {
        cited_stake(stakes, certs.drop_last()) + stakes[certs.last().author as int]
    }
}

/// Tracks which validators have contributed to some goal and how much stake
/// they carry together; each validator is counted at most once.
pub struct StakeAggregator {
    /// Indicator over the committee: who has contributed.
    pub flags: Vec<bool>,
    /// Combined stake of the contributors.
    pub stake: u64,
}

impl StakeAggregator {
    pub open spec fn wf(&self, com: Committee) -> bool {
        &&& com.wf()
        &&& self.flags@.len() == com.stakes@.len()
        &&& self.stake == flag_stake(com.stakes@, self.flags@)
    }

    pub fn new(com: &Committee) -> (r: StakeAggregator)
        requires
            com.wf(),
        ensures
            r.wf(*com),
            r.stake == 0,
            forall|i: int| 0 <= i < r.flags@.len() ==> !r.flags@[i],
    {
        let n = com.size();
        let mut flags: Vec<bool> = Vec::new();
        let mut i: usize = 0;
        while i < n
            invariant
                0 <= i <= n,
                flags@.len() == i,
                forall|k: int| 0 <= k < i ==> !flags@[k],
                flag_stake(com.stakes@.take(i as int), flags@) == 0,
                com.wf(),
                n == com.stakes@.len(),
            decreases n - i,
        {
            proof {
                assert(com.stakes@.take(i + 1).drop_last() =~= com.stakes@.take(i as int));
                assert(flags@.push(false).drop_last() =~= flags@);
            }
            flags.push(false);
            i += 1;
        }
        proof {
            assert(com.stakes@.take(n as int) =~= com.stakes@);
        }
        StakeAggregator { flags, stake: 0 }
    }

    /// Records validator `v`'s contribution. Returns whether it was new; a
    /// repeated contribution changes nothing.
    pub fn add(&mut self, com: &Committee, v: usize) -> (fresh: bool)
        requires
            old(self).wf(*com),
            (v as int) < com.stakes@.len(),
        ensures
            final(self).wf(*com),
            fresh == !old(self).flags@[v as int],
            final(self).flags@ == old(self).flags@.update(v as int, true),
            fresh ==> final(self).stake == old(self).stake + com.stakes@[v as int],
            !fresh ==> *final(self) == *old(self),
    {
        if self.flags[v] {
            proof {
                assert(self.flags@.update(v as int, true) =~= self.flags@);
            }
            return false;
        }
        proof {
            lemma_flag_stake_update(com.stakes@, self.flags@, v as int);
            lemma_flag_stake_le_sum(com.stakes@, self.flags@.update(v as int, true));
            lemma_flag_stake_nonneg(com.stakes@, self.flags@);
        }
        self.flags.set(v, true);
        self.stake = self.stake + com.stake_of(v);
        true
    }

    /// Whether the contributors reach the quorum threshold.
    pub fn reached_quorum(&self, com: &Committee) -> (r: bool)
        requires
            self.wf(*com),
        ensures
            r == (self.stake >= com.quorum),
    {
        self.stake >= com.quorum
    }
}

/// Collects the certificates of one round until they carry a quorum of stake:
/// the parents a header for the next round will cite.
pub struct ParentsAggregator {
    /// The round whose certificates are being collected.
    pub round: u64,
    /// Who has produced a counted certificate, and their combined stake.
    pub agg: StakeAggregator,
    /// Digests of the counted certificates, strictly increasing.
    pub parents: Vec<u64>,
}

impl ParentsAggregator {
    pub open spec fn wf(&self, com: Committee) -> bool {
        &&& self.agg.wf(com)
        &&& strictly_increasing(self.parents@)
    }

    pub fn new(com: &Committee, round: u64) -> (r: ParentsAggregator)
        requires
            com.wf(),
        ensures
            r.wf(*com),
            r.round == round,
            r.agg.stake == 0,
            r.parents@.len() == 0,
            forall|i: int| 0 <= i < r.agg.flags@.len() ==> !r.agg.flags@[i],
    {
        ParentsAggregator { round, agg: StakeAggregator::new(com), parents: Vec::new() }
    }

    /// Counts one certificate of this round. A certificate for another round,
    /// a second certificate from the same author, or a repeated digest is
    /// rejected and changes nothing.
    pub fn append(&mut self, com: &Committee, cert: &Certificate) -> (r: Result<(), DagError>)
        requires
            old(self).wf(*com),
            (cert.author as int) < com.stakes@.len(),
        ensures
            final(self).wf(*com),
            final(self).round == old(self).round,
            r is Err ==> *final(self) == *old(self),
            r is Err ==> r->Err_0 == (if cert.round != old(self).round {
                DagError::InvalidRound
            } else if old(self).parents@.contains(cert.digest) {
                DagError::AlreadyProcessed
            } else {
                DagError::Equivocation
            }),
            r is Ok <==> {
                &&& cert.round == old(self).round
                &&& !old(self).parents@.contains(cert.digest)
                &&& !old(self).agg.flags@[cert.author as int]
            },
            r is Ok ==> {
                &&& final(self).agg.stake == old(self).agg.stake + com.stakes@[cert.author as int]
                &&& final(self).agg.flags@ == old(self).agg.flags@.update(cert.author as int, true)
                &&& final(self).parents@.contains(cert.digest)
                &&& final(self).parents@.len() == old(self).parents@.len() + 1
                &&& forall|d: u64| old(self).parents@.contains(d)
                    ==> final(self).parents@.contains(d)
                &&& forall|d: u64| final(self).parents@.contains(d)
                    ==> old(self).parents@.contains(d) || d == cert.digest
            },
    {
        if cert.round != self.round {
            return Err(DagError::InvalidRound);
        }
        let pos = match sorted_position(&self.parents, cert.digest) {
            Ok(p) => p,
            Err(()) => {
                return Err(DagError::AlreadyProcessed);
            },
        };
        if self.agg.flags[cert.author] {
            return Err(DagError::Equivocation);
        }
        let fresh = self.agg.add(com, cert.author);
        proof {
            let before = self.parents@;
            let after = before.insert(pos as int, cert.digest);
            assert(after[pos as int] == cert.digest);
            assert forall|d: u64| before.contains(d) implies after.contains(d) by {
                let k = choose|k: int| 0 <= k < before.len() && before[k] == d;
                if k < pos {
                    assert(after[k] == d);
                } else {
                    assert(after[k + 1] == d);
                }
            };
            assert forall|d: u64| after.contains(d)
                implies before.contains(d) || d == cert.digest by {
                let k = choose|k: int| 0 <= k < after.len() && after[k] == d;
                if k < pos {
                    assert(before[k] == d);
                } else if k > pos {
                    assert(before[k - 1] == d);
                }
            };
        }
        self.parents.insert(pos, cert.digest);
        Ok(())
    }

    /// Whether the counted parents carry a quorum of stake, so that a header
    /// for the next round can be proposed.
    pub fn has_quorum(&self, com: &Committee) -> (r: bool)
        requires
            self.wf(*com),
        ensures
            r == (self.agg.stake >= com.quorum),
    {
        self.agg.reached_quorum(com)
    }
}

/// Where `d` belongs in a strictly increasing list: `Ok(pos)` keeps the list
/// strictly increasing after inserting at `pos`; `Err(())` means `d` is
/// already present.
fn sorted_position(s: &Vec<u64>, d: u64) -> (r: Result<usize, ()>)
    requires
        strictly_increasing(s@),
    ensures
        r is Err <==> s@.contains(d),
        r is Ok ==> {
            &&& r->Ok_0 <= s@.len()
            &&& strictly_increasing(s@.insert(r->Ok_0 as int, d))
        },
{
    let n = s.len();
    let mut i: usize = 0;
    while i < n
        invariant
            n == s@.len(),
            0 <= i <= n,
            strictly_increasing(s@),
            forall|k: int| 0 <= k < i ==> s@[k] < d,
        decreases n - i,
    {
        if s[i] == d {
            assert(s@.contains(d));
            return Err(());
        }
        if s[i] > d {
            proof {
                assert forall|x: int| 0 <= x < s@.len() && s@[x] == d implies false by {
                    if x < i {
                    } else {
                        assert(s@[i as int] <= s@[x]);
                    }
                };
                assert(!s@.contains(d));
                let t = s@.insert(i as int, d);
                assert forall|a: int, b: int| 0 <= a < b < t.len() implies t[a] < t[b] by {
                    if a < i && b > i {
                        assert(t[a] == s@[a] && t[b] == s@[b - 1]);
                        if b - 1 == i {
                        } else {
                            assert(s@[i as int] <= s@[b - 1]);
                        }
                    }
                };
            }
            return Ok(i);
        }
        i += 1;
    }
    proof {
        assert(!s@.contains(d));
        let t = s@.insert(n as int, d);
        assert forall|a: int, b: int| 0 <= a < b < t.len() implies t[a] < t[b] by {}
    }
    Ok(n)
}

/// Builds this author's header for a round, citing the quorum of parents the
/// aggregator collected plus the pending batch references. The digest is
/// supplied by the hashing edge.
pub fn propose_header(
    com: &Committee,
    author: usize,
    round: u64,
    created_at: u64,
    parents_agg: &ParentsAggregator,
    payload: Vec<crate::types::BatchRef>,
    digest: u64,
) -> (h: Header)
    requires
        com.wf(),
        parents_agg.wf(*com),
        parents_agg.agg.stake >= com.quorum,
        (author as int) < com.stakes@.len(),
        round == parents_agg.round + 1,
    ensures
        h.author == author,
        h.round == round,
        h.created_at == created_at,
        h.parents@ == parents_agg.parents@,
        h.payload@ == payload@,
        h.digest == digest,
        strictly_increasing(h.parents@),
{
    let parents = copy_digests(&parents_agg.parents);
    Header { author, round, created_at, parents, payload, digest }
}

/// Copies a digest list element by element.
pub fn copy_digests(v: &Vec<u64>) -> (r: Vec<u64>)
    ensures
        r@ == v@,
{
    let n = v.len();
    let mut r: Vec<u64> = Vec::new();
    let mut i: usize = 0;
    while i < n
        invariant
            n == v@.len(),
            0 <= i <= n,
            r@ == v@.take(i as int),
        decreases n - i,
    {
        proof {
            assert(v@.take(i + 1) =~= v@.take(i as int).push(v@[i as int]));
        }
        r.push(v[i]);
        i += 1;
    }
    proof {
        assert(v@.take(n as int) =~= v@);
    }
    r
}

/// The parents a header cites, as resolved from local storage: one local
/// certificate per cited digest, in citation order, all from the previous
/// round.
pub open spec fn parents_resolved(h: Header, resolved: Seq<Certificate>) -> bool {
    &&& resolved.len() == h.parents@.len()
    &&& forall|i: int| 0 <= i < resolved.len() ==> {
        &&& (#[trigger] resolved[i]).digest == h.parents@[i]
        &&& resolved[i].round + 1 == h.round
    }
}

/// Validates a header received from a peer; `Ok` means the header earns this
/// node's vote.
///
/// `sig_ok` is the verdict of the signature check at the cryptographic edge;
/// `resolved_parents` are the locally certified certificates matching the
/// cited parent digests, in citation order; `accepted_digest` is the digest of
/// the header already accepted from the same author and round, if any.
pub fn validate_header(
    com: &Committee,
    h: &Header,
    sig_ok: bool,
    expected_round: u64,
    resolved_parents: &Vec<Certificate>,
    accepted_digest: Option<u64>,
) -> (r: Result<(), DagError>)
    requires
        com.wf(),
        expected_round >= 1,
        forall|i: int| 0 <= i < resolved_parents@.len()
            ==> ((#[trigger] resolved_parents@[i]).author as int) < com.stakes@.len(),
        forall|i: int, j: int| 0 <= i < j < resolved_parents@.len()
            ==> resolved_parents@[i].author != resolved_parents@[j].author,
    ensures
        r is Ok <==> {
            &&& (h.author as int) < com.stakes@.len()
            &&& sig_ok
            &&& h.round == expected_round
            &&& strictly_increasing(h.parents@)
            &&& parents_resolved(*h, resolved_parents@)
            &&& cited_stake(com.stakes@, resolved_parents@) >= com.quorum
            &&& accepted_digest is None
        },
        r is Err ==> r->Err_0 == (if h.author as int >= com.stakes@.len() {
            DagError::UnknownValidator
        } else if !sig_ok {
            DagError::InvalidSignature
        } else if h.round != expected_round {
            DagError::InvalidRound
        } else if !strictly_increasing(h.parents@) {
            DagError::Malformed
        } else if !parents_resolved(*h, resolved_parents@) {
            DagError::MissingParents
        } else if cited_stake(com.stakes@, resolved_parents@) < com.quorum {
            DagError::InsufficientParents
        } else if accepted_digest == Some(h.digest) {
            DagError::AlreadyProcessed
        } else {
            DagError::Equivocation
        }),
{
    if h.author >= com.size() {
        return Err(DagError::UnknownValidator);
    }
    if !sig_ok {
        return Err(DagError::InvalidSignature);
    }
    if h.round != expected_round {
        return Err(DagError::InvalidRound);
    }
    if !check_strictly_increasing(&h.parents) {
        return Err(DagError::Malformed);
    }
    if !check_parents_resolved(h, resolved_parents) {
        return Err(DagError::MissingParents);
    }
    let stake = resolved_stake(com, resolved_parents);
    if stake < com.quorum {
        return Err(DagError::InsufficientParents);
    }
    match accepted_digest {
        Some(d) => {
            if d == h.digest {
                Err(DagError::AlreadyProcessed)
            } else {
                Err(DagError::Equivocation)
            }
        },
        None => Ok(()),
    }
}

/// Checks that `resolved` matches the header's parent citations one for one.
fn check_parents_resolved(h: &Header, resolved: &Vec<Certificate>) -> (r: bool)
    ensures
        r == parents_resolved(*h, resolved@),
{
    if resolved.len() != h.parents.len() {
        return false;
    }
    if h.round == 0 {
        // No certificate can sit at a round before genesis.
        proof {
            if resolved@.len() > 0 {
                assert(resolved@[0].round + 1 != h.round);
            }
        }
        return resolved.len() == 0;
    }
    let n = resolved.len();
    let mut i: usize = 0;
    while i < n
        invariant
            n == resolved@.len(),
            n == h.parents@.len(),
            h.round >= 1,
            0 <= i <= n,
            forall|k: int| 0 <= k < i ==> {
                &&& (#[trigger] resolved@[k]).digest == h.parents@[k]
                &&& resolved@[k].round + 1 == h.round
            },
        decreases n - i,
    {
        if resolved[i].digest != h.parents[i] || resolved[i].round != h.round - 1 {
            return false;
        }
        i += 1;
    }
    true
}

/// Combined stake of the authors of the resolved parents. Saturates instead of
/// overflowing; the saturation point is above any quorum threshold, so quorum
/// comparisons are exact.
fn resolved_stake(com: &Committee, resolved: &Vec<Certificate>) -> (s: u64)
    requires
        com.wf(),
        forall|i: int| 0 <= i < resolved@.len()
            ==> ((#[trigger] resolved@[i]).author as int) < com.stakes@.len(),
    ensures
        s >= com.quorum <==> cited_stake(com.stakes@, resolved@) >= com.quorum,
{
    let n = resolved.len();
    let mut acc: u64 = 0;
    let mut i: usize = 0;
    while i < n
        invariant
            com.wf(),
            n == resolved@.len(),
            forall|k: int| 0 <= k < n
                ==> ((#[trigger] resolved@[k]).author as int) < com.stakes@.len(),
            0 <= i <= n,
            acc <= cited_stake(com.stakes@, resolved@.take(i as int)),
            acc < u64::MAX ==> acc == cited_stake(com.stakes@, resolved@.take(i as int)),
        decreases n - i,
    {
        proof {
            assert(resolved@.take(i + 1).drop_last() =~= resolved@.take(i as int));
            assert(resolved@.take(i + 1).last() == resolved@[i as int]);
        }
        acc = acc.saturating_add(com.stake_of(resolved[i].author));
        i += 1;
    }
    proof {
        assert(resolved@.take(n as int) =~= resolved@);
        if acc == u64::MAX {
            assert(cited_stake(com.stakes@, resolved@) >= acc);
        }
    }
    acc
}

/// Aggregates votes on this author's own header; at quorum, forms the
/// certificate.
pub struct VotesAggregator {
    /// Who has voted, and their combined stake.
    pub agg: StakeAggregator,
}

impl VotesAggregator {
    pub open spec fn wf(&self, com: Committee) -> bool {
        self.agg.wf(com)
    }

    pub fn new(com: &Committee) -> (r: VotesAggregator)
        requires
            com.wf(),
        ensures
            r.wf(*com),
            r.agg.stake == 0,
            forall|i: int| 0 <= i < r.agg.flags@.len() ==> !r.agg.flags@[i],
    {
        VotesAggregator { agg: StakeAggregator::new(com) }
    }

    /// Counts one vote on `header`. Returns the formed certificate exactly
    /// when the counted stake first reaches the quorum threshold: with less
    /// stake no certificate forms, and a duplicate vote never adds stake.
    ///
    /// `sig_ok` is the verdict of the signature check at the edge.
    pub fn append(
        &mut self,
        com: &Committee,
        header: &Header,
        vote: &Vote,
        sig_ok: bool,
    ) -> (r: Result<Option<Certificate>, DagError>)
        requires
            old(self).wf(*com),
        ensures
            final(self).wf(*com),
            r is Err ==> *final(self) == *old(self),
            r is Err ==> r->Err_0 == (if vote.voter as int >= com.stakes@.len() {
                DagError::UnknownValidator
            } else if !sig_ok {
                DagError::InvalidSignature
            } else if !(vote.header_digest == header.digest && vote.round == header.round
                && vote.origin == header.author) {
                DagError::Malformed
            } else {
                DagError::AlreadyProcessed
            }),
            r is Ok <==> {
                &&& (vote.voter as int) < com.stakes@.len()
                &&& sig_ok
                &&& vote.header_digest == header.digest
                &&& vote.round == header.round
                &&& vote.origin == header.author
                &&& !old(self).agg.flags@[vote.voter as int]
            },
            r is Ok ==> {
                &&& final(self).agg.stake == old(self).agg.stake
                    + com.stakes@[vote.voter as int]
                &&& final(self).agg.flags@ == old(self).agg.flags@.update(
                    vote.voter as int, true)
            },
            r is Ok ==> ((r->Ok_0 is Some) <==> (old(self).agg.stake < com.quorum
                && final(self).agg.stake >= com.quorum)),
            r matches Ok(Some(c)) ==> {
                &&& c.author == header.author
                &&& c.round == header.round
                &&& c.digest == header.digest
                &&& c.parents@ == header.parents@
                &&& c.voters@ == final(self).agg.flags@
                &&& flag_stake(com.stakes@, c.voters@) >= com.quorum
            },
    {
        if vote.voter >= com.size() {
            return Err(DagError::UnknownValidator);
        }
        if !sig_ok {
            return Err(DagError::InvalidSignature);
        }
        if !(vote.header_digest == header.digest && vote.round == header.round
            && vote.origin == header.author) {
            return Err(DagError::Malformed);
        }
        let before = self.agg.stake;
        let fresh = self.agg.add(com, vote.voter);
        if !fresh {
            return Err(DagError::AlreadyProcessed);
        }
        if before < com.quorum && self.agg.stake >= com.quorum {
            let parents = copy_digests(&header.parents);
            let voters = copy_flags(&self.agg.flags);
            Ok(Some(Certificate {
                author: header.author,
                round: header.round,
                digest: header.digest,
                parents,
                voters,
            }))
        } else {
            Ok(None)
        }
    }
}

/// Copies a validator indicator element by element.
pub fn copy_flags(v: &Vec<bool>) -> (r: Vec<bool>)
    ensures
        r@ == v@,
{
    let n = v.len();
    let mut r: Vec<bool> = Vec::new();
    let mut i: usize = 0;
    while i < n
        invariant
            n == v@.len(),
            0 <= i <= n,
            r@ == v@.take(i as int),
        decreases n - i,
    {
        proof {
            assert(v@.take(i + 1) =~= v@.take(i as int).push(v@[i as int]));
        }
        r.push(v[i]);
        i += 1;
    }
    proof {
        assert(v@.take(n as int) =~= v@);
    }
    r
}

} // verus!

verus! {

/// Upper bound on certificates buffered for rounds ahead of the current
/// parent collection; beyond it a far-future certificate is refused, so a
/// peer racing ahead cannot grow this node's memory without bound.
pub const FUTURE_BUFFER_LIMIT: usize = 1024;

/// The primary's per-round certification state machine. For its own round it
/// moves through: collecting a quorum of previous-round certificates,
/// proposing a header citing them, gathering votes, and — once a quorum of
/// stake has voted — forming the certificate and advancing to the next round.
/// Headers from peers are validated and voted on at most once per author and
/// round; a re-broadcast never signs different content for the same round.
pub struct PrimaryCore {
    pub committee: Committee,
    /// This node's validator index.
    pub author: usize,
    /// The round of the header this node currently certifies.
    pub round: u64,
    /// Certificates of round `round - 1` collected as parent candidates.
    pub parents: ParentsAggregator,
    /// The header proposed for `round`, once the parent quorum was reached.
    pub current_header: Option<Header>,
    /// Votes gathered on `current_header`.
    pub votes: VotesAggregator,
    /// Per peer author, the digest of the header already voted this round.
    pub voted: Vec<Option<u64>>,
    /// Certificates from rounds ahead of the current parent collection,
    /// buffered until their round comes up.
    pub future: Vec<Certificate>,
}

impl PrimaryCore {
    pub open spec fn wf(&self) -> bool {
        &&& self.committee.wf()
        &&& (self.author as int) < self.committee.stakes@.len()
        &&& self.round >= 1
        &&& self.parents.wf(self.committee)
        &&& self.parents.round + 1 == self.round
        &&& self.votes.wf(self.committee)
        &&& self.voted@.len() == self.committee.stakes@.len()
        &&& self.current_header matches Some(h) ==> {
            &&& h.author == self.author
            &&& h.round == self.round
        }
        &&& forall|k: int| 0 <= k < self.future@.len()
            ==> ((#[trigger] self.future@[k]).author as int) < self.committee.stakes@.len()
    }

    /// A fresh primary at round 1; the genesis certificates stand in as the
    /// round-0 parent quorum.
    pub fn new(committee: Committee, author: usize, genesis_certs: &Vec<Certificate>) -> (r:
        PrimaryCore)
        requires
            committee.wf(),
            (author as int) < committee.stakes@.len(),
            genesis_certs@.len() == committee.stakes@.len(),
            forall|a: int| 0 <= a < genesis_certs@.len() ==> {
                &&& (#[trigger] genesis_certs@[a]).author == a
                &&& genesis_certs@[a].round == 0
                &&& genesis_certs@[a].digest == a
            },
        ensures
            r.wf(),
            r.author == author,
            r.round == 1,
            r.current_header is None,
            r.parents.agg.stake == sum_stakes(committee.stakes@),
    {
        let n = committee.size();
        let mut parents = ParentsAggregator::new(&committee, 0);
        let mut a: usize = 0;
        while a < n
            invariant
                committee.wf(),
                n == committee.stakes@.len(),
                genesis_certs@.len() == n,
                forall|k: int| 0 <= k < n ==> {
                    &&& (#[trigger] genesis_certs@[k]).author == k
                    &&& genesis_certs@[k].round == 0
                    &&& genesis_certs@[k].digest == k
                },
                0 <= a <= n,
                parents.wf(committee),
                parents.round == 0,
                parents.agg.stake == sum_stakes(committee.stakes@.take(a as int)),
                forall|k: int| 0 <= k < n
                    ==> parents.agg.flags@[k] == (k < a),
                forall|d: u64| parents.parents@.contains(d) ==> d < a,
            decreases n - a,
        {
            proof {
                crate::config::lemma_sum_stakes_take_succ(committee.stakes@, a as int);
            }
            let res = parents.append(&committee, &genesis_certs[a]);
            proof {
                assert(res is Ok);
            }
            a += 1;
        }
        proof {
            assert(committee.stakes@.take(n as int) =~= committee.stakes@);
        }
        let votes = VotesAggregator::new(&committee);
        let mut voted: Vec<Option<u64>> = Vec::new();
        let mut v: usize = 0;
        while v < n
            invariant
                0 <= v <= n,
                voted@.len() == v,
            decreases n - v,
        {
            voted.push(None);
            v += 1;
        }
        PrimaryCore {
            committee,
            author,
            round: 1,
            parents,
            current_header: None,
            votes,
            voted,
            future: Vec::new(),
        }
    }

    /// Proposes this round's header once the parent quorum is in, citing the
    /// collected parents and the pending batch references; the digest comes
    /// from the hashing edge. Returns nothing while parents are short of a
    /// quorum or a header is already out — the latter keeps a re-broadcast
    /// identical to the original proposal.
    pub fn try_propose(
        &mut self,
        created_at: u64,
        payload: Vec<BatchRef>,
        digest: u64,
    ) -> (r: Option<Header>)
        requires
            old(self).wf(),
        ensures
            final(self).wf(),
            final(self).round == old(self).round,
            r is Some <==> old(self).current_header is None
                && old(self).parents.agg.stake >= old(self).committee.quorum,
            r matches Some(h) ==> {
                &&& h.author == old(self).author
                &&& h.round == old(self).round
                &&& h.parents@ == old(self).parents.parents@
                &&& h.payload@ == payload@
                &&& h.digest == digest
                &&& final(self).current_header matches Some(own)
                    && own.digest == h.digest && own.round == h.round
                    && own.author == h.author && own.parents@ == h.parents@
            },
            r is None ==> *final(self) == *old(self),
    {
        match &self.current_header {
            Some(_) => None,
            None => {
                if !self.parents.has_quorum(&self.committee) {
                    return None;
                }
                let h = propose_header(
                    &self.committee,
                    self.author,
                    self.round,
                    created_at,
                    &self.parents,
                    payload,
                    digest,
                );
                let own = Header {
                    author: h.author,
                    round: h.round,
                    created_at: h.created_at,
                    parents: copy_digests(&h.parents),
                    payload: Vec::new(),
                    digest: h.digest,
                };
                self.current_header = Some(own);
                Some(h)
            },
        }
    }

    /// Validates a peer's header and grants a vote: the first valid header
    /// per author and round wins, a redelivery is dropped idempotently, and a
    /// conflicting second header is equivocation.
    pub fn on_peer_header(
        &mut self,
        h: &Header,
        sig_ok: bool,
        resolved_parents: &Vec<Certificate>,
    ) -> (r: Result<Vote, DagError>)
        requires
            old(self).wf(),
            forall|i: int| 0 <= i < resolved_parents@.len()
                ==> ((#[trigger] resolved_parents@[i]).author as int)
                    < old(self).committee.stakes@.len(),
            forall|i: int, j: int| 0 <= i < j < resolved_parents@.len()
                ==> resolved_parents@[i].author != resolved_parents@[j].author,
        ensures
            final(self).wf(),
            final(self).round == old(self).round,
            r is Err ==> *final(self) == *old(self),
            r is Ok <==> {
                &&& (h.author as int) < old(self).committee.stakes@.len()
                &&& sig_ok
                &&& h.round == old(self).round
                &&& strictly_increasing(h.parents@)
                &&& parents_resolved(*h, resolved_parents@)
                &&& cited_stake(old(self).committee.stakes@, resolved_parents@)
                    >= old(self).committee.quorum
                &&& old(self).voted@[h.author as int] is None
            },
            r is Err ==> r->Err_0 == (if h.author as int
                >= old(self).committee.stakes@.len() {
                DagError::UnknownValidator
            } else if !sig_ok {
                DagError::InvalidSignature
            } else if h.round != old(self).round {
                DagError::InvalidRound
            } else if !strictly_increasing(h.parents@) {
                DagError::Malformed
            } else if !parents_resolved(*h, resolved_parents@) {
                DagError::MissingParents
            } else if cited_stake(old(self).committee.stakes@, resolved_parents@)
                < old(self).committee.quorum {
                DagError::InsufficientParents
            } else if old(self).voted@[h.author as int] == Some(h.digest) {
                DagError::AlreadyProcessed
            } else {
                DagError::Equivocation
            }),
            r matches Ok(v) ==> {
                &&& v.header_digest == h.digest
                &&& v.round == h.round
                &&& v.origin == h.author
                &&& v.voter == old(self).author
                &&& final(self).voted@ == old(self).voted@.update(
                    h.author as int, Some(h.digest))
            },
    {
        let accepted = if h.author < self.committee.size() {
            self.voted[h.author]
        } else {
            None
        };
        match validate_header(&self.committee, h, sig_ok, self.round, resolved_parents, accepted) {
            Err(e) => Err(e),
            Ok(()) => {
                self.voted.set(h.author, Some(h.digest));
                Ok(Vote {
                    header_digest: h.digest,
                    round: h.round,
                    origin: h.author,
                    voter: self.author,
                })
            },
        }
    }

    /// Counts a vote on this node's own header; at a quorum of stake the
    /// certificate forms and the primary advances to the next round, with a
    /// fresh parent collection for the round just certified.
    pub fn on_vote(&mut self, vote: &Vote, sig_ok: bool) -> (r: Result<
        Option<Certificate>,
        DagError,
    >)
        requires
            old(self).wf(),
            old(self).round < u64::MAX,
        ensures
            final(self).wf(),
            r is Ok <==> {
                &&& old(self).current_header is Some
                &&& (vote.voter as int) < old(self).committee.stakes@.len()
                &&& sig_ok
                &&& vote.header_digest == old(self).current_header->Some_0.digest
                &&& vote.round == old(self).current_header->Some_0.round
                &&& vote.origin == old(self).current_header->Some_0.author
                &&& !old(self).votes.agg.flags@[vote.voter as int]
            },
            r is Err ==> *final(self) == *old(self),
            r is Err ==> r->Err_0 == (if old(self).current_header is None {
                DagError::Malformed
            } else if vote.voter as int >= old(self).committee.stakes@.len() {
                DagError::UnknownValidator
            } else if !sig_ok {
                DagError::InvalidSignature
            } else if !(vote.header_digest == old(self).current_header->Some_0.digest
                && vote.round == old(self).current_header->Some_0.round
                && vote.origin == old(self).current_header->Some_0.author) {
                DagError::Malformed
            } else {
                DagError::AlreadyProcessed
            }),
            r is Ok ==> ((r->Ok_0 is Some) <==> (old(self).votes.agg.stake
                < old(self).committee.quorum
                && old(self).votes.agg.stake
                    + old(self).committee.stakes@[vote.voter as int]
                    >= old(self).committee.quorum)),
            r matches Ok(None) ==> {
                &&& final(self).round == old(self).round
                &&& final(self).current_header == old(self).current_header
                &&& final(self).parents == old(self).parents
                &&& final(self).voted@ == old(self).voted@
                &&& final(self).future@ == old(self).future@
                &&& final(self).votes.agg.stake == old(self).votes.agg.stake
                    + old(self).committee.stakes@[vote.voter as int]
                &&& final(self).votes.agg.flags@ == old(self).votes.agg.flags@.update(
                    vote.voter as int, true)
            },
            r matches Ok(Some(c)) ==> {
                &&& c.round == old(self).round
                &&& c.author == old(self).author
                &&& c.digest == old(self).current_header->Some_0.digest
                &&& c.parents@ == old(self).current_header->Some_0.parents@
                &&& c.voters@ == old(self).votes.agg.flags@.update(vote.voter as int, true)
                &&& flag_stake(old(self).committee.stakes@, c.voters@)
                    >= old(self).committee.quorum
                &&& final(self).round == old(self).round + 1
                &&& final(self).current_header is None
                &&& final(self).votes.agg.stake == 0
            },
    {
        let header = match &self.current_header {
            Some(h) => h,
            None => {
                return Err(DagError::Malformed);
            },
        };
        let res = self.votes.append(&self.committee, header, vote, sig_ok);
        match res {
            Err(e) => Err(e),
            Ok(None) => Ok(None),
            Ok(Some(c)) => {
                // Certified: advance to the next round.
                self.round = self.round + 1;
                self.parents = ParentsAggregator::new(&self.committee, self.round - 1);
                self.votes = VotesAggregator::new(&self.committee);
                self.current_header = None;
                let n = self.committee.size();
                let mut voted: Vec<Option<u64>> = Vec::new();
                let mut v: usize = 0;
                while v < n
                    invariant
                        0 <= v <= n,
                        voted@.len() == v,
                    decreases n - v,
                {
                    voted.push(None);
                    v += 1;
                }
                self.voted = voted;
                // Certificates that arrived early for the new parent round
                // are counted now.
                self.replay_buffered();
                Ok(Some(c))
            },
        }
    }

    /// Collects a peer certificate as a parent candidate: one for the current
    /// collection round is counted, one from a later round is buffered until
    /// its round comes up, and one from an earlier round is stale.
    pub fn on_certificate(&mut self, cert: &Certificate) -> (r: Result<(), DagError>)
        requires
            old(self).wf(),
            (cert.author as int) < old(self).committee.stakes@.len(),
        ensures
            final(self).wf(),
            final(self).round == old(self).round,
            r is Err ==> *final(self) == *old(self),
            r is Ok <==> (cert.round > old(self).parents.round
                    && old(self).future@.len() < FUTURE_BUFFER_LIMIT)
                || (cert.round == old(self).parents.round
                    && !old(self).parents.parents@.contains(cert.digest)
                    && !old(self).parents.agg.flags@[cert.author as int]),
            r is Err ==> r->Err_0 == (if cert.round != old(self).parents.round {
                DagError::InvalidRound
            } else if old(self).parents.parents@.contains(cert.digest) {
                DagError::AlreadyProcessed
            } else {
                DagError::Equivocation
            }),
            r is Ok && cert.round == old(self).parents.round ==> {
                &&& final(self).parents.agg.stake == old(self).parents.agg.stake
                    + old(self).committee.stakes@[cert.author as int]
                &&& final(self).parents.parents@.contains(cert.digest)
                &&& final(self).parents.agg.flags@ == old(self).parents.agg.flags@.update(
                    cert.author as int, true)
                &&& final(self).future@ == old(self).future@
            },
            r is Ok && cert.round > old(self).parents.round ==> {
                &&& final(self).future@.len() == old(self).future@.len() + 1
                &&& crate::consensus::cert_eqv(
                    final(self).future@[old(self).future@.len() as int], *cert)
                &&& forall|j: int| 0 <= j < old(self).future@.len()
                    ==> final(self).future@[j] == old(self).future@[j]
                &&& final(self).parents == old(self).parents
            },
    {
        if cert.round < self.parents.round {
            return Err(DagError::InvalidRound);
        }
        if cert.round > self.parents.round {
            if self.future.len() >= FUTURE_BUFFER_LIMIT {
                return Err(DagError::InvalidRound);
            }
            let copy = crate::consensus::copy_certificate(cert);
            self.future.push(copy);
            return Ok(());
        }
        self.parents.append(&self.committee, cert)
    }

    /// After advancing to a new round, re-plays buffered certificates that
    /// now belong to the current parent collection round; later ones stay
    /// buffered.
    pub fn replay_buffered(&mut self)
        requires
            old(self).wf(),
        ensures
            final(self).wf(),
            final(self).round == old(self).round,
            final(self).current_header == old(self).current_header,
            final(self).committee == old(self).committee,
            final(self).author == old(self).author,
            final(self).votes == old(self).votes,
            final(self).voted@ == old(self).voted@,
            final(self).parents.round == old(self).parents.round,
            forall|k: int| 0 <= k < final(self).future@.len()
                ==> (#[trigger] final(self).future@[k]).round > final(self).parents.round,
            forall|k: int| 0 <= k < old(self).future@.len()
                && (#[trigger] old(self).future@[k]).round == old(self).parents.round
                ==> final(self).parents.parents@.contains(old(self).future@[k].digest)
                    || final(self).parents.agg.flags@[old(self).future@[k].author as int],
            forall|k: int| 0 <= k < old(self).future@.len()
                && (#[trigger] old(self).future@[k]).round > old(self).parents.round
                ==> exists|j: int| 0 <= j < final(self).future@.len()
                    && (#[trigger] final(self).future@[j]).digest
                        == old(self).future@[k].digest
                    && final(self).future@[j].round == old(self).future@[k].round
                    && final(self).future@[j].author == old(self).future@[k].author,
    {
        let mut held: Vec<Certificate> = Vec::new();
        core::mem::swap(&mut self.future, &mut held);
        let n = held.len();
        let mut k: usize = 0;
        while k < n
            invariant
                self.wf(),
                self.round == old(self).round,
                self.current_header == old(self).current_header,
                self.committee == old(self).committee,
                self.author == old(self).author,
                self.votes == old(self).votes,
                self.voted@ == old(self).voted@,
                self.parents.round == old(self).parents.round,
                n == held@.len(),
                held@ == old(self).future@,
                0 <= k <= n,
                forall|j: int| 0 <= j < held@.len()
                    ==> ((#[trigger] held@[j]).author as int) < self.committee.stakes@.len(),
                forall|j: int| 0 <= j < self.future@.len()
                    ==> (#[trigger] self.future@[j]).round > self.parents.round,
                forall|j: int| 0 <= j < k && (#[trigger] held@[j]).round == self.parents.round
                    ==> self.parents.parents@.contains(held@[j].digest)
                        || self.parents.agg.flags@[held@[j].author as int],
                forall|j: int| 0 <= j < k && (#[trigger] held@[j]).round > self.parents.round
                    ==> exists|j2: int| 0 <= j2 < self.future@.len()
                        && (#[trigger] self.future@[j2]).digest == held@[j].digest
                        && self.future@[j2].round == held@[j].round
                        && self.future@[j2].author == held@[j].author,
            decreases n - k,
        {
            let c = copy_certificate_for_replay(&held, k);
            let ghost before = *self;
            if c.round == self.parents.round {
                let res = self.parents.append(&self.committee, &c);
                proof {
                    // This certificate is now cited or its author counted,
                    // and earlier accounting is preserved: citations and
                    // counted authors only grow.
                    if res is Err {
                        assert(self.parents.parents@.contains(c.digest)
                            || self.parents.agg.flags@[c.author as int]);
                    }
                    assert forall|j: int| 0 <= j < k + 1
                        && (#[trigger] held@[j]).round == self.parents.round
                        implies self.parents.parents@.contains(held@[j].digest)
                            || self.parents.agg.flags@[held@[j].author as int] by {
                        if j < k {
                            if before.parents.parents@.contains(held@[j].digest) {
                                assert(self.parents.parents@.contains(held@[j].digest));
                            } else {
                                assert(before.parents.agg.flags@[held@[j].author as int]);
                                if res is Ok {
                                    assert(self.parents.agg.flags@
                                        == before.parents.agg.flags@.update(
                                            c.author as int, true));
                                }
                            }
                        }
                    };
                }
            } else if c.round > self.parents.round {
                let ghost fut0 = self.future@;
                self.future.push(c);
                proof {
                    assert forall|j: int| 0 <= j < k + 1
                        && (#[trigger] held@[j]).round > self.parents.round
                        implies exists|j2: int| 0 <= j2 < self.future@.len()
                            && (#[trigger] self.future@[j2]).digest == held@[j].digest
                            && self.future@[j2].round == held@[j].round
                            && self.future@[j2].author == held@[j].author by {
                        if j < k {
                            let w = choose|w: int| 0 <= w < fut0.len()
                                && (#[trigger] fut0[w]).digest == held@[j].digest
                                && fut0[w].round == held@[j].round
                                && fut0[w].author == held@[j].author;
                            assert(self.future@[w] == fut0[w]);
                        } else {
                            assert(self.future@[fut0.len() as int].digest == held@[j].digest);
                        }
                    };
                }
            }
            k += 1;
        }
    }

    /// Applies the garbage-collection watermark the consensus engine feeds
    /// back: buffered certificates at or below it can never be collected any
    /// more and are discarded; everything above it is retained.
    pub fn prune(&mut self, watermark: u64)
        requires
            old(self).wf(),
        ensures
            final(self).wf(),
            final(self).round == old(self).round,
            final(self).parents == old(self).parents,
            final(self).current_header == old(self).current_header,
            final(self).votes == old(self).votes,
            final(self).voted@ == old(self).voted@,
            forall|k: int| 0 <= k < final(self).future@.len()
                ==> (#[trigger] final(self).future@[k]).round > watermark,
            forall|k: int| 0 <= k < old(self).future@.len()
                && (#[trigger] old(self).future@[k]).round > watermark
                ==> exists|j: int| 0 <= j < final(self).future@.len()
                    && (#[trigger] final(self).future@[j]).digest
                        == old(self).future@[k].digest
                    && final(self).future@[j].round == old(self).future@[k].round
                    && final(self).future@[j].author == old(self).future@[k].author,
    {
        let mut kept: Vec<Certificate> = Vec::new();
        let len = self.future.len();
        let mut k: usize = 0;
        while k < len
            invariant
                self.wf(),
                len == self.future@.len(),
                self.future@ == old(self).future@,
                *self == *old(self),
                0 <= k <= len,
                forall|j: int| 0 <= j < kept@.len() ==> {
                    &&& ((#[trigger] kept@[j]).author as int) < self.committee.stakes@.len()
                    &&& kept@[j].round > watermark
                },
                forall|j: int| 0 <= j < k
                    && (#[trigger] self.future@[j]).round > watermark
                    ==> exists|j2: int| 0 <= j2 < kept@.len()
                        && (#[trigger] kept@[j2]).digest == self.future@[j].digest
                        && kept@[j2].round == self.future@[j].round
                        && kept@[j2].author == self.future@[j].author,
            decreases len - k,
        {
            if self.future[k].round > watermark {
                let ghost kept0 = kept@;
                let c = copy_certificate_for_replay(&self.future, k);
                kept.push(c);
                proof {
                    assert forall|j: int| 0 <= j < k + 1
                        && (#[trigger] self.future@[j]).round > watermark
                        implies exists|j2: int| 0 <= j2 < kept@.len()
                            && (#[trigger] kept@[j2]).digest == self.future@[j].digest
                            && kept@[j2].round == self.future@[j].round
                            && kept@[j2].author == self.future@[j].author by {
                        if j < k {
                            let w = choose|w: int| 0 <= w < kept0.len()
                                && (#[trigger] kept0[w]).digest == self.future@[j].digest
                                && kept0[w].round == self.future@[j].round
                                && kept0[w].author == self.future@[j].author;
                            assert(kept@[w] == kept0[w]);
                        } else {
                            assert(kept@[kept0.len() as int].digest
                                == self.future@[j].digest);
                        }
                    };
                }
            }
            k += 1;
        }
        let ghost kept_final = kept@;
        self.future = kept;
        proof {
            assert forall|k2: int| 0 <= k2 < old(self).future@.len()
                && (#[trigger] old(self).future@[k2]).round > watermark
                implies exists|j: int| 0 <= j < self.future@.len()
                    && (#[trigger] self.future@[j]).digest == old(self).future@[k2].digest
                    && self.future@[j].round == old(self).future@[k2].round
                    && self.future@[j].author == old(self).future@[k2].author by {
                let w = choose|w: int| 0 <= w < kept_final.len()
                    && (#[trigger] kept_final[w]).digest == old(self).future@[k2].digest
                    && kept_final[w].round == old(self).future@[k2].round
                    && kept_final[w].author == old(self).future@[k2].author;
                assert(self.future@[w] == kept_final[w]);
            };
        }
    }
}

/// Copies the `k`-th buffered certificate.
fn copy_certificate_for_replay(v: &Vec<Certificate>, k: usize) -> (r: Certificate)
    requires
        k < v@.len(),
    ensures
        r.author == v@[k as int].author,
        r.round == v@[k as int].round,
        r.digest == v@[k as int].digest,
        r.parents@ == v@[k as int].parents@,
{
    crate::consensus::copy_certificate(&v[k])
}

} // verus!
