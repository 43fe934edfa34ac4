//! Protocol messages and their validity rules.
//!
//! A content digest is an opaque 64-bit identifier computed by the hashing
//! layer at the edge; the logic here treats equal digests as naming the same
//! content (digest-based deduplication). Signatures are likewise checked at
//! the edge: validation entry points receive the verdict of that check as a
//! plain boolean.

use vstd::prelude::*;
use crate::config::{Committee, flag_stake};

verus! {

/// Reference to a worker batch carried in a header.
#[derive(Clone, Copy, Debug, PartialEq, Eq, Structural)]
pub struct BatchRef {
    /// Worker that produced and disseminated the batch.
    pub worker: u32,
    /// Content digest of the serialized batch.
    pub digest: u64,
    /// Size of the serialized batch in bytes.
    pub size: u64,
}

/// A validator's per-round proposal: a quorum of parent certificates from the
/// previous round plus the batches it vouches for.
#[derive(Clone, Debug, PartialEq, Eq)]
pub struct Header {
    /// Index of the proposing validator in the committee.
    pub author: usize,
    /// Round the header belongs to.
    pub round: u64,
    /// Creation time in milliseconds, as stamped by the proposer.
    pub created_at: u64,
    /// Digests of cited round `round - 1` certificates, strictly increasing.
    pub parents: Vec<u64>,
    /// Batches the proposer vouches for.
    pub payload: Vec<BatchRef>,
    /// Content digest of this header.
    pub digest: u64,
}

/// An endorsement of one header by one validator.
#[derive(Clone, Copy, Debug, PartialEq, Eq, Structural)]
pub struct Vote {
    /// Digest of the endorsed header.
    pub header_digest: u64,
    /// Round of the endorsed header.
    pub round: u64,
    /// Author of the endorsed header.
    pub origin: usize,
    /// The endorsing validator.
    pub voter: usize,
}

/// A header together with proof that a quorum of stake endorsed it.
#[derive(Clone, Debug, PartialEq, Eq)]
pub struct Certificate {
    /// Author of the certified header.
    pub author: usize,
    /// Round of the certified header.
    pub round: u64,
    /// Digest of the certified header; also the certificate's identity.
    pub digest: u64,
    /// Digests of cited round `round - 1` certificates, strictly increasing.
    pub parents: Vec<u64>,
    /// Indicator over the committee of who endorsed the header.
    pub voters: Vec<bool>,
}

/// Why a message was rejected. Rejections drop the message locally; none is
/// fatal, since Byzantine input must not crash a correct node.
#[derive(Clone, Copy, Debug, PartialEq, Eq, Structural)]
pub enum DagError {
    /// The author or a voter is not a committee member.
    UnknownValidator,
    /// The signature-verification edge rejected the message.
    InvalidSignature,
    /// Voter indicator of the wrong arity, or a non-canonical parent list.
    Malformed,
    /// Endorsement stake below the quorum threshold.
    InsufficientQuorum,
    /// Cited parents hold less than quorum stake.
    InsufficientParents,
    /// A cited parent is not locally certified.
    MissingParents,
    /// Round outside what the receiver currently accepts.
    InvalidRound,
    /// A conflicting item was already accepted for this author and round.
    Equivocation,
    /// The digest was already processed; the redelivery is dropped.
    AlreadyProcessed,
}

/// No digest is cited twice, and the list is in canonical order.
pub open spec fn strictly_increasing(s: Seq<u64>) -> bool {
    forall|i: int, j: int| 0 <= i < j < s.len() ==> s[i] < s[j]
}

proof fn lemma_adjacent_implies_increasing(s: Seq<u64>, i: int, j: int)
    requires
        forall|k: int| 0 <= k < s.len() - 1 ==> #[trigger] s[k] < s[k + 1],
        0 <= i < j < s.len(),
    ensures
        s[i] < s[j],
    decreases j - i,
{
    if i + 1 < j {
        lemma_adjacent_implies_increasing(s, i + 1, j);
    }
}

/// Checks that a digest list is strictly increasing.
pub fn check_strictly_increasing(s: &Vec<u64>) -> (r: bool)
    ensures
        r == strictly_increasing(s@),
{
    let n = s.len();
    if n == 0 {
        return true;
    }
    let mut i: usize = 0;
    while i < n - 1
        invariant
            n == s@.len(),
            1 <= n,
            0 <= i <= n - 1,
            forall|k: int| 0 <= k < i ==> #[trigger] s@[k] < s@[k + 1],
        decreases n - i,
    {
        if s[i] >= s[i + 1] {
            return false;
        }
        i += 1;
    }
    proof {
        assert forall|a: int, b: int| 0 <= a < b < s@.len() implies s@[a] < s@[b] by {
            lemma_adjacent_implies_increasing(s@, a, b);
        };
    }
    true
}

/// Structural validity of a certificate against a committee: a known author,
/// a non-genesis round, a canonical parent list, and endorsements worth at
/// least a quorum of stake.
pub open spec fn cert_valid(com: Committee, c: Certificate) -> bool {
    &&& (c.author as int) < com.stakes@.len()
    &&& c.round >= 1
    &&& c.voters@.len() == com.stakes@.len()
    &&& flag_stake(com.stakes@, c.voters@) >= com.quorum
    &&& strictly_increasing(c.parents@)
}

/// Validates a certificate's structure and endorsement quorum. The parent
/// quorum is checked separately, where the cited certificates can be resolved.
pub fn check_certificate(com: &Committee, c: &Certificate) -> (r: Result<(), DagError>)
    requires
        com.wf(),
    ensures
        r is Ok <==> cert_valid(*com, *c),
        r is Err ==> r->Err_0 == (if c.author as int >= com.stakes@.len() {
            DagError::UnknownValidator
        } else if c.round < 1 {
            DagError::InvalidRound
        } else if c.voters@.len() != com.stakes@.len() || !strictly_increasing(c.parents@) {
            DagError::Malformed
        } else {
            DagError::InsufficientQuorum
        }),
{
    if c.author >= com.size() {
        return Err(DagError::UnknownValidator);
    }
    if c.round < 1 {
        return Err(DagError::InvalidRound);
    }
    if c.voters.len() != com.size() {
        return Err(DagError::Malformed);
    }
    if !check_strictly_increasing(&c.parents) {
        return Err(DagError::Malformed);
    }
    let stake = com.stake_of_flags(&c.voters);
    if stake < com.quorum {
        return Err(DagError::InsufficientQuorum);
    }
    Ok(())
}

/// The genesis certificates seeding round 0: one per validator, with the
/// validator's index as digest, no parents, and no endorsements needed.
pub fn genesis(com: &Committee) -> (g: Vec<Certificate>)
    requires
        com.wf(),
    ensures
        g@.len() == com.stakes@.len(),
        forall|a: int| 0 <= a < g@.len() ==> {
            &&& #[trigger] g@[a].author == a
            &&& g@[a].round == 0
            &&& g@[a].digest == a
            &&& g@[a].parents@.len() == 0
        },
{
    let n = com.size();
    let mut g: Vec<Certificate> = Vec::new();
    let mut a: usize = 0;
    while a < n
        invariant
            0 <= a <= n,
            g@.len() == a,
            forall|k: int| 0 <= k < a ==> {
                &&& #[trigger] g@[k].author == k
                &&& g@[k].round == 0
                &&& g@[k].digest == k
                &&& g@[k].parents@.len() == 0
            },
        decreases n - a,
    {
        g.push(Certificate {
            author: a,
            round: 0,
            digest: a as u64,
            parents: Vec::new(),
            voters: Vec::new(),
        });
        a += 1;
    }
    g
}

} // verus!
