//! The worker's side of the protocol: accumulating transactions into batches
//! once a size threshold is reached, and tracking peer acknowledgements of a
//! disseminated batch until a quorum of stake vouches for its availability.
//!
//! Transport, timers, and batch hashing live at the edge; the logic here
//! decides when a batch seals and when its digest may be handed to the
//! primary.

use vstd::prelude::*;
use crate::config::Committee;
use crate::primary::StakeAggregator;
use crate::types::DagError;

verus! {

/// Total payload bytes of a run of transactions.
pub open spec fn payload_bytes(s: Seq<Vec<u8>>) -> int
    decreases s.len(),
{
    if s.len() == 0 {
        0
    } else {
        payload_bytes(s.drop_last()) + s.last()@.len()
    }
}

/// Accumulates transactions and seals a batch once the buffered payload
/// reaches the size threshold.
pub struct BatchMaker {
    /// A batch seals once this many payload bytes have accumulated.
    pub size_limit: u64,
    /// The transactions buffered so far, in submission order.
    pub txs: Vec<Vec<u8>>,
    /// Total payload bytes buffered.
    pub bytes: u64,
}

impl BatchMaker {
    pub open spec fn wf(&self) -> bool {
        self.bytes == payload_bytes(self.txs@)
    }

    pub fn new(size_limit: u64) -> (r: BatchMaker)
        ensures
            r.wf(),
            r.size_limit == size_limit,
            r.txs@.len() == 0,
            r.bytes == 0,
    {
        BatchMaker { size_limit, txs: Vec::new(), bytes: 0 }
    }

    /// Buffers one transaction. Returns the sealed batch — every buffered
    /// transaction in submission order — exactly when the accumulated payload
    /// reaches the size threshold; under the threshold nothing is returned.
    pub fn submit(&mut self, tx: Vec<u8>) -> (r: Option<Vec<Vec<u8>>>)
        requires
            old(self).wf(),
        ensures
            final(self).wf(),
            final(self).size_limit == old(self).size_limit,
            r is Some <==> payload_bytes(old(self).txs@) + tx@.len()
                >= old(self).size_limit,
            r is Some ==> {
                &&& r->Some_0@ == old(self).txs@.push(tx)
                &&& final(self).txs@.len() == 0
                &&& final(self).bytes == 0
            },
            r is None ==> {
                &&& final(self).txs@ == old(self).txs@.push(tx)
                &&& final(self).bytes == old(self).bytes + tx@.len()
            },
    {
        let l = tx.len() as u64;
        proof {
            assert(self.txs@.push(tx).drop_last() =~= self.txs@);
        }
        match self.bytes.checked_add(l) {
            Some(t) => {
                self.txs.push(tx);
                self.bytes = t;
                if t >= self.size_limit {
                    let mut batch: Vec<Vec<u8>> = Vec::new();
                    core::mem::swap(&mut self.txs, &mut batch);
                    self.bytes = 0;
                    Some(batch)
                } else {
                    None
                }
            },
            None => {
                // The sum exceeds any representable threshold: seal.
                self.txs.push(tx);
                let mut batch: Vec<Vec<u8>> = Vec::new();
                core::mem::swap(&mut self.txs, &mut batch);
                self.bytes = 0;
                Some(batch)
            },
        }
    }

    /// Seals whatever is buffered, if anything: the timer-driven path.
    pub fn flush(&mut self) -> (r: Option<Vec<Vec<u8>>>)
        requires
            old(self).wf(),
        ensures
            final(self).wf(),
            final(self).size_limit == old(self).size_limit,
            r is Some <==> old(self).txs@.len() > 0,
            r is Some ==> r->Some_0@ == old(self).txs@,
            final(self).txs@.len() == 0,
            final(self).bytes == 0,
    {
        if self.txs.len() == 0 {
            return None;
        }
        let mut batch: Vec<Vec<u8>> = Vec::new();
        core::mem::swap(&mut self.txs, &mut batch);
        self.bytes = 0;
        Some(batch)
    }
}

/// Tracks which peers acknowledged storing a disseminated batch; once a
/// quorum of stake has, the batch is available and its digest may go to the
/// primary.
pub struct AckCollector {
    /// Digest of the batch being disseminated.
    pub digest: u64,
    /// Who acknowledged, and their combined stake.
    pub agg: StakeAggregator,
}

impl AckCollector {
    pub open spec fn wf(&self, com: Committee) -> bool {
        self.agg.wf(com)
    }

    pub fn new(com: &Committee, digest: u64) -> (r: AckCollector)
        requires
            com.wf(),
        ensures
            r.wf(*com),
            r.digest == digest,
            r.agg.stake == 0,
            forall|i: int| 0 <= i < r.agg.flags@.len() ==> !r.agg.flags@[i],
    {
        AckCollector { digest, agg: StakeAggregator::new(com) }
    }

    /// Counts one peer's acknowledgement. Returns `true` exactly when the
    /// acknowledged stake first reaches the quorum threshold; a repeated or
    /// unknown acknowledger changes nothing.
    pub fn append(&mut self, com: &Committee, voter: usize) -> (r: Result<bool, DagError>)
        requires
            old(self).wf(*com),
        ensures
            final(self).wf(*com),
            r is Err ==> *final(self) == *old(self),
            r is Err ==> r->Err_0 == (if voter as int >= com.stakes@.len() {
                DagError::UnknownValidator
            } else {
                DagError::AlreadyProcessed
            }),
            r is Ok <==> (voter as int) < com.stakes@.len()
                && !old(self).agg.flags@[voter as int],
            r is Ok ==> {
                &&& final(self).agg.stake == old(self).agg.stake
                    + com.stakes@[voter as int]
                &&& final(self).agg.flags@
                    == old(self).agg.flags@.update(voter as int, true)
                &&& final(self).digest == old(self).digest
            },
            r is Ok ==> (r->Ok_0 <==> (old(self).agg.stake < com.quorum
                && final(self).agg.stake >= com.quorum)),
    {
        if voter >= com.size() {
            return Err(DagError::UnknownValidator);
        }
        let before = self.agg.stake;
        let fresh = self.agg.add(com, voter);
        if !fresh {
            return Err(DagError::AlreadyProcessed);
        }
        Ok(before < com.quorum && self.agg.stake >= com.quorum)
    }
}

} // verus!
