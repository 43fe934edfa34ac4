//! The ordering engine: buffers certificates until causally complete, admits
//! them into a local DAG view, selects round leaders, applies the commit rule,
//! and emits a deterministic total order of certificates.
//!
//! The DAG view is an arena indexed by round and author; rounds older than the
//! garbage-collection watermark are pruned after each commit. Certificates are
//! identified by digest; an already-seen digest is dropped idempotently.

use vstd::prelude::*;
use crate::config::{Committee, flag_stake, sum_stakes};
use crate::types::{Certificate, DagError, cert_valid, check_certificate, genesis,
    strictly_increasing};
use crate::primary::{copy_digests, copy_flags};

verus! {

/// Two certificates carry the same content.
pub open spec fn cert_eqv(a: Certificate, b: Certificate) -> bool {
    &&& a.author == b.author
    &&& a.round == b.round
    &&& a.digest == b.digest
    &&& a.parents@ == b.parents@
    &&& a.voters@ == b.voters@
}

/// Copies a certificate field by field.
pub fn copy_certificate(c: &Certificate) -> (r: Certificate)
    ensures
        cert_eqv(r, *c),
{
    Certificate {
        author: c.author,
        round: c.round,
        digest: c.digest,
        parents: copy_digests(&c.parents),
        voters: copy_flags(&c.voters),
    }
}

/// Whether a sorted-or-not digest list cites `d`.
pub fn digests_contain(s: &Vec<u64>, d: u64) -> (r: bool)
    ensures
        r == s@.contains(d),
{
    let n = s.len();
    let mut i: usize = 0;
    while i < n
        invariant
            n == s@.len(),
            0 <= i <= n,
            forall|k: int| 0 <= k < i ==> s@[k] != d,
        decreases n - i,
    {
        if s[i] == d {
            assert(s@.contains(d));
            return true;
        }
        i += 1;
    }
    assert(!s@.contains(d));
    false
}

/// Stake-weighted choice: walks the stake table and returns the validator
/// owning the `x`-th unit of stake.
pub open spec fn pick_by_stake(stakes: Seq<u64>, x: int) -> int
    decreases stakes.len(),
{
    if stakes.len() == 0 {
        0
    } else if x < stakes[0] {
        0
    } else {
        1 + pick_by_stake(stakes.skip(1), x - stakes[0])
    }
}

/// The public round-indexed coin the leader choice is derived from. Every
/// honest node evaluates it to the same value for the same round; the mixing
/// is a stand-in for whichever verifiable coin construction is wired in.
pub open spec fn coin(round: u64) -> u64 {
    round ^ (round << 13) ^ (round >> 7)
}

/// The leader of a round: the committee member owning the coin-indexed unit of
/// stake. A function of the committee and the round alone.
pub open spec fn leader_spec(com: Committee, round: u64) -> int {
    pick_by_stake(com.stakes@, coin(round) as int % sum_stakes(com.stakes@))
}

proof fn lemma_sum_stakes_first(s: Seq<u64>)
    requires
        s.len() >= 1,
    ensures
        sum_stakes(s) == s[0] + sum_stakes(s.skip(1)),
    decreases s.len(),
{
    if s.len() == 1 {
        assert(s.skip(1) =~= Seq::<u64>::empty());
        assert(s.drop_last() =~= Seq::<u64>::empty());
    } else {
        lemma_sum_stakes_first(s.drop_last());
        assert(s.drop_last().skip(1) =~= s.skip(1).drop_last());
        assert(s.drop_last()[0] == s[0]);
        assert(sum_stakes(s) == sum_stakes(s.drop_last()) + s.last());
        assert(s.skip(1).last() == s.last());
    }
}

/// Deterministically selects the leader of a round.
pub fn leader_of(com: &Committee, round: u64) -> (a: usize)
    requires
        com.wf(),
    ensures
        a as int == leader_spec(*com, round),
        (a as int) < com.stakes@.len(),
{
    proof {
        crate::config::lemma_sum_stakes_positive(com.stakes@);
    }
    let mix: u64 = round ^ (round << 13) ^ (round >> 7);
    let x: u64 = mix % com.total;
    let ghost target = coin(round) as int % sum_stakes(com.stakes@);
    proof {
        assert(x == target);
        assert(com.stakes@.skip(0) =~= com.stakes@);
    }
    let n = com.size();
    let mut i: usize = 0;
    let mut rem: u64 = x;
    while i < n
        invariant
            com.wf(),
            n == com.stakes@.len(),
            0 <= i <= n,
            rem >= 0,
            rem < sum_stakes(com.stakes@.skip(i as int)),
            target == coin(round) as int % sum_stakes(com.stakes@),
            pick_by_stake(com.stakes@, target)
                == i + pick_by_stake(com.stakes@.skip(i as int), rem as int),
        decreases n - i,
    {
        proof {
            lemma_sum_stakes_first(com.stakes@.skip(i as int));
            assert(com.stakes@.skip(i as int)[0] == com.stakes@[i as int]);
            assert(com.stakes@.skip(i as int).skip(1) =~= com.stakes@.skip(i + 1));
        }
        if rem < com.stake_of(i) {
            proof {
                assert(pick_by_stake(com.stakes@.skip(i as int), rem as int) == 0);
                assert(pick_by_stake(com.stakes@, target) == i as int);
                assert(leader_spec(*com, round) == pick_by_stake(com.stakes@, target));
            }
            return i;
        }
        rem = rem - com.stake_of(i);
        i += 1;
    }
    proof {
        assert(com.stakes@.skip(n as int) =~= Seq::<u64>::empty());
        assert(false);
    }
    0
}

/// The two laws of leader selection: the choice is a function of the committee
/// and the round alone — repeated evaluations agree — and it always lands on a
/// committee member.
pub proof fn lemma_leader_deterministic(com: Committee, round: u64, a1: int, a2: int)
    requires
        com.wf(),
        a1 == leader_spec(com, round),
        a2 == leader_spec(com, round),
    ensures
        a1 == a2,
{
}

/// Leader rounds are every other round, starting at round 2.
pub open spec fn is_leader_round(r: u64) -> bool {
    r >= 2 && r % 2 == 0
}

/// The consensus engine's state: the committee, the DAG view, the buffer of
/// causally incomplete certificates, and the committed output so far.
pub struct ConsensusState {
    pub committee: Committee,
    /// Rounds retained below the last committed round before pruning.
    pub gc_depth: u64,
    /// Oldest round still in the DAG view.
    pub base_round: u64,
    /// `dag[i][a]` is the certificate by author `a` at round `base_round + i`.
    pub dag: Vec<Vec<Option<Certificate>>>,
    /// Certificates waiting for their parents, in arrival order.
    pub pending: Vec<Certificate>,
    /// The next leader round the commit rule will try.
    pub next_leader_round: u64,
    /// Highest committed leader round; 0 before the first commit.
    pub last_committed_round: u64,
    /// The committed output stream, in emission order.
    pub emitted: Vec<Certificate>,
}

impl ConsensusState {
    pub open spec fn n(&self) -> int {
        self.committee.stakes@.len() as int
    }

    pub open spec fn view_end(&self) -> int {
        self.base_round + self.dag@.len()
    }

    pub open spec fn in_view(&self, r: int) -> bool {
        self.base_round <= r < self.view_end()
    }

    /// The certificate admitted for round `r` and author `a`, if any.
    pub open spec fn slot(&self, r: int, a: int) -> Option<Certificate> {
        if self.in_view(r) && 0 <= a < self.n() {
            self.dag@[r - self.base_round]@[a]
        } else {
            None
        }
    }

    /// Some admitted certificate at round `r` carries digest `d`.
    pub open spec fn resolvable(&self, r: int, d: u64) -> bool {
        exists|a: int| 0 <= a < self.n() && (#[trigger] self.slot(r, a)) is Some
            && self.slot(r, a)->Some_0.digest == d
    }

    /// Some admitted certificate anywhere carries digest `d`.
    pub open spec fn dag_has_digest(&self, d: u64) -> bool {
        exists|r: int, a: int| (#[trigger] self.slot(r, a)) is Some
            && self.slot(r, a)->Some_0.digest == d
    }

    /// Digest `d` has already been emitted.
    pub open spec fn emitted_contains(&self, d: u64) -> bool {
        exists|k: int| 0 <= k < self.emitted@.len() && (#[trigger] self.emitted@[k]).digest == d
    }

    /// Digest `d` sits in the causal-completeness buffer.
    pub open spec fn pending_contains(&self, d: u64) -> bool {
        exists|k: int| 0 <= k < self.pending@.len() && (#[trigger] self.pending@[k]).digest == d
    }

    /// Digest `d` is known in any capacity: admitted, buffered, or emitted.
    pub open spec fn digest_known(&self, d: u64) -> bool {
        self.dag_has_digest(d) || self.pending_contains(d) || self.emitted_contains(d)
    }

    /// Every slot of the arena holds a certificate of the matching round and
    /// author, with a canonical parent list.
    pub open spec fn slots_wf(&self) -> bool {
        &&& forall|i: int| 0 <= i < self.dag@.len() ==> (#[trigger] self.dag@[i])@.len() == self.n()
        &&& forall|r: int, a: int| (#[trigger] self.slot(r, a)) is Some ==> {
            &&& self.slot(r, a)->Some_0.author == a
            &&& self.slot(r, a)->Some_0.round == r
            &&& strictly_increasing(self.slot(r, a)->Some_0.parents@)
        }
    }

    /// No two admitted certificates share a digest.
    pub open spec fn digests_distinct(&self) -> bool {
        forall|r1: int, a1: int, r2: int, a2: int|
            (#[trigger] self.slot(r1, a1)) is Some && (#[trigger] self.slot(r2, a2)) is Some
                && (r1 != r2 || a1 != a2)
                ==> self.slot(r1, a1)->Some_0.digest != self.slot(r2, a2)->Some_0.digest
    }

    /// Above the view's base, every admitted certificate's parents are
    /// themselves admitted: the causal-completeness admission rule.
    pub open spec fn parents_admitted(&self) -> bool {
        forall|r: int, a: int| (#[trigger] self.slot(r, a)) is Some && r >= self.base_round + 1
            ==> forall|pi: int| 0 <= pi < self.slot(r, a)->Some_0.parents@.len()
                ==> self.resolvable(r - 1, #[trigger] self.slot(r, a)->Some_0.parents@[pi])
    }

    /// Exactly-once delivery: no digest appears twice in the committed
    /// stream.
    pub open spec fn emitted_distinct(&self) -> bool {
        forall|i: int, j: int| 0 <= i < j < self.emitted@.len()
            ==> (#[trigger] self.emitted@[i]).digest != (#[trigger] self.emitted@[j]).digest
    }

    /// Causal order of the committed stream: whenever one emitted certificate
    /// cites another as a parent, the parent was emitted strictly earlier.
    pub open spec fn emitted_causal(&self) -> bool {
        forall|i: int, j: int| 0 <= i < self.emitted@.len() && 0 <= j < self.emitted@.len()
            && (#[trigger] self.emitted@[i]).parents@.contains(
                (#[trigger] self.emitted@[j]).digest)
            && self.emitted@[j].round + 1 == self.emitted@[i].round
            ==> j < i
    }

    /// Every parent of an emitted certificate is emitted too, unless the
    /// parent round has been pruned below the view or is the synthetic
    /// genesis round, which is never emitted.
    pub open spec fn emitted_parents_closed(&self) -> bool {
        forall|i: int, pi: int| 0 <= i < self.emitted@.len()
            && 0 <= pi < (#[trigger] self.emitted@[i]).parents@.len()
            ==> self.emitted_contains(#[trigger] self.emitted@[i].parents@[pi])
                || self.emitted@[i].round - 1 < self.base_round
                || self.emitted@[i].round == 1
    }

    /// Everything `wf` asks of the DAG view and the counters; the pending
    /// buffer is constrained separately, since pruning restores it last.
    pub open spec fn core_wf(&self) -> bool {
        &&& self.committee.wf()
        &&& self.dag@.len() >= 1
        &&& self.view_end() <= u64::MAX
        &&& self.slots_wf()
        &&& self.digests_distinct()
        &&& self.parents_admitted()
        &&& forall|k: int| 0 <= k < self.pending@.len() ==> {
            &&& cert_valid(self.committee, #[trigger] self.pending@[k])
            &&& self.pending@[k].round < u64::MAX
        }
        &&& self.next_leader_round >= 2
        &&& self.next_leader_round % 2 == 0
        &&& self.base_round <= self.last_committed_round
        &&& self.last_committed_round + 2 <= self.next_leader_round
        &&& forall|k: int| 0 <= k < self.emitted@.len()
            ==> (#[trigger] self.emitted@[k]).round <= self.last_committed_round
        &&& self.emitted_causal()
        &&& self.emitted_parents_closed()
        &&& self.emitted_distinct()
    }

    pub open spec fn wf(&self) -> bool {
        &&& self.core_wf()
        &&& forall|k: int| 0 <= k < self.pending@.len()
            ==> (#[trigger] self.pending@[k]).round > self.base_round
    }

    /// A fresh engine over a committee: the DAG view holds only the genesis
    /// round, nothing is buffered, and nothing has been committed.
    pub fn new(committee: Committee, gc_depth: u64) -> (s: ConsensusState)
        requires
            committee.wf(),
        ensures
            s.wf(),
            s.committee == committee,
            s.gc_depth == gc_depth,
            s.base_round == 0,
            s.last_committed_round == 0,
            s.next_leader_round == 2,
            s.emitted@.len() == 0,
            s.pending@.len() == 0,
            s.dag@.len() == 1,
            forall|a: int| 0 <= a < committee.stakes@.len() ==> (#[trigger] s.slot(0, a)) is Some,
    {
        let g = genesis(&committee);
        let n = committee.size();
        let mut row: Vec<Option<Certificate>> = Vec::new();
        let mut src = g;
        // Move the genesis certificates into the round-0 row, author by author.
        let mut a: usize = 0;
        while a < n
            invariant
                0 <= a <= n,
                src@.len() == n - a,
                row@.len() == a,
                n == committee.stakes@.len(),
                forall|k: int| 0 <= k < a ==> (#[trigger] row@[k]) is Some
                    && row@[k]->Some_0.author == k
                    && row@[k]->Some_0.round == 0
                    && row@[k]->Some_0.digest == k
                    && row@[k]->Some_0.parents@.len() == 0,
                forall|k: int| 0 <= k < src@.len() ==> {
                    &&& (#[trigger] src@[k]).author == k + a
                    &&& src@[k].round == 0
                    &&& src@[k].digest == k + a
                    &&& src@[k].parents@.len() == 0
                },
            decreases n - a,
        {
            let c = src.remove(0);
            row.push(Some(c));
            a += 1;
        }
        let mut dag: Vec<Vec<Option<Certificate>>> = Vec::new();
        dag.push(row);
        let s = ConsensusState {
            committee,
            gc_depth,
            base_round: 0,
            dag,
            pending: Vec::new(),
            next_leader_round: 2,
            last_committed_round: 0,
            emitted: Vec::new(),
        };
        proof {
            assert forall|r: int, a2: int| (#[trigger] s.slot(r, a2)) is Some implies {
                &&& s.slot(r, a2)->Some_0.author == a2
                &&& s.slot(r, a2)->Some_0.round == r
                &&& strictly_increasing(s.slot(r, a2)->Some_0.parents@)
            } by {
                assert(r == 0);
            };
            assert forall|r1: int, a1: int, r2: int, a2: int|
                (#[trigger] s.slot(r1, a1)) is Some && (#[trigger] s.slot(r2, a2)) is Some
                    && (r1 != r2 || a1 != a2)
                implies s.slot(r1, a1)->Some_0.digest != s.slot(r2, a2)->Some_0.digest by {
                assert(r1 == 0 && r2 == 0);
            };
        }
        s
    }

    /// The committed output stream so far, in emission order.
    pub fn committed(&self) -> (r: &Vec<Certificate>)
        ensures
            r@ == self.emitted@,
    {
        &self.emitted
    }

    /// Digest of the certificate admitted at (round, author), if any.
    pub fn digest_at(&self, r: u64, a: usize) -> (d: Option<u64>)
        requires
            self.wf(),
        ensures
            d is Some <==> self.slot(r as int, a as int) is Some,
            d is Some ==> d->Some_0 == self.slot(r as int, a as int)->Some_0.digest,
    {
        if a >= self.committee.size() {
            return None;
        }
        if r < self.base_round {
            return None;
        }
        let idx = r - self.base_round;
        if idx >= self.dag.len() as u64 {
            return None;
        }
        match &self.dag[idx as usize][a] {
            Some(c) => Some(c.digest),
            None => None,
        }
    }

    /// Author of the admitted round-`r` certificate with digest `d`, if any.
    fn resolve(&self, r: u64, d: u64) -> (res: Option<usize>)
        requires
            self.wf(),
            self.in_view(r as int),
        ensures
            res is Some <==> self.resolvable(r as int, d),
            res is Some ==> {
                &&& (res->Some_0 as int) < self.n()
                &&& self.slot(r as int, res->Some_0 as int) is Some
                &&& self.slot(r as int, res->Some_0 as int)->Some_0.digest == d
            },
    {
        let len = self.dag.len();
        proof {
            assert(r - self.base_round < self.dag@.len());
        }
        let idx = (r - self.base_round) as usize;
        let n = self.committee.size();
        let mut a: usize = 0;
        while a < n
            invariant
                self.wf(),
                self.in_view(r as int),
                idx == r - self.base_round,
                n == self.n(),
                0 <= a <= n,
                forall|k: int| 0 <= k < a ==> !((#[trigger] self.slot(r as int, k)) is Some
                    && self.slot(r as int, k)->Some_0.digest == d),
            decreases n - a,
        {
            match &self.dag[idx][a] {
                Some(c) => {
                    if c.digest == d {
                        proof {
                            assert(self.slot(r as int, a as int) is Some);
                        }
                        return Some(a);
                    }
                },
                None => {},
            }
            a += 1;
        }
        proof {
            assert(!self.resolvable(r as int, d));
        }
        None
    }

    /// Whether any admitted certificate carries digest `d`.
    fn has_digest(&self, d: u64) -> (r: bool)
        requires
            self.wf(),
        ensures
            r == self.dag_has_digest(d),
    {
        let len = self.dag.len();
        let mut i: usize = 0;
        while i < len
            invariant
                self.wf(),
                len == self.dag@.len(),
                0 <= i <= len,
                forall|r2: int, a2: int| self.base_round <= r2 < self.base_round + i
                    && (#[trigger] self.slot(r2, a2)) is Some
                    ==> self.slot(r2, a2)->Some_0.digest != d,
            decreases len - i,
        {
            let r = self.base_round + i as u64;
            match self.resolve(r, d) {
                Some(a) => {
                    proof {
                        assert(self.slot(r as int, a as int) is Some);
                    }
                    return true;
                },
                None => {},
            }
            i += 1;
        }
        proof {
            assert forall|r2: int, a2: int| (#[trigger] self.slot(r2, a2)) is Some
                implies self.slot(r2, a2)->Some_0.digest != d by {
                assert(self.in_view(r2));
            };
        }
        false
    }

    /// Whether digest `d` was already emitted.
    fn emitted_has(&self, d: u64) -> (r: bool)
        ensures
            r == self.emitted_contains(d),
    {
        let len = self.emitted.len();
        let mut i: usize = 0;
        while i < len
            invariant
                len == self.emitted@.len(),
                0 <= i <= len,
                forall|k: int| 0 <= k < i ==> (#[trigger] self.emitted@[k]).digest != d,
            decreases len - i,
        {
            if self.emitted[i].digest == d {
                return true;
            }
            i += 1;
        }
        false
    }

    /// Whether digest `d` sits in the pending buffer.
    fn pending_has(&self, d: u64) -> (r: bool)
        ensures
            r == self.pending_contains(d),
    {
        let len = self.pending.len();
        let mut i: usize = 0;
        while i < len
            invariant
                len == self.pending@.len(),
                0 <= i <= len,
                forall|k: int| 0 <= k < i ==> (#[trigger] self.pending@[k]).digest != d,
            decreases len - i,
        {
            if self.pending[i].digest == d {
                return true;
            }
            i += 1;
        }
        false
    }
}

} // verus!

verus! {

impl ConsensusState {
    /// The validators whose round `r + 1` certificates cite digest `d` as a
    /// parent: the support a leader certificate at round `r` has gathered.
    pub open spec fn support_flags(&self, r: int, d: u64) -> Seq<bool> {
        Seq::new(self.n() as nat, |a: int| self.slot(r + 1, a) is Some
            && self.slot(r + 1, a)->Some_0.parents@.contains(d))
    }

    /// The validators whose round `c.round - 1` certificates `c` cites as
    /// parents.
    pub open spec fn parent_flags(&self, c: Certificate) -> Seq<bool> {
        Seq::new(self.n() as nat, |a: int| self.slot(c.round - 1, a) is Some
            && c.parents@.contains(self.slot(c.round - 1, a)->Some_0.digest))
    }

    /// Marks, for each validator, whether its certificate at round `r`
    /// satisfies `cites d` (when `citing` is true) or `is cited by c`.
    fn row_flags_citing(&self, r: u64, d: u64) -> (flags: Vec<bool>)
        requires
            self.wf(),
        ensures
            flags@.len() == self.n(),
            forall|a: int| 0 <= a < self.n() ==> flags@[a] == (self.slot(r as int, a) is Some
                && (#[trigger] self.slot(r as int, a))->Some_0.parents@.contains(d)),
    {
        let n = self.committee.size();
        let mut flags: Vec<bool> = Vec::new();
        let mut a: usize = 0;
        while a < n
            invariant
                self.wf(),
                n == self.n(),
                0 <= a <= n,
                flags@.len() == a,
                forall|k: int| 0 <= k < a ==> flags@[k] == (self.slot(r as int, k) is Some
                    && (#[trigger] self.slot(r as int, k))->Some_0.parents@.contains(d)),
            decreases n - a,
        {
            let mark: bool;
            if r < self.base_round {
                mark = false;
            } else {
                let idx64 = r - self.base_round;
                if idx64 >= self.dag.len() as u64 {
                    mark = false;
                } else {
                    match &self.dag[idx64 as usize][a] {
                        Some(c) => {
                            mark = digests_contain(&c.parents, d);
                        },
                        None => {
                            mark = false;
                        },
                    }
                }
            }
            flags.push(mark);
            a += 1;
        }
        flags
    }

    /// Combined stake of the round `r + 1` certificates citing digest `d`:
    /// the support behind a round-`r` leader with that digest.
    fn support_stake(&self, r: u64, d: u64) -> (s: u64)
        requires
            self.wf(),
            r < u64::MAX,
        ensures
            s == flag_stake(self.committee.stakes@, self.support_flags(r as int, d)),
    {
        let flags = self.row_flags_citing(r + 1, d);
        proof {
            assert(flags@ =~= self.support_flags(r as int, d));
        }
        self.committee.stake_of_flags(&flags)
    }

    /// Marks, for each validator, whether its round `r` certificate is cited
    /// among `parents`.
    fn row_flags_cited(&self, r: u64, parents: &Vec<u64>) -> (flags: Vec<bool>)
        requires
            self.wf(),
        ensures
            flags@.len() == self.n(),
            forall|a: int| 0 <= a < self.n() ==> flags@[a] == (self.slot(r as int, a) is Some
                && parents@.contains((#[trigger] self.slot(r as int, a))->Some_0.digest)),
    {
        let n = self.committee.size();
        let mut flags: Vec<bool> = Vec::new();
        let mut a: usize = 0;
        while a < n
            invariant
                self.wf(),
                n == self.n(),
                0 <= a <= n,
                flags@.len() == a,
                forall|k: int| 0 <= k < a ==> flags@[k] == (self.slot(r as int, k) is Some
                    && parents@.contains((#[trigger] self.slot(r as int, k))->Some_0.digest)),
            decreases n - a,
        {
            let mark: bool;
            if r < self.base_round {
                mark = false;
            } else {
                let idx64 = r - self.base_round;
                if idx64 >= self.dag.len() as u64 {
                    mark = false;
                } else {
                    match &self.dag[idx64 as usize][a] {
                        Some(c) => {
                            mark = digests_contain(parents, c.digest);
                        },
                        None => {
                            mark = false;
                        },
                    }
                }
            }
            flags.push(mark);
            a += 1;
        }
        flags
    }

    /// Combined stake of the admitted round `c.round - 1` certificates that
    /// `c` cites as parents.
    fn parent_stake(&self, c: &Certificate) -> (s: u64)
        requires
            self.wf(),
            c.round >= 1,
        ensures
            s == flag_stake(self.committee.stakes@, self.parent_flags(*c)),
    {
        let flags = self.row_flags_cited(c.round - 1, &c.parents);
        proof {
            assert(flags@ =~= self.parent_flags(*c));
        }
        self.committee.stake_of_flags(&flags)
    }

    /// Whether every parent `c` cites is admitted at round `c.round - 1`.
    fn parents_ready(&self, c: &Certificate) -> (r: bool)
        requires
            self.wf(),
            c.round >= 1,
        ensures
            r == forall|pi: int| 0 <= pi < c.parents@.len()
                ==> self.resolvable(c.round - 1, #[trigger] c.parents@[pi]),
    {
        let pr = c.round - 1;
        if pr < self.base_round {
            if c.parents.len() == 0 {
                return true;
            }
            proof {
                assert(!self.resolvable(pr as int, c.parents@[0]));
            }
            return false;
        }
        if pr - self.base_round >= self.dag.len() as u64 {
            if c.parents.len() == 0 {
                return true;
            }
            proof {
                assert(!self.resolvable(pr as int, c.parents@[0]));
            }
            return false;
        }
        let m = c.parents.len();
        let mut pi: usize = 0;
        while pi < m
            invariant
                self.wf(),
                m == c.parents@.len(),
                c.round >= 1,
                pr == c.round - 1,
                self.in_view(pr as int),
                0 <= pi <= m,
                forall|k: int| 0 <= k < pi ==> self.resolvable(pr as int, #[trigger] c.parents@[k]),
            decreases m - pi,
        {
            match self.resolve(pr, c.parents[pi]) {
                Some(_) => {},
                None => {
                    return false;
                },
            }
            pi += 1;
        }
        true
    }
}

} // verus!

verus! {

/// A row of empty slots, one per validator.
fn empty_row(n: usize) -> (row: Vec<Option<Certificate>>)
    ensures
        row@.len() == n,
        forall|k: int| 0 <= k < n ==> (#[trigger] row@[k]) is None,
{
    let mut row: Vec<Option<Certificate>> = Vec::new();
    let mut k: usize = 0;
    while k < n
        invariant
            0 <= k <= n,
            row@.len() == k,
            forall|j: int| 0 <= j < k ==> (#[trigger] row@[j]) is None,
        decreases n - k,
    {
        row.push(None);
        k += 1;
    }
    row
}

impl ConsensusState {
    /// Admits a certificate whose parents are all admitted at the previous
    /// round into its slot of the DAG view.
    fn insert_cert(&mut self, c: Certificate)
        requires
            old(self).wf(),
            cert_valid(old(self).committee, c),
            c.round > old(self).base_round,
            c.round < u64::MAX,
            c.round <= old(self).view_end(),
            old(self).slot(c.round as int, c.author as int) is None,
            !old(self).dag_has_digest(c.digest),
            forall|pi: int| 0 <= pi < c.parents@.len()
                ==> old(self).resolvable(c.round - 1, #[trigger] c.parents@[pi]),
        ensures
            final(self).wf(),
            final(self).slot(c.round as int, c.author as int) == Some(c),
            forall|r: int, a: int| (r != c.round || a != c.author)
                ==> final(self).slot(r, a) == old(self).slot(r, a),
            final(self).base_round == old(self).base_round,
            final(self).committee == old(self).committee,
            final(self).gc_depth == old(self).gc_depth,
            final(self).pending@ == old(self).pending@,
            final(self).emitted@ == old(self).emitted@,
            final(self).next_leader_round == old(self).next_leader_round,
            final(self).last_committed_round == old(self).last_committed_round,
            final(self).view_end() == if c.round == old(self).view_end() {
                old(self).view_end() + 1
            } else {
                old(self).view_end()
            },
    {
        let ghost pre = *self;
        let n = self.committee.size();
        let idx64 = c.round - self.base_round;
        if idx64 == self.dag.len() as u64 {
            let row = empty_row(n);
            self.dag.push(row);
            proof {
                assert forall|r: int, a: int| #![all_triggers] true
                    implies self.slot(r, a) == pre.slot(r, a) by {
                    if pre.in_view(r) {
                        assert(self.dag@[r - self.base_round] == pre.dag@[r - pre.base_round]);
                    }
                };
            }
        }
        let ghost grown = *self;
        proof {
            assert(idx64 < self.dag@.len());
        }
        let idx = idx64 as usize;
        let mut row: Vec<Option<Certificate>> = Vec::new();
        self.dag.set_and_swap(idx, &mut row);
        row.set(c.author, Some(c));
        let ghost stored = c;
        self.dag.set_and_swap(idx, &mut row);
        proof {
            assert(self.dag@[idx as int]@
                =~= grown.dag@[idx as int]@.update(c.author as int, Some(stored)));
            assert(forall|j: int| 0 <= j < self.dag@.len() && j != idx
                ==> #[trigger] self.dag@[j] == grown.dag@[j]);
            assert(self.slot(c.round as int, c.author as int) == Some(stored));
            assert forall|r: int, a: int| (r != c.round || a != c.author)
                implies #[trigger] self.slot(r, a) == pre.slot(r, a) by {
                if self.in_view(r) && 0 <= a < self.n() {
                    if r - self.base_round == idx {
                        assert(self.dag@[idx as int]@[a] == grown.dag@[idx as int]@[a]);
                    }
                }
            };
            // Well-formedness: the new slot is consistent, all others carry over.
            assert forall|r: int, a: int| (#[trigger] self.slot(r, a)) is Some implies {
                &&& self.slot(r, a)->Some_0.author == a
                &&& self.slot(r, a)->Some_0.round == r
                &&& strictly_increasing(self.slot(r, a)->Some_0.parents@)
            } by {
                if r == c.round && a == c.author {
                } else {
                    assert(self.slot(r, a) == pre.slot(r, a));
                }
            };
            assert forall|r1: int, a1: int, r2: int, a2: int|
                (#[trigger] self.slot(r1, a1)) is Some && (#[trigger] self.slot(r2, a2)) is Some
                    && (r1 != r2 || a1 != a2)
                implies self.slot(r1, a1)->Some_0.digest != self.slot(r2, a2)->Some_0.digest by {
                if r1 == c.round && a1 == c.author {
                    if !(r2 == c.round && a2 == c.author) {
                        assert(self.slot(r2, a2) == pre.slot(r2, a2));
                        assert(pre.dag_has_digest(c.digest)
                            || pre.slot(r2, a2)->Some_0.digest != c.digest);
                    }
                } else if r2 == c.round && a2 == c.author {
                    assert(self.slot(r1, a1) == pre.slot(r1, a1));
                    assert(pre.dag_has_digest(c.digest)
                        || pre.slot(r1, a1)->Some_0.digest != c.digest);
                } else {
                    assert(self.slot(r1, a1) == pre.slot(r1, a1));
                    assert(self.slot(r2, a2) == pre.slot(r2, a2));
                }
            };
            assert forall|r: int, a: int|
                (#[trigger] self.slot(r, a)) is Some && r >= self.base_round + 1
                implies forall|pi: int| 0 <= pi < self.slot(r, a)->Some_0.parents@.len()
                    ==> self.resolvable(r - 1, #[trigger] self.slot(r, a)->Some_0.parents@[pi]) by {
                let cc = self.slot(r, a)->Some_0;
                if r == c.round && a == c.author {
                    assert forall|pi: int| 0 <= pi < cc.parents@.len()
                        implies self.resolvable(r - 1, #[trigger] cc.parents@[pi]) by {
                        assert(pre.resolvable(c.round - 1, cc.parents@[pi]));
                        let wa = choose|wa: int| 0 <= wa < pre.n()
                            && (#[trigger] pre.slot(c.round - 1, wa)) is Some
                            && pre.slot(c.round - 1, wa)->Some_0.digest == cc.parents@[pi];
                        assert(self.slot(r - 1, wa) == pre.slot(c.round - 1, wa));
                    };
                } else {
                    assert(pre.slot(r, a) is Some);
                    assert forall|pi: int| 0 <= pi < cc.parents@.len()
                        implies self.resolvable(r - 1, #[trigger] cc.parents@[pi]) by {
                        assert(pre.resolvable(r - 1, cc.parents@[pi]));
                        let wa = choose|wa: int| 0 <= wa < pre.n()
                            && (#[trigger] pre.slot(r - 1, wa)) is Some
                            && pre.slot(r - 1, wa)->Some_0.digest == cc.parents@[pi];
                        if r - 1 == c.round && wa == c.author {
                            assert(pre.slot(c.round as int, c.author as int) is None);
                            assert(false);
                        }
                        assert(self.slot(r - 1, wa) == pre.slot(r - 1, wa));
                    };
                }
            };
        }
    }

    /// Prunes every round strictly below the watermark from the DAG view and
    /// from the pending buffer; the watermark round itself is retained.
    fn garbage_collect(&mut self, watermark: u64)
        requires
            old(self).wf(),
            watermark < old(self).view_end(),
            watermark <= old(self).last_committed_round,
        ensures
            final(self).wf(),
            final(self).base_round == if watermark > old(self).base_round {
                watermark
            } else {
                old(self).base_round
            },
            final(self).view_end() == old(self).view_end(),
            forall|r: int, a: int| r >= final(self).base_round
                ==> final(self).slot(r, a) == old(self).slot(r, a),
            final(self).committee == old(self).committee,
            final(self).gc_depth == old(self).gc_depth,
            final(self).emitted@ == old(self).emitted@,
            final(self).next_leader_round == old(self).next_leader_round,
            final(self).last_committed_round == old(self).last_committed_round,
    {
        let ghost pre = *self;
        while self.base_round < watermark
            invariant
                self.core_wf(),
                pre.base_round <= self.base_round,
                self.base_round <= (if watermark > pre.base_round {
                    watermark as int
                } else {
                    pre.base_round as int
                }),
                watermark <= self.last_committed_round,
                self.view_end() == pre.view_end(),
                watermark < self.view_end(),
                forall|r: int, a: int| r >= self.base_round
                    ==> #[trigger] self.slot(r, a) == pre.slot(r, a),
                self.committee == pre.committee,
                self.gc_depth == pre.gc_depth,
                self.emitted@ == pre.emitted@,
                self.pending@ == pre.pending@,
                self.next_leader_round == pre.next_leader_round,
                self.last_committed_round == pre.last_committed_round,
            decreases watermark - self.base_round,
        {
            let ghost mid = *self;
            let _ = self.dag.remove(0);
            self.base_round = self.base_round + 1;
            proof {
                assert forall|r: int, a: int| r >= self.base_round
                    implies #[trigger] self.slot(r, a) == mid.slot(r, a) by {
                    if self.in_view(r) && 0 <= a < self.n() {
                        assert(self.dag@[r - self.base_round]
                            == mid.dag@[r - mid.base_round]);
                    }
                };
                assert forall|r: int, a: int| (#[trigger] self.slot(r, a)) is Some implies {
                    &&& self.slot(r, a)->Some_0.author == a
                    &&& self.slot(r, a)->Some_0.round == r
                    &&& strictly_increasing(self.slot(r, a)->Some_0.parents@)
                } by {
                    assert(self.slot(r, a) == mid.slot(r, a));
                };
                assert forall|r1: int, a1: int, r2: int, a2: int|
                    (#[trigger] self.slot(r1, a1)) is Some
                        && (#[trigger] self.slot(r2, a2)) is Some && (r1 != r2 || a1 != a2)
                    implies self.slot(r1, a1)->Some_0.digest
                        != self.slot(r2, a2)->Some_0.digest by {
                    assert(self.slot(r1, a1) == mid.slot(r1, a1));
                    assert(self.slot(r2, a2) == mid.slot(r2, a2));
                };
                assert forall|r: int, a: int|
                    (#[trigger] self.slot(r, a)) is Some && r >= self.base_round + 1
                    implies forall|pi: int| 0 <= pi < self.slot(r, a)->Some_0.parents@.len()
                        ==> self.resolvable(r - 1,
                            #[trigger] self.slot(r, a)->Some_0.parents@[pi]) by {
                    let cc = self.slot(r, a)->Some_0;
                    assert(mid.slot(r, a) is Some);
                    assert forall|pi: int| 0 <= pi < cc.parents@.len()
                        implies self.resolvable(r - 1, #[trigger] cc.parents@[pi]) by {
                        assert(mid.resolvable(r - 1, cc.parents@[pi]));
                        let wa = choose|wa: int| 0 <= wa < mid.n()
                            && (#[trigger] mid.slot(r - 1, wa)) is Some
                            && mid.slot(r - 1, wa)->Some_0.digest == cc.parents@[pi];
                        assert(self.slot(r - 1, wa) == mid.slot(r - 1, wa));
                    };
                };
            }
        }
        let ghost before_prune = *self;
        // Drop buffered certificates that fell at or below the new base.
        let mut kept: Vec<Certificate> = Vec::new();
        let len = self.pending.len();
        let mut k: usize = 0;
        let ghost buf = self.pending@;
        while k < len
            invariant
                0 <= k <= len,
                len == buf.len(),
                self.pending@ == buf,
                forall|j: int| 0 <= j < kept@.len() ==> {
                    &&& cert_valid(self.committee, #[trigger] kept@[j])
                    &&& kept@[j].round > self.base_round
                    &&& kept@[j].round < u64::MAX
                },
                forall|j: int| 0 <= j < buf.len() ==> cert_valid(self.committee, #[trigger] buf[j])
                    && buf[j].round < u64::MAX,
            decreases len - k,
        {
            if self.pending[k].round > self.base_round {
                let c = copy_certificate_at(&self.pending, k);
                proof {
                    assert(cert_eqv(c, buf[k as int]));
                    assert(cert_valid(self.committee, buf[k as int]));
                    assert(cert_valid(self.committee, c));
                }
                kept.push(c);
            }
            k += 1;
        }
        self.pending = kept;
        proof {
            assert forall|r: int, a: int| r >= self.base_round
                implies #[trigger] self.slot(r, a) == pre.slot(r, a) by {
                assert(self.slot(r, a) == before_prune.slot(r, a));
                assert(before_prune.slot(r, a) == pre.slot(r, a));
            };
            assert(self.slots_wf()) by {
                assert forall|r: int, a: int| (#[trigger] self.slot(r, a)) is Some implies {
                    &&& self.slot(r, a)->Some_0.author == a
                    &&& self.slot(r, a)->Some_0.round == r
                    &&& strictly_increasing(self.slot(r, a)->Some_0.parents@)
                } by {
                    assert(self.slot(r, a) == before_prune.slot(r, a));
                };
            };
            assert(self.digests_distinct()) by {
                assert forall|r1: int, a1: int, r2: int, a2: int|
                    (#[trigger] self.slot(r1, a1)) is Some
                        && (#[trigger] self.slot(r2, a2)) is Some && (r1 != r2 || a1 != a2)
                    implies self.slot(r1, a1)->Some_0.digest
                        != self.slot(r2, a2)->Some_0.digest by {
                    assert(self.slot(r1, a1) == before_prune.slot(r1, a1));
                    assert(self.slot(r2, a2) == before_prune.slot(r2, a2));
                };
            };
            assert(self.parents_admitted()) by {
                assert forall|r: int, a: int|
                    (#[trigger] self.slot(r, a)) is Some && r >= self.base_round + 1
                    implies forall|pi: int| 0 <= pi < self.slot(r, a)->Some_0.parents@.len()
                        ==> self.resolvable(r - 1,
                            #[trigger] self.slot(r, a)->Some_0.parents@[pi]) by {
                    let cc = self.slot(r, a)->Some_0;
                    assert(self.slot(r, a) == before_prune.slot(r, a));
                    assert forall|pi: int| 0 <= pi < cc.parents@.len()
                        implies self.resolvable(r - 1, #[trigger] cc.parents@[pi]) by {
                        assert(before_prune.resolvable(r - 1, cc.parents@[pi]));
                        let wa = choose|wa: int| 0 <= wa < before_prune.n()
                            && (#[trigger] before_prune.slot(r - 1, wa)) is Some
                            && before_prune.slot(r - 1, wa)->Some_0.digest == cc.parents@[pi];
                        assert(self.slot(r - 1, wa) == before_prune.slot(r - 1, wa));
                    };
                };
            };
        }
    }
}

/// Copies the `k`-th certificate of a list.
fn copy_certificate_at(v: &Vec<Certificate>, k: usize) -> (r: Certificate)
    requires
        k < v@.len(),
    ensures
        cert_eqv(r, v@[k as int]),
{
    copy_certificate(&v[k])
}

} // verus!

verus! {

/// Rounds strictly descending, authors descending within a round.
pub open spec fn desc_ordered(s: Seq<Certificate>) -> bool {
    forall|i: int, j: int| 0 <= i < j < s.len()
        ==> (#[trigger] s[i]).round > (#[trigger] s[j]).round
            || (s[i].round == s[j].round && s[i].author > s[j].author)
}

/// Rounds ascending, authors ascending within a round: the deterministic
/// emission order.
pub open spec fn asc_ordered(s: Seq<Certificate>) -> bool {
    forall|i: int, j: int| 0 <= i < j < s.len()
        ==> (#[trigger] s[i]).round < (#[trigger] s[j]).round
            || (s[i].round == s[j].round && s[i].author < s[j].author)
}

/// Appends every digest of `src` to `dst`, keeping what was already there.
fn extend_digests(dst: &mut Vec<u64>, src: &Vec<u64>)
    ensures
        forall|d: u64| old(dst)@.contains(d) ==> final(dst)@.contains(d),
        forall|pi: int| 0 <= pi < src@.len() ==> final(dst)@.contains(#[trigger] src@[pi]),
        forall|d: u64| final(dst)@.contains(d) ==> old(dst)@.contains(d) || src@.contains(d),
{
    let m = src.len();
    let mut pi: usize = 0;
    while pi < m
        invariant
            m == src@.len(),
            0 <= pi <= m,
            forall|d: u64| old(dst)@.contains(d) ==> dst@.contains(d),
            forall|k: int| 0 <= k < pi ==> dst@.contains(#[trigger] src@[k]),
            forall|d: u64| dst@.contains(d) ==> old(dst)@.contains(d) || src@.contains(d),
        decreases m - pi,
    {
        let ghost before = dst@;
        dst.push(src[pi]);
        proof {
            assert(dst@[before.len() as int] == src@[pi as int]);
            assert forall|d: u64| before.contains(d) implies dst@.contains(d) by {
                let w = choose|w: int| 0 <= w < before.len() && before[w] == d;
                assert(dst@[w] == d);
            };
            assert forall|d: u64| dst@.contains(d)
                implies before.contains(d) || src@.contains(d) by {
                let w = choose|w: int| 0 <= w < dst@.len() && dst@[w] == d;
                if w < before.len() {
                    assert(before[w] == d);
                } else {
                    assert(src@[pi as int] == d);
                }
            };
        }
        pi += 1;
    }
}

impl ConsensusState {
    /// `c` is a faithful copy of an admitted, not yet emitted certificate.
    pub open spec fn elem_ok(&self, c: Certificate) -> bool {
        &&& self.slot(c.round as int, c.author as int) is Some
        &&& cert_eqv(self.slot(c.round as int, c.author as int)->Some_0, c)
        &&& !self.emitted_contains(c.digest)
    }

    /// Certificate `(r1, a1)` of the view reaches certificate `(r2, a2)`
    /// through parent links: the reflexive-transitive citation relation the
    /// ordering walk follows.
    pub open spec fn slot_reaches(&self, r1: int, a1: int, r2: int, a2: int) -> bool
        decreases r1 - r2,
    {
        if r1 == r2 {
            a1 == a2 && self.slot(r1, a1) is Some
        } else if r1 > r2 {
            exists|am: int| 0 <= am < self.n()
                && (#[trigger] self.slot(r1 - 1, am)) is Some
                && self.slot(r1, a1) is Some
                && self.slot(r1, a1)->Some_0.parents@.contains(
                    self.slot(r1 - 1, am)->Some_0.digest)
                && self.slot_reaches(r1 - 1, am, r2, a2)
        } else {
            false
        }
    }

    /// Extending a reachable certificate by one cited parent keeps it
    /// reachable.
    proof fn lemma_slot_reaches_link(&self, r1: int, a1: int, r2: int, a2: int, a3: int)
        requires
            self.slot_reaches(r1, a1, r2, a2),
            0 <= a3 < self.n(),
            self.slot(r2 - 1, a3) is Some,
            self.slot(r2, a2) is Some,
            self.slot(r2, a2)->Some_0.parents@.contains(
                self.slot(r2 - 1, a3)->Some_0.digest),
        ensures
            self.slot_reaches(r1, a1, r2 - 1, a3),
        decreases r1 - r2,
    {
        if r1 == r2 {
            assert(self.slot_reaches(r1, a1, r2 - 1, a3)) by {
                assert(self.slot(r1 - 1, a3) is Some
                    && self.slot(r1, a1) is Some
                    && self.slot(r1, a1)->Some_0.parents@.contains(
                        self.slot(r1 - 1, a3)->Some_0.digest)
                    && self.slot_reaches(r1 - 1, a3, r2 - 1, a3));
            };
        } else {
            let am = choose|am: int| 0 <= am < self.n()
                && (#[trigger] self.slot(r1 - 1, am)) is Some
                && self.slot(r1, a1) is Some
                && self.slot(r1, a1)->Some_0.parents@.contains(
                    self.slot(r1 - 1, am)->Some_0.digest)
                && self.slot_reaches(r1 - 1, am, r2, a2);
            self.lemma_slot_reaches_link(r1 - 1, am, r2, a2, a3);
        }
    }

    /// Walks backward from an admitted leader certificate and collects every
    /// certificate in the DAG view reachable through parent links that has not
    /// yet been emitted, in the deterministic emission order: ascending by
    /// round, ascending by author within a round, the leader last.
    fn collect_history(&self, leader: &Certificate) -> (out: Vec<Certificate>)
        requires
            self.wf(),
            leader.round >= 1,
            self.slot(leader.round as int, leader.author as int) is Some,
            cert_eqv(self.slot(leader.round as int, leader.author as int)->Some_0, *leader),
            !self.emitted_contains(leader.digest),
        ensures
            out@.len() >= 1,
            cert_eqv(out@[out@.len() - 1], *leader),
            asc_ordered(out@),
            forall|i: int, j: int| 0 <= i < j < out@.len()
                ==> (#[trigger] out@[i]).digest != (#[trigger] out@[j]).digest,
            forall|i: int| 0 <= i < out@.len() ==> self.elem_ok(#[trigger] out@[i]),
            forall|i: int| 0 <= i < out@.len()
                ==> self.base_round <= (#[trigger] out@[i]).round <= leader.round
                    && out@[i].round >= 1,
            forall|i: int| 0 <= i < out@.len() ==> self.slot_reaches(leader.round as int,
                leader.author as int, (#[trigger] out@[i]).round as int,
                out@[i].author as int),
            forall|i: int, a: int| 0 <= i < out@.len() && 0 <= a < self.n()
                && (#[trigger] out@[i]).round >= 2
                && (#[trigger] self.slot(out@[i].round - 1, a)) is Some
                && out@[i].parents@.contains(self.slot(out@[i].round - 1, a)->Some_0.digest)
                ==> self.emitted_contains(self.slot(out@[i].round - 1, a)->Some_0.digest)
                    || exists|j: int| 0 <= j < i
                        && (#[trigger] out@[j]).digest
                            == self.slot(out@[i].round - 1, a)->Some_0.digest
                        && out@[j].round + 1 == out@[i].round,
    {
        let n = self.committee.size();
        let mut acc: Vec<Certificate> = Vec::new();
        acc.push(copy_certificate(leader));
        let mut frontier: Vec<u64> = copy_digests(&leader.parents);
        proof {
            let lri = leader.round as int;
            let lai = leader.author as int;
            assert(self.slot_reaches(lri, lai, lri, lai));
            assert forall|pd: u64| frontier@.contains(pd)
                implies exists|ac: int| 0 <= ac < self.n()
                    && (#[trigger] self.slot(leader.round as int, ac)) is Some
                    && self.slot_reaches(lri, lai, leader.round as int, ac)
                    && self.slot(leader.round as int, ac)->Some_0.parents@.contains(pd) by {
                assert(self.slot(lri, lai)->Some_0.parents@ == leader.parents@);
                assert(self.slot(lri, lai)->Some_0.parents@.contains(pd));
            };
        }
        let mut k: u64 = leader.round;
        while k > self.base_round && k > 1
            invariant
                self.wf(),
                n == self.n(),
                k >= 1,
                self.slot(leader.round as int, leader.author as int) is Some,
                cert_eqv(self.slot(leader.round as int, leader.author as int)->Some_0, *leader),
                !self.emitted_contains(leader.digest),
                self.base_round <= k <= leader.round,
                leader.round < self.view_end(),
                acc@.len() >= 1,
                cert_eqv(acc@[0], *leader),
                desc_ordered(acc@),
                forall|i: int| 0 <= i < acc@.len() ==> self.elem_ok(#[trigger] acc@[i]),
                forall|i: int| 0 <= i < acc@.len()
                    ==> k <= (#[trigger] acc@[i]).round <= leader.round,
                forall|i: int| 0 <= i < acc@.len() ==> self.slot_reaches(
                    leader.round as int, leader.author as int,
                    (#[trigger] acc@[i]).round as int, acc@[i].author as int),
                forall|pd: u64| frontier@.contains(pd)
                    ==> exists|ac: int| 0 <= ac < self.n()
                        && (#[trigger] self.slot(k as int, ac)) is Some
                        && self.slot_reaches(leader.round as int, leader.author as int,
                            k as int, ac)
                        && self.slot(k as int, ac)->Some_0.parents@.contains(pd),
                forall|i: int, a: int| 0 <= i < acc@.len() && 0 <= a < self.n()
                    && (#[trigger] self.slot((#[trigger] acc@[i]).round - 1, a)) is Some
                    && acc@[i].parents@.contains(
                        self.slot(acc@[i].round - 1, a)->Some_0.digest)
                    ==> self.emitted_contains(self.slot(acc@[i].round - 1, a)->Some_0.digest)
                        || (exists|j: int| 0 <= j < acc@.len()
                            && (#[trigger] acc@[j]).digest
                                == self.slot(acc@[i].round - 1, a)->Some_0.digest
                            && acc@[j].round + 1 == acc@[i].round)
                        || (acc@[i].round - 1 == k - 1 && frontier@.contains(
                            self.slot(acc@[i].round - 1, a)->Some_0.digest)),
            decreases k,
        {
            let kk = k - 1;
            let ghost acc0 = acc@;
            let ghost frontier0 = frontier@;
            let mut next_frontier: Vec<u64> = Vec::new();
            let dlen = self.dag.len();
            proof {
                assert(self.in_view(kk as int));
                assert(kk - self.base_round < dlen);
            }
            let idx = (kk - self.base_round) as usize;
            let mut ai: usize = n;
            while ai > 0
                invariant
                    self.wf(),
                    n == self.n(),
                    0 <= ai <= n,
                    self.base_round <= kk,
                    kk < leader.round,
                    leader.round < self.view_end(),
                    k == kk + 1,
                    idx == kk - self.base_round,
                    !self.emitted_contains(leader.digest),
                    acc@.len() >= acc0.len() >= 1,
                    acc@.subrange(0, acc0.len() as int) == acc0,
                    forall|i: int| 0 <= i < acc0.len()
                        ==> kk + 1 <= (#[trigger] acc0[i]).round,
                    cert_eqv(acc@[0], *leader),
                    desc_ordered(acc@),
                    forall|i: int| 0 <= i < acc@.len() ==> self.elem_ok(#[trigger] acc@[i]),
                    forall|i: int| 0 <= i < acc@.len()
                        ==> kk <= (#[trigger] acc@[i]).round <= leader.round,
                    forall|i: int| 0 <= i < acc@.len() ==> self.slot_reaches(
                        leader.round as int, leader.author as int,
                        (#[trigger] acc@[i]).round as int, acc@[i].author as int),
                    forall|pd: u64| frontier0.contains(pd)
                        ==> exists|ac: int| 0 <= ac < self.n()
                            && (#[trigger] self.slot(kk + 1, ac)) is Some
                            && self.slot_reaches(leader.round as int, leader.author as int,
                                kk + 1, ac)
                            && self.slot(kk + 1, ac)->Some_0.parents@.contains(pd),
                    forall|pd: u64| next_frontier@.contains(pd)
                        ==> exists|ac: int| 0 <= ac < self.n()
                            && (#[trigger] self.slot(kk as int, ac)) is Some
                            && self.slot_reaches(leader.round as int, leader.author as int,
                                kk as int, ac)
                            && self.slot(kk as int, ac)->Some_0.parents@.contains(pd),
                    forall|i: int| acc0.len() <= i < acc@.len() ==> {
                        &&& (#[trigger] acc@[i]).round == kk
                        &&& ai <= acc@[i].author
                        &&& frontier0.contains(acc@[i].digest)
                    },
                    // Certificates of round kk already scanned and cited from
                    // above are either emitted or collected.
                    forall|a2: int| ai <= a2 < n && (#[trigger] self.slot(kk as int, a2)) is Some
                        && frontier0.contains(self.slot(kk as int, a2)->Some_0.digest)
                        ==> self.emitted_contains(self.slot(kk as int, a2)->Some_0.digest)
                            || exists|j: int| acc0.len() <= j < acc@.len()
                                && (#[trigger] acc@[j]).digest
                                    == self.slot(kk as int, a2)->Some_0.digest,
                    // Parents of every scanned cited certificate feed the next
                    // frontier.
                    forall|a2: int, pi: int| ai <= a2 < n
                        && (#[trigger] self.slot(kk as int, a2)) is Some
                        && frontier0.contains(self.slot(kk as int, a2)->Some_0.digest)
                        && 0 <= pi < self.slot(kk as int, a2)->Some_0.parents@.len()
                        ==> next_frontier@.contains(
                            #[trigger] self.slot(kk as int, a2)->Some_0.parents@[pi]),
                    // Closure, allowing the two frontiers as open obligations.
                    forall|i: int, a: int| 0 <= i < acc@.len() && 0 <= a < self.n()
                        && (#[trigger] self.slot((#[trigger] acc@[i]).round - 1, a)) is Some
                        && acc@[i].parents@.contains(
                            self.slot(acc@[i].round - 1, a)->Some_0.digest)
                        ==> self.emitted_contains(
                                self.slot(acc@[i].round - 1, a)->Some_0.digest)
                            || (exists|j: int| 0 <= j < acc@.len()
                                && (#[trigger] acc@[j]).digest
                                    == self.slot(acc@[i].round - 1, a)->Some_0.digest
                                && acc@[j].round + 1 == acc@[i].round)
                            || (acc@[i].round - 1 == kk && frontier0.contains(
                                self.slot(acc@[i].round - 1, a)->Some_0.digest))
                            || (acc@[i].round - 1 == kk - 1 && next_frontier@.contains(
                                self.slot(acc@[i].round - 1, a)->Some_0.digest)),
                    frontier@ == frontier0,
                decreases ai,
            {
                let a = ai - 1;
                let ghost acc_before = acc@;
                let ghost nf_before = next_frontier@;
                match &self.dag[idx][a] {
                    Some(c) => {
                        proof {
                            assert(self.slot(kk as int, a as int) == Some(*c));
                        }
                        if digests_contain(&frontier, c.digest) {
                            proof {
                                // A reached certificate one round up cites
                                // this one, so it is reached too.
                                let lri = leader.round as int;
                                let lai = leader.author as int;
                                let ac = choose|ac: int| 0 <= ac < self.n()
                                    && (#[trigger] self.slot(kk + 1, ac)) is Some
                                    && self.slot_reaches(lri, lai, kk + 1, ac)
                                    && self.slot(kk + 1, ac)->Some_0.parents@.contains(
                                        c.digest);
                                self.lemma_slot_reaches_link(lri, lai, kk + 1, ac, a as int);
                                assert(self.slot_reaches(lri, lai, kk as int, a as int));
                            }
                            extend_digests(&mut next_frontier, &c.parents);
                            if !self.emitted_has(c.digest) {
                                acc.push(copy_certificate(c));
                                proof {
                                    let ln = acc@.len() - 1;
                                    assert(acc@[ln] == acc@.last());
                                    assert(cert_eqv(acc@[ln], *c));
                                    assert(acc@.subrange(0, acc0.len() as int)
                                        =~= acc_before.subrange(0, acc0.len() as int));
                                    assert forall|i: int, j: int| 0 <= i < j < acc@.len()
                                        implies (#[trigger] acc@[i]).round
                                            > (#[trigger] acc@[j]).round
                                            || (acc@[i].round == acc@[j].round
                                                && acc@[i].author > acc@[j].author) by {
                                        if j < ln {
                                        } else {
                                            assert(acc@[i] == acc_before[i]);
                                            if i >= acc0.len() {
                                            } else {
                                                assert(acc@[i] == acc0[i]);
                                                assert(acc0[i].round >= kk + 1);
                                            }
                                        }
                                    };
                                }
                            }
                        }
                    },
                    None => {},
                }
                proof {
                    assert forall|i: int| 0 <= i < acc@.len()
                        implies self.elem_ok(#[trigger] acc@[i]) by {
                        if i < acc_before.len() {
                            assert(acc@[i] == acc_before[i]);
                        }
                    };
                    assert forall|i: int| 0 <= i < acc@.len()
                        implies self.slot_reaches(leader.round as int,
                            leader.author as int, (#[trigger] acc@[i]).round as int,
                            acc@[i].author as int) by {
                        if i < acc_before.len() {
                            assert(acc@[i] == acc_before[i]);
                        }
                    };
                    assert forall|pd: u64| next_frontier@.contains(pd)
                        implies exists|ac: int| 0 <= ac < self.n()
                            && (#[trigger] self.slot(kk as int, ac)) is Some
                            && self.slot_reaches(leader.round as int, leader.author as int,
                                kk as int, ac)
                            && self.slot(kk as int, ac)->Some_0.parents@.contains(pd) by {
                        if !nf_before.contains(pd) {
                            assert(self.slot(kk as int, a as int) is Some);
                        }
                    };
                    // Closure with the two frontiers as open obligations.
                    assert forall|i: int, a2: int| 0 <= i < acc@.len() && 0 <= a2 < self.n()
                        && (#[trigger] self.slot((#[trigger] acc@[i]).round - 1, a2)) is Some
                        && acc@[i].parents@.contains(
                            self.slot(acc@[i].round - 1, a2)->Some_0.digest)
                        implies self.emitted_contains(
                                self.slot(acc@[i].round - 1, a2)->Some_0.digest)
                            || (exists|j: int| 0 <= j < acc@.len()
                                && (#[trigger] acc@[j]).digest
                                    == self.slot(acc@[i].round - 1, a2)->Some_0.digest
                                && acc@[j].round + 1 == acc@[i].round)
                            || (acc@[i].round - 1 == kk && frontier0.contains(
                                self.slot(acc@[i].round - 1, a2)->Some_0.digest))
                            || (acc@[i].round - 1 == kk - 1 && next_frontier@.contains(
                                self.slot(acc@[i].round - 1, a2)->Some_0.digest)) by {
                        let pd = self.slot(acc@[i].round - 1, a2)->Some_0.digest;
                        if i < acc_before.len() {
                            assert(acc@[i] == acc_before[i]);
                            if self.emitted_contains(pd) {
                            } else if exists|j: int| 0 <= j < acc_before.len()
                                && (#[trigger] acc_before[j]).digest == pd
                                && acc_before[j].round + 1 == acc_before[i].round {
                                let j0 = choose|j0: int| 0 <= j0 < acc_before.len()
                                    && (#[trigger] acc_before[j0]).digest == pd
                                    && acc_before[j0].round + 1 == acc_before[i].round;
                                assert(acc@[j0] == acc_before[j0]);
                            } else if acc@[i].round - 1 == kk && frontier0.contains(pd) {
                            } else {
                                assert(acc@[i].round - 1 == kk - 1 && nf_before.contains(pd));
                            }
                        } else {
                            assert(acc@[i].round == kk);
                            let pi = choose|pi: int| 0 <= pi < acc@[i].parents@.len()
                                && acc@[i].parents@[pi] == pd;
                            assert(next_frontier@.contains(acc@[i].parents@[pi]));
                        }
                    };
                    // Scanned certificates cited from above are accounted for.
                    assert forall|a2: int| a <= a2 < n
                        && (#[trigger] self.slot(kk as int, a2)) is Some
                        && frontier0.contains(self.slot(kk as int, a2)->Some_0.digest)
                        && !self.emitted_contains(self.slot(kk as int, a2)->Some_0.digest)
                        implies exists|j: int| acc0.len() <= j < acc@.len()
                            && (#[trigger] acc@[j]).digest
                                == self.slot(kk as int, a2)->Some_0.digest by {
                        if a2 == a {
                            let ln = acc@.len() - 1;
                            assert(acc@[ln].digest == self.slot(kk as int, a2)->Some_0.digest);
                        } else {
                            let j0 = choose|j0: int| acc0.len() <= j0 < acc_before.len()
                                && (#[trigger] acc_before[j0]).digest
                                    == self.slot(kk as int, a2)->Some_0.digest;
                            assert(acc@[j0] == acc_before[j0]);
                        }
                    };
                }
                ai = a;
            }
            frontier = next_frontier;
            k = kk;
            proof {
                // Re-establish the outer closure for the new lowest round.
                assert forall|i: int, a: int| 0 <= i < acc@.len() && 0 <= a < self.n()
                    && (#[trigger] self.slot((#[trigger] acc@[i]).round - 1, a)) is Some
                    && acc@[i].parents@.contains(
                        self.slot(acc@[i].round - 1, a)->Some_0.digest)
                    implies self.emitted_contains(
                            self.slot(acc@[i].round - 1, a)->Some_0.digest)
                        || (exists|j: int| 0 <= j < acc@.len()
                            && (#[trigger] acc@[j]).digest
                                == self.slot(acc@[i].round - 1, a)->Some_0.digest
                            && acc@[j].round + 1 == acc@[i].round)
                        || (acc@[i].round - 1 == k - 1 && frontier@.contains(
                            self.slot(acc@[i].round - 1, a)->Some_0.digest)) by {
                    let pd = self.slot(acc@[i].round - 1, a)->Some_0.digest;
                    if !self.emitted_contains(pd) {
                        if acc@[i].round - 1 == kk && frontier0.contains(pd) {
                            // Resolved while scanning round kk.
                            assert(self.slot(kk as int, a) is Some);
                            if !self.emitted_contains(pd) {
                                let j = choose|j: int| acc0.len() <= j < acc@.len()
                                    && (#[trigger] acc@[j]).digest
                                        == self.slot(kk as int, a)->Some_0.digest;
                                assert(acc@[j].round + 1 == acc@[i].round);
                            }
                        }
                    }
                };
            }
        }
        // Reverse into emission order; the deepest round comes out first.
        let ghost acc_final = acc@;
        let mut out: Vec<Certificate> = Vec::new();
        while acc.len() > 0
            invariant
                out@.len() + acc@.len() == acc_final.len(),
                acc@ == acc_final.subrange(0, acc@.len() as int),
                forall|i: int| 0 <= i < out@.len()
                    ==> #[trigger] out@[i] == acc_final[acc_final.len() - 1 - i],
            decreases acc@.len(),
        {
            let c = match acc.pop() {
                Some(c) => c,
                None => {
                    proof {
                        assert(false);
                    }
                    copy_certificate(leader)
                },
            };
            out.push(c);
            proof {
                assert(acc@ =~= acc_final.subrange(0, acc@.len() as int));
            }
        }
        proof {
            let L = acc_final.len() as int;
            assert(out@.len() == L);
            assert(cert_eqv(acc_final[0], *leader));
            assert(out@[L - 1] == acc_final[0]);
            assert forall|i: int, j: int| 0 <= i < j < out@.len()
                implies (#[trigger] out@[i]).round < (#[trigger] out@[j]).round
                    || (out@[i].round == out@[j].round
                        && out@[i].author < out@[j].author) by {
                assert(out@[i] == acc_final[L - 1 - i]);
                assert(out@[j] == acc_final[L - 1 - j]);
            };
            assert forall|i: int| 0 <= i < out@.len()
                implies self.slot_reaches(leader.round as int, leader.author as int,
                    (#[trigger] out@[i]).round as int, out@[i].author as int) by {
                assert(out@[i] == acc_final[L - 1 - i]);
            };
            assert forall|i: int, j: int| 0 <= i < j < out@.len()
                implies (#[trigger] out@[i]).digest != (#[trigger] out@[j]).digest by {
                assert(out@[i] == acc_final[L - 1 - i]);
                assert(out@[j] == acc_final[L - 1 - j]);
                assert(self.slot(out@[i].round as int, out@[i].author as int) is Some);
                assert(self.slot(out@[j].round as int, out@[j].author as int) is Some);
                assert(out@[i].round != out@[j].round || out@[i].author != out@[j].author);
            };
            assert forall|i: int, a: int| 0 <= i < out@.len() && 0 <= a < self.n()
                && (#[trigger] out@[i]).round >= 2
                && (#[trigger] self.slot(out@[i].round - 1, a)) is Some
                && out@[i].parents@.contains(self.slot(out@[i].round - 1, a)->Some_0.digest)
                implies self.emitted_contains(self.slot(out@[i].round - 1, a)->Some_0.digest)
                    || exists|j: int| 0 <= j < i
                        && (#[trigger] out@[j]).digest
                            == self.slot(out@[i].round - 1, a)->Some_0.digest
                        && out@[j].round + 1 == out@[i].round by {
                let pd = self.slot(out@[i].round - 1, a)->Some_0.digest;
                assert(out@[i] == acc_final[L - 1 - i]);
                if !self.emitted_contains(pd) {
                    let j0 = choose|j0: int| 0 <= j0 < acc_final.len()
                        && (#[trigger] acc_final[j0]).digest == pd
                        && acc_final[j0].round + 1 == acc_final[L - 1 - i].round;
                    let j = L - 1 - j0;
                    assert(out@[j] == acc_final[j0]);
                    assert(out@[j].round + 1 == out@[i].round);
                    if j >= i {
                        if j == i {
                        } else {
                            assert(out@[i].round < out@[j].round
                                || (out@[i].round == out@[j].round
                                    && out@[i].author < out@[j].author));
                        }
                        assert(false);
                    }
                }
            };
        }
        out
    }
}

} // verus!

verus! {

/// The DAG view and its well-formedness depend only on the committee, the
/// base round, and the arena: they carry over to any state sharing those.
proof fn lemma_view_transfer(a: ConsensusState, b: ConsensusState)
    requires
        b.committee == a.committee,
        b.base_round == a.base_round,
        b.dag@ == a.dag@,
        a.slots_wf(),
        a.digests_distinct(),
        a.parents_admitted(),
    ensures
        forall|r: int, x: int| #[trigger] b.slot(r, x) == a.slot(r, x),
        b.slots_wf(),
        b.digests_distinct(),
        b.parents_admitted(),
{
    assert forall|r: int, x: int| #[trigger] b.slot(r, x) == a.slot(r, x) by {
        assert(b.n() == a.n());
        assert(b.view_end() == a.view_end());
        if b.in_view(r) && 0 <= x < b.n() {
            assert(b.dag@[r - b.base_round] == a.dag@[r - a.base_round]);
        }
    };
    assert forall|i: int| 0 <= i < b.dag@.len()
        implies (#[trigger] b.dag@[i])@.len() == b.n() by {
        assert(b.dag@[i] == a.dag@[i]);
    };
    assert forall|r: int, x: int| (#[trigger] b.slot(r, x)) is Some implies {
        &&& b.slot(r, x)->Some_0.author == x
        &&& b.slot(r, x)->Some_0.round == r
        &&& strictly_increasing(b.slot(r, x)->Some_0.parents@)
    } by {
        assert(b.slot(r, x) == a.slot(r, x));
    };
    assert forall|r1: int, a1: int, r2: int, a2: int|
        (#[trigger] b.slot(r1, a1)) is Some && (#[trigger] b.slot(r2, a2)) is Some
            && (r1 != r2 || a1 != a2)
        implies b.slot(r1, a1)->Some_0.digest != b.slot(r2, a2)->Some_0.digest by {
        assert(b.slot(r1, a1) == a.slot(r1, a1));
        assert(b.slot(r2, a2) == a.slot(r2, a2));
    };
    assert forall|r: int, x: int|
        (#[trigger] b.slot(r, x)) is Some && r >= b.base_round + 1
        implies forall|pi: int| 0 <= pi < b.slot(r, x)->Some_0.parents@.len()
            ==> b.resolvable(r - 1, #[trigger] b.slot(r, x)->Some_0.parents@[pi]) by {
        let cc = b.slot(r, x)->Some_0;
        assert(a.slot(r, x) is Some);
        assert forall|pi: int| 0 <= pi < cc.parents@.len()
            implies b.resolvable(r - 1, #[trigger] cc.parents@[pi]) by {
            assert(a.resolvable(r - 1, cc.parents@[pi]));
            let wa = choose|wa: int| 0 <= wa < a.n()
                && (#[trigger] a.slot(r - 1, wa)) is Some
                && a.slot(r - 1, wa)->Some_0.digest == cc.parents@[pi];
            assert(b.slot(r - 1, wa) == a.slot(r - 1, wa));
        };
    };
}

impl ConsensusState {
    /// All parents `c` cites are admitted at round `c.round - 1`.
    pub open spec fn parents_ready_spec(&self, c: Certificate) -> bool {
        forall|pi: int| 0 <= pi < c.parents@.len()
            ==> self.resolvable(c.round - 1, #[trigger] c.parents@[pi])
    }

    /// Why an incoming certificate would be rejected, in the order the checks
    /// run; `None` means it is admitted or buffered.
    pub open spec fn admit_error(&self, c: Certificate) -> Option<DagError> {
        if c.author as int >= self.n() {
            Some(DagError::UnknownValidator)
        } else if c.round < 1 {
            Some(DagError::InvalidRound)
        } else if c.voters@.len() != self.n() || !strictly_increasing(c.parents@) {
            Some(DagError::Malformed)
        } else if flag_stake(self.committee.stakes@, c.voters@) < self.committee.quorum {
            Some(DagError::InsufficientQuorum)
        } else if c.round <= self.base_round || c.round == u64::MAX {
            Some(DagError::InvalidRound)
        } else if self.digest_known(c.digest) {
            Some(DagError::AlreadyProcessed)
        } else if self.slot(c.round as int, c.author as int) is Some {
            Some(DagError::Equivocation)
        } else if self.parents_ready_spec(c)
            && flag_stake(self.committee.stakes@, self.parent_flags(c)) < self.committee.quorum {
            Some(DagError::InsufficientParents)
        } else {
            None
        }
    }

    /// Re-examines the buffer and admits every certificate whose parents have
    /// all arrived, until no more can be admitted.
    fn drain_pending(&mut self)
        requires
            old(self).wf(),
        ensures
            final(self).wf(),
            final(self).committee == old(self).committee,
            final(self).gc_depth == old(self).gc_depth,
            final(self).base_round == old(self).base_round,
            final(self).emitted@ == old(self).emitted@,
            final(self).next_leader_round == old(self).next_leader_round,
            final(self).last_committed_round == old(self).last_committed_round,
            final(self).view_end() >= old(self).view_end(),
            forall|r: int, a: int| old(self).slot(r, a) is Some
                ==> final(self).slot(r, a) == old(self).slot(r, a),
    {
        let ghost orig = *self;
        let mut i: usize = 0;
        while i < self.pending.len()
            invariant
                self.wf(),
                self.committee == orig.committee,
                self.gc_depth == orig.gc_depth,
                self.base_round == orig.base_round,
                self.emitted@ == orig.emitted@,
                self.next_leader_round == orig.next_leader_round,
                self.last_committed_round == orig.last_committed_round,
                self.view_end() >= orig.view_end(),
                0 <= i <= self.pending@.len(),
                forall|r: int, a: int| orig.slot(r, a) is Some
                    ==> #[trigger] self.slot(r, a) == orig.slot(r, a),
            decreases self.pending@.len(), self.pending@.len() - i,
        {
            let c = copy_certificate_at(&self.pending, i);
            let ghost pc = self.pending@[i as int];
            proof {
                assert(cert_valid(self.committee, pc));
                assert(cert_valid(self.committee, c));
            }
            // A slot or digest conflict drops the buffered certificate.
            let occupied = match self.digest_at(c.round, c.author) {
                Some(_) => true,
                None => false,
            };
            let dup = self.has_digest(c.digest);
            if occupied || dup {
                let ghost pend0 = self.pending@;
                let ghost prev = *self;
                let _ = self.pending.remove(i);
                proof {
                    lemma_view_transfer(prev, *self);
                    assert forall|r: int, a: int| orig.slot(r, a) is Some
                        implies #[trigger] self.slot(r, a) == orig.slot(r, a) by {
                        assert(self.slot(r, a) == prev.slot(r, a));
                    };
                    assert forall|k: int| 0 <= k < self.pending@.len()
                        implies cert_valid(self.committee, #[trigger] self.pending@[k])
                            && self.pending@[k].round > self.base_round
                            && self.pending@[k].round < u64::MAX by {
                        if k < i {
                            assert(self.pending@[k] == pend0[k]);
                        } else {
                            assert(self.pending@[k] == pend0[k + 1]);
                        }
                    };
                }
                continue;
            }
            if !self.parents_ready(&c) {
                i += 1;
                continue;
            }
            let stake = self.parent_stake(&c);
            if stake < self.committee.quorum {
                // Certified parents short of a quorum: rejected outright.
                let ghost pend0 = self.pending@;
                let ghost prev = *self;
                let _ = self.pending.remove(i);
                proof {
                    lemma_view_transfer(prev, *self);
                    assert forall|r: int, a: int| orig.slot(r, a) is Some
                        implies #[trigger] self.slot(r, a) == orig.slot(r, a) by {
                        assert(self.slot(r, a) == prev.slot(r, a));
                    };
                    assert forall|k: int| 0 <= k < self.pending@.len()
                        implies cert_valid(self.committee, #[trigger] self.pending@[k])
                            && self.pending@[k].round > self.base_round
                            && self.pending@[k].round < u64::MAX by {
                        if k < i {
                            assert(self.pending@[k] == pend0[k]);
                        } else {
                            assert(self.pending@[k] == pend0[k + 1]);
                        }
                    };
                }
                continue;
            }
            proof {
                // A quorum of cited parent stake means some parent is
                // admitted, so the previous round is inside the view.
                if !self.in_view(c.round - 1) {
                    let flags = self.parent_flags(c);
                    assert(forall|a: int| 0 <= a < self.n() ==> !flags[a]);
                    crate::config::lemma_flag_stake_all_false(self.committee.stakes@, flags);
                    assert(false);
                }
            }
            let ghost before = *self;
            self.insert_cert(c);
            proof {
                assert forall|r: int, a: int| orig.slot(r, a) is Some
                    implies #[trigger] self.slot(r, a) == orig.slot(r, a) by {
                    assert(before.slot(r, a) == orig.slot(r, a));
                };
            }
            let ghost pend0 = self.pending@;
            let ghost prev2 = *self;
            let _ = self.pending.remove(i);
            proof {
                lemma_view_transfer(prev2, *self);
                assert forall|r: int, a: int| orig.slot(r, a) is Some
                    implies #[trigger] self.slot(r, a) == orig.slot(r, a) by {
                    assert(self.slot(r, a) == prev2.slot(r, a));
                };
                assert forall|k: int| 0 <= k < self.pending@.len()
                    implies cert_valid(self.committee, #[trigger] self.pending@[k])
                        && self.pending@[k].round > self.base_round
                        && self.pending@[k].round < u64::MAX by {
                    if k < i {
                        assert(self.pending@[k] == pend0[k]);
                    } else {
                        assert(self.pending@[k] == pend0[k + 1]);
                    }
                };
            }
            i = 0;
        }
    }

    /// The commit rule holds for the next leader round: the support round is
    /// in the view, the leader's certificate is admitted, not yet emitted,
    /// and a quorum of stake at the following round cites it.
    pub open spec fn committable(&self) -> bool {
        let r = self.next_leader_round as int;
        let la = leader_spec(self.committee, self.next_leader_round);
        &&& r + 1 < self.view_end()
        &&& self.slot(r, la) is Some
        &&& flag_stake(self.committee.stakes@,
            self.support_flags(r, self.slot(r, la)->Some_0.digest)) >= self.committee.quorum
        &&& !self.emitted_contains(self.slot(r, la)->Some_0.digest)
    }

    /// One commit's batch, against the pre-commit state: at least the
    /// leader, every element an admitted and not yet emitted certificate of
    /// the view, pairwise distinct, in ascending (round, author) order with
    /// the committed leader last, rounds between the view base and the leader
    /// round, and causally closed: a cited parent admitted at the previous
    /// round is already emitted or stands earlier in the batch.
    pub open spec fn commit_batch_ok(&self, batch: Seq<Certificate>) -> bool {
        let lr = self.next_leader_round;
        let la = leader_spec(self.committee, lr);
        let leader = self.slot(lr as int, la)->Some_0;
        &&& batch.len() >= 1
        &&& cert_eqv(batch[batch.len() - 1], leader)
        &&& asc_ordered(batch)
        &&& (forall|i: int, j: int| 0 <= i < j < batch.len()
            ==> (#[trigger] batch[i]).digest != (#[trigger] batch[j]).digest)
        &&& (forall|i: int| 0 <= i < batch.len() ==> self.elem_ok(#[trigger] batch[i]))
        &&& (forall|i: int| 0 <= i < batch.len()
            ==> self.base_round <= (#[trigger] batch[i]).round <= lr
                && batch[i].round >= 1)
        &&& (forall|i: int| 0 <= i < batch.len() ==> self.slot_reaches(lr as int, la,
            (#[trigger] batch[i]).round as int, batch[i].author as int))
        &&& (forall|i: int, a: int| 0 <= i < batch.len() && 0 <= a < self.n()
            && (#[trigger] batch[i]).round >= 2
            && (#[trigger] self.slot(batch[i].round - 1, a)) is Some
            && batch[i].parents@.contains(self.slot(batch[i].round - 1, a)->Some_0.digest)
            ==> self.emitted_contains(self.slot(batch[i].round - 1, a)->Some_0.digest)
                || exists|j: int| 0 <= j < i
                    && (#[trigger] batch[j]).digest
                        == self.slot(batch[i].round - 1, a)->Some_0.digest
                    && batch[j].round + 1 == batch[i].round)
    }

    /// Applies the commit rule to the next leader round, once: exactly when
    /// the rule is satisfied, the leader is committed, its not-yet-emitted
    /// history is appended to the committed stream in the deterministic
    /// emission order, and rounds below the new watermark are pruned. When
    /// the rule is not satisfied, nothing changes: consensus waits, it never
    /// guesses and never skips a committable leader.
    pub fn try_commit_next(&mut self) -> (r: Option<Vec<Certificate>>)
        requires
            old(self).wf(),
        ensures
            final(self).wf(),
            r is Some <==> old(self).committable(),
            r is None ==> *final(self) == *old(self),
            final(self).committee == old(self).committee,
            final(self).gc_depth == old(self).gc_depth,
            r matches Some(batch) ==> {
                &&& old(self).commit_batch_ok(batch@)
                &&& final(self).emitted@.len() == old(self).emitted@.len() + batch@.len()
                &&& (forall|i: int| 0 <= i < old(self).emitted@.len()
                    ==> final(self).emitted@[i] == old(self).emitted@[i])
                &&& (forall|i: int| 0 <= i < batch@.len()
                    ==> cert_eqv(final(self).emitted@[old(self).emitted@.len() + i],
                        #[trigger] batch@[i]))
                &&& final(self).last_committed_round == old(self).next_leader_round
                &&& final(self).next_leader_round == old(self).next_leader_round + 2
                &&& final(self).view_end() == old(self).view_end()
                &&& final(self).base_round >= old(self).base_round
                &&& final(self).base_round as int == (if old(self).next_leader_round
                        > old(self).gc_depth
                        && old(self).next_leader_round - old(self).gc_depth
                            > old(self).base_round {
                    old(self).next_leader_round - old(self).gc_depth
                } else {
                    old(self).base_round as int
                })
                &&& (forall|r2: int, a2: int| old(self).slot(r2, a2) is Some
                    && r2 >= final(self).base_round
                    ==> final(self).slot(r2, a2) == old(self).slot(r2, a2))
            },
    {
        let ghost orig = *self;
        let r = self.next_leader_round;
        let depth = self.dag.len() as u64;
        if depth < 2 {
            proof {
                assert(r >= self.base_round + 2);
            }
            return None;
        }
        if r - self.base_round > depth - 2 {
            // The support round is not in the view yet: wait.
            return None;
        }
        let la = leader_of(&self.committee, r);
        proof {
            assert(r - self.base_round < self.dag@.len());
        }
        let idx = (r - self.base_round) as usize;
        let leader = match &self.dag[idx][la] {
            Some(c) => copy_certificate(c),
            None => {
                // No leader certificate admitted for this round: wait.
                return None;
            },
        };
        proof {
            assert(self.slot(r as int, la as int) is Some);
        }
        let support = self.support_stake(r, leader.digest);
        if support < self.committee.quorum {
            // The leader lacks a quorum of stake citing it: wait.
            return None;
        }
        if self.emitted_has(leader.digest) {
            return None;
        }
        proof {
            assert(orig.committable());
        }
        let hist = self.collect_history(&leader);
        let ghost pre = *self;
        self.last_committed_round = r;
        self.next_leader_round = r + 2;
        let m = hist.len();
        let mut j: usize = 0;
            while j < m
                invariant
                    m == hist@.len(),
                    0 <= j <= m,
                    pre.wf(),
                    self.committee == pre.committee,
                    self.gc_depth == pre.gc_depth,
                    self.base_round == pre.base_round,
                    self.dag@ == pre.dag@,
                    self.pending@ == pre.pending@,
                    self.next_leader_round == pre.next_leader_round + 2,
                    self.last_committed_round == pre.next_leader_round,
                    pre.next_leader_round + 2 == self.next_leader_round,
                    self.emitted@.len() == pre.emitted@.len() + j,
                    forall|t: int| 0 <= t < pre.emitted@.len()
                        ==> #[trigger] self.emitted@[t] == pre.emitted@[t],
                    forall|t: int| 0 <= t < j
                        ==> cert_eqv(self.emitted@[pre.emitted@.len() + t],
                            #[trigger] hist@[t]),
                    forall|t: int| 0 <= t < hist@.len()
                        ==> (#[trigger] hist@[t]).round <= self.last_committed_round,
                decreases m - j,
            {
                let e = copy_certificate_at(&hist, j);
                self.emitted.push(e);
                j += 1;
            }
            proof {
                lemma_view_transfer(pre, *self);
                assert forall|k: int| 0 <= k < self.pending@.len() implies {
                    &&& cert_valid(self.committee, #[trigger] self.pending@[k])
                    &&& self.pending@[k].round < u64::MAX
                    &&& self.pending@[k].round > self.base_round
                } by {
                    assert(self.pending@[k] == pre.pending@[k]);
                };
                assert forall|k: int| 0 <= k < self.emitted@.len()
                    implies (#[trigger] self.emitted@[k]).round
                        <= self.last_committed_round by {
                    if k < pre.emitted@.len() {
                        assert(self.emitted@[k] == pre.emitted@[k]);
                    } else {
                        assert(cert_eqv(self.emitted@[k],
                            hist@[k - pre.emitted@.len()]));
                    }
                };
                let pl = pre.emitted@.len() as int;
                // Old emitted digests remain emitted.
                assert forall|d: u64| pre.emitted_contains(d)
                    implies self.emitted_contains(d) by {
                    let w = choose|w: int| 0 <= w < pre.emitted@.len()
                        && (#[trigger] pre.emitted@[w]).digest == d;
                    assert(self.emitted@[w] == pre.emitted@[w]);
                };
                // Parents of newly emitted certificates are themselves
                // emitted, unless pruned below the view.
                assert forall|i: int, pi: int| 0 <= i < self.emitted@.len()
                    && 0 <= pi < (#[trigger] self.emitted@[i]).parents@.len()
                    implies self.emitted_contains(#[trigger] self.emitted@[i].parents@[pi])
                        || self.emitted@[i].round - 1 < self.base_round
                        || self.emitted@[i].round == 1 by {
                    if i < pl {
                        assert(self.emitted@[i] == pre.emitted@[i]);
                        if pre.emitted_contains(pre.emitted@[i].parents@[pi]) {
                            assert(self.emitted_contains(self.emitted@[i].parents@[pi]));
                        }
                    } else {
                        let t = i - pl;
                        let c = hist@[t];
                        assert(cert_eqv(self.emitted@[i], c));
                        let pd = c.parents@[pi];
                        assert(self.emitted@[i].parents@[pi] == pd);
                        if c.round >= 2 && c.round >= pre.base_round + 1 {
                            let sc = pre.slot(c.round as int, c.author as int);
                            assert(sc is Some && cert_eqv(sc->Some_0, c));
                            assert(sc->Some_0.parents@[pi] == pd);
                            assert(pre.resolvable(c.round - 1, pd));
                            let wa = choose|wa: int| 0 <= wa < pre.n()
                                && (#[trigger] pre.slot(c.round - 1, wa)) is Some
                                && pre.slot(c.round - 1, wa)->Some_0.digest == pd;
                            assert(c.parents@.contains(
                                pre.slot(c.round - 1, wa)->Some_0.digest));
                            if pre.emitted_contains(pd) {
                                assert(self.emitted_contains(pd));
                            } else {
                                let tj = choose|tj: int| 0 <= tj < t
                                    && (#[trigger] hist@[tj]).digest == pd
                                    && hist@[tj].round + 1 == hist@[t].round;
                                assert(cert_eqv(self.emitted@[pl + tj], hist@[tj]));
                                assert(self.emitted@[pl + tj].digest == pd);
                                assert(self.emitted_contains(pd));
                            }
                        }
                    }
                };
                // Exactly-once delivery across the extension.
                assert forall|i: int, j2: int| 0 <= i < j2 < self.emitted@.len()
                    implies (#[trigger] self.emitted@[i]).digest
                        != (#[trigger] self.emitted@[j2]).digest by {
                    if j2 < pl {
                        assert(self.emitted@[i] == pre.emitted@[i]);
                        assert(self.emitted@[j2] == pre.emitted@[j2]);
                    } else if i < pl {
                        assert(self.emitted@[i] == pre.emitted@[i]);
                        assert(cert_eqv(self.emitted@[j2], hist@[j2 - pl]));
                        assert(!pre.emitted_contains(hist@[j2 - pl].digest));
                    } else {
                        assert(cert_eqv(self.emitted@[i], hist@[i - pl]));
                        assert(cert_eqv(self.emitted@[j2], hist@[j2 - pl]));
                        assert(hist@[i - pl].digest != hist@[j2 - pl].digest);
                    }
                };
                // Causal order of the extended stream.
                assert forall|i: int, j2: int| 0 <= i < self.emitted@.len()
                    && 0 <= j2 < self.emitted@.len()
                    && (#[trigger] self.emitted@[i]).parents@.contains(
                        (#[trigger] self.emitted@[j2]).digest)
                    && self.emitted@[j2].round + 1 == self.emitted@[i].round
                    implies j2 < i by {
                    if i < pl && j2 < pl {
                        assert(self.emitted@[i] == pre.emitted@[i]);
                        assert(self.emitted@[j2] == pre.emitted@[j2]);
                    } else if i < pl && j2 >= pl {
                        // An old certificate citing a new one: impossible.
                        assert(self.emitted@[i] == pre.emitted@[i]);
                        let tj = j2 - pl;
                        assert(cert_eqv(self.emitted@[j2], hist@[tj]));
                        let pd = self.emitted@[j2].digest;
                        let pi = choose|pi: int| 0 <= pi
                            < pre.emitted@[i].parents@.len()
                            && pre.emitted@[i].parents@[pi] == pd;
                        assert(pre.emitted_contains(pd)
                            || pre.emitted@[i].round - 1 < pre.base_round
                            || pre.emitted@[i].round == 1);
                        if pre.emitted_contains(pd) {
                            assert(!pre.emitted_contains(hist@[tj].digest));
                            assert(false);
                        } else if pre.emitted@[i].round == 1 {
                            assert(hist@[tj].round >= 1);
                            assert(false);
                        } else {
                            assert(hist@[tj].round >= pre.base_round);
                            assert(false);
                        }
                    } else if i >= pl && j2 >= pl {
                        let ti = i - pl;
                        let tj = j2 - pl;
                        if tj > ti {
                            assert(hist@[ti].round < hist@[tj].round
                                || (hist@[ti].round == hist@[tj].round
                                    && hist@[ti].author < hist@[tj].author));
                            assert(false);
                        } else if tj == ti {
                            assert(false);
                        }
                    }
                };
                assert(self.wf());
            }
            let mut batch: Vec<Certificate> = Vec::new();
            let mut bj: usize = 0;
            while bj < m
                invariant
                    m == hist@.len(),
                    0 <= bj <= m,
                    batch@.len() == bj,
                    forall|t: int| 0 <= t < bj
                        ==> cert_eqv(#[trigger] batch@[t], hist@[t]),
                decreases m - bj,
            {
                let e = copy_certificate_at(&hist, bj);
                batch.push(e);
                bj += 1;
            }
            let watermark = if r > self.gc_depth {
                r - self.gc_depth
            } else {
                0
            };
            let ghost mid = *self;
            self.garbage_collect(watermark);
            proof {
                assert forall|i: int| 0 <= i < batch@.len()
                    implies cert_eqv(self.emitted@[orig.emitted@.len() + i],
                        #[trigger] batch@[i]) by {
                    assert(cert_eqv(batch@[i], hist@[i]));
                    assert(cert_eqv(mid.emitted@[pre.emitted@.len() + i], hist@[i]));
                };
                assert forall|r2: int, a2: int|
                    orig.slot(r2, a2) is Some && r2 >= self.base_round
                    implies #[trigger] self.slot(r2, a2) == orig.slot(r2, a2) by {
                    assert(self.slot(r2, a2) == mid.slot(r2, a2));
                    assert(mid.slot(r2, a2) == orig.slot(r2, a2));
                };
                // The returned batch mirrors the collected history.
                assert forall|i: int| 0 <= i < batch@.len()
                    implies orig.elem_ok(#[trigger] batch@[i]) by {
                    assert(cert_eqv(batch@[i], hist@[i]));
                    assert(orig.elem_ok(hist@[i]));
                };
                assert forall|i: int, j2: int| 0 <= i < j2 < batch@.len()
                    implies ((#[trigger] batch@[i]).round < (#[trigger] batch@[j2]).round
                        || (batch@[i].round == batch@[j2].round
                            && batch@[i].author < batch@[j2].author))
                        && batch@[i].digest != batch@[j2].digest by {
                    assert(cert_eqv(batch@[i], hist@[i]));
                    assert(cert_eqv(batch@[j2], hist@[j2]));
                };
                assert(cert_eqv(batch@[batch@.len() - 1],
                    orig.slot(r as int, la as int)->Some_0)) by {
                    assert(cert_eqv(batch@[batch@.len() - 1], hist@[hist@.len() - 1]));
                    assert(cert_eqv(hist@[hist@.len() - 1], leader));
                };
                assert forall|i: int, a: int| 0 <= i < batch@.len() && 0 <= a < orig.n()
                    && (#[trigger] batch@[i]).round >= 2
                    && (#[trigger] orig.slot(batch@[i].round - 1, a)) is Some
                    && batch@[i].parents@.contains(
                        orig.slot(batch@[i].round - 1, a)->Some_0.digest)
                    implies orig.emitted_contains(
                            orig.slot(batch@[i].round - 1, a)->Some_0.digest)
                        || exists|j2: int| 0 <= j2 < i
                            && (#[trigger] batch@[j2]).digest
                                == orig.slot(batch@[i].round - 1, a)->Some_0.digest
                            && batch@[j2].round + 1 == batch@[i].round by {
                    assert(cert_eqv(batch@[i], hist@[i]));
                    let pd = orig.slot(batch@[i].round - 1, a)->Some_0.digest;
                    assert(orig.slot(hist@[i].round - 1, a) is Some);
                    assert(hist@[i].parents@.contains(pd));
                    if !orig.emitted_contains(pd) {
                        let w = choose|w: int| 0 <= w < i
                            && (#[trigger] hist@[w]).digest == pd
                            && hist@[w].round + 1 == hist@[i].round;
                        assert(cert_eqv(batch@[w], hist@[w]));
                    }
                };
                assert(leader.round == r);
                assert(leader.author == la);
                assert forall|i: int| 0 <= i < batch@.len()
                    implies orig.slot_reaches(r as int, la as int,
                        (#[trigger] batch@[i]).round as int, batch@[i].author as int) by {
                    assert(cert_eqv(batch@[i], hist@[i]));
                    assert(orig.slot_reaches(leader.round as int, leader.author as int,
                        hist@[i].round as int, hist@[i].author as int));
                };
                assert(la as int == leader_spec(orig.committee, r));
                assert(orig.commit_batch_ok(batch@));
            }
            Some(batch)
    }

    /// Applies the commit rule for successive leader rounds until it no
    /// longer holds. Returns everything newly emitted, in emission order.
    fn advance_commits(&mut self) -> (batch: Vec<Certificate>)
        requires
            old(self).wf(),
        ensures
            final(self).wf(),
            final(self).committee == old(self).committee,
            final(self).gc_depth == old(self).gc_depth,
            final(self).emitted@.len() == old(self).emitted@.len() + batch@.len(),
            forall|i: int| 0 <= i < old(self).emitted@.len()
                ==> final(self).emitted@[i] == old(self).emitted@[i],
            forall|i: int| 0 <= i < batch@.len()
                ==> cert_eqv(final(self).emitted@[old(self).emitted@.len() + i],
                    #[trigger] batch@[i]),
            final(self).last_committed_round >= old(self).last_committed_round,
            final(self).base_round >= old(self).base_round,
            final(self).base_round == old(self).base_round
                || (final(self).last_committed_round > final(self).gc_depth
                    && final(self).base_round + final(self).gc_depth
                        == final(self).last_committed_round),
            forall|r: int, a: int| old(self).slot(r, a) is Some && r >= final(self).base_round
                ==> final(self).slot(r, a) == old(self).slot(r, a),
            !final(self).committable(),
    {
        let ghost orig = *self;
        let mut batch: Vec<Certificate> = Vec::new();
        loop
            invariant
                orig == *old(self),
                self.wf(),
                self.committee == orig.committee,
                self.gc_depth == orig.gc_depth,
                self.emitted@.len() == orig.emitted@.len() + batch@.len(),
                forall|i: int| 0 <= i < orig.emitted@.len()
                    ==> #[trigger] self.emitted@[i] == orig.emitted@[i],
                forall|i: int| 0 <= i < batch@.len()
                    ==> cert_eqv(self.emitted@[orig.emitted@.len() + i], #[trigger] batch@[i]),
                self.last_committed_round >= orig.last_committed_round,
                self.base_round >= orig.base_round,
                self.base_round == orig.base_round
                    || (self.last_committed_round > self.gc_depth
                        && self.base_round + self.gc_depth == self.last_committed_round),
                forall|r: int, a: int| orig.slot(r, a) is Some && r >= self.base_round
                    ==> #[trigger] self.slot(r, a) == orig.slot(r, a),
            decreases self.view_end() - self.next_leader_round,
        {
            let ghost pre_it = *self;
            let seg = match self.try_commit_next() {
                None => {
                    return batch;
                },
                Some(seg) => seg,
            };
            let sm = seg.len();
            let ghost batch0 = batch@;
            let mut t: usize = 0;
            while t < sm
                invariant
                    sm == seg@.len(),
                    0 <= t <= sm,
                    batch@.len() == batch0.len() + t,
                    batch@.subrange(0, batch0.len() as int) == batch0,
                    forall|i: int| 0 <= i < t
                        ==> cert_eqv(#[trigger] batch@[batch0.len() + i], seg@[i]),
                decreases sm - t,
            {
                let ghost bb = batch@;
                let e = copy_certificate_at(&seg, t);
                batch.push(e);
                proof {
                    assert(batch@.subrange(0, batch0.len() as int)
                        =~= bb.subrange(0, batch0.len() as int));
                }
                t += 1;
            }
            proof {
                assert forall|i: int| 0 <= i < orig.emitted@.len()
                    implies #[trigger] self.emitted@[i] == orig.emitted@[i] by {
                    assert(self.emitted@[i] == pre_it.emitted@[i]);
                };
                assert forall|i: int| 0 <= i < batch@.len()
                    implies cert_eqv(self.emitted@[orig.emitted@.len() + i],
                        #[trigger] batch@[i]) by {
                    if i < batch0.len() {
                        assert(batch@[i] == batch0[i]);
                        assert(self.emitted@[orig.emitted@.len() + i]
                            == pre_it.emitted@[orig.emitted@.len() + i]);
                    } else {
                        let t2 = i - batch0.len();
                        assert(cert_eqv(batch@[batch0.len() + t2], seg@[t2]));
                        assert(cert_eqv(self.emitted@[pre_it.emitted@.len() + t2],
                            seg@[t2]));
                        assert(pre_it.emitted@.len() + t2 == orig.emitted@.len() + i);
                    }
                };
                // The base either never moved or tracks the newest watermark.
                if self.base_round == pre_it.base_round {
                    if pre_it.base_round != orig.base_round {
                        // The older watermark moved the base, so the newer,
                        // strictly larger one cannot have left it in place.
                        assert(pre_it.last_committed_round > pre_it.gc_depth
                            && pre_it.base_round + pre_it.gc_depth
                                == pre_it.last_committed_round);
                        assert(pre_it.next_leader_round
                            >= pre_it.last_committed_round + 2);
                        assert(false);
                    }
                } else {
                    assert(self.base_round
                        == pre_it.next_leader_round - pre_it.gc_depth);
                    assert(self.last_committed_round == pre_it.next_leader_round);
                    assert(self.last_committed_round > self.gc_depth);
                }
                assert forall|r2: int, a2: int|
                    orig.slot(r2, a2) is Some && r2 >= self.base_round
                    implies #[trigger] self.slot(r2, a2) == orig.slot(r2, a2) by {
                    assert(pre_it.slot(r2, a2) == orig.slot(r2, a2));
                    assert(self.slot(r2, a2) == pre_it.slot(r2, a2));
                };
            }
        }
}
}

} // verus!

verus! {

impl ConsensusState {
    /// Feeds one certificate into the engine.
    ///
    /// An invalid, stale, duplicated, conflicting, or parent-starved
    /// certificate is rejected with the reason and the state is unchanged —
    /// in particular, redelivery of a known digest is an idempotent no-op. A
    /// causally incomplete certificate is buffered. An admitted certificate
    /// may unlock buffered ones and commits; the newly committed certificates
    /// come back in emission order — one `try_commit_next` segment per
    /// committed leader — and positions already emitted never change.
    pub fn process_certificate(&mut self, cert: Certificate) -> (res: Result<
        Vec<Certificate>,
        DagError,
    >)
        requires
            old(self).wf(),
        ensures
            final(self).wf(),
            final(self).committee == old(self).committee,
            final(self).gc_depth == old(self).gc_depth,
            res is Err <==> old(self).admit_error(cert) is Some,
            res is Err ==> res->Err_0 == old(self).admit_error(cert)->Some_0
                && *final(self) == *old(self),
            final(self).emitted@.len() >= old(self).emitted@.len(),
            forall|i: int| 0 <= i < old(self).emitted@.len()
                ==> final(self).emitted@[i] == old(self).emitted@[i],
            res is Ok ==> {
                &&& final(self).emitted@.len()
                    == old(self).emitted@.len() + res->Ok_0@.len()
                &&& forall|i: int| 0 <= i < res->Ok_0@.len()
                    ==> cert_eqv(final(self).emitted@[old(self).emitted@.len() + i],
                        #[trigger] res->Ok_0@[i])
            },
            res is Ok && !old(self).parents_ready_spec(cert)
                ==> final(self).pending@ == old(self).pending@.push(cert)
                    && res->Ok_0@.len() == 0,
            res is Ok && old(self).parents_ready_spec(cert)
                ==> final(self).slot(cert.round as int, cert.author as int) == Some(cert)
                    || cert.round < final(self).base_round,
            forall|r: int, a: int| old(self).slot(r, a) is Some
                && r >= final(self).base_round
                ==> final(self).slot(r, a) == old(self).slot(r, a),
            final(self).base_round >= old(self).base_round,
            final(self).base_round == old(self).base_round
                || (final(self).last_committed_round > final(self).gc_depth
                    && final(self).base_round + final(self).gc_depth
                        == final(self).last_committed_round),
            res is Ok && old(self).parents_ready_spec(cert) ==> !final(self).committable(),
    {
        let ghost orig = *self;
        match check_certificate(&self.committee, &cert) {
            Err(e) => {
                return Err(e);
            },
            Ok(()) => {},
        }
        if cert.round <= self.base_round || cert.round == u64::MAX {
            return Err(DagError::InvalidRound);
        }
        if self.has_digest(cert.digest) || self.pending_has(cert.digest)
            || self.emitted_has(cert.digest) {
            return Err(DagError::AlreadyProcessed);
        }
        match self.digest_at(cert.round, cert.author) {
            Some(_) => {
                return Err(DagError::Equivocation);
            },
            None => {},
        }
        if !self.parents_ready(&cert) {
            let ghost prev = *self;
            self.pending.push(cert);
            proof {
                lemma_view_transfer(prev, *self);
                assert forall|k: int| 0 <= k < self.pending@.len() implies {
                    &&& cert_valid(self.committee, #[trigger] self.pending@[k])
                    &&& self.pending@[k].round > self.base_round
                    &&& self.pending@[k].round < u64::MAX
                } by {
                    if k < prev.pending@.len() {
                        assert(self.pending@[k] == prev.pending@[k]);
                    } else {
                        assert(self.pending@[k] == cert);
                    }
                };
                assert forall|r: int, a: int| orig.slot(r, a) is Some
                    && r >= self.base_round
                    implies #[trigger] self.slot(r, a) == orig.slot(r, a) by {
                    assert(self.slot(r, a) == prev.slot(r, a));
                };
            }
            return Ok(Vec::new());
        }
        let stake = self.parent_stake(&cert);
        if stake < self.committee.quorum {
            return Err(DagError::InsufficientParents);
        }
        proof {
            if !self.in_view(cert.round - 1) {
                let flags = self.parent_flags(cert);
                assert(forall|a: int| 0 <= a < self.n() ==> !flags[a]);
                crate::config::lemma_flag_stake_all_false(self.committee.stakes@, flags);
                assert(false);
            }
        }
        let ghost cert0 = cert;
        self.insert_cert(cert);
        let ghost inserted = *self;
        self.drain_pending();
        let ghost drained = *self;
        let batch = self.advance_commits();
        proof {
            assert forall|r: int, a: int| orig.slot(r, a) is Some
                && r >= self.base_round
                implies #[trigger] self.slot(r, a) == orig.slot(r, a) by {
                assert(inserted.slot(r, a) == orig.slot(r, a));
                assert(drained.slot(r, a) == inserted.slot(r, a));
                assert(self.slot(r, a) == drained.slot(r, a));
            };
            if cert0.round >= self.base_round {
                assert(inserted.slot(cert0.round as int, cert0.author as int) == Some(cert0));
                assert(drained.slot(cert0.round as int, cert0.author as int)
                    == inserted.slot(cert0.round as int, cert0.author as int));
                assert(self.slot(cert0.round as int, cert0.author as int)
                    == drained.slot(cert0.round as int, cert0.author as int));
            }
        }
        Ok(batch)
    }
}

} // verus!

verus! {

/// Causal order of the committed stream, as a law over any reachable engine
/// state: if one emitted certificate cites another as a parent, the parent
/// stands strictly earlier in the stream. No certificate is emitted before
/// the parents it cites that are ever emitted.
pub proof fn lemma_emitted_causal_order(s: ConsensusState, i: int, j: int)
    requires
        s.wf(),
        0 <= i < s.emitted@.len(),
        0 <= j < s.emitted@.len(),
        s.emitted@[i].parents@.contains(s.emitted@[j].digest),
        s.emitted@[j].round + 1 == s.emitted@[i].round,
    ensures
        j < i,
{
}

} // verus!
