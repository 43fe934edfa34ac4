//! Static configuration for an epoch: the committee of validators with their
//! stake weights, and the protocol tuning parameters.
//!
//! A validator identity is an index into the committee's stake table; the
//! public keys and network addresses bound to each identity are handled by the
//! bootstrap layer and never reach the protocol logic.

use vstd::prelude::*;

verus! {

/// Sum of every stake in the table.
pub open spec fn sum_stakes(s: Seq<u64>) -> int
    decreases s.len(),
{
    if s.len() == 0 {
        0
    } else {
        sum_stakes(s.drop_last()) + s.last()
    }
}

/// Combined stake of the validators marked `true` in an indicator over the
/// committee.
pub open spec fn flag_stake(stakes: Seq<u64>, flags: Seq<bool>) -> int
    recommends
        flags.len() == stakes.len(),
    decreases stakes.len(),
{
    if stakes.len() == 0 {
        0
    } else {
        flag_stake(stakes.drop_last(), flags.drop_last()) + if flags.last() {
            stakes.last() as int
        } else {
            0
        }
    }
}

/// The least stake that constitutes a quorum: strictly more than two thirds of
/// the total, i.e. `floor(2*total/3) + 1`.
pub open spec fn quorum_threshold(total: int) -> int {
    2 * total / 3 + 1
}

pub proof fn lemma_sum_stakes_nonneg(s: Seq<u64>)
    ensures
        sum_stakes(s) >= 0,
    decreases s.len(),
{
    if s.len() > 0 {
        lemma_sum_stakes_nonneg(s.drop_last());
    }
}

/// Taking one more element extends the partial sum by exactly that element.
pub proof fn lemma_sum_stakes_take_succ(s: Seq<u64>, i: int)
    requires
        0 <= i < s.len(),
    ensures
        sum_stakes(s.take(i + 1)) == sum_stakes(s.take(i)) + s[i],
{
    assert(s.take(i + 1).drop_last() =~= s.take(i));
    assert(s.take(i + 1).last() == s[i]);
}

/// Every prefix sum is bounded by the full sum.
pub proof fn lemma_sum_stakes_take_le(s: Seq<u64>, i: int)
    requires
        0 <= i <= s.len(),
    ensures
        sum_stakes(s.take(i)) <= sum_stakes(s),
    decreases s.len() - i,
{
    if i == s.len() {
        assert(s.take(i) =~= s);
    } else {
        lemma_sum_stakes_take_succ(s, i);
        lemma_sum_stakes_take_le(s, i + 1);
    }
}

pub proof fn lemma_flag_stake_nonneg(stakes: Seq<u64>, flags: Seq<bool>)
    requires
        flags.len() == stakes.len(),
    ensures
        flag_stake(stakes, flags) >= 0,
    decreases stakes.len(),
{
    if stakes.len() > 0 {
        lemma_flag_stake_nonneg(stakes.drop_last(), flags.drop_last());
    }
}

/// An indicated subset never carries more stake than the whole committee.
pub proof fn lemma_flag_stake_le_sum(stakes: Seq<u64>, flags: Seq<bool>)
    requires
        flags.len() == stakes.len(),
    ensures
        flag_stake(stakes, flags) <= sum_stakes(stakes),
    decreases stakes.len(),
{
    if stakes.len() > 0 {
        lemma_flag_stake_le_sum(stakes.drop_last(), flags.drop_last());
    }
}

/// An indicator that marks nobody carries no stake.
pub proof fn lemma_flag_stake_all_false(stakes: Seq<u64>, flags: Seq<bool>)
    requires
        flags.len() == stakes.len(),
        forall|i: int| 0 <= i < flags.len() ==> !flags[i],
    ensures
        flag_stake(stakes, flags) == 0,
    decreases stakes.len(),
{
    if stakes.len() > 0 {
        lemma_flag_stake_all_false(stakes.drop_last(), flags.drop_last());
    }
}

/// Newly marking validator `v` raises the indicated stake by exactly `stakes[v]`.
pub proof fn lemma_flag_stake_update(stakes: Seq<u64>, flags: Seq<bool>, v: int)
    requires
        flags.len() == stakes.len(),
        0 <= v < stakes.len(),
        !flags[v],
    ensures
        flag_stake(stakes, flags.update(v, true)) == flag_stake(stakes, flags) + stakes[v],
    decreases stakes.len(),
{
    let updated = flags.update(v, true);
    if v == stakes.len() - 1 {
        assert(updated.drop_last() =~= flags.drop_last());
    } else {
        assert(updated.drop_last() =~= flags.drop_last().update(v, true));
        lemma_flag_stake_update(stakes.drop_last(), flags.drop_last(), v);
    }
}

/// A non-empty table of positive stakes has positive total.
pub proof fn lemma_sum_stakes_positive(s: Seq<u64>)
    requires
        s.len() >= 1,
        forall|i: int| 0 <= i < s.len() ==> s[i] >= 1,
    ensures
        sum_stakes(s) >= 1,
{
    lemma_sum_stakes_nonneg(s.drop_last());
}

/// Two disjoint indicated subsets together hold at most the total stake.
proof fn lemma_flag_stake_disjoint(stakes: Seq<u64>, f1: Seq<bool>, f2: Seq<bool>)
    requires
        f1.len() == stakes.len(),
        f2.len() == stakes.len(),
        forall|i: int| 0 <= i < stakes.len() ==> !(f1[i] && f2[i]),
    ensures
        flag_stake(stakes, f1) + flag_stake(stakes, f2) <= sum_stakes(stakes),
    decreases stakes.len(),
{
    if stakes.len() > 0 {
        lemma_flag_stake_disjoint(stakes.drop_last(), f1.drop_last(), f2.drop_last());
    }
}

/// Quorum intersection, the heart of agreement: any two subsets that each
/// hold a quorum of stake share at least one validator. Two conflicting
/// decisions would thus both need the endorsement of a common member.
pub proof fn lemma_quorum_intersection(stakes: Seq<u64>, f1: Seq<bool>, f2: Seq<bool>)
    requires
        f1.len() == stakes.len(),
        f2.len() == stakes.len(),
        flag_stake(stakes, f1) >= quorum_threshold(sum_stakes(stakes)),
        flag_stake(stakes, f2) >= quorum_threshold(sum_stakes(stakes)),
    ensures
        exists|v: int| 0 <= v < stakes.len() && f1[v] && f2[v],
{
    if forall|v: int| 0 <= v < stakes.len() ==> !(#[trigger] f1[v] && f2[v]) {
        lemma_flag_stake_disjoint(stakes, f1, f2);
        let t = sum_stakes(stakes);
        assert(2 * (2 * t / 3 + 1) > t) by {
            lemma_sum_stakes_nonneg(stakes);
            vstd::arithmetic::div_mod::lemma_fundamental_div_mod(2 * t, 3);
        };
        assert(false);
    }
}

/// A fixed committee of validators for one epoch. Validator `a`'s voting power
/// is `stakes[a]`; the total and the quorum threshold are cached at
/// construction.
pub struct Committee {
    pub stakes: Vec<u64>,
    pub total: u64,
    pub quorum: u64,
}

impl Committee {
    /// The cached totals agree with the stake table, the table is non-empty,
    /// and every member has positive stake.
    pub open spec fn wf(&self) -> bool {
        &&& self.stakes@.len() >= 1
        &&& forall|i: int| 0 <= i < self.stakes@.len() ==> self.stakes@[i] >= 1
        &&& self.total == sum_stakes(self.stakes@)
        &&& self.quorum == quorum_threshold(self.total as int)
    }

    pub open spec fn spec_size(&self) -> int {
        self.stakes@.len() as int
    }

    /// Builds a committee from a stake table; refuses an empty table, a zero
    /// stake, or a table whose total overflows.
    pub fn new(stakes: Vec<u64>) -> (r: Option<Committee>)
        ensures
            r is Some <==> {
                &&& stakes@.len() >= 1
                &&& forall|i: int| 0 <= i < stakes@.len() ==> stakes@[i] >= 1
                &&& sum_stakes(stakes@) <= u64::MAX
            },
            r is Some ==> r->Some_0.wf() && r->Some_0.stakes@ == stakes@,
    {
        if stakes.len() == 0 {
            return None;
        }
        let n = stakes.len();
        let mut total: u64 = 0;
        let mut i: usize = 0;
        while i < n
            invariant
                n == stakes@.len(),
                0 <= i <= n,
                total == sum_stakes(stakes@.take(i as int)),
                forall|k: int| 0 <= k < i ==> stakes@[k] >= 1,
            decreases n - i,
        {
            if stakes[i] == 0 {
                return None;
            }
            proof {
                lemma_sum_stakes_take_succ(stakes@, i as int);
            }
            let next = total.checked_add(stakes[i]);
            match next {
                Some(t) => {
                    total = t;
                },
                None => {
                    proof {
                        lemma_sum_stakes_take_le(stakes@, i + 1);
                    }
                    return None;
                },
            }
            i += 1;
        }
        proof {
            assert(stakes@.take(n as int) =~= stakes@);
            lemma_sum_stakes_nonneg(stakes@.drop_last());
        }
        let quorum = quorum_of_total(total);
        Some(Committee { stakes, total, quorum })
    }

    /// Number of validators in the committee.
    pub fn size(&self) -> (n: usize)
        ensures
            n == self.spec_size(),
    {
        self.stakes.len()
    }

    /// Stake of one validator.
    pub fn stake_of(&self, a: usize) -> (s: u64)
        requires
            a < self.stakes@.len(),
        ensures
            s == self.stakes@[a as int],
    {
        self.stakes[a]
    }

    /// Combined stake of the validators marked in `flags`.
    pub fn stake_of_flags(&self, flags: &Vec<bool>) -> (s: u64)
        requires
            self.wf(),
            flags@.len() == self.stakes@.len(),
        ensures
            s == flag_stake(self.stakes@, flags@),
    {
        let n = self.stakes.len();
        let mut acc: u64 = 0;
        let mut i: usize = 0;
        while i < n
            invariant
                self.wf(),
                n == self.stakes@.len(),
                flags@.len() == n,
                0 <= i <= n,
                acc == flag_stake(self.stakes@.take(i as int), flags@.take(i as int)),
                acc <= sum_stakes(self.stakes@.take(i as int)),
            decreases n - i,
        {
            proof {
                assert(self.stakes@.take(i + 1).drop_last() =~= self.stakes@.take(i as int));
                assert(flags@.take(i + 1).drop_last() =~= flags@.take(i as int));
                lemma_sum_stakes_take_succ(self.stakes@, i as int);
                lemma_sum_stakes_take_le(self.stakes@, i + 1);
            }
            if flags[i] {
                acc = acc + self.stakes[i];
            }
            i += 1;
        }
        proof {
            assert(self.stakes@.take(n as int) =~= self.stakes@);
            assert(flags@.take(n as int) =~= flags@);
        }
        acc
    }
}

/// Quorum threshold for a given total stake, as a machine integer.
fn quorum_of_total(total: u64) -> (q: u64)
    requires
        total >= 1,
    ensures
        q == quorum_threshold(total as int),
{
    proof {
        assert(2 * (total as int) / 3 < total as int) by {
            vstd::arithmetic::div_mod::lemma_fundamental_div_mod(2 * (total as int), 3);
        };
    }
    let wide: u128 = 2 * (total as u128) / 3 + 1;
    wide as u64
}

/// Protocol tuning knobs; every field has a serviceable default.
pub struct Parameters {
    /// A worker seals a batch once this many payload bytes have accumulated.
    pub batch_size_limit: u64,
    /// A worker seals a non-empty batch after this long even if under size.
    pub max_batch_delay_ms: u64,
    /// A primary re-broadcasts its header if votes are slow to arrive.
    pub header_timeout_ms: u64,
    /// Rounds retained below the last committed round before pruning.
    pub gc_depth: u64,
    /// Capacity of every inter-task channel.
    pub channel_capacity: u64,
}

impl Default for Parameters {
    fn default() -> (p: Parameters)
        ensures
            p.batch_size_limit == 500_000,
            p.max_batch_delay_ms == 100,
            p.header_timeout_ms == 100,
            p.gc_depth == 50,
            p.channel_capacity == 1_000,
    {
        Parameters {
            batch_size_limit: 500_000,
            max_batch_delay_ms: 100,
            header_timeout_ms: 100,
            gc_depth: 50,
            channel_capacity: 1_000,
        }
    }
}

} // verus!
