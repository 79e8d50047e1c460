//! Merge-mining coordination: secondary-chain lifecycle, per-chain channels,
//! share and reward accounting, and the fixed revenue split.

use vstd::prelude::*;
use vstd::arithmetic::div_mod::{lemma_fundamental_div_mod, lemma_mod_division_less_than_divisor};

verus! {

/// A secondary chain that can be merge-mined next to the primary chain.
#[derive(Debug)]
pub struct SecondaryChain {
    pub chain_id: String,
    pub chain_name: String,
    pub enabled: bool,
}

/// Per-chain mirror of a mining channel, carrying the secondary chain's
/// current job and its accounting.
#[derive(Debug)]
pub struct MergeChannel {
    pub chain_id: String,
    pub channel_id: u32,
    pub current_job_id: Option<u64>,
    pub shares_submitted: u64,
    pub total_rewards: u64,
}

/// A snapshot of one chain's channel accounting.
#[derive(Debug)]
pub struct ChainStats {
    pub chain_id: String,
    pub channel_id: u32,
    pub total_rewards: u64,
    pub shares_submitted: u64,
    pub current_job_id: Option<u64>,
}

/// The fixed split of total rewards.
#[derive(Debug, Clone, Copy, PartialEq, Eq, Structural)]
pub struct RevenueDistribution {
    pub core: u64,
    pub grants: u64,
    pub audits: u64,
    pub operations: u64,
}

/// Errors of the merge-mining coordinator.
#[derive(Debug, Clone, Copy, PartialEq, Eq, Structural)]
pub enum MergeMiningError {
    /// The chain id is not in the configured list.
    UnknownChain,
    /// The chain is configured but not enabled.
    ChainNotEnabled,
    /// A channel for the chain already exists.
    ChannelExists,
    /// No channel for the chain exists.
    ChannelMissing,
}

/// Sum of `total_rewards` over a sequence of merge channels.
pub open spec fn spec_total_rewards(s: Seq<MergeChannel>) -> int
    decreases s.len(),
{
    if s.len() == 0 {
        0
    } else {
        spec_total_rewards(s.drop_last()) + s.last().total_rewards
    }
}

/// A prefix sums to no more than the whole: rewards are non-negative.
proof fn lemma_total_rewards_prefix(s: Seq<MergeChannel>, i: int)
    requires
        0 <= i <= s.len(),
    ensures
        spec_total_rewards(s.take(i)) <= spec_total_rewards(s),
    decreases s.len() - i,
{
    if i == s.len() {
        assert(s.take(i) =~= s);
    } else {
        lemma_total_rewards_prefix(s, i + 1);
        assert(s.take(i + 1).drop_last() =~= s.take(i));
        assert(s.take(i + 1).last() == s[i]);
    }
}

/// The enabled chains of `s`, in order.
pub open spec fn spec_enabled_chains(s: Seq<SecondaryChain>) -> Seq<SecondaryChain>
    decreases s.len(),
{
    if s.len() == 0 {
        Seq::empty()
    } else {
        let rest = spec_enabled_chains(s.drop_last());
        if s.last().enabled {
            rest.push(s.last())
        } else {
            rest
        }
    }
}

/// Coordinator of merge-mined secondary chains.
pub struct MergeMiningCoordinator {
    chains: Vec<SecondaryChain>,
    channels: Vec<MergeChannel>,
}

impl MergeMiningCoordinator {
    /// The configured secondary chains, in order.
    pub closed spec fn spec_chains(&self) -> Seq<SecondaryChain> {
        self.chains@
    }

    /// The open merge channels, in order of creation.
    pub closed spec fn spec_channels(&self) -> Seq<MergeChannel> {
        self.channels@
    }

    /// At most one channel per chain id.
    pub open spec fn wf(&self) -> bool {
        forall|i: int, j: int|
            0 <= i < j < self.spec_channels().len() ==> self.spec_channels()[i].chain_id@
                != self.spec_channels()[j].chain_id@
    }

    /// Some configured chain carries this id.
    pub open spec fn has_chain(&self, id: Seq<char>) -> bool {
        exists|i: int| 0 <= i < self.spec_chains().len() && self.spec_chains()[i].chain_id@ == id
    }

    /// Some configured chain with this id is enabled.
    pub open spec fn chain_enabled(&self, id: Seq<char>) -> bool {
        exists|i: int|
            0 <= i < self.spec_chains().len() && self.spec_chains()[i].chain_id@ == id
                && self.spec_chains()[i].enabled
    }

    /// A merge channel for this chain id exists.
    pub open spec fn has_channel(&self, id: Seq<char>) -> bool {
        exists|i: int|
            0 <= i < self.spec_channels().len() && self.spec_channels()[i].chain_id@ == id
    }

    /// A coordinator over the configured chain list, with no channels yet.
    pub fn new(chains: Vec<SecondaryChain>) -> (r: MergeMiningCoordinator)
        ensures
            r.spec_chains() == chains@,
            r.spec_channels() == Seq::<MergeChannel>::empty(),
            r.wf(),
    {
        MergeMiningCoordinator { chains, channels: Vec::new() }
    }

    /// The position of the chain id's channel, scanning from the front.
    fn find_channel_index(&self, needle: &String) -> (r: Option<usize>)
        ensures
            match r {
                Some(i) => 0 <= i < self.spec_channels().len() && self.spec_channels()[
                    i as int
                ].chain_id@ == needle@,
                None => !self.has_channel(needle@),
            },
    {
        let m = self.channels.len();
        let mut idx: usize = 0;
        while idx < m
            invariant
                m == self.channels.len(),
                idx <= m,
                forall|j: int| 0 <= j < idx ==> self.spec_channels()[j].chain_id@ != needle@,
            decreases m - idx,
        {
            if self.channels[idx].chain_id == *needle {
                return Some(idx);
            }
            idx += 1;
        }
        None
    }

    /// Mark the chain as enabled. Fails with `UnknownChain` when the id is
    /// not configured; enabling an enabled chain again is a no-op that
    /// succeeds.
    pub fn enable_chain(&mut self, chain_id: &str) -> (r: Result<(), MergeMiningError>)
        requires
            old(self).wf(),
        ensures
            final(self).wf(),
            final(self).spec_channels() == old(self).spec_channels(),
            r matches Ok(()) <==> old(self).has_chain(chain_id@),
            r is Err ==> r == Err::<(), MergeMiningError>(MergeMiningError::UnknownChain)
                && *final(self) == *old(self),
            final(self).spec_chains().len() == old(self).spec_chains().len(),
            forall|i: int|
                #![trigger final(self).spec_chains()[i]]
                0 <= i < old(self).spec_chains().len() ==> {
                    &&& final(self).spec_chains()[i].chain_id == old(self).spec_chains()[i].chain_id
                    &&& final(self).spec_chains()[i].chain_name == old(
                        self,
                    ).spec_chains()[i].chain_name
                    &&& final(self).spec_chains()[i].enabled == (old(self).spec_chains()[i].enabled
                        || old(self).spec_chains()[i].chain_id@ == chain_id@)
                },
    {
        let needle: String = chain_id.to_owned();
        let mut found = false;
        let n = self.chains.len();
        let mut idx: usize = 0;
        while idx < n
            invariant
                n == self.chains.len(),
                n == old(self).spec_chains().len(),
                idx <= n,
                self.channels == old(self).channels,
                needle@ == chain_id@,
                !found ==> *self == *old(self),
                found <==> exists|j: int|
                    0 <= j < idx && old(self).spec_chains()[j].chain_id@ == chain_id@,
                forall|j: int|
                    #![trigger self.spec_chains()[j]]
                    0 <= j < n ==> {
                        &&& self.spec_chains()[j].chain_id == old(self).spec_chains()[j].chain_id
                        &&& self.spec_chains()[j].chain_name == old(
                            self,
                        ).spec_chains()[j].chain_name
                        &&& self.spec_chains()[j].enabled == (old(self).spec_chains()[j].enabled
                            || (j < idx && old(self).spec_chains()[j].chain_id@ == chain_id@))
                    },
            decreases n - idx,
        {
            if self.chains[idx].chain_id == needle {
                proof {
                    assert(self.spec_chains()[idx as int].chain_id == old(self).spec_chains()[
                        idx as int
                    ].chain_id);
                    assert(old(self).spec_chains()[idx as int].chain_id@ == chain_id@);
                }
                let entry = &self.chains[idx];
                let updated = SecondaryChain {
                    chain_id: entry.chain_id.clone(),
                    chain_name: entry.chain_name.clone(),
                    enabled: true,
                };
                self.chains[idx] = updated;
                found = true;
            }
            idx += 1;
        }
        if found {
            Ok(())
        } else {
            Err(MergeMiningError::UnknownChain)
        }
    }

    /// The enabled chains, in configuration order.
    pub fn get_enabled_chains(&self) -> (r: Vec<SecondaryChain>)
        ensures
            r@ == spec_enabled_chains(self.spec_chains()),
    {
        let mut out: Vec<SecondaryChain> = Vec::new();
        let n = self.chains.len();
        let mut idx: usize = 0;
        while idx < n
            invariant
                n == self.chains.len(),
                idx <= n,
                out@ == spec_enabled_chains(self.spec_chains().take(idx as int)),
            decreases n - idx,
        {
            let ghost prefix = self.spec_chains().take(idx as int);
            if self.chains[idx].enabled {
                let c = &self.chains[idx];
                out.push(
                    SecondaryChain {
                        chain_id: c.chain_id.clone(),
                        chain_name: c.chain_name.clone(),
                        enabled: c.enabled,
                    },
                );
            }
            proof {
                assert(self.spec_chains().take(idx + 1).drop_last() =~= prefix);
                assert(self.spec_chains().take(idx + 1).last() == self.spec_chains()[idx as int]);
                assert(out@ == spec_enabled_chains(self.spec_chains().take(idx + 1)));
            }
            idx += 1;
        }
        proof {
            assert(self.spec_chains().take(n as int) =~= self.spec_chains());
        }
        out
    }

    /// Open the merge channel for an enabled chain. Fails with
    /// `ChainNotEnabled` when no enabled chain carries the id, and with
    /// `ChannelExists` when the chain already has a channel.
    pub fn create_channel(&mut self, chain_id: &str, channel_id: u32) -> (r: Result<
        (),
        MergeMiningError,
    >)
        requires
            old(self).wf(),
        ensures
            final(self).wf(),
            final(self).spec_chains() == old(self).spec_chains(),
            r matches Ok(()) <==> (old(self).chain_enabled(chain_id@) && !old(self).has_channel(
                chain_id@,
            )),
            r matches Ok(()) ==> {
                &&& final(self).spec_channels().len() == old(self).spec_channels().len() + 1
                &&& final(self).spec_channels().drop_last() == old(self).spec_channels()
                &&& final(self).spec_channels().last().chain_id@ == chain_id@
                &&& final(self).spec_channels().last().channel_id == channel_id
                &&& final(self).spec_channels().last().current_job_id is None
                &&& final(self).spec_channels().last().shares_submitted == 0
                &&& final(self).spec_channels().last().total_rewards == 0
            },
            r is Err ==> *final(self) == *old(self),
            !old(self).chain_enabled(chain_id@) ==> r == Err::<(), MergeMiningError>(
                MergeMiningError::ChainNotEnabled,
            ),
            (old(self).chain_enabled(chain_id@) && old(self).has_channel(chain_id@)) ==> r == Err::<
                (),
                MergeMiningError,
            >(MergeMiningError::ChannelExists),
    {
        let needle: String = chain_id.to_owned();
        let mut enabled = false;
        let n = self.chains.len();
        let mut idx: usize = 0;
        while idx < n
            invariant
                n == self.chains.len(),
                idx <= n,
                needle@ == chain_id@,
                *self == *old(self),
                enabled <==> exists|j: int|
                    0 <= j < idx && self.spec_chains()[j].chain_id@ == chain_id@
                        && self.spec_chains()[j].enabled,
            decreases n - idx,
        {
            if self.chains[idx].enabled && self.chains[idx].chain_id == needle {
                enabled = true;
                proof {
                    assert(self.spec_chains()[idx as int].chain_id@ == chain_id@
                        && self.spec_chains()[idx as int].enabled);
                }
            }
            idx += 1;
        }
        if !enabled {
            return Err(MergeMiningError::ChainNotEnabled);
        }
        match self.find_channel_index(&needle) {
            Some(_) => Err(MergeMiningError::ChannelExists),
            None => {
                let fresh = MergeChannel {
                    chain_id: needle,
                    channel_id,
                    current_job_id: None,
                    shares_submitted: 0,
                    total_rewards: 0,
                };
                let ghost oldc = self.channels@;
                self.channels.push(fresh);
                proof {
                    assert(self.spec_channels().drop_last() =~= oldc);
                    assert forall|a: int, b: int|
                        0 <= a < b < self.spec_channels().len() implies self.spec_channels()[
                        a
                    ].chain_id@ != self.spec_channels()[b].chain_id@ by {
                        if b == self.spec_channels().len() - 1 {
                            assert(oldc[a].chain_id@ != chain_id@);
                        }
                    }
                }
                Ok(())
            },
        }
    }

    /// A borrow of the chain's channel, when one exists.
    pub fn get_channel(&self, chain_id: &str) -> (r: Option<&MergeChannel>)
        requires
            self.wf(),
        ensures
            match r {
                Some(ch) => {
                    &&& self.has_channel(chain_id@)
                    &&& ch.chain_id@ == chain_id@
                    &&& exists|i: int|
                        0 <= i < self.spec_channels().len() && self.spec_channels()[i] == *ch
                },
                None => !self.has_channel(chain_id@),
            },
    {
        let needle: String = chain_id.to_owned();
        match self.find_channel_index(&needle) {
            Some(i) => {
                proof {
                    assert(self.spec_channels()[i as int] == self.spec_channels()[i as int]);
                }
                Some(&self.channels[i])
            },
            None => None,
        }
    }

    /// Every other channel has another chain id.
    proof fn lemma_only_match(&self, i: int, id: Seq<char>)
        requires
            self.wf(),
            0 <= i < self.spec_channels().len(),
            self.spec_channels()[i].chain_id@ == id,
        ensures
            forall|k: int|
                0 <= k < self.spec_channels().len() && k != i
                    ==> #[trigger] self.spec_channels()[k].chain_id@ != id,
    {
        assert forall|k: int|
            0 <= k < self.spec_channels().len() && k != i implies #[trigger] self.spec_channels()[
            k
        ].chain_id@ != id by {
            if k < i {
                assert(self.spec_channels()[k].chain_id@ != self.spec_channels()[i].chain_id@);
            } else {
                assert(self.spec_channels()[i].chain_id@ != self.spec_channels()[k].chain_id@);
            }
        }
    }

    /// Record the chain's current job. Fails with `ChannelMissing` when the
    /// chain has no channel.
    pub fn update_job(&mut self, chain_id: &str, job_id: u64) -> (r: Result<(), MergeMiningError>)
        requires
            old(self).wf(),
        ensures
            final(self).wf(),
            final(self).spec_chains() == old(self).spec_chains(),
            r matches Ok(()) <==> old(self).has_channel(chain_id@),
            r is Err ==> r == Err::<(), MergeMiningError>(MergeMiningError::ChannelMissing)
                && *final(self) == *old(self),
            final(self).spec_channels().len() == old(self).spec_channels().len(),
            forall|i: int|
                #![trigger final(self).spec_channels()[i]]
                0 <= i < old(self).spec_channels().len() ==> {
                    if old(self).spec_channels()[i].chain_id@ == chain_id@ {
                        &&& final(self).spec_channels()[i].chain_id == old(
                            self,
                        ).spec_channels()[i].chain_id
                        &&& final(self).spec_channels()[i].channel_id == old(
                            self,
                        ).spec_channels()[i].channel_id
                        &&& final(self).spec_channels()[i].current_job_id == Some(job_id)
                        &&& final(self).spec_channels()[i].shares_submitted == old(
                            self,
                        ).spec_channels()[i].shares_submitted
                        &&& final(self).spec_channels()[i].total_rewards == old(
                            self,
                        ).spec_channels()[i].total_rewards
                    } else {
                        final(self).spec_channels()[i] == old(self).spec_channels()[i]
                    }
                },
    {
        let needle: String = chain_id.to_owned();
        match self.find_channel_index(&needle) {
            None => Err(MergeMiningError::ChannelMissing),
            Some(i) => {
                proof {
                    self.lemma_only_match(i as int, chain_id@);
                }
                let ch = &self.channels[i];
                let updated = MergeChannel {
                    chain_id: ch.chain_id.clone(),
                    channel_id: ch.channel_id,
                    current_job_id: Some(job_id),
                    shares_submitted: ch.shares_submitted,
                    total_rewards: ch.total_rewards,
                };
                self.channels[i] = updated;
                proof {
                    self.lemma_wf_after_update(*old(self), i as int);
                }
                Ok(())
            },
        }
    }

    /// An element-wise update that keeps every chain id keeps `wf`.
    proof fn lemma_wf_after_update(&self, prev: MergeMiningCoordinator, i: int)
        requires
            prev.wf(),
            self.spec_channels().len() == prev.spec_channels().len(),
            0 <= i < prev.spec_channels().len(),
            self.spec_channels()[i].chain_id == prev.spec_channels()[i].chain_id,
            forall|k: int|
                0 <= k < prev.spec_channels().len() && k != i
                    ==> #[trigger] self.spec_channels()[k] == prev.spec_channels()[k],
        ensures
            self.wf(),
    {
        assert forall|a: int, b: int|
            0 <= a < b < self.spec_channels().len() implies self.spec_channels()[a].chain_id@
            != self.spec_channels()[b].chain_id@ by {
            assert(self.spec_channels()[a].chain_id == prev.spec_channels()[a].chain_id);
            assert(self.spec_channels()[b].chain_id == prev.spec_channels()[b].chain_id);
            assert(prev.spec_channels()[a].chain_id@ != prev.spec_channels()[b].chain_id@);
        }
    }

    /// Add `count` to the chain's submitted-share counter. Fails with
    /// `ChannelMissing` when the chain has no channel.
    pub fn record_share(&mut self, chain_id: &str, count: u64) -> (r: Result<(), MergeMiningError>)
        requires
            old(self).wf(),
            forall|i: int|
                0 <= i < old(self).spec_channels().len() && #[trigger] old(
                    self,
                ).spec_channels()[i].chain_id@ == chain_id@ ==> old(
                    self,
                ).spec_channels()[i].shares_submitted + count <= u64::MAX,
        ensures
            final(self).wf(),
            final(self).spec_chains() == old(self).spec_chains(),
            r matches Ok(()) <==> old(self).has_channel(chain_id@),
            r is Err ==> r == Err::<(), MergeMiningError>(MergeMiningError::ChannelMissing)
                && *final(self) == *old(self),
            final(self).spec_channels().len() == old(self).spec_channels().len(),
            forall|i: int|
                #![trigger final(self).spec_channels()[i]]
                0 <= i < old(self).spec_channels().len() ==> {
                    if old(self).spec_channels()[i].chain_id@ == chain_id@ {
                        &&& final(self).spec_channels()[i].chain_id == old(
                            self,
                        ).spec_channels()[i].chain_id
                        &&& final(self).spec_channels()[i].channel_id == old(
                            self,
                        ).spec_channels()[i].channel_id
                        &&& final(self).spec_channels()[i].current_job_id == old(
                            self,
                        ).spec_channels()[i].current_job_id
                        &&& final(self).spec_channels()[i].shares_submitted == old(
                            self,
                        ).spec_channels()[i].shares_submitted + count
                        &&& final(self).spec_channels()[i].total_rewards == old(
                            self,
                        ).spec_channels()[i].total_rewards
                    } else {
                        final(self).spec_channels()[i] == old(self).spec_channels()[i]
                    }
                },
    {
        let needle: String = chain_id.to_owned();
        match self.find_channel_index(&needle) {
            None => Err(MergeMiningError::ChannelMissing),
            Some(i) => {
                proof {
                    self.lemma_only_match(i as int, chain_id@);
                    assert(old(self).spec_channels()[i as int].shares_submitted + count
                        <= u64::MAX);
                }
                let ch = &self.channels[i];
                let updated = MergeChannel {
                    chain_id: ch.chain_id.clone(),
                    channel_id: ch.channel_id,
                    current_job_id: ch.current_job_id,
                    shares_submitted: ch.shares_submitted + count,
                    total_rewards: ch.total_rewards,
                };
                self.channels[i] = updated;
                proof {
                    self.lemma_wf_after_update(*old(self), i as int);
                }
                Ok(())
            },
        }
    }

    /// Add `amount` to the chain's reward total. Fails with `ChannelMissing`
    /// when the chain has no channel.
    pub fn record_reward(&mut self, chain_id: &str, amount: u64) -> (r: Result<
        (),
        MergeMiningError,
    >)
        requires
            old(self).wf(),
            forall|i: int|
                0 <= i < old(self).spec_channels().len() && #[trigger] old(
                    self,
                ).spec_channels()[i].chain_id@ == chain_id@ ==> old(
                    self,
                ).spec_channels()[i].total_rewards + amount <= u64::MAX,
        ensures
            final(self).wf(),
            final(self).spec_chains() == old(self).spec_chains(),
            r matches Ok(()) <==> old(self).has_channel(chain_id@),
            r is Err ==> r == Err::<(), MergeMiningError>(MergeMiningError::ChannelMissing)
                && *final(self) == *old(self),
            final(self).spec_channels().len() == old(self).spec_channels().len(),
            forall|i: int|
                #![trigger final(self).spec_channels()[i]]
                0 <= i < old(self).spec_channels().len() ==> {
                    if old(self).spec_channels()[i].chain_id@ == chain_id@ {
                        &&& final(self).spec_channels()[i].chain_id == old(
                            self,
                        ).spec_channels()[i].chain_id
                        &&& final(self).spec_channels()[i].channel_id == old(
                            self,
                        ).spec_channels()[i].channel_id
                        &&& final(self).spec_channels()[i].current_job_id == old(
                            self,
                        ).spec_channels()[i].current_job_id
                        &&& final(self).spec_channels()[i].shares_submitted == old(
                            self,
                        ).spec_channels()[i].shares_submitted
                        &&& final(self).spec_channels()[i].total_rewards == old(
                            self,
                        ).spec_channels()[i].total_rewards + amount
                    } else {
                        final(self).spec_channels()[i] == old(self).spec_channels()[i]
                    }
                },
    {
        let needle: String = chain_id.to_owned();
        match self.find_channel_index(&needle) {
            None => Err(MergeMiningError::ChannelMissing),
            Some(i) => {
                proof {
                    self.lemma_only_match(i as int, chain_id@);
                    assert(old(self).spec_channels()[i as int].total_rewards + amount <= u64::MAX);
                }
                let ch = &self.channels[i];
                let updated = MergeChannel {
                    chain_id: ch.chain_id.clone(),
                    channel_id: ch.channel_id,
                    current_job_id: ch.current_job_id,
                    shares_submitted: ch.shares_submitted,
                    total_rewards: ch.total_rewards + amount,
                };
                self.channels[i] = updated;
                proof {
                    self.lemma_wf_after_update(*old(self), i as int);
                }
                Ok(())
            },
        }
    }

    /// A snapshot of the chain's channel accounting, when a channel exists.
    pub fn get_chain_stats(&self, chain_id: &str) -> (r: Option<ChainStats>)
        requires
            self.wf(),
        ensures
            match r {
                Some(stats) => exists|i: int|
                    {
                        &&& 0 <= i < self.spec_channels().len()
                        &&& self.spec_channels()[i].chain_id@ == chain_id@
                        &&& stats.chain_id == self.spec_channels()[i].chain_id
                        &&& stats.channel_id == self.spec_channels()[i].channel_id
                        &&& stats.total_rewards == self.spec_channels()[i].total_rewards
                        &&& stats.shares_submitted == self.spec_channels()[i].shares_submitted
                        &&& stats.current_job_id == self.spec_channels()[i].current_job_id
                    },
                None => !self.has_channel(chain_id@),
            },
    {
        let needle: String = chain_id.to_owned();
        match self.find_channel_index(&needle) {
            None => None,
            Some(i) => {
                let ch = &self.channels[i];
                let stats = ChainStats {
                    chain_id: ch.chain_id.clone(),
                    channel_id: ch.channel_id,
                    total_rewards: ch.total_rewards,
                    shares_submitted: ch.shares_submitted,
                    current_job_id: ch.current_job_id,
                };
                proof {
                    assert(self.spec_channels()[i as int].chain_id@ == chain_id@);
                }
                Some(stats)
            },
        }
    }

    /// Copies of all merge channels, in order of creation.
    pub fn get_all_channels(&self) -> (r: Vec<MergeChannel>)
        ensures
            r@ == self.spec_channels(),
    {
        let mut out: Vec<MergeChannel> = Vec::new();
        let m = self.channels.len();
        let mut idx: usize = 0;
        while idx < m
            invariant
                m == self.channels.len(),
                idx <= m,
                out@ =~= self.spec_channels().take(idx as int),
            decreases m - idx,
        {
            let ch = &self.channels[idx];
            out.push(
                MergeChannel {
                    chain_id: ch.chain_id.clone(),
                    channel_id: ch.channel_id,
                    current_job_id: ch.current_job_id,
                    shares_submitted: ch.shares_submitted,
                    total_rewards: ch.total_rewards,
                },
            );
            proof {
                assert(out@ =~= self.spec_channels().take(idx + 1));
            }
            idx += 1;
        }
        proof {
            assert(self.spec_channels().take(m as int) =~= self.spec_channels());
        }
        out
    }

    /// Split the summed rewards of all channels: 25% to grants, 10% to
    /// audits, 5% to operations, each rounded down, and the rest — at least
    /// 60% — to core, so that the four parts sum exactly to the total.
    pub fn get_total_revenue_distribution(&self) -> (r: RevenueDistribution)
        requires
            spec_total_rewards(self.spec_channels()) <= u64::MAX,
        ensures
            ({
                let t = spec_total_rewards(self.spec_channels());
                &&& r.grants == t * 25 / 100
                &&& r.audits == t * 10 / 100
                &&& r.operations == t * 5 / 100
                &&& r.core == t - r.grants - r.audits - r.operations
                &&& r.core + r.grants + r.audits + r.operations == t
            }),
    {
        let mut total: u64 = 0;
        let m = self.channels.len();
        let mut idx: usize = 0;
        while idx < m
            invariant
                m == self.channels.len(),
                idx <= m,
                total == spec_total_rewards(self.spec_channels().take(idx as int)),
                spec_total_rewards(self.spec_channels()) <= u64::MAX,
            decreases m - idx,
        {
            proof {
                lemma_total_rewards_prefix(self.spec_channels(), idx + 1);
                assert(self.spec_channels().take(idx + 1).drop_last() =~= self.spec_channels().take(
                    idx as int,
                ));
                assert(self.spec_channels().take(idx + 1).last() == self.spec_channels()[
                    idx as int
                ]);
            }
            total = total + self.channels[idx].total_rewards;
            idx += 1;
        }
        proof {
            assert(self.spec_channels().take(m as int) =~= self.spec_channels());
        }
        let t = total as u128;
        let ghost ti = total as int;
        proof {
            lemma_fundamental_div_mod(ti * 25, 100);
            lemma_fundamental_div_mod(ti * 10, 100);
            lemma_fundamental_div_mod(ti * 5, 100);
            lemma_mod_division_less_than_divisor(ti * 25, 100);
            lemma_mod_division_less_than_divisor(ti * 10, 100);
            lemma_mod_division_less_than_divisor(ti * 5, 100);
        }
        let grants = (t * 25 / 100) as u64;
        let audits = (t * 10 / 100) as u64;
        let operations = (t * 5 / 100) as u64;
        let core = total - grants - audits - operations;
        RevenueDistribution { core, grants, audits, operations }
    }
}

} // verus!
