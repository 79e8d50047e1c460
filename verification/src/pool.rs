//! The pool-side Stratum V2 state machine: connection setup, channel open,
//! job dispatch, share accounting, and disconnect.
//!
//! Endpoints identify miners by a stable string. A reconnecting endpoint
//! that re-issues connection setup gets a fresh `Configured` state and its
//! prior channels are dropped.

use vstd::prelude::*;
use crate::messages::{
    SetupConnectionMessage, SetupConnectionSuccess, OpenMiningChannelMessage,
    OpenMiningChannelSuccess, NewMiningJob, SubmitShare, SubmitShareResult,
};
use crate::tx::{Block, spec_ser_header, serialize_block_header};
use crate::wire::{spec_u32_to_be_bytes, u32_to_be_vec};

verus! {

/// Errors of the pool state machine.
#[derive(Debug, Clone, Copy, PartialEq, Eq, Structural)]
pub enum PoolError {
    /// The miner asked for a protocol version the pool does not speak.
    UnsupportedVersion,
    /// The endpoint has no configured connection.
    MinerNotRegistered,
    /// No channel with that id is open for the endpoint.
    UnknownChannel,
}

/// The lifecycle state of a miner's connection.
#[derive(Debug, Clone, Copy, PartialEq, Eq, Structural)]
pub enum ConnectionState {
    Opened,
    Configured,
    Closed,
}

/// A miner's connection as the pool sees it.
#[derive(Debug)]
pub struct Connection {
    pub endpoint: String,
    pub protocol_version: u16,
    pub capabilities: Vec<String>,
    pub state: ConnectionState,
}

/// Per-miner share accounting.
#[derive(Debug, Clone, Copy, PartialEq, Eq, Structural)]
pub struct MinerStats {
    pub total_shares: u64,
    pub accepted_shares: u64,
    pub rejected_shares: u64,
    pub last_share_time: Option<u64>,
}

impl Default for MinerStats {
    /// Fresh accounting: no shares seen yet.
    fn default() -> (r: MinerStats)
        ensures
            r.total_shares == 0,
            r.accepted_shares == 0,
            r.rejected_shares == 0,
            r.last_share_time is None,
    {
        MinerStats { total_shares: 0, accepted_shares: 0, rejected_shares: 0, last_share_time: None }
    }
}

/// A per-miner logical substream carrying jobs and shares.
#[derive(Debug)]
pub struct Channel {
    pub endpoint: String,
    pub channel_id: u32,
    pub min_difficulty: u32,
    pub current_job_id: Option<u64>,
    pub shares_submitted: u64,
    pub total_rewards: u64,
    pub stats: MinerStats,
}

/// Mathematical model of a connection.
pub ghost struct ConnectionModel {
    pub endpoint: Seq<char>,
    pub protocol_version: u16,
    pub capabilities: Seq<Seq<char>>,
    pub state: ConnectionState,
}

/// Mathematical model of a channel.
pub ghost struct ChannelModel {
    pub endpoint: Seq<char>,
    pub channel_id: u32,
    pub min_difficulty: u32,
    pub current_job_id: Option<u64>,
    pub shares_submitted: u64,
    pub total_rewards: u64,
    pub stats: MinerStats,
}

impl View for Connection {
    type V = ConnectionModel;

    open spec fn view(&self) -> ConnectionModel {
        ConnectionModel {
            endpoint: self.endpoint@,
            protocol_version: self.protocol_version,
            capabilities: self.capabilities.deep_view(),
            state: self.state,
        }
    }
}

impl DeepView for Connection {
    type V = ConnectionModel;

    open spec fn deep_view(&self) -> ConnectionModel {
        self.view()
    }
}

impl View for Channel {
    type V = ChannelModel;

    open spec fn view(&self) -> ChannelModel {
        ChannelModel {
            endpoint: self.endpoint@,
            channel_id: self.channel_id,
            min_difficulty: self.min_difficulty,
            current_job_id: self.current_job_id,
            shares_submitted: self.shares_submitted,
            total_rewards: self.total_rewards,
            stats: self.stats,
        }
    }
}

impl DeepView for Channel {
    type V = ChannelModel;

    open spec fn deep_view(&self) -> ChannelModel {
        self.view()
    }
}

/// The connections of `s` whose endpoint is not `ep`, in order.
pub open spec fn spec_drop_endpoint_connections(s: Seq<ConnectionModel>, ep: Seq<char>) -> Seq<
    ConnectionModel,
>
    decreases s.len(),
{
    if s.len() == 0 {
        Seq::empty()
    } else {
        let rest = spec_drop_endpoint_connections(s.drop_last(), ep);
        if s.last().endpoint == ep {
            rest
        } else {
            rest.push(s.last())
        }
    }
}

/// The channels of `s` whose endpoint is not `ep`, in order.
pub open spec fn spec_drop_endpoint_channels(s: Seq<ChannelModel>, ep: Seq<char>) -> Seq<
    ChannelModel,
>
    decreases s.len(),
{
    if s.len() == 0 {
        Seq::empty()
    } else {
        let rest = spec_drop_endpoint_channels(s.drop_last(), ep);
        if s.last().endpoint == ep {
            rest
        } else {
            rest.push(s.last())
        }
    }
}

/// The first connection of `s` for endpoint `ep`, scanning from the front.
pub open spec fn spec_find_connection(s: Seq<ConnectionModel>, ep: Seq<char>) -> Option<
    ConnectionModel,
>
    decreases s.len(),
{
    if s.len() == 0 {
        None
    } else if s.first().endpoint == ep {
        Some(s.first())
    } else {
        spec_find_connection(s.drop_first(), ep)
    }
}

/// The capability names the pool itself speaks.
pub open spec fn spec_supported_cap(c: Seq<char>) -> bool {
    c == "mining"@
}

/// The offered capabilities that the pool also speaks, in offered order.
pub open spec fn spec_cap_intersection(s: Seq<Seq<char>>) -> Seq<Seq<char>>
    decreases s.len(),
{
    if s.len() == 0 {
        Seq::empty()
    } else {
        let rest = spec_cap_intersection(s.drop_last());
        if spec_supported_cap(s.last()) {
            rest.push(s.last())
        } else {
            rest
        }
    }
}

/// Every channel but the one at `i` is the same in `post` as in `pre`.
pub open spec fn spec_channels_unchanged_except(
    pre: Seq<ChannelModel>,
    post: Seq<ChannelModel>,
    i: int,
) -> bool {
    forall|k: int| 0 <= k < pre.len() && k != i ==> #[trigger] post[k] == pre[k]
}

/// The pool-side Stratum V2 state machine.
pub struct StratumV2Pool {
    connections: Vec<Connection>,
    channels: Vec<Channel>,
    job_counter: u64,
    current_template: Option<Block>,
}

impl StratumV2Pool {
    /// The connections, in order of first setup.
    pub closed spec fn spec_connections(&self) -> Seq<ConnectionModel> {
        self.connections.deep_view()
    }

    /// The open channels, in order of creation.
    pub closed spec fn spec_channels(&self) -> Seq<ChannelModel> {
        self.channels.deep_view()
    }

    /// The monotone job counter.
    pub closed spec fn spec_job_counter(&self) -> u64 {
        self.job_counter
    }

    /// The current block template, if one was set.
    pub closed spec fn spec_template(&self) -> Option<Block> {
        self.current_template
    }

    /// The endpoint's connection — the first, were there several — is in
    /// `Configured` state.
    pub open spec fn endpoint_configured(&self, ep: Seq<char>) -> bool {
        spec_find_connection(self.spec_connections(), ep) matches Some(c) && c.state
            == ConnectionState::Configured
    }

    /// A channel with this endpoint and id is open.
    pub open spec fn has_channel(&self, ep: Seq<char>, id: u32) -> bool {
        exists|i: int|
            0 <= i < self.spec_channels().len() && self.spec_channels()[i].endpoint == ep
                && self.spec_channels()[i].channel_id == id
    }

    /// A fresh pool: no connections, no channels, no template, counter at
    /// zero.
    pub fn new() -> (r: StratumV2Pool)
        ensures
            r.spec_connections() == Seq::<ConnectionModel>::empty(),
            r.spec_channels() == Seq::<ChannelModel>::empty(),
            r.spec_job_counter() == 0,
            r.spec_template() is None,
    {
        let r = StratumV2Pool {
            connections: Vec::new(),
            channels: Vec::new(),
            job_counter: 0,
            current_template: None,
        };
        proof {
            assert(r.spec_connections() =~= Seq::<ConnectionModel>::empty());
            assert(r.spec_channels() =~= Seq::<ChannelModel>::empty());
        }
        r
    }

    /// The position of the first connection for the endpoint.
    fn find_connection_index(&self, needle: &String) -> (r: Option<usize>)
        ensures
            match r {
                Some(i) => {
                    &&& 0 <= i < self.spec_connections().len()
                    &&& self.spec_connections()[i as int].endpoint == needle@
                    &&& spec_find_connection(self.spec_connections(), needle@) == Some(
                        self.spec_connections()[i as int],
                    )
                },
                None => spec_find_connection(self.spec_connections(), needle@) is None,
            },
    {
        let ghost s = self.spec_connections();
        let m = self.connections.len();
        let mut idx: usize = 0;
        proof {
            assert(s.skip(0) =~= s);
        }
        while idx < m
            invariant
                m == self.connections@.len(),
                s == self.spec_connections(),
                s.len() == m,
                idx <= m,
                spec_find_connection(s, needle@) == spec_find_connection(
                    s.skip(idx as int),
                    needle@,
                ),
            decreases m - idx,
        {
            proof {
                assert(s.skip(idx as int).first() == s[idx as int]);
                assert(s.skip(idx as int).drop_first() =~= s.skip(idx + 1));
            }
            if self.connections[idx].endpoint == *needle {
                return Some(idx);
            }
            idx += 1;
        }
        proof {
            assert(s.skip(m as int) =~= Seq::<ConnectionModel>::empty());
        }
        None
    }

    /// The position of the first channel keyed `(ep, id)`.
    fn find_channel_index(&self, needle: &String, id: u32) -> (r: Option<usize>)
        ensures
            match r {
                Some(i) => {
                    &&& 0 <= i < self.spec_channels().len()
                    &&& self.spec_channels()[i as int].endpoint == needle@
                    &&& self.spec_channels()[i as int].channel_id == id
                },
                None => !self.has_channel(needle@, id),
            },
    {
        let m = self.channels.len();
        let mut idx: usize = 0;
        while idx < m
            invariant
                m == self.channels@.len(),
                idx <= m,
                forall|j: int|
                    0 <= j < idx ==> !(self.spec_channels()[j].endpoint == needle@
                        && self.spec_channels()[j].channel_id == id),
            decreases m - idx,
        {
            if self.channels[idx].channel_id == id && self.channels[idx].endpoint == *needle {
                return Some(idx);
            }
            idx += 1;
        }
        None
    }

    /// Configure a miner's connection. Only protocol version 2 is spoken;
    /// a reconnecting endpoint gets a fresh `Configured` connection and its
    /// prior channels are dropped. The response intersects the offered
    /// capabilities with what the pool speaks.
    pub fn handle_setup_connection(&mut self, msg: SetupConnectionMessage) -> (r: Result<
        SetupConnectionSuccess,
        PoolError,
    >)
        ensures
            final(self).spec_job_counter() == old(self).spec_job_counter(),
            final(self).spec_template() == old(self).spec_template(),
            r matches Ok(_) <==> msg.protocol_version == 2,
            msg.protocol_version != 2 ==> r == Err::<SetupConnectionSuccess, PoolError>(
                PoolError::UnsupportedVersion,
            ) && *final(self) == *old(self),
            r matches Ok(resp) ==> {
                &&& resp.supported_versions@ == seq![2u16]
                &&& resp.capabilities.deep_view() == spec_cap_intersection(
                    msg.capabilities.deep_view(),
                )
                &&& final(self).spec_channels() == spec_drop_endpoint_channels(
                    old(self).spec_channels(),
                    msg.endpoint@,
                )
                &&& final(self).spec_connections().len() >= 1
                &&& {
                    let c = final(self).spec_connections().last();
                    &&& c.endpoint == msg.endpoint@
                    &&& c.protocol_version == 2
                    &&& c.capabilities == spec_cap_intersection(msg.capabilities.deep_view())
                    &&& c.state == ConnectionState::Configured
                }
                &&& final(self).spec_connections().drop_last() == spec_drop_endpoint_connections(
                    old(self).spec_connections(),
                    msg.endpoint@,
                )
            },
    {
        if msg.protocol_version != 2 {
            return Err(PoolError::UnsupportedVersion);
        }
        let supported: String = "mining".to_owned();
        let mut caps: Vec<String> = Vec::new();
        let n_caps = msg.capabilities.len();
        let mut ci: usize = 0;
        while ci < n_caps
            invariant
                n_caps == msg.capabilities@.len(),
                ci <= n_caps,
                supported@ == "mining"@,
                caps.deep_view() == spec_cap_intersection(
                    msg.capabilities.deep_view().take(ci as int),
                ),
            decreases n_caps - ci,
        {
            let ghost prefix = msg.capabilities.deep_view().take(ci as int);
            let ghost pre_dv = caps.deep_view();
            if msg.capabilities[ci] == supported {
                caps.push(msg.capabilities[ci].clone());
                proof {
                    assert(caps.deep_view() =~= pre_dv.push(msg.capabilities@[ci as int]@));
                }
            }
            proof {
                assert(msg.capabilities.deep_view().take(ci + 1).drop_last() =~= prefix);
                assert(msg.capabilities.deep_view().take(ci + 1).last() == msg.capabilities@[
                    ci as int
                ]@);
            }
            ci += 1;
        }
        proof {
            assert(msg.capabilities.deep_view().take(n_caps as int)
                =~= msg.capabilities.deep_view());
        }
        let mut resp_caps: Vec<String> = Vec::new();
        let m_caps = caps.len();
        let mut ri: usize = 0;
        while ri < m_caps
            invariant
                m_caps == caps@.len(),
                ri <= m_caps,
                resp_caps.deep_view() =~= caps.deep_view().take(ri as int),
            decreases m_caps - ri,
        {
            let ghost pre_dv = resp_caps.deep_view();
            resp_caps.push(caps[ri].clone());
            proof {
                assert(resp_caps.deep_view() =~= pre_dv.push(caps.deep_view()[ri as int]));
                assert(caps.deep_view().take(ri + 1) =~= caps.deep_view().take(ri as int).push(
                    caps.deep_view()[ri as int],
                ));
            }
            ri += 1;
        }
        proof {
            assert(caps.deep_view().take(m_caps as int) =~= caps.deep_view());
        }
        let ghost old_channels = self.spec_channels();
        let mut kept: Vec<Channel> = Vec::new();
        let n_ch = self.channels.len();
        let mut ki: usize = 0;
        while ki < n_ch
            invariant
                n_ch == self.channels@.len(),
                ki <= n_ch,
                old_channels == self.spec_channels(),
                old_channels.len() == n_ch,
                kept.deep_view() == spec_drop_endpoint_channels(
                    old_channels.take(ki as int),
                    msg.endpoint@,
                ),
            decreases n_ch - ki,
        {
            let ghost prefix = old_channels.take(ki as int);
            let ghost pre_dv = kept.deep_view();
            let ch = &self.channels[ki];
            if !(ch.endpoint == msg.endpoint) {
                kept.push(
                    Channel {
                        endpoint: ch.endpoint.clone(),
                        channel_id: ch.channel_id,
                        min_difficulty: ch.min_difficulty,
                        current_job_id: ch.current_job_id,
                        shares_submitted: ch.shares_submitted,
                        total_rewards: ch.total_rewards,
                        stats: ch.stats,
                    },
                );
                proof {
                    assert(kept.deep_view() =~= pre_dv.push(old_channels[ki as int]));
                }
            }
            proof {
                assert(old_channels.take(ki + 1).drop_last() =~= prefix);
                assert(old_channels.take(ki + 1).last() == old_channels[ki as int]);
            }
            ki += 1;
        }
        proof {
            assert(old_channels.take(n_ch as int) =~= old_channels);
        }
        self.channels = kept;
        let ghost old_conns = self.spec_connections();
        let mut kept_conns: Vec<Connection> = Vec::new();
        let n_co = self.connections.len();
        let mut oi: usize = 0;
        while oi < n_co
            invariant
                n_co == self.connections@.len(),
                oi <= n_co,
                old_conns == self.spec_connections(),
                old_conns.len() == n_co,
                kept_conns.deep_view() == spec_drop_endpoint_connections(
                    old_conns.take(oi as int),
                    msg.endpoint@,
                ),
            decreases n_co - oi,
        {
            let ghost prefix = old_conns.take(oi as int);
            let ghost pre_dv = kept_conns.deep_view();
            let c = &self.connections[oi];
            if !(c.endpoint == msg.endpoint) {
                let mut cap_copy: Vec<String> = Vec::new();
                let nc = c.capabilities.len();
                let mut cc: usize = 0;
                while cc < nc
                    invariant
                        nc == c.capabilities@.len(),
                        cc <= nc,
                        cap_copy.deep_view() =~= c.capabilities.deep_view().take(cc as int),
                    decreases nc - cc,
                {
                    let ghost pre_caps = cap_copy.deep_view();
                    cap_copy.push(c.capabilities[cc].clone());
                    proof {
                        assert(cap_copy.deep_view() =~= pre_caps.push(
                            c.capabilities.deep_view()[cc as int],
                        ));
                        assert(c.capabilities.deep_view().take(cc + 1)
                            =~= c.capabilities.deep_view().take(cc as int).push(
                            c.capabilities.deep_view()[cc as int],
                        ));
                    }
                    cc += 1;
                }
                proof {
                    assert(c.capabilities.deep_view().take(nc as int)
                        =~= c.capabilities.deep_view());
                }
                kept_conns.push(
                    Connection {
                        endpoint: c.endpoint.clone(),
                        protocol_version: c.protocol_version,
                        capabilities: cap_copy,
                        state: c.state,
                    },
                );
                proof {
                    assert(kept_conns.deep_view() =~= pre_dv.push(old_conns[oi as int]));
                }
            }
            proof {
                assert(old_conns.take(oi + 1).drop_last() =~= prefix);
                assert(old_conns.take(oi + 1).last() == old_conns[oi as int]);
            }
            oi += 1;
        }
        proof {
            assert(old_conns.take(n_co as int) =~= old_conns);
        }
        let ghost kept_models = kept_conns.deep_view();
        kept_conns.push(
            Connection {
                endpoint: msg.endpoint,
                protocol_version: 2,
                capabilities: caps,
                state: ConnectionState::Configured,
            },
        );
        self.connections = kept_conns;
        proof {
            assert(self.spec_connections().drop_last() =~= kept_models);
        }
        let mut versions: Vec<u16> = Vec::new();
        versions.push(2);
        proof {
            assert(versions@ =~= seq![2u16]);
        }
        Ok(SetupConnectionSuccess { supported_versions: versions, capabilities: resp_caps })
    }

    /// Open the channel `(endpoint, channel_id)` for a configured miner.
    /// Fails with `MinerNotRegistered` when the endpoint has no configured
    /// connection.
    pub fn handle_open_channel(&mut self, endpoint: &str, msg: OpenMiningChannelMessage) -> (r:
        Result<OpenMiningChannelSuccess, PoolError>)
        ensures
            final(self).spec_connections() == old(self).spec_connections(),
            final(self).spec_job_counter() == old(self).spec_job_counter(),
            final(self).spec_template() == old(self).spec_template(),
            r matches Ok(_) <==> old(self).endpoint_configured(endpoint@),
            r is Err ==> r == Err::<OpenMiningChannelSuccess, PoolError>(
                PoolError::MinerNotRegistered,
            ) && *final(self) == *old(self),
            r matches Ok(resp) ==> {
                &&& resp.channel_id == msg.channel_id
                &&& final(self).has_channel(endpoint@, msg.channel_id)
                &&& final(self).spec_channels().drop_last() == old(self).spec_channels()
                &&& {
                    let c = final(self).spec_channels().last();
                    &&& c.endpoint == endpoint@
                    &&& c.channel_id == msg.channel_id
                    &&& c.min_difficulty == msg.min_difficulty
                    &&& c.current_job_id is None
                    &&& c.shares_submitted == 0
                    &&& c.total_rewards == 0
                    &&& c.stats == (MinerStats {
                        total_shares: 0,
                        accepted_shares: 0,
                        rejected_shares: 0,
                        last_share_time: None,
                    })
                }
            },
    {
        let needle: String = endpoint.to_owned();
        match self.find_connection_index(&needle) {
            None => {
                return Err(PoolError::MinerNotRegistered);
            },
            Some(ci) => {
                let configured = matches!(self.connections[ci].state, ConnectionState::Configured);
                if !configured {
                    return Err(PoolError::MinerNotRegistered);
                }
                let fresh = Channel {
                    endpoint: needle,
                    channel_id: msg.channel_id,
                    min_difficulty: msg.min_difficulty,
                    current_job_id: None,
                    shares_submitted: 0,
                    total_rewards: 0,
                    stats: MinerStats {
                        total_shares: 0,
                        accepted_shares: 0,
                        rejected_shares: 0,
                        last_share_time: None,
                    },
                };
                let ghost pre_dv = self.spec_channels();
                let ghost fresh_model = fresh@;
                let pos = self.channels.len();
                self.channels.push(fresh);
                proof {
                    assert(self.spec_channels() =~= pre_dv.push(fresh_model));
                    assert(self.spec_channels().drop_last() =~= pre_dv);
                    assert(self.spec_channels()[pos as int].endpoint == endpoint@);
                }
                Ok(OpenMiningChannelSuccess { channel_id: msg.channel_id })
            },
        }
    }

    /// Install a new block template: bump the job counter, remember the
    /// template, point every channel at the new job, and emit one
    /// `NewMiningJob` per channel, in channel order. Each job frame carries
    /// the serialized header and the channel's difficulty tag.
    #[verifier::loop_isolation(false)]
    pub fn set_template(&mut self, template: Block) -> (r: (u64, Vec<NewMiningJob>))
        requires
            old(self).spec_job_counter() < u64::MAX,
        ensures
            final(self).spec_job_counter() == old(self).spec_job_counter() + 1,
            r.0 == final(self).spec_job_counter(),
            r.0 > 0,
            final(self).spec_template() == Some(template),
            final(self).spec_connections() == old(self).spec_connections(),
            final(self).spec_channels().len() == old(self).spec_channels().len(),
            forall|i: int|
                #![trigger final(self).spec_channels()[i]]
                0 <= i < old(self).spec_channels().len() ==> {
                    let oldc = old(self).spec_channels()[i];
                    let newc = final(self).spec_channels()[i];
                    &&& newc.endpoint == oldc.endpoint
                    &&& newc.channel_id == oldc.channel_id
                    &&& newc.min_difficulty == oldc.min_difficulty
                    &&& newc.current_job_id == Some(r.0)
                    &&& newc.shares_submitted == oldc.shares_submitted
                    &&& newc.total_rewards == oldc.total_rewards
                    &&& newc.stats == oldc.stats
                },
            r.1@.len() == old(self).spec_channels().len(),
            forall|i: int|
                #![trigger r.1@[i]]
                0 <= i < r.1@.len() ==> {
                    &&& r.1@[i].job_id == r.0
                    &&& r.1@[i].channel_id == old(self).spec_channels()[i].channel_id
                    &&& r.1@[i].header_template@ == spec_ser_header(template.header@)
                    &&& r.1@[i].target@ == spec_u32_to_be_bytes(
                        old(self).spec_channels()[i].min_difficulty,
                    )
                },
    {
        let ghost old_channels = self.spec_channels();
        self.job_counter = self.job_counter + 1;
        let job_id = self.job_counter;
        let header_bytes = serialize_block_header(&template.header);
        let mut messages: Vec<NewMiningJob> = Vec::new();
        let n = self.channels.len();
        let mut i: usize = 0;
        while i < n
            invariant
                n == self.channels@.len(),
                n == old_channels.len(),
                i <= n,
                self.job_counter == job_id,
                job_id == old(self).spec_job_counter() + 1,
                self.connections == old(self).connections,
                self.current_template == old(self).current_template,
                header_bytes@ == spec_ser_header(template.header@),
                messages@.len() == i,
                forall|k: int|
                    #![trigger self.spec_channels()[k]]
                    0 <= k < n ==> {
                        let oldc = old_channels[k];
                        let newc = self.spec_channels()[k];
                        &&& newc.endpoint == oldc.endpoint
                        &&& newc.channel_id == oldc.channel_id
                        &&& newc.min_difficulty == oldc.min_difficulty
                        &&& newc.current_job_id == if k < i {
                            Some(job_id)
                        } else {
                            oldc.current_job_id
                        }
                        &&& newc.shares_submitted == oldc.shares_submitted
                        &&& newc.total_rewards == oldc.total_rewards
                        &&& newc.stats == oldc.stats
                    },
                forall|k: int|
                    #![trigger messages@[k]]
                    0 <= k < i ==> {
                        &&& messages@[k].job_id == job_id
                        &&& messages@[k].channel_id == old_channels[k].channel_id
                        &&& messages@[k].header_template@ == spec_ser_header(template.header@)
                        &&& messages@[k].target@ == spec_u32_to_be_bytes(
                            old_channels[k].min_difficulty,
                        )
                    },
            decreases n - i,
        {
            let ch = &self.channels[i];
            let ghost chm = ch@;
            let ghost pre_chans = self.spec_channels();
            proof {
                assert(chm == pre_chans[i as int]);
                assert(pre_chans[i as int].endpoint == old_channels[i as int].endpoint);
                assert(pre_chans[i as int].channel_id == old_channels[i as int].channel_id);
                assert(pre_chans[i as int].min_difficulty == old_channels[
                    i as int
                ].min_difficulty);
                assert(pre_chans[i as int].shares_submitted == old_channels[
                    i as int
                ].shares_submitted);
                assert(pre_chans[i as int].total_rewards == old_channels[i as int].total_rewards);
                assert(pre_chans[i as int].stats == old_channels[i as int].stats);
            }
            let job_msg = NewMiningJob {
                job_id,
                channel_id: ch.channel_id,
                header_template: vstd::slice::slice_to_vec(header_bytes.as_slice()),
                target: u32_to_be_vec(ch.min_difficulty),
            };
            let updated = Channel {
                endpoint: ch.endpoint.clone(),
                channel_id: ch.channel_id,
                min_difficulty: ch.min_difficulty,
                current_job_id: Some(job_id),
                shares_submitted: ch.shares_submitted,
                total_rewards: ch.total_rewards,
                stats: ch.stats,
            };
            let ghost um = updated@;
            self.channels[i] = updated;
            proof {
                assert(self.spec_channels() =~= pre_chans.update(i as int, um));
                assert(self.spec_channels()[i as int] == um);
                assert(um.endpoint == old_channels[i as int].endpoint);
                assert(um.channel_id == old_channels[i as int].channel_id);
                assert(um.min_difficulty == old_channels[i as int].min_difficulty);
                assert(um.shares_submitted == old_channels[i as int].shares_submitted);
                assert(um.total_rewards == old_channels[i as int].total_rewards);
                assert(um.stats == old_channels[i as int].stats);
                assert(forall|k: int|
                    0 <= k < n && k != i as int ==> #[trigger] self.spec_channels()[k]
                        == pre_chans[k]);
            }
            let ghost pre_msgs = messages@;
            messages.push(job_msg);
            proof {
                assert(messages@[i as int].job_id == job_id);
                assert(messages@[i as int].channel_id == old_channels[i as int].channel_id);
                assert(messages@[i as int].header_template@ == spec_ser_header(template.header@));
                assert(messages@[i as int].target@ == spec_u32_to_be_bytes(
                    old_channels[i as int].min_difficulty,
                ));
                assert(forall|k: int| 0 <= k < i ==> #[trigger] messages@[k] == pre_msgs[k]);
            }
            i += 1;
        }
        let ghost exit_chans = self.spec_channels();
        self.current_template = Some(template);
        proof {
            assert(self.spec_channels() =~= exit_chans);
        }
        (job_id, messages)
    }

    /// Account a submitted share for `(endpoint, channel_id)`. A share for
    /// the channel's current job is accepted; one for a stale or unset job
    /// is rejected with reason `StaleJob`. `now` is the caller's clock, in
    /// Unix seconds. Fails with `UnknownChannel` when no such channel is
    /// open.
    pub fn submit_share(&mut self, endpoint: &str, channel_id: u32, share: SubmitShare, now: u64)
        -> (r: Result<SubmitShareResult, PoolError>)
        requires
            forall|i: int|
                0 <= i < old(self).spec_channels().len() && (#[trigger] old(
                    self,
                ).spec_channels()[i]).endpoint == endpoint@ && old(self).spec_channels()[
                i
                ].channel_id == channel_id ==> {
                    &&& old(self).spec_channels()[i].stats.total_shares < u64::MAX
                    &&& old(self).spec_channels()[i].stats.accepted_shares < u64::MAX
                    &&& old(self).spec_channels()[i].stats.rejected_shares < u64::MAX
                    &&& old(self).spec_channels()[i].shares_submitted < u64::MAX
                },
        ensures
            final(self).spec_connections() == old(self).spec_connections(),
            final(self).spec_job_counter() == old(self).spec_job_counter(),
            final(self).spec_template() == old(self).spec_template(),
            r matches Ok(_) <==> old(self).has_channel(endpoint@, channel_id),
            r is Err ==> r == Err::<SubmitShareResult, PoolError>(PoolError::UnknownChannel)
                && *final(self) == *old(self),
            r matches Ok(res) ==> exists|i: int|
                {
                    &&& 0 <= i < old(self).spec_channels().len()
                    &&& {
                        let oldc = old(self).spec_channels()[i];
                        let newc = final(self).spec_channels()[i];
                        &&& oldc.endpoint == endpoint@
                        &&& oldc.channel_id == channel_id
                        &&& res.accepted == (old(self).spec_template() is Some
                            && oldc.current_job_id == Some(share.job_id))
                        &&& (res.accepted ==> res.reason is None)
                        &&& (!res.accepted ==> (res.reason matches Some(why) && why@
                            == "StaleJob"@))
                        &&& newc.endpoint == oldc.endpoint
                        &&& newc.channel_id == oldc.channel_id
                        &&& newc.min_difficulty == oldc.min_difficulty
                        &&& newc.current_job_id == oldc.current_job_id
                        &&& newc.total_rewards == oldc.total_rewards
                        &&& newc.stats.total_shares == oldc.stats.total_shares + 1
                        &&& (res.accepted ==> {
                            &&& newc.stats.accepted_shares == oldc.stats.accepted_shares + 1
                            &&& newc.stats.rejected_shares == oldc.stats.rejected_shares
                            &&& newc.stats.last_share_time == Some(now)
                            &&& newc.shares_submitted == oldc.shares_submitted + 1
                        })
                        &&& (!res.accepted ==> {
                            &&& newc.stats.accepted_shares == oldc.stats.accepted_shares
                            &&& newc.stats.rejected_shares == oldc.stats.rejected_shares + 1
                            &&& newc.stats.last_share_time == oldc.stats.last_share_time
                            &&& newc.shares_submitted == oldc.shares_submitted
                        })
                    }
                    &&& spec_channels_unchanged_except(
                        old(self).spec_channels(),
                        final(self).spec_channels(),
                        i,
                    )
                },
    {
        let needle: String = endpoint.to_owned();
        match self.find_channel_index(&needle, channel_id) {
            None => Err(PoolError::UnknownChannel),
            Some(i) => {
                let has_template = matches!(&self.current_template, Some(_));
                let ch = &self.channels[i];
                let fresh_job = match (has_template, &ch.current_job_id) {
                    (true, Some(j)) => *j == share.job_id,
                    _ => false,
                };
                proof {
                    assert(old(self).spec_channels()[i as int].stats.total_shares < u64::MAX);
                }
                let updated = if fresh_job {
                    Channel {
                        endpoint: ch.endpoint.clone(),
                        channel_id: ch.channel_id,
                        min_difficulty: ch.min_difficulty,
                        current_job_id: ch.current_job_id,
                        shares_submitted: ch.shares_submitted + 1,
                        total_rewards: ch.total_rewards,
                        stats: MinerStats {
                            total_shares: ch.stats.total_shares + 1,
                            accepted_shares: ch.stats.accepted_shares + 1,
                            rejected_shares: ch.stats.rejected_shares,
                            last_share_time: Some(now),
                        },
                    }
                } else {
                    Channel {
                        endpoint: ch.endpoint.clone(),
                        channel_id: ch.channel_id,
                        min_difficulty: ch.min_difficulty,
                        current_job_id: ch.current_job_id,
                        shares_submitted: ch.shares_submitted,
                        total_rewards: ch.total_rewards,
                        stats: MinerStats {
                            total_shares: ch.stats.total_shares + 1,
                            accepted_shares: ch.stats.accepted_shares,
                            rejected_shares: ch.stats.rejected_shares + 1,
                            last_share_time: ch.stats.last_share_time,
                        },
                    }
                };
                let ghost pre_chans = self.spec_channels();
                let ghost um = updated@;
                self.channels[i] = updated;
                proof {
                    assert(self.spec_channels() =~= pre_chans.update(i as int, um));
                    assert(spec_channels_unchanged_except(
                        old(self).spec_channels(),
                        self.spec_channels(),
                        i as int,
                    ));
                    assert(self.spec_channels()[i as int] == um);
                }
                let result = if fresh_job {
                    SubmitShareResult { accepted: true, reason: None }
                } else {
                    SubmitShareResult { accepted: false, reason: Some("StaleJob".to_owned()) }
                };
                Ok(result)
            },
        }
    }

    /// Drop the endpoint's connection and every channel bound to it.
    pub fn disconnect(&mut self, endpoint: &str)
        ensures
            final(self).spec_job_counter() == old(self).spec_job_counter(),
            final(self).spec_template() == old(self).spec_template(),
            final(self).spec_connections() == spec_drop_endpoint_connections(
                old(self).spec_connections(),
                endpoint@,
            ),
            final(self).spec_channels() == spec_drop_endpoint_channels(
                old(self).spec_channels(),
                endpoint@,
            ),
    {
        let needle: String = endpoint.to_owned();
        let ghost old_conns = self.spec_connections();
        let mut kept_conns: Vec<Connection> = Vec::new();
        let n_co = self.connections.len();
        let mut oi: usize = 0;
        while oi < n_co
            invariant
                n_co == self.connections@.len(),
                oi <= n_co,
                old_conns == self.spec_connections(),
                old_conns.len() == n_co,
                needle@ == endpoint@,
                kept_conns.deep_view() == spec_drop_endpoint_connections(
                    old_conns.take(oi as int),
                    endpoint@,
                ),
            decreases n_co - oi,
        {
            let ghost prefix = old_conns.take(oi as int);
            let ghost pre_dv = kept_conns.deep_view();
            let c = &self.connections[oi];
            if !(c.endpoint == needle) {
                let mut cap_copy: Vec<String> = Vec::new();
                let nc = c.capabilities.len();
                let mut cc: usize = 0;
                while cc < nc
                    invariant
                        nc == c.capabilities@.len(),
                        cc <= nc,
                        cap_copy.deep_view() =~= c.capabilities.deep_view().take(cc as int),
                    decreases nc - cc,
                {
                    let ghost pre_caps = cap_copy.deep_view();
                    cap_copy.push(c.capabilities[cc].clone());
                    proof {
                        assert(cap_copy.deep_view() =~= pre_caps.push(
                            c.capabilities.deep_view()[cc as int],
                        ));
                        assert(c.capabilities.deep_view().take(cc + 1)
                            =~= c.capabilities.deep_view().take(cc as int).push(
                            c.capabilities.deep_view()[cc as int],
                        ));
                    }
                    cc += 1;
                }
                proof {
                    assert(c.capabilities.deep_view().take(nc as int)
                        =~= c.capabilities.deep_view());
                }
                kept_conns.push(
                    Connection {
                        endpoint: c.endpoint.clone(),
                        protocol_version: c.protocol_version,
                        capabilities: cap_copy,
                        state: c.state,
                    },
                );
                proof {
                    assert(kept_conns.deep_view() =~= pre_dv.push(old_conns[oi as int]));
                }
            }
            proof {
                assert(old_conns.take(oi + 1).drop_last() =~= prefix);
                assert(old_conns.take(oi + 1).last() == old_conns[oi as int]);
            }
            oi += 1;
        }
        proof {
            assert(old_conns.take(n_co as int) =~= old_conns);
        }
        self.connections = kept_conns;
        let ghost old_channels = self.spec_channels();
        let mut kept: Vec<Channel> = Vec::new();
        let n_ch = self.channels.len();
        let mut ki: usize = 0;
        while ki < n_ch
            invariant
                n_ch == self.channels@.len(),
                ki <= n_ch,
                old_channels == self.spec_channels(),
                old_channels.len() == n_ch,
                needle@ == endpoint@,
                kept.deep_view() == spec_drop_endpoint_channels(
                    old_channels.take(ki as int),
                    endpoint@,
                ),
            decreases n_ch - ki,
        {
            let ghost prefix = old_channels.take(ki as int);
            let ghost pre_dv = kept.deep_view();
            let ch = &self.channels[ki];
            if !(ch.endpoint == needle) {
                kept.push(
                    Channel {
                        endpoint: ch.endpoint.clone(),
                        channel_id: ch.channel_id,
                        min_difficulty: ch.min_difficulty,
                        current_job_id: ch.current_job_id,
                        shares_submitted: ch.shares_submitted,
                        total_rewards: ch.total_rewards,
                        stats: ch.stats,
                    },
                );
                proof {
                    assert(kept.deep_view() =~= pre_dv.push(old_channels[ki as int]));
                }
            }
            proof {
                assert(old_channels.take(ki + 1).drop_last() =~= prefix);
                assert(old_channels.take(ki + 1).last() == old_channels[ki as int]);
            }
            ki += 1;
        }
        proof {
            assert(old_channels.take(n_ch as int) =~= old_channels);
        }
        self.channels = kept;
    }
}

} // verus!
