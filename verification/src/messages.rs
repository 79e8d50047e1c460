//! Stratum V2 message payloads exchanged between miners and the pool.

use vstd::prelude::*;

verus! {

/// A miner's request to configure its connection.
#[derive(Debug, Clone)]
pub struct SetupConnectionMessage {
    pub protocol_version: u16,
    pub endpoint: String,
    pub capabilities: Vec<String>,
}

/// The pool's answer to a successful connection setup.
#[derive(Debug)]
pub struct SetupConnectionSuccess {
    pub supported_versions: Vec<u16>,
    pub capabilities: Vec<String>,
}

/// A miner's request to open a mining channel.
#[derive(Debug, Clone)]
pub struct OpenMiningChannelMessage {
    pub channel_id: u32,
    pub request_id: u32,
    pub min_difficulty: u32,
}

/// The pool's answer to a successful channel open.
#[derive(Debug, Clone, Copy, PartialEq, Eq, Structural)]
pub struct OpenMiningChannelSuccess {
    pub channel_id: u32,
}

/// A job pushed by the pool to one channel.
#[derive(Debug)]
pub struct NewMiningJob {
    pub job_id: u64,
    pub channel_id: u32,
    pub header_template: Vec<u8>,
    pub target: Vec<u8>,
}

/// A proof-of-work submission for a job.
#[derive(Debug, Clone, Copy, PartialEq, Eq, Structural)]
pub struct SubmitShare {
    pub channel_id: u32,
    pub job_id: u64,
    pub nonce: u32,
}

/// The pool's verdict on a submitted share.
#[derive(Debug)]
pub struct SubmitShareResult {
    pub accepted: bool,
    pub reason: Option<String>,
}

} // verus!
