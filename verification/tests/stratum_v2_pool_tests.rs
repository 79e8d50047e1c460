//! Tests for the pool-side Stratum V2 state machine.

use bllvm_node::messages::{OpenMiningChannelMessage, SetupConnectionMessage, SubmitShare};
use bllvm_node::pool::{MinerStats, PoolError, StratumV2Pool};
use bllvm_node::tx::{Block, BlockHeader};

fn create_test_block() -> Block {
    Block {
        header: BlockHeader {
            version: 1,
            prev_block_hash: [0u8; 32],
            merkle_root: [0u8; 32],
            timestamp: 1231006505,
            bits: 0x1d00ffff,
            nonce: 0,
        },
        transactions: vec![],
    }
}

#[test]
fn test_stratum_v2_pool_new() {
    let _pool = StratumV2Pool::new();
    assert!(true);
}

#[test]
fn test_stratum_v2_pool_handle_setup_connection() {
    let mut pool = StratumV2Pool::new();

    let msg = SetupConnectionMessage {
        protocol_version: 2,
        endpoint: "test-miner".to_string(),
        capabilities: vec!["mining".to_string()],
    };

    let result = pool.handle_setup_connection(msg);
    assert!(result.is_ok());

    let response = result.unwrap();
    assert_eq!(response.supported_versions, vec![2]);
    assert!(response.capabilities.contains(&"mining".to_string()));
}

#[test]
fn test_stratum_v2_pool_handle_open_channel() {
    let mut pool = StratumV2Pool::new();

    let setup_msg = SetupConnectionMessage {
        protocol_version: 2,
        endpoint: "test-miner".to_string(),
        capabilities: vec!["mining".to_string()],
    };
    pool.handle_setup_connection(setup_msg).unwrap();

    let channel_msg = OpenMiningChannelMessage { channel_id: 1, request_id: 1, min_difficulty: 1 };

    let result = pool.handle_open_channel("test-miner", channel_msg);
    assert!(result.is_ok());

    let response = result.unwrap();
    assert_eq!(response.channel_id, 1);
}

#[test]
fn test_stratum_v2_pool_handle_open_channel_no_miner() {
    let mut pool = StratumV2Pool::new();

    let channel_msg = OpenMiningChannelMessage { channel_id: 1, request_id: 1, min_difficulty: 1 };

    let result = pool.handle_open_channel("unknown-miner", channel_msg);
    assert!(result.is_err());
}

#[test]
fn test_stratum_v2_pool_set_template() {
    let mut pool = StratumV2Pool::new();
    let block = create_test_block();

    let (job_id, messages) = pool.set_template(block);

    assert!(job_id > 0);
    assert!(messages.is_empty());
}

#[test]
fn test_miner_stats_default() {
    let stats = MinerStats::default();
    assert_eq!(stats.total_shares, 0);
    assert_eq!(stats.accepted_shares, 0);
    assert_eq!(stats.rejected_shares, 0);
    assert!(stats.last_share_time.is_none());
}

#[test]
fn test_pool_rejects_unsupported_version() {
    let mut pool = StratumV2Pool::new();
    let msg = SetupConnectionMessage {
        protocol_version: 3,
        endpoint: "m".to_string(),
        capabilities: vec![],
    };
    assert_eq!(pool.handle_setup_connection(msg).unwrap_err(), PoolError::UnsupportedVersion);
}

#[test]
fn test_pool_submit_share_accept_and_stale() {
    let mut pool = StratumV2Pool::new();
    pool.handle_setup_connection(SetupConnectionMessage {
        protocol_version: 2,
        endpoint: "m".to_string(),
        capabilities: vec!["mining".to_string()],
    })
    .unwrap();
    pool.handle_open_channel(
        "m",
        OpenMiningChannelMessage { channel_id: 7, request_id: 1, min_difficulty: 1 },
    )
    .unwrap();
    let (job_id, _) = pool.set_template(create_test_block());

    let fresh = pool
        .submit_share("m", 7, SubmitShare { channel_id: 7, job_id, nonce: 1 }, 100)
        .unwrap();
    assert!(fresh.accepted);
    assert!(fresh.reason.is_none());

    let stale = pool
        .submit_share("m", 7, SubmitShare { channel_id: 7, job_id: job_id + 1, nonce: 2 }, 101)
        .unwrap();
    assert!(!stale.accepted);
    assert_eq!(stale.reason.unwrap(), "StaleJob");
}

#[test]
fn test_pool_submit_share_unknown_channel() {
    let mut pool = StratumV2Pool::new();
    let result = pool.submit_share("m", 1, SubmitShare { channel_id: 1, job_id: 1, nonce: 0 }, 5);
    assert_eq!(result.unwrap_err(), PoolError::UnknownChannel);
}

#[test]
fn test_pool_reconnect_resets_channels() {
    let mut pool = StratumV2Pool::new();
    pool.handle_setup_connection(SetupConnectionMessage {
        protocol_version: 2,
        endpoint: "m".to_string(),
        capabilities: vec![],
    })
    .unwrap();
    pool.handle_open_channel(
        "m",
        OpenMiningChannelMessage { channel_id: 1, request_id: 1, min_difficulty: 1 },
    )
    .unwrap();

    // Double setup succeeds and drops the endpoint's channels.
    pool.handle_setup_connection(SetupConnectionMessage {
        protocol_version: 2,
        endpoint: "m".to_string(),
        capabilities: vec![],
    })
    .unwrap();
    let result = pool.submit_share("m", 1, SubmitShare { channel_id: 1, job_id: 1, nonce: 0 }, 5);
    assert_eq!(result.unwrap_err(), PoolError::UnknownChannel);
}

#[test]
fn test_pool_disconnect_drops_state() {
    let mut pool = StratumV2Pool::new();
    pool.handle_setup_connection(SetupConnectionMessage {
        protocol_version: 2,
        endpoint: "m".to_string(),
        capabilities: vec![],
    })
    .unwrap();
    pool.disconnect("m");
    let result = pool.handle_open_channel(
        "m",
        OpenMiningChannelMessage { channel_id: 1, request_id: 1, min_difficulty: 1 },
    );
    assert_eq!(result.unwrap_err(), PoolError::MinerNotRegistered);
}

#[test]
fn test_pool_set_template_notifies_channels() {
    let mut pool = StratumV2Pool::new();
    pool.handle_setup_connection(SetupConnectionMessage {
        protocol_version: 2,
        endpoint: "m".to_string(),
        capabilities: vec![],
    })
    .unwrap();
    pool.handle_open_channel(
        "m",
        OpenMiningChannelMessage { channel_id: 9, request_id: 1, min_difficulty: 16 },
    )
    .unwrap();
    let (job_id, messages) = pool.set_template(create_test_block());
    assert_eq!(messages.len(), 1);
    assert_eq!(messages[0].job_id, job_id);
    assert_eq!(messages[0].channel_id, 9);
    assert_eq!(messages[0].header_template.len(), 80);
    assert_eq!(messages[0].target, vec![0, 0, 0, 16]);
}
