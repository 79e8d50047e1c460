//! The Stratum V2 protocol surface is part of the library proper: its
//! types are reachable without any build-time switch.

use bllvm_node::pool::StratumV2Pool;
use bllvm_node::tlv::TlvEncoder;

#[test]
fn test_stratum_v2_feature_not_enabled() {
    // The protocol types exist unconditionally in this crate; constructing
    // them needs no feature switch.
    let _pool = StratumV2Pool::new();
    let _encoder = TlvEncoder::new();
    assert!(true);
}
