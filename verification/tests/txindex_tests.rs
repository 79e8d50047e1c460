//! Tests for the transaction index, the canonical codec, and the wire
//! helpers.

use bllvm_node::blockstore::BlockStore;
use bllvm_node::tx::{
    calculate_tx_id, calculate_tx_size, calculate_tx_weight, deserialize_transaction,
    serialize_transaction, OutPoint, Transaction, TxInput, TxOutput,
};
use bllvm_node::txindex::{value_to_bucket, TxIndex};
use bllvm_node::wire::{decode_varint, encode_varint};

fn sample_tx(lock_time: u32, values: &[u64]) -> Transaction {
    let outputs: Vec<TxOutput> = values
        .iter()
        .map(|v| TxOutput { value: *v, script_pubkey: vec![0x51] })
        .collect();
    Transaction {
        version: 1,
        inputs: vec![TxInput {
            prevout: OutPoint { hash: [9u8; 32], index: 0xffff_ffff },
            script_sig: vec![0x51],
            sequence: 0xffff_ffff,
        }],
        outputs,
        lock_time,
    }
}

#[test]
fn test_serialize_transaction_exact_bytes() {
    let tx = sample_tx(0, &[50]);
    let mut expected: Vec<u8> = Vec::new();
    expected.extend_from_slice(&1i32.to_le_bytes());
    expected.push(1);
    expected.extend_from_slice(&[9u8; 32]);
    expected.extend_from_slice(&0xffff_ffffu32.to_le_bytes());
    expected.push(1);
    expected.push(0x51);
    expected.extend_from_slice(&0xffff_ffffu32.to_le_bytes());
    expected.push(1);
    expected.extend_from_slice(&50u64.to_le_bytes());
    expected.push(1);
    expected.push(0x51);
    expected.extend_from_slice(&0u32.to_le_bytes());
    assert_eq!(serialize_transaction(&tx), expected);
}

#[test]
fn test_txid_pure_over_codec() {
    let tx = sample_tx(7, &[500, 5000]);
    let bytes = serialize_transaction(&tx);
    let back = deserialize_transaction(&bytes).unwrap();
    assert_eq!(calculate_tx_id(&tx), calculate_tx_id(&back));
}

#[test]
fn test_txid_differs_for_different_transactions() {
    let a = sample_tx(0, &[50]);
    let b = sample_tx(1, &[50]);
    assert_ne!(calculate_tx_id(&a), calculate_tx_id(&b));
}

#[test]
fn test_calculate_tx_size_and_weight() {
    let tx = sample_tx(0, &[50]);
    // 4 (version) + 1 (varint n_in) + 42 (input) + 1 (varint n_out)
    // + 10 (output) + 4 (lock time)
    assert_eq!(calculate_tx_size(&tx), 62);
    assert_eq!(calculate_tx_weight(&tx), 248);
    assert_eq!(serialize_transaction(&tx).len(), 62);
}

#[test]
fn test_varint_boundaries() {
    assert_eq!(encode_varint(0), vec![0]);
    assert_eq!(encode_varint(252), vec![252]);
    assert_eq!(encode_varint(253), vec![0xfd, 253, 0]);
    assert_eq!(encode_varint(65535), vec![0xfd, 0xff, 0xff]);
    assert_eq!(encode_varint(65536), vec![0xfe, 0, 0, 1, 0]);
    assert_eq!(encode_varint(0xffff_ffff), vec![0xfe, 0xff, 0xff, 0xff, 0xff]);
    assert_eq!(
        encode_varint(0x1_0000_0000),
        vec![0xff, 0, 0, 0, 0, 1, 0, 0, 0]
    );
    for v in [0u64, 252, 253, 65535, 65536, 0xffff_ffff, 0x1_0000_0000] {
        let bytes = encode_varint(v);
        let (decoded, end) = decode_varint(&bytes, 0).unwrap();
        assert_eq!(decoded, v);
        assert_eq!(end, bytes.len());
    }
    assert_eq!(TxIndex::encode_varint(253), vec![0xfd, 253, 0]);
}

#[test]
fn test_value_to_bucket() {
    assert_eq!(value_to_bucket(0), 0);
    assert_eq!(value_to_bucket(1), 1000);
    assert_eq!(value_to_bucket(9), 1000);
    assert_eq!(value_to_bucket(10), 2000);
    assert_eq!(value_to_bucket(999), 3000);
    assert_eq!(value_to_bucket(1000), 4000);
    assert_eq!(value_to_bucket(u64::MAX), 20000);
}

#[test]
fn test_index_round_trip() {
    let mut index = TxIndex::new();
    let tx = sample_tx(3, &[50]);
    let txid = calculate_tx_id(&tx);
    index.index_transaction(&tx, &[1u8; 32], 42, 5);

    let got = index.get_transaction(&txid).unwrap();
    assert_eq!(calculate_tx_id(&got), txid);
    assert_eq!(serialize_transaction(&got), serialize_transaction(&tx));

    let md = index.get_metadata(&txid).unwrap();
    assert_eq!(md.tx_hash, txid);
    assert_eq!(md.block_hash, [1u8; 32]);
    assert_eq!(md.block_height, 42);
    assert_eq!(md.tx_index, 5);
    assert_eq!(md.size, 62);
    assert_eq!(md.weight, 248);

    assert!(index.has_transaction(&txid));
    assert_eq!(index.transaction_count(), 1);
}

#[test]
fn test_index_idempotent() {
    let mut index = TxIndex::with_indexing(true, true);
    let tx = sample_tx(3, &[500]);
    let txid = calculate_tx_id(&tx);
    index.index_transaction(&tx, &[1u8; 32], 42, 0);
    index.index_transaction(&tx, &[1u8; 32], 42, 0);

    assert_eq!(index.transaction_count(), 1);
    assert_eq!(index.get_block_transactions(&[1u8; 32]).len(), 1);
    assert_eq!(index.get_transactions_by_address(&[0x51]).len(), 1);
    assert_eq!(index.get_transactions_by_value_range(500, 500).len(), 1);
    assert!(index.get_transaction(&txid).is_some());
}

#[test]
fn test_block_enumeration_in_order() {
    let mut index = TxIndex::new();
    let bh = [2u8; 32];
    let txs = [sample_tx(0, &[50]), sample_tx(1, &[51]), sample_tx(2, &[52])];
    for (i, tx) in txs.iter().enumerate() {
        index.index_transaction(tx, &bh, 7, i as u32);
    }
    let got = index.get_block_transactions(&bh);
    assert_eq!(got.len(), 3);
    for (i, tx) in txs.iter().enumerate() {
        assert_eq!(calculate_tx_id(&got[i]), calculate_tx_id(tx));
    }
    // A gap silently ends the enumeration.
    let mut gappy = TxIndex::new();
    gappy.index_transaction(&txs[0], &bh, 7, 0);
    gappy.index_transaction(&txs[1], &bh, 7, 2);
    assert_eq!(gappy.get_block_transactions(&bh).len(), 1);
}

#[test]
fn test_address_dedup() {
    let mut index = TxIndex::with_indexing(true, false);
    let tx = sample_tx(0, &[50, 60]);
    index.index_transaction(&tx, &[1u8; 32], 1, 0);
    index.index_transaction(&tx, &[1u8; 32], 1, 0);
    // Both outputs pay the same script; the transaction is referenced once.
    let got = index.get_transactions_by_address(&[0x51]);
    assert_eq!(got.len(), 1);
    // A script never paid yields nothing.
    assert_eq!(index.get_transactions_by_address(&[0x52]).len(), 0);
}

#[test]
fn test_address_query_disabled_is_empty() {
    let mut index = TxIndex::new();
    let tx = sample_tx(0, &[50]);
    index.index_transaction(&tx, &[1u8; 32], 1, 0);
    assert_eq!(index.get_transactions_by_address(&[0x51]).len(), 0);
}

#[test]
fn test_value_range_two_outputs() {
    let mut index = TxIndex::with_indexing(false, true);
    let tx = sample_tx(0, &[500, 5000]);
    index.index_transaction(&tx, &[1u8; 32], 1, 0);
    // Both outputs fall inside the range; the transaction appears once.
    let got = index.get_transactions_by_value_range(100, 10_000);
    assert_eq!(got.len(), 1);
    assert_eq!(calculate_tx_id(&got[0]), calculate_tx_id(&tx));
}

#[test]
fn test_value_range_bucket_coverage() {
    let mut index = TxIndex::with_indexing(false, true);
    let tx = sample_tx(0, &[500]);
    index.index_transaction(&tx, &[1u8; 32], 1, 0);
    assert_eq!(index.get_transactions_by_value_range(500, 500).len(), 1);
    assert_eq!(index.get_transactions_by_value_range(501, 501).len(), 0);
    assert_eq!(index.get_transactions_by_value_range(0, 499).len(), 0);
}

#[test]
fn test_value_range_disabled_is_empty() {
    let mut index = TxIndex::new();
    let tx = sample_tx(0, &[500]);
    index.index_transaction(&tx, &[1u8; 32], 1, 0);
    assert_eq!(index.get_transactions_by_value_range(0, u64::MAX).len(), 0);
}

#[test]
fn test_remove_transaction() {
    let mut index = TxIndex::new();
    let tx = sample_tx(0, &[50]);
    let txid = calculate_tx_id(&tx);
    index.index_transaction(&tx, &[1u8; 32], 1, 0);
    index.remove_transaction(&txid);
    assert!(!index.has_transaction(&txid));
    assert!(index.get_transaction(&txid).is_none());
    assert!(index.get_metadata(&txid).is_none());
    assert_eq!(index.get_block_transactions(&[1u8; 32]).len(), 0);
    assert_eq!(index.transaction_count(), 0);
}

#[test]
fn test_clear() {
    let mut index = TxIndex::with_indexing(true, true);
    let tx = sample_tx(0, &[50]);
    index.index_transaction(&tx, &[1u8; 32], 1, 0);
    index.clear();
    assert_eq!(index.transaction_count(), 0);
    assert_eq!(index.get_transactions_by_address(&[0x51]).len(), 0);
    assert_eq!(index.get_transactions_by_value_range(0, u64::MAX).len(), 0);
}

#[test]
fn test_height_range() {
    let mut index = TxIndex::new();
    let mut store = BlockStore::new();
    let bh1 = [1u8; 32];
    let bh2 = [2u8; 32];
    store.insert_block(10, bh1);
    store.insert_block(12, bh2);
    index.index_transaction(&sample_tx(0, &[50]), &bh1, 10, 0);
    index.index_transaction(&sample_tx(1, &[51]), &bh1, 10, 1);
    index.index_transaction(&sample_tx(2, &[52]), &bh2, 12, 0);

    // Height 11 has no block and is skipped without error.
    assert_eq!(index.get_transactions_by_height_range(10, 12, &store).len(), 3);
    assert_eq!(index.get_transactions_by_height_range(10, 11, &store).len(), 2);
    assert_eq!(index.get_transactions_by_height_range(11, 11, &store).len(), 0);
    assert_eq!(index.get_transactions_by_height_range(12, 10, &store).len(), 0);
}

#[test]
fn test_try_index_transaction() {
    let mut index = TxIndex::new();
    let tx = sample_tx(0, &[50]);
    assert!(index.try_index_transaction(&tx, &[1u8; 32], 1, 0));
    assert_eq!(index.transaction_count(), 1);
    assert!(bllvm_node::tx::tx_size_within_limit(&tx));
}

#[test]
fn test_deserialize_rejects_short_buffer() {
    assert!(deserialize_transaction(&[1, 0, 0]).is_none());
    let tx = sample_tx(0, &[50]);
    let bytes = serialize_transaction(&tx);
    assert!(deserialize_transaction(&bytes[..bytes.len() - 1]).is_none());
}

#[test]
fn test_double_sha256_differs_from_input() {
    // The id is a digest of the serialized bytes, not the bytes themselves.
    let tx = sample_tx(0, &[50]);
    let bytes = serialize_transaction(&tx);
    let txid = calculate_tx_id(&tx);
    assert_ne!(txid.to_vec(), bytes[..32].to_vec());
}
