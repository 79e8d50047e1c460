//! Persistent, multi-view transaction index: transactions keyed by id, by
//! block membership, by script hash, and by output-value bucket, over the
//! embedded key-value trees.

use vstd::prelude::*;
use vstd::bytes::*;
use crate::kv::Tree;
use crate::hashing::{sha256, sha256_of};
use crate::tx::{
    Transaction, TxModel, TxOutModel, spec_ser_tx, spec_parse_tx, spec_tx_id, spec_tx_size,
    calculate_tx_id, serialize_transaction, deserialize_transaction, calculate_tx_size,
    calculate_tx_weight,
};
use crate::wire::{spec_u32_to_be_bytes, spec_u64_to_be_bytes, u32_to_be_vec, u64_to_be_vec};

verus! {

/// Derived facts about one indexed transaction; never authoritative.
#[derive(Debug, Clone, Copy)]
pub struct TxMetadata {
    pub tx_hash: [u8; 32],
    pub block_hash: [u8; 32],
    pub block_height: u64,
    pub tx_index: u32,
    pub size: u32,
    pub weight: u32,
}

/// Mathematical model of transaction metadata.
pub ghost struct TxMetadataModel {
    pub tx_hash: Seq<u8>,
    pub block_hash: Seq<u8>,
    pub block_height: u64,
    pub tx_index: u32,
    pub size: u32,
    pub weight: u32,
}

impl View for TxMetadata {
    type V = TxMetadataModel;

    open spec fn view(&self) -> TxMetadataModel {
        TxMetadataModel {
            tx_hash: self.tx_hash@,
            block_hash: self.block_hash@,
            block_height: self.block_height,
            tx_index: self.tx_index,
            size: self.size,
            weight: self.weight,
        }
    }
}

/// The stored layout of metadata: both hashes, then height, index, size and
/// weight, little-endian; 84 bytes in all.
pub open spec fn spec_ser_metadata(m: TxMetadataModel) -> Seq<u8> {
    m.tx_hash + m.block_hash + spec_u64_to_le_bytes(m.block_height) + spec_u32_to_le_bytes(
        m.tx_index,
    ) + spec_u32_to_le_bytes(m.size) + spec_u32_to_le_bytes(m.weight)
}

/// What parsing a stored metadata record yields.
pub open spec fn spec_parse_metadata(s: Seq<u8>) -> Option<TxMetadataModel> {
    if s.len() != 84 {
        None
    } else {
        Some(
            TxMetadataModel {
                tx_hash: s.subrange(0, 32),
                block_hash: s.subrange(32, 64),
                block_height: spec_u64_from_le_bytes(s.subrange(64, 72)),
                tx_index: spec_u32_from_le_bytes(s.subrange(72, 76)),
                size: spec_u32_from_le_bytes(s.subrange(76, 80)),
                weight: spec_u32_from_le_bytes(s.subrange(80, 84)),
            },
        )
    }
}

/// Parsing a stored metadata record undoes serializing it.
pub proof fn lemma_metadata_round_trip(m: TxMetadataModel)
    requires
        m.tx_hash.len() == 32,
        m.block_hash.len() == 32,
    ensures
        spec_parse_metadata(spec_ser_metadata(m)) == Some(m),
{
    lemma_auto_spec_u32_to_from_le_bytes();
    lemma_auto_spec_u64_to_from_le_bytes();
    let s = spec_ser_metadata(m);
    assert(s.len() == 84);
    assert(s.subrange(0, 32) =~= m.tx_hash);
    assert(s.subrange(32, 64) =~= m.block_hash);
    assert(s.subrange(64, 72) =~= spec_u64_to_le_bytes(m.block_height));
    assert(s.subrange(72, 76) =~= spec_u32_to_le_bytes(m.tx_index));
    assert(s.subrange(76, 80) =~= spec_u32_to_le_bytes(m.size));
    assert(s.subrange(80, 84) =~= spec_u32_to_le_bytes(m.weight));
}

/// Serialize metadata into its stored 84-byte layout.
fn serialize_metadata(m: &TxMetadata) -> (r: Vec<u8>)
    ensures
        r@ == spec_ser_metadata(m@),
{
    let mut out = vstd::slice::slice_to_vec(m.tx_hash.as_slice());
    let mut bh = vstd::slice::slice_to_vec(m.block_hash.as_slice());
    out.append(&mut bh);
    let mut height = u64_to_le_bytes(m.block_height);
    out.append(&mut height);
    let mut idx = u32_to_le_bytes(m.tx_index);
    out.append(&mut idx);
    let mut size = u32_to_le_bytes(m.size);
    out.append(&mut size);
    let mut weight = u32_to_le_bytes(m.weight);
    out.append(&mut weight);
    proof {
        assert(out@ =~= spec_ser_metadata(m@));
    }
    out
}

/// Read 32 bytes at `pos` into a fixed hash.
fn copy_hash32(data: &[u8], pos: usize) -> (r: [u8; 32])
    requires
        pos + 32 <= data@.len(),
    ensures
        r@ == data@.subrange(pos as int, pos + 32),
{
    let n = data.len();
    let mut h = [0u8; 32];
    let mut k: usize = 0;
    while k < 32
        invariant
            k <= 32,
            n == data@.len(),
            pos + 32 <= n,
            forall|t: int| 0 <= t < k ==> h@[t] == data@[pos + t],
        decreases 32 - k,
    {
        h[k] = *vstd::slice::slice_index_get(data, pos + k);
        k += 1;
    }
    proof {
        assert(h@ =~= data@.subrange(pos as int, pos + 32));
    }
    h
}

/// Parse a stored metadata record.
fn parse_metadata(data: &[u8]) -> (r: Option<TxMetadata>)
    ensures
        match r {
            Some(m) => spec_parse_metadata(data@) == Some(m@),
            None => spec_parse_metadata(data@) is None,
        },
{
    if data.len() != 84 {
        return None;
    }
    let tx_hash = copy_hash32(data, 0);
    let block_hash = copy_hash32(data, 32);
    let height_bytes = vstd::slice::slice_subrange(data, 64, 72);
    let block_height = u64_from_le_bytes(height_bytes);
    let idx_bytes = vstd::slice::slice_subrange(data, 72, 76);
    let tx_index = u32_from_le_bytes(idx_bytes);
    let size_bytes = vstd::slice::slice_subrange(data, 76, 80);
    let size = u32_from_le_bytes(size_bytes);
    let weight_bytes = vstd::slice::slice_subrange(data, 80, 84);
    let weight = u32_from_le_bytes(weight_bytes);
    proof {
        assert(height_bytes@ =~= data@.subrange(64, 72));
        assert(idx_bytes@ =~= data@.subrange(72, 76));
        assert(size_bytes@ =~= data@.subrange(76, 80));
        assert(weight_bytes@ =~= data@.subrange(80, 84));
    }
    Some(TxMetadata { tx_hash, block_hash, block_height, tx_index, size, weight })
}

/// Whether the 32-byte records of `s` include the hash `h`.
pub open spec fn spec_hash_in(s: Seq<u8>, h: Seq<u8>) -> bool
    decreases s.len(),
{
    if s.len() < 32 {
        false
    } else {
        s.subrange(0, 32) == h || spec_hash_in(s.skip(32), h)
    }
}

/// Whether the stored hash list holds `h`.
fn contains_hash(data: &[u8], h: &[u8; 32]) -> (r: bool)
    ensures
        r == spec_hash_in(data@, h@),
{
    let n = data.len();
    let mut pos: usize = 0;
    proof {
        assert(data@.skip(0) =~= data@);
    }
    while n - pos >= 32
        invariant
            n == data@.len(),
            pos <= n,
            spec_hash_in(data@, h@) == spec_hash_in(data@.skip(pos as int), h@),
        decreases n - pos,
    {
        let chunk = vstd::slice::slice_subrange(data, pos, pos + 32);
        proof {
            assert(chunk@ =~= data@.skip(pos as int).subrange(0, 32));
            assert(data@.skip(pos as int).skip(32) =~= data@.skip(pos + 32));
        }
        if crate::kv::bytes_eq(chunk, h.as_slice()) {
            return true;
        }
        pos += 32;
    }
    false
}

/// One stored output record: 32-byte transaction hash, output index
/// (little-endian `u32`), and output value (little-endian `u64`); 44 bytes.
pub open spec fn spec_entry_record(h: Seq<u8>, idx: u32, value: u64) -> Seq<u8> {
    h + spec_u32_to_le_bytes(idx) + spec_u64_to_le_bytes(value)
}

/// Whether the 44-byte records of `s` include one keyed `(h, idx)`.
pub open spec fn spec_entry_in(s: Seq<u8>, h: Seq<u8>, idx: u32) -> bool
    decreases s.len(),
{
    if s.len() < 44 {
        false
    } else {
        (s.subrange(0, 32) == h && spec_u32_from_le_bytes(s.subrange(32, 36)) == idx)
            || spec_entry_in(s.skip(44), h, idx)
    }
}

/// Whether the stored record list holds a record keyed `(h, idx)`.
fn contains_entry(data: &[u8], h: &[u8; 32], idx: u32) -> (r: bool)
    ensures
        r == spec_entry_in(data@, h@, idx),
{
    let n = data.len();
    let mut pos: usize = 0;
    proof {
        assert(data@.skip(0) =~= data@);
    }
    while n - pos >= 44
        invariant
            n == data@.len(),
            pos <= n,
            spec_entry_in(data@, h@, idx) == spec_entry_in(data@.skip(pos as int), h@, idx),
        decreases n - pos,
    {
        let chunk = vstd::slice::slice_subrange(data, pos, pos + 32);
        let idx_bytes = vstd::slice::slice_subrange(data, pos + 32, pos + 36);
        let rec_idx = u32_from_le_bytes(idx_bytes);
        proof {
            assert(chunk@ =~= data@.skip(pos as int).subrange(0, 32));
            assert(idx_bytes@ =~= data@.skip(pos as int).subrange(32, 36));
            assert(data@.skip(pos as int).skip(44) =~= data@.skip(pos + 44));
        }
        if rec_idx == idx && crate::kv::bytes_eq(chunk, h.as_slice()) {
            return true;
        }
        pos += 44;
    }
    false
}

/// The number of decimal digits of `v` below its leading digit.
pub open spec fn spec_log10(v: u64) -> nat
    decreases v,
{
    if v < 10 {
        0
    } else {
        1 + spec_log10(v / 10)
    }
}

/// The value bucket: 0 for a zero value, else `(⌊log₁₀ v⌋ + 1) × 1000`.
pub open spec fn spec_bucket(v: u64) -> u64 {
    if v == 0 {
        0
    } else {
        (((spec_log10(v) + 1) * 1000) as u64)
    }
}

/// Powers of ten.
pub open spec fn pow10(k: nat) -> nat
    decreases k,
{
    if k == 0 {
        1
    } else {
        10 * pow10((k - 1) as nat)
    }
}

proof fn lemma_log10_lt(v: u64, k: nat)
    requires
        k >= 1,
        (v as nat) < pow10(k),
    ensures
        spec_log10(v) <= k - 1,
    decreases k,
{
    if v >= 10 {
        if k == 1 {
            assert(pow10(0) == 1);
            assert(pow10(1) == 10);
        }
        assert(pow10(k) == 10 * pow10((k - 1) as nat));
        assert(((v / 10) as nat) < pow10((k - 1) as nat)) by (nonlinear_arith)
            requires
                (v as nat) < pow10(k),
                pow10(k) == 10 * pow10((k - 1) as nat),
                v >= 10,
        ;
        lemma_log10_lt(v / 10, (k - 1) as nat);
    }
}

/// `spec_log10` stays below 20 on `u64` values.
proof fn lemma_log10_bound(v: u64)
    ensures
        spec_log10(v) <= 19,
{
    assert(pow10(0) == 1);
    assert(pow10(1) == 10);
    assert(pow10(2) == 100);
    assert(pow10(3) == 1000);
    assert(pow10(4) == 10000);
    assert(pow10(5) == 100000);
    assert(pow10(6) == 1000000);
    assert(pow10(7) == 10000000);
    assert(pow10(8) == 100000000);
    assert(pow10(9) == 1000000000);
    assert(pow10(10) == 10000000000);
    assert(pow10(11) == 100000000000);
    assert(pow10(12) == 1000000000000);
    assert(pow10(13) == 10000000000000);
    assert(pow10(14) == 100000000000000);
    assert(pow10(15) == 1000000000000000);
    assert(pow10(16) == 10000000000000000);
    assert(pow10(17) == 100000000000000000);
    assert(pow10(18) == 1000000000000000000);
    assert(pow10(19) == 10000000000000000000);
    assert(pow10(20) == 100000000000000000000);
    lemma_log10_lt(v, 20);
}

/// Buckets do not decrease as the value grows.
pub proof fn lemma_bucket_monotone(a: u64, b: u64)
    requires
        a <= b,
    ensures
        spec_bucket(a) <= spec_bucket(b),
{
    if a != 0 {
        lemma_log10_monotone(a, b);
        lemma_log10_bound(a);
        lemma_log10_bound(b);
    }
}

proof fn lemma_log10_monotone(a: u64, b: u64)
    requires
        a <= b,
    ensures
        spec_log10(a) <= spec_log10(b),
    decreases b,
{
    if a >= 10 {
        lemma_log10_monotone(a / 10, b / 10);
    }
}

/// The bucket of a value.
pub fn value_to_bucket(value: u64) -> (r: u64)
    ensures
        r == spec_bucket(value),
        r <= 20000,
{
    if value == 0 {
        return 0;
    }
    let mut digits: u64 = 0;
    let mut x = value;
    while x >= 10
        invariant
            x >= 1,
            spec_log10(value) == digits + spec_log10(x),
            digits <= 19,
        decreases x,
    {
        proof {
            lemma_log10_bound(value);
        }
        x = x / 10;
        digits += 1;
    }
    proof {
        lemma_log10_bound(value);
    }
    (digits + 1) * 1000
}

/// The `tx_by_block` key: block hash followed by the big-endian index.
pub open spec fn spec_block_key(bh: Seq<u8>, idx: u32) -> Seq<u8> {
    bh + spec_u32_to_be_bytes(idx)
}

fn block_tx_key(block_hash: &[u8; 32], tx_index: u32) -> (r: Vec<u8>)
    ensures
        r@ == spec_block_key(block_hash@, tx_index),
{
    let mut key = vstd::slice::slice_to_vec(block_hash.as_slice());
    let mut idx = u32_to_be_vec(tx_index);
    key.append(&mut idx);
    key
}

/// The stored bytes at `k`, or the empty string when `k` is unbound.
pub open spec fn map_get_or_empty(m: Map<Seq<u8>, Seq<u8>>, k: Seq<u8>) -> Seq<u8> {
    if m.contains_key(k) {
        m[k]
    } else {
        Seq::empty()
    }
}

/// Add `h` to the hash list stored at `key`, unless the list holds it.
pub open spec fn spec_add_hash_at(m: Map<Seq<u8>, Seq<u8>>, key: Seq<u8>, h: Seq<u8>) -> Map<
    Seq<u8>,
    Seq<u8>,
> {
    let cur = map_get_or_empty(m, key);
    if spec_hash_in(cur, h) {
        m
    } else {
        m.insert(key, cur + h)
    }
}

/// Add the record `(h, idx, value)` to the list stored at `key`, unless a
/// record keyed `(h, idx)` exists.
pub open spec fn spec_add_entry_at(
    m: Map<Seq<u8>, Seq<u8>>,
    key: Seq<u8>,
    h: Seq<u8>,
    idx: u32,
    value: u64,
) -> Map<Seq<u8>, Seq<u8>> {
    let cur = map_get_or_empty(m, key);
    if spec_entry_in(cur, h, idx) {
        m
    } else {
        m.insert(key, cur + spec_entry_record(h, idx, value))
    }
}

/// The address views after indexing `outs` (numbered from `idx`) of the
/// transaction `txid`: each output's script hash gains the transaction,
/// and the output itself, at most once.
pub open spec fn spec_index_addresses(
    m_tx: Map<Seq<u8>, Seq<u8>>,
    m_out: Map<Seq<u8>, Seq<u8>>,
    outs: Seq<TxOutModel>,
    txid: Seq<u8>,
    idx: u32,
) -> (Map<Seq<u8>, Seq<u8>>, Map<Seq<u8>, Seq<u8>>)
    decreases outs.len(),
{
    if outs.len() == 0 {
        (m_tx, m_out)
    } else {
        let addr = sha256_of(outs.first().script_pubkey);
        let m_tx2 = spec_add_hash_at(m_tx, addr, txid);
        let m_out2 = spec_add_entry_at(m_out, addr, txid, idx, outs.first().value);
        spec_index_addresses(m_tx2, m_out2, outs.drop_first(), txid, (idx + 1) as u32)
    }
}

/// The value view after indexing `outs` (numbered from `idx`) of `txid`:
/// each output lands in its value bucket, at most once.
pub open spec fn spec_index_values(
    m_val: Map<Seq<u8>, Seq<u8>>,
    outs: Seq<TxOutModel>,
    txid: Seq<u8>,
    idx: u32,
) -> Map<Seq<u8>, Seq<u8>>
    decreases outs.len(),
{
    if outs.len() == 0 {
        m_val
    } else {
        let key = spec_u64_to_be_bytes(spec_bucket(outs.first().value));
        let m2 = spec_add_entry_at(m_val, key, txid, idx, outs.first().value);
        spec_index_values(m2, outs.drop_first(), txid, (idx + 1) as u32)
    }
}

/// What one step of a block scan yields: the transaction at `(bh, k)`, or
/// nothing when the entry, the body, or a clean parse is missing.
pub open spec fn spec_block_step(
    m_block: Map<Seq<u8>, Seq<u8>>,
    m_tx: Map<Seq<u8>, Seq<u8>>,
    bh: Seq<u8>,
    k: u32,
) -> Option<TxModel> {
    let key = spec_block_key(bh, k);
    if m_block.contains_key(key) {
        let h = m_block[key];
        if m_tx.contains_key(h) {
            match spec_parse_tx(m_tx[h]) {
                Some(p) => Some(p.0),
                None => None,
            }
        } else {
            None
        }
    } else {
        None
    }
}

/// A block scan from index `k`: transactions in index order, stopping at
/// the first missing step.
pub open spec fn spec_block_scan_from(
    m_block: Map<Seq<u8>, Seq<u8>>,
    m_tx: Map<Seq<u8>, Seq<u8>>,
    bh: Seq<u8>,
    k: u32,
) -> Seq<TxModel>
    decreases u32::MAX - k,
{
    if k == u32::MAX {
        Seq::empty()
    } else {
        match spec_block_step(m_block, m_tx, bh, k) {
            Some(t) => seq![t] + spec_block_scan_from(m_block, m_tx, bh, (k + 1) as u32),
            None => Seq::empty(),
        }
    }
}

/// The transactions fetched for the 32-byte hashes packed in `bytes`, in
/// order, skipping hashes whose body is absent or does not parse.
pub open spec fn spec_fetch_hashes(m_tx: Map<Seq<u8>, Seq<u8>>, bytes: Seq<u8>) -> Seq<TxModel>
    decreases bytes.len(),
{
    if bytes.len() < 32 {
        Seq::empty()
    } else {
        let h = bytes.subrange(0, 32);
        let rest = spec_fetch_hashes(m_tx, bytes.skip(32));
        if m_tx.contains_key(h) {
            match spec_parse_tx(m_tx[h]) {
                Some(p) => seq![p.0] + rest,
                None => rest,
            }
        } else {
            rest
        }
    }
}

/// The transactions fetched for a list of hashes, in order, skipping
/// hashes whose body is absent or does not parse.
pub open spec fn spec_fetch_list(m_tx: Map<Seq<u8>, Seq<u8>>, hs: Seq<Seq<u8>>) -> Seq<TxModel>
    decreases hs.len(),
{
    if hs.len() == 0 {
        Seq::empty()
    } else {
        let rest = spec_fetch_list(m_tx, hs.drop_first());
        if m_tx.contains_key(hs.first()) {
            match spec_parse_tx(m_tx[hs.first()]) {
                Some(p) => seq![p.0] + rest,
                None => rest,
            }
        } else {
            rest
        }
    }
}

/// The distinct hashes of the bucket records in `bytes` whose value lies in
/// `[min, max]`, appended to `acc` in record order.
pub open spec fn spec_bucket_hits(
    bytes: Seq<u8>,
    min: u64,
    max: u64,
    acc: Seq<Seq<u8>>,
) -> Seq<Seq<u8>>
    decreases bytes.len(),
{
    if bytes.len() < 44 {
        acc
    } else {
        let h = bytes.subrange(0, 32);
        let v = spec_u64_from_le_bytes(bytes.subrange(36, 44));
        let acc2 = if min <= v && v <= max && !acc.contains(h) {
            acc.push(h)
        } else {
            acc
        };
        spec_bucket_hits(bytes.skip(44), min, max, acc2)
    }
}

/// The distinct hashes hit while walking buckets `b ..= max_b`.
pub open spec fn spec_range_hashes(
    m_val: Map<Seq<u8>, Seq<u8>>,
    b: u64,
    max_b: u64,
    min: u64,
    max: u64,
    acc: Seq<Seq<u8>>,
) -> Seq<Seq<u8>>
    decreases max_b - b,
{
    if b > max_b {
        acc
    } else {
        let acc2 = if m_val.contains_key(spec_u64_to_be_bytes(b)) {
            spec_bucket_hits(m_val[spec_u64_to_be_bytes(b)], min, max, acc)
        } else {
            acc
        };
        if b == max_b {
            acc2
        } else {
            spec_range_hashes(m_val, (b + 1) as u64, max_b, min, max, acc2)
        }
    }
}

/// The transactions of the stored blocks with heights `lo ..= hi`, in
/// height order then block order; heights without a stored block contribute
/// nothing.
pub open spec fn spec_height_scan(
    m_block: Map<Seq<u8>, Seq<u8>>,
    m_tx: Map<Seq<u8>, Seq<u8>>,
    store: Seq<(u64, [u8; 32])>,
    lo: u64,
    hi: u64,
) -> Seq<TxModel>
    decreases hi - lo,
{
    if lo > hi {
        Seq::empty()
    } else {
        let cur = match crate::blockstore::spec_find_height(store, lo) {
            Some(bh) => spec_block_scan_from(m_block, m_tx, bh, 0),
            None => Seq::empty(),
        };
        if lo == hi {
            cur
        } else {
            cur + spec_height_scan(m_block, m_tx, store, (lo + 1) as u64, hi)
        }
    }
}

/// Whether the list of hashes holds `h`.
fn hash_list_contains(hs: &Vec<Vec<u8>>, h: &[u8]) -> (r: bool)
    ensures
        r == hs.deep_view().contains(h@),
{
    let m = hs.len();
    let mut i: usize = 0;
    while i < m
        invariant
            m == hs@.len(),
            i <= m,
            forall|j: int| 0 <= j < i ==> hs.deep_view()[j] != h@,
        decreases m - i,
    {
        proof {
            assert(hs.deep_view()[i as int] =~= hs@[i as int]@);
        }
        if crate::kv::bytes_eq(hs[i].as_slice(), h) {
            proof {
                assert(hs.deep_view()[i as int] == h@);
            }
            return true;
        }
        i += 1;
    }
    proof {
        if hs.deep_view().contains(h@) {
            let j = choose|j: int|
                0 <= j < hs.deep_view().len() && hs.deep_view()[j] == h@;
            assert(false);
        }
    }
    false
}

/// Membership in a packed hash list survives appending bytes.
proof fn lemma_hash_in_extend(s: Seq<u8>, x: Seq<u8>, h: Seq<u8>)
    requires
        spec_hash_in(s, h),
    ensures
        spec_hash_in(s + x, h),
    decreases s.len(),
{
    assert((s + x).subrange(0, 32) =~= s.subrange(0, 32));
    if s.subrange(0, 32) == h {
    } else {
        assert((s + x).skip(32) =~= s.skip(32) + x);
        lemma_hash_in_extend(s.skip(32), x, h);
    }
}

/// A whole number of 32-byte records followed by `h` holds `h`.
proof fn lemma_hash_in_self(s: Seq<u8>, h: Seq<u8>)
    requires
        h.len() == 32,
        s.len() % 32 == 0,
    ensures
        spec_hash_in(s + h, h),
    decreases s.len(),
{
    if s.len() == 0 {
        assert((s + h).subrange(0, 32) =~= h);
    } else {
        assert(s.len() >= 32);
        if (s + h).subrange(0, 32) == h {
        } else {
            assert((s + h).skip(32) =~= s.skip(32) + h);
            lemma_hash_in_self(s.skip(32), h);
        }
    }
}

/// Membership in a packed record list survives appending bytes.
proof fn lemma_entry_in_extend(s: Seq<u8>, x: Seq<u8>, h: Seq<u8>, idx: u32)
    requires
        spec_entry_in(s, h, idx),
    ensures
        spec_entry_in(s + x, h, idx),
    decreases s.len(),
{
    assert((s + x).subrange(0, 32) =~= s.subrange(0, 32));
    assert((s + x).subrange(32, 36) =~= s.subrange(32, 36));
    if s.subrange(0, 32) == h && spec_u32_from_le_bytes(s.subrange(32, 36)) == idx {
    } else {
        assert((s + x).skip(44) =~= s.skip(44) + x);
        lemma_entry_in_extend(s.skip(44), x, h, idx);
    }
}

/// A whole number of 44-byte records followed by the record `(h, idx, v)`
/// holds a record keyed `(h, idx)`.
proof fn lemma_entry_in_self(s: Seq<u8>, h: Seq<u8>, idx: u32, v: u64)
    requires
        h.len() == 32,
        s.len() % 44 == 0,
    ensures
        spec_entry_in(s + spec_entry_record(h, idx, v), h, idx),
    decreases s.len(),
{
    lemma_auto_spec_u32_to_from_le_bytes();
    lemma_auto_spec_u64_to_from_le_bytes();
    let t = s + spec_entry_record(h, idx, v);
    if s.len() == 0 {
        assert(t.subrange(0, 32) =~= h);
        assert(t.subrange(32, 36) =~= spec_u32_to_le_bytes(idx));
    } else {
        assert(s.len() >= 44);
        if t.subrange(0, 32) == h && spec_u32_from_le_bytes(t.subrange(32, 36)) == idx {
        } else {
            assert(t.skip(44) =~= s.skip(44) + spec_entry_record(h, idx, v));
            lemma_entry_in_self(s.skip(44), h, idx, v);
        }
    }
}

/// Every value of the map packs whole 32-byte records.
pub open spec fn spec_hash_map_wf(m: Map<Seq<u8>, Seq<u8>>) -> bool {
    forall|k: Seq<u8>| m.contains_key(k) ==> (#[trigger] m[k]).len() % 32 == 0
}

/// Every value of the map packs whole 44-byte records.
pub open spec fn spec_entry_map_wf(m: Map<Seq<u8>, Seq<u8>>) -> bool {
    forall|k: Seq<u8>| m.contains_key(k) ==> (#[trigger] m[k]).len() % 44 == 0
}

/// Folding the outputs into the address views keeps both maps well formed,
/// records every output's transaction and output entry, and never loses a
/// membership the maps already held.
proof fn lemma_index_addresses_props(
    m_tx: Map<Seq<u8>, Seq<u8>>,
    m_out: Map<Seq<u8>, Seq<u8>>,
    outs: Seq<TxOutModel>,
    txid: Seq<u8>,
    idx: u32,
)
    requires
        txid.len() == 32,
        spec_hash_map_wf(m_tx),
        spec_entry_map_wf(m_out),
        idx + outs.len() <= u32::MAX,
    ensures
        ({
            let r = spec_index_addresses(m_tx, m_out, outs, txid, idx);
            &&& spec_hash_map_wf(r.0)
            &&& spec_entry_map_wf(r.1)
            &&& forall|j: int|
                0 <= j < outs.len() ==> spec_hash_in(
                    map_get_or_empty(r.0, sha256_of((#[trigger] outs[j]).script_pubkey)),
                    txid,
                )
            &&& forall|j: int|
                0 <= j < outs.len() ==> spec_entry_in(
                    map_get_or_empty(r.1, sha256_of((#[trigger] outs[j]).script_pubkey)),
                    txid,
                    (idx + j) as u32,
                )
            &&& forall|k: Seq<u8>, h: Seq<u8>|
                spec_hash_in(map_get_or_empty(m_tx, k), h) ==> #[trigger] spec_hash_in(
                    map_get_or_empty(r.0, k),
                    h,
                )
            &&& forall|k: Seq<u8>, h: Seq<u8>, i2: u32|
                spec_entry_in(map_get_or_empty(m_out, k), h, i2) ==> #[trigger] spec_entry_in(
                    map_get_or_empty(r.1, k),
                    h,
                    i2,
                )
        }),
    decreases outs.len(),
{
    if outs.len() > 0 {
        lemma_auto_spec_u32_to_from_le_bytes();
        lemma_auto_spec_u64_to_from_le_bytes();
        let addr = sha256_of(outs.first().script_pubkey);
        let m_tx2 = spec_add_hash_at(m_tx, addr, txid);
        let m_out2 = spec_add_entry_at(m_out, addr, txid, idx, outs.first().value);
        assert(spec_hash_map_wf(m_tx2)) by {
            assert forall|k: Seq<u8>| m_tx2.contains_key(k) implies (#[trigger] m_tx2[k]).len()
                % 32 == 0 by {
                if k == addr && !spec_hash_in(map_get_or_empty(m_tx, addr), txid) {
                    assert(m_tx2[k] == map_get_or_empty(m_tx, addr) + txid);
                }
            }
        }
        assert(spec_entry_map_wf(m_out2)) by {
            assert forall|k: Seq<u8>| m_out2.contains_key(k) implies (#[trigger] m_out2[k]).len()
                % 44 == 0 by {
                if k == addr && !spec_entry_in(map_get_or_empty(m_out, addr), txid, idx) {
                    assert(m_out2[k] == map_get_or_empty(m_out, addr) + spec_entry_record(
                        txid,
                        idx,
                        outs.first().value,
                    ));
                }
            }
        }
        assert(spec_hash_in(map_get_or_empty(m_tx2, addr), txid)) by {
            if !spec_hash_in(map_get_or_empty(m_tx, addr), txid) {
                lemma_hash_in_self(map_get_or_empty(m_tx, addr), txid);
            }
        }
        assert(spec_entry_in(map_get_or_empty(m_out2, addr), txid, idx)) by {
            if !spec_entry_in(map_get_or_empty(m_out, addr), txid, idx) {
                lemma_entry_in_self(map_get_or_empty(m_out, addr), txid, idx, outs.first().value);
            }
        }
        assert forall|k: Seq<u8>, h: Seq<u8>|
            spec_hash_in(map_get_or_empty(m_tx, k), h) implies #[trigger] spec_hash_in(
            map_get_or_empty(m_tx2, k),
            h,
        ) by {
            if k == addr && !spec_hash_in(map_get_or_empty(m_tx, addr), txid) {
                lemma_hash_in_extend(map_get_or_empty(m_tx, k), txid, h);
            }
        }
        assert forall|k: Seq<u8>, h: Seq<u8>, i2: u32|
            spec_entry_in(map_get_or_empty(m_out, k), h, i2) implies #[trigger] spec_entry_in(
            map_get_or_empty(m_out2, k),
            h,
            i2,
        ) by {
            if k == addr && !spec_entry_in(map_get_or_empty(m_out, addr), txid, idx) {
                lemma_entry_in_extend(
                    map_get_or_empty(m_out, k),
                    spec_entry_record(txid, idx, outs.first().value),
                    h,
                    i2,
                );
            }
        }
        lemma_index_addresses_props(m_tx2, m_out2, outs.drop_first(), txid, (idx + 1) as u32);
        let r = spec_index_addresses(m_tx, m_out, outs, txid, idx);
        assert(r == spec_index_addresses(m_tx2, m_out2, outs.drop_first(), txid, (idx + 1) as u32));
        assert forall|j: int| 0 <= j < outs.len() implies spec_hash_in(
            map_get_or_empty(r.0, sha256_of((#[trigger] outs[j]).script_pubkey)),
            txid,
        ) by {
            if j == 0 {
            } else {
                assert(outs.drop_first()[j - 1] == outs[j]);
            }
        }
        assert forall|j: int| 0 <= j < outs.len() implies spec_entry_in(
            map_get_or_empty(r.1, sha256_of((#[trigger] outs[j]).script_pubkey)),
            txid,
            (idx + j) as u32,
        ) by {
            if j == 0 {
            } else {
                assert(outs.drop_first()[j - 1] == outs[j]);
                assert(((idx + 1) as u32 + (j - 1)) as u32 == (idx + j) as u32);
            }
        }
    }
}

/// When every output's memberships are already present, the address fold
/// changes nothing.
proof fn lemma_index_addresses_noop(
    m_tx: Map<Seq<u8>, Seq<u8>>,
    m_out: Map<Seq<u8>, Seq<u8>>,
    outs: Seq<TxOutModel>,
    txid: Seq<u8>,
    idx: u32,
)
    requires
        idx + outs.len() <= u32::MAX,
        forall|j: int|
            0 <= j < outs.len() ==> spec_hash_in(
                map_get_or_empty(m_tx, sha256_of((#[trigger] outs[j]).script_pubkey)),
                txid,
            ),
        forall|j: int|
            0 <= j < outs.len() ==> spec_entry_in(
                map_get_or_empty(m_out, sha256_of((#[trigger] outs[j]).script_pubkey)),
                txid,
                (idx + j) as u32,
            ),
    ensures
        spec_index_addresses(m_tx, m_out, outs, txid, idx) == (m_tx, m_out),
    decreases outs.len(),
{
    if outs.len() > 0 {
        assert(outs[0] == outs.first());
        assert(spec_add_hash_at(m_tx, sha256_of(outs.first().script_pubkey), txid) == m_tx);
        assert(spec_add_entry_at(
            m_out,
            sha256_of(outs.first().script_pubkey),
            txid,
            idx,
            outs.first().value,
        ) == m_out);
        assert forall|j: int| 0 <= j < outs.drop_first().len() implies spec_hash_in(
            map_get_or_empty(m_tx, sha256_of((#[trigger] outs.drop_first()[j]).script_pubkey)),
            txid,
        ) by {
            assert(outs.drop_first()[j] == outs[j + 1]);
        }
        assert forall|j: int| 0 <= j < outs.drop_first().len() implies spec_entry_in(
            map_get_or_empty(m_out, sha256_of((#[trigger] outs.drop_first()[j]).script_pubkey)),
            txid,
            ((idx + 1) as u32 + j) as u32,
        ) by {
            assert(outs.drop_first()[j] == outs[j + 1]);
            assert(((idx + 1) as u32 + j) as u32 == (idx + (j + 1)) as u32);
        }
        lemma_index_addresses_noop(m_tx, m_out, outs.drop_first(), txid, (idx + 1) as u32);
    }
}

/// Address idempotence and dedup: folding the same transaction's outputs
/// into the address views a second time changes neither view — in
/// particular, each script hash's set of referencing transactions, and its
/// set of recorded outputs, keep their contents and so their cardinality.
pub proof fn lemma_address_index_idempotent(
    m_tx: Map<Seq<u8>, Seq<u8>>,
    m_out: Map<Seq<u8>, Seq<u8>>,
    outs: Seq<TxOutModel>,
    txid: Seq<u8>,
)
    requires
        txid.len() == 32,
        spec_hash_map_wf(m_tx),
        spec_entry_map_wf(m_out),
        outs.len() <= u32::MAX,
    ensures
        ({
            let once = spec_index_addresses(m_tx, m_out, outs, txid, 0);
            spec_index_addresses(once.0, once.1, outs, txid, 0) == once
        }),
{
    lemma_index_addresses_props(m_tx, m_out, outs, txid, 0);
    let once = spec_index_addresses(m_tx, m_out, outs, txid, 0);
    lemma_index_addresses_noop(once.0, once.1, outs, txid, 0);
}

/// Folding the outputs into the value view keeps the map well formed,
/// records every output in its bucket, and never loses a membership the
/// map already held.
proof fn lemma_index_values_props(
    m_val: Map<Seq<u8>, Seq<u8>>,
    outs: Seq<TxOutModel>,
    txid: Seq<u8>,
    idx: u32,
)
    requires
        txid.len() == 32,
        spec_entry_map_wf(m_val),
        idx + outs.len() <= u32::MAX,
    ensures
        ({
            let r = spec_index_values(m_val, outs, txid, idx);
            &&& spec_entry_map_wf(r)
            &&& forall|j: int|
                0 <= j < outs.len() ==> spec_entry_in(
                    map_get_or_empty(
                        r,
                        spec_u64_to_be_bytes(spec_bucket((#[trigger] outs[j]).value)),
                    ),
                    txid,
                    (idx + j) as u32,
                )
            &&& forall|k: Seq<u8>, h: Seq<u8>, i2: u32|
                spec_entry_in(map_get_or_empty(m_val, k), h, i2) ==> #[trigger] spec_entry_in(
                    map_get_or_empty(r, k),
                    h,
                    i2,
                )
        }),
    decreases outs.len(),
{
    if outs.len() > 0 {
        lemma_auto_spec_u32_to_from_le_bytes();
        lemma_auto_spec_u64_to_from_le_bytes();
        let key = spec_u64_to_be_bytes(spec_bucket(outs.first().value));
        let m2 = spec_add_entry_at(m_val, key, txid, idx, outs.first().value);
        assert(spec_entry_map_wf(m2)) by {
            assert forall|k: Seq<u8>| m2.contains_key(k) implies (#[trigger] m2[k]).len() % 44
                == 0 by {
                if k == key && !spec_entry_in(map_get_or_empty(m_val, key), txid, idx) {
                    assert(m2[k] == map_get_or_empty(m_val, key) + spec_entry_record(
                        txid,
                        idx,
                        outs.first().value,
                    ));
                }
            }
        }
        assert(spec_entry_in(map_get_or_empty(m2, key), txid, idx)) by {
            if !spec_entry_in(map_get_or_empty(m_val, key), txid, idx) {
                lemma_entry_in_self(map_get_or_empty(m_val, key), txid, idx, outs.first().value);
            }
        }
        assert forall|k: Seq<u8>, h: Seq<u8>, i2: u32|
            spec_entry_in(map_get_or_empty(m_val, k), h, i2) implies #[trigger] spec_entry_in(
            map_get_or_empty(m2, k),
            h,
            i2,
        ) by {
            if k == key && !spec_entry_in(map_get_or_empty(m_val, key), txid, idx) {
                lemma_entry_in_extend(
                    map_get_or_empty(m_val, k),
                    spec_entry_record(txid, idx, outs.first().value),
                    h,
                    i2,
                );
            }
        }
        lemma_index_values_props(m2, outs.drop_first(), txid, (idx + 1) as u32);
        let r = spec_index_values(m_val, outs, txid, idx);
        assert(r == spec_index_values(m2, outs.drop_first(), txid, (idx + 1) as u32));
        assert forall|j: int| 0 <= j < outs.len() implies spec_entry_in(
            map_get_or_empty(r, spec_u64_to_be_bytes(spec_bucket((#[trigger] outs[j]).value))),
            txid,
            (idx + j) as u32,
        ) by {
            if j == 0 {
            } else {
                assert(outs.drop_first()[j - 1] == outs[j]);
                assert(((idx + 1) as u32 + (j - 1)) as u32 == (idx + j) as u32);
            }
        }
    }
}

/// When every output's bucket membership is already present, the value
/// fold changes nothing.
proof fn lemma_index_values_noop(
    m_val: Map<Seq<u8>, Seq<u8>>,
    outs: Seq<TxOutModel>,
    txid: Seq<u8>,
    idx: u32,
)
    requires
        idx + outs.len() <= u32::MAX,
        forall|j: int|
            0 <= j < outs.len() ==> spec_entry_in(
                map_get_or_empty(
                    m_val,
                    spec_u64_to_be_bytes(spec_bucket((#[trigger] outs[j]).value)),
                ),
                txid,
                (idx + j) as u32,
            ),
    ensures
        spec_index_values(m_val, outs, txid, idx) == m_val,
    decreases outs.len(),
{
    if outs.len() > 0 {
        assert(outs[0] == outs.first());
        assert(spec_add_entry_at(
            m_val,
            spec_u64_to_be_bytes(spec_bucket(outs.first().value)),
            txid,
            idx,
            outs.first().value,
        ) == m_val);
        assert forall|j: int| 0 <= j < outs.drop_first().len() implies spec_entry_in(
            map_get_or_empty(
                m_val,
                spec_u64_to_be_bytes(spec_bucket((#[trigger] outs.drop_first()[j]).value)),
            ),
            txid,
            ((idx + 1) as u32 + j) as u32,
        ) by {
            assert(outs.drop_first()[j] == outs[j + 1]);
            assert(((idx + 1) as u32 + j) as u32 == (idx + (j + 1)) as u32);
        }
        lemma_index_values_noop(m_val, outs.drop_first(), txid, (idx + 1) as u32);
    }
}

/// Value-view idempotence: folding the same transaction's outputs into
/// the value buckets a second time changes nothing.
pub proof fn lemma_value_index_idempotent(
    m_val: Map<Seq<u8>, Seq<u8>>,
    outs: Seq<TxOutModel>,
    txid: Seq<u8>,
)
    requires
        txid.len() == 32,
        spec_entry_map_wf(m_val),
        outs.len() <= u32::MAX,
    ensures
        ({
            let once = spec_index_values(m_val, outs, txid, 0);
            spec_index_values(once, outs, txid, 0) == once
        }),
{
    lemma_index_values_props(m_val, outs, txid, 0);
    let once = spec_index_values(m_val, outs, txid, 0);
    lemma_index_values_noop(once, outs, txid, 0);
}

/// Whether the 44-byte records of `s` include the full record
/// `(h, idx, v)`.
pub open spec fn spec_entry_val_in(s: Seq<u8>, h: Seq<u8>, idx: u32, v: u64) -> bool
    decreases s.len(),
{
    if s.len() < 44 {
        false
    } else {
        (s.subrange(0, 32) == h && spec_u32_from_le_bytes(s.subrange(32, 36)) == idx
            && spec_u64_from_le_bytes(s.subrange(36, 44)) == v) || spec_entry_val_in(
            s.skip(44),
            h,
            idx,
            v,
        )
    }
}

/// Full-record membership survives appending bytes.
proof fn lemma_entry_val_in_extend(s: Seq<u8>, x: Seq<u8>, h: Seq<u8>, idx: u32, v: u64)
    requires
        spec_entry_val_in(s, h, idx, v),
    ensures
        spec_entry_val_in(s + x, h, idx, v),
    decreases s.len(),
{
    assert((s + x).subrange(0, 32) =~= s.subrange(0, 32));
    assert((s + x).subrange(32, 36) =~= s.subrange(32, 36));
    assert((s + x).subrange(36, 44) =~= s.subrange(36, 44));
    if s.subrange(0, 32) == h && spec_u32_from_le_bytes(s.subrange(32, 36)) == idx
        && spec_u64_from_le_bytes(s.subrange(36, 44)) == v {
    } else {
        assert((s + x).skip(44) =~= s.skip(44) + x);
        lemma_entry_val_in_extend(s.skip(44), x, h, idx, v);
    }
}

/// A whole number of 44-byte records followed by the record `(h, idx, v)`
/// holds that full record.
proof fn lemma_entry_val_in_self(s: Seq<u8>, h: Seq<u8>, idx: u32, v: u64)
    requires
        h.len() == 32,
        s.len() % 44 == 0,
    ensures
        spec_entry_val_in(s + spec_entry_record(h, idx, v), h, idx, v),
    decreases s.len(),
{
    lemma_auto_spec_u32_to_from_le_bytes();
    lemma_auto_spec_u64_to_from_le_bytes();
    let t = s + spec_entry_record(h, idx, v);
    if s.len() == 0 {
        assert(t.subrange(0, 32) =~= h);
        assert(t.subrange(32, 36) =~= spec_u32_to_le_bytes(idx));
        assert(t.subrange(36, 44) =~= spec_u64_to_le_bytes(v));
    } else {
        assert(s.len() >= 44);
        if t.subrange(0, 32) == h && spec_u32_from_le_bytes(t.subrange(32, 36)) == idx
            && spec_u64_from_le_bytes(t.subrange(36, 44)) == v {
        } else {
            assert(t.skip(44) =~= s.skip(44) + spec_entry_record(h, idx, v));
            lemma_entry_val_in_self(s.skip(44), h, idx, v);
        }
    }
}

/// Appending a record keyed differently cannot create a keyed membership.
proof fn lemma_entry_in_append_other(s: Seq<u8>, h: Seq<u8>, idx: u32, h2: Seq<u8>, i2: u32, v2: u64)
    requires
        !spec_entry_in(s, h, idx),
        s.len() % 44 == 0,
        h2.len() == 32,
        !(h2 == h && i2 == idx),
    ensures
        !spec_entry_in(s + spec_entry_record(h2, i2, v2), h, idx),
    decreases s.len(),
{
    lemma_auto_spec_u32_to_from_le_bytes();
    lemma_auto_spec_u64_to_from_le_bytes();
    let t = s + spec_entry_record(h2, i2, v2);
    if s.len() == 0 {
        assert(t.subrange(0, 32) =~= h2);
        assert(t.subrange(32, 36) =~= spec_u32_to_le_bytes(i2));
        assert(t.skip(44) =~= Seq::<u8>::empty());
        assert(!spec_entry_in(t.skip(44), h, idx));
        assert(!(t.subrange(0, 32) == h && spec_u32_from_le_bytes(t.subrange(32, 36)) == idx));
    } else {
        assert(s.len() >= 44);
        assert(t.subrange(0, 32) =~= s.subrange(0, 32));
        assert(t.subrange(32, 36) =~= s.subrange(32, 36));
        assert(t.skip(44) =~= s.skip(44) + spec_entry_record(h2, i2, v2));
        assert(!(s.subrange(0, 32) == h && spec_u32_from_le_bytes(s.subrange(32, 36)) == idx));
        lemma_entry_in_append_other(s.skip(44), h, idx, h2, i2, v2);
    }
}

/// From a state where none of the transaction's output entries exist yet,
/// the value fold records each output's full record, value included.
proof fn lemma_index_values_establishes(
    m_val: Map<Seq<u8>, Seq<u8>>,
    outs: Seq<TxOutModel>,
    txid: Seq<u8>,
    idx: u32,
)
    requires
        txid.len() == 32,
        spec_entry_map_wf(m_val),
        idx + outs.len() <= u32::MAX,
        forall|i: int|
            0 <= i < outs.len() ==> !spec_entry_in(
                map_get_or_empty(
                    m_val,
                    spec_u64_to_be_bytes(spec_bucket((#[trigger] outs[i]).value)),
                ),
                txid,
                (idx + i) as u32,
            ),
    ensures
        forall|j: int|
            0 <= j < outs.len() ==> spec_entry_val_in(
                map_get_or_empty(
                    spec_index_values(m_val, outs, txid, idx),
                    spec_u64_to_be_bytes(spec_bucket((#[trigger] outs[j]).value)),
                ),
                txid,
                (idx + j) as u32,
                outs[j].value,
            ),
    decreases outs.len(),
{
    if outs.len() > 0 {
        lemma_auto_spec_u32_to_from_le_bytes();
        lemma_auto_spec_u64_to_from_le_bytes();
        let key = spec_u64_to_be_bytes(spec_bucket(outs.first().value));
        let rec = spec_entry_record(txid, idx, outs.first().value);
        assert(outs[0] == outs.first());
        assert(!spec_entry_in(map_get_or_empty(m_val, key), txid, idx));
        let m2 = spec_add_entry_at(m_val, key, txid, idx, outs.first().value);
        assert(m2 == m_val.insert(key, map_get_or_empty(m_val, key) + rec));
        lemma_entry_val_in_self(map_get_or_empty(m_val, key), txid, idx, outs.first().value);
        assert(spec_entry_val_in(map_get_or_empty(m2, key), txid, idx, outs.first().value));
        assert(spec_entry_map_wf(m2)) by {
            assert forall|k: Seq<u8>| m2.contains_key(k) implies (#[trigger] m2[k]).len() % 44
                == 0 by {
                if k == key {
                    assert(m2[k] == map_get_or_empty(m_val, key) + rec);
                }
            }
        }
        assert forall|i: int| 0 <= i < outs.drop_first().len() implies !spec_entry_in(
            map_get_or_empty(
                m2,
                spec_u64_to_be_bytes(spec_bucket((#[trigger] outs.drop_first()[i]).value)),
            ),
            txid,
            ((idx + 1) as u32 + i) as u32,
        ) by {
            assert(outs.drop_first()[i] == outs[i + 1]);
            assert(((idx + 1) as u32 + i) as u32 == (idx + (i + 1)) as u32);
            let k2 = spec_u64_to_be_bytes(spec_bucket(outs[i + 1].value));
            if k2 == key {
                lemma_entry_in_append_other(
                    map_get_or_empty(m_val, key),
                    txid,
                    (idx + (i + 1)) as u32,
                    txid,
                    idx,
                    outs.first().value,
                );
            }
        }
        lemma_index_values_establishes(m2, outs.drop_first(), txid, (idx + 1) as u32);
        // Later additions never remove the first output's full record.
        lemma_index_values_val_monotone(m2, outs.drop_first(), txid, (idx + 1) as u32);
        let r = spec_index_values(m_val, outs, txid, idx);
        assert(r == spec_index_values(m2, outs.drop_first(), txid, (idx + 1) as u32));
        assert forall|j: int| 0 <= j < outs.len() implies spec_entry_val_in(
            map_get_or_empty(r, spec_u64_to_be_bytes(spec_bucket((#[trigger] outs[j]).value))),
            txid,
            (idx + j) as u32,
            outs[j].value,
        ) by {
            if j == 0 {
            } else {
                assert(outs.drop_first()[j - 1] == outs[j]);
                assert(((idx + 1) as u32 + (j - 1)) as u32 == (idx + j) as u32);
            }
        }
    }
}

/// Full-record memberships survive the value fold.
proof fn lemma_index_values_val_monotone(
    m_val: Map<Seq<u8>, Seq<u8>>,
    outs: Seq<TxOutModel>,
    txid: Seq<u8>,
    idx: u32,
)
    ensures
        forall|k: Seq<u8>, h: Seq<u8>, i2: u32, v2: u64|
            spec_entry_val_in(map_get_or_empty(m_val, k), h, i2, v2)
                ==> #[trigger] spec_entry_val_in(
                map_get_or_empty(spec_index_values(m_val, outs, txid, idx), k),
                h,
                i2,
                v2,
            ),
    decreases outs.len(),
{
    if outs.len() > 0 {
        let key = spec_u64_to_be_bytes(spec_bucket(outs.first().value));
        let m2 = spec_add_entry_at(m_val, key, txid, idx, outs.first().value);
        assert forall|k: Seq<u8>, h: Seq<u8>, i2: u32, v2: u64|
            spec_entry_val_in(map_get_or_empty(m_val, k), h, i2, v2)
                implies #[trigger] spec_entry_val_in(map_get_or_empty(m2, k), h, i2, v2) by {
            if k == key && !spec_entry_in(map_get_or_empty(m_val, key), txid, idx) {
                lemma_entry_val_in_extend(
                    map_get_or_empty(m_val, k),
                    spec_entry_record(txid, idx, outs.first().value),
                    h,
                    i2,
                    v2,
                );
            }
        }
        lemma_index_values_val_monotone(m2, outs.drop_first(), txid, (idx + 1) as u32);
        let r = spec_index_values(m_val, outs, txid, idx);
        assert(r == spec_index_values(m2, outs.drop_first(), txid, (idx + 1) as u32));
        assert forall|k: Seq<u8>, h: Seq<u8>, i2: u32, v2: u64|
            spec_entry_val_in(map_get_or_empty(m_val, k), h, i2, v2)
                implies #[trigger] spec_entry_val_in(map_get_or_empty(r, k), h, i2, v2) by {
            assert(spec_entry_val_in(map_get_or_empty(m2, k), h, i2, v2));
        }
    }
}

/// Everything already accumulated stays in the bucket-walk result.
proof fn lemma_bucket_hits_sub(bytes: Seq<u8>, min: u64, max: u64, acc: Seq<Seq<u8>>, x: Seq<u8>)
    requires
        acc.contains(x),
    ensures
        spec_bucket_hits(bytes, min, max, acc).contains(x),
    decreases bytes.len(),
{
    if bytes.len() >= 44 {
        let h = bytes.subrange(0, 32);
        let v = spec_u64_from_le_bytes(bytes.subrange(36, 44));
        let acc2 = if min <= v && v <= max && !acc.contains(h) {
            acc.push(h)
        } else {
            acc
        };
        assert(acc2.contains(x)) by {
            let i = choose|i: int| 0 <= i < acc.len() && acc[i] == x;
            assert(acc2[i] == x);
        }
        lemma_bucket_hits_sub(bytes.skip(44), min, max, acc2, x);
    }
}

/// A record whose value lies in the range puts its hash into the
/// bucket-walk result.
proof fn lemma_bucket_hits_member(
    bytes: Seq<u8>,
    min: u64,
    max: u64,
    acc: Seq<Seq<u8>>,
    h: Seq<u8>,
    idx: u32,
    v: u64,
)
    requires
        spec_entry_val_in(bytes, h, idx, v),
        min <= v <= max,
    ensures
        spec_bucket_hits(bytes, min, max, acc).contains(h),
    decreases bytes.len(),
{
    let h0 = bytes.subrange(0, 32);
    let v0 = spec_u64_from_le_bytes(bytes.subrange(36, 44));
    let acc2 = if min <= v0 && v0 <= max && !acc.contains(h0) {
        acc.push(h0)
    } else {
        acc
    };
    if h0 == h && spec_u32_from_le_bytes(bytes.subrange(32, 36)) == idx && v0 == v {
        assert(acc2.contains(h)) by {
            if !acc.contains(h) {
                assert(acc2 == acc.push(h));
                assert(acc2[acc.len() as int] == h);
            } else {
                let i = choose|i: int| 0 <= i < acc.len() && acc[i] == h;
                assert(acc2[i] == h);
            }
        }
        lemma_bucket_hits_sub(bytes.skip(44), min, max, acc2, h);
    } else {
        lemma_bucket_hits_member(bytes.skip(44), min, max, acc2, h, idx, v);
    }
}

/// A hash in the list whose body is stored and parses puts the parsed
/// transaction into the fetch result.
proof fn lemma_fetch_list_member(m_tx: Map<Seq<u8>, Seq<u8>>, hs: Seq<Seq<u8>>, h: Seq<u8>, t: TxModel)
    requires
        hs.contains(h),
        m_tx.contains_key(h),
        spec_parse_tx(m_tx[h]) matches Some(p) && p.0 == t,
    ensures
        spec_fetch_list(m_tx, hs).contains(t),
    decreases hs.len(),
{
    let r = spec_fetch_list(m_tx, hs);
    if hs.first() == h {
        assert(r[0] == t);
    } else {
        assert(hs.drop_first().contains(h)) by {
            let i = choose|i: int| 0 <= i < hs.len() && hs[i] == h;
            assert(hs.drop_first()[i - 1] == h);
        }
        lemma_fetch_list_member(m_tx, hs.drop_first(), h, t);
        let rest = spec_fetch_list(m_tx, hs.drop_first());
        let i = choose|i: int| 0 <= i < rest.len() && rest[i] == t;
        if m_tx.contains_key(hs.first()) && spec_parse_tx(m_tx[hs.first()]) is Some {
            assert(r[i + 1] == t);
        } else {
            assert(r[i] == t);
        }
    }
}

/// Value bucket coverage: indexing a transaction whose output `j` holds
/// value `v` — none of its output entries being present yet — and whose
/// body is stored, makes the value-range query for `[v, v]` return that
/// transaction.
pub proof fn lemma_value_bucket_coverage(
    m_val: Map<Seq<u8>, Seq<u8>>,
    m_tx: Map<Seq<u8>, Seq<u8>>,
    outs: Seq<TxOutModel>,
    txid: Seq<u8>,
    t: TxModel,
    j: int,
)
    requires
        txid.len() == 32,
        spec_entry_map_wf(m_val),
        outs.len() <= u32::MAX,
        0 <= j < outs.len(),
        forall|i: int|
            0 <= i < outs.len() ==> !spec_entry_in(
                map_get_or_empty(
                    m_val,
                    spec_u64_to_be_bytes(spec_bucket((#[trigger] outs[i]).value)),
                ),
                txid,
                i as u32,
            ),
        m_tx.contains_key(txid),
        spec_parse_tx(m_tx[txid]) matches Some(p) && p.0 == t,
    ensures
        ({
            let m2 = spec_index_values(m_val, outs, txid, 0);
            let v = outs[j].value;
            let hs = spec_range_hashes(m2, spec_bucket(v), spec_bucket(v), v, v, Seq::empty());
            &&& hs.contains(txid)
            &&& spec_fetch_list(m_tx, hs).contains(t)
        }),
{
    lemma_index_values_establishes(m_val, outs, txid, 0);
    let m2 = spec_index_values(m_val, outs, txid, 0);
    let v = outs[j].value;
    let key = spec_u64_to_be_bytes(spec_bucket(v));
    assert(spec_entry_val_in(map_get_or_empty(m2, key), txid, (0 + j) as u32, v));
    assert(m2.contains_key(key)) by {
        if !m2.contains_key(key) {
            assert(map_get_or_empty(m2, key) =~= Seq::<u8>::empty());
        }
    }
    lemma_bucket_hits_member(m2[key], v, v, Seq::empty(), txid, j as u32, v);
    let hs = spec_range_hashes(m2, spec_bucket(v), spec_bucket(v), v, v, Seq::empty());
    assert(hs == spec_bucket_hits(m2[key], v, v, Seq::empty()));
    lemma_fetch_list_member(m_tx, hs, txid, t);
}

/// Index round trip: after indexing a transaction, the body store returns
/// the transaction under its id, and the metadata store returns metadata
/// matching every indexed input. The maps are those `index_transaction`
/// ensures; the id's 32-byte length is what the hasher yields on every
/// call.
pub proof fn lemma_index_round_trip(
    m_hash: Map<Seq<u8>, Seq<u8>>,
    m_meta: Map<Seq<u8>, Seq<u8>>,
    t: TxModel,
    bh: Seq<u8>,
    height: u64,
    idx: u32,
    size: u32,
    weight: u32,
)
    requires
        crate::tx::spec_tx_wf(t),
        spec_tx_id(t).len() == 32,
        bh.len() == 32,
    ensures
        ({
            let md = TxMetadataModel {
                tx_hash: spec_tx_id(t),
                block_hash: bh,
                block_height: height,
                tx_index: idx,
                size,
                weight,
            };
            let post_hash = m_hash.insert(spec_tx_id(t), spec_ser_tx(t));
            let post_meta = m_meta.insert(spec_tx_id(t), spec_ser_metadata(md));
            &&& post_hash.contains_key(spec_tx_id(t))
            &&& spec_parse_tx(post_hash[spec_tx_id(t)]) matches Some(p) && p.0 == t
            &&& post_meta.contains_key(spec_tx_id(t))
            &&& spec_parse_metadata(post_meta[spec_tx_id(t)]) == Some(md)
        }),
{
    crate::tx::lemma_tx_codec_round_trip(t, Seq::empty());
    assert(spec_ser_tx(t) + Seq::<u8>::empty() =~= spec_ser_tx(t));
    let md = TxMetadataModel {
        tx_hash: spec_tx_id(t),
        block_hash: bh,
        block_height: height,
        tx_index: idx,
        size,
        weight,
    };
    lemma_metadata_round_trip(md);
}

/// Idempotence of the primary views: writing the same body, metadata and
/// block entry a second time leaves each map exactly as after the first
/// write.
pub proof fn lemma_index_primary_idempotent(
    m_hash: Map<Seq<u8>, Seq<u8>>,
    m_meta: Map<Seq<u8>, Seq<u8>>,
    m_block: Map<Seq<u8>, Seq<u8>>,
    t: TxModel,
    md_bytes: Seq<u8>,
    bh: Seq<u8>,
    idx: u32,
)
    ensures
        m_hash.insert(spec_tx_id(t), spec_ser_tx(t)).insert(spec_tx_id(t), spec_ser_tx(t))
            == m_hash.insert(spec_tx_id(t), spec_ser_tx(t)),
        m_meta.insert(spec_tx_id(t), md_bytes).insert(spec_tx_id(t), md_bytes) == m_meta.insert(
            spec_tx_id(t),
            md_bytes,
        ),
        m_block.insert(spec_block_key(bh, idx), spec_tx_id(t)).insert(
            spec_block_key(bh, idx),
            spec_tx_id(t),
        ) == m_block.insert(spec_block_key(bh, idx), spec_tx_id(t)),
{
    assert(m_hash.insert(spec_tx_id(t), spec_ser_tx(t)).insert(spec_tx_id(t), spec_ser_tx(t))
        =~= m_hash.insert(spec_tx_id(t), spec_ser_tx(t)));
    assert(m_meta.insert(spec_tx_id(t), md_bytes).insert(spec_tx_id(t), md_bytes)
        =~= m_meta.insert(spec_tx_id(t), md_bytes));
    assert(m_block.insert(spec_block_key(bh, idx), spec_tx_id(t)).insert(
        spec_block_key(bh, idx),
        spec_tx_id(t),
    ) =~= m_block.insert(spec_block_key(bh, idx), spec_tx_id(t)));
}

proof fn lemma_block_scan_exact(
    m_block: Map<Seq<u8>, Seq<u8>>,
    m_tx: Map<Seq<u8>, Seq<u8>>,
    bh: Seq<u8>,
    n: u32,
    k: u32,
)
    requires
        k <= n,
        n < u32::MAX,
        forall|j: u32| j < n ==> (#[trigger] spec_block_step(m_block, m_tx, bh, j)) is Some,
        spec_block_step(m_block, m_tx, bh, n) is None,
    ensures
        spec_block_scan_from(m_block, m_tx, bh, k).len() == n - k,
        forall|j: u32|
            k <= j < n ==> spec_block_scan_from(m_block, m_tx, bh, k)[j - k]
                == spec_block_step(m_block, m_tx, bh, j).unwrap(),
    decreases n - k,
{
    if k == n {
    } else {
        lemma_block_scan_exact(m_block, m_tx, bh, n, (k + 1) as u32);
        assert(spec_block_step(m_block, m_tx, bh, k) is Some);
    }
}

/// Block enumeration: when a block has entries at exactly the consecutive
/// indices `0 .. n` — each resolving to a stored, well-formed body — and
/// none at `n`, the block scan yields exactly those `n` transactions, in
/// index order.
pub proof fn lemma_block_enumeration(
    m_block: Map<Seq<u8>, Seq<u8>>,
    m_tx: Map<Seq<u8>, Seq<u8>>,
    bh: Seq<u8>,
    n: u32,
)
    requires
        n < u32::MAX,
        forall|j: u32| j < n ==> (#[trigger] spec_block_step(m_block, m_tx, bh, j)) is Some,
        spec_block_step(m_block, m_tx, bh, n) is None,
    ensures
        spec_block_scan_from(m_block, m_tx, bh, 0).len() == n,
        forall|j: u32|
            j < n ==> spec_block_scan_from(m_block, m_tx, bh, 0)[j as int] == spec_block_step(
                m_block,
                m_tx,
                bh,
                j,
            ).unwrap(),
{
    lemma_block_scan_exact(m_block, m_tx, bh, n, 0);
}

/// Persistent, multi-view index of transactions.
pub struct TxIndex {
    tx_by_hash: Tree,
    tx_by_block: Tree,
    tx_metadata: Tree,
    address_tx_index: Tree,
    address_output_index: Tree,
    address_input_index: Tree,
    value_index: Tree,
    enable_address_index: bool,
    enable_value_index: bool,
}

impl TxIndex {
    /// The authoritative body store: txid to serialized transaction.
    pub closed spec fn spec_tx_by_hash(&self) -> Map<Seq<u8>, Seq<u8>> {
        self.tx_by_hash@
    }

    /// Block membership: block hash and index to txid.
    pub closed spec fn spec_tx_by_block(&self) -> Map<Seq<u8>, Seq<u8>> {
        self.tx_by_block@
    }

    /// Derived metadata per txid.
    pub closed spec fn spec_tx_metadata(&self) -> Map<Seq<u8>, Seq<u8>> {
        self.tx_metadata@
    }

    /// Script hash to the packed hash list of referencing transactions.
    pub closed spec fn spec_address_tx_index(&self) -> Map<Seq<u8>, Seq<u8>> {
        self.address_tx_index@
    }

    /// Script hash to the packed records of outputs sent to it.
    pub closed spec fn spec_address_output_index(&self) -> Map<Seq<u8>, Seq<u8>> {
        self.address_output_index@
    }

    /// Reserved input view; the index never fills it.
    pub closed spec fn spec_address_input_index(&self) -> Map<Seq<u8>, Seq<u8>> {
        self.address_input_index@
    }

    /// Value bucket to the packed records of outputs in that bucket.
    pub closed spec fn spec_value_index(&self) -> Map<Seq<u8>, Seq<u8>> {
        self.value_index@
    }

    /// Whether address views are written.
    pub closed spec fn spec_address_enabled(&self) -> bool {
        self.enable_address_index
    }

    /// Whether the value view is written.
    pub closed spec fn spec_value_enabled(&self) -> bool {
        self.enable_value_index
    }

    /// All trees keep their keys unique.
    pub closed spec fn wf(&self) -> bool {
        &&& self.tx_by_hash.wf()
        &&& self.tx_by_block.wf()
        &&& self.tx_metadata.wf()
        &&& self.address_tx_index.wf()
        &&& self.address_output_index.wf()
        &&& self.address_input_index.wf()
        &&& self.value_index.wf()
    }

    /// All trees empty.
    pub open spec fn is_empty(&self) -> bool {
        &&& self.spec_tx_by_hash() == Map::<Seq<u8>, Seq<u8>>::empty()
        &&& self.spec_tx_by_block() == Map::<Seq<u8>, Seq<u8>>::empty()
        &&& self.spec_tx_metadata() == Map::<Seq<u8>, Seq<u8>>::empty()
        &&& self.spec_address_tx_index() == Map::<Seq<u8>, Seq<u8>>::empty()
        &&& self.spec_address_output_index() == Map::<Seq<u8>, Seq<u8>>::empty()
        &&& self.spec_address_input_index() == Map::<Seq<u8>, Seq<u8>>::empty()
        &&& self.spec_value_index() == Map::<Seq<u8>, Seq<u8>>::empty()
    }

    /// A fresh index with both optional views off.
    pub fn new() -> (r: TxIndex)
        ensures
            r.wf(),
            r.is_empty(),
            !r.spec_address_enabled(),
            !r.spec_value_enabled(),
    {
        Self::with_indexing(false, false)
    }

    /// A fresh index; the flags choose which optional views are written.
    /// Every tree exists either way, so enabling later needs no migration.
    pub fn with_indexing(enable_address_index: bool, enable_value_index: bool) -> (r: TxIndex)
        ensures
            r.wf(),
            r.is_empty(),
            r.spec_address_enabled() == enable_address_index,
            r.spec_value_enabled() == enable_value_index,
    {
        TxIndex {
            tx_by_hash: Tree::new(),
            tx_by_block: Tree::new(),
            tx_metadata: Tree::new(),
            address_tx_index: Tree::new(),
            address_output_index: Tree::new(),
            address_input_index: Tree::new(),
            value_index: Tree::new(),
            enable_address_index,
            enable_value_index,
        }
    }

    /// Bitcoin compact varint encoding.
    pub fn encode_varint(value: u64) -> (r: Vec<u8>)
        ensures
            r@ == crate::wire::spec_varint(value),
    {
        crate::wire::encode_varint(value)
    }

    /// How every view of `post` relates to `pre` once the transaction `m`,
    /// found at `(bh, block_height, tx_index)`, has been indexed: the body,
    /// metadata and block entry are written, and each enabled optional view
    /// has folded the outputs in, deduplicated.
    pub open spec fn spec_indexed(
        pre: TxIndex,
        post: TxIndex,
        m: TxModel,
        bh: Seq<u8>,
        block_height: u64,
        tx_index: u32,
    ) -> bool {
        &&& post.wf()
        &&& post.spec_address_enabled() == pre.spec_address_enabled()
        &&& post.spec_value_enabled() == pre.spec_value_enabled()
        &&& post.spec_tx_by_hash() == pre.spec_tx_by_hash().insert(spec_tx_id(m), spec_ser_tx(m))
        &&& post.spec_tx_metadata() == pre.spec_tx_metadata().insert(
            spec_tx_id(m),
            spec_ser_metadata(
                TxMetadataModel {
                    tx_hash: spec_tx_id(m),
                    block_hash: bh,
                    block_height,
                    tx_index,
                    size: spec_tx_size(m) as u32,
                    weight: (spec_tx_size(m) * 4) as u32,
                },
            ),
        )
        &&& post.spec_tx_by_block() == pre.spec_tx_by_block().insert(
            spec_block_key(bh, tx_index),
            spec_tx_id(m),
        )
        &&& pre.spec_address_enabled() ==> (
        post.spec_address_tx_index(),
        post.spec_address_output_index(),
        ) == spec_index_addresses(
            pre.spec_address_tx_index(),
            pre.spec_address_output_index(),
            m.outputs,
            spec_tx_id(m),
            0,
        )
        &&& !pre.spec_address_enabled() ==> post.spec_address_tx_index()
            == pre.spec_address_tx_index() && post.spec_address_output_index()
            == pre.spec_address_output_index()
        &&& post.spec_address_input_index() == pre.spec_address_input_index()
        &&& pre.spec_value_enabled() ==> post.spec_value_index() == spec_index_values(
            pre.spec_value_index(),
            m.outputs,
            spec_tx_id(m),
            0,
        )
        &&& !pre.spec_value_enabled() ==> post.spec_value_index() == pre.spec_value_index()
    }

    /// Index one transaction found at `(block_hash, block_height, tx_index)`:
    /// write the body, its metadata and its block entry, then the optional
    /// address and value views, deduplicated.
    pub fn index_transaction(
        &mut self,
        tx: &Transaction,
        block_hash: &[u8; 32],
        block_height: u64,
        tx_index: u32,
    )
        requires
            old(self).wf(),
            spec_tx_size(tx@) * 4 <= u32::MAX,
            tx@.outputs.len() <= u32::MAX,
        ensures
            Self::spec_indexed(
                *old(self),
                *final(self),
                tx@,
                block_hash@,
                block_height,
                tx_index,
            ),
    {
        let tx_hash = calculate_tx_id(tx);
        let tx_data = serialize_transaction(tx);
        self.tx_by_hash.insert(vstd::slice::slice_to_vec(tx_hash.as_slice()), tx_data);
        let size = calculate_tx_size(tx);
        let weight = calculate_tx_weight(tx);
        let metadata = TxMetadata {
            tx_hash,
            block_hash: *block_hash,
            block_height,
            tx_index,
            size,
            weight,
        };
        let metadata_data = serialize_metadata(&metadata);
        self.tx_metadata.insert(vstd::slice::slice_to_vec(tx_hash.as_slice()), metadata_data);
        let block_key = block_tx_key(block_hash, tx_index);
        self.tx_by_block.insert(block_key, vstd::slice::slice_to_vec(tx_hash.as_slice()));
        if self.enable_address_index {
            self.index_addresses(tx, &tx_hash);
        }
        if self.enable_value_index {
            self.index_values(tx, &tx_hash);
        }
    }

    /// Index the transaction if its size and output count fit the index's
    /// 32-bit fields; report whether it was indexed, leaving the index
    /// untouched when not. Unlike `index_transaction`, this asks nothing of
    /// its caller beyond a well-formed index.
    pub fn try_index_transaction(
        &mut self,
        tx: &Transaction,
        block_hash: &[u8; 32],
        block_height: u64,
        tx_index: u32,
    ) -> (r: bool)
        requires
            old(self).wf(),
        ensures
            final(self).wf(),
            r == (spec_tx_size(tx@) * 4 <= u32::MAX && tx@.outputs.len() <= u32::MAX),
            r ==> Self::spec_indexed(
                *old(self),
                *final(self),
                tx@,
                block_hash@,
                block_height,
                tx_index,
            ),
            !r ==> *final(self) == *old(self),
    {
        if tx.outputs.len() > 0xffff_ffffusize {
            return false;
        }
        if !crate::tx::tx_size_within_limit(tx) {
            return false;
        }
        self.index_transaction(tx, block_hash, block_height, tx_index);
        true
    }

    /// Write the address views for every output of `tx`.
    fn index_addresses(&mut self, tx: &Transaction, tx_hash: &[u8; 32])
        requires
            old(self).wf(),
            tx@.outputs.len() <= u32::MAX,
        ensures
            final(self).wf(),
            (final(self).spec_address_tx_index(), final(self).spec_address_output_index())
                == spec_index_addresses(
                old(self).spec_address_tx_index(),
                old(self).spec_address_output_index(),
                tx@.outputs,
                tx_hash@,
                0,
            ),
            final(self).tx_by_hash == old(self).tx_by_hash,
            final(self).tx_by_block == old(self).tx_by_block,
            final(self).tx_metadata == old(self).tx_metadata,
            final(self).address_input_index == old(self).address_input_index,
            final(self).value_index == old(self).value_index,
            final(self).enable_address_index == old(self).enable_address_index,
            final(self).enable_value_index == old(self).enable_value_index,
    {
        let ghost outs = tx@.outputs;
        let ghost target = spec_index_addresses(
            old(self).spec_address_tx_index(),
            old(self).spec_address_output_index(),
            outs,
            tx_hash@,
            0,
        );
        let n = tx.outputs.len();
        let mut i: usize = 0;
        proof {
            assert(outs.skip(0) =~= outs);
        }
        while i < n
            invariant
                n == tx@.outputs.len(),
                n <= u32::MAX,
                i <= n,
                outs == tx@.outputs,
                self.wf(),
                spec_index_addresses(
                    self.spec_address_tx_index(),
                    self.spec_address_output_index(),
                    outs.skip(i as int),
                    tx_hash@,
                    i as u32,
                ) == target,
                self.tx_by_hash == old(self).tx_by_hash,
                self.tx_by_block == old(self).tx_by_block,
                self.tx_metadata == old(self).tx_metadata,
                self.address_input_index == old(self).address_input_index,
                self.value_index == old(self).value_index,
                self.enable_address_index == old(self).enable_address_index,
                self.enable_value_index == old(self).enable_value_index,
            decreases n - i,
        {
            let output = &tx.outputs[i];
            let addr = sha256(output.script_pubkey.as_slice());
            let ghost pre_a = self.spec_address_tx_index();
            let ghost pre_o = self.spec_address_output_index();
            proof {
                assert(outs.skip(i as int).first() == outs[i as int]);
                assert(outs.skip(i as int).drop_first() =~= outs.skip(i + 1));
                assert(addr@ == sha256_of(outs[i as int].script_pubkey));
            }
            let cur: Vec<u8> = match self.address_tx_index.get(addr.as_slice()) {
                Some(v) => vstd::slice::slice_to_vec(v.as_slice()),
                None => Vec::new(),
            };
            proof {
                assert(cur@ =~= map_get_or_empty(self.spec_address_tx_index(), addr@));
            }
            if !contains_hash(cur.as_slice(), tx_hash) {
                let mut newv = cur;
                let mut hb = vstd::slice::slice_to_vec(tx_hash.as_slice());
                newv.append(&mut hb);
                self.address_tx_index.insert(vstd::slice::slice_to_vec(addr.as_slice()), newv);
            }
            let curo: Vec<u8> = match self.address_output_index.get(addr.as_slice()) {
                Some(v) => vstd::slice::slice_to_vec(v.as_slice()),
                None => Vec::new(),
            };
            proof {
                assert(curo@ =~= map_get_or_empty(self.spec_address_output_index(), addr@));
            }
            if !contains_entry(curo.as_slice(), tx_hash, i as u32) {
                let mut newv = curo;
                let mut hb = vstd::slice::slice_to_vec(tx_hash.as_slice());
                newv.append(&mut hb);
                let mut ib = u32_to_le_bytes(i as u32);
                newv.append(&mut ib);
                let mut vb = u64_to_le_bytes(output.value);
                newv.append(&mut vb);
                proof {
                    assert(newv@ =~= map_get_or_empty(pre_o, addr@) + spec_entry_record(
                        tx_hash@,
                        i as u32,
                        outs[i as int].value,
                    ));
                }
                self.address_output_index.insert(vstd::slice::slice_to_vec(addr.as_slice()), newv);
            }
            proof {
                let a2 = spec_add_hash_at(pre_a, addr@, tx_hash@);
                let o2 = spec_add_entry_at(
                    pre_o,
                    addr@,
                    tx_hash@,
                    i as u32,
                    outs[i as int].value,
                );
                assert(cur@ == map_get_or_empty(pre_a, addr@));
                if spec_hash_in(cur@, tx_hash@) {
                    assert(a2 == pre_a);
                    assert(self.spec_address_tx_index() == pre_a);
                } else {
                    assert(a2 == pre_a.insert(addr@, cur@ + tx_hash@));
                    assert(self.spec_address_tx_index() == pre_a.insert(addr@, cur@ + tx_hash@));
                }
                assert(self.spec_address_tx_index() == a2);
                assert(self.spec_address_output_index() == o2);
                assert(spec_index_addresses(pre_a, pre_o, outs.skip(i as int), tx_hash@, i as u32)
                    == spec_index_addresses(a2, o2, outs.skip(i + 1), tx_hash@, (i + 1) as u32));
            }
            i += 1;
        }
        proof {
            assert(outs.skip(n as int) =~= Seq::<TxOutModel>::empty());
        }
    }

    /// Write the value view for every output of `tx`.
    fn index_values(&mut self, tx: &Transaction, tx_hash: &[u8; 32])
        requires
            old(self).wf(),
            tx@.outputs.len() <= u32::MAX,
        ensures
            final(self).wf(),
            final(self).spec_value_index() == spec_index_values(
                old(self).spec_value_index(),
                tx@.outputs,
                tx_hash@,
                0,
            ),
            final(self).tx_by_hash == old(self).tx_by_hash,
            final(self).tx_by_block == old(self).tx_by_block,
            final(self).tx_metadata == old(self).tx_metadata,
            final(self).address_tx_index == old(self).address_tx_index,
            final(self).address_output_index == old(self).address_output_index,
            final(self).address_input_index == old(self).address_input_index,
            final(self).enable_address_index == old(self).enable_address_index,
            final(self).enable_value_index == old(self).enable_value_index,
    {
        let ghost outs = tx@.outputs;
        let ghost target = spec_index_values(
            old(self).spec_value_index(),
            outs,
            tx_hash@,
            0,
        );
        let n = tx.outputs.len();
        let mut i: usize = 0;
        proof {
            assert(outs.skip(0) =~= outs);
        }
        while i < n
            invariant
                n == tx@.outputs.len(),
                n <= u32::MAX,
                i <= n,
                outs == tx@.outputs,
                self.wf(),
                spec_index_values(self.spec_value_index(), outs.skip(i as int), tx_hash@, i as u32)
                    == target,
                self.tx_by_hash == old(self).tx_by_hash,
                self.tx_by_block == old(self).tx_by_block,
                self.tx_metadata == old(self).tx_metadata,
                self.address_tx_index == old(self).address_tx_index,
                self.address_output_index == old(self).address_output_index,
                self.address_input_index == old(self).address_input_index,
                self.enable_address_index == old(self).enable_address_index,
                self.enable_value_index == old(self).enable_value_index,
            decreases n - i,
        {
            let output = &tx.outputs[i];
            let bucket = value_to_bucket(output.value);
            let bucket_key = u64_to_be_vec(bucket);
            let ghost pre_v = self.spec_value_index();
            proof {
                assert(outs.skip(i as int).first() == outs[i as int]);
                assert(outs.skip(i as int).drop_first() =~= outs.skip(i + 1));
            }
            let cur: Vec<u8> = match self.value_index.get(bucket_key.as_slice()) {
                Some(v) => vstd::slice::slice_to_vec(v.as_slice()),
                None => Vec::new(),
            };
            proof {
                assert(cur@ =~= map_get_or_empty(self.spec_value_index(), bucket_key@));
            }
            if !contains_entry(cur.as_slice(), tx_hash, i as u32) {
                let mut newv = cur;
                let mut hb = vstd::slice::slice_to_vec(tx_hash.as_slice());
                newv.append(&mut hb);
                let mut ib = u32_to_le_bytes(i as u32);
                newv.append(&mut ib);
                let mut vb = u64_to_le_bytes(output.value);
                newv.append(&mut vb);
                proof {
                    assert(newv@ =~= map_get_or_empty(pre_v, bucket_key@) + spec_entry_record(
                        tx_hash@,
                        i as u32,
                        outs[i as int].value,
                    ));
                }
                self.value_index.insert(bucket_key, newv);
            }
            proof {
                let v2 = spec_add_entry_at(
                    pre_v,
                    spec_u64_to_be_bytes(spec_bucket(outs[i as int].value)),
                    tx_hash@,
                    i as u32,
                    outs[i as int].value,
                );
                assert(self.spec_value_index() == v2);
                assert(spec_index_values(pre_v, outs.skip(i as int), tx_hash@, i as u32)
                    == spec_index_values(v2, outs.skip(i + 1), tx_hash@, (i + 1) as u32));
            }
            i += 1;
        }
        proof {
            assert(outs.skip(n as int) =~= Seq::<TxOutModel>::empty());
        }
    }

    /// The transaction whose body is stored under the key bytes `tx_hash`.
    fn fetch_tx(&self, tx_hash: &[u8]) -> (r: Option<Transaction>)
        requires
            self.wf(),
        ensures
            match r {
                Some(t) => {
                    &&& self.spec_tx_by_hash().contains_key(tx_hash@)
                    &&& spec_parse_tx(self.spec_tx_by_hash()[tx_hash@]) matches Some(p) && p.0
                        == t@
                },
                None => !self.spec_tx_by_hash().contains_key(tx_hash@) || spec_parse_tx(
                    self.spec_tx_by_hash()[tx_hash@],
                ) is None,
            },
    {
        match self.tx_by_hash.get(tx_hash) {
            Some(data) => deserialize_transaction(data.as_slice()),
            None => None,
        }
    }

    /// The transaction stored under `tx_hash`, parsed back from its
    /// canonical bytes; a missing or corrupt entry reads as absent.
    pub fn get_transaction(&self, tx_hash: &[u8; 32]) -> (r: Option<Transaction>)
        requires
            self.wf(),
        ensures
            match r {
                Some(t) => {
                    &&& self.spec_tx_by_hash().contains_key(tx_hash@)
                    &&& spec_parse_tx(self.spec_tx_by_hash()[tx_hash@]) matches Some(p) && p.0
                        == t@
                },
                None => !self.spec_tx_by_hash().contains_key(tx_hash@) || spec_parse_tx(
                    self.spec_tx_by_hash()[tx_hash@],
                ) is None,
            },
    {
        self.fetch_tx(tx_hash.as_slice())
    }

    /// The metadata stored under `tx_hash`; a missing or corrupt entry
    /// reads as absent.
    pub fn get_metadata(&self, tx_hash: &[u8; 32]) -> (r: Option<TxMetadata>)
        requires
            self.wf(),
        ensures
            match r {
                Some(m) => {
                    &&& self.spec_tx_metadata().contains_key(tx_hash@)
                    &&& spec_parse_metadata(self.spec_tx_metadata()[tx_hash@]) == Some(m@)
                },
                None => !self.spec_tx_metadata().contains_key(tx_hash@) || spec_parse_metadata(
                    self.spec_tx_metadata()[tx_hash@],
                ) is None,
            },
    {
        match self.tx_metadata.get(tx_hash.as_slice()) {
            Some(data) => parse_metadata(data.as_slice()),
            None => None,
        }
    }

    /// Whether a body is stored under `tx_hash`.
    pub fn has_transaction(&self, tx_hash: &[u8; 32]) -> (r: bool)
        ensures
            r == self.spec_tx_by_hash().contains_key(tx_hash@),
    {
        self.tx_by_hash.contains_key(tx_hash.as_slice())
    }

    /// How many transactions the body store holds.
    pub fn transaction_count(&self) -> (r: usize)
        requires
            self.wf(),
        ensures
            r == self.spec_tx_by_hash().dom().len(),
    {
        self.tx_by_hash.len()
    }

    /// The block's transactions in index order, from index 0, stopping at
    /// the first missing entry, missing body, or corrupt body.
    #[verifier::loop_isolation(false)]
    pub fn get_block_transactions(&self, block_hash: &[u8; 32]) -> (r: Vec<Transaction>)
        requires
            self.wf(),
        ensures
            r.deep_view() == spec_block_scan_from(
                self.spec_tx_by_block(),
                self.spec_tx_by_hash(),
                block_hash@,
                0,
            ),
    {
        let ghost target = spec_block_scan_from(
            self.spec_tx_by_block(),
            self.spec_tx_by_hash(),
            block_hash@,
            0,
        );
        let mut transactions: Vec<Transaction> = Vec::new();
        let mut tx_index: u32 = 0;
        proof {
            assert(transactions.deep_view() =~= Seq::<TxModel>::empty());
            assert(Seq::<TxModel>::empty() + target =~= target);
        }
        while tx_index < 0xffff_ffffu32
            invariant
                transactions.deep_view() + spec_block_scan_from(
                    self.spec_tx_by_block(),
                    self.spec_tx_by_hash(),
                    block_hash@,
                    tx_index,
                ) == target,
            decreases 0xffff_ffffu32 - tx_index,
        {
            let block_key = block_tx_key(block_hash, tx_index);
            let ghost scan_here = spec_block_scan_from(
                self.spec_tx_by_block(),
                self.spec_tx_by_hash(),
                block_hash@,
                tx_index,
            );
            match self.tx_by_block.get(block_key.as_slice()) {
                None => {
                    proof {
                        assert(scan_here =~= Seq::<TxModel>::empty());
                        assert(transactions.deep_view() =~= target);
                    }
                    return transactions;
                },
                Some(hash_bytes) => {
                    match self.tx_by_hash.get(hash_bytes.as_slice()) {
                        None => {
                            proof {
                                assert(scan_here =~= Seq::<TxModel>::empty());
                                assert(transactions.deep_view() =~= target);
                            }
                            return transactions;
                        },
                        Some(data) => {
                            match deserialize_transaction(data.as_slice()) {
                                None => {
                                    proof {
                                        assert(scan_here =~= Seq::<TxModel>::empty());
                                        assert(transactions.deep_view() =~= target);
                                    }
                                    return transactions;
                                },
                                Some(t) => {
                                    let ghost pre_dv = transactions.deep_view();
                                    proof {
                                        assert(spec_block_step(
                                            self.spec_tx_by_block(),
                                            self.spec_tx_by_hash(),
                                            block_hash@,
                                            tx_index,
                                        ) == Some(t@));
                                        assert(scan_here == seq![t@] + spec_block_scan_from(
                                            self.spec_tx_by_block(),
                                            self.spec_tx_by_hash(),
                                            block_hash@,
                                            (tx_index + 1) as u32,
                                        ));
                                    }
                                    transactions.push(t);
                                    proof {
                                        assert(transactions.deep_view() =~= pre_dv.push(t@));
                                        assert(pre_dv.push(t@) + spec_block_scan_from(
                                            self.spec_tx_by_block(),
                                            self.spec_tx_by_hash(),
                                            block_hash@,
                                            (tx_index + 1) as u32,
                                        ) =~= pre_dv + scan_here);
                                    }
                                    tx_index += 1;
                                },
                            }
                        },
                    }
                },
            }
        }
        proof {
            assert(spec_block_scan_from(
                self.spec_tx_by_block(),
                self.spec_tx_by_hash(),
                block_hash@,
                0xffff_ffffu32,
            ) =~= Seq::<TxModel>::empty());
            assert(transactions.deep_view() =~= target);
        }
        transactions
    }

    /// The transactions whose outputs pay the script, in the order their
    /// hashes were recorded; empty when address indexing is off.
    #[verifier::loop_isolation(false)]
    pub fn get_transactions_by_address(&self, script_pubkey: &[u8]) -> (r: Vec<Transaction>)
        requires
            self.wf(),
        ensures
            self.spec_address_enabled() ==> r.deep_view() == spec_fetch_hashes(
                self.spec_tx_by_hash(),
                map_get_or_empty(self.spec_address_tx_index(), sha256_of(script_pubkey@)),
            ),
            !self.spec_address_enabled() ==> r.deep_view() == Seq::<TxModel>::empty(),
    {
        let mut out: Vec<Transaction> = Vec::new();
        proof {
            assert(out.deep_view() =~= Seq::<TxModel>::empty());
        }
        if !self.enable_address_index {
            return out;
        }
        let addr = sha256(script_pubkey);
        let bytes: Vec<u8> = match self.address_tx_index.get(addr.as_slice()) {
            Some(v) => vstd::slice::slice_to_vec(v.as_slice()),
            None => Vec::new(),
        };
        proof {
            assert(bytes@ =~= map_get_or_empty(self.spec_address_tx_index(), addr@));
        }
        let ghost target = spec_fetch_hashes(self.spec_tx_by_hash(), bytes@);
        let n = bytes.len();
        let mut pos: usize = 0;
        proof {
            assert(bytes@.skip(0) =~= bytes@);
            assert(Seq::<TxModel>::empty() + target =~= target);
        }
        while n - pos >= 32
            invariant
                pos <= n,
                out.deep_view() + spec_fetch_hashes(self.spec_tx_by_hash(), bytes@.skip(pos as int))
                    == target,
            decreases n - pos,
        {
            let h = vstd::slice::slice_subrange(bytes.as_slice(), pos, pos + 32);
            proof {
                assert(h@ =~= bytes@.skip(pos as int).subrange(0, 32));
                assert(bytes@.skip(pos as int).skip(32) =~= bytes@.skip(pos + 32));
            }
            let ghost rem = spec_fetch_hashes(self.spec_tx_by_hash(), bytes@.skip(pos as int));
            match self.fetch_tx(h) {
                Some(t) => {
                    let ghost pre_dv = out.deep_view();
                    proof {
                        assert(rem == seq![t@] + spec_fetch_hashes(
                            self.spec_tx_by_hash(),
                            bytes@.skip(pos + 32),
                        ));
                    }
                    out.push(t);
                    proof {
                        assert(out.deep_view() =~= pre_dv.push(t@));
                        assert(pre_dv.push(t@) + spec_fetch_hashes(
                            self.spec_tx_by_hash(),
                            bytes@.skip(pos + 32),
                        ) =~= pre_dv + rem);
                    }
                },
                None => {
                    proof {
                        assert(rem == spec_fetch_hashes(
                            self.spec_tx_by_hash(),
                            bytes@.skip(pos + 32),
                        ));
                    }
                },
            }
            pos += 32;
        }
        proof {
            assert(spec_fetch_hashes(self.spec_tx_by_hash(), bytes@.skip(pos as int))
                =~= Seq::<TxModel>::empty());
            assert(out.deep_view() =~= target);
        }
        out
    }

    /// The transactions with an output value in `[min_value, max_value]`,
    /// each at most once, in the order their hashes are first hit while
    /// walking buckets from `bucket(min_value)` through `bucket(max_value)`;
    /// empty when value indexing is off.
    #[verifier::loop_isolation(false)]
    pub fn get_transactions_by_value_range(&self, min_value: u64, max_value: u64) -> (r: Vec<
        Transaction,
    >)
        requires
            self.wf(),
        ensures
            self.spec_value_enabled() ==> r.deep_view() == spec_fetch_list(
                self.spec_tx_by_hash(),
                spec_range_hashes(
                    self.spec_value_index(),
                    spec_bucket(min_value),
                    spec_bucket(max_value),
                    min_value,
                    max_value,
                    Seq::empty(),
                ),
            ),
            !self.spec_value_enabled() ==> r.deep_view() == Seq::<TxModel>::empty(),
    {
        let mut out: Vec<Transaction> = Vec::new();
        proof {
            assert(out.deep_view() =~= Seq::<TxModel>::empty());
        }
        if !self.enable_value_index {
            return out;
        }
        let min_bucket = value_to_bucket(min_value);
        let max_bucket = value_to_bucket(max_value);
        let ghost htarget = spec_range_hashes(
            self.spec_value_index(),
            spec_bucket(min_value),
            spec_bucket(max_value),
            min_value,
            max_value,
            Seq::empty(),
        );
        let mut hashes: Vec<Vec<u8>> = Vec::new();
        proof {
            assert(hashes.deep_view() =~= Seq::<Seq<u8>>::empty());
        }
        let mut b = min_bucket;
        while b <= max_bucket
            invariant
                spec_range_hashes(
                    self.spec_value_index(),
                    b,
                    max_bucket,
                    min_value,
                    max_value,
                    hashes.deep_view(),
                ) == htarget,
            decreases max_bucket - b,
        {
            let ghost acc_entry = hashes.deep_view();
            let key = u64_to_be_vec(b);
            match self.value_index.get(key.as_slice()) {
                None => {},
                Some(v) => {
                    let bytes = vstd::slice::slice_to_vec(v.as_slice());
                    let ghost bucket_target = spec_bucket_hits(
                        bytes@,
                        min_value,
                        max_value,
                        acc_entry,
                    );
                    let bn = bytes.len();
                    let mut pos: usize = 0;
                    proof {
                        assert(bytes@.skip(0) =~= bytes@);
                    }
                    while bn - pos >= 44
                        invariant
                            pos <= bn,
                            spec_bucket_hits(
                                bytes@.skip(pos as int),
                                min_value,
                                max_value,
                                hashes.deep_view(),
                            ) == bucket_target,
                        decreases bn - pos,
                    {
                        let h = vstd::slice::slice_subrange(bytes.as_slice(), pos, pos + 32);
                        let vb = vstd::slice::slice_subrange(bytes.as_slice(), pos + 36, pos + 44);
                        let value = u64_from_le_bytes(vb);
                        proof {
                            assert(h@ =~= bytes@.skip(pos as int).subrange(0, 32));
                            assert(vb@ =~= bytes@.skip(pos as int).subrange(36, 44));
                            assert(bytes@.skip(pos as int).skip(44) =~= bytes@.skip(pos + 44));
                        }
                        if min_value <= value && value <= max_value && !hash_list_contains(
                            &hashes,
                            h,
                        ) {
                            let ghost pre_dv = hashes.deep_view();
                            hashes.push(vstd::slice::slice_to_vec(h));
                            proof {
                                assert(hashes.deep_view() =~~= pre_dv.push(h@));
                            }
                        }
                        pos += 44;
                    }
                    proof {
                        assert(spec_bucket_hits(
                            bytes@.skip(pos as int),
                            min_value,
                            max_value,
                            hashes.deep_view(),
                        ) == hashes.deep_view());
                        assert(hashes.deep_view() == bucket_target);
                    }
                },
            }
            if b == max_bucket {
                break ;
            }
            b += 1;
        }
        proof {
            assert(hashes.deep_view() == htarget);
        }
        let ghost hs = hashes.deep_view();
        let ghost target = spec_fetch_list(self.spec_tx_by_hash(), hs);
        let m = hashes.len();
        let mut i: usize = 0;
        proof {
            assert(hs.skip(0) =~= hs);
            assert(Seq::<TxModel>::empty() + target =~= target);
        }
        while i < m
            invariant
                i <= m,
                m == hashes@.len(),
                hs == hashes.deep_view(),
                out.deep_view() + spec_fetch_list(self.spec_tx_by_hash(), hs.skip(i as int))
                    == target,
            decreases m - i,
        {
            proof {
                assert(hs.skip(i as int).first() == hs[i as int]);
                assert(hs.skip(i as int).drop_first() =~= hs.skip(i + 1));
                assert(hs[i as int] =~= hashes@[i as int]@);
            }
            let ghost rem = spec_fetch_list(self.spec_tx_by_hash(), hs.skip(i as int));
            match self.fetch_tx(hashes[i].as_slice()) {
                Some(t) => {
                    let ghost pre_dv = out.deep_view();
                    proof {
                        assert(rem == seq![t@] + spec_fetch_list(
                            self.spec_tx_by_hash(),
                            hs.skip(i + 1),
                        ));
                    }
                    out.push(t);
                    proof {
                        assert(out.deep_view() =~= pre_dv.push(t@));
                        assert(pre_dv.push(t@) + spec_fetch_list(
                            self.spec_tx_by_hash(),
                            hs.skip(i + 1),
                        ) =~= pre_dv + rem);
                    }
                },
                None => {
                    proof {
                        assert(rem == spec_fetch_list(self.spec_tx_by_hash(), hs.skip(i + 1)));
                    }
                },
            }
            i += 1;
        }
        proof {
            assert(hs.skip(m as int) =~= Seq::<Seq<u8>>::empty());
            assert(out.deep_view() =~= target);
        }
        out
    }

    /// The transactions of every stored block with height in
    /// `[start_height, end_height]`, in height order then block order;
    /// heights without a stored block are skipped.
    #[verifier::loop_isolation(false)]
    pub fn get_transactions_by_height_range(
        &self,
        start_height: u64,
        end_height: u64,
        blockstore: &crate::blockstore::BlockStore,
    ) -> (r: Vec<Transaction>)
        requires
            self.wf(),
        ensures
            r.deep_view() == spec_height_scan(
                self.spec_tx_by_block(),
                self.spec_tx_by_hash(),
                blockstore.spec_entries(),
                start_height,
                end_height,
            ),
    {
        let ghost target = spec_height_scan(
            self.spec_tx_by_block(),
            self.spec_tx_by_hash(),
            blockstore.spec_entries(),
            start_height,
            end_height,
        );
        let mut out: Vec<Transaction> = Vec::new();
        proof {
            assert(out.deep_view() =~= Seq::<TxModel>::empty());
        }
        if start_height > end_height {
            return out;
        }
        let mut h = start_height;
        proof {
            assert(Seq::<TxModel>::empty() + target =~= target);
        }
        while h < end_height
            invariant
                start_height <= h <= end_height,
                out.deep_view() + spec_height_scan(
                    self.spec_tx_by_block(),
                    self.spec_tx_by_hash(),
                    blockstore.spec_entries(),
                    h,
                    end_height,
                ) == target,
            decreases end_height - h,
        {
            let ghost rem = spec_height_scan(
                self.spec_tx_by_block(),
                self.spec_tx_by_hash(),
                blockstore.spec_entries(),
                h,
                end_height,
            );
            match blockstore.get_hash_by_height(h) {
                Some(bh) => {
                    let mut txs = self.get_block_transactions(&bh);
                    let ghost pre_dv = out.deep_view();
                    let ghost txs_dv = txs.deep_view();
                    out.append(&mut txs);
                    proof {
                        assert(out.deep_view() =~= pre_dv + txs_dv);
                        assert((pre_dv + txs_dv) + spec_height_scan(
                            self.spec_tx_by_block(),
                            self.spec_tx_by_hash(),
                            blockstore.spec_entries(),
                            (h + 1) as u64,
                            end_height,
                        ) =~= pre_dv + rem);
                    }
                },
                None => {
                    proof {
                        assert(rem =~= Seq::<TxModel>::empty() + spec_height_scan(
                            self.spec_tx_by_block(),
                            self.spec_tx_by_hash(),
                            blockstore.spec_entries(),
                            (h + 1) as u64,
                            end_height,
                        ));
                    }
                },
            }
            h += 1;
        }
        let ghost rem = spec_height_scan(
            self.spec_tx_by_block(),
            self.spec_tx_by_hash(),
            blockstore.spec_entries(),
            h,
            end_height,
        );
        match blockstore.get_hash_by_height(h) {
            Some(bh) => {
                let mut txs = self.get_block_transactions(&bh);
                let ghost pre_dv = out.deep_view();
                let ghost txs_dv = txs.deep_view();
                out.append(&mut txs);
                proof {
                    assert(rem == txs_dv);
                    assert(out.deep_view() =~= pre_dv + txs_dv);
                }
            },
            None => {
                proof {
                    assert(rem =~= Seq::<TxModel>::empty());
                    assert(out.deep_view() + rem =~= out.deep_view());
                }
            },
        }
        proof {
            assert(out.deep_view() =~= target);
        }
        out
    }

    /// Drop the body, metadata and block entry of `tx_hash`. Optional view
    /// entries are left as tombstones for a later re-index or clear.
    pub fn remove_transaction(&mut self, tx_hash: &[u8; 32])
        requires
            old(self).wf(),
        ensures
            final(self).wf(),
            final(self).spec_tx_by_hash() == old(self).spec_tx_by_hash().remove(tx_hash@),
            final(self).spec_tx_metadata() == old(self).spec_tx_metadata().remove(tx_hash@),
            ({
                let m = old(self).spec_tx_metadata();
                if m.contains_key(tx_hash@) {
                    match spec_parse_metadata(m[tx_hash@]) {
                        Some(md) => final(self).spec_tx_by_block() == old(
                            self,
                        ).spec_tx_by_block().remove(spec_block_key(md.block_hash, md.tx_index)),
                        None => final(self).spec_tx_by_block() == old(self).spec_tx_by_block(),
                    }
                } else {
                    final(self).spec_tx_by_block() == old(self).spec_tx_by_block()
                }
            }),
            final(self).spec_address_tx_index() == old(self).spec_address_tx_index(),
            final(self).spec_address_output_index() == old(self).spec_address_output_index(),
            final(self).spec_address_input_index() == old(self).spec_address_input_index(),
            final(self).spec_value_index() == old(self).spec_value_index(),
            final(self).spec_address_enabled() == old(self).spec_address_enabled(),
            final(self).spec_value_enabled() == old(self).spec_value_enabled(),
    {
        let md_bytes: Option<Vec<u8>> = match self.tx_metadata.get(tx_hash.as_slice()) {
            Some(v) => Some(vstd::slice::slice_to_vec(v.as_slice())),
            None => None,
        };
        match md_bytes {
            Some(data) => {
                match parse_metadata(data.as_slice()) {
                    Some(metadata) => {
                        let block_key = block_tx_key(&metadata.block_hash, metadata.tx_index);
                        self.tx_by_block.remove(block_key.as_slice());
                    },
                    None => {},
                }
            },
            None => {},
        }
        let ghost mid_block = self.spec_tx_by_block();
        self.tx_by_hash.remove(tx_hash.as_slice());
        self.tx_metadata.remove(tx_hash.as_slice());
        proof {
            assert(self.spec_tx_by_block() == mid_block);
            assert(self.tx_by_hash.wf());
            assert(self.tx_by_block.wf());
            assert(self.tx_metadata.wf());
            assert(self.address_tx_index.wf());
            assert(self.address_output_index.wf());
            assert(self.address_input_index.wf());
            assert(self.value_index.wf());
            assert(self.wf());
        }
    }

    /// Empty the primary views, and each optional view whose flag is on.
    pub fn clear(&mut self)
        requires
            old(self).wf(),
        ensures
            final(self).wf(),
            final(self).spec_tx_by_hash() == Map::<Seq<u8>, Seq<u8>>::empty(),
            final(self).spec_tx_by_block() == Map::<Seq<u8>, Seq<u8>>::empty(),
            final(self).spec_tx_metadata() == Map::<Seq<u8>, Seq<u8>>::empty(),
            old(self).spec_address_enabled() ==> final(self).spec_address_tx_index() == Map::<
                Seq<u8>,
                Seq<u8>,
            >::empty() && final(self).spec_address_output_index() == Map::<Seq<u8>, Seq<u8>>::empty()
                && final(self).spec_address_input_index() == Map::<Seq<u8>, Seq<u8>>::empty(),
            !old(self).spec_address_enabled() ==> final(self).spec_address_tx_index() == old(
                self,
            ).spec_address_tx_index() && final(self).spec_address_output_index() == old(
                self,
            ).spec_address_output_index() && final(self).spec_address_input_index() == old(
                self,
            ).spec_address_input_index(),
            old(self).spec_value_enabled() ==> final(self).spec_value_index() == Map::<
                Seq<u8>,
                Seq<u8>,
            >::empty(),
            !old(self).spec_value_enabled() ==> final(self).spec_value_index() == old(
                self,
            ).spec_value_index(),
            final(self).spec_address_enabled() == old(self).spec_address_enabled(),
            final(self).spec_value_enabled() == old(self).spec_value_enabled(),
    {
        self.tx_by_hash.clear();
        self.tx_by_block.clear();
        self.tx_metadata.clear();
        if self.enable_address_index {
            self.address_tx_index.clear();
            self.address_output_index.clear();
            self.address_input_index.clear();
        }
        if self.enable_value_index {
            self.value_index.clear();
        }
    }
}

} // verus!
