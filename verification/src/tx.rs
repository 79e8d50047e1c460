//! Transactions, blocks, and the canonical byte serialization whose double
//! SHA-256 is the transaction id.
//!
//! The canonical layout is `version LE(4) ‖ varint(n_in) ‖ inputs ‖
//! varint(n_out) ‖ outputs ‖ lock_time LE(4)`, with each input as
//! `prev hash(32) ‖ prev index LE(4) ‖ varint(|script_sig|) ‖ script_sig ‖
//! sequence LE(4)` and each output as `value LE(8) ‖
//! varint(|script_pubkey|) ‖ script_pubkey`.

use vstd::prelude::*;
use vstd::bytes::*;
use crate::wire::{spec_varint, spec_varint_len, spec_parse_varint, encode_varint, decode_varint};
use crate::hashing::{double_sha256, sha256_of};

verus! {

/// A reference to a previous transaction output.
#[derive(Debug, Clone)]
pub struct OutPoint {
    pub hash: [u8; 32],
    pub index: u32,
}

/// A transaction input.
#[derive(Debug, Clone)]
pub struct TxInput {
    pub prevout: OutPoint,
    pub script_sig: Vec<u8>,
    pub sequence: u32,
}

/// A transaction output.
#[derive(Debug, Clone)]
pub struct TxOutput {
    pub value: u64,
    pub script_pubkey: Vec<u8>,
}

/// A transaction.
#[derive(Debug, Clone)]
pub struct Transaction {
    pub version: i32,
    pub inputs: Vec<TxInput>,
    pub outputs: Vec<TxOutput>,
    pub lock_time: u32,
}

/// A block header.
#[derive(Debug, Clone)]
pub struct BlockHeader {
    pub version: i32,
    pub prev_block_hash: [u8; 32],
    pub merkle_root: [u8; 32],
    pub timestamp: u32,
    pub bits: u32,
    pub nonce: u32,
}

/// A block: header and its transactions in order.
#[derive(Debug, Clone)]
pub struct Block {
    pub header: BlockHeader,
    pub transactions: Vec<Transaction>,
}

/// Mathematical model of a transaction input.
pub ghost struct TxInModel {
    pub prev_hash: Seq<u8>,
    pub prev_index: u32,
    pub script_sig: Seq<u8>,
    pub sequence: u32,
}

/// Mathematical model of a transaction output.
pub ghost struct TxOutModel {
    pub value: u64,
    pub script_pubkey: Seq<u8>,
}

/// Mathematical model of a transaction.
pub ghost struct TxModel {
    pub version: i32,
    pub inputs: Seq<TxInModel>,
    pub outputs: Seq<TxOutModel>,
    pub lock_time: u32,
}

impl View for TxInput {
    type V = TxInModel;

    open spec fn view(&self) -> TxInModel {
        TxInModel {
            prev_hash: self.prevout.hash@,
            prev_index: self.prevout.index,
            script_sig: self.script_sig@,
            sequence: self.sequence,
        }
    }
}

impl DeepView for TxInput {
    type V = TxInModel;

    open spec fn deep_view(&self) -> TxInModel {
        self.view()
    }
}

impl View for TxOutput {
    type V = TxOutModel;

    open spec fn view(&self) -> TxOutModel {
        TxOutModel { value: self.value, script_pubkey: self.script_pubkey@ }
    }
}

impl DeepView for TxOutput {
    type V = TxOutModel;

    open spec fn deep_view(&self) -> TxOutModel {
        self.view()
    }
}

impl View for Transaction {
    type V = TxModel;

    open spec fn view(&self) -> TxModel {
        TxModel {
            version: self.version,
            inputs: self.inputs.deep_view(),
            outputs: self.outputs.deep_view(),
            lock_time: self.lock_time,
        }
    }
}

impl DeepView for Transaction {
    type V = TxModel;

    open spec fn deep_view(&self) -> TxModel {
        self.view()
    }
}

/// Structural bounds under which a model can be carried by machine values:
/// 32-byte previous-output hashes, and counts and script lengths that fit
/// the varint's `u64`.
pub open spec fn spec_tx_wf(m: TxModel) -> bool {
    &&& m.inputs.len() <= u64::MAX
    &&& m.outputs.len() <= u64::MAX
    &&& forall|i: int|
        0 <= i < m.inputs.len() ==> (#[trigger] m.inputs[i]).prev_hash.len() == 32
            && m.inputs[i].script_sig.len() <= u64::MAX
    &&& forall|i: int|
        0 <= i < m.outputs.len() ==> (#[trigger] m.outputs[i]).script_pubkey.len() <= u64::MAX
}

/// Canonical bytes of one input.
pub open spec fn spec_ser_input(m: TxInModel) -> Seq<u8> {
    m.prev_hash + spec_u32_to_le_bytes(m.prev_index) + spec_varint(m.script_sig.len() as u64)
        + m.script_sig + spec_u32_to_le_bytes(m.sequence)
}

/// Canonical bytes of a sequence of inputs, in order.
pub open spec fn spec_ser_inputs(s: Seq<TxInModel>) -> Seq<u8>
    decreases s.len(),
{
    if s.len() == 0 {
        Seq::empty()
    } else {
        spec_ser_input(s.first()) + spec_ser_inputs(s.drop_first())
    }
}

/// Canonical bytes of one output.
pub open spec fn spec_ser_output(m: TxOutModel) -> Seq<u8> {
    spec_u64_to_le_bytes(m.value) + spec_varint(m.script_pubkey.len() as u64) + m.script_pubkey
}

/// Canonical bytes of a sequence of outputs, in order.
pub open spec fn spec_ser_outputs(s: Seq<TxOutModel>) -> Seq<u8>
    decreases s.len(),
{
    if s.len() == 0 {
        Seq::empty()
    } else {
        spec_ser_output(s.first()) + spec_ser_outputs(s.drop_first())
    }
}

/// The canonical serialization of a transaction.
pub open spec fn spec_ser_tx(m: TxModel) -> Seq<u8> {
    spec_u32_to_le_bytes(m.version as u32) + spec_varint(m.inputs.len() as u64) + spec_ser_inputs(
        m.inputs,
    ) + spec_varint(m.outputs.len() as u64) + spec_ser_outputs(m.outputs) + spec_u32_to_le_bytes(
        m.lock_time,
    )
}

/// The transaction id: double SHA-256 of the canonical serialization.
pub open spec fn spec_tx_id(m: TxModel) -> Seq<u8> {
    sha256_of(sha256_of(spec_ser_tx(m)))
}

proof fn lemma_ser_inputs_snoc(s: Seq<TxInModel>, x: TxInModel)
    ensures
        spec_ser_inputs(s.push(x)) == spec_ser_inputs(s) + spec_ser_input(x),
    decreases s.len(),
{
    if s.len() == 0 {
        assert(s.push(x).first() == x);
        assert(s.push(x).drop_first() =~= Seq::<TxInModel>::empty());
        assert(spec_ser_inputs(Seq::<TxInModel>::empty()) =~= Seq::<u8>::empty());
        assert(spec_ser_inputs(s.push(x)) =~= spec_ser_inputs(s) + spec_ser_input(x));
    } else {
        assert(s.push(x).first() == s.first());
        assert(s.push(x).drop_first() =~= s.drop_first().push(x));
        lemma_ser_inputs_snoc(s.drop_first(), x);
        assert(spec_ser_inputs(s.push(x)) =~= spec_ser_inputs(s) + spec_ser_input(x));
    }
}

proof fn lemma_ser_outputs_snoc(s: Seq<TxOutModel>, x: TxOutModel)
    ensures
        spec_ser_outputs(s.push(x)) == spec_ser_outputs(s) + spec_ser_output(x),
    decreases s.len(),
{
    if s.len() == 0 {
        assert(s.push(x).first() == x);
        assert(s.push(x).drop_first() =~= Seq::<TxOutModel>::empty());
        assert(spec_ser_outputs(Seq::<TxOutModel>::empty()) =~= Seq::<u8>::empty());
        assert(spec_ser_outputs(s.push(x)) =~= spec_ser_outputs(s) + spec_ser_output(x));
    } else {
        assert(s.push(x).first() == s.first());
        assert(s.push(x).drop_first() =~= s.drop_first().push(x));
        lemma_ser_outputs_snoc(s.drop_first(), x);
        assert(spec_ser_outputs(s.push(x)) =~= spec_ser_outputs(s) + spec_ser_output(x));
    }
}

/// Serialize a transaction into its canonical bytes.
pub fn serialize_transaction(tx: &Transaction) -> (r: Vec<u8>)
    ensures
        r@ == spec_ser_tx(tx@),
{
    let mut out = u32_to_le_bytes(tx.version as u32);
    let mut count = encode_varint(tx.inputs.len() as u64);
    out.append(&mut count);
    let ghost header = spec_u32_to_le_bytes(tx.version as u32) + spec_varint(
        tx.inputs@.len() as u64,
    );
    proof {
        assert(out@ =~= header);
    }
    let n_in = tx.inputs.len();
    let mut i: usize = 0;
    while i < n_in
        invariant
            n_in == tx.inputs@.len(),
            i <= n_in,
            out@ == header + spec_ser_inputs(tx.inputs.deep_view().take(i as int)),
        decreases n_in - i,
    {
        let ghost prefix = tx.inputs.deep_view().take(i as int);
        let input = &tx.inputs[i];
        let mut hash_bytes = vstd::slice::slice_to_vec(input.prevout.hash.as_slice());
        out.append(&mut hash_bytes);
        let mut idx_bytes = u32_to_le_bytes(input.prevout.index);
        out.append(&mut idx_bytes);
        let mut len_bytes = encode_varint(input.script_sig.len() as u64);
        out.append(&mut len_bytes);
        let mut script = vstd::slice::slice_to_vec(input.script_sig.as_slice());
        out.append(&mut script);
        let mut seq_bytes = u32_to_le_bytes(input.sequence);
        out.append(&mut seq_bytes);
        proof {
            lemma_ser_inputs_snoc(prefix, tx.inputs@[i as int]@);
            assert(tx.inputs.deep_view().take(i + 1) =~= prefix.push(tx.inputs@[i as int]@));
            assert(out@ =~= header + spec_ser_inputs(tx.inputs.deep_view().take(i + 1)));
        }
        i += 1;
    }
    proof {
        assert(tx.inputs.deep_view().take(n_in as int) =~= tx.inputs.deep_view());
    }
    let ghost mid = header + spec_ser_inputs(tx@.inputs);
    let mut out_count = encode_varint(tx.outputs.len() as u64);
    out.append(&mut out_count);
    let ghost mid2 = mid + spec_varint(tx.outputs@.len() as u64);
    proof {
        assert(out@ =~= mid2);
    }
    let n_out = tx.outputs.len();
    let mut j: usize = 0;
    while j < n_out
        invariant
            n_out == tx.outputs@.len(),
            j <= n_out,
            out@ == mid2 + spec_ser_outputs(tx.outputs.deep_view().take(j as int)),
        decreases n_out - j,
    {
        let ghost prefix = tx.outputs.deep_view().take(j as int);
        let output = &tx.outputs[j];
        let mut val_bytes = u64_to_le_bytes(output.value);
        out.append(&mut val_bytes);
        let mut len_bytes = encode_varint(output.script_pubkey.len() as u64);
        out.append(&mut len_bytes);
        let mut script = vstd::slice::slice_to_vec(output.script_pubkey.as_slice());
        out.append(&mut script);
        proof {
            lemma_ser_outputs_snoc(prefix, tx.outputs@[j as int]@);
            assert(tx.outputs.deep_view().take(j + 1) =~= prefix.push(tx.outputs@[j as int]@));
            assert(out@ =~= mid2 + spec_ser_outputs(tx.outputs.deep_view().take(j + 1)));
        }
        j += 1;
    }
    proof {
        assert(tx.outputs.deep_view().take(n_out as int) =~= tx.outputs.deep_view());
    }
    let mut lock_bytes = u32_to_le_bytes(tx.lock_time);
    out.append(&mut lock_bytes);
    proof {
        assert(out@ =~= spec_ser_tx(tx@));
    }
    out
}

/// The transaction id: double SHA-256 of the canonical serialization.
pub fn calculate_tx_id(tx: &Transaction) -> (r: [u8; 32])
    ensures
        r@ == spec_tx_id(tx@),
{
    let data = serialize_transaction(tx);
    double_sha256(data.as_slice())
}

/// Result of parsing one input from the front of `s`: the input and how many
/// bytes it took.
pub open spec fn spec_parse_input(s: Seq<u8>) -> Option<(TxInModel, int)> {
    if s.len() < 36 {
        None
    } else {
        let prev_hash = s.subrange(0, 32);
        let prev_index = spec_u32_from_le_bytes(s.subrange(32, 36));
        match spec_parse_varint(s.skip(36)) {
            None => None,
            Some((slen, vk)) => {
                let start = 36 + vk;
                if s.len() < start + slen + 4 {
                    None
                } else {
                    let script_sig = s.subrange(start, start + slen);
                    let sequence = spec_u32_from_le_bytes(
                        s.subrange(start + slen, start + slen + 4),
                    );
                    Some(
                        (
                            TxInModel { prev_hash, prev_index, script_sig, sequence },
                            start + slen + 4,
                        ),
                    )
                }
            },
        }
    }
}

/// Result of parsing `n` inputs from the front of `s`.
pub open spec fn spec_parse_inputs(s: Seq<u8>, n: u64) -> Option<(Seq<TxInModel>, int)>
    decreases n,
{
    if n == 0 {
        Some((Seq::empty(), 0))
    } else {
        match spec_parse_input(s) {
            None => None,
            Some((m, k)) => match spec_parse_inputs(s.skip(k), (n - 1) as u64) {
                None => None,
                Some((rest, k2)) => Some((seq![m] + rest, k + k2)),
            },
        }
    }
}

/// Result of parsing one output from the front of `s`.
pub open spec fn spec_parse_output(s: Seq<u8>) -> Option<(TxOutModel, int)> {
    if s.len() < 8 {
        None
    } else {
        let value = spec_u64_from_le_bytes(s.subrange(0, 8));
        match spec_parse_varint(s.skip(8)) {
            None => None,
            Some((slen, vk)) => {
                let start = 8 + vk;
                if s.len() < start + slen {
                    None
                } else {
                    Some(
                        (
                            TxOutModel { value, script_pubkey: s.subrange(start, start + slen) },
                            start + slen,
                        ),
                    )
                }
            },
        }
    }
}

/// Result of parsing `n` outputs from the front of `s`.
pub open spec fn spec_parse_outputs(s: Seq<u8>, n: u64) -> Option<(Seq<TxOutModel>, int)>
    decreases n,
{
    if n == 0 {
        Some((Seq::empty(), 0))
    } else {
        match spec_parse_output(s) {
            None => None,
            Some((m, k)) => match spec_parse_outputs(s.skip(k), (n - 1) as u64) {
                None => None,
                Some((rest, k2)) => Some((seq![m] + rest, k + k2)),
            },
        }
    }
}

/// Result of parsing a whole transaction from the front of `s`.
pub open spec fn spec_parse_tx(s: Seq<u8>) -> Option<(TxModel, int)> {
    if s.len() < 4 {
        None
    } else {
        let version = spec_u32_from_le_bytes(s.subrange(0, 4)) as i32;
        match spec_parse_varint(s.skip(4)) {
            None => None,
            Some((n_in, k1)) => match spec_parse_inputs(s.skip(4 + k1), n_in) {
                None => None,
                Some((inputs, k2)) => {
                    let p = 4 + k1 + k2;
                    match spec_parse_varint(s.skip(p)) {
                        None => None,
                        Some((n_out, k3)) => match spec_parse_outputs(s.skip(p + k3), n_out) {
                            None => None,
                            Some((outputs, k4)) => {
                                let q = p + k3 + k4;
                                if s.len() < q + 4 {
                                    None
                                } else {
                                    Some(
                                        (
                                            TxModel {
                                                version,
                                                inputs,
                                                outputs,
                                                lock_time: spec_u32_from_le_bytes(
                                                    s.subrange(q, q + 4),
                                                ),
                                            },
                                            q + 4,
                                        ),
                                    )
                                }
                            },
                        },
                    }
                },
            },
        }
    }
}

/// Parsing one input undoes serializing it, whatever bytes follow.
proof fn lemma_parse_input_round_trip(m: TxInModel, rest: Seq<u8>)
    requires
        m.prev_hash.len() == 32,
        m.script_sig.len() <= u64::MAX,
    ensures
        spec_parse_input(spec_ser_input(m) + rest) == Some(
            (m, spec_ser_input(m).len() as int),
        ),
{
    lemma_auto_spec_u32_to_from_le_bytes();
    crate::wire::lemma_varint_len(m.script_sig.len() as u64);
    let s = spec_ser_input(m) + rest;
    let slen = m.script_sig.len() as u64;
    let vk = spec_varint_len(slen);
    assert(s.subrange(0, 32) =~= m.prev_hash);
    assert(s.subrange(32, 36) =~= spec_u32_to_le_bytes(m.prev_index));
    assert(s.skip(36) =~= spec_varint(slen) + (m.script_sig + spec_u32_to_le_bytes(m.sequence)
        + rest));
    crate::wire::lemma_varint_round_trip(
        slen,
        m.script_sig + spec_u32_to_le_bytes(m.sequence) + rest,
    );
    let start = 36 + vk;
    assert(s.subrange(start, start + slen as int) =~= m.script_sig);
    assert(s.subrange(start + slen as int, start + slen as int + 4) =~= spec_u32_to_le_bytes(
        m.sequence,
    ));
    assert(spec_parse_input(s) == Some((m, start + slen as int + 4)));
}

/// Parsing one output undoes serializing it, whatever bytes follow.
proof fn lemma_parse_output_round_trip(m: TxOutModel, rest: Seq<u8>)
    requires
        m.script_pubkey.len() <= u64::MAX,
    ensures
        spec_parse_output(spec_ser_output(m) + rest) == Some(
            (m, spec_ser_output(m).len() as int),
        ),
{
    lemma_auto_spec_u64_to_from_le_bytes();
    crate::wire::lemma_varint_len(m.script_pubkey.len() as u64);
    let s = spec_ser_output(m) + rest;
    let slen = m.script_pubkey.len() as u64;
    let vk = spec_varint_len(slen);
    assert(s.subrange(0, 8) =~= spec_u64_to_le_bytes(m.value));
    assert(s.skip(8) =~= spec_varint(slen) + (m.script_pubkey + rest));
    crate::wire::lemma_varint_round_trip(slen, m.script_pubkey + rest);
    let start = 8 + vk;
    assert(s.subrange(start, start + slen as int) =~= m.script_pubkey);
    assert(spec_parse_output(s) == Some((m, start + slen as int)));
}

/// Parsing `n` inputs undoes serializing them, whatever bytes follow.
proof fn lemma_parse_inputs_round_trip(s: Seq<TxInModel>, rest: Seq<u8>)
    requires
        s.len() <= u64::MAX,
        forall|i: int|
            0 <= i < s.len() ==> (#[trigger] s[i]).prev_hash.len() == 32
                && s[i].script_sig.len() <= u64::MAX,
    ensures
        spec_parse_inputs(spec_ser_inputs(s) + rest, s.len() as u64) == Some(
            (s, spec_ser_inputs(s).len() as int),
        ),
    decreases s.len(),
{
    if s.len() == 0 {
        assert(spec_parse_inputs(spec_ser_inputs(s) + rest, 0) == Some(
            (Seq::<TxInModel>::empty(), 0int),
        ));
        assert(s =~= Seq::<TxInModel>::empty());
    } else {
        let full = spec_ser_inputs(s) + rest;
        let tail_rest = spec_ser_inputs(s.drop_first()) + rest;
        assert(s[0] == s.first());
        assert(full =~= spec_ser_input(s.first()) + tail_rest);
        lemma_parse_input_round_trip(s.first(), tail_rest);
        let k = spec_ser_input(s.first()).len() as int;
        assert(full.skip(k) =~= tail_rest);
        assert(forall|i: int|
            0 <= i < s.drop_first().len() ==> #[trigger] s.drop_first()[i] == s[i + 1]);
        lemma_parse_inputs_round_trip(s.drop_first(), rest);
        assert(seq![s.first()] + s.drop_first() =~= s);
    }
}

/// Parsing `n` outputs undoes serializing them, whatever bytes follow.
proof fn lemma_parse_outputs_round_trip(s: Seq<TxOutModel>, rest: Seq<u8>)
    requires
        s.len() <= u64::MAX,
        forall|i: int| 0 <= i < s.len() ==> (#[trigger] s[i]).script_pubkey.len() <= u64::MAX,
    ensures
        spec_parse_outputs(spec_ser_outputs(s) + rest, s.len() as u64) == Some(
            (s, spec_ser_outputs(s).len() as int),
        ),
    decreases s.len(),
{
    if s.len() == 0 {
        assert(spec_parse_outputs(spec_ser_outputs(s) + rest, 0) == Some(
            (Seq::<TxOutModel>::empty(), 0int),
        ));
        assert(s =~= Seq::<TxOutModel>::empty());
    } else {
        let full = spec_ser_outputs(s) + rest;
        let tail_rest = spec_ser_outputs(s.drop_first()) + rest;
        assert(s[0] == s.first());
        assert(full =~= spec_ser_output(s.first()) + tail_rest);
        lemma_parse_output_round_trip(s.first(), tail_rest);
        let k = spec_ser_output(s.first()).len() as int;
        assert(full.skip(k) =~= tail_rest);
        assert(forall|i: int|
            0 <= i < s.drop_first().len() ==> #[trigger] s.drop_first()[i] == s[i + 1]);
        lemma_parse_outputs_round_trip(s.drop_first(), rest);
        assert(seq![s.first()] + s.drop_first() =~= s);
    }
}

/// Parsing the canonical serialization of a transaction gives the
/// transaction back, whatever bytes follow.
#[verifier::rlimit(100)]
pub proof fn lemma_tx_codec_round_trip(m: TxModel, rest: Seq<u8>)
    requires
        spec_tx_wf(m),
    ensures
        spec_parse_tx(spec_ser_tx(m) + rest) == Some((m, spec_ser_tx(m).len() as int)),
{
    lemma_auto_spec_u32_to_from_le_bytes();
    crate::wire::lemma_varint_len(m.inputs.len() as u64);
    crate::wire::lemma_varint_len(m.outputs.len() as u64);
    let s = spec_ser_tx(m) + rest;
    assert(s.subrange(0, 4) =~= spec_u32_to_le_bytes(m.version as u32));
    let ver = m.version;
    assert(((ver as u32) as i32) == ver) by (bit_vector);
    let rest1 = spec_ser_inputs(m.inputs) + spec_varint(m.outputs.len() as u64) + spec_ser_outputs(
        m.outputs,
    ) + spec_u32_to_le_bytes(m.lock_time) + rest;
    assert(s.skip(4) =~= spec_varint(m.inputs.len() as u64) + rest1);
    crate::wire::lemma_varint_round_trip(m.inputs.len() as u64, rest1);
    let k1 = spec_varint_len(m.inputs.len() as u64);
    let rest2 = spec_varint(m.outputs.len() as u64) + spec_ser_outputs(m.outputs)
        + spec_u32_to_le_bytes(m.lock_time) + rest;
    assert(s.skip(4 + k1) =~= spec_ser_inputs(m.inputs) + rest2);
    lemma_parse_inputs_round_trip(m.inputs, rest2);
    let k2 = spec_ser_inputs(m.inputs).len() as int;
    let p = 4 + k1 + k2;
    let rest3 = spec_ser_outputs(m.outputs) + spec_u32_to_le_bytes(m.lock_time) + rest;
    assert(s.skip(p) =~= spec_varint(m.outputs.len() as u64) + rest3);
    crate::wire::lemma_varint_round_trip(m.outputs.len() as u64, rest3);
    let k3 = spec_varint_len(m.outputs.len() as u64);
    let rest4 = spec_u32_to_le_bytes(m.lock_time) + rest;
    assert(s.skip(p + k3) =~= spec_ser_outputs(m.outputs) + rest4);
    lemma_parse_outputs_round_trip(m.outputs, rest4);
    let k4 = spec_ser_outputs(m.outputs).len() as int;
    let q = p + k3 + k4;
    assert(s.subrange(q, q + 4) =~= spec_u32_to_le_bytes(m.lock_time));
    assert(spec_parse_tx(s) == Some((m, q + 4)));
}

/// The transaction id survives a serialize–deserialize round trip: the id is
/// a pure function of the transaction's content.
pub proof fn lemma_txid_purity(m: TxModel)
    requires
        spec_tx_wf(m),
    ensures
        spec_parse_tx(spec_ser_tx(m)) matches Some(p) && p.0 == m && spec_tx_id(p.0) == spec_tx_id(
            m,
        ),
{
    lemma_tx_codec_round_trip(m, Seq::empty());
    assert(spec_ser_tx(m) + Seq::<u8>::empty() =~= spec_ser_tx(m));
}

/// Read 32 bytes of `data` starting at `pos` into a fixed hash.
fn read_hash32(data: &[u8], pos: usize) -> (r: [u8; 32])
    requires
        pos + 32 <= data@.len(),
    ensures
        r@ == data@.subrange(pos as int, pos + 32),
{
    let n = data.len();
    let mut h = [0u8; 32];
    let mut k: usize = 0;
    while k < 32
        invariant
            k <= 32,
            n == data@.len(),
            pos + 32 <= n,
            forall|t: int| 0 <= t < k ==> h@[t] == data@[pos + t],
        decreases 32 - k,
    {
        h[k] = *vstd::slice::slice_index_get(data, pos + k);
        k += 1;
    }
    proof {
        assert(h@ =~= data@.subrange(pos as int, pos + 32));
    }
    h
}

/// Parse one input at `pos`; returns the input and the position past it.
fn parse_input(data: &[u8], pos: usize) -> (r: Option<(TxInput, usize)>)
    requires
        pos <= data@.len(),
    ensures
        match r {
            Some((input, end)) => {
                &&& spec_parse_input(data@.skip(pos as int)) == Some((input@, end - pos))
                &&& pos < end <= data@.len()
            },
            None => spec_parse_input(data@.skip(pos as int)) is None,
        },
{
    let n = data.len();
    let ghost s = data@.skip(pos as int);
    if n - pos < 36 {
        return None;
    }
    let hash = read_hash32(data, pos);
    let idx_bytes = vstd::slice::slice_subrange(data, pos + 32, pos + 36);
    let prev_index = u32_from_le_bytes(idx_bytes);
    proof {
        assert(hash@ =~= s.subrange(0, 32));
        assert(idx_bytes@ =~= s.subrange(32, 36));
        assert(s.skip(36) =~= data@.skip(pos + 36));
    }
    match decode_varint(data, pos + 36) {
        None => None,
        Some((slen, vend)) => {
            if ((n - vend) as u64) < slen {
                return None;
            }
            let slen_us = slen as usize;
            if n - vend - slen_us < 4 {
                return None;
            }
            let script_sig = vstd::slice::slice_to_vec(
                vstd::slice::slice_subrange(data, vend, vend + slen_us),
            );
            let seq_bytes = vstd::slice::slice_subrange(data, vend + slen_us, vend + slen_us + 4);
            let sequence = u32_from_le_bytes(seq_bytes);
            let end = vend + slen_us + 4;
            let input = TxInput {
                prevout: OutPoint { hash, index: prev_index },
                script_sig,
                sequence,
            };
            proof {
                let start = 36 + (vend - pos - 36);
                assert(script_sig@ =~= s.subrange(vend - pos, vend - pos + slen as int));
                assert(seq_bytes@ =~= s.subrange(
                    vend - pos + slen as int,
                    vend - pos + slen as int + 4,
                ));
            }
            Some((input, end))
        },
    }
}

/// Parse one output at `pos`; returns the output and the position past it.
fn parse_output(data: &[u8], pos: usize) -> (r: Option<(TxOutput, usize)>)
    requires
        pos <= data@.len(),
    ensures
        match r {
            Some((output, end)) => {
                &&& spec_parse_output(data@.skip(pos as int)) == Some((output@, end - pos))
                &&& pos < end <= data@.len()
            },
            None => spec_parse_output(data@.skip(pos as int)) is None,
        },
{
    let n = data.len();
    let ghost s = data@.skip(pos as int);
    if n - pos < 8 {
        return None;
    }
    let val_bytes = vstd::slice::slice_subrange(data, pos, pos + 8);
    let value = u64_from_le_bytes(val_bytes);
    proof {
        assert(val_bytes@ =~= s.subrange(0, 8));
        assert(s.skip(8) =~= data@.skip(pos + 8));
    }
    match decode_varint(data, pos + 8) {
        None => None,
        Some((slen, vend)) => {
            if ((n - vend) as u64) < slen {
                return None;
            }
            let slen_us = slen as usize;
            let script_pubkey = vstd::slice::slice_to_vec(
                vstd::slice::slice_subrange(data, vend, vend + slen_us),
            );
            let end = vend + slen_us;
            let output = TxOutput { value, script_pubkey };
            proof {
                assert(script_pubkey@ =~= s.subrange(vend - pos, vend - pos + slen as int));
            }
            Some((output, end))
        },
    }
}

/// Parse a transaction from the front of `data`; bytes past the encoded
/// transaction are ignored.
#[verifier::loop_isolation(false)]
pub fn deserialize_transaction(data: &[u8]) -> (r: Option<Transaction>)
    ensures
        match spec_parse_tx(data@) {
            Some((m, k)) => r matches Some(t) && t@ == m,
            None => r is None,
        },
{
    let n = data.len();
    if n < 4 {
        return None;
    }
    let ver_bytes = vstd::slice::slice_subrange(data, 0, 4);
    let version = u32_from_le_bytes(ver_bytes) as i32;
    proof {
        assert(ver_bytes@ =~= data@.subrange(0, 4));
    }
    let (n_in, p1) = match decode_varint(data, 4) {
        None => {
            return None;
        },
        Some(v) => v,
    };
    let mut inputs: Vec<TxInput> = Vec::new();
    let mut pos = p1;
    let mut i: u64 = 0;
    while i < n_in
        invariant
            pos <= data@.len(),
            i <= n_in,
            match spec_parse_inputs(data@.skip(pos as int), (n_in - i) as u64) {
                Some((s2, k2)) => spec_parse_inputs(data@.skip(p1 as int), n_in) == Some(
                    (inputs.deep_view() + s2, (pos - p1) + k2),
                ),
                None => spec_parse_inputs(data@.skip(p1 as int), n_in) is None,
            },
        decreases n_in - i,
    {
        match parse_input(data, pos) {
            None => {
                proof {
                    assert(spec_parse_inputs(data@.skip(pos as int), (n_in - i) as u64) is None);
                    assert(spec_parse_inputs(data@.skip(p1 as int), n_in) is None);
                    assert(data@.skip(4 + (p1 as int - 4)) =~= data@.skip(p1 as int));
                    assert(spec_parse_tx(data@) is None);
                }
                return None;
            },
            Some((input, end)) => {
                let ghost pre_dv = inputs.deep_view();
                proof {
                    assert(data@.skip(pos as int).skip(end - pos) =~= data@.skip(end as int));
                    match spec_parse_inputs(data@.skip(end as int), (n_in - i - 1) as u64) {
                        Some((s3, k3)) => {
                            assert(pre_dv + (seq![input@] + s3) =~= (pre_dv + seq![input@]) + s3);
                        },
                        None => {},
                    }
                }
                inputs.push(input);
                proof {
                    assert(inputs.deep_view() =~= pre_dv + seq![input@]);
                }
                pos = end;
                i += 1;
            },
        }
    }
    let ghost inputs_model = inputs.deep_view();
    proof {
        assert(spec_parse_inputs(data@.skip(p1 as int), n_in) == Some(
            (inputs_model, pos - p1 as int),
        ));
    }
    let (n_out, p3) = match decode_varint(data, pos) {
        None => {
            return None;
        },
        Some(v) => v,
    };
    let mut outputs: Vec<TxOutput> = Vec::new();
    let mut opos = p3;
    let mut j: u64 = 0;
    while j < n_out
        invariant
            opos <= data@.len(),
            j <= n_out,
            match spec_parse_outputs(data@.skip(opos as int), (n_out - j) as u64) {
                Some((s2, k2)) => spec_parse_outputs(data@.skip(p3 as int), n_out) == Some(
                    (outputs.deep_view() + s2, (opos - p3) + k2),
                ),
                None => spec_parse_outputs(data@.skip(p3 as int), n_out) is None,
            },
        decreases n_out - j,
    {
        match parse_output(data, opos) {
            None => {
                proof {
                    assert(spec_parse_outputs(data@.skip(opos as int), (n_out - j) as u64) is None);
                    assert(spec_parse_outputs(data@.skip(p3 as int), n_out) is None);
                    assert(data@.skip(4 + (p1 as int - 4)) =~= data@.skip(p1 as int));
                    assert(data@.skip(4 + (p1 as int - 4) + (pos as int - p1 as int)) =~= data@.skip(
                        pos as int,
                    ));
                    assert(data@.skip(pos as int + (p3 as int - pos as int)) =~= data@.skip(
                        p3 as int,
                    ));
                    assert(spec_parse_tx(data@) is None);
                }
                return None;
            },
            Some((output, end)) => {
                let ghost pre_dv = outputs.deep_view();
                proof {
                    assert(data@.skip(opos as int).skip(end - opos) =~= data@.skip(end as int));
                    match spec_parse_outputs(data@.skip(end as int), (n_out - j - 1) as u64) {
                        Some((s3, k3)) => {
                            assert(pre_dv + (seq![output@] + s3) =~= (pre_dv + seq![output@]) + s3);
                        },
                        None => {},
                    }
                }
                outputs.push(output);
                proof {
                    assert(outputs.deep_view() =~= pre_dv + seq![output@]);
                }
                opos = end;
                j += 1;
            },
        }
    }
    let ghost outputs_model = outputs.deep_view();
    proof {
        assert(spec_parse_outputs(data@.skip(p3 as int), n_out) == Some(
            (outputs_model, opos - p3 as int),
        ));
    }
    proof {
        assert(data@.skip(4 + (p1 as int - 4)) =~= data@.skip(p1 as int));
        assert(data@.skip(4 + (p1 as int - 4) + (pos as int - p1 as int)) =~= data@.skip(
            pos as int,
        ));
        assert(data@.skip(pos as int + (p3 as int - pos as int)) =~= data@.skip(p3 as int));
    }
    if n - opos < 4 {
        return None;
    }
    let lock_bytes = vstd::slice::slice_subrange(data, opos, opos + 4);
    let lock_time = u32_from_le_bytes(lock_bytes);
    proof {
        assert(lock_bytes@ =~= data@.subrange(opos as int, opos as int + 4));
    }
    Some(Transaction { version, inputs, outputs, lock_time })
}

/// The byte count one input contributes to the canonical size.
pub open spec fn spec_input_size(m: TxInModel) -> int {
    32 + 4 + spec_varint_len(m.script_sig.len() as u64) + m.script_sig.len() + 4
}

/// The byte count of a sequence of inputs.
pub open spec fn spec_inputs_size(s: Seq<TxInModel>) -> int
    decreases s.len(),
{
    if s.len() == 0 {
        0
    } else {
        spec_inputs_size(s.drop_last()) + spec_input_size(s.last())
    }
}

/// The byte count one output contributes to the canonical size.
pub open spec fn spec_output_size(m: TxOutModel) -> int {
    8 + spec_varint_len(m.script_pubkey.len() as u64) + m.script_pubkey.len()
}

/// The byte count of a sequence of outputs.
pub open spec fn spec_outputs_size(s: Seq<TxOutModel>) -> int
    decreases s.len(),
{
    if s.len() == 0 {
        0
    } else {
        spec_outputs_size(s.drop_last()) + spec_output_size(s.last())
    }
}

/// The canonical serialized size of a transaction, varint widths included.
pub open spec fn spec_tx_size(m: TxModel) -> int {
    4 + spec_varint_len(m.inputs.len() as u64) + spec_inputs_size(m.inputs) + spec_varint_len(
        m.outputs.len() as u64,
    ) + spec_outputs_size(m.outputs) + 4
}

proof fn lemma_inputs_size_nonneg(s: Seq<TxInModel>)
    ensures
        spec_inputs_size(s) >= 0,
    decreases s.len(),
{
    if s.len() > 0 {
        lemma_inputs_size_nonneg(s.drop_last());
    }
}

proof fn lemma_outputs_size_nonneg(s: Seq<TxOutModel>)
    ensures
        spec_outputs_size(s) >= 0,
    decreases s.len(),
{
    if s.len() > 0 {
        lemma_outputs_size_nonneg(s.drop_last());
    }
}

proof fn lemma_inputs_size_prefix(s: Seq<TxInModel>, i: int)
    requires
        0 <= i <= s.len(),
    ensures
        spec_inputs_size(s.take(i)) <= spec_inputs_size(s),
        spec_inputs_size(s.take(i)) >= 0,
    decreases s.len() - i,
{
    lemma_inputs_size_nonneg(s.take(i));
    if i == s.len() {
        assert(s.take(i) =~= s);
    } else {
        lemma_inputs_size_prefix(s, i + 1);
        assert(s.take(i + 1).drop_last() =~= s.take(i));
        assert(s.take(i + 1).last() == s[i]);
    }
}

proof fn lemma_outputs_size_prefix(s: Seq<TxOutModel>, i: int)
    requires
        0 <= i <= s.len(),
    ensures
        spec_outputs_size(s.take(i)) <= spec_outputs_size(s),
        spec_outputs_size(s.take(i)) >= 0,
    decreases s.len() - i,
{
    lemma_outputs_size_nonneg(s.take(i));
    if i == s.len() {
        assert(s.take(i) =~= s);
    } else {
        lemma_outputs_size_prefix(s, i + 1);
        assert(s.take(i + 1).drop_last() =~= s.take(i));
        assert(s.take(i + 1).last() == s[i]);
    }
}

/// How many bytes the varint of `value` takes.
fn varint_size(value: u64) -> (r: u64)
    ensures
        r == spec_varint_len(value),
{
    if value < 0xfd {
        1
    } else if value <= 0xffff {
        3
    } else if value <= 0xffff_ffff {
        5
    } else {
        9
    }
}

/// The canonical serialized size of the transaction, varint widths included.
pub fn calculate_tx_size(tx: &Transaction) -> (r: u32)
    requires
        spec_tx_size(tx@) <= u32::MAX,
    ensures
        r == spec_tx_size(tx@),
{
    let ghost m = tx@;
    let n_in = tx.inputs.len();
    let n_out = tx.outputs.len();
    let base: u64 = 4 + varint_size(n_in as u64);
    let mut size: u64 = base;
    let mut i: usize = 0;
    proof {
        lemma_inputs_size_prefix(m.inputs, 0);
        assert(m.inputs.take(0) =~= Seq::<TxInModel>::empty());
    }
    while i < n_in
        invariant
            n_in == tx.inputs@.len(),
            i <= n_in,
            size == base + spec_inputs_size(m.inputs.take(i as int)),
            base == 4 + spec_varint_len(m.inputs.len() as u64),
            m == tx@,
            spec_tx_size(m) <= u32::MAX,
        decreases n_in - i,
    {
        let input = &tx.inputs[i];
        let slen = input.script_sig.len() as u64;
        let vl = varint_size(slen);
        proof {
            lemma_inputs_size_prefix(m.inputs, i + 1);
            lemma_outputs_size_prefix(m.outputs, m.outputs.len() as int);
            assert(m.outputs.take(m.outputs.len() as int) =~= m.outputs);
            assert(m.inputs.take(i + 1).drop_last() =~= m.inputs.take(i as int));
            assert(m.inputs.take(i + 1).last() == m.inputs[i as int]);
        }
        size = size + 32 + 4 + vl + slen + 4;
        i += 1;
    }
    proof {
        assert(m.inputs.take(n_in as int) =~= m.inputs);
    }
    let vout = varint_size(n_out as u64);
    proof {
        lemma_outputs_size_prefix(m.outputs, m.outputs.len() as int);
        assert(m.outputs.take(m.outputs.len() as int) =~= m.outputs);
        lemma_outputs_size_prefix(m.outputs, 0);
        assert(m.outputs.take(0) =~= Seq::<TxOutModel>::empty());
    }
    let mid: u64 = size + vout;
    let mut osize: u64 = mid;
    let mut j: usize = 0;
    while j < n_out
        invariant
            n_out == tx.outputs@.len(),
            j <= n_out,
            osize == mid + spec_outputs_size(m.outputs.take(j as int)),
            mid == 4 + spec_varint_len(m.inputs.len() as u64) + spec_inputs_size(m.inputs)
                + spec_varint_len(m.outputs.len() as u64),
            m == tx@,
            spec_tx_size(m) <= u32::MAX,
        decreases n_out - j,
    {
        let output = &tx.outputs[j];
        let slen = output.script_pubkey.len() as u64;
        let vl = varint_size(slen);
        proof {
            lemma_outputs_size_prefix(m.outputs, j + 1);
            assert(m.outputs.take(j + 1).drop_last() =~= m.outputs.take(j as int));
            assert(m.outputs.take(j + 1).last() == m.outputs[j as int]);
        }
        osize = osize + 8 + vl + slen;
        j += 1;
    }
    proof {
        assert(m.outputs.take(n_out as int) =~= m.outputs);
    }
    (osize + 4) as u32
}

/// Whether the transaction's canonical size is small enough for the
/// index's 32-bit size and weight fields: four times the size must fit a
/// `u32`. Unlike `calculate_tx_size`, this test asks nothing of its
/// caller.
#[verifier::loop_isolation(false)]
pub fn tx_size_within_limit(tx: &Transaction) -> (r: bool)
    ensures
        r == (spec_tx_size(tx@) * 4 <= 0xffff_ffff),
{
    let ghost m = tx@;
    let limit: u64 = 0x3fff_ffff;
    proof {
        lemma_inputs_size_prefix(m.inputs, m.inputs.len() as int);
        assert(m.inputs.take(m.inputs.len() as int) =~= m.inputs);
        lemma_outputs_size_prefix(m.outputs, m.outputs.len() as int);
        assert(m.outputs.take(m.outputs.len() as int) =~= m.outputs);
        assert(m.inputs.take(0) =~= Seq::<TxInModel>::empty());
        assert(m.outputs.take(0) =~= Seq::<TxOutModel>::empty());
    }
    let n_in = tx.inputs.len();
    let n_out = tx.outputs.len();
    let base: u64 = 4 + varint_size(n_in as u64);
    let mut acc: u64 = base;
    if acc > limit {
        return false;
    }
    let mut i: usize = 0;
    while i < n_in
        invariant
            i <= n_in,
            acc == base + spec_inputs_size(m.inputs.take(i as int)),
            acc <= limit,
        decreases n_in - i,
    {
        let input = &tx.inputs[i];
        let slen = input.script_sig.len() as u64;
        let vl = varint_size(slen);
        proof {
            lemma_inputs_size_prefix(m.inputs, i + 1);
            assert(m.inputs.take(i + 1).drop_last() =~= m.inputs.take(i as int));
            assert(m.inputs.take(i + 1).last() == m.inputs[i as int]);
        }
        if slen > limit || acc + 40 + vl + slen > limit {
            proof {
                assert(spec_inputs_size(m.inputs.take(i + 1)) <= spec_inputs_size(m.inputs));
            }
            return false;
        }
        acc = acc + 40 + vl + slen;
        i += 1;
    }
    proof {
        assert(m.inputs.take(n_in as int) =~= m.inputs);
    }
    let vout = varint_size(n_out as u64);
    if acc + vout > limit {
        return false;
    }
    acc = acc + vout;
    let ghost mid = 4 + spec_varint_len(m.inputs.len() as u64) + spec_inputs_size(m.inputs)
        + spec_varint_len(m.outputs.len() as u64);
    let mut j: usize = 0;
    while j < n_out
        invariant
            j <= n_out,
            acc == mid + spec_outputs_size(m.outputs.take(j as int)),
            acc <= limit,
        decreases n_out - j,
    {
        let output = &tx.outputs[j];
        let slen = output.script_pubkey.len() as u64;
        let vl = varint_size(slen);
        proof {
            lemma_outputs_size_prefix(m.outputs, j + 1);
            assert(m.outputs.take(j + 1).drop_last() =~= m.outputs.take(j as int));
            assert(m.outputs.take(j + 1).last() == m.outputs[j as int]);
        }
        if slen > limit || acc + 8 + vl + slen > limit {
            proof {
                assert(spec_outputs_size(m.outputs.take(j + 1)) <= spec_outputs_size(m.outputs));
            }
            return false;
        }
        acc = acc + 8 + vl + slen;
        j += 1;
    }
    proof {
        assert(m.outputs.take(n_out as int) =~= m.outputs);
    }
    acc + 4 <= limit
}

/// The transaction weight: four times the canonical size.
pub fn calculate_tx_weight(tx: &Transaction) -> (r: u32)
    requires
        spec_tx_size(tx@) * 4 <= u32::MAX,
    ensures
        r == spec_tx_size(tx@) * 4,
{
    proof {
        lemma_inputs_size_prefix(tx@.inputs, tx@.inputs.len() as int);
        assert(tx@.inputs.take(tx@.inputs.len() as int) =~= tx@.inputs);
        lemma_outputs_size_prefix(tx@.outputs, tx@.outputs.len() as int);
        assert(tx@.outputs.take(tx@.outputs.len() as int) =~= tx@.outputs);
    }
    let size = calculate_tx_size(tx);
    size * 4
}

/// Mathematical model of a block header.
pub ghost struct BlockHeaderModel {
    pub version: i32,
    pub prev_block_hash: Seq<u8>,
    pub merkle_root: Seq<u8>,
    pub timestamp: u32,
    pub bits: u32,
    pub nonce: u32,
}

impl View for BlockHeader {
    type V = BlockHeaderModel;

    open spec fn view(&self) -> BlockHeaderModel {
        BlockHeaderModel {
            version: self.version,
            prev_block_hash: self.prev_block_hash@,
            merkle_root: self.merkle_root@,
            timestamp: self.timestamp,
            bits: self.bits,
            nonce: self.nonce,
        }
    }
}

/// The 80-byte wire layout of a block header.
pub open spec fn spec_ser_header(m: BlockHeaderModel) -> Seq<u8> {
    spec_u32_to_le_bytes(m.version as u32) + m.prev_block_hash + m.merkle_root
        + spec_u32_to_le_bytes(m.timestamp) + spec_u32_to_le_bytes(m.bits) + spec_u32_to_le_bytes(
        m.nonce,
    )
}

/// Serialize a block header into its wire bytes.
pub fn serialize_block_header(h: &BlockHeader) -> (r: Vec<u8>)
    ensures
        r@ == spec_ser_header(h@),
{
    let mut out = u32_to_le_bytes(h.version as u32);
    let mut prev = vstd::slice::slice_to_vec(h.prev_block_hash.as_slice());
    out.append(&mut prev);
    let mut merkle = vstd::slice::slice_to_vec(h.merkle_root.as_slice());
    out.append(&mut merkle);
    let mut ts = u32_to_le_bytes(h.timestamp);
    out.append(&mut ts);
    let mut bits = u32_to_le_bytes(h.bits);
    out.append(&mut bits);
    let mut nonce = u32_to_le_bytes(h.nonce);
    out.append(&mut nonce);
    proof {
        assert(out@ =~= spec_ser_header(h@));
    }
    out
}

} // verus!
