//! TLV framing for Stratum V2 frames.
//!
//! A frame on the wire is `tag: u16 LE ‖ length: u32 LE ‖ payload`, so the
//! header takes six bytes and the payload the announced length.

use vstd::prelude::*;
use vstd::bytes::*;
use vstd::slice::{slice_subrange, slice_to_vec};

verus! {

/// Errors of the TLV codec.
#[derive(Debug, Clone, Copy, PartialEq, Eq, Structural)]
pub enum TlvError {
    /// Fewer bytes than the six-byte header or the announced payload length
    /// require.
    InsufficientData,
    /// A frame that cannot be formed: the payload is longer than the length
    /// field can hold.
    MalformedFrame,
}

/// The framed bytes of `(tag, payload)`.
pub open spec fn spec_tlv_frame(tag: u16, payload: Seq<u8>) -> Seq<u8> {
    spec_u16_to_le_bytes(tag) + spec_u32_to_le_bytes(payload.len() as u32) + payload
}

/// What decoding the front of `s` yields: the tag and payload, or nothing if
/// `s` is shorter than the header plus the announced length.
pub open spec fn spec_tlv_decode(s: Seq<u8>) -> Option<(u16, Seq<u8>)> {
    if s.len() < 6 {
        None
    } else {
        let tag = spec_u16_from_le_bytes(s.subrange(0, 2));
        let len = spec_u32_from_le_bytes(s.subrange(2, 6)) as int;
        if s.len() < 6 + len {
            None
        } else {
            Some((tag, s.subrange(6, 6 + len)))
        }
    }
}

/// Decoding undoes encoding, for every tag and every payload that fits the
/// length field.
pub proof fn lemma_tlv_round_trip(tag: u16, payload: Seq<u8>)
    requires
        payload.len() <= 0xffff_ffff,
    ensures
        spec_tlv_decode(spec_tlv_frame(tag, payload)) == Some((tag, payload)),
{
    lemma_auto_spec_u16_to_from_le_bytes();
    lemma_auto_spec_u32_to_from_le_bytes();
    let s = spec_tlv_frame(tag, payload);
    assert(s.subrange(0, 2) =~= spec_u16_to_le_bytes(tag));
    assert(s.subrange(2, 6) =~= spec_u32_to_le_bytes(payload.len() as u32));
    assert(s.subrange(6, 6 + payload.len() as int) =~= payload);
}

/// Encoder for TLV frames.
pub struct TlvEncoder {}

impl TlvEncoder {
    /// A fresh encoder.
    pub fn new() -> (r: TlvEncoder) {
        TlvEncoder {  }
    }

    /// Frame `(tag, payload)` for the wire.
    pub fn encode(&mut self, tag: u16, payload: &[u8]) -> (r: Result<Vec<u8>, TlvError>)
        ensures
            payload@.len() <= 0xffff_ffff ==> (r matches Ok(v) && v@ == spec_tlv_frame(
                tag,
                payload@,
            )),
            payload@.len() > 0xffff_ffff ==> r == Err::<Vec<u8>, TlvError>(
                TlvError::MalformedFrame,
            ),
    {
        if payload.len() > 0xffff_ffff {
            return Err(TlvError::MalformedFrame);
        }
        let mut out = u16_to_le_bytes(tag);
        let mut len_bytes = u32_to_le_bytes(payload.len() as u32);
        out.append(&mut len_bytes);
        let mut body = slice_to_vec(payload);
        out.append(&mut body);
        Ok(out)
    }
}

/// Decoder that holds a buffer and advances past each decoded frame.
pub struct TlvDecoder {
    data: Vec<u8>,
    pos: usize,
}

impl TlvDecoder {
    /// The bytes not yet decoded.
    pub closed spec fn remaining(&self) -> Seq<u8> {
        self.data@.skip(self.pos as int)
    }

    /// The cursor never passes the end of the buffer.
    pub closed spec fn wf(&self) -> bool {
        self.pos <= self.data@.len()
    }

    /// A decoder over `data`, positioned at its start.
    pub fn new(data: Vec<u8>) -> (r: TlvDecoder)
        ensures
            r.wf(),
            r.remaining() == data@,
    {
        let r = TlvDecoder { data, pos: 0 };
        proof {
            assert(r.remaining() =~= r.data@);
        }
        r
    }

    /// Decode one frame from a raw buffer.
    pub fn decode_raw(data: &[u8]) -> (r: Result<(u16, Vec<u8>), TlvError>)
        ensures
            match r {
                Ok((tag, payload)) => spec_tlv_decode(data@) == Some((tag, payload@)),
                Err(e) => e == TlvError::InsufficientData && spec_tlv_decode(data@) is None,
            },
    {
        if data.len() < 6 {
            return Err(TlvError::InsufficientData);
        }
        let tag_bytes = slice_subrange(data, 0, 2);
        let tag = u16_from_le_bytes(tag_bytes);
        let len_bytes = slice_subrange(data, 2, 6);
        let len32 = u32_from_le_bytes(len_bytes);
        let len = len32 as usize;
        proof {
            assert(tag_bytes@ =~= data@.subrange(0, 2));
            assert(len_bytes@ =~= data@.subrange(2, 6));
        }
        if data.len() - 6 < len {
            return Err(TlvError::InsufficientData);
        }
        let payload = slice_to_vec(slice_subrange(data, 6, 6 + len));
        Ok((tag, payload))
    }

    /// Decode the frame at the cursor and advance past it.
    pub fn decode(&mut self) -> (r: Result<(u16, Vec<u8>), TlvError>)
        requires
            old(self).wf(),
        ensures
            final(self).wf(),
            match r {
                Ok((tag, payload)) => {
                    &&& spec_tlv_decode(old(self).remaining()) == Some((tag, payload@))
                    &&& final(self).remaining() == old(self).remaining().skip(6 + payload@.len() as int)
                },
                Err(e) => {
                    &&& e == TlvError::InsufficientData
                    &&& spec_tlv_decode(old(self).remaining()) is None
                    &&& *final(self) == *old(self)
                },
            },
    {
        let ghost pre = *self;
        let rest = slice_subrange(self.data.as_slice(), self.pos, self.data.len());
        proof {
            assert(rest@ =~= pre.remaining());
        }
        match Self::decode_raw(rest) {
            Ok((tag, payload)) => {
                let consumed = 6 + payload.len();
                proof {
                    assert(pre.remaining().len() >= 6 + payload@.len());
                }
                self.pos = self.pos + consumed;
                proof {
                    assert(self.remaining() =~= pre.remaining().skip(6 + payload@.len() as int));
                }
                Ok((tag, payload))
            },
            Err(e) => Err(e),
        }
    }
}

} // verus!
