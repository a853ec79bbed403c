//! The binary codec for update batches: length-prefixed, typed records with
//! a fixed 13-byte little-endian header followed by the payload.
//!
//! Decoding distinguishes "insufficient data" (the buffer ends before a full
//! record: the batch simply ends there) from "corrupt data" (a header that
//! asserts more payload than the buffer holds, an unrecognized record kind,
//! or a register record too short for its timestamp: the batch is rejected).

use vstd::prelude::*;

use vstd::bytes::{
    spec_u16_to_le_bytes, spec_u16_from_le_bytes, lemma_auto_spec_u16_to_from_le_bytes,
    spec_u32_to_le_bytes, spec_u32_from_le_bytes, lemma_auto_spec_u32_to_from_le_bytes,
    spec_u64_to_le_bytes, spec_u64_from_le_bytes, lemma_auto_spec_u64_to_from_le_bytes,
    u16_to_le_bytes, u16_from_le_bytes, u32_to_le_bytes, u32_from_le_bytes, u64_to_le_bytes,
    u64_from_le_bytes,
};
use vstd::slice::{slice_subrange, slice_to_vec};

use crate::entity_id::SceneEntityId;

verus! {

/// Record kind tag for a last-write-wins write.
pub const KIND_LWW: u8 = 0;

/// Record kind tag for a grow-only append.
pub const KIND_GO: u8 = 1;

/// The fixed size of a record header: payload length (4), entity id (2),
/// entity generation (2), component id (4), record kind (1).
pub const HEADER_SIZE: usize = 13;

/// One wire record, as carried in an update batch.  For a last-write-wins
/// record the payload starts with an 8-byte little-endian timestamp; a
/// payload holding nothing after the timestamp signals a deletion.
pub struct WireRecord {
    pub entity: SceneEntityId,
    pub component: u32,
    pub kind: u8,
    pub payload: Vec<u8>,
}

/// The mathematical shape of a wire record.
pub struct WireRecordV {
    pub entity: SceneEntityId,
    pub component: u32,
    pub kind: u8,
    pub payload: Seq<u8>,
}

impl View for WireRecord {
    type V = WireRecordV;

    open spec fn view(&self) -> WireRecordV {
        WireRecordV {
            entity: self.entity,
            component: self.component,
            kind: self.kind,
            payload: self.payload@,
        }
    }
}

/// A record the codec can carry: a recognized kind, room in the payload for
/// a register record's timestamp, and a payload length expressible in the
/// header's 32-bit length field.
pub open spec fn record_wf(v: WireRecordV) -> bool {
    &&& v.kind == KIND_LWW || v.kind == KIND_GO
    &&& v.kind == KIND_LWW ==> v.payload.len() >= 8
    &&& v.payload.len() <= u32::MAX
}

/// The byte encoding of one record.
pub open spec fn spec_encoding(v: WireRecordV) -> Seq<u8> {
    spec_u32_to_le_bytes(v.payload.len() as u32)
        + spec_u16_to_le_bytes(v.entity.id)
        + spec_u16_to_le_bytes(v.entity.generation)
        + spec_u32_to_le_bytes(v.component)
        + seq![v.kind]
        + v.payload
}

pub open spec fn spec_encoded_len(v: WireRecordV) -> int {
    HEADER_SIZE + v.payload.len()
}

/// What one decode attempt at a position yields.
pub enum DecodeOutcomeV {
    Complete(WireRecordV, int),
    Incomplete,
    Corrupt,
}

/// The decode of one record at a position of a buffer.
pub open spec fn spec_decode(buf: Seq<u8>, pos: int) -> DecodeOutcomeV {
    if buf.len() - pos < HEADER_SIZE {
        DecodeOutcomeV::Incomplete
    } else {
        let length = spec_u32_from_le_bytes(buf.subrange(pos, pos + 4)) as int;
        let id = spec_u16_from_le_bytes(buf.subrange(pos + 4, pos + 6));
        let generation = spec_u16_from_le_bytes(buf.subrange(pos + 6, pos + 8));
        let component = spec_u32_from_le_bytes(buf.subrange(pos + 8, pos + 12));
        let kind = buf[pos + 12];
        if length > buf.len() - pos - HEADER_SIZE {
            DecodeOutcomeV::Corrupt
        } else if kind != KIND_LWW && kind != KIND_GO {
            DecodeOutcomeV::Corrupt
        } else if kind == KIND_LWW && length < 8 {
            DecodeOutcomeV::Corrupt
        } else {
            DecodeOutcomeV::Complete(
                WireRecordV {
                    entity: SceneEntityId { id, generation },
                    component,
                    kind,
                    payload: buf.subrange(pos + HEADER_SIZE, pos + HEADER_SIZE + length),
                },
                pos + HEADER_SIZE + length,
            )
        }
    }
}

/// Round trip: decoding at the start of a record's encoding yields exactly
/// the record back, whatever else follows in the buffer, and consumes
/// exactly the record's bytes.
pub proof fn lemma_round_trip(v: WireRecordV, rest: Seq<u8>)
    requires
        record_wf(v),
    ensures
        spec_decode(spec_encoding(v) + rest, 0)
            == DecodeOutcomeV::Complete(v, spec_encoded_len(v)),
{
    lemma_auto_spec_u16_to_from_le_bytes();
    lemma_auto_spec_u32_to_from_le_bytes();
    let buf = spec_encoding(v) + rest;
    let e = spec_encoding(v);
    assert(e.len() == HEADER_SIZE + v.payload.len());
    assert(buf.len() - 0 >= HEADER_SIZE);
    assert(buf.subrange(0, 4) =~= spec_u32_to_le_bytes(v.payload.len() as u32));
    assert(buf.subrange(4, 6) =~= spec_u16_to_le_bytes(v.entity.id));
    assert(buf.subrange(6, 8) =~= spec_u16_to_le_bytes(v.entity.generation));
    assert(buf.subrange(8, 12) =~= spec_u32_to_le_bytes(v.component));
    assert(buf[12] == v.kind);
    assert(spec_u32_from_le_bytes(buf.subrange(0, 4)) == v.payload.len());
    assert(buf.subrange(HEADER_SIZE as int, HEADER_SIZE + v.payload.len()) =~= v.payload);
    assert(v.entity == (SceneEntityId { id: v.entity.id, generation: v.entity.generation }));
    assert(spec_decode(buf, 0) == DecodeOutcomeV::Complete(
        WireRecordV {
            entity: SceneEntityId { id: v.entity.id, generation: v.entity.generation },
            component: v.component,
            kind: v.kind,
            payload: v.payload,
        },
        HEADER_SIZE + v.payload.len(),
    ));
    assert((WireRecordV {
        entity: SceneEntityId { id: v.entity.id, generation: v.entity.generation },
        component: v.component,
        kind: v.kind,
        payload: v.payload,
    }) == v);
}

/// Append the encoding of one record to a buffer.
pub fn encode_record(r: &WireRecord, out: &mut Vec<u8>)
    requires
        record_wf(r@),
    ensures
        final(out)@ == old(out)@ + spec_encoding(r@),
{
    let mut length_bytes = u32_to_le_bytes(r.payload.len() as u32);
    out.append(&mut length_bytes);
    let mut id_bytes = u16_to_le_bytes(r.entity.id);
    out.append(&mut id_bytes);
    let mut generation_bytes = u16_to_le_bytes(r.entity.generation);
    out.append(&mut generation_bytes);
    let mut component_bytes = u32_to_le_bytes(r.component);
    out.append(&mut component_bytes);
    out.push(r.kind);
    let mut i: usize = 0;
    let n = r.payload.len();
    let ghost with_header = out@;
    while i < n
        invariant
            n == r.payload@.len(),
            i <= n,
            out@ == with_header + r.payload@.take(i as int),
        decreases n - i,
    {
        out.push(r.payload[i]);
        proof {
            assert(out@ =~= with_header + r.payload@.take(i as int + 1));
        }
        i += 1;
    }
    proof {
        assert(r.payload@.take(n as int) =~= r.payload@);
        assert(out@ =~= old(out)@ + spec_encoding(r@));
    }
}

/// What one exec decode attempt yields.
pub enum DecodeStep {
    Complete(WireRecord, usize),
    Incomplete,
    Corrupt,
}

/// Try to decode one record at a position.  The result mirrors the
/// mathematical decode exactly: a complete record with the position just
/// past it, or the insufficient-data or corrupt-data verdict.
pub fn decode_record(buf: &Vec<u8>, pos: usize) -> (r: DecodeStep)
    requires
        pos <= buf@.len(),
    ensures
        match r {
            DecodeStep::Complete(rec, new_pos) => {
                &&& spec_decode(buf@, pos as int) == DecodeOutcomeV::Complete(rec@, new_pos as int)
                &&& record_wf(rec@)
                &&& pos < new_pos <= buf@.len()
            }
            DecodeStep::Incomplete => spec_decode(buf@, pos as int) == DecodeOutcomeV::Incomplete,
            DecodeStep::Corrupt => spec_decode(buf@, pos as int) == DecodeOutcomeV::Corrupt,
        },
{
    let total = buf.len();
    if total - pos < HEADER_SIZE {
        return DecodeStep::Incomplete;
    }
    let length_u32 = u32_from_le_bytes(slice_subrange(buf.as_slice(), pos, pos + 4));
    let id = u16_from_le_bytes(slice_subrange(buf.as_slice(), pos + 4, pos + 6));
    let generation = u16_from_le_bytes(slice_subrange(buf.as_slice(), pos + 6, pos + 8));
    let component = u32_from_le_bytes(slice_subrange(buf.as_slice(), pos + 8, pos + 12));
    let kind = buf[pos + 12];
    if length_u32 as usize > total - pos - HEADER_SIZE {
        return DecodeStep::Corrupt;
    }
    let length = length_u32 as usize;
    if kind != KIND_LWW && kind != KIND_GO {
        return DecodeStep::Corrupt;
    }
    if kind == KIND_LWW && length < 8 {
        return DecodeStep::Corrupt;
    }
    let payload = slice_to_vec(slice_subrange(buf.as_slice(), pos + HEADER_SIZE, pos + HEADER_SIZE + length));
    let rec = WireRecord { entity: SceneEntityId { id, generation }, component, kind, payload };
    DecodeStep::Complete(rec, pos + HEADER_SIZE + length)
}

/// Read the timestamp prefix and value of a last-write-wins payload: the
/// first 8 bytes are the timestamp, the rest is the value, and an empty
/// rest means a deletion.
pub fn split_lww_payload(payload: &Vec<u8>) -> (r: (u64, Option<Vec<u8>>))
    requires
        payload@.len() >= 8,
    ensures
        r.0 == spec_u64_from_le_bytes(payload@.subrange(0, 8)),
        payload@.len() == 8 ==> r.1 == None::<Vec<u8>>,
        payload@.len() > 8 ==> r.1 is Some && r.1->0@ == payload@.skip(8),
{
    let timestamp = u64_from_le_bytes(slice_subrange(payload.as_slice(), 0, 8));
    if payload.len() == 8 {
        (timestamp, None)
    } else {
        let value = slice_to_vec(slice_subrange(payload.as_slice(), 8, payload.len()));
        proof {
            assert(payload@.subrange(8, payload@.len() as int) =~= payload@.skip(8));
        }
        (timestamp, Some(value))
    }
}

/// Build a last-write-wins payload from a timestamp and an optional value:
/// the inverse of `split_lww_payload`.
pub fn build_lww_payload(timestamp: u64, value: &Option<Vec<u8>>) -> (r: Vec<u8>)
    ensures
        r@.subrange(0, 8) == spec_u64_to_le_bytes(timestamp),
        r@.len() >= 8,
        match value {
            Some(v) => r@.skip(8) == v@ && r@.len() == 8 + v@.len(),
            None => r@.len() == 8,
        },
{
    let mut out = u64_to_le_bytes(timestamp);
    match value {
        Some(v) => {
            let mut i: usize = 0;
            let n = v.len();
            let ghost ts_bytes = out@;
            while i < n
                invariant
                    n == v@.len(),
                    i <= n,
                    ts_bytes.len() == 8,
                    out@ == ts_bytes + v@.take(i as int),
                decreases n - i,
            {
                out.push(v[i]);
                proof {
                    assert(out@ =~= ts_bytes + v@.take(i as int + 1));
                }
                i += 1;
            }
            proof {
                assert(v@.take(n as int) =~= v@);
                assert(out@.subrange(0, 8) =~= ts_bytes);
                assert(out@.skip(8) =~= v@);
            }
        }
        None => {
            proof {
                assert(out@.subrange(0, 8) =~= out@);
            }
        }
    }
    out
}

/// The timestamp round trip inside a register payload: splitting a built
/// payload yields the same timestamp and value.
pub proof fn lemma_lww_payload_round_trip(timestamp: u64, value: Option<Seq<u8>>, built: Seq<u8>)
    requires
        built.subrange(0, 8) == spec_u64_to_le_bytes(timestamp),
        match value {
            Some(v) => built.skip(8) == v && built.len() == 8 + v.len(),
            None => built.len() == 8,
        },
    ensures
        spec_u64_from_le_bytes(built.subrange(0, 8)) == timestamp,
        built.len() > 8 ==> built.skip(8) == value->0,
        built.len() == 8 ==> value is None || value->0.len() == 0,
{
    lemma_auto_spec_u64_to_from_le_bytes();
}

} // verus!
