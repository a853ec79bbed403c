use scene_sync::codec::{DecodeStep, KIND_GO, KIND_LWW, WireRecord, build_lww_payload,
    decode_record, encode_record, split_lww_payload};
use scene_sync::entity_id::SceneEntityId;

fn record(id: u16, generation: u16, component: u32, kind: u8, payload: Vec<u8>) -> WireRecord {
    WireRecord { entity: SceneEntityId::new(id, generation), component, kind, payload }
}

#[test]
fn round_trip_preserves_every_field() {
    let original = record(0x1234, 0x0002, 0xCAFE_F00D, KIND_GO, vec![1, 2, 3, 4, 5]);
    let mut buf: Vec<u8> = Vec::new();
    encode_record(&original, &mut buf);
    match decode_record(&buf, 0) {
        DecodeStep::Complete(decoded, consumed) => {
            assert_eq!(decoded.entity, SceneEntityId::new(0x1234, 0x0002));
            assert_eq!(decoded.component, 0xCAFE_F00D);
            assert_eq!(decoded.kind, KIND_GO);
            assert_eq!(decoded.payload, vec![1, 2, 3, 4, 5]);
            assert_eq!(consumed, buf.len());
        }
        _ => panic!("round trip failed"),
    }
}

#[test]
fn encoding_has_the_exact_wire_shape() {
    // length=2 | entity_id=0x0102 | generation=0x0304 | component=0x05060708 | kind=1 | payload
    let rec = record(0x0102, 0x0304, 0x0506_0708, KIND_GO, vec![0xAA, 0xBB]);
    let mut buf: Vec<u8> = Vec::new();
    encode_record(&rec, &mut buf);
    assert_eq!(
        buf,
        vec![
            2, 0, 0, 0, // length, little-endian
            0x02, 0x01, // entity id
            0x04, 0x03, // generation
            0x08, 0x07, 0x06, 0x05, // component id
            1,    // record kind
            0xAA, 0xBB, // payload
        ]
    );
}

#[test]
fn records_decode_in_sequence() {
    let first = record(1, 0, 10, KIND_GO, vec![7]);
    let second = record(2, 0, 11, KIND_GO, vec![8, 9]);
    let mut buf: Vec<u8> = Vec::new();
    encode_record(&first, &mut buf);
    encode_record(&second, &mut buf);
    let pos = match decode_record(&buf, 0) {
        DecodeStep::Complete(rec, pos) => {
            assert_eq!(rec.payload, vec![7]);
            pos
        }
        _ => panic!("first record"),
    };
    match decode_record(&buf, pos) {
        DecodeStep::Complete(rec, pos2) => {
            assert_eq!(rec.payload, vec![8, 9]);
            assert_eq!(pos2, buf.len());
        }
        _ => panic!("second record"),
    }
}

#[test]
fn truncated_header_ends_the_batch_without_error() {
    let buf: Vec<u8> = vec![5, 0, 0, 0, 1, 0, 2]; // only 7 of the 13 header bytes
    assert!(matches!(decode_record(&buf, 0), DecodeStep::Incomplete));
    let empty: Vec<u8> = Vec::new();
    assert!(matches!(decode_record(&empty, 0), DecodeStep::Incomplete));
}

#[test]
fn overlong_length_prefix_is_corrupt() {
    // Header claims 200 payload bytes; only 1 follows.
    let mut buf: Vec<u8> = vec![200, 0, 0, 0, 0, 0, 0, 0, 0, 0, 0, 0, KIND_GO];
    buf.push(0xFF);
    assert!(matches!(decode_record(&buf, 0), DecodeStep::Corrupt));
}

#[test]
fn unrecognized_kind_is_corrupt() {
    let rec = record(1, 0, 10, KIND_GO, vec![1]);
    let mut buf: Vec<u8> = Vec::new();
    encode_record(&rec, &mut buf);
    buf[12] = 9; // not a known record kind
    assert!(matches!(decode_record(&buf, 0), DecodeStep::Corrupt));
}

#[test]
fn register_record_too_short_for_its_timestamp_is_corrupt() {
    // A last-write-wins record whose payload cannot hold the 8-byte timestamp.
    let mut buf: Vec<u8> = vec![4, 0, 0, 0, 1, 0, 0, 0, 5, 0, 0, 0, KIND_LWW];
    buf.extend_from_slice(&[1, 2, 3, 4]);
    assert!(matches!(decode_record(&buf, 0), DecodeStep::Corrupt));
}

#[test]
fn lww_payload_round_trips_timestamp_and_value() {
    let payload = build_lww_payload(0x0102_0304_0506_0708, &Some(vec![42, 43]));
    assert_eq!(payload.len(), 10);
    let (ts, value) = split_lww_payload(&payload);
    assert_eq!(ts, 0x0102_0304_0506_0708);
    assert_eq!(value, Some(vec![42, 43]));

    let tombstone = build_lww_payload(7, &None);
    assert_eq!(tombstone.len(), 8);
    let (ts, value) = split_lww_payload(&tombstone);
    assert_eq!(ts, 7);
    assert_eq!(value, None);
}
