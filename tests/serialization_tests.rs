use river::serialization::decode;
use river::serialization::encode;
use river::serialization::is_encodable;
use river::serialization::CodecError;
use river::serialization::ControlMessage;
use river::serialization::ErrorInfo;
use river::serialization::Frame;
use river::serialization::Payload;

fn frame(payload: Payload) -> Frame {
    Frame { sequence: 0x0102_0304_0506_0708, timestamp: 42, payload }
}

fn all_frames() -> Vec<Frame> {
    vec![
        frame(Payload::Data(vec![])),
        frame(Payload::Data(vec![0, 1, 2, 255])),
        frame(Payload::Float32Array(vec![])),
        frame(Payload::Float32Array(vec![1.5f32.to_bits(), (-0.25f32).to_bits(), f32::NAN.to_bits()])),
        frame(Payload::Control(ControlMessage::Credit(u32::MAX))),
        frame(Payload::Control(ControlMessage::Ack(u64::MAX))),
        frame(Payload::Control(ControlMessage::Pause)),
        frame(Payload::Control(ControlMessage::Resume)),
        frame(Payload::Control(ControlMessage::Complete)),
        frame(Payload::Control(ControlMessage::Subscribe { stream_id: "stream-1".to_string() })),
        frame(Payload::Control(ControlMessage::Unsubscribe { stream_id: "ストリーム".to_string() })),
        frame(Payload::Error(ErrorInfo { code: 7, message: "boom ✓".to_string(), recoverable: true })),
        frame(Payload::Error(ErrorInfo { code: 0, message: String::new(), recoverable: false })),
    ]
}

#[test]
fn round_trip_every_variant() {
    for f in all_frames() {
        assert!(is_encodable(&f));
        let bytes = encode(&f).unwrap();
        assert_eq!(decode(&bytes), Ok(f.clone()));
    }
}

#[test]
fn exact_bytes_of_a_credit_frame() {
    let f = Frame { sequence: 1, timestamp: 2, payload: Payload::Control(ControlMessage::Credit(0x0a0b0c0d)) };
    let bytes = encode(&f).unwrap();
    assert_eq!(
        bytes,
        vec![1, 0, 0, 0, 0, 0, 0, 0, 2, 0, 0, 0, 0, 0, 0, 0, 2, 0, 0x0d, 0x0c, 0x0b, 0x0a]
    );
}

#[test]
fn exact_bytes_of_an_error_frame() {
    let f = Frame {
        sequence: 0,
        timestamp: 0,
        payload: Payload::Error(ErrorInfo { code: 1, message: "é".to_string(), recoverable: true }),
    };
    let bytes = encode(&f).unwrap();
    let mut want = vec![0u8; 16];
    want.extend_from_slice(&[3, 1, 0, 0, 0, 2, 0, 0, 0, 0xc3, 0xa9, 1]);
    assert_eq!(bytes, want);
}

#[test]
fn decode_rejects_every_truncation() {
    for f in all_frames() {
        let bytes = encode(&f).unwrap();
        for cut in 0..bytes.len() {
            assert_eq!(decode(&bytes[..cut]), Err(CodecError::TruncatedInput));
        }
    }
}

#[test]
fn decode_rejects_trailing_bytes() {
    let mut bytes = encode(&frame(Payload::Control(ControlMessage::Pause))).unwrap();
    bytes.push(0);
    assert_eq!(decode(&bytes), Err(CodecError::TrailingBytes));
}

#[test]
fn decode_rejects_unknown_tags() {
    let mut bytes = vec![0u8; 16];
    bytes.push(9);
    assert_eq!(decode(&bytes), Err(CodecError::UnknownDiscriminant));
    let mut bytes = vec![0u8; 16];
    bytes.extend_from_slice(&[2, 7]);
    assert_eq!(decode(&bytes), Err(CodecError::UnknownDiscriminant));
}

#[test]
fn decode_rejects_invalid_text_and_flag() {
    let mut bytes = vec![0u8; 16];
    bytes.extend_from_slice(&[2, 5, 2, 0, 0, 0, 0xff, 0xfe]);
    assert_eq!(decode(&bytes), Err(CodecError::TypeMismatch));
    let mut bytes = vec![0u8; 16];
    bytes.extend_from_slice(&[3, 0, 0, 0, 0, 0, 0, 0, 0, 2]);
    assert_eq!(decode(&bytes), Err(CodecError::TypeMismatch));
}

#[test]
fn decode_empty_input() {
    assert_eq!(decode(&[]), Err(CodecError::TruncatedInput));
}
