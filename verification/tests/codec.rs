use broadcast_relay::codec::encode_frame;
use broadcast_relay::codec::copy_payload;
use broadcast_relay::codec::FrameDecoder;

#[test]
fn encode_two_byte_payload() {
    let f = encode_frame(&vec![0x01, 0x02]);
    assert_eq!(f, vec![0x02, 0x01, 0x02]);
}

#[test]
fn encode_empty_payload() {
    let f = encode_frame(&Vec::new());
    assert_eq!(f, vec![0x00]);
}

#[test]
fn encode_max_payload() {
    let p = vec![0xab; 255];
    let f = encode_frame(&p);
    assert_eq!(f.len(), 256);
    assert_eq!(f[0], 255);
    assert_eq!(&f[1..], &p[..]);
}

#[test]
fn copy_payload_is_exact() {
    let p = vec![1u8, 2, 3, 250];
    assert_eq!(copy_payload(&p), p);
}

#[test]
fn round_trip_small_payload() {
    let p = vec![9u8, 8, 7];
    let mut d = FrameDecoder::new();
    d.push_bytes(&encode_frame(&p));
    assert_eq!(d.next_frame(), Some(p));
    assert_eq!(d.next_frame(), None);
}

#[test]
fn round_trip_empty_payload() {
    let mut d = FrameDecoder::new();
    d.push_bytes(&encode_frame(&Vec::new()));
    assert_eq!(d.next_frame(), Some(Vec::new()));
    assert_eq!(d.next_frame(), None);
}

#[test]
fn round_trip_max_payload() {
    let p = vec![0x5a; 255];
    let mut d = FrameDecoder::new();
    d.push_bytes(&encode_frame(&p));
    assert_eq!(d.next_frame(), Some(p));
    assert_eq!(d.next_frame(), None);
}

#[test]
fn truncated_frame_is_never_handed_out() {
    // A frame that declares 200 bytes but only 50 arrive before the stream
    // ends: the decoder keeps waiting and forwards nothing.
    let mut d = FrameDecoder::new();
    let mut bytes = vec![200u8];
    bytes.extend_from_slice(&[0u8; 50]);
    d.push_bytes(&bytes);
    assert!(!d.has_frame());
    assert_eq!(d.next_frame(), None);
}

#[test]
fn split_frame_completes_when_rest_arrives() {
    let mut d = FrameDecoder::new();
    d.push_bytes(&vec![3u8, 1]);
    assert_eq!(d.next_frame(), None);
    d.push_bytes(&vec![2u8, 3]);
    assert!(d.has_frame());
    assert_eq!(d.next_frame(), Some(vec![1u8, 2, 3]));
}

#[test]
fn two_frames_in_one_chunk_come_out_in_order() {
    let mut b = encode_frame(&vec![1u8]);
    b.extend_from_slice(&encode_frame(&vec![2u8, 3]));
    let mut d = FrameDecoder::new();
    d.push_bytes(&b);
    assert_eq!(d.next_frame(), Some(vec![1u8]));
    assert_eq!(d.next_frame(), Some(vec![2u8, 3]));
    assert_eq!(d.next_frame(), None);
}

#[test]
fn zero_length_frame_decodes_to_empty_payload() {
    let mut d = FrameDecoder::new();
    d.push_bytes(&vec![0u8]);
    assert_eq!(d.next_frame(), Some(Vec::new()));
}
