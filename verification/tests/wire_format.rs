use audiomesh::audio::AudioData;
use audiomesh::packet_layer::{
    AdvertisementPacket, PacketId, PayloadPacket, SendRequestPacket, SendablePackets,
};
use audiomesh::wire::{decode_audio, decode_packet, encode_audio, encode_packet};

#[test]
fn advertisement_round_trip() {
    let adv = AdvertisementPacket { packet: PacketId::new(-5, 200), advertiser: 123456789 };
    let bytes = encode_packet(&SendablePackets::AdvertisementPacket(adv));
    assert_eq!(bytes.len(), 18);
    match decode_packet(&bytes) {
        Some(SendablePackets::AdvertisementPacket(a)) => assert_eq!(a, adv),
        _ => panic!("advertisement must decode as itself"),
    }
}

#[test]
fn send_request_round_trip() {
    let req = SendRequestPacket { packet: PacketId::new(i64::MIN, 0) };
    let bytes = encode_packet(&SendablePackets::SendRequestPacket(req));
    assert_eq!(bytes.len(), 10);
    match decode_packet(&bytes) {
        Some(SendablePackets::SendRequestPacket(q)) => assert_eq!(q, req),
        _ => panic!("send request must decode as itself"),
    }
}

#[test]
fn payload_round_trip() {
    let pp = PayloadPacket::new(vec![0, 255, 7, 8], i64::MAX, 31);
    let bytes = encode_packet(&SendablePackets::PayloadPacket(PayloadPacket::new(
        vec![0, 255, 7, 8],
        i64::MAX,
        31,
    )));
    assert_eq!(bytes.len(), 22);
    match decode_packet(&bytes) {
        Some(SendablePackets::PayloadPacket(q)) => {
            assert_eq!(q.packet, pp.packet);
            assert_eq!(q.payload, pp.payload);
        },
        _ => panic!("payload must decode as itself"),
    }
}

#[test]
fn packet_layout_is_little_endian_tagged() {
    let adv = AdvertisementPacket { packet: PacketId::new(0x0102, 9), advertiser: 3 };
    let bytes = encode_packet(&SendablePackets::AdvertisementPacket(adv));
    assert_eq!(
        bytes,
        vec![0, 0x02, 0x01, 0, 0, 0, 0, 0, 0, 9, 3, 0, 0, 0, 0, 0, 0, 0]
    );
    // A negative address travels as its two's-complement bytes.
    let req = SendRequestPacket { packet: PacketId::new(-1, 4) };
    let bytes = encode_packet(&SendablePackets::SendRequestPacket(req));
    assert_eq!(bytes, vec![1, 255, 255, 255, 255, 255, 255, 255, 255, 4]);
}

#[test]
fn malformed_packets_rejected() {
    // Empty, unknown tag, wrong length, and a count that lies.
    assert!(decode_packet(&vec![]).is_none());
    assert!(decode_packet(&vec![7, 0, 0]).is_none());
    assert!(decode_packet(&vec![0, 0, 0, 0, 0, 0, 0, 0, 0, 9]).is_none());
    let mut bad = encode_packet(&SendablePackets::PayloadPacket(PayloadPacket::new(
        vec![1, 2, 3],
        5,
        5,
    )));
    bad.pop();
    assert!(decode_packet(&bad).is_none());
}

#[test]
fn audio_round_trip() {
    let chunk = AudioData { client_id: 513, pos: 1_000_000, data: vec![-32768, -1, 0, 1, 32767] };
    let bytes = encode_audio(&chunk);
    assert_eq!(bytes.len(), 18 + 2 * 5);
    let back = decode_audio(&bytes).unwrap();
    assert_eq!(back.client_id, 513);
    assert_eq!(back.pos, 1_000_000);
    assert_eq!(back.data, vec![-32768, -1, 0, 1, 32767]);
}

#[test]
fn audio_layout_is_little_endian() {
    let chunk = AudioData { client_id: 0x0201, pos: 3, data: vec![-2] };
    let bytes = encode_audio(&chunk);
    assert_eq!(
        bytes,
        vec![0x01, 0x02, 3, 0, 0, 0, 0, 0, 0, 0, 1, 0, 0, 0, 0, 0, 0, 0, 0xFE, 0xFF]
    );
}

#[test]
fn invalid_audio_rejected() {
    // The reserved start position 0 is refused.
    let unset = AudioData { client_id: 1, pos: 0, data: vec![5] };
    assert!(decode_audio(&encode_audio(&unset)).is_none());
    // An empty chunk is refused.
    let empty = AudioData { client_id: 1, pos: 1, data: vec![] };
    assert!(decode_audio(&encode_audio(&empty)).is_none());
    // A truncated chunk is refused.
    let mut bytes = encode_audio(&AudioData { client_id: 1, pos: 1, data: vec![5, 6] });
    bytes.pop();
    assert!(decode_audio(&bytes).is_none());
    // Too short for a header at all.
    assert!(decode_audio(&vec![1, 2, 3]).is_none());
}

#[test]
fn audio_travels_inside_payload() {
    // The capture path: chunk -> bytes -> payload datagram -> bytes ->
    // chunk, as the orchestrator wires it.
    let chunk = AudioData { client_id: 7, pos: 1401, data: vec![100, -100, 0] };
    let body = encode_audio(&chunk);
    let datagram = encode_packet(&SendablePackets::PayloadPacket(PayloadPacket::new(
        body, -99, 250,
    )));
    match decode_packet(&datagram) {
        Some(SendablePackets::PayloadPacket(pp)) => {
            assert_eq!(pp.packet, PacketId::new(-99, 250));
            let back = decode_audio(&pp.payload).unwrap();
            assert_eq!(back.client_id, 7);
            assert_eq!(back.pos, 1401);
            assert_eq!(back.data, vec![100, -100, 0]);
        },
        _ => panic!("payload datagram must decode"),
    }
}
