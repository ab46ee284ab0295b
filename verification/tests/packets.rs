use audiomesh::packet_layer::{
    prepare_send, AdvertisementPacket, PacketCache, PacketId, PayloadPacket, SendRequestPacket,
    MAX_PACKETS_STORED,
};
use audiomesh::wire::encode_packet;
use audiomesh::worker::{handle_datagram, DatagramOutcome};
use audiomesh::packet_layer::SendablePackets;

#[test]
fn packet_constructors_carry_fields() {
    let id = PacketId::new(77, 7);
    assert_eq!(id, PacketId { source_ip_addr: 77, sequence_number: 7 });
    let pp = PayloadPacket::new(vec![1, 2, 3], 77, 7);
    assert_eq!(pp.packet, id);
    assert_eq!(pp.payload, vec![1, 2, 3]);
    let adv = AdvertisementPacket::new(&pp, 9);
    assert_eq!(adv.packet, id);
    assert_eq!(adv.advertiser, 9);
    let req = SendRequestPacket::new(&adv);
    assert_eq!(req.packet, id);
}

#[test]
fn sequence_number_wraps() {
    let (pp, adv, next_seq) = prepare_send(vec![9], 42, 255);
    assert_eq!(next_seq, 0);
    assert_eq!(pp.packet, PacketId::new(42, 255));
    assert_eq!(pp.payload, vec![9]);
    assert_eq!(adv.packet, PacketId::new(42, 255));
    assert_eq!(adv.advertiser, 42);
}

#[test]
fn payload_dedup() {
    let mut cache = PacketCache::new();
    let pp = PayloadPacket::new(vec![1, 2, 3], 77, 7);
    // First arrival: cached and re-advertised under this node's address.
    let adv = cache.handle_payload(&pp, 9).unwrap();
    assert_eq!(adv.packet, PacketId::new(77, 7));
    assert_eq!(adv.advertiser, 9);
    // Duplicate arrival: dropped, the application is not notified.
    let again = PayloadPacket::new(vec![1, 2, 3], 77, 7);
    assert!(cache.handle_payload(&again, 9).is_none());
    // A later advertisement of the same id triggers no send request.
    assert!(cache.handle_advertisement(&adv).is_none());
}

#[test]
fn advertisement_of_unknown_payload_requests_it() {
    let cache = PacketCache::new();
    let pp = PayloadPacket::new(vec![5], 3, 1);
    let adv = AdvertisementPacket::new(&pp, 12);
    let req = cache.handle_advertisement(&adv).unwrap();
    assert_eq!(req.packet, PacketId::new(3, 1));
}

#[test]
fn send_request_served_from_cache() {
    let mut cache = PacketCache::new();
    let pp = PayloadPacket::new(vec![4, 5, 6], 3, 1);
    cache.handle_payload(&pp, 12).unwrap();
    let req = SendRequestPacket { packet: PacketId::new(3, 1) };
    let served = cache.handle_send_request(&req).unwrap();
    assert_eq!(served.packet, PacketId::new(3, 1));
    assert_eq!(served.payload, vec![4, 5, 6]);
    // A request for an id never seen is ignored.
    let missing = SendRequestPacket { packet: PacketId::new(3, 2) };
    assert!(cache.handle_send_request(&missing).is_none());
}

#[test]
fn cache_evicts_oldest_first() {
    let mut cache = PacketCache::new();
    // Fill the cache to capacity and one beyond, each payload under its
    // own source address.
    for k in 0..(MAX_PACKETS_STORED as i64 + 1) {
        let pp = PayloadPacket::new(vec![k as u8], k, 0);
        cache.handle_payload(&pp, 1).unwrap();
    }
    // The very first entry was evicted; the second survived.
    assert!(cache.handle_send_request(&SendRequestPacket { packet: PacketId::new(0, 0) }).is_none());
    let served = cache.handle_send_request(&SendRequestPacket { packet: PacketId::new(1, 0) });
    assert_eq!(served.unwrap().payload, vec![1]);
    // Re-inserting an evicted id works and evicts the next oldest.
    let back = PayloadPacket::new(vec![0], 0, 0);
    assert!(cache.handle_payload(&back, 1).is_some());
    assert!(cache.handle_send_request(&SendRequestPacket { packet: PacketId::new(1, 0) }).is_none());
    assert!(cache.handle_send_request(&SendRequestPacket { packet: PacketId::new(2, 0) }).is_some());
}

#[test]
fn datagram_payload_dedup() {
    let mut cache = PacketCache::new();
    let bytes = encode_packet(&SendablePackets::PayloadPacket(PayloadPacket::new(
        vec![8, 9],
        77,
        7,
    )));
    match handle_datagram(&mut cache, &bytes, 5) {
        DatagramOutcome::Deliver { payload, source, sequence, advertisement } => {
            assert_eq!(payload, vec![8, 9]);
            assert_eq!(source, 77);
            assert_eq!(sequence, 7);
            // The re-advertisement names this node as the advertiser.
            let adv = AdvertisementPacket {
                packet: PacketId::new(77, 7),
                advertiser: 5,
            };
            assert_eq!(advertisement, encode_packet(&SendablePackets::AdvertisementPacket(adv)));
        },
        _ => panic!("first payload datagram must be delivered"),
    }
    // The same datagram again: nothing reaches the application.
    assert!(matches!(handle_datagram(&mut cache, &bytes, 5), DatagramOutcome::Nothing));
    // An advertisement for the now-cached id draws no send request.
    let adv_bytes = encode_packet(&SendablePackets::AdvertisementPacket(AdvertisementPacket {
        packet: PacketId::new(77, 7),
        advertiser: 77,
    }));
    assert!(matches!(handle_datagram(&mut cache, &adv_bytes, 5), DatagramOutcome::Nothing));
}

#[test]
fn datagram_advertisement_and_request_round() {
    let mut sender = PacketCache::new();
    let mut receiver = PacketCache::new();
    // The sender registers its own payload, then broadcasts an advertisement.
    let (pp, adv, _seq) = prepare_send(vec![42, 43], 10, 0);
    sender.insert(pp);
    let adv_bytes = encode_packet(&SendablePackets::AdvertisementPacket(adv));
    // The receiver, missing the payload, answers with a send request.
    let req_bytes = match handle_datagram(&mut receiver, &adv_bytes, 20) {
        DatagramOutcome::Reply(v) => v,
        _ => panic!("advertisement of unknown payload must draw a request"),
    };
    // The sender serves the cached payload.
    let pay_bytes = match handle_datagram(&mut sender, &req_bytes, 10) {
        DatagramOutcome::Reply(v) => v,
        _ => panic!("send request for a cached payload must be served"),
    };
    // The payload reaches the receiver's application exactly once.
    match handle_datagram(&mut receiver, &pay_bytes, 20) {
        DatagramOutcome::Deliver { payload, source, sequence, .. } => {
            assert_eq!(payload, vec![42, 43]);
            assert_eq!(source, 10);
            assert_eq!(sequence, 0);
        },
        _ => panic!("first payload datagram must be delivered"),
    }
    assert!(matches!(handle_datagram(&mut receiver, &pay_bytes, 20), DatagramOutcome::Nothing));
}

#[test]
fn malformed_datagram_ignored() {
    let mut cache = PacketCache::new();
    assert!(matches!(handle_datagram(&mut cache, &vec![], 1), DatagramOutcome::Nothing));
    assert!(matches!(handle_datagram(&mut cache, &vec![9, 9, 9], 1), DatagramOutcome::Nothing));
}
