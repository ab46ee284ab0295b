//! Per-datagram decision of the packet-layer worker.
//!
//! The worker owns the retransmission cache and reacts to one decoded
//! datagram at a time: an advertisement for an unknown payload earns the
//! advertiser a send request, a send request for a cached payload is served
//! from the cache, and a new payload is cached, re-advertised and handed to
//! the application — a duplicate is dropped without a trace. This module
//! holds that decision as one verified function from bytes and cache state
//! to bytes, so the caller only moves datagrams and channel messages.

use crate::packet_layer::{
    cache_has, cache_index_of, cache_insert_model, AdvertisementPacket, PacketCache, PacketId,
    SendablePackets,
};
use crate::wire::{
    decode_packet, encode_packet, i64_of_u64, le8, packet_wire_ok, read8, spec_encode_packet,
    u64_of_i64, TAG_ADVERTISEMENT, TAG_PAYLOAD, TAG_SEND_REQUEST,
};
use vstd::prelude::*;

verus! {

/// What the worker does with one incoming datagram.
pub enum DatagramOutcome {
    /// Malformed, unknown, already seen, or asking for something not held:
    /// the datagram is dropped.
    Nothing,
    /// Send these bytes back to the datagram's sender.
    Reply(Vec<u8>),
    /// A new payload: broadcast `advertisement`, hand `payload` with its
    /// origin to the application.
    Deliver { advertisement: Vec<u8>, payload: Vec<u8>, source: i64, sequence: u8 },
}

/// The id spelled in bytes 1 through 9 of a packet datagram.
pub open spec fn datagram_id(b: Seq<u8>) -> PacketId {
    PacketId { source_ip_addr: i64_of_u64(read8(b, 1)) as i64, sequence_number: b[9] }
}

/// React to one incoming datagram: decode it and run the advertise /
/// request / payload protocol against the cache.
pub fn handle_datagram(cache: &mut PacketCache, b: &Vec<u8>, own_addr: i64) -> (r:
    DatagramOutcome)
    requires
        old(cache).wf(),
    ensures
        final(cache).wf(),
        !packet_wire_ok(b@) ==> {
            &&& r is Nothing
            &&& final(cache)@ == old(cache)@
        },
        packet_wire_ok(b@) && b@[0] == TAG_ADVERTISEMENT ==> {
            &&& final(cache)@ == old(cache)@
            &&& cache_has(old(cache)@, datagram_id(b@)) ==> r is Nothing
            &&& !cache_has(old(cache)@, datagram_id(b@)) ==> (r matches DatagramOutcome::Reply(v)
                && v@ == seq![TAG_SEND_REQUEST] + le8(
                u64_of_i64(datagram_id(b@).source_ip_addr as int),
            ) + seq![datagram_id(b@).sequence_number])
        },
        packet_wire_ok(b@) && b@[0] == TAG_SEND_REQUEST ==> {
            &&& final(cache)@ == old(cache)@
            &&& !cache_has(old(cache)@, datagram_id(b@)) ==> r is Nothing
            &&& cache_has(old(cache)@, datagram_id(b@)) ==> (r matches DatagramOutcome::Reply(v)
                && v@ == ({
                let body = old(cache)@[cache_index_of(old(cache)@, datagram_id(b@))].1;
                seq![TAG_PAYLOAD] + le8(u64_of_i64(datagram_id(b@).source_ip_addr as int))
                    + seq![datagram_id(b@).sequence_number] + le8(body.len() as int) + body
            }))
        },
        packet_wire_ok(b@) && b@[0] == TAG_PAYLOAD ==> {
            &&& cache_has(old(cache)@, datagram_id(b@)) ==> {
                &&& r is Nothing
                &&& final(cache)@ == old(cache)@
            }
            &&& !cache_has(old(cache)@, datagram_id(b@)) ==> {
                &&& (r matches DatagramOutcome::Deliver {
                    advertisement,
                    payload,
                    source,
                    sequence,
                } ==> {
                    &&& advertisement@ == spec_encode_packet(
                        SendablePackets::AdvertisementPacket(
                            AdvertisementPacket {
                                packet: datagram_id(b@),
                                advertiser: own_addr,
                            },
                        ),
                    )
                    &&& payload@ == b@.subrange(18, b@.len() as int)
                    &&& source == datagram_id(b@).source_ip_addr
                    &&& sequence == datagram_id(b@).sequence_number
                })
                &&& r is Deliver
                &&& final(cache)@ == cache_insert_model(
                    old(cache)@,
                    datagram_id(b@),
                    b@.subrange(18, b@.len() as int),
                )
            }
        },
{
    let decoded = decode_packet(b);
    match decoded {
        None => DatagramOutcome::Nothing,
        Some(packet) => {
            proof {
                crate::wire::lemma_read8_bounds(b@, 1);
            }
            match packet {
                SendablePackets::AdvertisementPacket(a) => {
                    proof {
                        assert(a.packet == datagram_id(b@));
                    }
                    match cache.handle_advertisement(&a) {
                        Some(req) => DatagramOutcome::Reply(
                            encode_packet(&SendablePackets::SendRequestPacket(req)),
                        ),
                        None => DatagramOutcome::Nothing,
                    }
                },
                SendablePackets::SendRequestPacket(q) => {
                    proof {
                        assert(q.packet == datagram_id(b@));
                    }
                    match cache.handle_send_request(&q) {
                        Some(p) => {
                            proof {
                                crate::packet_layer::lemma_cache_index_in_range(
                                    old(cache)@,
                                    q.packet,
                                );
                                assert(old(cache)@[cache_index_of(old(cache)@, q.packet)].1.len()
                                    <= usize::MAX - 18);
                            }
                            DatagramOutcome::Reply(
                                encode_packet(&SendablePackets::PayloadPacket(p)),
                            )
                        },
                        None => DatagramOutcome::Nothing,
                    }
                },
                SendablePackets::PayloadPacket(pp) => {
                    proof {
                        vstd::std_specs::vec::axiom_spec_len(b);
                        assert(pp.packet == datagram_id(b@));
                        assert(pp.payload@.len() <= usize::MAX - 18);
                    }
                    match cache.handle_payload(&pp, own_addr) {
                        Some(adv) => {
                            let advertisement = encode_packet(
                                &SendablePackets::AdvertisementPacket(adv),
                            );
                            DatagramOutcome::Deliver {
                                advertisement,
                                payload: pp.payload,
                                source: pp.packet.source_ip_addr,
                                sequence: pp.packet.sequence_number,
                            }
                        },
                        None => DatagramOutcome::Nothing,
                    }
                },
            }
        },
    }
}

} // verus!
