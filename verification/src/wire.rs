//! Binary wire codec.
//!
//! One datagram carries one packet of the tagged union: a discriminant
//! byte, then the packet id (node address as eight little-endian bytes
//! plus the sequence byte), then the variant's own fields. A payload body
//! is length-prefixed with a little-endian 64-bit count. Audio chunks
//! travel inside payload bodies as source id, start position, a 64-bit
//! sample count and the samples, all little-endian. Negative integers use
//! their two's-complement unsigned value.

use crate::audio::AudioData;
use crate::packet_layer::{
    AdvertisementPacket, PacketId, PayloadPacket, SendRequestPacket, SendablePackets,
};
use vstd::prelude::*;

verus! {

/// Discriminant byte of an advertisement.
pub const TAG_ADVERTISEMENT: u8 = 0;

/// Discriminant byte of a send request.
pub const TAG_SEND_REQUEST: u8 = 1;

/// Discriminant byte of a payload.
pub const TAG_PAYLOAD: u8 = 2;

/// The unsigned 64-bit value that stands for `x` on the wire.
pub open spec fn u64_of_i64(x: int) -> int {
    if x < 0 {
        x + 0x10000000000000000
    } else {
        x
    }
}

/// The signed value encoded by the unsigned 64-bit wire value `u`.
pub open spec fn i64_of_u64(u: int) -> int {
    if u >= 0x8000000000000000 {
        u - 0x10000000000000000
    } else {
        u
    }
}

/// The unsigned 16-bit value that stands for the sample `x` on the wire.
pub open spec fn u16_of_i16(x: int) -> int {
    if x < 0 {
        x + 0x10000
    } else {
        x
    }
}

/// The sample encoded by the unsigned 16-bit wire value `u`.
pub open spec fn i16_of_u16(u: int) -> int {
    if u >= 0x8000 {
        u - 0x10000
    } else {
        u
    }
}

/// The two little-endian bytes of a 16-bit value.
pub open spec fn le2(x: int) -> Seq<u8> {
    seq![(x % 0x100) as u8, ((x / 0x100) % 0x100) as u8]
}

/// The eight little-endian bytes of a 64-bit value.
#[verifier::opaque]
pub open spec fn le8(x: int) -> Seq<u8> {
    seq![
        (x % 0x100) as u8,
        ((x / 0x100) % 0x100) as u8,
        ((x / 0x10000) % 0x100) as u8,
        ((x / 0x1000000) % 0x100) as u8,
        ((x / 0x100000000) % 0x100) as u8,
        ((x / 0x10000000000) % 0x100) as u8,
        ((x / 0x1000000000000) % 0x100) as u8,
        ((x / 0x100000000000000) % 0x100) as u8,
    ]
}

/// The 16-bit value of the two little-endian bytes at `off`.
pub open spec fn read2(b: Seq<u8>, off: int) -> int {
    b[off] + 0x100 * b[off + 1]
}

/// The 64-bit value of the eight little-endian bytes at `off`.
#[verifier::opaque]
pub open spec fn read8(b: Seq<u8>, off: int) -> int {
    b[off] + 0x100 * b[off + 1] + 0x10000 * b[off + 2] + 0x1000000 * b[off + 3] + 0x100000000 * b[
        off + 4
    ] + 0x10000000000 * b[off + 5] + 0x1000000000000 * b[off + 6] + 0x100000000000000 * b[off + 7]
}

/// The wire form of one packet.
pub open spec fn spec_encode_packet(p: SendablePackets) -> Seq<u8> {
    match p {
        SendablePackets::AdvertisementPacket(a) => seq![TAG_ADVERTISEMENT] + le8(
            u64_of_i64(a.packet.source_ip_addr as int),
        ) + seq![a.packet.sequence_number] + le8(u64_of_i64(a.advertiser as int)),
        SendablePackets::SendRequestPacket(q) => seq![TAG_SEND_REQUEST] + le8(
            u64_of_i64(q.packet.source_ip_addr as int),
        ) + seq![q.packet.sequence_number],
        SendablePackets::PayloadPacket(pp) => seq![TAG_PAYLOAD] + le8(
            u64_of_i64(pp.packet.source_ip_addr as int),
        ) + seq![pp.packet.sequence_number] + le8(pp.payload@.len() as int) + pp.payload@,
    }
}

/// A byte string is one well-formed packet datagram: a known tag, the
/// exact length of its variant, and for a payload a count that matches the
/// bytes that follow the header.
pub open spec fn packet_wire_ok(b: Seq<u8>) -> bool {
    &&& b.len() >= 1
    &&& (b[0] == TAG_ADVERTISEMENT || b[0] == TAG_SEND_REQUEST || b[0] == TAG_PAYLOAD)
    &&& (b[0] == TAG_ADVERTISEMENT ==> b.len() == 18)
    &&& (b[0] == TAG_SEND_REQUEST ==> b.len() == 10)
    &&& (b[0] == TAG_PAYLOAD ==> b.len() >= 18 && read8(b, 10) == b.len() - 18)
}

/// The wire form of one audio chunk: source id, start position, sample
/// count, then the samples, each as two little-endian bytes.
pub open spec fn spec_encode_audio(d: AudioData) -> Seq<u8> {
    le2(d.client_id as int) + le8(d.pos as int) + le8(d.data@.len() as int) + sample_bytes(d.data@)
}

/// The wire bytes of a run of samples, two per sample, little-endian.
pub open spec fn sample_bytes(s: Seq<i16>) -> Seq<u8> {
    Seq::new(
        (2 * s.len()) as nat,
        |k: int|
            if k % 2 == 0 {
                (u16_of_i16(s[k / 2] as int) % 0x100) as u8
            } else {
                (u16_of_i16(s[k / 2] as int) / 0x100) as u8
            },
    )
}

/// A byte string is one well-formed audio chunk: the count matches the
/// sample bytes after the header, the start position is not the reserved
/// 0, the chunk is not empty, and its positions do not overflow.
pub open spec fn audio_wire_ok(b: Seq<u8>) -> bool {
    &&& b.len() >= 18
    &&& 2 * read8(b, 10) == b.len() - 18
    &&& 1 <= read8(b, 10)
    &&& 1 <= read8(b, 2)
    &&& read8(b, 2) + read8(b, 10) <= u64::MAX
}

/// The unsigned 64-bit wire value of a node address.
fn i64_to_u64(x: i64) -> (u: u64)
    ensures
        u as int == u64_of_i64(x as int),
{
    if x >= 0 {
        x as u64
    } else {
        let mag = (-(x as i128)) as u64;
        (u64::MAX - mag) + 1
    }
}

/// The node address of an unsigned 64-bit wire value.
fn u64_to_i64(u: u64) -> (x: i64)
    ensures
        x as int == i64_of_u64(u as int),
{
    if u >= 0x8000000000000000 {
        let mag = (u64::MAX - u) + 1;
        (-(mag as i128)) as i64
    } else {
        u as i64
    }
}

/// The unsigned 16-bit wire value of a sample.
fn i16_to_u16(x: i16) -> (u: u16)
    ensures
        u as int == u16_of_i16(x as int),
{
    if x >= 0 {
        x as u16
    } else {
        let mag = (-(x as i32)) as u16;
        (u16::MAX - mag) + 1
    }
}

/// The sample of an unsigned 16-bit wire value.
fn u16_to_i16(u: u16) -> (x: i16)
    ensures
        x as int == i16_of_u16(u as int),
{
    if u >= 0x8000 {
        let mag = (u16::MAX - u) + 1;
        (-(mag as i32)) as i16
    } else {
        u as i16
    }
}

/// Append the eight little-endian bytes of `x`.
fn push_u64_le(out: &mut Vec<u8>, x: u64)
    ensures
        final(out)@ == old(out)@ + le8(x as int),
{
    out.push((x % 0x100) as u8);
    out.push(((x / 0x100) % 0x100) as u8);
    out.push(((x / 0x10000) % 0x100) as u8);
    out.push(((x / 0x1000000) % 0x100) as u8);
    out.push(((x / 0x100000000) % 0x100) as u8);
    out.push(((x / 0x10000000000) % 0x100) as u8);
    out.push(((x / 0x1000000000000) % 0x100) as u8);
    out.push(((x / 0x100000000000000) % 0x100) as u8);
    proof {
        reveal(le8);
        assert(out@ =~= old(out)@ + le8(x as int));
    }
}

/// Append the two little-endian bytes of `x`.
fn push_u16_le(out: &mut Vec<u8>, x: u16)
    ensures
        final(out)@ == old(out)@ + le2(x as int),
{
    out.push((x % 0x100) as u8);
    out.push(((x / 0x100) % 0x100) as u8);
    proof {
        assert(out@ =~= old(out)@ + le2(x as int));
    }
}

/// The 64-bit value of the eight little-endian bytes at `off`.
fn read_u64_le(b: &Vec<u8>, off: usize) -> (x: u64)
    requires
        off + 8 <= b@.len(),
    ensures
        x as int == read8(b@, off as int),
{
    let n = b.len();
    proof {
        reveal(read8);
        assert(off + 8 <= n);
    }
    (b[off] as u64) + 0x100 * (b[off + 1] as u64) + 0x10000 * (b[off + 2] as u64) + 0x1000000 * (b[
        off + 3
    ] as u64) + 0x100000000 * (b[off + 4] as u64) + 0x10000000000 * (b[off + 5] as u64)
        + 0x1000000000000 * (b[off + 6] as u64) + 0x100000000000000 * (b[off + 7] as u64)
}

/// The 16-bit value of the two little-endian bytes at `off`.
fn read_u16_le(b: &Vec<u8>, off: usize) -> (x: u16)
    requires
        off + 2 <= b@.len(),
    ensures
        x as int == read2(b@, off as int),
{
    let n = b.len();
    proof {
        assert(off + 2 <= n);
    }
    (b[off] as u16) + 0x100 * (b[off + 1] as u16)
}

/// Encode one packet into the bytes of one datagram.
#[verifier::loop_isolation(false)]
pub fn encode_packet(p: &SendablePackets) -> (r: Vec<u8>)
    requires
        p matches SendablePackets::PayloadPacket(pp) ==> pp.payload@.len() <= usize::MAX - 18,
    ensures
        r@ == spec_encode_packet(*p),
        packet_wire_ok(r@),
{
    let mut out: Vec<u8> = Vec::new();
    match p {
        SendablePackets::AdvertisementPacket(a) => {
            out.push(TAG_ADVERTISEMENT);
            let addr = i64_to_u64(a.packet.source_ip_addr);
            push_u64_le(&mut out, addr);
            out.push(a.packet.sequence_number);
            let adv = i64_to_u64(a.advertiser);
            push_u64_le(&mut out, adv);
            proof {
                assert(out@ =~= spec_encode_packet(*p));
            }
        },
        SendablePackets::SendRequestPacket(q) => {
            out.push(TAG_SEND_REQUEST);
            let addr = i64_to_u64(q.packet.source_ip_addr);
            push_u64_le(&mut out, addr);
            out.push(q.packet.sequence_number);
            proof {
                assert(out@ =~= spec_encode_packet(*p));
            }
        },
        SendablePackets::PayloadPacket(pp) => {
            out.push(TAG_PAYLOAD);
            let addr = i64_to_u64(pp.packet.source_ip_addr);
            push_u64_le(&mut out, addr);
            out.push(pp.packet.sequence_number);
            push_u64_le(&mut out, pp.payload.len() as u64);
            let mut i: usize = 0;
            while i < pp.payload.len()
                invariant
                    i <= pp.payload@.len(),
                    out@ == seq![TAG_PAYLOAD] + le8(u64_of_i64(pp.packet.source_ip_addr as int))
                        + seq![pp.packet.sequence_number] + le8(pp.payload@.len() as int)
                        + pp.payload@.take(i as int),
                decreases pp.payload@.len() - i,
            {
                out.push(pp.payload[i]);
                proof {
                    assert(out@ =~= seq![TAG_PAYLOAD] + le8(
                        u64_of_i64(pp.packet.source_ip_addr as int),
                    ) + seq![pp.packet.sequence_number] + le8(pp.payload@.len() as int)
                        + pp.payload@.take(i as int + 1));
                }
                i += 1;
            }
            proof {
                assert(pp.payload@.take(pp.payload@.len() as int) =~= pp.payload@);
                assert(out@ =~= spec_encode_packet(*p));
            }
        },
    }
    proof {
        match p {
            SendablePackets::AdvertisementPacket(a) => lemma_adv_wire_ok(*a),
            SendablePackets::SendRequestPacket(q) => lemma_req_wire_ok(*q),
            SendablePackets::PayloadPacket(pp) => lemma_pay_wire_ok(*pp),
        }
    }
    out
}

/// The eight bytes right after a prefix read back as themselves.
#[verifier::spinoff_prover]
proof fn lemma_concat_read8(prefix: Seq<u8>, mid: Seq<u8>, suffix: Seq<u8>)
    requires
        mid.len() == 8,
    ensures
        read8(prefix + mid + suffix, prefix.len() as int) == read8(mid, 0),
{
    reveal(read8);
    let b = prefix + mid + suffix;
    let p = prefix.len() as int;
    assert(b[p] == mid[0]);
    assert(b[p + 1] == mid[1]);
    assert(b[p + 2] == mid[2]);
    assert(b[p + 3] == mid[3]);
    assert(b[p + 4] == mid[4]);
    assert(b[p + 5] == mid[5]);
    assert(b[p + 6] == mid[6]);
    assert(b[p + 7] == mid[7]);
}

/// An encoded advertisement is a well-formed datagram.
#[verifier::spinoff_prover]
proof fn lemma_adv_wire_ok(a: AdvertisementPacket)
    ensures
        packet_wire_ok(spec_encode_packet(SendablePackets::AdvertisementPacket(a))),
{
    let b = spec_encode_packet(SendablePackets::AdvertisementPacket(a));
    lemma_le8_len(u64_of_i64(a.packet.source_ip_addr as int));
    lemma_le8_len(u64_of_i64(a.advertiser as int));
    assert(b.len() == 18);
    assert(b[0] == TAG_ADVERTISEMENT);
}

/// An encoded send request is a well-formed datagram.
#[verifier::spinoff_prover]
proof fn lemma_req_wire_ok(q: SendRequestPacket)
    ensures
        packet_wire_ok(spec_encode_packet(SendablePackets::SendRequestPacket(q))),
{
    let b = spec_encode_packet(SendablePackets::SendRequestPacket(q));
    lemma_le8_len(u64_of_i64(q.packet.source_ip_addr as int));
    assert(b.len() == 10);
    assert(b[0] == TAG_SEND_REQUEST);
}

/// A 10-byte payload header, a count field that reads back as the body
/// length, and the body itself make a well-formed datagram.
#[verifier::spinoff_prover]
proof fn lemma_pay_parts_wire_ok(header: Seq<u8>, mid: Seq<u8>, body: Seq<u8>)
    requires
        header.len() == 10,
        header[0] == TAG_PAYLOAD,
        mid.len() == 8,
        read8(mid, 0) == body.len(),
    ensures
        packet_wire_ok(header + mid + body),
{
    let b = header + mid + body;
    assert(b[0] == TAG_PAYLOAD);
    assert(b.len() == 18 + body.len());
    lemma_concat_read8(header, mid, body);
}

/// An encoded payload is a well-formed datagram: in particular the count
/// field reads back as the number of body bytes.
#[verifier::rlimit(100)]
#[verifier::spinoff_prover]
proof fn lemma_pay_wire_ok(pp: PayloadPacket)
    ensures
        packet_wire_ok(spec_encode_packet(SendablePackets::PayloadPacket(pp))),
{
    let b = spec_encode_packet(SendablePackets::PayloadPacket(pp));
    let n = pp.payload@.len() as int;
    let header = seq![TAG_PAYLOAD] + le8(u64_of_i64(pp.packet.source_ip_addr as int))
        + seq![pp.packet.sequence_number];
    lemma_le8_len(u64_of_i64(pp.packet.source_ip_addr as int));
    lemma_le8_len(n);
    assert(header.len() == 10);
    assert(header[0] == TAG_PAYLOAD);
    assert(b == header + le8(n) + pp.payload@);
    vstd::std_specs::vec::axiom_spec_len(&pp.payload);
    lemma_le8_read8(n);
    lemma_pay_parts_wire_ok(header, le8(n), pp.payload@);
}

/// Law: the encoding of a chunk with a real start position, at least one
/// sample and no position overflow is a well-formed audio byte string, so
/// decoding it succeeds and returns the chunk's own fields.
#[verifier::rlimit(100)]
#[verifier::spinoff_prover]
pub proof fn lemma_encode_audio_wire_ok(d: AudioData)
    requires
        d.pos >= 1,
        d.data@.len() >= 1,
        d.pos + d.data@.len() <= u64::MAX,
    ensures
        audio_wire_ok(spec_encode_audio(d)),
{
    let b = spec_encode_audio(d);
    let n = d.data@.len() as int;
    lemma_le8_len(d.pos as int);
    lemma_le8_len(n);
    vstd::std_specs::vec::axiom_spec_len(&d.data);
    lemma_le8_read8(n);
    lemma_le8_read8(d.pos as int);
    assert(b.len() == 18 + 2 * n);
    let prefix10 = le2(d.client_id as int) + le8(d.pos as int);
    assert(b == prefix10 + le8(n) + sample_bytes(d.data@));
    lemma_concat_read8(prefix10, le8(n), sample_bytes(d.data@));
    assert(read8(b, 10) == n);
    let suffix2 = le8(n) + sample_bytes(d.data@);
    assert(b =~= le2(d.client_id as int) + le8(d.pos as int) + suffix2);
    lemma_concat_read8(le2(d.client_id as int), le8(d.pos as int), suffix2);
    assert(read8(b, 2) == d.pos);
}

/// Law: the encoding of a packet reads back as the packet itself — the
/// tag names its variant, the id fields and the advertiser come back
/// through the little-endian address bytes, and a payload body survives
/// byte for byte. Together with `decode_packet`'s contract this pins
/// decoding an encoded packet down to the original.
pub proof fn lemma_packet_round_trip(p: SendablePackets)
    ensures
        packet_wire_ok(spec_encode_packet(p)),
        ({
            let b = spec_encode_packet(p);
            match p {
                SendablePackets::AdvertisementPacket(a) => {
                    &&& b[0] == TAG_ADVERTISEMENT
                    &&& i64_of_u64(read8(b, 1)) == a.packet.source_ip_addr
                    &&& b[9] == a.packet.sequence_number
                    &&& i64_of_u64(read8(b, 10)) == a.advertiser
                },
                SendablePackets::SendRequestPacket(q) => {
                    &&& b[0] == TAG_SEND_REQUEST
                    &&& i64_of_u64(read8(b, 1)) == q.packet.source_ip_addr
                    &&& b[9] == q.packet.sequence_number
                },
                SendablePackets::PayloadPacket(pp) => {
                    &&& b[0] == TAG_PAYLOAD
                    &&& i64_of_u64(read8(b, 1)) == pp.packet.source_ip_addr
                    &&& b[9] == pp.packet.sequence_number
                    &&& b.subrange(18, b.len() as int) == pp.payload@
                },
            }
        }),
{
    match p {
        SendablePackets::AdvertisementPacket(a) => {
            lemma_adv_wire_ok(a);
            let b = spec_encode_packet(p);
            let addr_u = u64_of_i64(a.packet.source_ip_addr as int);
            let adv_u = u64_of_i64(a.advertiser as int);
            lemma_le8_len(addr_u);
            lemma_le8_len(adv_u);
            let tail = seq![a.packet.sequence_number] + le8(adv_u);
            assert(b =~= seq![b[0]] + le8(addr_u) + tail);
            lemma_id_reads_back(b, addr_u, tail);
            let prefix10 = seq![TAG_ADVERTISEMENT] + le8(addr_u)
                + seq![a.packet.sequence_number];
            assert(b =~= prefix10 + le8(adv_u) + Seq::<u8>::empty());
            lemma_concat_read8(prefix10, le8(adv_u), Seq::<u8>::empty());
            lemma_le8_read8(adv_u);
        },
        SendablePackets::SendRequestPacket(q) => {
            lemma_req_wire_ok(q);
            let b = spec_encode_packet(p);
            let addr_u = u64_of_i64(q.packet.source_ip_addr as int);
            lemma_le8_len(addr_u);
            let tail = seq![q.packet.sequence_number];
            assert(b =~= seq![b[0]] + le8(addr_u) + tail);
            lemma_id_reads_back(b, addr_u, tail);
        },
        SendablePackets::PayloadPacket(pp) => {
            lemma_pay_wire_ok(pp);
            let b = spec_encode_packet(p);
            let addr_u = u64_of_i64(pp.packet.source_ip_addr as int);
            lemma_le8_len(addr_u);
            lemma_le8_len(pp.payload@.len() as int);
            let tail = seq![pp.packet.sequence_number] + le8(pp.payload@.len() as int)
                + pp.payload@;
            assert(b =~= seq![b[0]] + le8(addr_u) + tail);
            lemma_id_reads_back(b, addr_u, tail);
            assert(b.subrange(18, b.len() as int) =~= pp.payload@);
        },
    }
}

/// In a datagram whose tag byte is followed by the eight address bytes,
/// the sequence byte and a tail, the address reads back as itself and the
/// sequence byte sits at offset 9.
#[verifier::spinoff_prover]
proof fn lemma_id_reads_back(b: Seq<u8>, addr: int, tail: Seq<u8>)
    requires
        0 <= addr < 0x10000000000000000,
        b.len() >= 1,
        b =~= seq![b[0]] + le8(addr) + tail,
    ensures
        read8(b, 1) == addr,
        tail.len() >= 1 ==> b[9] == tail[0],
{
    lemma_le8_len(addr);
    assert(b =~= seq![b[0]] + le8(addr) + tail);
    lemma_concat_read8(seq![b[0]], le8(addr), tail);
    lemma_le8_read8(addr);
}

/// Law: each sample of an encoded chunk reads back as itself from its two
/// wire bytes. Together with `lemma_encode_audio_wire_ok` and
/// `decode_audio`'s contract this pins decoding an encoded chunk down to
/// the original chunk.
#[verifier::spinoff_prover]
pub proof fn lemma_audio_samples_read_back(d: AudioData, k: int)
    requires
        0 <= k < d.data@.len(),
    ensures
        i16_of_u16(read2(spec_encode_audio(d), 18 + 2 * k)) == d.data@[k] as int,
{
    let b = spec_encode_audio(d);
    let s = d.data@;
    let u = u16_of_i16(s[k] as int);
    lemma_le8_len(d.pos as int);
    lemma_le8_len(s.len() as int);
    assert(b[18 + 2 * k] == sample_bytes(s)[2 * k]);
    assert(b[19 + 2 * k] == sample_bytes(s)[2 * k + 1]);
    vstd::arithmetic::div_mod::lemma_fundamental_div_mod_converse(2 * k, 2, k, 0);
    vstd::arithmetic::div_mod::lemma_fundamental_div_mod_converse(2 * k + 1, 2, k, 1);
    assert(sample_bytes(s)[2 * k] == (u % 0x100) as u8);
    assert(sample_bytes(s)[2 * k + 1] == (u / 0x100) as u8);
    vstd::arithmetic::div_mod::lemma_fundamental_div_mod(u, 0x100);
    vstd::arithmetic::div_mod::lemma_div_pos_is_pos(u, 0x100);
    vstd::arithmetic::div_mod::lemma_mod_division_less_than_divisor(u, 0x100);
    assert(u / 0x100 < 0x100);
    assert(read2(b, 18 + 2 * k) == u % 0x100 + 0x100 * (u / 0x100));
}

/// The eight little-endian bytes of a value are eight bytes.
proof fn lemma_le8_len(x: int)
    ensures
        le8(x).len() == 8,
{
    reveal(le8);
}

/// Eight bytes read back as a value below two to the sixty-fourth.
pub proof fn lemma_read8_bounds(b: Seq<u8>, off: int)
    requires
        0 <= off,
        off + 8 <= b.len(),
    ensures
        0 <= read8(b, off) < 0x10000000000000000,
{
    reveal(read8);
}

/// Reading back the eight little-endian bytes of a 64-bit value yields the
/// value.
proof fn lemma_le8_read8(x: int)
    requires
        0 <= x < 0x10000000000000000,
    ensures
        read8(le8(x), 0) == x,
{
    reveal(le8);
    reveal(read8);
    let c = 0x100int;
    let x1 = x / c;
    let x2 = x1 / c;
    let x3 = x2 / c;
    let x4 = x3 / c;
    let x5 = x4 / c;
    let x6 = x5 / c;
    let x7 = x6 / c;
    vstd::arithmetic::div_mod::lemma_div_denominator(x, c, c);
    vstd::arithmetic::div_mod::lemma_div_denominator(x, 0x10000, c);
    vstd::arithmetic::div_mod::lemma_div_denominator(x, 0x1000000, c);
    vstd::arithmetic::div_mod::lemma_div_denominator(x, 0x100000000, c);
    vstd::arithmetic::div_mod::lemma_div_denominator(x, 0x10000000000, c);
    vstd::arithmetic::div_mod::lemma_div_denominator(x, 0x1000000000000, c);
    assert(x2 == x / 0x10000);
    assert(x3 == x / 0x1000000);
    assert(x4 == x / 0x100000000);
    assert(x5 == x / 0x10000000000);
    assert(x6 == x / 0x1000000000000);
    assert(x7 == x / 0x100000000000000);
    vstd::arithmetic::div_mod::lemma_fundamental_div_mod(x, c);
    vstd::arithmetic::div_mod::lemma_fundamental_div_mod(x1, c);
    vstd::arithmetic::div_mod::lemma_fundamental_div_mod(x2, c);
    vstd::arithmetic::div_mod::lemma_fundamental_div_mod(x3, c);
    vstd::arithmetic::div_mod::lemma_fundamental_div_mod(x4, c);
    vstd::arithmetic::div_mod::lemma_fundamental_div_mod(x5, c);
    vstd::arithmetic::div_mod::lemma_fundamental_div_mod(x6, c);
    vstd::arithmetic::div_mod::lemma_div_pos_is_pos(x6, c);
    vstd::arithmetic::div_mod::lemma_div_is_ordered(x, 0xffffffffffffffff, 0x100000000000000);
    assert(0xffffffffffffffffint / 0x100000000000000int == 0xff) by {
        vstd::arithmetic::div_mod::lemma_fundamental_div_mod_converse(
            0xffffffffffffffff,
            0x100000000000000,
            0xff,
            0xffffffffffffff,
        );
    }
    vstd::arithmetic::div_mod::lemma_small_mod(x7 as nat, 0x100);
}

/// Decode the bytes of one datagram: `Some` of the packet they spell
/// exactly when they are well formed, `None` otherwise.
#[verifier::loop_isolation(false)]
pub fn decode_packet(b: &Vec<u8>) -> (r: Option<SendablePackets>)
    ensures
        r is Some <==> packet_wire_ok(b@),
        r matches Some(p) ==> match p {
            SendablePackets::AdvertisementPacket(a) => {
                &&& b@[0] == TAG_ADVERTISEMENT
                &&& a.packet.source_ip_addr as int == i64_of_u64(read8(b@, 1))
                &&& a.packet.sequence_number == b@[9]
                &&& a.advertiser as int == i64_of_u64(read8(b@, 10))
            },
            SendablePackets::SendRequestPacket(q) => {
                &&& b@[0] == TAG_SEND_REQUEST
                &&& q.packet.source_ip_addr as int == i64_of_u64(read8(b@, 1))
                &&& q.packet.sequence_number == b@[9]
            },
            SendablePackets::PayloadPacket(pp) => {
                &&& b@[0] == TAG_PAYLOAD
                &&& pp.packet.source_ip_addr as int == i64_of_u64(read8(b@, 1))
                &&& pp.packet.sequence_number == b@[9]
                &&& pp.payload@ == b@.subrange(18, b@.len() as int)
            },
        },
{
    if b.len() < 1 {
        return None;
    }
    let tag = b[0];
    if tag == TAG_ADVERTISEMENT {
        if b.len() != 18 {
            return None;
        }
        let addr = u64_to_i64(read_u64_le(b, 1));
        let seq_no = b[9];
        let adv = u64_to_i64(read_u64_le(b, 10));
        Some(
            SendablePackets::AdvertisementPacket(
                AdvertisementPacket {
                    packet: PacketId { source_ip_addr: addr, sequence_number: seq_no },
                    advertiser: adv,
                },
            ),
        )
    } else if tag == TAG_SEND_REQUEST {
        if b.len() != 10 {
            return None;
        }
        let addr = u64_to_i64(read_u64_le(b, 1));
        let seq_no = b[9];
        Some(
            SendablePackets::SendRequestPacket(
                SendRequestPacket {
                    packet: PacketId { source_ip_addr: addr, sequence_number: seq_no },
                },
            ),
        )
    } else if tag == TAG_PAYLOAD {
        if b.len() < 18 {
            return None;
        }
        let count = read_u64_le(b, 10);
        if count != (b.len() - 18) as u64 {
            return None;
        }
        let addr = u64_to_i64(read_u64_le(b, 1));
        let seq_no = b[9];
        let mut payload: Vec<u8> = Vec::new();
        let mut i: usize = 18;
        while i < b.len()
            invariant
                18 <= i <= b@.len(),
                payload@ == b@.subrange(18, i as int),
            decreases b@.len() - i,
        {
            payload.push(b[i]);
            proof {
                assert(payload@ =~= b@.subrange(18, i as int + 1));
            }
            i += 1;
        }
        Some(
            SendablePackets::PayloadPacket(
                PayloadPacket {
                    packet: PacketId { source_ip_addr: addr, sequence_number: seq_no },
                    payload,
                },
            ),
        )
    } else {
        None
    }
}

/// Encode one audio chunk into payload-body bytes.
#[verifier::loop_isolation(false)]
pub fn encode_audio(d: &AudioData) -> (r: Vec<u8>)
    requires
        d.data@.len() <= (usize::MAX - 18) / 2,
    ensures
        r@ == spec_encode_audio(*d),
        d.pos >= 1 && d.data@.len() >= 1 && d.pos + d.data@.len() <= u64::MAX
            ==> audio_wire_ok(r@),
{
    proof {
        if d.pos >= 1 && d.data@.len() >= 1 && d.pos + d.data@.len() <= u64::MAX {
            lemma_encode_audio_wire_ok(*d);
        }
    }
    let mut out: Vec<u8> = Vec::new();
    let cid = d.client_id;
    push_u16_le(&mut out, cid);
    push_u64_le(&mut out, d.pos);
    push_u64_le(&mut out, d.data.len() as u64);
    let ghost header = le2(d.client_id as int) + le8(d.pos as int) + le8(d.data@.len() as int);
    let mut i: usize = 0;
    while i < d.data.len()
        invariant
            i <= d.data@.len(),
            out@ == header + sample_bytes(d.data@.take(i as int)),
        decreases d.data@.len() - i,
    {
        let u = i16_to_u16(d.data[i]);
        out.push((u % 0x100) as u8);
        out.push((u / 0x100) as u8);
        proof {
            assert(u as int / 0x100 < 0x100);
            assert(out@ =~= header + sample_bytes(d.data@.take(i as int + 1)));
        }
        i += 1;
    }
    proof {
        assert(d.data@.take(d.data@.len() as int) =~= d.data@);
        assert(out@ =~= spec_encode_audio(*d));
    }
    out
}

/// Decode payload-body bytes into an audio chunk: `Some` of the chunk they
/// spell exactly when they are well formed, `None` otherwise.
#[verifier::loop_isolation(false)]
pub fn decode_audio(b: &Vec<u8>) -> (r: Option<AudioData>)
    ensures
        r is Some <==> audio_wire_ok(b@),
        r matches Some(d) ==> {
            &&& d.client_id as int == read2(b@, 0)
            &&& d.pos as int == read8(b@, 2)
            &&& d.data@.len() == read8(b@, 10)
            &&& d.pos >= 1
            &&& d.data@.len() >= 1
            &&& d.pos + d.data@.len() <= u64::MAX
            &&& forall|k: int|
                0 <= k < d.data@.len() ==> (#[trigger] d.data@[k]) as int == i16_of_u16(
                    read2(b@, 18 + 2 * k),
                )
        },
{
    if b.len() < 18 {
        return None;
    }
    let count = read_u64_le(b, 10);
    if count > ((usize::MAX - 18) / 2) as u64 {
        proof {
            lemma_audio_len_mismatch(b@, count as int);
        }
        return None;
    }
    if (b.len() - 18) as u64 != 2 * count {
        return None;
    }
    if count == 0 {
        return None;
    }
    let pos = read_u64_le(b, 2);
    if pos == 0 {
        return None;
    }
    if pos > u64::MAX - count {
        return None;
    }
    let cid = read_u16_le(b, 0);
    let n = count as usize;
    let mut data: Vec<i16> = Vec::new();
    let mut k: usize = 0;
    while k < n
        invariant
            k <= n,
            18 + 2 * n <= b@.len(),
            data@.len() == k,
            forall|kk: int|
                0 <= kk < k ==> (#[trigger] data@[kk]) as int == i16_of_u16(read2(b@, 18 + 2 * kk)),
        decreases n - k,
    {
        let u = read_u16_le(b, 18 + 2 * k);
        let s = u16_to_i16(u);
        data.push(s);
        k += 1;
    }
    Some(AudioData { client_id: cid, pos, data })
}

/// A count too large to address leaves the byte string malformed: the
/// sample bytes could never match it.
proof fn lemma_audio_len_mismatch(b: Seq<u8>, count: int)
    requires
        b.len() >= 18,
        b.len() <= usize::MAX,
        count == read8(b, 10),
        count > (usize::MAX - 18) / 2,
    ensures
        !audio_wire_ok(b),
{
}

} // verus!
