use kaminsky::packet::{build_ipv4_header, build_udp_datagram, forge_packet};

/// One's-complement sum of 16-bit big-endian words, as a receiver
/// verifying a checksum computes it.
fn ones_complement_sum(bytes: &[u8]) -> u16 {
    let mut acc: u32 = 0;
    let mut i = 0;
    while i < bytes.len() {
        let hi = bytes[i] as u32;
        let lo = if i + 1 < bytes.len() {
            bytes[i + 1] as u32
        } else {
            0
        };
        acc += (hi << 8) | lo;
        i += 2;
    }
    while acc > 0xffff {
        acc = (acc & 0xffff) + (acc >> 16);
    }
    acc as u16
}

#[test]
fn ipv4_header_fields() {
    let header = build_ipv4_header([10, 0, 0, 1], [192, 168, 1, 1], 28);
    assert_eq!(20, header.len());
    assert_eq!(0x45, header[0]); // version 4, IHL 5
    assert_eq!([0x00, 0x1c], [header[2], header[3]]); // total length 28
    assert_eq!([0x40, 0x00], [header[6], header[7]]); // DF, no offset
    assert_eq!(64, header[8]); // TTL
    assert_eq!(17, header[9]); // UDP
    assert_eq!([10, 0, 0, 1], [header[12], header[13], header[14], header[15]]);
    assert_eq!([192, 168, 1, 1], [header[16], header[17], header[18], header[19]]);
}

#[test]
fn ipv4_checksum_verifies() {
    let header = build_ipv4_header([1, 2, 3, 4], [5, 6, 7, 8], 100);
    assert_eq!(0xffff, ones_complement_sum(header.as_slice()));
}

#[test]
fn udp_checksum_verifies_over_pseudo_header() {
    let payload: Vec<u8> = vec![0xde, 0xad, 0xbe, 0xef, 0x01];
    let src = [1, 2, 3, 4];
    let dst = [5, 6, 7, 8];
    let datagram = build_udp_datagram(src, dst, 53, 33333, payload.as_slice());

    let udp_len = (8 + payload.len()) as u16;
    let mut check_buffer: Vec<u8> = Vec::new();
    check_buffer.extend(&src);
    check_buffer.extend(&dst);
    check_buffer.push(0);
    check_buffer.push(17);
    check_buffer.extend(&udp_len.to_be_bytes());
    check_buffer.extend(&datagram);
    assert_eq!(0xffff, ones_complement_sum(check_buffer.as_slice()));
}

#[test]
fn udp_checksum_of_empty_payload() {
    // pseudo-header src 1.2.3.4, dst 5.6.7.8, UDP length 8, ports 53 to
    // 33333: the complement of the one's-complement sum is 0x6d60
    let datagram = build_udp_datagram([1, 2, 3, 4], [5, 6, 7, 8], 53, 33333, &[]);
    assert_eq!(8, datagram.len());
    assert_eq!([0x00, 0x35], [datagram[0], datagram[1]]); // source port 53
    assert_eq!([0x82, 0x35], [datagram[2], datagram[3]]); // destination port 33333
    assert_eq!([0x00, 0x08], [datagram[4], datagram[5]]); // length 8
    let checksum = u16::from_be_bytes([datagram[6], datagram[7]]);
    assert_ne!(0, checksum);
    assert_eq!(0x6d60, checksum);
}

#[test]
fn forged_packet_wraps_payload() {
    let payload: Vec<u8> = vec![1, 2, 3];
    let packet = forge_packet([9, 9, 9, 9], [10, 10, 10, 10], payload.as_slice());
    assert_eq!(20 + 8 + 3, packet.len());
    // IP header checksum verifies
    assert_eq!(0xffff, ones_complement_sum(&packet[..20]));
    // total length covers header, UDP header and payload
    assert_eq!([0x00, 31], [packet[2], packet[3]]);
    // spoofed source address in place
    assert_eq!([9, 9, 9, 9], [packet[12], packet[13], packet[14], packet[15]]);
    // payload carried through
    assert_eq!(payload, packet[28..].to_vec());
}
