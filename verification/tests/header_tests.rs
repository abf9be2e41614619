use kaminsky::error::DnsError;
use kaminsky::header::{Header, Opcode, PackedHeader};

fn sample_header() -> Header {
    Header {
        id: 0xdb42,
        qr: false,
        opcode: Opcode::QUERY,
        aa: false,
        tc: false,
        rd: true,
        ra: false,
        z: 7, // z should be ignored since RFC 1035 specifies it set to 0
        rcode: 3,
        qdcount: 1,
        ancount: 2,
        nscount: 3,
        arcount: 4,
    }
}

#[test]
fn pack_simple_header() {
    let header = sample_header();

    let expected = PackedHeader {
        data: [0xdb42, 0b0000000100000011, 1, 2, 3, 4],
    };
    assert_eq!(expected, header.pack());
}

#[test]
fn simple_header_to_bytes() {
    let header = sample_header();

    let expected: Vec<u8> = vec![0xdb, 0x42, 0b00000001, 0b00000011, 0, 1, 0, 2, 0, 3, 0, 4];
    assert_eq!(expected, header.to_bytes());
}

#[test]
fn parse_simple_header() {
    let extra_bytes = (0x12345678 as u32).to_le_bytes();

    let mut bytes: Vec<u8> = vec![0xdb, 0x42, 0b00000001, 0b00000011, 0, 1, 0, 2, 0, 3, 0, 4];
    bytes.extend(&extra_bytes);

    let header_length: usize = 12;

    let expected_header = Header {
        id: 0xdb42,
        qr: false,
        opcode: Opcode::QUERY,
        aa: false,
        tc: false,
        rd: true,
        ra: false,
        z: 0,
        rcode: 3,
        qdcount: 1,
        ancount: 2,
        nscount: 3,
        arcount: 4,
    };

    let result = Header::parse(bytes.as_slice()).unwrap();
    assert_eq!(header_length, result.parsed_bytes as usize);
    assert_eq!(expected_header, result.header);
}

#[test]
fn parse_rd_header() {
    let extra_bytes = (0x12345678 as u32).to_le_bytes();

    let mut bytes: Vec<u8> = vec![
        // Header
        0xdb, 0x42, 0b10000001, 0b00000000, 0, 0, 0, 1, 0, 0, 0, 0,
    ];
    bytes.extend(&extra_bytes);

    let header_length: usize = 12;

    let expected_header = Header {
        id: 0xdb42,
        qr: true,
        opcode: Opcode::QUERY,
        aa: false,
        tc: false,
        rd: true,
        ra: false,
        z: 0, // z should always be 0 as per RFC 1035
        rcode: 0,
        qdcount: 0,
        ancount: 1,
        nscount: 0,
        arcount: 0,
    };

    let result = Header::parse(bytes.as_slice()).unwrap();
    assert_eq!(header_length, result.parsed_bytes as usize);
    assert_eq!(expected_header, result.header);
}

#[test]
fn to_and_from_bytes_produce_orginal_input() {
    let header = Header {
        id: 0xdb42,
        qr: false,
        opcode: Opcode::QUERY,
        aa: false,
        tc: false,
        rd: true,
        ra: false,
        z: 0, // z should be set to 0 as specified in RFC 1035
        rcode: 3,
        qdcount: 1,
        ancount: 2,
        nscount: 3,
        arcount: 4,
    };

    assert_eq!(
        header,
        Header::from_bytes(header.to_bytes().as_slice()).unwrap()
    );
}

#[test]
fn from_and_to_bytes_produce_orginal_input() {
    let bytes: [u8; 12] = [0xdb, 0x42, 0b00000001, 0b00000011, 0, 1, 0, 2, 0, 3, 0, 4];
    assert_eq!(
        bytes,
        Header::from_bytes(&bytes).unwrap().to_bytes().as_slice()
    );
}

#[test]
fn parse_rejects_short_buffer() {
    let bytes: [u8; 5] = [0xdb, 0x42, 0, 0, 0];
    assert_eq!(DnsError::BufferTooShort, Header::parse(&bytes).unwrap_err());
}

#[test]
fn parse_rejects_unknown_opcode() {
    // opcode field holds 7
    let bytes: [u8; 12] = [0xdb, 0x42, 0b00111000, 0, 0, 0, 0, 0, 0, 0, 0, 0];
    assert_eq!(
        DnsError::UnsupportedOpcode,
        Header::from_bytes(&bytes).unwrap_err()
    );
}
