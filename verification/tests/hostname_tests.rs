use kaminsky::error::DnsError;
use kaminsky::hostname::{parent_domain, CompressedHostnameLabel, Hostname, HostnameLabel, Label};

#[test]
fn test_hostname_from_string() {
    let expected = Hostname(vec![
        Label::NORMAL(HostnameLabel {
            length: 3,
            label: "www".as_bytes().to_vec(),
        }),
        Label::NORMAL(HostnameLabel {
            length: 7,
            label: "example".as_bytes().to_vec(),
        }),
        Label::NORMAL(HostnameLabel {
            length: 3,
            label: "com".as_bytes().to_vec(),
        }),
    ]);
    assert_eq!(expected, Hostname::from_string("www.example.com").unwrap());
}

#[test]
fn simple_hostname_to_bytes() {
    let hostname = Hostname(vec![
        Label::NORMAL(HostnameLabel {
            length: 3,
            label: "www".as_bytes().to_vec(),
        }),
        Label::NORMAL(HostnameLabel {
            length: 7,
            label: "example".as_bytes().to_vec(),
        }),
        Label::NORMAL(HostnameLabel {
            length: 3,
            label: "com".as_bytes().to_vec(),
        }),
    ]);

    let mut expected: Vec<u8> = Vec::new();
    expected.push(3);
    expected.extend("www".as_bytes());
    expected.push(7);
    expected.extend("example".as_bytes());
    expected.push(3);
    expected.extend("com".as_bytes());
    expected.push(0);

    assert_eq!(expected, hostname.to_bytes());
}

#[test]
fn parse_simple_hostname() {
    let extra_bytes = (0x12345678 as u32).to_be_bytes();

    let mut bytes: Vec<u8> = Vec::new();
    bytes.push(3);
    bytes.extend("www".as_bytes());
    bytes.push(7);
    bytes.extend("example".as_bytes());
    bytes.push(3);
    bytes.extend("com".as_bytes());
    bytes.push(0);
    bytes.extend(&extra_bytes);

    let hostname_length = bytes.len() - extra_bytes.len();

    let expected = Hostname(vec![
        Label::NORMAL(HostnameLabel {
            length: 3,
            label: "www".as_bytes().to_vec(),
        }),
        Label::NORMAL(HostnameLabel {
            length: 7,
            label: "example".as_bytes().to_vec(),
        }),
        Label::NORMAL(HostnameLabel {
            length: 3,
            label: "com".as_bytes().to_vec(),
        }),
    ]);

    let result = Hostname::parse(bytes.as_slice()).unwrap();

    assert_eq!(expected, result.hostname);
    assert_eq!(hostname_length, result.parsed_bytes as usize);
}

#[test]
fn parse_compressed_hostname() {
    let extra_bytes = (0x00123456 as u32).to_be_bytes();

    let compressed_pointer: u16 = 0xc00c;

    let mut bytes: Vec<u8> = compressed_pointer.to_be_bytes().to_vec();
    bytes.extend(&extra_bytes);

    let hostname_length = bytes.len() - extra_bytes.len();

    // the decoded pointer is the low 14 bits of the wire word
    let expected = Hostname(vec![Label::COMPRESSED(CompressedHostnameLabel {
        pointer: 0x000c,
    })]);

    let result = Hostname::parse(bytes.as_slice()).unwrap();

    assert_eq!(expected, result.hostname);
    assert_eq!(hostname_length, result.parsed_bytes as usize);
}

#[test]
fn parse_partially_compressed_hostname() {
    let extra_bytes = (0x12345678 as u32).to_be_bytes();

    let compressed_pointer: u16 = 0xc00c;

    // This mimics an example query where perhaps a query that contains a request to
    // www.example.com can shorten another entry that contains service.example.com by using a
    // pointer to example.com
    let mut bytes: Vec<u8> = Vec::new();
    bytes.push(7);
    bytes.extend("service".as_bytes());
    bytes.extend(&compressed_pointer.to_be_bytes());
    bytes.extend(&extra_bytes);

    let hostname_length = bytes.len() - extra_bytes.len();

    let expected = Hostname(vec![
        Label::NORMAL(HostnameLabel {
            length: 7,
            label: "service".as_bytes().to_vec(),
        }),
        Label::COMPRESSED(CompressedHostnameLabel { pointer: 0x000c }),
    ]);

    let result = Hostname::parse(bytes.as_slice()).unwrap();

    assert_eq!(expected, result.hostname);
    assert_eq!(hostname_length, result.parsed_bytes as usize);
}

#[test]
fn compressed_hostname_round_trips() {
    let mut bytes: Vec<u8> = Vec::new();
    bytes.push(7);
    bytes.extend("service".as_bytes());
    bytes.push(0xc0);
    bytes.push(0x0c);

    let parsed = Hostname::parse(bytes.as_slice()).unwrap();
    assert_eq!(bytes, parsed.hostname.to_bytes());
}

#[test]
fn hostname_encoding_round_trips() {
    let hostname = Hostname::from_string("www.example.com").unwrap();
    let bytes = hostname.to_bytes();
    let parsed = Hostname::parse(bytes.as_slice()).unwrap();
    assert_eq!(hostname, parsed.hostname);
    assert_eq!(bytes.len(), parsed.parsed_bytes as usize);
}

#[test]
fn from_string_rejects_empty() {
    assert_eq!(
        DnsError::InvalidHostname,
        Hostname::from_string("").unwrap_err()
    );
}

#[test]
fn from_string_rejects_long_names() {
    let long = "a".repeat(256);
    assert_eq!(
        DnsError::InvalidHostname,
        Hostname::from_string(long.as_str()).unwrap_err()
    );
    // four labels totalling 253 bytes of text are fine
    let mut many_labels = String::new();
    for _ in 0..3 {
        many_labels.push_str(&"a".repeat(63));
        many_labels.push('.');
    }
    many_labels.push_str(&"a".repeat(61));
    assert_eq!(253, many_labels.len());
    assert!(Hostname::from_string(many_labels.as_str()).is_ok());
}

#[test]
fn from_string_rejects_long_labels() {
    let just_short_enough = "a".repeat(63);
    assert!(Hostname::from_string(just_short_enough.as_str()).is_ok());
    let too_long = "a".repeat(64);
    assert_eq!(
        DnsError::InvalidHostname,
        Hostname::from_string(too_long.as_str()).unwrap_err()
    );
    let too_long_in_middle = format!("www.{}.com", "a".repeat(64));
    assert_eq!(
        DnsError::InvalidHostname,
        Hostname::from_string(too_long_in_middle.as_str()).unwrap_err()
    );
}

#[test]
fn from_string_rejects_empty_labels() {
    assert_eq!(
        DnsError::InvalidHostname,
        Hostname::from_string("a..b").unwrap_err()
    );
}

#[test]
fn from_string_rejects_bad_edges() {
    assert_eq!(
        DnsError::InvalidHostname,
        Hostname::from_string("-abc.com").unwrap_err()
    );
    assert_eq!(
        DnsError::InvalidHostname,
        Hostname::from_string("abc.com-").unwrap_err()
    );
    assert_eq!(
        DnsError::InvalidHostname,
        Hostname::from_string(".abc.com").unwrap_err()
    );
}

#[test]
fn from_string_rejects_bad_characters() {
    assert_eq!(
        DnsError::InvalidHostname,
        Hostname::from_string("ab@cd.com").unwrap_err()
    );
    assert_eq!(
        DnsError::InvalidHostname,
        Hostname::from_string("ab cd.com").unwrap_err()
    );
}

#[test]
fn parse_rejects_reserved_length_bits() {
    // 72 is between 64 and 191: neither a plain length nor a pointer
    let bytes: Vec<u8> = vec![72, 1, 2, 3];
    assert_eq!(
        DnsError::ReservedLabelBits,
        Hostname::parse(bytes.as_slice()).unwrap_err()
    );
}

#[test]
fn parse_rejects_non_ascii_label() {
    let bytes: Vec<u8> = vec![2, 0x80, 0x81, 0];
    assert_eq!(
        DnsError::NonAsciiLabel,
        Hostname::parse(bytes.as_slice()).unwrap_err()
    );
}

#[test]
fn parse_rejects_truncated_name() {
    let bytes: Vec<u8> = vec![3, b'w', b'w'];
    assert_eq!(
        DnsError::BufferTooShort,
        Hostname::parse(bytes.as_slice()).unwrap_err()
    );
    let pointer_half: Vec<u8> = vec![0xc0];
    assert_eq!(
        DnsError::BufferTooShort,
        Hostname::parse(pointer_half.as_slice()).unwrap_err()
    );
}

#[test]
fn parse_rejects_overlong_name() {
    // five labels of 63 bytes each encode to more than 255 bytes
    let mut bytes: Vec<u8> = Vec::new();
    for _ in 0..5 {
        bytes.push(63);
        bytes.extend(std::iter::repeat(b'a').take(63));
    }
    bytes.push(0);
    assert_eq!(
        DnsError::ParsedBytesOverflow,
        Hostname::parse(bytes.as_slice()).unwrap_err()
    );
}

#[test]
fn parent_domain_drops_first_label() {
    assert_eq!("example.com", parent_domain("www.example.com").unwrap());
    assert_eq!("com", parent_domain("example.com").unwrap());
    assert_eq!("", parent_domain("com").unwrap());
    assert_eq!(
        DnsError::NonAsciiLabel,
        parent_domain("w\u{fc}rm.example.com").unwrap_err()
    );
}
