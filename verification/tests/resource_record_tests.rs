use kaminsky::classes::Class;
use kaminsky::hostname::Hostname;
use kaminsky::resource_record::{PackedResourceRecord, ResourceRecord};
use kaminsky::types::Type;

#[test]
fn pack_resource_record() {
    let record = ResourceRecord {
        name: Hostname::from_string("www.example.com").unwrap(),
        rtype: Type::A,
        class: Class::IN,
        ttl: 0x258,
        rdlength: 4,
        rdata: (0x9b211144 as u32).to_be_bytes().to_vec(),
    };

    let mut expected_data = Vec::new();
    expected_data.push(3);
    expected_data.extend("www".as_bytes());
    expected_data.push(7);
    expected_data.extend("example".as_bytes());
    expected_data.push(3);
    expected_data.extend("com".as_bytes());
    expected_data.push(0);
    expected_data.extend(&Type::A.to_u16().to_be_bytes());
    expected_data.extend(&Class::IN.to_u16().to_be_bytes());
    expected_data.extend(&(0x258 as u32).to_be_bytes());
    expected_data.extend(&(4 as u16).to_be_bytes());
    expected_data.extend(&(0x9b211144 as u32).to_be_bytes());
    let expected = PackedResourceRecord {
        data: expected_data,
    };
    assert_eq!(expected, record.pack())
}

#[test]
fn parse_resource_record() {
    let extra_bytes = (0x12345678 as u32).to_be_bytes();

    let mut bytes: Vec<u8> = Vec::new();
    bytes.push(3);
    bytes.extend("www".as_bytes());
    bytes.push(7);
    bytes.extend("example".as_bytes());
    bytes.push(3);
    bytes.extend("com".as_bytes());
    bytes.push(0);
    bytes.extend(&Type::A.to_u16().to_be_bytes());
    bytes.extend(&Class::IN.to_u16().to_be_bytes());
    bytes.extend(&(0x258 as u32).to_be_bytes());
    bytes.extend(&(4 as u16).to_be_bytes());
    bytes.extend(&(0x9b211144 as u32).to_be_bytes());
    bytes.extend(&extra_bytes);

    let record_length = bytes.len() - extra_bytes.len();

    let expected = ResourceRecord {
        name: Hostname::from_string("www.example.com").unwrap(),
        rtype: Type::A,
        class: Class::IN,
        ttl: 0x258,
        rdlength: 4,
        rdata: (0x9b211144 as u32).to_be_bytes().to_vec(),
    };

    let result = ResourceRecord::parse(bytes.as_slice()).unwrap();

    assert_eq!(expected, result.record);
    assert_eq!(record_length, result.parsed_bytes as usize);
}

#[test]
fn resource_record_round_trips() {
    let record = ResourceRecord {
        name: Hostname::from_string("ns.example.com").unwrap(),
        rtype: Type::NS,
        class: Class::IN,
        ttl: 240,
        rdlength: 2,
        rdata: vec![0xab, 0xcd],
    };
    let bytes = record.to_bytes();
    let parsed = ResourceRecord::parse(bytes.as_slice()).unwrap();
    assert_eq!(record, parsed.record);
    assert_eq!(bytes.len(), parsed.parsed_bytes as usize);
}
