use kaminsky::classes::Class;
use kaminsky::error::DnsError;
use kaminsky::header::{Header, Opcode};
use kaminsky::hostname::Hostname;
use kaminsky::message::Message;
use kaminsky::query::Query;
use kaminsky::question::Question;
use kaminsky::types::Type;

#[test]
fn query_to_message() {
    let query = Query::new(vec!["www.example.com".to_string()]);
    let message = query.to_message().unwrap();

    let expected = Message {
        header: Header {
            id: message.header.id,
            qr: false,
            opcode: Opcode::QUERY,
            aa: false,
            tc: false,
            rd: true,
            ra: false,
            z: 0,
            rcode: 0,
            qdcount: 1,
            ancount: 0,
            nscount: 0,
            arcount: 0,
        },
        questions: vec![Question {
            qname: Hostname::from_string("www.example.com").unwrap(),
            qtype: Type::A,
            qclass: Class::IN,
        }],
        answers: vec![],
        authorities: vec![],
        additionals: vec![],
    };

    assert_eq!(expected, message);
}

#[test]
fn query_message_bytes_with_forced_id() {
    let query = Query::new(vec!["www.example.com".to_string()]);
    let message = query.to_message_with_id(0xdb42).unwrap();
    let bytes = message.to_bytes();

    let expected_header: Vec<u8> = vec![
        0xdb, 0x42, 0b00000001, 0b00000000, 0, 1, 0, 0, 0, 0, 0, 0,
    ];
    assert_eq!(expected_header, bytes[..12].to_vec());

    let mut expected_question: Vec<u8> = Vec::new();
    expected_question.push(3);
    expected_question.extend("www".as_bytes());
    expected_question.push(7);
    expected_question.extend("example".as_bytes());
    expected_question.push(3);
    expected_question.extend("com".as_bytes());
    expected_question.push(0);
    expected_question.extend(&[0x00, 0x01, 0x00, 0x01]);
    assert_eq!(expected_question, bytes[12..].to_vec());
}

#[test]
fn query_ids_are_randomized() {
    let query = Query::new(vec!["www.example.com".to_string()]);
    let mut ids: Vec<u16> = Vec::new();
    for _ in 0..5 {
        ids.push(query.to_message().unwrap().header.id);
    }
    let first = ids[0];
    assert!(
        ids.iter().any(|id| *id != first),
        "five successive query builds returned the same id"
    );
}

#[test]
fn query_rejects_invalid_hostname() {
    let query = Query::new(vec!["not a hostname".to_string()]);
    assert_eq!(DnsError::InvalidHostname, query.to_message().unwrap_err());
}

#[test]
fn query_rejects_too_many_hostnames() {
    let hostnames: Vec<String> = std::iter::repeat("a.b".to_string()).take(65536).collect();
    let query = Query::new(hostnames);
    assert_eq!(DnsError::TooManyHostnames, query.to_message().unwrap_err());
}
