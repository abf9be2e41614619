use kaminsky::classes::Class;
use kaminsky::error::DnsError;
use kaminsky::hostname::Hostname;
use kaminsky::question::{PackedQuestion, Question};
use kaminsky::types::Type;

#[test]
fn pack_aligned_question() {
    let question = Question {
        qname: Hostname::from_string("www.example.com").unwrap(),
        qtype: Type::A,
        qclass: Class::IN,
    };
    let mut expected_data = Vec::new();
    expected_data.push(3);
    expected_data.extend("www".as_bytes());
    expected_data.push(7);
    expected_data.extend("example".as_bytes());
    expected_data.push(3);
    expected_data.extend("com".as_bytes());
    expected_data.push(0);
    expected_data.extend(&Type::A.to_u16().to_be_bytes());
    expected_data.extend(&Class::IN.to_u16().to_be_bytes());
    let expected = PackedQuestion {
        data: expected_data,
    };
    assert_eq!(expected, question.pack())
}

#[test]
fn parse_question() {
    let extra_bytes = (0x12345678 as u32).to_be_bytes();

    let mut bytes: Vec<u8> = Vec::new();
    bytes.push(3);
    bytes.extend("www".as_bytes());
    bytes.push(7);
    bytes.extend("example".as_bytes());
    bytes.push(3);
    bytes.extend("com".as_bytes());
    bytes.push(0);
    bytes.extend(&Type::A.to_u16().to_be_bytes());
    bytes.extend(&Class::IN.to_u16().to_be_bytes());
    bytes.extend(&extra_bytes);

    let question_length = bytes.len() - extra_bytes.len();

    let expected = Question {
        qname: Hostname::from_string("www.example.com").unwrap(),
        qtype: Type::A,
        qclass: Class::IN,
    };

    let result = Question::parse(bytes.as_slice()).unwrap();

    assert_eq!(expected, result.question);
    assert_eq!(question_length, result.parsed_bytes as usize);
}

#[test]
fn parse_question_rejects_unknown_type() {
    let mut bytes: Vec<u8> = Vec::new();
    bytes.push(1);
    bytes.push(b'a');
    bytes.push(0);
    bytes.extend(&3u16.to_be_bytes()); // no such TYPE in the supported set
    bytes.extend(&Class::IN.to_u16().to_be_bytes());
    assert_eq!(
        DnsError::UnsupportedType,
        Question::parse(bytes.as_slice()).unwrap_err()
    );
}

#[test]
fn parse_question_rejects_unknown_class() {
    let mut bytes: Vec<u8> = Vec::new();
    bytes.push(1);
    bytes.push(b'a');
    bytes.push(0);
    bytes.extend(&Type::A.to_u16().to_be_bytes());
    bytes.extend(&2u16.to_be_bytes()); // only IN is supported
    assert_eq!(
        DnsError::UnsupportedClass,
        Question::parse(bytes.as_slice()).unwrap_err()
    );
}
