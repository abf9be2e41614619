use kaminsky::kaminsky::{
    attack_messages, build_attack_messages, patch_id, rand_alphanum_string,
    rand_lower_alnum_string, FloodState,
};
use std::collections::HashSet;

#[test]
fn test_random_string_reuses_chars() {
    // number of alphanumeric characters
    const NUM_CHARS: usize = 62;
    let string = rand_alphanum_string(NUM_CHARS + 1);
    let unique_chars: HashSet<char> = string.chars().collect();

    assert_eq!(NUM_CHARS + 1, string.chars().count());
    assert!(unique_chars.len() < string.chars().count());
}

#[test]
fn random_string_is_alphanumeric() {
    let string = rand_alphanum_string(40);
    assert_eq!(40, string.len());
    assert!(string.chars().all(|c| c.is_ascii_alphanumeric()));
}

#[test]
fn random_subdomain_string_is_lowercase() {
    let string = rand_lower_alnum_string(40);
    assert_eq!(40, string.len());
    assert!(string
        .chars()
        .all(|c| c.is_ascii_lowercase() || c.is_ascii_digit()));
}

#[test]
fn attack_round_pairs_query_and_response() {
    let (query, response) = attack_messages("ns.attacker.test", "example.com").unwrap();

    assert_eq!(query.header.id, response.header.id);
    assert!(!query.header.qr);
    assert!(query.header.rd);
    assert_eq!(1, query.header.qdcount);
    assert_eq!(1, query.questions.len());

    assert!(response.header.qr);
    assert!(response.header.aa);
    assert!(response.header.ra);
    assert_eq!(1, response.header.ancount);
    assert_eq!(1, response.header.nscount);
    assert_eq!(0, response.header.arcount);
    assert_eq!(query.questions, response.questions);

    // the answer is intentionally uncacheable; the planted NS record is not
    assert_eq!(0, response.answers[0].ttl);
    assert_eq!(240, response.authorities[0].ttl);
}

#[test]
fn attack_round_uses_fresh_subdomain() {
    let (query_a, _) = attack_messages("ns.attacker.test", "example.com").unwrap();
    let (query_b, _) = attack_messages("ns.attacker.test", "example.com").unwrap();
    // the first label is the 7-character random subdomain
    let bytes_a = query_a.to_bytes();
    let bytes_b = query_b.to_bytes();
    assert_eq!(7, bytes_a[12]);
    assert_eq!(7, bytes_b[12]);
    assert!(bytes_a[13..20]
        .iter()
        .all(|b| b.is_ascii_lowercase() || b.is_ascii_digit()));
    assert_ne!(
        bytes_a[13..20].to_vec(),
        bytes_b[13..20].to_vec(),
        "two rounds drew the same subdomain"
    );
}

#[test]
fn build_attack_messages_rejects_bad_nameserver() {
    let result = build_attack_messages("abc1234.example.com", "example.com", "not a host", 7);
    assert_eq!(kaminsky::error::DnsError::InvalidHostname, result.unwrap_err());
}

#[test]
fn patch_id_rewrites_first_two_bytes() {
    let mut bytes: Vec<u8> = vec![0, 0, 0xaa, 0xbb];
    patch_id(&mut bytes, 0xdb42);
    assert_eq!(vec![0xdb, 0x42, 0xaa, 0xbb], bytes);
}

#[test]
fn flood_stops_after_deadline() {
    let mut state = FloodState::new();
    for k in 0..100u16 {
        let id = state.step(false);
        assert_eq!(Some(k), id);
    }
    // the deadline expires: the current send still happens, then the
    // burst is over
    assert_eq!(Some(100), state.step(true));
    assert_eq!(None, state.step(true));
    assert_eq!(None, state.step(false));
    assert_eq!(101, state.sent);
    assert!(state.sent < 65536);
}

#[test]
fn flood_exhausts_id_space() {
    let mut state = FloodState::new();
    let mut count: u64 = 0;
    while let Some(_) = state.step(false) {
        count += 1;
        assert!(count < 65536);
    }
    assert_eq!(65535, count);
    assert!(state.sent < 65536);
}
