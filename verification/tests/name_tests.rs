use rdns_resolver::error::DnsError;
use rdns_resolver::name::{answer_is_readable, parse_answer, parse_dns_name, rdata_is_readable};
use rdns_resolver::packet::build_packet;

#[test]
fn parse_answer_dns_google() {
    let answer = vec![3, b'd', b'n', b's', 6, b'g', b'o', b'o', b'g', b'l', b'e', 0];
    assert!(answer_is_readable(&answer));
    assert_eq!(parse_answer(&answer).unwrap(), "dns.google");
}

#[test]
fn parse_answer_single_label() {
    let answer = vec![9, b'l', b'o', b'c', b'a', b'l', b'h', b'o', b's', b't', 0];
    assert_eq!(parse_answer(&answer).unwrap(), "localhost");
}

#[test]
fn parse_answer_empty_name() {
    assert_eq!(parse_answer(&[0, 7, 7]).unwrap(), "");
}

#[test]
fn parse_answer_ignores_bytes_after_name() {
    let answer = vec![1, b'a', 1, b'b', 0, 42, 42];
    assert_eq!(parse_answer(&answer).unwrap(), "a.b");
}

#[test]
fn parse_answer_overrun_is_invalid_packet_size() {
    assert_eq!(parse_answer(&[5, b'a', 0]), Err(DnsError::InvalidPacketSize));
    assert_eq!(parse_answer(&[1, b'a', 9, b'b']), Err(DnsError::InvalidPacketSize));
}

#[test]
fn parse_answer_drops_invalid_utf8_label() {
    let answer = vec![2, 0xff, 0xfe, 3, b'c', b'o', b'm', 0];
    assert_eq!(parse_answer(&answer).unwrap(), ".com");
}

#[test]
fn parse_answer_decodes_utf8() {
    let answer = vec![2, 0xc3, 0xa9, 1, b'x', 0];
    assert_eq!(parse_answer(&answer).unwrap(), "\u{e9}.x");
}

#[test]
fn answer_readability() {
    assert!(!answer_is_readable(&[]));
    assert!(!answer_is_readable(&[3, b'a', b'b', b'c']));
    assert!(!answer_is_readable(&[1, b'a', 1, b'b']));
    assert!(answer_is_readable(&[0]));
    assert!(answer_is_readable(&[5, b'a', 0]));
    assert!(answer_is_readable(&[0xc0, 0x0c]));
}

#[test]
fn parse_dns_name_dns_google() {
    let rdata = [3, 100, 110, 115, 6, 103, 111, 111, 103, 108, 101, 0];
    assert!(rdata_is_readable(&rdata));
    assert_eq!(parse_dns_name(&rdata), vec!["dns".to_string(), "google".to_string()]);
}

#[test]
fn parse_dns_name_without_terminator() {
    let rdata = [1, b'a', 2, b'b', b'c'];
    assert_eq!(parse_dns_name(&rdata), vec!["a".to_string(), "bc".to_string()]);
    assert_eq!(parse_dns_name(&[]), Vec::<String>::new());
}

#[test]
fn parse_dns_name_stops_at_zero() {
    let rdata = [1, b'a', 0, 200, 1];
    assert_eq!(parse_dns_name(&rdata), vec!["a".to_string()]);
}

#[test]
fn parse_dns_name_replaces_invalid_utf8() {
    let rdata = [3, b'a', 0xff, b'b', 2, 0xc3, 0xa9];
    assert_eq!(parse_dns_name(&rdata), vec!["a\u{fffd}b".to_string(), "\u{e9}".to_string()]);
}

#[test]
fn rdata_readability() {
    assert!(!rdata_is_readable(&[5, 1]));
    assert!(!rdata_is_readable(&[1, b'a', 3, b'b']));
    assert!(rdata_is_readable(&[]));
    assert!(rdata_is_readable(&[1, b'a']));
}

fn encode(labels: &[&[u8]]) -> Vec<u8> {
    let mut v = Vec::new();
    for l in labels {
        v.push(l.len() as u8);
        v.extend_from_slice(l);
    }
    v
}

#[test]
fn encoded_name_reads_back() {
    let labels: [&[u8]; 3] = [b"www", b"example", b"org"];
    let mut wire = encode(&labels);
    wire.push(0);
    wire.extend_from_slice(&[9, 9, 9]);
    assert_eq!(parse_answer(&wire).unwrap(), "www.example.org");
    assert_eq!(
        parse_dns_name(&wire),
        vec!["www".to_string(), "example".to_string(), "org".to_string()]
    );
    let bare = encode(&labels);
    assert_eq!(
        parse_dns_name(&bare),
        vec!["www".to_string(), "example".to_string(), "org".to_string()]
    );
}

#[test]
fn decoders_agree_on_terminated_name() {
    let wire = [2, b'n', b's', 1, b'1', 0, 77];
    let host = parse_answer(&wire).unwrap();
    let labels = parse_dns_name(&wire);
    assert_eq!(host, labels.join("."));
}

#[test]
fn query_name_reads_back() {
    let packet = build_packet("10.20.30.40");
    let question = &packet[12..];
    assert!(answer_is_readable(question));
    assert_eq!(parse_answer(question).unwrap(), "40.30.20.10.in-addr.arpa");
    assert_eq!(
        parse_dns_name(question),
        vec!["40", "30", "20", "10", "in-addr", "arpa"]
            .into_iter()
            .map(String::from)
            .collect::<Vec<String>>()
    );
}

#[test]
fn parse_answer_misreads_compression_pointer() {
    // A name that starts with a compression pointer is read as a label of
    // length 0xc0, which runs past the end.
    assert_eq!(parse_answer(&[0xc0, 0x0c]), Err(DnsError::InvalidPacketSize));
}
