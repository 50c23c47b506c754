use rdns_resolver::error::DnsError;
use rdns_resolver::packet::{
    answer_rdata, answer_section, build_packet, build_packet_with_id, rdata_fits, HEADER_LENGTH,
    TRANSACTION_ID,
};

fn expected_query(id: [u8; 2], labels: &[&str]) -> Vec<u8> {
    let mut v = vec![id[0], id[1], 1, 0, 0, 1, 0, 0, 0, 0, 0, 0];
    for l in labels {
        v.push(l.len() as u8);
        v.extend_from_slice(l.as_bytes());
    }
    v.push(7);
    v.extend_from_slice(b"in-addr");
    v.push(4);
    v.extend_from_slice(b"arpa");
    v.push(0);
    v.extend_from_slice(&[0, 12, 0, 1]);
    v
}

#[test]
fn build_packet_for_google_dns() {
    let packet = build_packet("8.8.8.8");
    assert_eq!(&packet[..2], &[0x12, 0x34]);
    assert!(packet.len() > 12);
    assert_eq!(packet, expected_query([0x12, 0x34], &["8", "8", "8", "8"]));
}

#[test]
fn build_packet_reverses_the_octets() {
    let packet = build_packet("192.168.1.10");
    assert_eq!(packet, expected_query([0x12, 0x34], &["10", "1", "168", "192"]));
    assert_eq!(packet.len(), 12 + 3 + 2 + 4 + 4 + 14 + 4);
}

#[test]
fn build_packet_header_fields() {
    let packet = build_packet("1.2.3.4");
    assert_eq!(&packet[..HEADER_LENGTH], &[0x12, 0x34, 0x01, 0x00, 0x00, 0x01, 0, 0, 0, 0, 0, 0]);
    assert_eq!(&packet[packet.len() - 4..], &[0, 12, 0, 1]);
    assert_eq!(TRANSACTION_ID, 0x1234);
}

#[test]
fn build_packet_with_other_id() {
    let packet = build_packet_with_id(12 * 256 + 34, "8.8.4.4");
    assert_eq!(packet, expected_query([12, 34], &["4", "4", "8", "8"]));
}

#[test]
fn build_packet_without_dots_is_one_label() {
    let packet = build_packet("2001:db8::1");
    assert_eq!(packet, expected_query([0x12, 0x34], &["2001:db8::1"]));
}

#[test]
fn build_packet_empty_parts_have_zero_length() {
    let packet = build_packet("1..2.");
    let mut expected = vec![0x12, 0x34, 1, 0, 0, 1, 0, 0, 0, 0, 0, 0];
    expected.extend_from_slice(&[0, 1, b'2', 0, 1, b'1']);
    expected.push(7);
    expected.extend_from_slice(b"in-addr");
    expected.push(4);
    expected.extend_from_slice(b"arpa");
    expected.extend_from_slice(&[0, 0, 12, 0, 1]);
    assert_eq!(packet, expected);
}

#[test]
fn build_packet_length_byte_wraps() {
    let long = "a".repeat(300);
    let packet = build_packet(&long);
    assert_eq!(packet[12], (300 % 256) as u8);
    assert_eq!(packet.len(), 12 + 1 + 300 + 14 + 4);
}

#[test]
fn answer_section_skips_question_and_record_header() {
    let response: Vec<u8> = (0u8..40).collect();
    assert_eq!(answer_section(20, &response), Ok((32u8..40).collect::<Vec<u8>>()));
    assert_eq!(answer_section(28, &response), Ok(Vec::new()));
}

#[test]
fn answer_section_rejects_short_reply() {
    let response: Vec<u8> = (0u8..40).collect();
    assert_eq!(answer_section(29, &response), Err(DnsError::InvalidPacketSize));
    assert_eq!(answer_section(usize::MAX, &response), Err(DnsError::InvalidPacketSize));
}

#[test]
fn answer_rdata_reads_length_and_data() {
    let mut response = vec![0u8; 4];
    response.extend_from_slice(&[0xc0, 0x0c, 0, 12, 0, 1, 0, 0, 0, 60, 0, 3]);
    response.extend_from_slice(&[1, b'a', 0, 99, 99]);
    assert!(rdata_fits(&response, 4));
    assert_eq!(answer_rdata(&response, 4), &[1, b'a', 0]);
}

#[test]
fn rdata_fits_rejects_long_length() {
    let mut response = vec![0u8; 4];
    response.extend_from_slice(&[0xc0, 0x0c, 0, 12, 0, 1, 0, 0, 0, 60, 1, 0]);
    response.extend_from_slice(&[1, b'a', 0]);
    assert!(!rdata_fits(&response, 4));
    assert!(!rdata_fits(&response, 10));
    assert!(!rdata_fits(&response, usize::MAX));
}

#[test]
fn error_message() {
    assert_eq!(DnsError::InvalidPacketSize.message(), "Invalid Packet Size");
}
