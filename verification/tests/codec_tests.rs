use audio_fetch::codec::encode_range_request;

#[test]
fn packet_layout_is_exact() {
    let file_id: Vec<u8> = vec![0xAB; 20];
    let packet = encode_range_request(0x0102, &file_id, 4, 8);
    let mut expected: Vec<u8> = Vec::new();
    expected.extend_from_slice(&[0x01, 0x02]); // channel id
    expected.extend_from_slice(&[0x00, 0x01]); // kind/version
    expected.extend_from_slice(&[0x00, 0x00]);
    expected.extend_from_slice(&[0x00, 0x00, 0x00, 0x00]);
    expected.extend_from_slice(&[0x00, 0x00, 0x9C, 0x40]);
    expected.extend_from_slice(&[0x00, 0x02, 0x00, 0x00]);
    expected.extend_from_slice(&[0xAB; 20]);
    expected.extend_from_slice(&[0x00, 0x00, 0x00, 0x01]); // start word: 4 / 4
    expected.extend_from_slice(&[0x00, 0x00, 0x00, 0x03]); // end word: (4 + 8) / 4
    assert_eq!(packet, expected);
}

#[test]
fn packet_length_is_header_plus_file_id() {
    let file_id: Vec<u8> = vec![0x00; 20];
    let packet = encode_range_request(7, &file_id, 0, 4096);
    assert_eq!(packet.len(), 26 + 20);
}

#[test]
fn word_bounds_are_big_endian() {
    let file_id: Vec<u8> = Vec::new();
    let packet = encode_range_request(0, &file_id, 0x0400, 0x0400);
    // start word 0x100, end word 0x200, at the tail of the packet.
    assert_eq!(&packet[packet.len() - 8..], &[0, 0, 0x01, 0x00, 0, 0, 0x02, 0x00]);
}
