use filegate::protocol::{
    calculate_index, create_ack, create_header, create_pkt, filename_as_body, get_body, get_seq,
    ACK, BODY_LEN, BODY_LEN_U64, BODY_START, CR, DATA, DONE, FIN, FLAGS_LEN, FLAG_404, FLAG_500,
    GET, HEADER_LEN, LF, POST, SEQ_LEN, SYN, SYNACK, WAIT_TIME, WINDOW_SIZE,
};
use filegate::{Serr, MTU};

fn patterned_body(salt: usize) -> [u8; BODY_LEN] {
    let mut body = [0u8; BODY_LEN];
    for i in 0..BODY_LEN {
        body[i] = ((i * 7 + salt) % 251) as u8;
    }
    body
}

#[test]
fn sizes_of_the_packet_fields() {
    assert_eq!(MTU, 1472);
    assert_eq!(FLAGS_LEN, 1);
    assert_eq!(SEQ_LEN, 8);
    assert_eq!(HEADER_LEN, 9);
    assert_eq!(BODY_START, 9);
    assert_eq!(BODY_LEN, 1463);
    assert_eq!(BODY_LEN_U64, 1463);
    assert_eq!(WINDOW_SIZE, 5);
    assert_eq!(WAIT_TIME, 250);
}

#[test]
fn flag_values_have_the_exact_bit_layout() {
    assert_eq!(DONE, 0x01);
    assert_eq!(FLAG_500, 0x02 | 0x01);
    assert_eq!(FLAG_500, 0x03);
    assert_eq!(FLAG_404, 0x04 | 0x01);
    assert_eq!(FLAG_404, 0x05);
    assert_eq!(GET, 0x20 | 0x08);
    assert_eq!(GET, 0x28);
    assert_eq!(POST, 0x20 | 0x10);
    assert_eq!(POST, 0x30);
    assert_eq!(SYN, 0x20);
    assert_eq!(DATA, 0x40);
    assert_eq!(ACK, 0x80);
    assert_eq!(SYNACK, 0x80 | 0x20);
    assert_eq!(SYNACK, 0xa0);
    assert_eq!(FIN, 0x80 | 0x01);
    assert_eq!(FIN, 0x81);
    assert_eq!(CR, 13);
    assert_eq!(LF, 10);
}

#[test]
fn control_frames_lie_below_data_and_acknowledgements_above() {
    for flags in [DONE, FLAG_500, FLAG_404, GET, POST, SYN] {
        assert!(flags < DATA);
    }
    for flags in [ACK, SYNACK, FIN] {
        assert!(flags >= ACK);
    }
    assert!(DATA < ACK);
}

#[test]
fn header_layout_is_flags_then_big_endian_seq() {
    let pkt = create_header(ACK, 0x0102_0304_0506_0708);
    assert_eq!(pkt.len(), MTU);
    assert_eq!(pkt[0], 0x80);
    assert_eq!(&pkt[1..9], &[1u8, 2, 3, 4, 5, 6, 7, 8]);
    assert!(pkt[9..].iter().all(|b| *b == 0));
}

#[test]
fn header_agrees_with_the_standard_byte_order() {
    for seq in [0u64, 1, 255, 256, 1463, 65_535, 65_536, 0xdead_beef, u64::MAX] {
        let pkt = create_header(DATA, seq);
        assert_eq!(&pkt[1..9], &seq.to_be_bytes());
        let mut bytes = [0u8; 8];
        bytes.copy_from_slice(&pkt[1..9]);
        assert_eq!(u64::from_be_bytes(bytes), seq);
        assert_eq!(get_seq(&pkt), Ok(seq));
    }
}

#[test]
fn seq_and_body_round_trip() {
    let body = patterned_body(3);
    for flag in [DATA, FIN, GET, 0u8, 255u8] {
        for seq in [0u64, 1463, 7 * 1463, 123_456_789_012] {
            let pkt = create_pkt(flag, seq, &body);
            assert_eq!(pkt[0], flag);
            assert_eq!(get_seq(&pkt), Ok(seq));
            assert_eq!(get_body(&pkt), body);
        }
    }
}

#[test]
fn sequence_numbers_near_two_to_the_63_round_trip() {
    let body = patterned_body(11);
    let edge: u64 = 1 << 63;
    for seq in [edge - 2, edge - 1, edge, edge + 1, edge + 1463, u64::MAX - 1, u64::MAX] {
        let pkt = create_pkt(DATA, seq, &body);
        assert_eq!(get_seq(&pkt), Ok(seq));
        assert_eq!(get_body(&pkt), body);
    }
    let pkt = create_header(ACK, edge);
    assert_eq!(&pkt[1..9], &[0x80u8, 0, 0, 0, 0, 0, 0, 0]);
    let pkt = create_header(ACK, edge - 1);
    assert_eq!(&pkt[1..9], &[0x7fu8, 0xff, 0xff, 0xff, 0xff, 0xff, 0xff, 0xff]);
}

#[test]
fn packet_is_header_followed_by_body() {
    let body = patterned_body(5);
    let pkt = create_pkt(DATA, 2926, &body);
    let header = create_header(DATA, 2926);
    assert_eq!(&pkt[..HEADER_LEN], &header[..HEADER_LEN]);
    assert_eq!(&pkt[BODY_START..], &body[..]);
}

#[test]
fn ack_is_a_header_with_the_ack_flag() {
    let pkt = create_ack(4389);
    assert_eq!(pkt, create_header(ACK, 4389));
    assert_eq!(pkt[0], ACK);
    assert_eq!(get_seq(&pkt), Ok(4389));
    assert_eq!(get_body(&pkt), [0u8; BODY_LEN]);
}

#[test]
fn get_body_reads_bytes_nine_to_the_end() {
    let mut pkt = [0u8; MTU];
    for i in 0..MTU {
        pkt[i] = (i % 256) as u8;
    }
    let body = get_body(&pkt);
    for i in 0..BODY_LEN {
        assert_eq!(body[i], ((i + 9) % 256) as u8);
    }
}

#[test]
fn index_is_the_distance_in_bodies() {
    assert_eq!(calculate_index(0, 0), 0);
    assert_eq!(calculate_index(1462, 0), 0);
    assert_eq!(calculate_index(1463, 0), 1);
    assert_eq!(calculate_index(2925, 0), 1);
    assert_eq!(calculate_index(2926, 0), 2);
    assert_eq!(calculate_index(1463 * 9, 1463 * 5), 4);
    assert_eq!(calculate_index(1463 * 9 + 1462, 1463 * 5), 4);
    assert_eq!(calculate_index(1463 * 10, 1463 * 5), 5);
    assert_eq!(calculate_index(77, 77), 0);
}

#[test]
fn filename_body_is_name_then_cr_lf_then_zeros() {
    let body = filename_as_body(&"./hello.txt".to_string()).unwrap();
    assert_eq!(&body[..11], b"./hello.txt");
    assert_eq!(body[11], 13);
    assert_eq!(body[12], 10);
    assert!(body[13..].iter().all(|b| *b == 0));
}

#[test]
fn empty_filename_is_just_cr_lf() {
    let body = filename_as_body(&String::new()).unwrap();
    assert_eq!(body[0], CR);
    assert_eq!(body[1], LF);
    assert!(body[2..].iter().all(|b| *b == 0));
}

#[test]
fn filename_of_the_largest_length_succeeds() {
    let name = "a".repeat(BODY_LEN - 2);
    let body = filename_as_body(&name).unwrap();
    assert_eq!(&body[..BODY_LEN - 2], name.as_bytes());
    assert_eq!(body[BODY_LEN - 2], CR);
    assert_eq!(body[BODY_LEN - 1], LF);
}

#[test]
fn filename_one_byte_too_long_fails_with_server() {
    let name = "a".repeat(BODY_LEN - 1);
    assert_eq!(
        filename_as_body(&name),
        Err(Serr::SERVER("filename exceeds 1461 bytes, cannot fit into packet".to_string()))
    );
    let name = "a".repeat(3 * BODY_LEN);
    assert!(matches!(filename_as_body(&name), Err(Serr::SERVER(_))));
}

#[test]
fn filename_length_counts_bytes_not_characters() {
    // 731 two-byte characters are 1462 bytes: one too many
    let name = "é".repeat(731);
    assert!(matches!(filename_as_body(&name), Err(Serr::SERVER(_))));
    // 730 of them and one more byte are 1461 bytes: the largest that fits
    let mut name = "é".repeat(730);
    name.push('x');
    let body = filename_as_body(&name).unwrap();
    assert_eq!(&body[..1461], name.as_bytes());
    assert_eq!(body[1461], CR);
    assert_eq!(body[1462], LF);
}

#[test]
fn filename_is_recovered_up_to_the_first_cr() {
    for name in ["", "a", "./hello.txt", "./dir/with space/file.bin", "naïve-ütf8.txt"] {
        let body = filename_as_body(&name.to_string()).unwrap();
        let end = body.iter().position(|b| *b == CR).unwrap();
        assert_eq!(&body[..end], name.as_bytes());
        assert_eq!(std::str::from_utf8(&body[..end]).unwrap(), name);
    }
    let name = "b".repeat(BODY_LEN - 2);
    let body = filename_as_body(&name).unwrap();
    let end = body.iter().position(|b| *b == CR).unwrap();
    assert_eq!(end, BODY_LEN - 2);
    assert_eq!(&body[..end], name.as_bytes());
}

#[test]
fn filename_with_a_cr_inside_is_cut_at_it() {
    let body = filename_as_body(&"ab\rcd".to_string()).unwrap();
    let end = body.iter().position(|b| *b == CR).unwrap();
    assert_eq!(&body[..end], b"ab");
    assert_eq!(&body[..7], b"ab\rcd\r\n");
}
