use filegate::protocol::receive::buffer::Buf;
use filegate::protocol::{create_ack, create_header, create_pkt, ACK, BODY_LEN, DATA, FIN, GET};
use filegate::ReadData;

fn body_of_byte(b: u8) -> [u8; BODY_LEN] {
    [b; BODY_LEN]
}

fn data_at(seq: u64, b: u8) -> [u8; 1472] {
    create_pkt(DATA, seq, &body_of_byte(b))
}

#[test]
fn fresh_receive_buffer_is_empty() {
    let buf = Buf::new("./f".to_string(), 5000);
    assert_eq!(buf.filename(), "./f");
    assert_eq!(buf.size(), 5000);
    assert_eq!(buf.received(), 0);
    assert_eq!(buf.start(), 0);
    assert!(buf.is_empty());
    assert_eq!(buf.ack(), create_ack(0));
}

#[test]
fn add_stores_a_data_packet_and_counts_a_body() {
    let mut buf = Buf::new("./f".to_string(), 5000);
    assert_eq!(buf.add(&data_at(0, 1)), Ok(ReadData::MORE));
    assert_eq!(buf.received(), 1463);
    assert!(!buf.is_empty());
    assert_eq!(buf.start(), 0);
}

#[test]
fn add_says_done_when_received_reaches_size() {
    let mut buf = Buf::new("./f".to_string(), 2 * 1463 + 1);
    assert_eq!(buf.add(&data_at(0, 1)), Ok(ReadData::MORE));
    assert_eq!(buf.add(&data_at(1463, 2)), Ok(ReadData::MORE));
    assert_eq!(buf.add(&data_at(2926, 3)), Ok(ReadData::DONE));
    assert_eq!(buf.received(), 3 * 1463);
}

#[test]
fn add_says_done_exactly_at_a_multiple_of_the_body_length() {
    let mut buf = Buf::new("./f".to_string(), 2 * 1463);
    assert_eq!(buf.add(&data_at(1463, 2)), Ok(ReadData::MORE));
    assert_eq!(buf.add(&data_at(0, 1)), Ok(ReadData::DONE));
}

#[test]
fn add_drops_what_is_no_data_packet() {
    let mut buf = Buf::new("./f".to_string(), 10);
    for flags in [ACK, FIN, GET, 0u8, 0x41, 0xff] {
        assert_eq!(buf.add(&create_pkt(flags, 0, &body_of_byte(9))), Ok(ReadData::MORE));
        assert_eq!(buf.received(), 0);
    }
    let (chunks, ack) = buf.save_read_data();
    assert!(chunks.is_empty());
    assert_eq!(ack, 0);
}

#[test]
fn add_drops_a_delayed_duplicate_below_start() {
    let mut buf = Buf::new("./f".to_string(), 10 * 1463);
    assert_eq!(buf.add(&data_at(0, 1)), Ok(ReadData::MORE));
    let (chunks, ack) = buf.save_read_data();
    assert_eq!(chunks.len(), 1);
    assert_eq!(ack, 1463);
    assert_eq!(buf.add(&data_at(0, 1)), Ok(ReadData::MORE));
    assert_eq!(buf.received(), 1463);
    let (chunks, ack) = buf.save_read_data();
    assert!(chunks.is_empty());
    assert_eq!(ack, 1463);
}

#[test]
fn add_drops_what_lies_beyond_the_window() {
    let mut buf = Buf::new("./f".to_string(), 100 * 1463);
    assert_eq!(buf.add(&data_at(5 * 1463, 1)), Ok(ReadData::MORE));
    assert_eq!(buf.add(&data_at(50 * 1463, 1)), Ok(ReadData::MORE));
    assert_eq!(buf.add(&data_at(u64::MAX, 1)), Ok(ReadData::MORE));
    assert_eq!(buf.received(), 0);
    assert!(buf.is_empty());
    // the last entry of the window is still accepted
    assert_eq!(buf.add(&data_at(4 * 1463, 1)), Ok(ReadData::MORE));
    assert_eq!(buf.add(&data_at(5 * 1463 - 1, 1)), Ok(ReadData::MORE));
    assert_eq!(buf.received(), 1463);
}

#[test]
fn add_drops_a_duplicate_within_the_window() {
    let mut buf = Buf::new("./f".to_string(), 100 * 1463);
    assert_eq!(buf.add(&data_at(2 * 1463, 7)), Ok(ReadData::MORE));
    assert_eq!(buf.add(&data_at(2 * 1463, 8)), Ok(ReadData::MORE));
    assert_eq!(buf.received(), 1463);
    for seq in [0u64, 1463] {
        assert_eq!(buf.add(&data_at(seq, 1)), Ok(ReadData::MORE));
    }
    let (chunks, _) = buf.save_read_data();
    assert_eq!(chunks.len(), 3);
    // the body that came first was kept
    assert_eq!(chunks[2], vec![7u8; 1463]);
}

#[test]
fn a_dropped_packet_never_says_done() {
    let mut buf = Buf::new("./f".to_string(), 10);
    assert_eq!(buf.add(&data_at(0, 1)), Ok(ReadData::DONE));
    assert_eq!(buf.add(&data_at(0, 1)), Ok(ReadData::MORE));
    let mut empty = Buf::new("./f".to_string(), 0);
    assert_eq!(empty.add(&create_header(ACK, 0)), Ok(ReadData::MORE));
    assert_eq!(empty.add(&data_at(5 * 1463, 1)), Ok(ReadData::MORE));
}

#[test]
fn save_releases_only_the_prefix_that_is_in_order() {
    let mut buf = Buf::new("./f".to_string(), 100 * 1463);
    for (seq, b) in [(1463u64, 2u8), (3 * 1463, 4), (0, 1)] {
        assert_eq!(buf.add(&data_at(seq, b)), Ok(ReadData::MORE));
    }
    let (chunks, ack) = buf.save_read_data();
    assert_eq!(chunks, vec![vec![1u8; 1463], vec![2u8; 1463]]);
    assert_eq!(ack, 2 * 1463);
    assert_eq!(buf.start(), 2 * 1463);
    assert_eq!(buf.ack(), create_ack(2 * 1463));
    // the body after the gap waits
    let (chunks, ack) = buf.save_read_data();
    assert!(chunks.is_empty());
    assert_eq!(ack, 2 * 1463);
    assert_eq!(buf.add(&data_at(2 * 1463, 3)), Ok(ReadData::MORE));
    let (chunks, ack) = buf.save_read_data();
    assert_eq!(chunks, vec![vec![3u8; 1463], vec![4u8; 1463]]);
    assert_eq!(ack, 4 * 1463);
}

#[test]
fn save_releases_a_whole_window_at_once() {
    let mut buf = Buf::new("./f".to_string(), 100 * 1463);
    for i in (0..5u64).rev() {
        assert_eq!(buf.add(&data_at(i * 1463, i as u8)), Ok(ReadData::MORE));
    }
    let (chunks, ack) = buf.save_read_data();
    assert_eq!(chunks.len(), 5);
    for i in 0..5 {
        assert_eq!(chunks[i], vec![i as u8; 1463]);
    }
    assert_eq!(ack, 5 * 1463);
    // the window has moved on: the next five offsets are accepted
    assert_eq!(buf.add(&data_at(9 * 1463, 9)), Ok(ReadData::MORE));
    assert_eq!(buf.add(&data_at(10 * 1463, 9)), Ok(ReadData::MORE));
    assert_eq!(buf.received(), 6 * 1463);
}

#[test]
fn save_trims_the_last_chunk_to_the_size_of_the_file() {
    let mut buf = Buf::new("./f".to_string(), 1463 + 10);
    assert_eq!(buf.add(&data_at(0, 0x41)), Ok(ReadData::MORE));
    assert_eq!(buf.add(&data_at(1463, 0x41)), Ok(ReadData::DONE));
    let (chunks, ack) = buf.save_read_data();
    assert_eq!(chunks.len(), 2);
    assert_eq!(chunks[0], vec![0x41u8; 1463]);
    assert_eq!(chunks[1], vec![0x41u8; 10]);
    assert_eq!(ack, 2 * 1463);
}

#[test]
fn data_size_is_a_body_or_what_is_left_of_the_file() {
    let mut buf = Buf::new("./f".to_string(), 2 * 1463 + 1);
    assert_eq!(buf.get_data_size(), 1463);
    assert_eq!(buf.add(&data_at(0, 1)), Ok(ReadData::MORE));
    buf.save_read_data();
    assert_eq!(buf.get_data_size(), 1463);
    assert_eq!(buf.add(&data_at(1463, 1)), Ok(ReadData::MORE));
    buf.save_read_data();
    assert_eq!(buf.get_data_size(), 1);
    assert_eq!(buf.add(&data_at(2926, 1)), Ok(ReadData::DONE));
    buf.save_read_data();
    assert_eq!(buf.get_data_size(), 0);
    assert_eq!(Buf::new("./f".to_string(), 0).get_data_size(), 0);
    assert_eq!(Buf::new("./f".to_string(), 1).get_data_size(), 1);
    assert_eq!(Buf::new("./f".to_string(), 1462).get_data_size(), 1462);
    assert_eq!(Buf::new("./f".to_string(), 1463).get_data_size(), 1463);
    assert_eq!(Buf::new("./f".to_string(), 1464).get_data_size(), 1463);
    assert_eq!(Buf::new("./f".to_string(), u64::MAX).get_data_size(), 1463);
}

#[test]
fn same_data_packet_twice_is_as_good_as_once() {
    let mut once = Buf::new("./f".to_string(), 3 * 1463);
    let mut twice = Buf::new("./f".to_string(), 3 * 1463);
    let mut acks_once = Vec::new();
    let mut acks_twice = Vec::new();
    let mut file_once: Vec<u8> = Vec::new();
    let mut file_twice: Vec<u8> = Vec::new();
    for (seq, b) in [(1463u64, 2u8), (0, 1), (2926, 3)] {
        let pkt = data_at(seq, b);
        let r = once.add(&pkt);
        let (chunks, ack) = once.save_read_data();
        chunks.iter().for_each(|c| file_once.extend_from_slice(c));
        acks_once.push(ack);

        assert_eq!(twice.add(&pkt), r);
        assert_eq!(twice.add(&pkt), Ok(ReadData::MORE));
        let (chunks, ack) = twice.save_read_data();
        chunks.iter().for_each(|c| file_twice.extend_from_slice(c));
        acks_twice.push(ack);
        assert_eq!(twice.add(&pkt), Ok(ReadData::MORE));
        let (chunks, ack) = twice.save_read_data();
        assert!(chunks.is_empty());
        assert_eq!(ack, *acks_twice.last().unwrap());
        assert_eq!(twice.received(), once.received());
    }
    assert_eq!(acks_once, vec![0, 2 * 1463, 3 * 1463]);
    assert_eq!(acks_once, acks_twice);
    assert_eq!(file_once, file_twice);
    assert_eq!(file_once.len(), 3 * 1463);
}

#[test]
fn acknowledged_offset_never_goes_down() {
    let mut buf = Buf::new("./f".to_string(), 40 * 1463);
    let mut last = 0u64;
    let order = [3u64, 0, 1, 0, 9, 2, 7, 4, 5, 6, 6, 8, 1, 12, 10, 9, 11, 13, 2, 14];
    for i in order {
        let _ = buf.add(&data_at(i * 1463, i as u8));
        let (_, ack) = buf.save_read_data();
        assert!(ack >= last);
        assert_eq!(ack, buf.start());
        last = ack;
    }
    assert_eq!(last, 15 * 1463);
}

#[test]
fn a_packet_off_the_grid_goes_to_the_entry_of_its_stretch() {
    let mut buf = Buf::new("./f".to_string(), 10 * 1463);
    // offset 5 lies in the first body: the packet takes the first entry
    assert_eq!(buf.add(&data_at(5, 1)), Ok(ReadData::MORE));
    assert_eq!(buf.add(&data_at(0, 2)), Ok(ReadData::MORE));
    assert_eq!(buf.received(), 1463);
    let (chunks, ack) = buf.save_read_data();
    assert_eq!(chunks, vec![vec![1u8; 1463]]);
    assert_eq!(ack, 1463);
}
