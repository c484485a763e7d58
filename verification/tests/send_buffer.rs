use filegate::protocol::send::buffer::Buf;
use filegate::protocol::{create_ack, create_header, create_pkt, BODY_LEN, DATA, FIN, GET, SYNACK};

fn chunk_of_byte(b: u8) -> [u8; BODY_LEN] {
    [b; BODY_LEN]
}

fn filled(n: u8) -> Buf {
    let mut buf = Buf::new(&"./f".to_string(), 100 * 1463);
    for i in 0..n {
        buf.fill_window(&chunk_of_byte(i), BODY_LEN);
    }
    buf
}

#[test]
fn fresh_send_buffer_has_an_empty_window() {
    let buf = Buf::new(&"./f".to_string(), 77);
    assert_eq!(buf.filename(), "./f");
    assert_eq!(buf.size(), 77);
    assert_eq!(buf.start(), 0);
    assert_eq!(buf.next_seq(), 0);
    assert!(buf.is_done());
    assert!(buf.has_room());
    assert!(buf.send().is_empty());
    assert_eq!(buf.print_indicies(), vec![(false, 0u64); 5]);
}

#[test]
fn fill_places_bodies_at_successive_offsets() {
    let mut buf = Buf::new(&"./f".to_string(), 100 * 1463);
    assert!(buf.fill_window(&chunk_of_byte(1), BODY_LEN));
    assert!(buf.fill_window(&chunk_of_byte(2), BODY_LEN));
    assert_eq!(
        buf.print_indicies(),
        vec![(true, 0), (true, 1463), (false, 0), (false, 0), (false, 0)]
    );
    assert_eq!(buf.next_seq(), 2 * 1463);
    assert!(!buf.is_done());
    let pkts = buf.send();
    assert_eq!(pkts.len(), 2);
    assert_eq!(pkts[0], create_pkt(DATA, 0, &chunk_of_byte(1)));
    assert_eq!(pkts[1], create_pkt(DATA, 1463, &chunk_of_byte(2)));
}

#[test]
fn fill_stops_when_the_window_is_full() {
    let mut buf = Buf::new(&"./f".to_string(), 100 * 1463);
    for i in 0..4u8 {
        assert!(buf.fill_window(&chunk_of_byte(i), BODY_LEN));
    }
    assert!(!buf.fill_window(&chunk_of_byte(4), BODY_LEN));
    assert!(!buf.has_room());
    assert_eq!(buf.send().len(), 5);
    // a full window takes nothing more
    assert!(!buf.fill_window(&chunk_of_byte(5), BODY_LEN));
    let pkts = buf.send();
    assert_eq!(pkts.len(), 5);
    for i in 0..5 {
        assert_eq!(pkts[i], create_pkt(DATA, i as u64 * 1463, &chunk_of_byte(i as u8)));
    }
    assert_eq!(buf.next_seq(), 5 * 1463);
}

#[test]
fn fill_stops_at_the_end_of_the_file() {
    let mut buf = Buf::new(&"./f".to_string(), 1463);
    assert!(buf.fill_window(&chunk_of_byte(1), BODY_LEN));
    assert!(!buf.fill_window(&chunk_of_byte(0), 0));
    assert_eq!(buf.send().len(), 1);
    assert_eq!(buf.next_seq(), 1463);
}

#[test]
fn fill_marks_a_short_read_present_and_stops() {
    let mut buf = Buf::new(&"./f".to_string(), 1463 + 10);
    assert!(buf.fill_window(&chunk_of_byte(1), BODY_LEN));
    let mut last = [0u8; BODY_LEN];
    for b in last.iter_mut().take(10) {
        *b = 0x41;
    }
    assert!(!buf.fill_window(&last, 10));
    assert_eq!(
        buf.print_indicies(),
        vec![(true, 0), (true, 1463), (false, 0), (false, 0), (false, 0)]
    );
    let pkts = buf.send();
    assert_eq!(pkts.len(), 2);
    assert_eq!(pkts[1], create_pkt(DATA, 1463, &last));
}

#[test]
fn one_ack_removes_every_body_before_it() {
    let mut buf = filled(5);
    assert!(buf.adjust(&create_ack(3 * 1463)));
    assert_eq!(buf.start(), 3 * 1463);
    assert_eq!(
        buf.print_indicies(),
        vec![(true, 3 * 1463), (true, 4 * 1463), (false, 0), (false, 0), (false, 0)]
    );
    assert_eq!(buf.next_seq(), 5 * 1463);
    let pkts = buf.send();
    assert_eq!(pkts.len(), 2);
    assert_eq!(pkts[0], create_pkt(DATA, 3 * 1463, &chunk_of_byte(3)));
    assert_eq!(pkts[1], create_pkt(DATA, 4 * 1463, &chunk_of_byte(4)));
}

#[test]
fn ack_within_a_body_removes_the_bodies_that_start_before_it() {
    let mut buf = filled(3);
    assert!(buf.adjust(&create_ack(1463 + 1)));
    assert_eq!(buf.start(), 2 * 1463);
    assert_eq!(buf.send().len(), 1);
}

#[test]
fn stale_ack_leaves_the_window_untouched() {
    let mut buf = filled(5);
    assert!(buf.adjust(&create_ack(2 * 1463)));
    let before = buf.print_indicies();
    let packets = buf.send();
    for stale in [0u64, 1, 1463, 2 * 1463] {
        buf.adjust(&create_ack(stale));
        assert_eq!(buf.start(), 2 * 1463);
        assert_eq!(buf.print_indicies(), before);
        assert_eq!(buf.send(), packets);
    }
}

#[test]
fn ack_of_everything_empties_the_window_and_moves_start_on() {
    let mut buf = filled(5);
    assert!(buf.adjust(&create_ack(5 * 1463)));
    assert!(buf.is_done());
    assert_eq!(buf.start(), 5 * 1463);
    assert_eq!(buf.next_seq(), 5 * 1463);
    assert!(buf.send().is_empty());
    // the next body read goes to the offset that follows
    assert!(buf.fill_window(&chunk_of_byte(9), BODY_LEN));
    assert_eq!(buf.send()[0], create_pkt(DATA, 5 * 1463, &chunk_of_byte(9)));
}

#[test]
fn ack_beyond_a_partly_filled_window_moves_start_past_its_last_body() {
    let mut buf = filled(3);
    assert!(buf.adjust(&create_ack(u64::MAX)));
    assert!(buf.is_done());
    assert_eq!(buf.start(), 3 * 1463);
}

#[test]
fn adjust_ignores_what_is_no_acknowledgement() {
    let mut buf = filled(2);
    for flags in [DATA, GET, 0u8, 0x7f] {
        assert!(!buf.adjust(&create_header(flags, 2 * 1463)));
        assert_eq!(buf.start(), 0);
        assert_eq!(buf.send().len(), 2);
    }
}

#[test]
fn adjust_takes_every_flag_from_ack_upwards_as_acknowledgement() {
    for flags in [FIN, SYNACK, 0xffu8] {
        let mut buf = filled(2);
        assert!(buf.adjust(&create_header(flags, 1463)));
        assert_eq!(buf.start(), 1463);
    }
}

#[test]
fn adjust_asks_for_no_read_when_the_window_was_empty() {
    let mut buf = Buf::new(&"./f".to_string(), 0);
    assert!(!buf.adjust(&create_ack(0)));
    assert!(!buf.adjust(&create_ack(1463)));
    assert_eq!(buf.start(), 0);
}

#[test]
fn adjust_asks_for_a_read_only_when_there_is_room() {
    let mut buf = filled(5);
    // nothing acknowledged: the window is still full
    assert!(!buf.adjust(&create_ack(0)));
    assert!(buf.adjust(&create_ack(1463)));
    // a window that is not full asks even after a stale acknowledgement
    assert!(buf.adjust(&create_ack(0)));
}

#[test]
fn window_never_holds_more_than_five_bodies() {
    let mut buf = Buf::new(&"./f".to_string(), 1000 * 1463);
    let mut acked = 0u64;
    for round in 0..40u64 {
        let mut more = buf.has_room();
        while more {
            more = buf.fill_window(&chunk_of_byte(round as u8), BODY_LEN);
        }
        let pkts = buf.send();
        assert!(pkts.len() <= 5);
        assert_eq!(pkts.len(), 5);
        acked += (round % 6) * 1463;
        buf.adjust(&create_ack(acked));
        assert!(buf.send().len() <= 5);
        assert!(buf.start() >= acked.min(buf.next_seq()));
    }
}

#[test]
fn packets_come_in_the_order_of_their_offsets() {
    let mut buf = filled(5);
    buf.adjust(&create_ack(2 * 1463));
    buf.fill_window(&chunk_of_byte(5), BODY_LEN);
    buf.fill_window(&chunk_of_byte(6), 100);
    let pkts = buf.send();
    assert_eq!(pkts.len(), 5);
    for (i, pkt) in pkts.iter().enumerate() {
        assert_eq!(pkt[0], DATA);
        assert_eq!(filegate::protocol::get_seq(pkt), Ok((i as u64 + 2) * 1463));
        assert_eq!(filegate::protocol::get_body(pkt), chunk_of_byte(i as u8 + 2));
    }
}
