use filegate::protocol::{
    create_header, create_pkt, send_buf, Incoming, ACK, BODY_LEN, FIN, FLAG_404, FLAG_500,
    HEADER_LEN, SYNACK,
};
use filegate::{Serr, MTU};

fn reply_with(flags: u8, seq: u64, amt: usize) -> Incoming {
    Incoming::Datagram { amt, bytes: create_header(flags, seq) }
}

#[test]
fn control_timeout_asks_to_send_again() {
    assert_eq!(send_buf(&Incoming::Timeout, ACK, &"f".to_string()), None);
}

#[test]
fn control_reply_with_expected_flags_is_returned() {
    let name = "./f".to_string();
    let r = send_buf(&reply_with(SYNACK, 2926, MTU), SYNACK, &name);
    assert_eq!(r, Some(Ok(create_header(SYNACK, 2926))));
    let r = send_buf(&reply_with(ACK, 0, MTU), ACK, &name);
    assert_eq!(r, Some(Ok(create_header(ACK, 0))));
}

#[test]
fn control_reply_needs_no_body() {
    let name = "./f".to_string();
    let r = send_buf(&reply_with(ACK, 7, HEADER_LEN), ACK, &name);
    assert_eq!(r, Some(Ok(create_header(ACK, 7))));
}

#[test]
fn control_short_reply_is_ignored() {
    let name = "./f".to_string();
    for amt in 0..HEADER_LEN {
        assert_eq!(send_buf(&reply_with(ACK, 7, amt), ACK, &name), None);
        assert_eq!(send_buf(&reply_with(FLAG_404, 0, amt), ACK, &name), None);
        assert_eq!(send_buf(&reply_with(FLAG_500, 0, amt), ACK, &name), None);
    }
}

#[test]
fn control_reply_with_other_flags_is_ignored() {
    let name = "./f".to_string();
    assert_eq!(send_buf(&reply_with(ACK, 0, MTU), SYNACK, &name), None);
    assert_eq!(send_buf(&reply_with(SYNACK, 0, MTU), ACK, &name), None);
    assert_eq!(send_buf(&reply_with(FIN, 0, MTU), ACK, &name), None);
    assert_eq!(send_buf(&reply_with(0, 0, MTU), ACK, &name), None);
}

#[test]
fn control_404_fails_with_dne() {
    let name = "./nope".to_string();
    let r = send_buf(&reply_with(FLAG_404, 0, MTU), SYNACK, &name);
    assert_eq!(r, Some(Err(Serr::DNE("./nope does not exist".to_string()))));
}

#[test]
fn control_500_fails_with_server() {
    let name = "./f".to_string();
    let r = send_buf(&reply_with(FLAG_500, 0, MTU), ACK, &name);
    assert_eq!(r, Some(Err(Serr::SERVER("error with ./f".to_string()))));
}

#[test]
fn control_error_flags_fail_whatever_is_expected() {
    let name = "./f".to_string();
    assert!(matches!(
        send_buf(&reply_with(FLAG_404, 0, MTU), FLAG_404, &name),
        Some(Err(Serr::DNE(_)))
    ));
    assert!(matches!(
        send_buf(&reply_with(FLAG_500, 0, MTU), FLAG_500, &name),
        Some(Err(Serr::SERVER(_)))
    ));
}

#[test]
fn control_reply_is_returned_with_its_body() {
    let mut body = [0u8; BODY_LEN];
    body[0] = 42;
    body[BODY_LEN - 1] = 24;
    let pkt = create_pkt(ACK, 99, &body);
    let r = send_buf(&Incoming::Datagram { amt: MTU, bytes: pkt }, ACK, &"f".to_string());
    assert_eq!(r, Some(Ok(pkt)));
}
