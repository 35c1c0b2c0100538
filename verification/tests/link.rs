use split_kb_core::codec::{decode, encode, FrameDecoder, FRAME_LEN};
use split_kb_core::event::{mirror, KeyEvent};
use split_kb_core::role::{role_for, route_event, LinkMode, LinkState, Role};

#[test]
fn encode_decode_round_trip() {
    let samples = [
        KeyEvent::Press(0, 0),
        KeyEvent::Release(0, 0),
        KeyEvent::Press(3, 11),
        KeyEvent::Release(255, 255),
        KeyEvent::Press(7, 2),
    ];
    for e in samples {
        let frame = encode(e);
        assert_eq!(frame.len(), FRAME_LEN);
        assert_eq!(decode(&frame), Some(e));
    }
}

#[test]
fn frame_shape_is_tag_row_col_terminator() {
    assert_eq!(encode(KeyEvent::Press(3, 9)), [b'P', 3, 9, b'\n']);
    assert_eq!(encode(KeyEvent::Release(1, 2)), [b'R', 1, 2, b'\n']);
}

#[test]
fn decode_rejects_malformed_windows() {
    assert_eq!(decode(&[b'X', 3, 9, b'\n']), None);
    assert_eq!(decode(&[b'P', 3, 9, 0]), None);
    assert_eq!(decode(&[0, 0, 0, 0]), None);
}

#[test]
fn decoder_accepts_a_clean_frame() {
    let mut d = FrameDecoder::new();
    let frame = encode(KeyEvent::Press(2, 3));
    assert_eq!(d.push_byte(frame[0]), None);
    assert_eq!(d.push_byte(frame[1]), None);
    assert_eq!(d.push_byte(frame[2]), None);
    assert_eq!(d.push_byte(frame[3]), Some(KeyEvent::Press(2, 3)));
}

#[test]
fn decoder_resynchronizes_after_corruption() {
    let mut d = FrameDecoder::new();
    // one stray byte, then a valid frame: only the frame's event comes out
    let mut events = Vec::new();
    let frame = encode(KeyEvent::Release(1, 4));
    for b in [0x37, frame[0], frame[1], frame[2], frame[3]] {
        if let Some(e) = d.push_byte(b) {
            events.push(e);
        }
    }
    assert_eq!(events, vec![KeyEvent::Release(1, 4)]);
}

#[test]
fn decoder_reset_discards_partial_frame() {
    let mut d = FrameDecoder::new();
    let frame = encode(KeyEvent::Press(0, 1));
    d.push_byte(frame[0]);
    d.push_byte(frame[1]);
    d.push_byte(frame[2]);
    d.reset();
    assert_eq!(d.push_byte(frame[3]), None);
}

#[test]
fn role_follows_usb_attachment() {
    assert_eq!(role_for(true), Role::Primary);
    assert_eq!(role_for(false), Role::Secondary);
}

#[test]
fn reconcile_flips_link_and_discards_window() {
    let mut link = LinkState::new(LinkMode::Transmit);
    // becoming primary turns the link around to receive
    assert!(link.reconcile(true));
    assert_eq!(link.mode, LinkMode::Receive);
    // a partially received frame does not survive a direction change
    let frame = encode(KeyEvent::Press(2, 2));
    link.receive_byte(frame[0]);
    link.receive_byte(frame[1]);
    link.receive_byte(frame[2]);
    assert!(link.reconcile(false));
    assert!(link.reconcile(true));
    assert_eq!(link.receive_byte(frame[3]), None);
    // a steady role leaves the link alone
    assert!(!link.reconcile(true));
}

#[test]
fn secondary_routes_events_over_the_link() {
    let e = KeyEvent::Press(1, 2);
    let (frame, local) = route_event(e, Role::Secondary);
    assert_eq!(frame, Some(encode(e)));
    assert_eq!(local, e);
    let (frame, local) = route_event(e, Role::Primary);
    assert_eq!(frame, None);
    assert_eq!(local, e);
}

#[test]
fn mirrored_column_space_is_symmetric() {
    let e = KeyEvent::Press(2, 3);
    let m = mirror(e, 12);
    assert_eq!(m, KeyEvent::Press(2, 8));
    assert_eq!(mirror(m, 12), e);
    // the mirrored event survives the link round trip unchanged
    assert_eq!(decode(&encode(m)), Some(m));
}
