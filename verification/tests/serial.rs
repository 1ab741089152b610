use meshtastic_serial_udp::serial::{
    Handshake, HandshakeAction, HandshakeEvent, HandshakeFailure, RadioMessage,
    HANDSHAKE_TIMEOUT_NANOS,
};
use meshtastic_serial_udp::serial_framing::frame_payload;

#[test]
fn handshake_completes_on_matching_id_only() {
    let mut hs = Handshake::new(42);
    assert_eq!(hs.config_id(), 42);
    assert!(matches!(
        hs.step(HandshakeEvent::Message(RadioMessage::ConfigCompleteId(41))),
        HandshakeAction::Continue
    ));
    assert!(matches!(
        hs.step(HandshakeEvent::Message(RadioMessage::Other)),
        HandshakeAction::Continue
    ));
    assert!(matches!(
        hs.step(HandshakeEvent::Message(RadioMessage::Undecodable)),
        HandshakeAction::Continue
    ));
    assert!(matches!(
        hs.step(HandshakeEvent::Message(RadioMessage::ConfigCompleteId(42))),
        HandshakeAction::Complete
    ));
}

#[test]
fn handshake_hands_out_frames_for_decoding() {
    let mut hs = Handshake::new(1);
    let framed = frame_payload(&[0x38, 0x01]);
    let mut decoded = Vec::new();
    for b in framed {
        match hs.step(HandshakeEvent::Byte(b)) {
            HandshakeAction::Decode(p) => decoded.push(p),
            HandshakeAction::Continue => {}
            _ => panic!("unexpected action"),
        }
    }
    assert_eq!(decoded, vec![vec![0x38, 0x01]]);
}

#[test]
fn handshake_failures() {
    let mut hs = Handshake::new(7);
    assert!(matches!(
        hs.step(HandshakeEvent::Clock(HANDSHAKE_TIMEOUT_NANOS)),
        HandshakeAction::Continue
    ));
    assert!(matches!(
        hs.step(HandshakeEvent::Clock(HANDSHAKE_TIMEOUT_NANOS + 1)),
        HandshakeAction::Fail(HandshakeFailure::TimedOut)
    ));
    assert!(matches!(
        hs.step(HandshakeEvent::EndOfStream),
        HandshakeAction::Fail(HandshakeFailure::PortClosed)
    ));
    assert!(matches!(
        hs.step(HandshakeEvent::ReadFailed),
        HandshakeAction::Fail(HandshakeFailure::ReadFailed)
    ));
    assert!(matches!(hs.step(HandshakeEvent::ReadTimedOut), HandshakeAction::Continue));
}

#[test]
fn handshake_start_gives_a_fresh_reader() {
    let mut hs = Handshake::start();
    let id = hs.config_id();
    assert!(matches!(
        hs.step(HandshakeEvent::Message(RadioMessage::ConfigCompleteId(id))),
        HandshakeAction::Complete
    ));
}
