use gtr::codec::{FramingError, PktLineMessage};
use gtr::engine::{
    ack_objects_continue, wait_for_nak, write_message, EngineAction, FailureReason, Negotiation,
    NegotiationRequest, NegotiationState, WireEvent,
};
use gtr::git::pack_file_name;

const WANT: &[u8] = b"66ef7ea67c18d2341afb8c1521afbab31014e62f";
const HAVE: &[u8] = b"da13823f7206ed470cdab7c98285cd706ae1dcbe";

fn data(bytes: &[u8]) -> WireEvent {
    WireEvent::Frame(PktLineMessage::Data(bytes.to_vec()))
}

#[test]
fn no_have_negotiation() {
    let request = NegotiationRequest { want: WANT.to_vec(), have: None };
    let mut engine = Negotiation::new(request);
    assert_eq!(
        engine.current_state(),
        NegotiationState::AwaitingRefAdvertisement
    );

    // Ref advertisement lines are ignored.
    let action = engine.step(data(b"66ef7ea67c18d2341afb8c1521afbab31014e62f HEAD\n"));
    assert_eq!(action, EngineAction::Continue);
    assert_eq!(
        engine.current_state(),
        NegotiationState::AwaitingRefAdvertisement
    );

    // The flush that ends the advertisement triggers the request.
    let action = engine.step(WireEvent::Frame(PktLineMessage::Flush));
    let mut expected = Vec::new();
    expected.extend_from_slice(b"0032want 66ef7ea67c18d2341afb8c1521afbab31014e62f\n");
    expected.extend_from_slice(b"0000");
    expected.extend_from_slice(b"0009done\n");
    assert_eq!(action, EngineAction::Send(expected));
    assert_eq!(
        engine.current_state(),
        NegotiationState::AwaitingAck { expects_continue: false }
    );

    // A bare NAK opens the pack stream.
    let action = engine.step(data(b"NAK\n"));
    assert_eq!(action, EngineAction::BeginPack);
    assert_eq!(engine.current_state(), NegotiationState::StreamingPack);
    assert_eq!(
        pack_file_name("66ef7ea67c18d2341afb8c1521afbab31014e62f"),
        "66ef7ea67c18d2341afb8c1521afbab31014e62f.pack"
    );

    // The end of the child's output completes the negotiation.
    let action = engine.step(WireEvent::EndOfStream);
    assert_eq!(action, EngineAction::Continue);
    assert_eq!(engine.current_state(), NegotiationState::Completed);
}

#[test]
fn have_negotiation_with_continue() {
    let request = NegotiationRequest { want: WANT.to_vec(), have: Some(HAVE.to_vec()) };
    let mut engine = Negotiation::new(request);

    let action = engine.step(WireEvent::Frame(PktLineMessage::Flush));
    let mut expected = Vec::new();
    expected.extend_from_slice(b"0032want 66ef7ea67c18d2341afb8c1521afbab31014e62f\n");
    expected.extend_from_slice(b"0000");
    expected.extend_from_slice(b"0032have da13823f7206ed470cdab7c98285cd706ae1dcbe\n");
    expected.extend_from_slice(b"0000");
    expected.extend_from_slice(b"0009done\n");
    assert_eq!(action, EngineAction::Send(expected));
    assert_eq!(
        engine.current_state(),
        NegotiationState::AwaitingAck { expects_continue: true }
    );

    // An ACK that ends in "continue" keeps the negotiation open.
    let action = engine.step(data(b"ACK da13823f7206ed470cdab7c98285cd706ae1dcbe continue\n"));
    assert_eq!(action, EngineAction::Continue);
    assert_eq!(
        engine.current_state(),
        NegotiationState::AwaitingAck { expects_continue: true }
    );

    // An ACK without "continue" opens the pack stream.
    let action = engine.step(data(b"ACK da13823f7206ed470cdab7c98285cd706ae1dcbe\n"));
    assert_eq!(action, EngineAction::BeginPack);
    assert_eq!(engine.current_state(), NegotiationState::StreamingPack);
}

#[test]
fn informational_lines_are_ignored_while_awaiting_ack() {
    let request = NegotiationRequest { want: WANT.to_vec(), have: None };
    let mut engine = Negotiation::new(request);
    engine.step(WireEvent::Frame(PktLineMessage::Flush));
    let action = engine.step(data(b"shallow 1234\n"));
    assert_eq!(action, EngineAction::Continue);
    assert_eq!(
        engine.current_state(),
        NegotiationState::AwaitingAck { expects_continue: false }
    );
}

#[test]
fn unexpected_exit_mid_negotiation_fails() {
    // The subprocess closes its output while the engine still awaits the
    // advertisement: the negotiation fails instead of hanging.
    let request = NegotiationRequest { want: WANT.to_vec(), have: None };
    let mut engine = Negotiation::new(request);
    engine.step(WireEvent::EndOfStream);
    assert_eq!(
        engine.current_state(),
        NegotiationState::Failed(FailureReason::Framing(FramingError::Incomplete))
    );

    // The same mid-acknowledgement.
    let request = NegotiationRequest { want: WANT.to_vec(), have: None };
    let mut engine = Negotiation::new(request);
    engine.step(WireEvent::Frame(PktLineMessage::Flush));
    engine.step(WireEvent::EndOfStream);
    assert_eq!(
        engine.current_state(),
        NegotiationState::Failed(FailureReason::Framing(FramingError::Incomplete))
    );

    // A terminal state keeps its outcome even if more faults arrive.
    engine.step(WireEvent::ReadFailed);
    assert_eq!(
        engine.current_state(),
        NegotiationState::Failed(FailureReason::Framing(FramingError::Incomplete))
    );
}

#[test]
fn read_fault_and_transport_failure_reporting() {
    let request = NegotiationRequest { want: WANT.to_vec(), have: None };
    let mut engine = Negotiation::new(request);
    engine.step(WireEvent::Frame(PktLineMessage::Flush));
    engine.step(WireEvent::ReadFailed);
    assert_eq!(
        engine.current_state(),
        NegotiationState::Failed(FailureReason::Io)
    );

    let request = NegotiationRequest { want: WANT.to_vec(), have: None };
    let mut engine = Negotiation::new(request);
    engine.on_transport_failure(FailureReason::Spawn);
    assert_eq!(
        engine.current_state(),
        NegotiationState::Failed(FailureReason::Spawn)
    );
    // Terminal outcomes stay.
    engine.on_transport_failure(FailureReason::PackPersist);
    assert_eq!(
        engine.current_state(),
        NegotiationState::Failed(FailureReason::Spawn)
    );
}

#[test]
fn malformed_frame_fails_the_negotiation() {
    let request = NegotiationRequest { want: WANT.to_vec(), have: None };
    let mut engine = Negotiation::new(request);
    engine.step(WireEvent::Frame(PktLineMessage::Flush));
    engine.step(WireEvent::FrameInvalid(FramingError::InvalidLength));
    assert_eq!(
        engine.current_state(),
        NegotiationState::Failed(FailureReason::Framing(FramingError::InvalidLength))
    );
}

#[test]
fn flush_while_awaiting_ack_is_unexpected() {
    let request = NegotiationRequest { want: WANT.to_vec(), have: None };
    let mut engine = Negotiation::new(request);
    engine.step(WireEvent::Frame(PktLineMessage::Flush));
    engine.step(WireEvent::Frame(PktLineMessage::Flush));
    assert_eq!(
        engine.current_state(),
        NegotiationState::Failed(FailureReason::UnexpectedResponse)
    );
}

#[test]
fn oversized_want_fails_when_the_request_is_framed() {
    let request = NegotiationRequest { want: vec![b'a'; 66000], have: None };
    let mut engine = Negotiation::new(request);
    let action = engine.step(WireEvent::Frame(PktLineMessage::Flush));
    assert_eq!(action, EngineAction::Continue);
    assert_eq!(
        engine.current_state(),
        NegotiationState::Failed(FailureReason::Framing(FramingError::PayloadTooLarge))
    );
}

#[test]
fn write_message_lays_out_the_request() {
    let bytes = write_message(b"aa", Some(b"bb")).unwrap();
    assert_eq!(
        bytes,
        b"000cwant aa\n0000000chave bb\n00000009done\n".to_vec()
    );
    let bytes = write_message(b"aa", None).unwrap();
    assert_eq!(bytes, b"000cwant aa\n00000009done\n".to_vec());
    assert_eq!(
        write_message(vec![b'a'; 66000].as_slice(), None),
        Err(FramingError::PayloadTooLarge)
    );
}

#[test]
fn nak_recognition_is_exact() {
    assert!(!wait_for_nak(b"NAK"));
    assert!(wait_for_nak(b"NAKX"));
    assert!(wait_for_nak(b"ACK"));
    assert!(wait_for_nak(b""));
}

#[test]
fn ack_recognition_is_anchored() {
    // Settling acknowledgements: ACK at the start, no trailing continue.
    assert!(ack_objects_continue(b"ACK da13823f"));
    assert!(ack_objects_continue(b"ACK"));
    // Still negotiating: the line ends in continue.
    assert!(!ack_objects_continue(b"ACK da13823f continue"));
    // Not acknowledgements at all.
    assert!(!ack_objects_continue(b"NAK"));
    assert!(!ack_objects_continue(b"xACK"));
    assert!(!ack_objects_continue(b""));
}
