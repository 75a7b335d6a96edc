use gtr::codec::{
    decode, encode_flush, encode_line, read_line, Decoder, FramingError, PktLineMessage,
};

fn data_of(msg: PktLineMessage) -> Vec<u8> {
    match msg {
        PktLineMessage::Data(payload) => payload,
        PktLineMessage::Flush => panic!("expected a data line, got a flush"),
    }
}

#[test]
fn encode_flush_is_four_zero_digits() {
    assert_eq!(encode_flush(), b"0000".to_vec());
}

#[test]
fn encode_line_frames_payload_with_length_and_newline() {
    let framed = encode_line(b"want abc").unwrap();
    assert_eq!(framed, b"000dwant abc\n".to_vec());
}

#[test]
fn round_trip_line() {
    let framed = encode_line(b"want 66ef7ea67c18d2341afb8c1521afbab31014e62f").unwrap();
    let (msg, used) = decode(framed.as_slice()).unwrap();
    assert_eq!(used, framed.len());
    assert_eq!(
        data_of(msg),
        b"want 66ef7ea67c18d2341afb8c1521afbab31014e62f\n".to_vec()
    );
}

#[test]
fn round_trip_empty_payload() {
    let framed = encode_line(b"").unwrap();
    assert_eq!(framed, b"0005\n".to_vec());
    let (msg, used) = decode(framed.as_slice()).unwrap();
    assert_eq!(used, 5);
    assert_eq!(data_of(msg), b"\n".to_vec());
}

#[test]
fn flush_identity() {
    let flush = encode_flush();
    let (msg, used) = decode(flush.as_slice()).unwrap();
    assert!(matches!(msg, PktLineMessage::Flush));
    assert_eq!(used, 4);
}

#[test]
fn oversized_payload_rejected() {
    // 65516 payload bytes frame to 65521 bytes, one over the ceiling.
    let too_long = vec![b'x'; 65516];
    assert_eq!(
        encode_line(too_long.as_slice()),
        Err(FramingError::PayloadTooLarge)
    );
    // 65515 payload bytes frame to exactly 65520 and pass.
    let at_limit = vec![b'x'; 65515];
    let framed = encode_line(at_limit.as_slice()).unwrap();
    assert_eq!(framed.len(), 65520);
    assert_eq!(&framed[0..4], b"fff0");
}

#[test]
fn decode_rejects_bad_hex_prefix() {
    assert_eq!(
        decode(b"00zz....".as_slice()),
        Err(FramingError::InvalidLength)
    );
}

#[test]
fn decode_rejects_length_below_frame_size() {
    assert_eq!(decode(b"0001".as_slice()), Err(FramingError::InvalidLength));
    assert_eq!(decode(b"0003abc".as_slice()), Err(FramingError::InvalidLength));
}

#[test]
fn decode_rejects_length_over_ceiling() {
    // fff1 is 65521, one over the protocol ceiling.
    assert_eq!(
        decode(b"fff1".as_slice()),
        Err(FramingError::PayloadTooLarge)
    );
}

#[test]
fn decode_asks_for_more_data() {
    assert_eq!(decode(b"00".as_slice()), Err(FramingError::Incomplete));
    assert_eq!(decode(b"0010abc".as_slice()), Err(FramingError::Incomplete));
}

#[test]
fn decode_accepts_uppercase_hex() {
    let (msg, used) = decode(b"000Dwant abc\n".as_slice()).unwrap();
    assert_eq!(used, 13);
    assert_eq!(data_of(msg), b"want abc\n".to_vec());
}

#[test]
fn read_line_strips_the_length_prefix() {
    assert_eq!(read_line(b"0008abc\n".as_slice()), b"abc\n".to_vec());
}

fn drain(decoder: &mut Decoder) -> Vec<Vec<u8>> {
    let mut out = Vec::new();
    loop {
        match decoder.next_message() {
            Ok(Some(PktLineMessage::Flush)) => out.push(b"<flush>".to_vec()),
            Ok(Some(PktLineMessage::Data(payload))) => out.push(payload),
            Ok(None) => return out,
            Err(e) => panic!("framing error while draining: {:?}", e),
        }
    }
}

#[test]
fn chunking_invariance() {
    // A valid stream: two lines around a flush, decoded as one buffer.
    let mut stream = Vec::new();
    stream.extend_from_slice(encode_line(b"first line").unwrap().as_slice());
    stream.extend_from_slice(encode_flush().as_slice());
    stream.extend_from_slice(encode_line(b"second").unwrap().as_slice());

    let mut whole = Decoder::new();
    whole.push_bytes(stream.as_slice());
    let expected = drain(&mut whole);
    assert_eq!(expected.len(), 3);

    // Split at every byte offset: the same messages come out.
    for cut in 0..=stream.len() {
        let mut decoder = Decoder::new();
        let mut seen = Vec::new();
        decoder.push_bytes(&stream[0..cut]);
        seen.extend(drain(&mut decoder));
        decoder.push_bytes(&stream[cut..]);
        seen.extend(drain(&mut decoder));
        assert_eq!(seen, expected);
    }
}

#[test]
fn decoder_hands_out_bytes_past_the_framed_section() {
    let mut decoder = Decoder::new();
    let mut bytes = b"0008NAK\n".to_vec();
    bytes.extend_from_slice(b"PACKrawdata");
    decoder.push_bytes(bytes.as_slice());
    let first = decoder.next_message().unwrap().unwrap();
    assert_eq!(data_of(first), b"NAK\n".to_vec());
    assert_eq!(decoder.take_remaining(), b"PACKrawdata".to_vec());
    assert_eq!(decoder.pending_len(), 0);
}

#[test]
fn decoder_reports_framing_faults_and_keeps_bytes() {
    let mut decoder = Decoder::new();
    decoder.push_bytes(b"zzzz");
    assert_eq!(decoder.next_message(), Err(FramingError::InvalidLength));
    assert_eq!(decoder.pending_len(), 4);
}
