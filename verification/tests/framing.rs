use chat_relay::envelope::{ClientId, Envelope, MAX_PAYLOAD};
use chat_relay::reader::{frame, Disconnect, Framing, ReadOutcome};

#[test]
fn envelope_keeps_sender_and_payload() {
    let envelope = Envelope::new(ClientId(7), vec![1, 2, 3]).expect("a short payload is carried");
    assert_eq!(envelope.sender(), ClientId(7));
    assert_eq!(envelope.payload(), &[1u8, 2, 3][..]);
}

#[test]
fn envelope_refuses_empty_payload() {
    assert!(Envelope::new(ClientId(0), Vec::new()).is_none());
}

#[test]
fn envelope_takes_largest_payload() {
    let payload = vec![42u8; MAX_PAYLOAD];
    let envelope = Envelope::new(ClientId(1), payload.clone()).expect("the largest payload fits");
    assert_eq!(envelope.payload().len(), 2048);
    assert_eq!(envelope.payload(), &payload[..]);
}

#[test]
fn envelope_refuses_payload_over_the_limit() {
    assert!(Envelope::new(ClientId(1), vec![0u8; MAX_PAYLOAD + 1]).is_none());
}

#[test]
fn max_payload_is_2048() {
    assert_eq!(MAX_PAYLOAD, 2048);
}

#[test]
fn failed_read_ends_the_connection() {
    let buf = [0u8; 16];
    let step = frame(ClientId(3), Framing::Verbatim, &buf, ReadOutcome::Failed);
    assert_eq!(step, Err(Disconnect::ReadFailed));
}

#[test]
fn zero_bytes_is_end_of_stream() {
    let buf = [9u8; 16];
    let step = frame(ClientId(3), Framing::Verbatim, &buf, ReadOutcome::Received(0));
    assert_eq!(step, Err(Disconnect::EndOfStream));
}

#[test]
fn more_bytes_than_the_buffer_holds_is_oversized() {
    let buf = [9u8; 16];
    let step = frame(ClientId(3), Framing::Verbatim, &buf, ReadOutcome::Received(17));
    assert_eq!(step, Err(Disconnect::Oversized));
}

#[test]
fn more_bytes_than_one_message_may_carry_is_oversized() {
    let buf = vec![9u8; 4096];
    let step = frame(ClientId(3), Framing::Verbatim, &buf, ReadOutcome::Received(MAX_PAYLOAD + 1));
    assert_eq!(step, Err(Disconnect::Oversized));
}

#[test]
fn payload_is_exactly_the_bytes_read() {
    let mut buf = [0u8; 2048];
    buf[..5].copy_from_slice(b"hello");
    let envelope = frame(ClientId(4), Framing::Verbatim, &buf, ReadOutcome::Received(5))
        .expect("five bytes are a message");
    assert_eq!(envelope.sender(), ClientId(4));
    assert_eq!(envelope.payload(), b"hello");
}

#[test]
fn zero_bytes_inside_the_message_are_kept() {
    let buf = [b'a', 0, b'b', 0, 0, b'c', 7, 7];
    let envelope = frame(ClientId(4), Framing::Verbatim, &buf, ReadOutcome::Received(6))
        .expect("six bytes are a message");
    assert_eq!(envelope.payload(), &[b'a', 0, b'b', 0, 0, b'c'][..]);
}

#[test]
fn full_buffer_without_zero_byte_is_taken_whole() {
    let mut buf = [0u8; 2048];
    for (i, byte) in buf.iter_mut().enumerate() {
        *byte = (i % 251) as u8 + 1;
    }
    let envelope = frame(ClientId(5), Framing::Verbatim, &buf, ReadOutcome::Received(2048))
        .expect("a full buffer is a message");
    assert_eq!(envelope.payload().len(), 2048);
    assert_eq!(envelope.payload(), &buf[..]);
}

#[test]
fn short_message_after_a_full_one_is_not_corrupted() {
    let mut buf = [b'x'; 2048];
    let first = frame(ClientId(5), Framing::Verbatim, &buf, ReadOutcome::Received(2048))
        .expect("a full buffer is a message");
    assert_eq!(first.payload(), &[b'x'; 2048][..]);
    // The next read overwrites the front of the same buffer only.
    buf[..3].copy_from_slice(b"abc");
    let second = frame(ClientId(5), Framing::Verbatim, &buf, ReadOutcome::Received(3))
        .expect("three bytes are a message");
    assert_eq!(second.payload(), b"abc");
    assert_eq!(first.payload(), &[b'x'; 2048][..]);
}

#[test]
fn verbatim_framing_takes_bytes_that_are_no_text() {
    let buf = [0xffu8, 0xfe, 0x80, 0x00];
    let envelope = frame(ClientId(6), Framing::Verbatim, &buf, ReadOutcome::Received(4))
        .expect("any bytes are a message");
    assert_eq!(envelope.payload(), &buf[..]);
}

#[test]
fn text_framing_takes_well_formed_utf8() {
    let text = "gr\u{fc}\u{df} dich, \u{4e16}\u{754c} \u{1f600}";
    let envelope = frame(
        ClientId(6),
        Framing::Text,
        text.as_bytes(),
        ReadOutcome::Received(text.len()),
    )
    .expect("well-formed text is a message");
    assert_eq!(envelope.payload(), text.as_bytes());
}

#[test]
fn text_framing_refuses_bytes_that_are_no_text() {
    let buf = [b'o', b'k', 0xff, b'!'];
    let step = frame(ClientId(6), Framing::Text, &buf, ReadOutcome::Received(4));
    assert_eq!(step, Err(Disconnect::Malformed));
}

#[test]
fn text_framing_refuses_a_character_cut_in_two() {
    let text = "a\u{20ac}";
    let bytes = text.as_bytes();
    assert_eq!(bytes.len(), 4);
    let step = frame(ClientId(6), Framing::Text, bytes, ReadOutcome::Received(3));
    assert_eq!(step, Err(Disconnect::Malformed));
    let whole = frame(ClientId(6), Framing::Text, bytes, ReadOutcome::Received(4));
    assert!(whole.is_ok());
}

#[test]
fn text_framing_refuses_surrogates_and_overlong_forms() {
    let surrogate = [0xedu8, 0xa0, 0x80];
    assert_eq!(
        frame(ClientId(6), Framing::Text, &surrogate, ReadOutcome::Received(3)),
        Err(Disconnect::Malformed)
    );
    let overlong = [0xc0u8, 0xaf];
    assert_eq!(
        frame(ClientId(6), Framing::Text, &overlong, ReadOutcome::Received(2)),
        Err(Disconnect::Malformed)
    );
}

#[test]
fn text_framing_looks_only_at_the_bytes_read() {
    let buf = [b'h', b'i', 0xff, 0xff];
    let envelope = frame(ClientId(6), Framing::Text, &buf, ReadOutcome::Received(2))
        .expect("the two bytes read are text");
    assert_eq!(envelope.payload(), b"hi");
}

#[test]
fn end_of_stream_comes_before_any_other_check() {
    let buf: [u8; 0] = [];
    assert_eq!(
        frame(ClientId(1), Framing::Text, &buf, ReadOutcome::Received(0)),
        Err(Disconnect::EndOfStream)
    );
    assert_eq!(
        frame(ClientId(1), Framing::Text, &buf, ReadOutcome::Received(1)),
        Err(Disconnect::Oversized)
    );
}
