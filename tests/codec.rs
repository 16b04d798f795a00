use vndf::assembler::encode_batch;
use vndf::codec::{decode, encode, DecodeError, EncodeError, MAX_PACKET_SIZE};
use vndf::message::{Action, Perception};
use vndf::part::{Field, MessagePart, PartError};
use vndf::percept::Percept;
use vndf::step::Step;

fn broadcast(text: &str) -> Step {
    Step::Broadcast(text.to_string())
}

fn percept(sender: &str, message: &str) -> Percept {
    Percept::Broadcast { sender: sender.to_string(), message: message.to_string() }
}

fn step_error(message: &[u8]) -> DecodeError {
    Action::decode(message).unwrap_err()
}

#[test]
fn action_encodes_to_exact_lines() {
    let action = Action {
        seq: 7,
        steps: vec![
            Step::Login,
            broadcast("hello world"),
            Step::StopBroadcast,
            Step::ScheduleManeuver { delay: 3, angle: 1571 },
        ],
    };
    let bytes = action.encode().unwrap();
    assert_eq!(
        bytes,
        b"7\nLOGIN\nBROADCAST hello world\nSTOP_BROADCAST\nSCHEDULE_MANEUVER 3 1571\n".to_vec()
    );
    assert_eq!(Action::decode(&bytes).unwrap(), action);
}

#[test]
fn perception_round_trips_with_non_ascii_text() {
    let perception = Perception {
        last_action: 42,
        percepts: vec![percept("alice", "héllo wörld ✓"), percept("bob", "")],
    };
    let bytes = perception.encode().unwrap();
    assert_eq!(bytes, "42\nBROADCAST alice héllo wörld ✓\nBROADCAST bob \n".as_bytes().to_vec());
    let decoded = Perception::decode(&bytes).unwrap();
    assert_eq!(decoded, perception);
    match &decoded.percepts[0] {
        Percept::Broadcast { message, .. } => assert_eq!(message, "héllo wörld ✓"),
    }
}

#[test]
fn header_is_decimal_without_leading_zeros() {
    let empty: Vec<Step> = Vec::new();
    assert_eq!(encode(0, &empty, MAX_PACKET_SIZE).unwrap(), b"0\n".to_vec());
    assert_eq!(
        encode(u64::MAX, &empty, MAX_PACKET_SIZE).unwrap(),
        b"18446744073709551615\n".to_vec()
    );
    let (header, parts) = decode::<Step>(b"18446744073709551615\n").unwrap();
    assert_eq!(header, u64::MAX);
    assert!(parts.is_empty());
    assert_eq!(decode::<Step>(b"007\nLOGIN").unwrap().0, 7);
}

#[test]
fn header_errors() {
    assert_eq!(step_error(b""), DecodeError::MissingHeader);
    let invalid = DecodeError::HeaderDecodeError(PartError::InvalidNumber(Field::Sequence));
    assert_eq!(step_error(b"18446744073709551616\n"), invalid);
    assert_eq!(step_error(b"abc\nLOGIN\n"), invalid);
    assert_eq!(step_error(b"\nLOGIN\n"), invalid);
    assert_eq!(step_error(b"-1\n"), invalid);
}

#[test]
fn step_errors_name_the_field() {
    let part = |e| DecodeError::PartDecodeError(e);
    assert_eq!(step_error(b"1\nFOO\n"), part(PartError::UnknownTag));
    assert_eq!(step_error(b"1\nLOGIN now\n"), part(PartError::UnexpectedField));
    assert_eq!(step_error(b"1\nSTOP_BROADCAST x\n"), part(PartError::UnexpectedField));
    assert_eq!(step_error(b"1\nBROADCAST\n"), part(PartError::MissingField(Field::Text)));
    assert_eq!(step_error(b"1\nSCHEDULE_MANEUVER\n"), part(PartError::MissingField(Field::Delay)));
    assert_eq!(step_error(b"1\nSCHEDULE_MANEUVER 4\n"), part(PartError::MissingField(Field::Angle)));
    assert_eq!(step_error(b"1\nSCHEDULE_MANEUVER x 4\n"), part(PartError::InvalidNumber(Field::Delay)));
    assert_eq!(step_error(b"1\nSCHEDULE_MANEUVER 4 y\n"), part(PartError::InvalidNumber(Field::Angle)));
    assert_eq!(step_error(b"1\nSCHEDULE_MANEUVER 4 5 6\n"), part(PartError::InvalidNumber(Field::Angle)));
}

#[test]
fn first_bad_part_decides() {
    assert_eq!(
        step_error(b"1\nLOGIN\nFOO\nLOGIN x\n"),
        DecodeError::PartDecodeError(PartError::UnknownTag)
    );
}

#[test]
fn empty_lines_are_skipped() {
    let action = Action::decode(b"3\n\nLOGIN\n\n\nSTOP_BROADCAST").unwrap();
    assert_eq!(action, Action { seq: 3, steps: vec![Step::Login, Step::StopBroadcast] });
}

#[test]
fn percept_errors_name_the_field() {
    let error = |m: &[u8]| Perception::decode(m).unwrap_err();
    let part = |e| DecodeError::PartDecodeError(e);
    assert_eq!(error(b"1\nLOGIN\n"), part(PartError::UnknownTag));
    assert_eq!(error(b"1\nBROADCAST\n"), part(PartError::MissingField(Field::Sender)));
    assert_eq!(error(b"1\nBROADCAST bob\n"), part(PartError::MissingField(Field::Message)));
    assert_eq!(error(&[0x31, 0x0a, 0xff]), DecodeError::EncodingError);
}

#[test]
fn invalid_text_in_a_line_is_named() {
    let line = b"BROADCAST \x80";
    assert_eq!(Step::read(line, 0, line.len()), Err(PartError::InvalidText(Field::Text)));
    let line = b"BROADCAST \xc3 hi";
    assert_eq!(Percept::read(line, 0, line.len()), Err(PartError::InvalidText(Field::Sender)));
    let line = b"BROADCAST bob \xc3";
    assert_eq!(Percept::read(line, 0, line.len()), Err(PartError::InvalidText(Field::Message)));
    let line = b"xxBROADCAST bob hi!yy";
    assert_eq!(
        Percept::read(line, 2, line.len() - 2),
        Ok(percept("bob", "hi!"))
    );
}

#[test]
fn encodability_of_text_fields() {
    assert!(broadcast("two words").is_encodable());
    assert!(!broadcast("two\nlines").is_encodable());
    assert!(percept("bob", "a b c").is_encodable());
    assert!(!percept("bob smith", "hi").is_encodable());
    assert!(!percept("bob", "a\nb").is_encodable());
}

#[test]
fn encode_refuses_rather_than_truncates() {
    // "0\n" and one "BROADCAST <text>\n" line fill the packet exactly.
    let text = "x".repeat(MAX_PACKET_SIZE - 2 - 11);
    let exact = Action { seq: 0, steps: vec![broadcast(&text)] };
    assert_eq!(exact.encode().unwrap().len(), MAX_PACKET_SIZE);
    let over = Action { seq: 0, steps: vec![broadcast(&format!("{}x", text))] };
    assert_eq!(over.encode(), Err(EncodeError::CapacityExceeded));
    assert_eq!(encode(10, &[Step::Login], 8), Err(EncodeError::CapacityExceeded));
    assert_eq!(encode(10, &[Step::Login], 9), Ok(b"10\nLOGIN\n".to_vec()));
}

#[test]
fn corrupted_byte_then_valid_packet() {
    let valid = Action { seq: 5, steps: vec![Step::Login] }.encode().unwrap();
    let mut corrupted = valid.clone();
    corrupted[3] = 0xc3;
    assert_eq!(Action::decode(&corrupted), Err(DecodeError::EncodingError));
    assert_eq!(Action::decode(&valid).unwrap(), Action { seq: 5, steps: vec![Step::Login] });
}

#[test]
fn greedy_packing_takes_the_longest_prefix_that_fits() {
    // "0\n" is 2 bytes, each "BROADCAST a\n" 12: two take 26 bytes, three 38.
    let mut queue = vec![broadcast("a"), broadcast("b"), broadcast("c"), broadcast("d")];
    let (bytes, n) = encode_batch(0, &mut queue, 26 + 11).unwrap();
    assert_eq!(n, 2);
    assert_eq!(bytes, b"0\nBROADCAST a\nBROADCAST b\n".to_vec());
    assert_eq!(queue, vec![broadcast("c"), broadcast("d")]);
}

#[test]
fn greedy_packing_never_reorders() {
    // The second part does not fit, though the third would.
    let mut queue = vec![broadcast("a"), broadcast("long text"), Step::Login];
    let (bytes, n) = encode_batch(0, &mut queue, 20).unwrap();
    assert_eq!(n, 1);
    assert_eq!(bytes, b"0\nBROADCAST a\n".to_vec());
    assert_eq!(queue, vec![broadcast("long text"), Step::Login]);
}

#[test]
fn greedy_packing_refuses_a_first_part_too_large() {
    let mut queue = vec![broadcast("abc"), Step::Login];
    assert_eq!(encode_batch(0, &mut queue, 10), Err(EncodeError::CapacityExceeded));
    assert_eq!(queue, vec![broadcast("abc"), Step::Login]);
    let mut empty: Vec<Step> = Vec::new();
    assert_eq!(encode_batch(100, &mut empty, 3), Err(EncodeError::CapacityExceeded));
    assert_eq!(encode_batch(100, &mut empty, 4), Ok((b"100\n".to_vec(), 0)));
}
