use std::collections::HashSet;

use vndf::codec::{DecodeError, MAX_PACKET_SIZE};
use vndf::message::{Action, Perception};
use vndf::percept::Percept;
use vndf::step::Step;
use vndf::tracker::Assembler;

/// What the game service does with an action packet: read it and confirm it.
fn confirm(message: &[u8]) -> Result<Vec<u8>, DecodeError> {
    let action = Action::decode(message)?;
    let perception = Perception { last_action: action.seq, percepts: Vec::new() };
    Ok(perception.encode().unwrap())
}

fn login(seq: u64) -> Vec<u8> {
    Action { seq, steps: vec![Step::Login] }.encode().unwrap()
}

#[test]
fn it_should_confirm_received_actions() {
    let seq = 512;
    let reply = confirm(&login(seq)).unwrap();

    let perception = Perception::decode(&reply).unwrap();
    assert_eq!(seq, perception.last_action);
}

#[test]
fn it_should_disconnect_clients_sending_invalid_data() {
    let invalid_utf8 = [0x80u8];
    let invalid_message = "This is an invalid message.";

    fn test(invalid_data: &[u8]) {
        assert!(confirm(&login(0)).is_ok());
        assert!(confirm(invalid_data).is_err());

        // Another client is still served.
        assert!(confirm(&login(0)).is_ok());
    }

    test(&invalid_utf8);
    test(invalid_message.as_bytes());
    assert_eq!(Action::decode(&invalid_utf8), Err(DecodeError::EncodingError));
}

#[test]
fn it_should_distribute_large_payloads_over_multiple_packets() {
    let broadcast_text = "Broadcast from client";
    let mut broadcasts = HashSet::new();
    let mut server: Assembler<Percept> = Assembler::new();
    for i in 0..MAX_PACKET_SIZE / broadcast_text.len() + 1 {
        let broadcast = format!("{} {}", broadcast_text, i);
        server.add(Percept::Broadcast { sender: format!("{}", i), message: broadcast.clone() });
        broadcasts.insert(broadcast);
    }

    let mut packets = Vec::new();
    while broadcasts.len() > 0 {
        assert!(packets.len() < 100, "Not all broadcasts arrived.");
        let message = server.assemble();
        let perception = Perception::decode(&message).unwrap();
        for percept in perception.percepts.iter() {
            match percept {
                Percept::Broadcast { message, .. } => {
                    broadcasts.remove(message);
                },
            }
        }
        server.process_receipt(perception.last_action);
        packets.push(message);
    }

    assert!(packets.len() > 1);
    for message in packets.into_iter() {
        assert!(message.len() <= MAX_PACKET_SIZE);
    }
}
