use vndf::client::{broadcast_step, BroadcastError};
use vndf::codec::MAX_PACKET_SIZE;
use vndf::message::{Action, Perception};
use vndf::step::Step;
use vndf::tracker::ActionAssembler;

#[test]
fn assemble_twice_gives_identical_bytes() {
    let mut assembler = ActionAssembler::new();
    assembler.add_step(Step::Login);
    let first = assembler.assemble();
    assembler.add_step(Step::StopBroadcast);
    let second = assembler.assemble();
    assert_eq!(first, second);
    assert_eq!(first, b"0\nLOGIN\n".to_vec());
    assert!(assembler.is_pending());
}

#[test]
fn receipt_for_the_batch_advances() {
    let mut assembler = ActionAssembler::new();
    assembler.add_step(Step::Login);
    assembler.assemble();
    assembler.process_receipt(0);
    assert!(!assembler.is_pending());
    assert_eq!(assembler.next_seq(), 1);

    assembler.add_step(Step::StopBroadcast);
    let batch = assembler.assemble();
    assert_eq!(batch, b"1\nSTOP_BROADCAST\n".to_vec());

    // A stale receipt changes nothing.
    assembler.process_receipt(0);
    assert!(assembler.is_pending());
    assert_eq!(assembler.next_seq(), 1);
    assert_eq!(assembler.assemble(), batch);

    // A receipt beyond the batch confirms it as well.
    assembler.process_receipt(9);
    assert!(!assembler.is_pending());
    assert_eq!(assembler.next_seq(), 2);
}

#[test]
fn receipt_while_idle_is_ignored() {
    let mut assembler = ActionAssembler::new();
    assembler.process_receipt(5);
    assert_eq!(assembler.next_seq(), 0);
    assert!(!assembler.is_pending());
}

#[test]
fn empty_queue_gives_a_header_only_batch() {
    let mut assembler = ActionAssembler::new();
    assert!(assembler.can_assemble());
    assert_eq!(assembler.assemble(), b"0\n".to_vec());
}

#[test]
fn part_too_large_is_reported_before_assembling() {
    let mut assembler = ActionAssembler::new();
    assembler.add_step(Step::Broadcast("x".repeat(MAX_PACKET_SIZE)));
    assert!(!assembler.can_assemble());
}

#[test]
fn login_end_to_end() {
    // The client queues a login and sends action 0.
    let mut client = ActionAssembler::new();
    client.add_step(Step::Login);
    let action = client.assemble();
    assert!(action.len() <= MAX_PACKET_SIZE);

    // The server reads it and confirms it in a perception.
    let received = Action::decode(&action).unwrap();
    assert_eq!(received, Action { seq: 0, steps: vec![Step::Login] });
    let perception = Perception { last_action: received.seq, percepts: Vec::new() };
    let reply = perception.encode().unwrap();

    // The client takes the receipt; its next action is number 1.
    let perception = Perception::decode(&reply).unwrap();
    assert_eq!(perception.last_action, 0);
    client.process_receipt(perception.last_action);
    assert!(!client.is_pending());
    client.add_step(Step::StopBroadcast);
    let next = Action::decode(&client.assemble()).unwrap();
    assert_eq!(next.seq, 1);
    assert_eq!(next.steps, vec![Step::StopBroadcast]);
}

#[test]
fn overflowing_steps_spread_over_packets_in_order() {
    let mut client = ActionAssembler::new();
    let mut sent = Vec::new();
    for i in 0..60 {
        let step = Step::Broadcast(format!("Broadcast from client {}", i));
        sent.push(step.clone());
        client.add_step(step);
    }

    let mut delivered = Vec::new();
    let mut packets = 0;
    while delivered.len() < sent.len() {
        let bytes = client.assemble();
        assert!(bytes.len() <= MAX_PACKET_SIZE);
        let action = Action::decode(&bytes).unwrap();
        assert_eq!(action.seq, packets);
        assert!(!action.steps.is_empty());
        delivered.extend(action.steps);
        client.process_receipt(action.seq);
        packets += 1;
    }
    assert!(packets > 1);
    assert_eq!(delivered, sent);
}

#[test]
fn broadcast_input_is_checked() {
    assert_eq!(broadcast_step(String::new()), Err(BroadcastError::Empty));
    assert_eq!(broadcast_step("x".repeat(MAX_PACKET_SIZE / 2 + 1)), Err(BroadcastError::TooLong));
    assert_eq!(broadcast_step("a\nb".to_string()), Err(BroadcastError::LineEnd));
    let longest = "é".repeat(MAX_PACKET_SIZE / 4);
    assert_eq!(broadcast_step(longest.clone()), Ok(Step::Broadcast(longest)));
    assert_eq!(broadcast_step("é".repeat(MAX_PACKET_SIZE / 4 + 1)), Err(BroadcastError::TooLong));
}
