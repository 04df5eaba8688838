use chatroom_core::msg::Message;
use chatroom_core::room::{CommandOutput, Room, RoomCommand};

fn msg(id: u64, room: &str, sender: &str, content: &str) -> Message {
    Message::new(id, room.to_string(), sender.to_string(), content.to_string())
}

#[test]
fn new_room_starts_open_and_seeded() {
    let backlog = vec![msg(0, "r1", "alice", "hi"), msg(1, "r1", "bob", "yo")];
    let room = Room::new("r1".to_string(), backlog, 100);
    assert!(!room.is_closed());
    assert_eq!(room.room_id().as_str(), "r1");
    assert_eq!(room.member_count(), 0);
    assert_eq!(room.log_len(), 2);
    // seeded history counts as already durable
    assert_eq!(room.persisted_offset(), 2);
    assert_eq!(room.log_get(0).content, "hi");
    assert_eq!(room.log_get(1).content, "yo");
}

#[test]
fn join_replays_entire_backlog_in_order() {
    let backlog = vec![msg(0, "r1", "alice", "first"), msg(1, "r1", "alice", "second")];
    let mut room = Room::new("r1".to_string(), backlog, 100);
    assert!(room.add_user(7, "bob".to_string()));
    assert_eq!(room.member_count(), 1);
    assert_eq!(room.queue_len(7), Some(2));
    let first = room.pop_outbound(7).unwrap();
    assert_eq!(first.sender, "alice");
    assert_eq!(first.content, "first");
    let second = room.pop_outbound(7).unwrap();
    assert_eq!(second.content, "second");
    assert!(room.pop_outbound(7).is_none());
}

#[test]
fn duplicate_join_is_rejected() {
    let mut room = Room::new("r1".to_string(), Vec::new(), 100);
    assert!(room.add_user(7, "bob".to_string()));
    assert!(!room.add_user(7, "bob".to_string()));
    assert_eq!(room.member_count(), 1);
}

#[test]
fn broadcast_appends_and_fans_out_to_all_members() {
    let mut room = Room::new("r1".to_string(), Vec::new(), 100);
    assert!(room.add_user(1, "alice".to_string()));
    assert!(room.add_user(2, "bob".to_string()));
    let out = room.broadcast(1, "hello".to_string());
    let sent = out.message.expect("broadcast from a member is accepted");
    assert_eq!(sent.id, 0);
    assert_eq!(sent.room_id, "r1");
    assert_eq!(sent.sender, "alice");
    assert_eq!(sent.content, "hello");
    assert_eq!(out.deliveries, vec![(1, true), (2, true)]);
    assert_eq!(room.log_len(), 1);
    // both members received it, the sender included
    assert_eq!(room.pop_outbound(1).unwrap().content, "hello");
    assert_eq!(room.pop_outbound(2).unwrap().content, "hello");
}

#[test]
fn broadcast_from_unknown_sender_changes_nothing() {
    let mut room = Room::new("r1".to_string(), Vec::new(), 100);
    assert!(room.add_user(1, "alice".to_string()));
    let out = room.broadcast(99, "ghost".to_string());
    assert!(out.message.is_none());
    assert!(out.deliveries.is_empty());
    assert_eq!(room.log_len(), 0);
    assert_eq!(room.queue_len(1), Some(0));
}

#[test]
fn full_queue_drops_for_that_member_only() {
    // capacity 2: flood bob's queue, then broadcast once more
    let mut room = Room::new("r1".to_string(), Vec::new(), 2);
    assert!(room.add_user(1, "alice".to_string()));
    assert!(room.add_user(2, "bob".to_string()));
    room.broadcast(1, "one".to_string());
    room.broadcast(1, "two".to_string());
    // bob's queue now stands at capacity; drain alice's
    assert_eq!(room.queue_len(2), Some(2));
    room.pop_outbound(1);
    room.pop_outbound(1);
    let out = room.broadcast(1, "three".to_string());
    // delivery to the full queue fails, to the drained one succeeds
    assert_eq!(out.deliveries, vec![(1, true), (2, false)]);
    // the log still took the message: the drop cost one recipient only
    assert_eq!(room.log_len(), 3);
    assert_eq!(room.queue_len(1), Some(1));
    assert_eq!(room.queue_len(2), Some(2));
    assert_eq!(room.pop_outbound(2).unwrap().content, "one");
}

#[test]
fn last_leave_flushes_and_closes() {
    let mut room = Room::new("r1".to_string(), Vec::new(), 100);
    room.add_user(1, "alice".to_string());
    room.add_user(2, "bob".to_string());
    room.broadcast(1, "hi".to_string());
    room.broadcast(2, "yo".to_string());
    // the first leave removes a member but keeps the room open
    assert!(room.disconnect_user(1).is_none());
    assert!(!room.is_closed());
    // the last leave hands back everything not yet durable and closes
    let flushed = room.disconnect_user(2).expect("last leave flushes");
    assert_eq!(flushed.len(), 2);
    assert_eq!(flushed[0].sender, "alice");
    assert_eq!(flushed[0].content, "hi");
    assert_eq!(flushed[1].sender, "bob");
    assert_eq!(flushed[1].content, "yo");
    assert!(room.is_closed());
    assert_eq!(room.persisted_offset(), 2);
}

#[test]
fn leave_of_unknown_connection_is_a_no_op() {
    let mut room = Room::new("r1".to_string(), Vec::new(), 100);
    room.add_user(1, "alice".to_string());
    assert!(room.disconnect_user(99).is_none());
    assert_eq!(room.member_count(), 1);
    assert!(!room.is_closed());
}

#[test]
fn closed_room_is_inert() {
    let mut room = Room::new("r1".to_string(), Vec::new(), 100);
    room.add_user(1, "alice".to_string());
    room.broadcast(1, "hi".to_string());
    room.disconnect_user(1);
    assert!(room.is_closed());
    // closure fired once; nothing reopens or changes the instance
    assert!(!room.add_user(2, "bob".to_string()));
    assert!(room.broadcast(1, "late".to_string()).message.is_none());
    assert!(room.disconnect_user(1).is_none());
    assert!(room.is_closed());
    assert_eq!(room.member_count(), 0);
    assert_eq!(room.log_len(), 1);
}

#[test]
fn command_sequence_keeps_total_order() {
    let mut room = Room::new("r1".to_string(), Vec::new(), 100);
    let cmds = vec![
        RoomCommand::Join { connection_id: 1, username: "alice".to_string() },
        RoomCommand::Broadcast { sender_connection_id: 1, content: "a".to_string() },
        RoomCommand::Join { connection_id: 2, username: "bob".to_string() },
        RoomCommand::Broadcast { sender_connection_id: 2, content: "b".to_string() },
        RoomCommand::Broadcast { sender_connection_id: 99, content: "dropped".to_string() },
        RoomCommand::Broadcast { sender_connection_id: 1, content: "c".to_string() },
    ];
    let outputs = room.apply_all(cmds);
    assert_eq!(outputs.len(), 6);
    // the log holds exactly the accepted broadcasts, in command order
    assert_eq!(room.log_len(), 3);
    assert_eq!(room.log_get(0).content, "a");
    assert_eq!(room.log_get(1).content, "b");
    assert_eq!(room.log_get(2).content, "c");
    assert_eq!(room.log_get(0).sender, "alice");
    assert_eq!(room.log_get(1).sender, "bob");
    assert_eq!(room.log_get(2).sender, "alice");
    // identifiers follow the log position
    assert_eq!(room.log_get(0).id, 0);
    assert_eq!(room.log_get(1).id, 1);
    assert_eq!(room.log_get(2).id, 2);
    match &outputs[4] {
        CommandOutput::Broadcasted { outcome } => assert!(outcome.message.is_none()),
        _ => panic!("fifth command is a broadcast"),
    }
}

#[test]
fn backlog_then_live_traffic_no_gap_no_duplicate() {
    let backlog = vec![msg(0, "r1", "alice", "old1"), msg(1, "r1", "alice", "old2")];
    let mut room = Room::new("r1".to_string(), backlog, 100);
    room.add_user(1, "alice".to_string());
    room.add_user(2, "bob".to_string());
    room.broadcast(1, "new1".to_string());
    // bob sees exactly the backlog, then the live message, in order
    let received: Vec<String> = (0..3).map(|_| room.pop_outbound(2).unwrap().content).collect();
    assert_eq!(received, vec!["old1".to_string(), "old2".to_string(), "new1".to_string()]);
    assert!(room.pop_outbound(2).is_none());
}

#[test]
fn usernames_list_the_members_in_order() {
    let mut room = Room::new("r1".to_string(), Vec::new(), 100);
    room.add_user(1, "alice".to_string());
    room.add_user(2, "bob".to_string());
    assert_eq!(room.usernames(), vec!["alice".to_string(), "bob".to_string()]);
    room.disconnect_user(1);
    assert_eq!(room.usernames(), vec!["bob".to_string()]);
}
