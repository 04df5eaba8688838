use chatroom_core::conn::ConnectionIndex;
use chatroom_core::msg::Message;
use chatroom_core::registry::{JoinError, RoomRegistry};
use chatroom_core::reaper;
use chatroom_core::room::RoomCommand;

#[test]
fn join_creates_room_on_first_join() {
    let mut reg = RoomRegistry::new(100);
    let grant = reg
        .join_or_create("r1".to_string(), "alice".to_string(), Vec::new())
        .expect("valid join is granted");
    assert!(grant.created);
    assert_eq!(reg.room_count(), 1);
    let room = reg.room_named(&"r1".to_string()).expect("room registered");
    assert!(!room.is_closed());
    assert_eq!(room.member_count(), 1);
    assert_eq!(room.log_len(), 0);
}

#[test]
fn second_join_attaches_to_the_open_room() {
    let mut reg = RoomRegistry::new(100);
    let g1 = reg.join_or_create("r1".to_string(), "alice".to_string(), Vec::new()).unwrap();
    let g2 = reg.join_or_create("r1".to_string(), "bob".to_string(), Vec::new()).unwrap();
    assert!(g1.created);
    assert!(!g2.created);
    assert_ne!(g1.connection_id, g2.connection_id);
    assert_eq!(reg.room_count(), 1);
    let room = reg.room_named(&"r1".to_string()).unwrap();
    assert_eq!(room.member_count(), 2);
}

#[test]
fn joins_of_different_rooms_stay_apart() {
    let mut reg = RoomRegistry::new(100);
    reg.join_or_create("r1".to_string(), "alice".to_string(), Vec::new()).unwrap();
    reg.join_or_create("r2".to_string(), "bob".to_string(), Vec::new()).unwrap();
    assert_eq!(reg.room_count(), 2);
    let r1 = reg.room_named(&"r1".to_string()).unwrap();
    let r2 = reg.room_named(&"r2".to_string()).unwrap();
    assert_eq!(r1.member_count(), 1);
    assert_eq!(r2.member_count(), 1);
}

#[test]
fn empty_room_id_is_rejected_before_any_state() {
    let mut reg = RoomRegistry::new(100);
    let err = reg.join_or_create("".to_string(), "alice".to_string(), Vec::new()).unwrap_err();
    assert_eq!(err, JoinError::EmptyRoomId);
    assert_eq!(reg.room_count(), 0);
}

#[test]
fn empty_username_is_rejected_before_any_state() {
    let mut reg = RoomRegistry::new(100);
    let err = reg.join_or_create("r1".to_string(), "".to_string(), Vec::new()).unwrap_err();
    assert_eq!(err, JoinError::EmptyUsername);
    assert_eq!(reg.room_count(), 0);
}

#[test]
fn commands_route_to_the_named_room() {
    let mut reg = RoomRegistry::new(100);
    let grant = reg.join_or_create("r1".to_string(), "alice".to_string(), Vec::new()).unwrap();
    let out = reg.apply_to_room(
        &"r1".to_string(),
        RoomCommand::Broadcast {
            sender_connection_id: grant.connection_id,
            content: "hi".to_string(),
        },
    );
    assert!(out.is_some());
    let room = reg.room_named(&"r1".to_string()).unwrap();
    assert_eq!(room.log_len(), 1);
    assert_eq!(room.log_get(0).content, "hi");
    // a command for an unregistered room is dropped
    let none = reg.apply_to_room(
        &"nowhere".to_string(),
        RoomCommand::Leave { connection_id: grant.connection_id },
    );
    assert!(none.is_none());
}

#[test]
fn pop_outbound_drains_in_push_order() {
    let mut reg = RoomRegistry::new(100);
    let g = reg.join_or_create("r1".to_string(), "alice".to_string(), Vec::new()).unwrap();
    let rid = "r1".to_string();
    reg.apply_to_room(
        &rid,
        RoomCommand::Broadcast { sender_connection_id: g.connection_id, content: "a".to_string() },
    );
    reg.apply_to_room(
        &rid,
        RoomCommand::Broadcast { sender_connection_id: g.connection_id, content: "b".to_string() },
    );
    let first = reg.pop_outbound(&rid, g.connection_id).unwrap();
    let second = reg.pop_outbound(&rid, g.connection_id).unwrap();
    assert_eq!(first.content, "a");
    assert_eq!(second.content, "b");
    assert!(reg.pop_outbound(&rid, g.connection_id).is_none());
}

#[test]
fn join_after_closure_spawns_a_new_instance_with_the_flushed_backlog() {
    let mut reg = RoomRegistry::new(100);
    let rid = "r1".to_string();
    let g = reg.join_or_create(rid.clone(), "alice".to_string(), Vec::new()).unwrap();
    reg.apply_to_room(
        &rid,
        RoomCommand::Broadcast { sender_connection_id: g.connection_id, content: "hi".to_string() },
    );
    // the last leave closes the instance and hands back the unflushed history
    let out = reg.apply_to_room(&rid, RoomCommand::Leave { connection_id: g.connection_id });
    let flushed: Vec<Message> = match out {
        Some(chatroom_core::room::CommandOutput::Left { flush: Some(v) }) => v,
        _ => panic!("last leave flushes"),
    };
    assert_eq!(flushed.len(), 1);
    assert!(reg.room_named(&rid).unwrap().is_closed());
    // the next join does not reopen the closed instance: it spawns a fresh
    // one whose backlog is what was durably flushed
    let g2 = reg.join_or_create(rid.clone(), "bob".to_string(), flushed).unwrap();
    assert!(g2.created);
    assert_eq!(reg.room_count(), 1);
    let room = reg.room_named(&rid).unwrap();
    assert!(!room.is_closed());
    assert_eq!(room.log_len(), 1);
    assert_eq!(room.log_get(0).content, "hi");
    // the seeded history is already durable in the new instance
    assert_eq!(room.persisted_offset(), 1);
}

#[test]
fn reaper_removes_exactly_the_closed_rooms() {
    let mut reg = RoomRegistry::new(100);
    let mut idx = ConnectionIndex::new();
    let g1 = reg.join_or_create("keep".to_string(), "alice".to_string(), Vec::new()).unwrap();
    let g2 = reg.join_or_create("drop".to_string(), "bob".to_string(), Vec::new()).unwrap();
    idx.track("keep".to_string(), g1.connection_id);
    idx.track("drop".to_string(), g2.connection_id);
    // close one room, disconnect its one connection
    reg.apply_to_room(&"drop".to_string(), RoomCommand::Leave { connection_id: g2.connection_id });
    idx.mark_disconnected(g2.connection_id);
    assert_eq!(reg.room_count(), 2);
    reaper::reap(&mut reg, &mut idx);
    // removed if and only if closed
    assert_eq!(reg.room_count(), 1);
    assert!(reg.room_named(&"keep".to_string()).is_some());
    assert!(reg.room_named(&"drop".to_string()).is_none());
    // a second pass changes nothing
    reaper::reap(&mut reg, &mut idx);
    assert_eq!(reg.room_count(), 1);
    assert!(reg.room_named(&"keep".to_string()).is_some());
}
