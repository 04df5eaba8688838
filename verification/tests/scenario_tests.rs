use chatroom_core::conn::{Connection, ConnectionIndex, InboundFrame, ReaderAction};
use chatroom_core::msg::Message;
use chatroom_core::registry::RoomRegistry;
use chatroom_core::reaper;
use chatroom_core::room::{CommandOutput, RoomCommand};
use chatroom_core::wire::{encode_frame, Response};

/// The whole life of room "r1": absent, created by the first join, backlog
/// replay to a later join, live traffic, teardown, flush, reap.
#[test]
fn end_to_end_room_lifecycle() {
    let mut reg = RoomRegistry::new(100);
    let mut idx = ConnectionIndex::new();
    let rid = "r1".to_string();

    // room "r1" starts absent
    assert!(reg.room_named(&rid).is_none());

    // alice joins: the room is created with an empty backlog
    let g1 = reg.join_or_create(rid.clone(), "alice".to_string(), Vec::new()).unwrap();
    assert!(g1.created);
    let mut c1 = Connection::new(g1.connection_id, "alice".to_string(), rid.clone());
    idx.track(rid.clone(), g1.connection_id);
    assert_eq!(reg.room_named(&rid).unwrap().log_len(), 0);

    // alice sends "hi": her reader duty turns the frame into a broadcast
    let content = match c1.on_inbound(InboundFrame::Text("hi".to_string())) {
        ReaderAction::Forward { content } => content,
        _ => panic!("text frame is forwarded"),
    };
    reg.apply_to_room(
        &rid,
        RoomCommand::Broadcast { sender_connection_id: c1.connection_id(), content },
    );
    {
        let room = reg.room_named(&rid).unwrap();
        assert_eq!(room.log_len(), 1);
        assert_eq!(room.log_get(0).sender, "alice");
        assert_eq!(room.log_get(0).content, "hi");
    }

    // bob joins: his backlog is exactly [alice: "hi"]
    let g2 = reg.join_or_create(rid.clone(), "bob".to_string(), Vec::new()).unwrap();
    assert!(!g2.created);
    let mut c2 = Connection::new(g2.connection_id, "bob".to_string(), rid.clone());
    idx.track(rid.clone(), g2.connection_id);
    let backlog = reg.pop_outbound(&rid, g2.connection_id).unwrap();
    assert_eq!(backlog.sender, "alice");
    assert_eq!(backlog.content, "hi");
    assert!(reg.pop_outbound(&rid, g2.connection_id).is_none());

    // bob sends "yo": alice's outbound queue receives it
    reg.apply_to_room(
        &rid,
        RoomCommand::Broadcast {
            sender_connection_id: c2.connection_id(),
            content: "yo".to_string(),
        },
    );
    // drain alice's queue: her own "hi", then bob's "yo"
    assert_eq!(reg.pop_outbound(&rid, g1.connection_id).unwrap().content, "hi");
    let delivered = reg.pop_outbound(&rid, g1.connection_id).unwrap();
    assert_eq!(delivered.sender, "bob");
    assert_eq!(delivered.content, "yo");
    // what alice's writer duty would put on the wire parses back exactly
    let frame = encode_frame(&delivered);
    let resp = Response::new(&frame).unwrap();
    assert_eq!(resp.sender.as_deref(), Some("bob"));
    assert_eq!(resp.content.as_deref(), Some("yo"));

    // alice disconnects: her duties converge on exactly one leave
    assert!(c1.finish_reader());
    assert!(!c1.finish_writer());
    assert!(c1.is_disconnected());
    reg.apply_to_room(&rid, RoomCommand::Leave { connection_id: c1.connection_id() });
    idx.mark_disconnected(c1.connection_id());
    assert!(!reg.room_named(&rid).unwrap().is_closed());

    // bob disconnects: the room empties, flushes its whole history, closes
    assert!(c2.finish_writer());
    assert!(!c2.finish_reader());
    let out = reg.apply_to_room(&rid, RoomCommand::Leave { connection_id: c2.connection_id() });
    idx.mark_disconnected(c2.connection_id());
    let flushed: Vec<Message> = match out {
        Some(CommandOutput::Left { flush: Some(v) }) => v,
        _ => panic!("the last leave flushes"),
    };
    // the durable store receives append("r1", [alice "hi", bob "yo"])
    assert_eq!(flushed.len(), 2);
    assert_eq!(flushed[0].sender, "alice");
    assert_eq!(flushed[0].content, "hi");
    assert_eq!(flushed[1].sender, "bob");
    assert_eq!(flushed[1].content, "yo");
    assert!(reg.room_named(&rid).unwrap().is_closed());

    // the reaper removes the closed room and the stale bookkeeping
    reaper::reap(&mut reg, &mut idx);
    assert!(reg.room_named(&rid).is_none());
    assert_eq!(reg.room_count(), 0);
}
