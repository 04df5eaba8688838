use chatroom_core::conn::{Connection, InboundFrame, ReaderAction};

fn fresh() -> Connection {
    Connection::new(7, "alice".to_string(), "r1".to_string())
}

#[test]
fn new_connection_is_live() {
    let c = fresh();
    assert_eq!(c.connection_id(), 7);
    assert_eq!(c.username().as_str(), "alice");
    assert_eq!(c.room_id().as_str(), "r1");
    assert!(!c.is_cancelled());
    assert!(!c.is_disconnected());
    assert!(c.should_write());
}

#[test]
fn reader_forwards_text_and_ignores_control_frames() {
    let c = fresh();
    match c.on_inbound(InboundFrame::Text("hello".to_string())) {
        ReaderAction::Forward { content } => assert_eq!(content, "hello"),
        _ => panic!("text frames become broadcasts"),
    }
    assert!(matches!(c.on_inbound(InboundFrame::Ping), ReaderAction::Ignore));
    assert!(matches!(c.on_inbound(InboundFrame::Pong), ReaderAction::Ignore));
    assert!(matches!(c.on_inbound(InboundFrame::Binary), ReaderAction::Ignore));
    assert!(matches!(c.on_inbound(InboundFrame::Continuation), ReaderAction::Ignore));
    assert!(matches!(c.on_inbound(InboundFrame::Nop), ReaderAction::Ignore));
}

#[test]
fn reader_exits_on_close_and_on_decode_error() {
    let c = fresh();
    assert!(matches!(c.on_inbound(InboundFrame::Close), ReaderAction::Exit));
    assert!(matches!(c.on_inbound(InboundFrame::DecodeError), ReaderAction::Exit));
}

#[test]
fn cancellation_makes_the_reader_exit_whatever_arrives() {
    let mut c = fresh();
    c.finish_writer();
    assert!(matches!(
        c.on_inbound(InboundFrame::Text("late".to_string())),
        ReaderAction::Exit
    ));
    assert!(!c.should_write());
}

#[test]
fn leave_is_issued_exactly_once_reader_first() {
    let mut c = fresh();
    assert!(c.finish_reader());
    assert!(c.is_cancelled());
    assert!(!c.finish_writer());
    assert!(c.is_disconnected());
}

#[test]
fn leave_is_issued_exactly_once_writer_first() {
    let mut c = fresh();
    assert!(c.finish_writer());
    assert!(c.is_cancelled());
    assert!(!c.finish_reader());
    assert!(c.is_disconnected());
}

#[test]
fn repeated_exits_never_issue_again() {
    let mut c = fresh();
    assert!(c.finish_reader());
    assert!(!c.finish_reader());
    assert!(!c.finish_writer());
    assert!(!c.finish_writer());
}
