use chatroom_core::dto::RoomInfoDTO;
use chatroom_core::ui::{AppAction, AppControl, DisplayTextInput, FillingButtons, InputMode, Messages, Screen};

#[test]
fn display_text_input_keeps_its_title() {
    let w = DisplayTextInput::new("Username");
    assert_eq!(w.title(), "Username");
}

#[test]
fn filling_buttons_lay_out_row_by_row() {
    let labels = vec![
        "Room 1 : 1".to_string(),
        "Room 2 : 2".to_string(),
        "Room 3 : 3".to_string(),
        "Room 4 : 4".to_string(),
    ];
    let w = FillingButtons::new(labels, 2, 2);
    assert_eq!(w.labels().len(), 4);
    assert_eq!(w.rows(), 2);
    assert_eq!(w.cols(), 2);
    assert_eq!(w.cell_of(0), (0, 0));
    assert_eq!(w.cell_of(1), (0, 1));
    assert_eq!(w.cell_of(2), (1, 0));
    assert_eq!(w.cell_of(3), (1, 1));
}

#[test]
fn messages_window_shows_the_newest_lines() {
    let lines = vec!["a".to_string(), "b".to_string(), "c".to_string()];
    let mode = InputMode::Normal;
    let w = Messages::new(&mode, &lines, "r1", "typing");
    assert_eq!(w.window_start(2), 1);
    assert_eq!(w.window_start(3), 0);
    assert_eq!(w.window_start(10), 0);
    assert_eq!(w.room_id(), "r1");
    assert_eq!(w.input(), "typing");
    assert!(!w.is_editing());
    let editing = InputMode::Editing;
    let w2 = Messages::new(&editing, &lines, "r1", "");
    assert!(w2.is_editing());
}

#[test]
fn join_parameters_validate_non_empty() {
    let ok = RoomInfoDTO { room_id: "r1".to_string(), username: "alice".to_string() };
    assert!(ok.is_valid());
    let no_room = RoomInfoDTO { room_id: "".to_string(), username: "alice".to_string() };
    assert!(!no_room.is_valid());
    let no_name = RoomInfoDTO { room_id: "r1".to_string(), username: "".to_string() };
    assert!(!no_name.is_valid());
}

#[test]
fn app_actions_carry_the_target_room() {
    let action = AppAction::GoToRoom("room1".to_string());
    match action {
        AppAction::GoToRoom(r) => assert_eq!(r, "room1"),
        _ => panic!("constructed a room switch"),
    }
    assert!(matches!(AppAction::Stay, AppAction::Stay));
    assert!(matches!(AppAction::Quit, AppAction::Quit));
    assert!(matches!(AppAction::GoToWaitingRoom, AppAction::GoToWaitingRoom));
}

#[test]
fn app_control_walks_its_screens() {
    let mut app = AppControl::new();
    assert!(matches!(app.screen(), Screen::Waiting));
    app.apply_action(AppAction::GoToRoom("r1".to_string()));
    match app.screen() {
        Screen::Room(name) => assert_eq!(name, "r1"),
        _ => panic!("connected to a room"),
    }
    app.apply_action(AppAction::Stay);
    assert!(matches!(app.screen(), Screen::Room(_)));
    app.apply_action(AppAction::GoToWaitingRoom);
    assert!(matches!(app.screen(), Screen::Waiting));
    app.exit();
    assert!(matches!(app.screen(), Screen::Done));
}
