use ohhell::chat::{MPGameAction, MPGameResponse, SessionAction, WsChatSession};

fn text_of(a: &SessionAction) -> String {
    match a {
        SessionAction::Text(t) => t.clone(),
        other => panic!("not a text: {:?}", other),
    }
}

#[test]
fn plain_text_is_said_in_the_room_as_anon() {
    let mut s = WsChatSession::new();
    s.joined(4, "Main".to_string());
    let v = s.handle_text("  hello there  ");
    assert_eq!(v.len(), 1);
    match &v[0] {
        SessionAction::Send(room, id, content) => {
            assert_eq!(room, "Main");
            assert_eq!(*id, 4);
            assert_eq!(content, "anon: hello there");
        }
        other => panic!("{:?}", other),
    }
}

#[test]
fn name_command_renames() {
    let mut s = WsChatSession::new();
    let v = s.handle_text("/name bob");
    assert_eq!(text_of(&v[0]), "name changed to: bob");
    match s.send_msg("hi") {
        SessionAction::Send(_, _, content) => assert_eq!(content, "bob: hi"),
        other => panic!("{:?}", other),
    }
    let v = s.handle_text("/name");
    assert_eq!(text_of(&v[0]), "!!! name is required");
}

#[test]
fn join_command_leaves_then_joins() {
    let mut s = WsChatSession::new();
    s.joined(7, "Main".to_string());
    let v = s.handle_text("/join lobby");
    assert_eq!(v.len(), 2);
    match (&v[0], &v[1]) {
        (SessionAction::Leave(r, id), SessionAction::Join(nr, name)) => {
            assert_eq!(r, "Main");
            assert_eq!(*id, 7);
            assert_eq!(nr, "lobby");
            assert!(name.is_none());
        }
        other => panic!("{:?}", other),
    }
    let v = s.handle_text("/join");
    assert_eq!(text_of(&v[0]), "!!! room name is required");
}

#[test]
fn list_start_and_unknown_commands() {
    let mut s = WsChatSession::new();
    assert!(matches!(s.handle_text("/list")[0], SessionAction::ListRooms));
    let v = s.handle_text("/start now");
    assert_eq!(text_of(&v[0]), "start command");
    assert!(matches!(v[1], SessionAction::StartGame));
    let v = s.handle_text("/start");
    assert_eq!(text_of(&v[0]), "start takes variables");
    let v = s.handle_text(" /dance \"x\" ");
    assert_eq!(text_of(&v[0]), format!("!!! unknown command: {:?}", "/dance \"x\""));
}

#[test]
fn started_joins_main() {
    let s = WsChatSession::new();
    let v = s.started();
    match &v[1] {
        SessionAction::Join(room, _) => assert_eq!(room, "Main"),
        other => panic!("{:?}", other),
    }
}

#[test]
fn game_action_and_response() {
    let s = WsChatSession::new();
    match s.game_action(MPGameAction { id: 3, string: "bid".to_string() }) {
        SessionAction::GameAction(id, t) => {
            assert_eq!(id, 3);
            assert_eq!(t, "bid");
        }
        other => panic!("{:?}", other),
    }
    let r = MPGameResponse::for_result("test".to_string());
    assert_eq!(r.id, 1234);
    assert_eq!(r.string, "test");
}
