use ohhell::chat_server::WsChatServer;

fn sorted(mut v: Vec<String>) -> Vec<String> {
    v.sort();
    v
}

#[test]
fn add_clients_and_list_rooms() {
    let mut s: WsChatServer<&'static str> = WsChatServer::new();
    assert!(s.list_rooms().is_empty());
    assert_eq!(s.try_add_client("Main", 1, "a"), Ok(()));
    assert_eq!(s.try_add_client("Main", 2, "b"), Ok(()));
    assert_eq!(s.try_add_client("Other", 1, "c"), Ok(()));
    assert_eq!(s.try_add_client("Main", 1, "d"), Err("d"));
    assert_eq!(sorted(s.list_rooms()), vec!["Main".to_string(), "Other".to_string()]);
}

#[test]
fn add_client_to_room_uses_the_given_id_when_free() {
    let mut s: WsChatServer<u8> = WsChatServer::new();
    assert_eq!(s.add_client_to_room("Main", Some(42), 7), 42);
    let got = s.add_client_to_room("Main", Some(42), 8);
    assert_ne!(got, 42);
    let third = s.add_client_to_room("Main", None, 9);
    assert!(third != 42 && third != got);
    let mut members = s.take_room("Main").unwrap();
    members.sort();
    let mut expected = vec![(42, 7), (got, 8), (third, 9)];
    expected.sort();
    assert_eq!(members, expected);
}

#[test]
fn take_room_empties_but_keeps_it() {
    let mut s: WsChatServer<u8> = WsChatServer::new();
    s.try_add_client("Main", 1, 10).unwrap();
    s.try_add_client("Main", 2, 20).unwrap();
    let mut members = s.take_room("Main").unwrap();
    members.sort();
    assert_eq!(members, vec![(1, 10), (2, 20)]);
    assert_eq!(s.take_room("Main").unwrap(), vec![]);
    assert_eq!(s.list_rooms(), vec!["Main".to_string()]);
    assert!(s.take_room("Nowhere").is_none());
}

#[test]
fn leave_room_removes_member() {
    let mut s: WsChatServer<u8> = WsChatServer::new();
    s.try_add_client("Main", 1, 10).unwrap();
    s.try_add_client("Main", 2, 20).unwrap();
    s.leave_room("Main", 1);
    s.leave_room("Main", 99);
    s.leave_room("Nowhere", 1);
    assert_eq!(s.take_room("Main").unwrap(), vec![(2, 20)]);
}

#[test]
fn send_keeps_only_reached_members() {
    let mut s: WsChatServer<u8> = WsChatServer::new();
    s.try_add_client("Main", 1, 10).unwrap();
    s.try_add_client("Main", 2, 21).unwrap();
    s.try_add_client("Main", 3, 30).unwrap();
    let reached = |c: &u8, m: &str| m == "hi" && c % 2 == 0;
    assert_eq!(s.send_chat_message("Main", "hi", reached), Some(()));
    let mut left = s.take_room("Main").unwrap();
    left.sort();
    assert_eq!(left, vec![(1, 10), (3, 30)]);
    assert_eq!(s.send_chat_message("Nowhere", "hi", reached), None);
}

#[test]
fn join_announces_and_gives_id() {
    let mut s: WsChatServer<u8> = WsChatServer::new();
    s.try_add_client("Main", 1, 10).unwrap();
    let seen = std::cell::RefCell::new(Vec::new());
    let deliver = |c: &u8, m: &str| {
        seen.borrow_mut().push((*c, m.to_string()));
        true
    };
    let id = s.join("Main", Some("bob".to_string()), 20, deliver);
    assert_ne!(id, 1);
    let mut got = seen.borrow().clone();
    got.sort();
    assert_eq!(got, vec![(10, "bob joined Main".to_string()), (20, "bob joined Main".to_string())]);
    assert_eq!(WsChatServer::<u8>::join_message(None, "Main"), "anon joined Main");
    assert_eq!(s.game_action_reply(1, "x"), "test");
}
