use std::collections::HashMap;

use ohhell::request::RequestError;
use ohhell::wsserver::GameServer;

fn msg(pairs: &[(&str, &str)]) -> Vec<u8> {
    let m: HashMap<String, String> = pairs.iter().map(|(k, v)| (k.to_string(), v.to_string())).collect();
    rmp_serde::to_vec(&m).unwrap()
}

fn field_name(e: &RequestError) -> Option<String> {
    match e {
        RequestError::MissingField(f) | RequestError::InvalidNumber(f) => Some(f.clone()),
        _ => None,
    }
}

#[test]
fn new_room_opens_room_and_welcomes() {
    let mut s = GameServer::new();
    assert_eq!(s.next_room_id(), 1);
    let r = s.user_message(5, &msg(&[("action", "new room")])).unwrap();
    assert_eq!(r, Some("{'user_id':5}".to_string()));
    assert_eq!(s.room_of(5), Some(1));
    assert_eq!(s.next_room_id(), 2);
    let room = s.room(1).unwrap();
    assert_eq!(room.game.get_players().len(), 1);
    assert_eq!(room.game.get_players()[0].get_name(), "5");
    assert_eq!(room.game.get_rounds().len(), 0);
}

#[test]
fn rooms_get_consecutive_ids() {
    let mut s = GameServer::new();
    s.user_message(1, &msg(&[("action", "new room")])).unwrap();
    s.user_message(2, &msg(&[("action", "new room")])).unwrap();
    assert_eq!(s.room_of(1), Some(1));
    assert_eq!(s.room_of(2), Some(2));
    assert!(s.room(1).is_some() && s.room(2).is_some());
}

#[test]
fn join_then_set_players_and_hands() {
    let mut s = GameServer::new();
    s.user_message(1, &msg(&[("action", "new room")])).unwrap();
    assert_eq!(s.user_message(2, &msg(&[("action", "join room"), ("room_id", "1")])).unwrap(), None);
    assert_eq!(s.room_of(2), Some(1));
    s.user_message(2, &msg(&[("action", "set players"), ("count", "2")])).unwrap();
    let names: Vec<String> =
        s.room(1).unwrap().game.get_players().iter().map(|p| p.get_name().to_string()).collect();
    assert_eq!(names, vec!["1", "Player 0", "Player 1"]);
    s.user_message(2, &msg(&[("action", "add round")])).unwrap();
    s.user_message(2, &msg(&[("action", "add round")])).unwrap();
    s.user_message(2, &msg(&[("action", "set hands"), ("count", "2")])).unwrap();
    let hands: Vec<usize> = s.room(1).unwrap().game.get_rounds().iter().map(|r| r.get_hands().len()).collect();
    assert_eq!(hands, vec![0, 2]);
}

#[test]
fn set_rounds_looks_up_room_by_user_id() {
    let mut s = GameServer::new();
    s.user_message(1, &msg(&[("action", "new room")])).unwrap();
    s.user_message(1, &msg(&[("action", "set rounds"), ("count", "3")])).unwrap();
    assert_eq!(s.room(1).unwrap().game.get_rounds().len(), 3);
    s.user_message(7, &msg(&[("action", "join room"), ("room_id", "1")])).unwrap();
    let e = s.user_message(7, &msg(&[("action", "set rounds"), ("count", "1")])).unwrap_err();
    assert!(matches!(e, RequestError::NoSuchRoom(7)));
    assert_eq!(s.room(1).unwrap().game.get_rounds().len(), 3);
}

#[test]
fn errors_leave_state_unchanged() {
    let mut s = GameServer::new();
    let e = s.user_message(1, &msg(&[("count", "3")])).unwrap_err();
    assert_eq!(field_name(&e), Some("action".to_string()));
    assert!(matches!(e, RequestError::MissingField(_)));
    let e = s.user_message(1, &msg(&[("action", "join room")])).unwrap_err();
    assert!(matches!(e, RequestError::MissingField(_)));
    assert_eq!(field_name(&e), Some("room_id".to_string()));
    let e = s.user_message(1, &msg(&[("action", "join room"), ("room_id", "x")])).unwrap_err();
    assert!(matches!(e, RequestError::InvalidNumber(_)));
    let e = s.user_message(1, &msg(&[("action", "set players"), ("count", "2")])).unwrap_err();
    assert!(matches!(e, RequestError::NoRoomForUser));
    s.user_message(1, &msg(&[("action", "join room"), ("room_id", "9")])).unwrap();
    let e = s.user_message(1, &msg(&[("action", "add round")])).unwrap_err();
    assert!(matches!(e, RequestError::NoSuchRoom(9)));
    let e = s.user_message(1, &msg(&[("action", "set hands"), ("count", "-2")])).unwrap_err();
    assert!(matches!(e, RequestError::InvalidNumber(_)));
    assert_eq!(field_name(&e), Some("count".to_string()));
    assert!(s.room(9).is_none());
    assert_eq!(s.next_room_id(), 1);
}

#[test]
fn play_checks_card_fields() {
    let mut s = GameServer::new();
    let e = s.user_message(1, &msg(&[("action", "play"), ("card_suit", "hearts")])).unwrap_err();
    assert_eq!(field_name(&e), Some("card_value".to_string()));
    let e = s.user_message(1, &msg(&[("action", "play"), ("card_value", "300")])).unwrap_err();
    assert!(matches!(e, RequestError::InvalidNumber(_)));
    let e = s.user_message(1, &msg(&[("action", "play"), ("card_value", "13")])).unwrap_err();
    assert_eq!(field_name(&e), Some("card_suit".to_string()));
    assert_eq!(
        s.user_message(1, &msg(&[("action", "play"), ("card_value", "13"), ("card_suit", "hearts")])).unwrap(),
        None
    );
}

#[test]
fn unknown_and_empty_messages_do_nothing() {
    let mut s = GameServer::new();
    assert_eq!(s.user_message(1, &msg(&[("action", "dance")])).unwrap(), None);
    assert_eq!(s.user_message(1, &[]).unwrap(), None);
    assert!(s.room_of(1).is_none());
}

#[test]
fn undecodable_message_is_refused() {
    let mut s = GameServer::new();
    assert!(matches!(s.user_message(1, b"hello").unwrap_err(), RequestError::Undecodable));
    let not_strings = rmp_serde::to_vec(&vec![1u8, 2, 3]).unwrap();
    assert!(matches!(s.user_message(1, &not_strings).unwrap_err(), RequestError::Undecodable));
}

#[test]
fn handle_request_takes_pairs() {
    let mut s = GameServer::new();
    let req = vec![("action".to_string(), "new room".to_string())];
    assert_eq!(s.handle_request(3, &req).unwrap(), Some("{'user_id':3}".to_string()));
}

#[test]
fn disconnect_forgets_user_and_room_under_its_id() {
    let mut s = GameServer::new();
    s.user_message(1, &msg(&[("action", "new room")])).unwrap();
    s.user_message(2, &msg(&[("action", "new room")])).unwrap();
    s.user_disconnected(2);
    assert!(s.room_of(2).is_none());
    assert!(s.room(2).is_none());
    assert!(s.room(1).is_some());
    assert_eq!(s.room_of(1), Some(1));
}
