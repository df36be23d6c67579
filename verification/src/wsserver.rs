use vstd::prelude::*;

use std::collections::HashMap;

use crate::ohhell::{
    OhhellView, Player, Round, empty_round, is_v4_uuid, seats_added, with_hands_set,
    with_rounds_added,
};
use crate::request::{
    ErrorView, RequestError, decode_request, field_i8, field_usize, get_field, i8_field_error,
    list_to_map, msgpack_string_map, pairs_view, usize_field, usize_field_error,
};
use crate::rooms::{Room, RoomView};
use crate::text::{decimal, push_decimal, str_eq, usize_to_string};

verus! {

broadcast use vstd::std_specs::hash::group_hash_axioms;

/// What the game server holds: the rooms by id, the room each user is in,
/// and the id the next room will get.
pub struct ServerView {
    pub rooms: Map<usize, RoomView>,
    pub room_of_user: Map<usize, usize>,
    pub next_room_id: usize,
}

/// The game server's state: the game rooms by id, the room of each user, and
/// the counter that hands out room ids (starting at 1).
pub struct GameServer {
    gamerooms: HashMap<usize, Room>,
    room_from_user: HashMap<usize, usize>,
    next_room_id: usize,
}

impl GameServer {
    pub closed spec fn model(self) -> ServerView {
        ServerView {
            rooms: self.gamerooms@.map_values(|r: Room| r@),
            room_of_user: self.room_from_user@,
            next_room_id: self.next_room_id,
        }
    }
}

impl View for GameServer {
    type V = ServerView;

    open spec fn view(&self) -> ServerView {
        self.model()
    }
}

/// The first of two possible errors.
pub open spec fn first_error(a: Option<ErrorView>, b: Option<ErrorView>) -> Option<ErrorView> {
    if a is Some {
        a
    } else {
        b
    }
}

/// The error of looking up the user's room: the user is in no room, or the
/// room is gone.
pub open spec fn users_room_error(s: ServerView, my_id: usize) -> Option<ErrorView> {
    if !s.room_of_user.contains_key(my_id) {
        Some(ErrorView::NoRoomForUser)
    } else if !s.rooms.contains_key(s.room_of_user[my_id]) {
        Some(ErrorView::NoSuchRoom(s.room_of_user[my_id]))
    } else {
        None
    }
}

/// The error, if any, with which the server refuses request `req` of user
/// `my_id` in state `s`.
pub open spec fn request_error(s: ServerView, my_id: usize, req: Map<Seq<char>, Seq<char>>) -> Option<
    ErrorView,
> {
    match req.get("action"@) {
        None => Some(ErrorView::MissingField("action"@)),
        Some(a) => if a == "new room"@ {
            None
        } else if a == "join room"@ {
            usize_field_error(req, "room_id"@)
        } else if a == "set players"@ {
            first_error(usize_field_error(req, "count"@), users_room_error(s, my_id))
        } else if a == "set rounds"@ {
            first_error(
                usize_field_error(req, "count"@),
                if s.rooms.contains_key(my_id) {
                    None
                } else {
                    Some(ErrorView::NoSuchRoom(my_id))
                },
            )
        } else if a == "set hands"@ {
            first_error(usize_field_error(req, "count"@), users_room_error(s, my_id))
        } else if a == "add round"@ {
            users_room_error(s, my_id)
        } else if a == "play"@ {
            first_error(
                i8_field_error(req, "card_value"@),
                if req.contains_key("card_suit"@) {
                    None
                } else {
                    Some(ErrorView::MissingField("card_suit"@))
                },
            )
        } else {
            None
        },
    }
}

/// The text sent back to a user who opened a room: `{'user_id':<id>}`.
pub open spec fn welcome_text(my_id: usize) -> Seq<char> {
    "{'user_id':"@ + decimal(my_id as nat) + "}"@
}

/// The counter after handing out `id` (it wraps around).
pub open spec fn next_id(id: usize) -> usize {
    if id == usize::MAX {
        0
    } else {
        (id + 1) as usize
    }
}

/// `t` is `s` after user `my_id` opened a room: the room gets the next id,
/// the user is put in it, and it holds a new game whose one player is named
/// by the user's id.
pub open spec fn room_opened(s: ServerView, t: ServerView, my_id: usize) -> bool {
    let id = s.next_room_id;
    let room = t.rooms[id];
    &&& t.next_room_id == next_id(id)
    &&& t.room_of_user == s.room_of_user.insert(my_id, id)
    &&& t.rooms.dom() == s.rooms.dom().insert(id)
    &&& forall|k: usize| #[trigger] s.rooms.contains_key(k) && k != id ==> t.rooms[k] == s.rooms[k]
    &&& is_v4_uuid(room.uuid)
    &&& room.game.rounds.len() == 0
    &&& room.game.players.len() == 1
    &&& room.game.players[0].name == decimal(my_id as nat)
    &&& room.game.players[0].cards.len() == 0
    &&& is_v4_uuid(room.game.players[0].uuid)
}

/// `t` is `s` with nothing changed but the game of room `rid`.
pub open spec fn only_game_changed(s: ServerView, t: ServerView, rid: usize) -> bool {
    &&& t.next_room_id == s.next_room_id
    &&& t.room_of_user == s.room_of_user
    &&& t.rooms.dom() == s.rooms.dom()
    &&& forall|k: usize| #[trigger] s.rooms.contains_key(k) && k != rid ==> t.rooms[k] == s.rooms[k]
    &&& t.rooms[rid].uuid == s.rooms[rid].uuid
}

/// A change to a room's game.
pub enum GameChange {
    SetPlayers(usize),
    SetRounds(usize),
    SetHands(usize),
    AddRound,
}

/// `h` is game `g` after `change`.
pub open spec fn game_change_done(change: GameChange, g: OhhellView, h: OhhellView) -> bool {
    match change {
        GameChange::SetPlayers(n) => seats_added(g, h, n as nat),
        GameChange::SetRounds(n) => h == with_rounds_added(g, n as nat),
        GameChange::SetHands(n) => h == with_hands_set(g, n as int),
        GameChange::AddRound => h == (OhhellView { rounds: g.rounds.push(empty_round()), ..g }),
    }
}

/// `t` is `s` after `change` to the game of room `rid`.
pub open spec fn game_changed(s: ServerView, t: ServerView, rid: usize, change: GameChange) -> bool {
    only_game_changed(s, t, rid) && game_change_done(change, s.rooms[rid].game, t.rooms[rid].game)
}

/// What a request that the server accepts does: `t` is the state after it
/// and `reply` the text sent back to the user, if any.
pub open spec fn request_effect(
    s: ServerView,
    t: ServerView,
    my_id: usize,
    req: Map<Seq<char>, Seq<char>>,
    reply: Option<Seq<char>>,
) -> bool {
    let a = req["action"@];
    if a == "new room"@ {
        room_opened(s, t, my_id) && reply == Some(welcome_text(my_id))
    } else if a == "join room"@ {
        t == (ServerView {
            room_of_user: s.room_of_user.insert(my_id, usize_field(req, "room_id"@)),
            ..s
        }) && reply is None
    } else if a == "set players"@ {
        game_changed(
            s,
            t,
            s.room_of_user[my_id],
            GameChange::SetPlayers(usize_field(req, "count"@)),
        ) && reply is None
    } else if a == "set rounds"@ {
        game_changed(s, t, my_id, GameChange::SetRounds(usize_field(req, "count"@))) && reply is None
    } else if a == "set hands"@ {
        game_changed(
            s,
            t,
            s.room_of_user[my_id],
            GameChange::SetHands(usize_field(req, "count"@)),
        ) && reply is None
    } else if a == "add round"@ {
        game_changed(s, t, s.room_of_user[my_id], GameChange::AddRound) && reply is None
    } else {
        t == s && reply is None
    }
}

/// The reply and error of a request's result, as views.
pub open spec fn outcome_view(r: Result<Option<String>, RequestError>) -> Result<Option<Seq<char>>, ErrorView> {
    match r {
        Ok(Some(text)) => Ok(Some(text@)),
        Ok(None) => Ok(None),
        Err(e) => Err(e@),
    }
}

/// How the server answers request `req` of user `my_id` in state `s`,
/// ending in state `t` with result `r`: a refused request leaves the state
/// as it was.
pub open spec fn request_outcome(
    s: ServerView,
    t: ServerView,
    my_id: usize,
    req: Map<Seq<char>, Seq<char>>,
    r: Result<Option<Seq<char>>, ErrorView>,
) -> bool {
    match request_error(s, my_id, req) {
        Some(e) => r == Err::<Option<Seq<char>>, ErrorView>(e) && t == s,
        None => r matches Ok(reply) && request_effect(s, t, my_id, req, reply),
    }
}

impl GameServer {
    /// A server with no rooms and no users; the first room gets id 1.
    pub fn new() -> (s: GameServer)
        ensures
            s@.rooms == Map::<usize, RoomView>::empty(),
            s@.room_of_user == Map::<usize, usize>::empty(),
            s@.next_room_id == 1,
    {
        let s = GameServer { gamerooms: HashMap::new(), room_from_user: HashMap::new(), next_room_id: 1 };
        proof {
            assert(s@.rooms =~= Map::<usize, RoomView>::empty());
        }
        s
    }

    /// The room with id `id`, if there is one.
    pub fn room(&self, id: usize) -> (r: Option<&Room>)
        ensures
            match r {
                Some(room) => self@.rooms.contains_key(id) && self@.rooms[id] == room@,
                None => !self@.rooms.contains_key(id),
            },
    {
        self.gamerooms.get(&id)
    }

    /// The id of the room user `user` is in, if any.
    pub fn room_of(&self, user: usize) -> (r: Option<usize>)
        ensures
            r == self@.room_of_user.get(user),
    {
        match self.room_from_user.get(&user) {
            Some(id) => Some(*id),
            None => None,
        }
    }

    /// The id the next room will get.
    pub fn next_room_id(&self) -> (n: usize)
        ensures
            n == self@.next_room_id,
    {
        self.next_room_id
    }

    /// The room of user `my_id`, which must exist.
    fn users_room(&self, my_id: usize) -> (r: Result<usize, RequestError>)
        ensures
            match users_room_error(self@, my_id) {
                Some(e) => r matches Err(err) && err@ == e,
                None => r == Ok::<usize, RequestError>(self@.room_of_user[my_id]),
            },
    {
        match self.room_from_user.get(&my_id) {
            None => Err(RequestError::NoRoomForUser),
            Some(rid) => {
                let rid = *rid;
                if self.gamerooms.contains_key(&rid) {
                    Ok(rid)
                } else {
                    Err(RequestError::NoSuchRoom(rid))
                }
            },
        }
    }

    /// Applies `change` to the game of room `rid`, which must exist.
    fn change_game(&mut self, rid: usize, change: GameChange)
        requires
            old(self)@.rooms.contains_key(rid),
        ensures
            game_changed(old(self)@, final(self)@, rid, change),
    {
        let ghost before = self.gamerooms@;
        let mut room = self.gamerooms.remove(&rid).unwrap();
        let ghost r0 = room@;
        {
            let g = room.game_mut();
            match change {
                GameChange::SetPlayers(n) => {
                    g.set_players(n);
                },
                GameChange::SetRounds(n) => {
                    g.set_rounds(n);
                },
                GameChange::SetHands(n) => {
                    g.set_hands(n);
                },
                GameChange::AddRound => {
                    g.add_round(Round::new());
                },
            }
        }
        let ghost r1 = room@;
        self.gamerooms.insert(rid, room);
        proof {
            assert(self.gamerooms@ == before.insert(rid, room));
            assert(self@.rooms =~= before.map_values(|r: Room| r@).insert(rid, r1));
            assert(r0 == before[rid]@);
        }
    }

    /// Answers request `request` (field name and value pairs) of user
    /// `my_id`: opens or joins a room, or changes the game of the user's
    /// room. Gives the text to send back to the user, if any, or why the
    /// request is refused; a refused request changes nothing.
    pub fn handle_request(&mut self, my_id: usize, request: &Vec<(String, String)>) -> (r: Result<
        Option<String>,
        RequestError,
    >)
        ensures
            request_outcome(
                old(self)@,
                final(self)@,
                my_id,
                list_to_map(pairs_view(request@)),
                outcome_view(r),
            ),
    {
        let ghost req = list_to_map(pairs_view(request@));
        let action = match get_field(request, "action") {
            None => {
                return Err(RequestError::MissingField(String::from_str("action")));
            },
            Some(a) => a,
        };
        assert(req["action"@] == action@);
        if str_eq(action.as_str(), "new room") {
            let mut room = Room::new();
            room.game_mut().add_player(Player::new(usize_to_string(my_id)));
            let room_id = self.next_room_id;
            self.next_room_id = if room_id == usize::MAX {
                0
            } else {
                room_id + 1
            };
            let ghost before = self.gamerooms@;
            let ghost rv = room@;
            self.gamerooms.insert(room_id, room);
            self.room_from_user.insert(my_id, room_id);
            let mut text = String::from_str("{'user_id':");
            push_decimal(my_id, &mut text);
            text.append("}");
            proof {
                assert(self@.rooms =~= before.map_values(|r: Room| r@).insert(room_id, rv));
                assert(rv.game.players =~= seq![rv.game.players[0]]);
            }
            Ok(Some(text))
        } else if str_eq(action.as_str(), "join room") {
            match field_usize(request, "room_id") {
                Err(e) => Err(e),
                Ok(room_id) => {
                    self.room_from_user.insert(my_id, room_id);
                    Ok(None)
                },
            }
        } else if str_eq(action.as_str(), "set players") {
            match field_usize(request, "count") {
                Err(e) => Err(e),
                Ok(count) => match self.users_room(my_id) {
                    Err(e) => Err(e),
                    Ok(rid) => {
                        self.change_game(rid, GameChange::SetPlayers(count));
                        Ok(None)
                    },
                },
            }
        } else if str_eq(action.as_str(), "set rounds") {
            match field_usize(request, "count") {
                Err(e) => Err(e),
                Ok(count) => {
                    if self.gamerooms.contains_key(&my_id) {
                        self.change_game(my_id, GameChange::SetRounds(count));
                        Ok(None)
                    } else {
                        Err(RequestError::NoSuchRoom(my_id))
                    }
                },
            }
        } else if str_eq(action.as_str(), "set hands") {
            match field_usize(request, "count") {
                Err(e) => Err(e),
                Ok(count) => match self.users_room(my_id) {
                    Err(e) => Err(e),
                    Ok(rid) => {
                        self.change_game(rid, GameChange::SetHands(count));
                        Ok(None)
                    },
                },
            }
        } else if str_eq(action.as_str(), "add round") {
            match self.users_room(my_id) {
                Err(e) => Err(e),
                Ok(rid) => {
                    self.change_game(rid, GameChange::AddRound);
                    Ok(None)
                },
            }
        } else if str_eq(action.as_str(), "play") {
            match field_i8(request, "card_value") {
                Err(e) => Err(e),
                Ok(_card_value) => match get_field(request, "card_suit") {
                    None => Err(RequestError::MissingField(String::from_str("card_suit"))),
                    Some(_card_suit) => Ok(None),
                },
            }
        } else {
            Ok(None)
        }
    }

    /// Answers a raw message of user `my_id`: an empty message is ignored;
    /// any other must be a MessagePack map from strings to strings, which is
    /// then handled as `handle_request` does.
    pub fn user_message(&mut self, my_id: usize, msg: &[u8]) -> (r: Result<
        Option<String>,
        RequestError,
    >)
        ensures
            msg@.len() == 0 ==> (r matches Ok(None) && final(self)@ == old(self)@),
            msg@.len() > 0 ==> match msgpack_string_map(msg@) {
                None => (r matches Err(e) && e@ == ErrorView::Undecodable && final(self)@ == old(
                    self,
                )@),
                Some(req) => request_outcome(old(self)@, final(self)@, my_id, req, outcome_view(r)),
            },
    {
        if msg.len() == 0 {
            return Ok(None);
        }
        match decode_request(msg) {
            Err(_) => Err(RequestError::Undecodable),
            Ok(request) => self.handle_request(my_id, &request),
        }
    }

    /// Forgets user `my_id`: the room under the user's id (as a room id) and
    /// the user's room entry are removed.
    pub fn user_disconnected(&mut self, my_id: usize)
        ensures
            final(self)@ == (ServerView {
                rooms: old(self)@.rooms.remove(my_id),
                room_of_user: old(self)@.room_of_user.remove(my_id),
                ..old(self)@
            }),
    {
        let ghost before = self.gamerooms@;
        self.gamerooms.remove(&my_id);
        self.room_from_user.remove(&my_id);
        proof {
            assert(self@.rooms =~= before.map_values(|r: Room| r@).remove(my_id));
        }
    }
}

/// A refused request changes nothing, and a request that changes the state
/// was accepted.
pub proof fn lemma_refused_request_changes_nothing(
    s: ServerView,
    t: ServerView,
    my_id: usize,
    req: Map<Seq<char>, Seq<char>>,
    r: Result<Option<Seq<char>>, ErrorView>,
)
    requires
        request_outcome(s, t, my_id, req, r),
    ensures
        r is Err ==> t == s,
        t != s ==> r is Ok,
{
}

/// Rooms opened one after the other get consecutive ids, so (unless the
/// counter wraps) different ones; each opener is put in the room it opened.
pub proof fn lemma_rooms_opened_in_sequence(
    s: ServerView,
    t: ServerView,
    u: ServerView,
    a: usize,
    b: usize,
)
    requires
        room_opened(s, t, a),
        room_opened(t, u, b),
        s.next_room_id < usize::MAX,
    ensures
        t.room_of_user[a] == s.next_room_id,
        u.room_of_user[b] == s.next_room_id + 1,
        u.rooms.contains_key(s.next_room_id),
        u.rooms.contains_key((s.next_room_id + 1) as usize),
        a != b ==> u.room_of_user[a] == s.next_room_id,
{
}

/// After a user joins room `rid`, the game that "set players" changes is
/// that of room `rid`.
pub proof fn lemma_join_then_set_players(
    s: ServerView,
    t: ServerView,
    u: ServerView,
    my_id: usize,
    join: Map<Seq<char>, Seq<char>>,
    set: Map<Seq<char>, Seq<char>>,
    r1: Result<Option<Seq<char>>, ErrorView>,
    r2: Result<Option<Seq<char>>, ErrorView>,
)
    requires
        join.get("action"@) == Some("join room"@),
        set.get("action"@) == Some("set players"@),
        request_outcome(s, t, my_id, join, r1),
        request_outcome(t, u, my_id, set, r2),
        r1 is Ok,
        r2 is Ok,
    ensures
        t.room_of_user[my_id] == usize_field(join, "room_id"@),
        game_changed(
            t,
            u,
            usize_field(join, "room_id"@),
            GameChange::SetPlayers(usize_field(set, "count"@)),
        ),
{
    reveal_strlit("new room");
    reveal_strlit("join room");
    reveal_strlit("set players");
    assert(join["action"@] == "join room"@);
    assert(set["action"@] == "set players"@);
    assert("join room"@ != "new room"@) by {
        assert("join room"@.len() != "new room"@.len());
    }
    assert("set players"@ != "new room"@) by {
        assert("set players"@.len() != "new room"@.len());
    }
    assert("set players"@ != "join room"@) by {
        assert("set players"@[0] != "join room"@[0]);
    }
}

} // verus!
