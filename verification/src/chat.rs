use vstd::prelude::*;

use crate::text::{
    debug_quoted, debug_string, is_space, lemma_split_word, lemma_trimmed_bare, split_head,
    split_once_at, split_tail, str_eq, trim, trimmed,
};

verus! {

/// A game action sent by a chat client: an id and a text.
pub struct MPGameAction {
    pub id: usize,
    pub string: String,
}

/// The answer to a game action: an id and a text.
pub struct MPGameResponse {
    pub id: usize,
    pub string: String,
}

/// The id the answer to a game action carries.
pub open spec fn game_response_id() -> usize {
    1234
}

impl MPGameResponse {
    /// The answer that carries the chat server's reply `res` to a game action.
    pub fn for_result(res: String) -> (r: MPGameResponse)
        ensures
            r.id == game_response_id(),
            r.string@ == res@,
    {
        MPGameResponse { id: 1234, string: res }
    }
}

/// What a chat session asks to be done, as a view.
pub enum ActionView {
    Text(Seq<char>),
    Leave(Seq<char>, usize),
    Join(Seq<char>, Option<Seq<char>>),
    ListRooms,
    Send(Seq<char>, usize, Seq<char>),
    StartGame,
    GameAction(usize, Seq<char>),
}

/// What a chat session asks its surroundings to do.
#[derive(Debug)]
pub enum SessionAction {
    /// Send this text to the session's own client.
    Text(String),
    /// Leave a room: its name and the session's id in it.
    Leave(String, usize),
    /// Join a room: its name and the session's name, if it has one.
    Join(String, Option<String>),
    /// Send the names of all rooms to the session's client.
    ListRooms,
    /// Send a chat message to a room: the room, the sender's id, the text.
    Send(String, usize, String),
    /// Start the game.
    StartGame,
    /// Pass a game action (id and text) to the chat server.
    GameAction(usize, String),
}

/// The view of an optional text.
pub open spec fn opt_text(s: Option<String>) -> Option<Seq<char>> {
    match s {
        Some(t) => Some(t@),
        None => None,
    }
}

impl View for SessionAction {
    type V = ActionView;

    open spec fn view(&self) -> ActionView {
        match self {
            SessionAction::Text(t) => ActionView::Text(t@),
            SessionAction::Leave(r, id) => ActionView::Leave(r@, *id),
            SessionAction::Join(r, n) => ActionView::Join(r@, opt_text(*n)),
            SessionAction::ListRooms => ActionView::ListRooms,
            SessionAction::Send(r, id, t) => ActionView::Send(r@, *id, t@),
            SessionAction::StartGame => ActionView::StartGame,
            SessionAction::GameAction(id, t) => ActionView::GameAction(*id, t@),
        }
    }
}

/// The views of a list of actions.
pub open spec fn actions_view(v: Seq<SessionAction>) -> Seq<ActionView> {
    v.map_values(|a: SessionAction| a@)
}

/// What a chat session is: its id in its room, the room, and the user's
/// name, if one was given.
pub struct SessionView {
    pub id: usize,
    pub room: Seq<char>,
    pub name: Option<Seq<char>>,
}

/// One chat client's session.
pub struct WsChatSession {
    id: usize,
    room: String,
    name: Option<String>,
}

impl WsChatSession {
    pub closed spec fn model(self) -> SessionView {
        SessionView { id: self.id, room: self.room@, name: opt_text(self.name) }
    }
}

impl View for WsChatSession {
    type V = SessionView;

    open spec fn view(&self) -> SessionView {
        self.model()
    }
}

/// The name a message is signed with: the user's name, or "anon".
pub open spec fn signature(name: Option<Seq<char>>) -> Seq<char> {
    match name {
        Some(n) => n,
        None => "anon"@,
    }
}

/// The actions of joining room `room` from session `s`: leave the current
/// room, then join the new one under the session's name.
pub open spec fn join_actions(s: SessionView, room: Seq<char>) -> Seq<ActionView> {
    seq![ActionView::Leave(s.room, s.id), ActionView::Join(room, s.name)]
}

/// The chat message that `msg` from session `s` becomes.
pub open spec fn say_action(s: SessionView, msg: Seq<char>) -> ActionView {
    ActionView::Send(s.room, s.id, signature(s.name) + ": "@ + msg)
}

/// The session after text `text` from its client, and the actions asked for:
/// commands start with '/' (after trimming white space): "/list", "/join
/// <room>", "/name <name>", "/start <anything>"; any other text is said in
/// the room.
pub open spec fn text_outcome(s: SessionView, text: Seq<char>) -> (SessionView, Seq<ActionView>) {
    let msg = trimmed(text);
    let cmd = split_head(msg, ' ');
    let arg = split_tail(msg, ' ');
    if msg.len() > 0 && msg[0] == '/' {
        if cmd == "/list"@ {
            (s, seq![ActionView::ListRooms])
        } else if cmd == "/join"@ {
            match arg {
                Some(room) => (s, join_actions(s, room)),
                None => (s, seq![ActionView::Text("!!! room name is required"@)]),
            }
        } else if cmd == "/name"@ {
            match arg {
                Some(n) => (
                    SessionView { name: Some(n), ..s },
                    seq![ActionView::Text("name changed to: "@ + n)],
                ),
                None => (s, seq![ActionView::Text("!!! name is required"@)]),
            }
        } else if cmd == "/start"@ {
            match arg {
                Some(_) => (s, seq![ActionView::Text("start command"@), ActionView::StartGame]),
                None => (s, seq![ActionView::Text("start takes variables"@)]),
            }
        } else {
            (s, seq![ActionView::Text("!!! unknown command: "@ + debug_quoted(msg))])
        }
    } else {
        (s, seq![say_action(s, msg)])
    }
}

/// Whether a line from a client is a command: it starts with '/' once
/// trimmed.
pub open spec fn is_command(text: Seq<char>) -> bool {
    trimmed(text).len() > 0 && trimmed(text)[0] == '/'
}

/// The word of a command line: the trimmed line up to its first space.
pub open spec fn command_word(text: Seq<char>) -> Seq<char> {
    split_head(trimmed(text), ' ')
}

/// The argument of a command line: what follows its first space, if any.
pub open spec fn command_arg(text: Seq<char>) -> Option<Seq<char>> {
    split_tail(trimmed(text), ' ')
}

/// A text made of two pieces.
fn concat2(a: &str, b: &str) -> (r: String)
    ensures
        r@ == a@ + b@,
{
    let mut r = String::from_str(a);
    r.append(b);
    r
}

/// A copy of an optional text.
fn copy_opt(s: &Option<String>) -> (r: Option<String>)
    ensures
        opt_text(r) == opt_text(*s),
{
    match s {
        Some(t) => Some(t.clone()),
        None => None,
    }
}

impl WsChatSession {
    /// A session with id 0, no room and no name.
    pub fn new() -> (s: WsChatSession)
        ensures
            s@ == (SessionView { id: 0, room: Seq::empty(), name: None }),
    {
        WsChatSession { id: 0, room: String::new(), name: None }
    }

    /// Leaves the current room and joins room `room_name`.
    pub fn join_room(&self, room_name: &str) -> (r: Vec<SessionAction>)
        ensures
            actions_view(r@) == join_actions(self@, room_name@),
            actions_view(r@) == seq![
                ActionView::Leave(self@.room, self@.id),
                ActionView::Join(room_name@, self@.name),
            ],
    {
        let mut v: Vec<SessionAction> = Vec::new();
        v.push(SessionAction::Leave(self.room.clone(), self.id));
        v.push(SessionAction::Join(String::from_str(room_name), copy_opt(&self.name)));
        proof {
            assert(actions_view(v@) =~= join_actions(self@, room_name@));
        }
        v
    }

    /// Records the room the session has joined and its id there.
    pub fn joined(&mut self, id: usize, room: String)
        ensures
            final(self)@ == (SessionView { id: id, room: room@, ..old(self)@ }),
    {
        self.id = id;
        self.room = room;
    }

    /// The chat message `msg` from this session: signed with the session's
    /// name (or "anon") and sent to its room.
    pub fn send_msg(&self, msg: &str) -> (r: SessionAction)
        ensures
            r@ == say_action(self@, msg@),
            r@ == ActionView::Send(
                self@.room,
                self@.id,
                match self@.name {
                    Some(n) => n,
                    None => "anon"@,
                } + ": "@ + msg@,
            ),
    {
        let mut content = match &self.name {
            Some(n) => n.clone(),
            None => String::from_str("anon"),
        };
        content.append(": ");
        content.append(msg);
        SessionAction::Send(self.room.clone(), self.id, content)
    }

    /// Asks for the names of all rooms, to be sent to the client.
    pub fn list_rooms(&self) -> (r: SessionAction)
        ensures
            r@ == ActionView::ListRooms,
    {
        SessionAction::ListRooms
    }

    /// Asks the chat server to start the game.
    pub fn start_game(&self) -> (r: SessionAction)
        ensures
            r@ == ActionView::StartGame,
    {
        SessionAction::StartGame
    }

    /// Passes a game action on to the chat server.
    pub fn game_action(&self, action: MPGameAction) -> (r: SessionAction)
        ensures
            r@ == ActionView::GameAction(action.id, action.string@),
    {
        SessionAction::GameAction(action.id, action.string)
    }

    /// What a new session does: join the room "Main".
    pub fn started(&self) -> (r: Vec<SessionAction>)
        ensures
            actions_view(r@) == join_actions(self@, "Main"@),
            actions_view(r@) == seq![
                ActionView::Leave(self@.room, self@.id),
                ActionView::Join("Main"@, self@.name),
            ],
    {
        self.join_room("Main")
    }

    /// Handles a text message from the session's client: plain text is said in
    /// the room under the user's name, "/join" joins a room under that name,
    /// "/name" changes it.
    pub fn handle_text(&mut self, text: &str) -> (r: Vec<SessionAction>)
        ensures
            (final(self)@, actions_view(r@)) == text_outcome(old(self)@, text@),
            !is_command(text@) ==> final(self)@ == old(self)@ && actions_view(r@) == seq![
                ActionView::Send(
                    old(self)@.room,
                    old(self)@.id,
                    match old(self)@.name {
                        Some(n) => n,
                        None => "anon"@,
                    } + ": "@ + trimmed(text@),
                ),
            ],
            is_command(text@) && command_word(text@) == "/join"@ && command_arg(text@) is Some
                ==> final(self)@ == old(self)@ && actions_view(r@) == seq![
                ActionView::Leave(old(self)@.room, old(self)@.id),
                ActionView::Join(command_arg(text@).unwrap(), old(self)@.name),
            ],
            is_command(text@) && command_word(text@) == "/name"@ && command_arg(text@) is Some
                ==> final(self)@ == (SessionView { name: command_arg(text@), ..old(self)@ }),
            !(is_command(text@) && command_word(text@) == "/name"@ && command_arg(text@) is Some)
                ==> final(self)@ == old(self)@,
            forall|i: int|
                0 <= i < r@.len() ==> (#[trigger] actions_view(r@)[i] matches ActionView::Join(
                    _,
                    nm,
                ) ==> nm == old(self)@.name),
    {
        let msg = trim(text);
        let mut v: Vec<SessionAction> = Vec::new();
        let n = msg.unicode_len();
        if n > 0 && msg.get_char(0) == '/' {
            let (cmd, arg) = split_once_at(msg, ' ');
            if str_eq(cmd, "/list") {
                v.push(self.list_rooms());
            } else if str_eq(cmd, "/join") {
                match arg {
                    Some(room) => {
                        v = self.join_room(room);
                    },
                    None => {
                        v.push(SessionAction::Text(String::from_str("!!! room name is required")));
                    },
                }
            } else if str_eq(cmd, "/name") {
                match arg {
                    Some(name) => {
                        self.name = Some(String::from_str(name));
                        v.push(SessionAction::Text(concat2("name changed to: ", name)));
                    },
                    None => {
                        v.push(SessionAction::Text(String::from_str("!!! name is required")));
                    },
                }
            } else if str_eq(cmd, "/start") {
                match arg {
                    Some(_) => {
                        v.push(SessionAction::Text(String::from_str("start command")));
                        v.push(self.start_game());
                    },
                    None => {
                        v.push(SessionAction::Text(String::from_str("start takes variables")));
                    },
                }
            } else {
                let quoted = debug_string(msg);
                v.push(SessionAction::Text(concat2("!!! unknown command: ", quoted.as_str())));
            }
        } else {
            v.push(self.send_msg(msg));
        }
        proof {
            lemma_command_words_differ();
            let o = text_outcome(old(self)@, text@);
            assert(actions_view(v@) =~= o.1);
        }
        v
    }
}

/// The command words tell apart.
proof fn lemma_command_words_differ()
    ensures
        "/list"@ != "/join"@,
        "/list"@ != "/name"@,
        "/join"@ != "/name"@,
{
    reveal_strlit("/list");
    reveal_strlit("/join");
    reveal_strlit("/name");
    assert("/list"@[1] != "/join"@[1]);
    assert("/list"@[1] != "/name"@[1]);
    assert("/join"@[1] != "/name"@[1]);
}

/// Text that is no command leaves the session as it was and is said in the
/// session's room, signed with the user's name, or "anon" where there is none.
pub proof fn lemma_plain_text_signed(s: SessionView, text: Seq<char>)
    requires
        !is_command(text),
    ensures
        text_outcome(s, text) == (
            s,
            seq![
                ActionView::Send(
                    s.room,
                    s.id,
                    match s.name {
                        Some(n) => n,
                        None => "anon"@,
                    } + ": "@ + trimmed(text),
                ),
            ],
        ),
{
}

/// Once "/name n" has been handled, plain text from the session is signed
/// "n".
pub proof fn lemma_said_after_rename(s: SessionView, rename: Seq<char>, text: Seq<char>)
    requires
        is_command(rename),
        command_word(rename) == "/name"@,
        command_arg(rename) is Some,
        !is_command(text),
    ensures
        text_outcome(text_outcome(s, rename).0, text).1 == seq![
            ActionView::Send(s.room, s.id, command_arg(rename).unwrap() + ": "@ + trimmed(text)),
        ],
{
    lemma_command_words_differ();
}

/// Whatever the text, a room is joined only under the session's own name.
pub proof fn lemma_join_carries_name(s: SessionView, text: Seq<char>)
    ensures
        forall|i: int|
            0 <= i < text_outcome(s, text).1.len() ==> (#[trigger] text_outcome(s, text).1[i] matches ActionView::Join(
                _,
                nm,
            ) ==> nm == s.name),
{
}

/// Once "/name n" has been handled, "/join r" leaves the current room and
/// joins room r under the name n.
pub proof fn lemma_join_after_rename(s: SessionView, rename: Seq<char>, join: Seq<char>)
    requires
        is_command(rename),
        command_word(rename) == "/name"@,
        command_arg(rename) is Some,
        is_command(join),
        command_word(join) == "/join"@,
        command_arg(join) is Some,
    ensures
        text_outcome(text_outcome(s, rename).0, join) == (
            SessionView { name: command_arg(rename), ..s },
            seq![
                ActionView::Leave(s.room, s.id),
                ActionView::Join(command_arg(join).unwrap(), command_arg(rename)),
            ],
        ),
{
    lemma_command_words_differ();
}

/// "/name n" and "/join r" as a client types them, where n and r do not end
/// in white space: once "/name n" has been handled, "/join r" leaves the
/// current room and joins room r under the name n.
pub proof fn lemma_name_then_join_lines(s: SessionView, n: Seq<char>, room: Seq<char>)
    requires
        n.len() > 0,
        !is_space(n[n.len() - 1]),
        room.len() > 0,
        !is_space(room[room.len() - 1]),
    ensures
        text_outcome(text_outcome(s, "/name "@ + n).0, "/join "@ + room) == (
            SessionView { name: Some(n), ..s },
            seq![ActionView::Leave(s.room, s.id), ActionView::Join(room, Some(n))],
        ),
{
    reveal_strlit("/name ");
    reveal_strlit("/join ");
    reveal_strlit("/name");
    reveal_strlit("/join");
    let rename = "/name "@ + n;
    let join = "/join "@ + room;
    assert("/name "@ =~= "/name"@.push(' '));
    assert("/join "@ =~= "/join"@.push(' '));
    assert(rename[rename.len() - 1] == n[n.len() - 1]);
    assert(join[join.len() - 1] == room[room.len() - 1]);
    lemma_trimmed_bare(rename);
    lemma_trimmed_bare(join);
    assert forall|i: int| 0 <= i < "/name"@.len() implies #[trigger] "/name"@[i] != ' ' by {}
    assert forall|i: int| 0 <= i < "/join"@.len() implies #[trigger] "/join"@[i] != ' ' by {}
    lemma_split_word("/name"@, ' ', n);
    lemma_split_word("/join"@, ' ', room);
    lemma_join_after_rename(s, rename, join);
}

/// "/name n" as a client types it, where n does not end in white space: once
/// it has been handled, plain text from the session is signed "n".
pub proof fn lemma_name_then_say_lines(s: SessionView, n: Seq<char>, text: Seq<char>)
    requires
        n.len() > 0,
        !is_space(n[n.len() - 1]),
        !is_command(text),
    ensures
        text_outcome(text_outcome(s, "/name "@ + n).0, text).1 == seq![
            ActionView::Send(s.room, s.id, n + ": "@ + trimmed(text)),
        ],
{
    reveal_strlit("/name ");
    reveal_strlit("/name");
    let rename = "/name "@ + n;
    assert("/name "@ =~= "/name"@.push(' '));
    assert(rename[rename.len() - 1] == n[n.len() - 1]);
    lemma_trimmed_bare(rename);
    assert forall|i: int| 0 <= i < "/name"@.len() implies #[trigger] "/name"@[i] != ' ' by {}
    lemma_split_word("/name"@, ' ', n);
    lemma_said_after_rename(s, rename, text);
}

} // verus!
