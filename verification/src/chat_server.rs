use vstd::prelude::*;

use crate::chat::{opt_text, signature};
use crate::text::str_eq;

verus! {

/// Draws a random id (`rand::random::<usize>()` from the thread-local
/// generator). Nothing is claimed of the value.
#[verifier::external_body]
fn random_id() -> (r: usize) {
    rand::random::<usize>()
}

/// No id occurs twice among the members.
pub open spec fn ids_distinct<C>(m: Seq<(usize, C)>) -> bool {
    forall|i: int, j: int| 0 <= i < m.len() && 0 <= j < m.len() && i != j ==> #[trigger] m[i].0 != #[trigger] m[j].0
}

/// The members of a room as a map from id to client.
pub open spec fn members_map<C>(m: Seq<(usize, C)>) -> Map<usize, C> {
    Map::new(
        |id: usize| exists|j: int| 0 <= j < m.len() && #[trigger] m[j].0 == id,
        |id: usize| m[choose|j: int| 0 <= j < m.len() && #[trigger] m[j].0 == id].1,
    )
}

/// With distinct ids, the client at position `j` is the one of its id.
pub proof fn lemma_members_map_at<C>(m: Seq<(usize, C)>, j: int)
    requires
        ids_distinct(m),
        0 <= j < m.len(),
    ensures
        members_map(m).contains_key(m[j].0),
        members_map(m)[m[j].0] == m[j].1,
{
    let id = m[j].0;
    assert(exists|x: int| 0 <= x < m.len() && #[trigger] m[x].0 == id);
    let c = choose|x: int| 0 <= x < m.len() && #[trigger] m[x].0 == id;
    assert(c == j);
}

/// Adding a member with a new id adds it to the map.
proof fn lemma_members_push<C>(m: Seq<(usize, C)>, id: usize, client: C)
    requires
        ids_distinct(m),
        !members_map(m).contains_key(id),
    ensures
        ids_distinct(m.push((id, client))),
        members_map(m.push((id, client))) == members_map(m).insert(id, client),
{
    let n = m.push((id, client));
    assert forall|i: int, j: int| 0 <= i < n.len() && 0 <= j < n.len() && i != j implies #[trigger] n[i].0
        != #[trigger] n[j].0 by {
        if i == m.len() {
            assert(!(0 <= j < m.len() && m[j].0 == id));
        } else if j == m.len() {
            assert(!(0 <= i < m.len() && m[i].0 == id));
        } else {
            assert(m[i].0 != m[j].0);
        }
    }
    assert forall|k: usize| #[trigger] members_map(n).contains_key(k) implies members_map(m).insert(
        id,
        client,
    ).contains_key(k) && members_map(n)[k] == members_map(m).insert(id, client)[k] by {
        let x = choose|x: int| 0 <= x < n.len() && #[trigger] n[x].0 == k;
        lemma_members_map_at(n, x);
        if x < m.len() {
            lemma_members_map_at(m, x);
        }
    }
    assert forall|k: usize| #[trigger] members_map(m).insert(id, client).contains_key(k) implies members_map(
        n,
    ).contains_key(k) by {
        if k == id {
            assert(n[m.len() as int].0 == id);
        } else {
            let x = choose|x: int| 0 <= x < m.len() && #[trigger] m[x].0 == k;
            assert(n[x].0 == k);
        }
    }
    assert(members_map(n) =~= members_map(m).insert(id, client));
}

/// Taking out the member at position `j` takes its id out of the map.
proof fn lemma_members_remove<C>(m: Seq<(usize, C)>, j: int)
    requires
        ids_distinct(m),
        0 <= j < m.len(),
    ensures
        ids_distinct(m.remove(j)),
        members_map(m.remove(j)) == members_map(m).remove(m[j].0),
{
    let n = m.remove(j);
    let id = m[j].0;
    assert forall|a: int, b: int| 0 <= a < n.len() && 0 <= b < n.len() && a != b implies #[trigger] n[a].0
        != #[trigger] n[b].0 by {
        let a2 = if a < j {
            a
        } else {
            a + 1
        };
        let b2 = if b < j {
            b
        } else {
            b + 1
        };
        assert(m[a2].0 != m[b2].0);
    }
    assert forall|k: usize| #[trigger] members_map(n).contains_key(k) implies members_map(m).remove(
        id,
    ).contains_key(k) && members_map(n)[k] == members_map(m).remove(id)[k] by {
        let x = choose|x: int| 0 <= x < n.len() && #[trigger] n[x].0 == k;
        lemma_members_map_at(n, x);
        let x2 = if x < j {
            x
        } else {
            x + 1
        };
        assert(m[x2].0 != m[j].0);
        lemma_members_map_at(m, x2);
    }
    assert forall|k: usize| #[trigger] members_map(m).remove(id).contains_key(k) implies members_map(
        n,
    ).contains_key(k) by {
        let x = choose|x: int| 0 <= x < m.len() && #[trigger] m[x].0 == k;
        assert(x != j);
        let x2 = if x < j {
            x
        } else {
            x - 1
        };
        assert(n[x2].0 == k);
    }
    assert(members_map(n) =~= members_map(m).remove(id));
}

/// Some member has id `j`.
pub open spec fn has_id<C>(m: Seq<(usize, C)>, j: int) -> bool {
    exists|x: int| 0 <= x < m.len() && #[trigger] m[x].0 == j
}

/// Ids that cover every value in `0..=c` are more than `c`.
proof fn lemma_ids_cover<C>(m: Seq<(usize, C)>, c: int)
    requires
        0 <= c,
        forall|j: int| 0 <= j <= c ==> #[trigger] has_id(m, j),
    ensures
        c < m.len(),
{
    let ids = m.map_values(|p: (usize, C)| p.0 as int);
    ids.lemma_cardinality_of_set();
    vstd::set_lib::lemma_int_range(0, c + 1);
    assert forall|j: int| #[trigger] vstd::set_lib::set_int_range(0, c + 1).contains(j) implies ids.to_set().contains(j) by {
        assert(has_id(m, j));
        let x = choose|x: int| 0 <= x < m.len() && #[trigger] m[x].0 == j;
        assert(ids[x] == j);
    }
    vstd::seq_lib::seq_to_set_is_finite(ids);
    vstd::set_lib::lemma_len_subset(vstd::set_lib::set_int_range(0, c + 1), ids.to_set());
}

/// No room name occurs twice, and in each room no id occurs twice.
pub open spec fn rooms_wf<C>(r: Seq<(String, Vec<(usize, C)>)>) -> bool {
    &&& forall|i: int, j: int|
        0 <= i < r.len() && 0 <= j < r.len() && i != j ==> #[trigger] r[i].0@ != #[trigger] r[j].0@
    &&& forall|i: int| 0 <= i < r.len() ==> ids_distinct(#[trigger] r[i].1@)
}

/// The rooms as a map from room name to the room's members.
pub open spec fn rooms_map<C>(r: Seq<(String, Vec<(usize, C)>)>) -> Map<Seq<char>, Map<usize, C>> {
    Map::new(
        |name: Seq<char>| exists|i: int| 0 <= i < r.len() && #[trigger] r[i].0@ == name,
        |name: Seq<char>| members_map(r[choose|i: int| 0 <= i < r.len() && #[trigger] r[i].0@ == name].1@),
    )
}

/// With distinct names, the room at position `i` is the one of its name.
proof fn lemma_rooms_map_at<C>(r: Seq<(String, Vec<(usize, C)>)>, i: int)
    requires
        rooms_wf(r),
        0 <= i < r.len(),
    ensures
        rooms_map(r).contains_key(r[i].0@),
        rooms_map(r)[r[i].0@] == members_map(r[i].1@),
{
    let name = r[i].0@;
    assert(exists|x: int| 0 <= x < r.len() && #[trigger] r[x].0@ == name);
    let c = choose|x: int| 0 <= x < r.len() && #[trigger] r[x].0@ == name;
    assert(c == i);
}

/// Giving room `i` new members changes that room alone.
proof fn lemma_rooms_update<C>(r: Seq<(String, Vec<(usize, C)>)>, i: int, members: Vec<(usize, C)>)
    requires
        rooms_wf(r),
        0 <= i < r.len(),
        ids_distinct(members@),
    ensures
        rooms_wf(r.update(i, (r[i].0, members))),
        rooms_map(r.update(i, (r[i].0, members))) == rooms_map(r).insert(r[i].0@, members_map(members@)),
{
    let n = r.update(i, (r[i].0, members));
    assert(rooms_wf(n)) by {
        assert forall|a: int, b: int| 0 <= a < n.len() && 0 <= b < n.len() && a != b implies #[trigger] n[a].0@
            != #[trigger] n[b].0@ by {
            assert(r[a].0@ != r[b].0@);
        }
    }
    assert forall|k: Seq<char>| #[trigger] rooms_map(n).contains_key(k) implies rooms_map(r).insert(
        r[i].0@,
        members_map(members@),
    ).contains_key(k) && rooms_map(n)[k] == rooms_map(r).insert(r[i].0@, members_map(members@))[k] by {
        let x = choose|x: int| 0 <= x < n.len() && #[trigger] n[x].0@ == k;
        lemma_rooms_map_at(n, x);
        lemma_rooms_map_at(r, x);
    }
    assert forall|k: Seq<char>| #[trigger] rooms_map(r).insert(r[i].0@, members_map(members@)).contains_key(
        k,
    ) implies rooms_map(n).contains_key(k) by {
        if k == r[i].0@ {
            assert(n[i].0@ == k);
        } else {
            let x = choose|x: int| 0 <= x < r.len() && #[trigger] r[x].0@ == k;
            assert(n[x].0@ == k);
        }
    }
    assert(rooms_map(n) =~= rooms_map(r).insert(r[i].0@, members_map(members@)));
}

/// Adding a room under a new name adds it to the map.
proof fn lemma_rooms_push<C>(r: Seq<(String, Vec<(usize, C)>)>, name: String, members: Vec<(usize, C)>)
    requires
        rooms_wf(r),
        !rooms_map(r).contains_key(name@),
        ids_distinct(members@),
    ensures
        rooms_wf(r.push((name, members))),
        rooms_map(r.push((name, members))) == rooms_map(r).insert(name@, members_map(members@)),
{
    let n = r.push((name, members));
    assert(rooms_wf(n)) by {
        assert forall|a: int, b: int| 0 <= a < n.len() && 0 <= b < n.len() && a != b implies #[trigger] n[a].0@
            != #[trigger] n[b].0@ by {
            if a == r.len() {
                assert(!(0 <= b < r.len() && r[b].0@ == name@));
            } else if b == r.len() {
                assert(!(0 <= a < r.len() && r[a].0@ == name@));
            } else {
                assert(r[a].0@ != r[b].0@);
            }
        }
        assert forall|a: int| 0 <= a < n.len() implies ids_distinct(#[trigger] n[a].1@) by {
            if a < r.len() {
                assert(n[a] == r[a]);
            }
        }
    }
    assert forall|k: Seq<char>| #[trigger] rooms_map(n).contains_key(k) implies rooms_map(r).insert(
        name@,
        members_map(members@),
    ).contains_key(k) && rooms_map(n)[k] == rooms_map(r).insert(name@, members_map(members@))[k] by {
        let x = choose|x: int| 0 <= x < n.len() && #[trigger] n[x].0@ == k;
        lemma_rooms_map_at(n, x);
        if x < r.len() {
            lemma_rooms_map_at(r, x);
        }
    }
    assert forall|k: Seq<char>| #[trigger] rooms_map(r).insert(name@, members_map(members@)).contains_key(
        k,
    ) implies rooms_map(n).contains_key(k) by {
        if k == name@ {
            assert(n[r.len() as int].0@ == k);
        } else {
            let x = choose|x: int| 0 <= x < r.len() && #[trigger] r[x].0@ == k;
            assert(n[x].0@ == k);
        }
    }
    assert(rooms_map(n) =~= rooms_map(r).insert(name@, members_map(members@)));
}

/// The chat server: rooms by name, each holding its members' clients by id.
pub struct WsChatServer<C> {
    rooms: Vec<(String, Vec<(usize, C)>)>,
}

impl<C> WsChatServer<C> {
    /// The rooms, by name, each a map from member id to client.
    pub closed spec fn rooms_spec(self) -> Map<Seq<char>, Map<usize, C>> {
        rooms_map(self.rooms@)
    }

    /// Room names and member ids are keys: none occurs twice.
    pub closed spec fn wf(self) -> bool {
        rooms_wf(self.rooms@)
    }
}

impl<C> View for WsChatServer<C> {
    type V = Map<Seq<char>, Map<usize, C>>;

    open spec fn view(&self) -> Map<Seq<char>, Map<usize, C>> {
        self.rooms_spec()
    }
}

/// `after` is what is left of room `before` after sending `msg` through
/// `deliver`: the members to whom delivery succeeded, and no others.
pub open spec fn kept_if_delivered<C, F: Fn(&C, &str) -> bool>(
    before: Map<usize, C>,
    after: Map<usize, C>,
    deliver: F,
    msg: &str,
) -> bool {
    &&& forall|id: usize| #[trigger] after.contains_key(id) ==> before.contains_key(id)
    &&& forall|id: usize|
        #[trigger] before.contains_key(id) ==> (if after.contains_key(id) {
            after[id] == before[id] && deliver.ensures((&before[id], msg), true)
        } else {
            deliver.ensures((&before[id], msg), false)
        })
}

/// The chat text that announces `client_name` (or "anon") joining `room`.
pub open spec fn join_text(client_name: Option<Seq<char>>, room: Seq<char>) -> Seq<char> {
    signature(client_name) + " joined "@ + room
}

impl<C> WsChatServer<C> {
    /// A chat server with no rooms.
    pub fn new() -> (s: WsChatServer<C>)
        ensures
            s.wf(),
            s@ == Map::<Seq<char>, Map<usize, C>>::empty(),
    {
        let s = WsChatServer { rooms: Vec::new() };
        proof {
            assert(s@ =~= Map::<Seq<char>, Map<usize, C>>::empty());
        }
        s
    }

    /// The position of the room named `room_name`, if there is one.
    fn find_room(&self, room_name: &str) -> (r: Option<usize>)
        requires
            self.wf(),
        ensures
            match r {
                Some(i) => i < self.rooms@.len() && self.rooms@[i as int].0@ == room_name@,
                None => !self@.contains_key(room_name@),
            },
    {
        let mut i: usize = 0;
        while i < self.rooms.len()
            invariant
                i <= self.rooms@.len(),
                forall|j: int| 0 <= j < i ==> #[trigger] self.rooms@[j].0@ != room_name@,
            decreases self.rooms.len() - i,
        {
            if str_eq(self.rooms[i].0.as_str(), room_name) {
                return Some(i);
            }
            i = i + 1;
        }
        None
    }

    /// Empties the room named `room_name` and gives its members, if the room
    /// exists; the room stays, with no members.
    pub fn take_room(&mut self, room_name: &str) -> (r: Option<Vec<(usize, C)>>)
        requires
            old(self).wf(),
        ensures
            final(self).wf(),
            match r {
                Some(members) => old(self)@.contains_key(room_name@) && ids_distinct(members@)
                    && members_map(members@) == old(self)@[room_name@] && final(self)@ == old(
                    self,
                )@.insert(room_name@, Map::empty()),
                None => !old(self)@.contains_key(room_name@) && final(self)@ == old(self)@,
            },
    {
        match self.find_room(room_name) {
            None => None,
            Some(i) => {
                let ghost r0 = self.rooms@;
                proof {
                    lemma_rooms_map_at(r0, i as int);
                }
                let mut members: Vec<(usize, C)> = Vec::new();
                let entry = &mut self.rooms[i];
                std::mem::swap(&mut entry.1, &mut members);
                proof {
                    assert(self.rooms@ == r0.update(i as int, (r0[i as int].0, self.rooms@[i as int].1)));
                    assert(self.rooms@[i as int].1@ == Seq::<(usize, C)>::empty());
                    assert(members_map(Seq::<(usize, C)>::empty()) =~= Map::<usize, C>::empty());
                    lemma_rooms_update(r0, i as int, self.rooms@[i as int].1);
                }
                Some(members)
            },
        }
    }

    /// The position of the member with id `id`, if there is one.
    fn find_member(members: &Vec<(usize, C)>, id: usize) -> (r: Option<usize>)
        ensures
            match r {
                Some(j) => j < members@.len() && members@[j as int].0 == id,
                None => !members_map(members@).contains_key(id),
            },
    {
        let mut j: usize = 0;
        while j < members.len()
            invariant
                j <= members@.len(),
                forall|x: int| 0 <= x < j ==> #[trigger] members@[x].0 != id,
            decreases members.len() - j,
        {
            if members[j].0 == id {
                return Some(j);
            }
            j = j + 1;
        }
        None
    }

    /// Puts `client` in room `room_name` under id `id`, making the room if
    /// it does not exist; if the room already has a member with that id, the
    /// client is handed back and nothing changes.
    pub fn try_add_client(&mut self, room_name: &str, id: usize, client: C) -> (r: Result<(), C>)
        requires
            old(self).wf(),
        ensures
            final(self).wf(),
            match r {
                Err(c) => c == client && old(self)@.contains_key(room_name@) && old(
                    self,
                )@[room_name@].contains_key(id) && final(self)@ == old(self)@,
                Ok(()) => !(old(self)@.contains_key(room_name@) && old(self)@[room_name@].contains_key(
                    id,
                )) && final(self)@ == old(self)@.insert(
                    room_name@,
                    (if old(self)@.contains_key(room_name@) {
                        old(self)@[room_name@]
                    } else {
                        Map::empty()
                    }).insert(id, client),
                ),
            },
    {
        let ghost r0 = self.rooms@;
        match self.find_room(room_name) {
            Some(i) => {
                proof {
                    lemma_rooms_map_at(r0, i as int);
                }
                match Self::find_member(&self.rooms[i].1, id) {
                    Some(j) => {
                        proof {
                            lemma_members_map_at(r0[i as int].1@, j as int);
                        }
                        Err(client)
                    },
                    None => {
                        let ghost m0 = r0[i as int].1@;
                        proof {
                            lemma_members_push(m0, id, client);
                        }
                        let entry = &mut self.rooms[i];
                        entry.1.push((id, client));
                        proof {
                            assert(self.rooms@ == r0.update(
                                i as int,
                                (r0[i as int].0, self.rooms@[i as int].1),
                            ));
                            lemma_rooms_update(r0, i as int, self.rooms@[i as int].1);
                        }
                        Ok(())
                    },
                }
            },
            None => {
                let mut members: Vec<(usize, C)> = Vec::new();
                proof {
                    assert(members_map(members@) =~= Map::<usize, C>::empty());
                    lemma_members_push(members@, id, client);
                }
                members.push((id, client));
                let name = String::from_str(room_name);
                proof {
                    lemma_rooms_push(r0, name, members);
                }
                self.rooms.push((name, members));
                Ok(())
            },
        }
    }

    /// Takes member `id` out of room `room_name`, if both exist.
    pub fn leave_room(&mut self, room_name: &str, id: usize)
        requires
            old(self).wf(),
        ensures
            final(self).wf(),
            final(self)@ == if old(self)@.contains_key(room_name@) {
                old(self)@.insert(room_name@, old(self)@[room_name@].remove(id))
            } else {
                old(self)@
            },
    {
        let ghost r0 = self.rooms@;
        match self.find_room(room_name) {
            None => {},
            Some(i) => {
                proof {
                    lemma_rooms_map_at(r0, i as int);
                }
                match Self::find_member(&self.rooms[i].1, id) {
                    None => {
                        proof {
                            assert(self@[room_name@].remove(id) =~= self@[room_name@]);
                            assert(self@.insert(room_name@, self@[room_name@]) =~= self@);
                        }
                    },
                    Some(j) => {
                        let ghost m0 = r0[i as int].1@;
                        proof {
                            lemma_members_remove(m0, j as int);
                        }
                        let entry = &mut self.rooms[i];
                        entry.1.remove(j);
                        proof {
                            assert(self.rooms@ == r0.update(
                                i as int,
                                (r0[i as int].0, self.rooms@[i as int].1),
                            ));
                            lemma_rooms_update(r0, i as int, self.rooms@[i as int].1);
                        }
                    },
                }
            },
        }
    }

    /// The names of all rooms, each once.
    pub fn list_rooms(&self) -> (v: Vec<String>)
        requires
            self.wf(),
        ensures
            forall|k: Seq<char>|
                self@.contains_key(k) <==> exists|i: int| 0 <= i < v@.len() && #[trigger] v@[i]@ == k,
            forall|i: int, j: int|
                0 <= i < v@.len() && 0 <= j < v@.len() && i != j ==> #[trigger] v@[i]@ != #[trigger] v@[j]@,
    {
        let mut v: Vec<String> = Vec::new();
        let mut i: usize = 0;
        while i < self.rooms.len()
            invariant
                i <= self.rooms@.len(),
                v@.len() == i,
                forall|j: int| 0 <= j < i ==> #[trigger] v@[j]@ == self.rooms@[j].0@,
            decreases self.rooms.len() - i,
        {
            v.push(self.rooms[i].0.clone());
            i = i + 1;
        }
        proof {
            assert forall|k: Seq<char>| self@.contains_key(k) implies exists|x: int|
                0 <= x < v@.len() && #[trigger] v@[x]@ == k by {
                let x = choose|x: int| 0 <= x < self.rooms@.len() && #[trigger] self.rooms@[x].0@ == k;
                assert(v@[x]@ == k);
            }
            assert forall|x: int, y: int| 0 <= x < v@.len() && 0 <= y < v@.len() && x != y implies #[trigger] v@[x]@
                != #[trigger] v@[y]@ by {
                assert(self.rooms@[x].0@ != self.rooms@[y].0@);
            }
            assert forall|k: Seq<char>| (exists|x: int| 0 <= x < v@.len() && #[trigger] v@[x]@ == k) implies self@.contains_key(
                k,
            ) by {
                let x = choose|x: int| 0 <= x < v@.len() && #[trigger] v@[x]@ == k;
                assert(self.rooms@[x].0@ == k);
            }
        }
        v
    }

    /// Whether room `room_name` exists and has a member with id `id`.
    fn id_taken(&self, room_name: &str, id: usize) -> (r: bool)
        requires
            self.wf(),
        ensures
            r == (self@.contains_key(room_name@) && self@[room_name@].contains_key(id)),
    {
        match self.find_room(room_name) {
            None => false,
            Some(i) => {
                proof {
                    lemma_rooms_map_at(self.rooms@, i as int);
                }
                match Self::find_member(&self.rooms[i].1, id) {
                    Some(j) => {
                        proof {
                            lemma_members_map_at(self.rooms@[i as int].1@, j as int);
                        }
                        true
                    },
                    None => false,
                }
            },
        }
    }

    /// An id that no member of room `room_name` has: the least such id.
    fn free_id(&self, room_name: &str) -> (r: usize)
        requires
            self.wf(),
        ensures
            !(self@.contains_key(room_name@) && self@[room_name@].contains_key(r)),
    {
        match self.find_room(room_name) {
            None => 0,
            Some(i) => {
                proof {
                    lemma_rooms_map_at(self.rooms@, i as int);
                }
                let members = &self.rooms[i].1;
                let ghost m = members@;
                let n = members.len();
                let mut c: usize = 0;
                loop
                    invariant
                        m == members@,
                        n == m.len(),
                        ids_distinct(m),
                        self@[room_name@] == members_map(m),
                        c <= m.len(),
                        forall|j: int| 0 <= j < c ==> #[trigger] has_id(m, j),
                    decreases m.len() - c,
                {
                    match Self::find_member(members, c) {
                        None => {
                            return c;
                        },
                        Some(x) => {
                            proof {
                                assert(m[x as int].0 == c);
                                assert(has_id(m, c as int));
                                lemma_ids_cover(m, c as int);
                            }
                            c = c + 1;
                        },
                    }
                }
            },
        }
    }

    /// Puts `client` in room `room_name` (made if it does not exist) under
    /// id `id`, or a random id if `id` is `None`; while the id is taken in
    /// the room, a new random id is drawn. Gives the id the client got, one
    /// that no other member of the room has. After `usize::MAX` taken draws
    /// in a row, the least free id is taken.
    pub fn add_client_to_room(&mut self, room_name: &str, id: Option<usize>, client: C) -> (got: usize)
        requires
            old(self).wf(),
        ensures
            final(self).wf(),
            !(old(self)@.contains_key(room_name@) && old(self)@[room_name@].contains_key(got)),
            final(self)@ == old(self)@.insert(
                room_name@,
                (if old(self)@.contains_key(room_name@) {
                    old(self)@[room_name@]
                } else {
                    Map::empty()
                }).insert(got, client),
            ),
            id is Some && !(old(self)@.contains_key(room_name@) && old(self)@[room_name@].contains_key(
                id->0,
            )) ==> got == id->0,
    {
        let mut candidate = match id {
            Some(i) => i,
            None => random_id(),
        };
        let mut left: usize = usize::MAX;
        let ghost first = true;
        loop
            invariant
                self.wf(),
                self@ == old(self)@,
                !first ==> id is None || (old(self)@.contains_key(room_name@) && old(
                    self,
                )@[room_name@].contains_key(id->0)),
                first ==> (id is Some ==> candidate == id->0),
            ensures
                self.wf(),
                self@ == old(self)@,
                !(old(self)@.contains_key(room_name@) && old(self)@[room_name@].contains_key(
                    candidate,
                )),
                id is Some && !(old(self)@.contains_key(room_name@) && old(
                    self,
                )@[room_name@].contains_key(id->0)) ==> candidate == id->0,
            decreases left,
        {
            if !self.id_taken(room_name, candidate) {
                break;
            }
            if left == 0 {
                proof {
                    first = false;
                }
                candidate = self.free_id(room_name);
                break;
            }
            left = left - 1;
            candidate = random_id();
            proof {
                first = false;
            }
        }
        match self.try_add_client(room_name, candidate, client) {
            Ok(()) => candidate,
            Err(_) => {
                // The candidate is free, so the client is never handed back.
                proof {
                    assert(false);
                }
                candidate
            },
        }
    }

    /// A client joins room `room_name` under a fresh id (see
    /// `add_client_to_room`, with no id asked for); then the room is told,
    /// through `deliver`, that `client_name` (or "anon") joined, and keeps the
    /// members to whom that was delivered. Gives the new member's id.
    pub fn join<F: Fn(&C, &str) -> bool>(
        &mut self,
        room_name: &str,
        client_name: Option<String>,
        client: C,
        deliver: F,
    ) -> (id: usize)
        requires
            old(self).wf(),
            forall|c: &C, m: &str| deliver.requires((c, m)),
        ensures
            final(self).wf(),
            ({
                let room = if old(self)@.contains_key(room_name@) {
                    old(self)@[room_name@]
                } else {
                    Map::empty()
                };
                &&& !room.contains_key(id)
                &&& final(self)@ == old(self)@.insert(room_name@, final(self)@[room_name@])
                &&& exists|m: &str|
                    m@ == join_text(opt_text(client_name), room_name@) && kept_if_delivered(
                        room.insert(id, client),
                        final(self)@[room_name@],
                        deliver,
                        m,
                    )
            }),
    {
        let id = self.add_client_to_room(room_name, None, client);
        let text = Self::join_message(client_name, room_name);
        let ghost s1 = self@;
        let m = text.as_str();
        let sent = self.send_chat_message(room_name, m, deliver);
        proof {
            assert(s1.contains_key(room_name@));
            assert(self@ =~= old(self)@.insert(room_name@, self@[room_name@]));
            assert(kept_if_delivered(s1[room_name@], self@[room_name@], deliver, m));
        }
        id
    }

    /// What the server answers a game action: the text "test".
    pub fn game_action_reply(&self, id: usize, string: &str) -> (r: String)
        ensures
            r@ == "test"@,
    {
        String::from_str("test")
    }

    /// Sends chat message `msg` to every member of room `room_name` through
    /// `deliver`, and keeps in the room exactly the members to whom delivery
    /// succeeded. `None` if there is no such room.
    pub fn send_chat_message<F: Fn(&C, &str) -> bool>(&mut self, room_name: &str, msg: &str, deliver: F) -> (r:
        Option<()>)
        requires
            old(self).wf(),
            forall|c: &C, m: &str| deliver.requires((c, m)),
        ensures
            final(self).wf(),
            r is None <==> !old(self)@.contains_key(room_name@),
            r is None ==> final(self)@ == old(self)@,
            r is Some ==> final(self)@ == old(self)@.insert(room_name@, final(self)@[room_name@])
                && kept_if_delivered(old(self)@[room_name@], final(self)@[room_name@], deliver, msg),
    {
        let mut members = match self.take_room(room_name) {
            None => {
                return None;
            },
            Some(m) => m,
        };
        let ghost m0 = members@;
        let ghost s0 = self@;
        let ghost before = members_map(m0);
        while members.len() > 0
            invariant
                self.wf(),
                ids_distinct(m0),
                members@.len() <= m0.len(),
                members@ == m0.subrange(0, members@.len() as int),
                s0.contains_key(room_name@),
                self@ == s0.insert(room_name@, self@[room_name@]),
                self@.contains_key(room_name@),
                forall|id: usize| #[trigger]
                    self@[room_name@].contains_key(id) ==> exists|x: int|
                        members@.len() <= x < m0.len() && #[trigger] m0[x].0 == id,
                forall|x: int|
                    members@.len() <= x < m0.len() ==> (if #[trigger] self@[room_name@].contains_key(
                        m0[x].0,
                    ) {
                        self@[room_name@][m0[x].0] == m0[x].1 && deliver.ensures((&m0[x].1, msg), true)
                    } else {
                        deliver.ensures((&m0[x].1, msg), false)
                    }),
                forall|c: &C, m: &str| deliver.requires((c, m)),
            decreases members.len(),
        {
            let ghost k = members@.len() - 1;
            let ghost pre = members@;
            let (id, client) = members.pop().unwrap();
            proof {
                assert(pre[k] == m0[k]);
                assert(members@ =~= m0.subrange(0, members@.len() as int));
            }
            assert(m0[k] == (id, client));
            let delivered = deliver(&client, msg);
            if delivered {
                proof {
                    if self@[room_name@].contains_key(id) {
                        let x = choose|x: int| members@.len() + 1 <= x < m0.len() && #[trigger] m0[x].0 == id;
                        assert(m0[x].0 != m0[k].0);
                    }
                }
                let ghost s1 = self@;
                let added = self.try_add_client(room_name, id, client);
                proof {
                    assert(added is Ok);
                    assert(self@ == s0.insert(room_name@, self@[room_name@]));
                    assert forall|x: int| members@.len() <= x < m0.len() implies (if #[trigger] self@[room_name@].contains_key(
                        m0[x].0,
                    ) {
                        self@[room_name@][m0[x].0] == m0[x].1 && deliver.ensures((&m0[x].1, msg), true)
                    } else {
                        deliver.ensures((&m0[x].1, msg), false)
                    }) by {
                        if x != k {
                            assert(m0[x].0 != m0[k].0);
                        }
                    }
                    assert forall|i: usize| #[trigger] self@[room_name@].contains_key(i) implies exists|x: int|
                        members@.len() <= x < m0.len() && #[trigger] m0[x].0 == i by {
                        if i == id {
                            assert(m0[k].0 == i);
                        } else {
                            assert(s1[room_name@].contains_key(i));
                        }
                    }
                }
            } else {
                proof {
                    assert forall|x: int| members@.len() <= x < m0.len() implies (if #[trigger] self@[room_name@].contains_key(
                        m0[x].0,
                    ) {
                        self@[room_name@][m0[x].0] == m0[x].1 && deliver.ensures((&m0[x].1, msg), true)
                    } else {
                        deliver.ensures((&m0[x].1, msg), false)
                    }) by {
                        if x == k && self@[room_name@].contains_key(m0[x].0) {
                            let y = choose|y: int| members@.len() + 1 <= y < m0.len() && #[trigger] m0[y].0 == id;
                            assert(m0[y].0 != m0[k].0);
                        }
                    }
                }
            }
        }
        proof {
            let after = self@[room_name@];
            assert forall|id: usize| #[trigger] after.contains_key(id) implies before.contains_key(id) by {
                let x = choose|x: int| 0 <= x < m0.len() && #[trigger] m0[x].0 == id;
                lemma_members_map_at(m0, x);
            }
            assert forall|id: usize| #[trigger] before.contains_key(id) implies (if after.contains_key(id) {
                after[id] == before[id] && deliver.ensures((&before[id], msg), true)
            } else {
                deliver.ensures((&before[id], msg), false)
            }) by {
                let x = choose|x: int| 0 <= x < m0.len() && #[trigger] m0[x].0 == id;
                lemma_members_map_at(m0, x);
            }
        }
        Some(())
    }

    /// The chat text announcing that `client_name` (or "anon") joined room
    /// `room_name`.
    pub fn join_message(client_name: Option<String>, room_name: &str) -> (r: String)
        ensures
            r@ == join_text(opt_text(client_name), room_name@),
    {
        let mut r = match client_name {
            Some(n) => n,
            None => String::from_str("anon"),
        };
        r.append(" joined ");
        r.append(room_name);
        r
    }
}

/// A client that joins an existing room under a free id and then leaves it
/// leaves the rooms as they were.
pub proof fn lemma_add_then_leave_restores<C>(
    rooms: Map<Seq<char>, Map<usize, C>>,
    name: Seq<char>,
    id: usize,
    client: C,
)
    requires
        rooms.contains_key(name),
        !rooms[name].contains_key(id),
    ensures
        ({
            let added = rooms.insert(name, rooms[name].insert(id, client));
            added.insert(name, added[name].remove(id)) == rooms
        }),
{
    let added = rooms.insert(name, rooms[name].insert(id, client));
    assert(added[name].remove(id) =~= rooms[name]);
    assert(added.insert(name, added[name].remove(id)) =~= rooms);
}

} // verus!
