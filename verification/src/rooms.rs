use vstd::prelude::*;

use crate::ohhell::{Ohhell, OhhellView, PlayerView, RoundView, is_v4_uuid, new_uuid_v4};

verus! {

/// What a room is: its identity and the state of its game.
pub struct RoomView {
    pub uuid: u128,
    pub game: OhhellView,
}

/// A game room: its identity and the game played in it.
#[derive(Debug, Clone)]
pub struct Room {
    uuid: u128,
    pub game: Ohhell,
}

impl Room {
    pub closed spec fn model(self) -> RoomView {
        RoomView { uuid: self.uuid, game: self.game@ }
    }
}

impl View for Room {
    type V = RoomView;

    open spec fn view(&self) -> RoomView {
        self.model()
    }
}

impl Room {
    /// A room with a fresh random UUID and a new game (no rounds, no
    /// players).
    pub fn new() -> (r: Room)
        ensures
            r@.game.rounds == Seq::<RoundView>::empty(),
            r@.game.players == Seq::<PlayerView>::empty(),
            is_v4_uuid(r@.uuid),
    {
        Room { uuid: new_uuid_v4(), game: Ohhell::new() }
    }

    pub fn get_uuid(&self) -> (u: u128)
        ensures
            u == self@.uuid,
    {
        self.uuid
    }

    /// The room's game, to change it in place; the room keeps its UUID.
    pub fn game_mut(&mut self) -> (g: &mut Ohhell)
        ensures
            g@ == old(self)@.game,
            final(self)@ == (RoomView { game: final(g)@, ..old(self)@ }),
    {
        &mut self.game
    }
}

} // verus!
