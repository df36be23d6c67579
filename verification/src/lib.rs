//! Oh Hell card game: cards and decks, the game model (players, hands, bets,
//! rounds, rooms), the request handling of the game server, and the rooms and
//! commands of the chat that goes with it.

pub mod cards;
pub mod chat;
pub mod chat_server;
pub mod ohhell;
pub mod request;
pub mod rooms;
pub mod text;
pub mod wsserver;
