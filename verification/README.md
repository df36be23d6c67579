# ohhell

A server for the card game Oh Hell, with its game logic verified in Verus.

- `src/cards.rs`: cards and decks (a full 52-card deck, drawing, shuffling).
- `src/ohhell.rs`: players, hands, bets, rounds and the game.
- `src/rooms.rs`: a game room.
- `src/text.rs`: decimal numbers in text, trimming and splitting.
- `src/request.rs`: the MessagePack requests clients send, and their fields.
- `src/wsserver.rs`: the game server's state and how it answers a request.
- `src/chat.rs`, `src/chat_server.rs`: chat sessions (text commands) and chat
  rooms.
- `app/main.rs`: the websocket server (warp) that hands each message to the
  library and sends back its reply.
