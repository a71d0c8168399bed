# viva_chat

A two-person "secret room" terminal chat: a WebSocket relay and a terminal
client. The logic of both is a Verus library; the network, the database, the
terminal and the command line stay in a thin program around it.

Layout:

- `src/` — the verified library.
  - `relay/` — room admission (`check_params`, `room_id`, `enter_room`,
    `leave_room`), what the relay does with a client's event (`read_event`,
    `handle_frame`, `handle_event`, `after_post`, `after_update`, `deliver`), fan-out to the
    connections of a room (`broadcast*`), the history replay query, and the
    older line relay (`simple`).
  - `client/` — the message store and how it reacts to relay events
    (`handle_in`, `upsert`, `mine`), rendering of message bubbles and notices
    (`ui`), word wrapping, URL encoding and time labels (`utils`).
  - `text.rs`, `json.rs`, `clock.rs` — text utilities, reading members of a
    JSON event, and the clock, time zone and UUID calls the logic makes.
- `tests/` — tests of the library on concrete values.
- `app/` — the program: `chat --key <key>` and `relay`, with the WebSocket and
  HTTP server, MongoDB access and terminal I/O.
