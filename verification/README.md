# gameoflight

Conway's Game of Life as played on the "Game of Light" server, where players
pay a Lightning invoice to set tiles of a shared world.

- `src/` is the verified library:
  - `world.rs`: tiles, the row-major grid, index/position conversions,
    Conway's step and the text drawing of a world;
  - `statefile.rs`: reading a world from the bytes of a state file;
  - `sim.rs`: a named simulation that runs for a number of ticks or sets a
    tile on request;
  - `messages.rs`: what server and players send each other;
  - `session.rs`: player accounts and connected sessions with their outgoing
    queues;
  - `gameloop.rs`: the game state, filing paid tile updates, invoice labels,
    the per-step change list;
  - `invoiceloop.rs`, `payloop.rs`: what a created invoice or a payment does
    to the game.
- `app/` holds the two programs around it: the websocket game server (the
  default) and the command-line simulator (`conway` as first argument), the
  JSON form of the messages, and the threads that talk to the Lightning node.
