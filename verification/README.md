# RustMine

A Minecraft: Bedrock Edition server (protocol 1001, game 1.26.30) whose
core is a library verified with Verus.

## Layout

- `src/` — the verified library:
  - wire formats: `bytes`, `varint`, `nbt`, `codec`, `batch`, `raknet_packet`,
    `chunk`, `decode`, `interaction`, `login`, `packet_id`;
  - RakNet state: `raknet_conn` (received ranges, split reassembly,
    connections) and `raknet_server` (offline handshake, ACK/NACK, frame
    sets, outbound datagrams, resends, timeouts);
  - the world (`palette`, `world`), the game rules (`game`, `ecs`), commands
    (`commands`, `builtins`, `text`), player sessions (`session`), what is
    streamed to players (`stream`), the console's decisions (`console`) and
    the configuration (`config`).
- `app/` — the program around it: command line, `server.toml`, logging, the
  UDP socket and clock, the async tasks, and everything computed with
  floating point (terrain noise, distances, float command arguments).
- `tests/` — tests of the library.

Floating-point quantities the library stores (positions, rotations,
health) are kept as IEEE-754 bit patterns; the library only copies them.
