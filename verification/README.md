# zomb8

The verified core of ZOMB8, a multiplayer arena zombie shooter whose client
and server talk over UDP and keep their game state in a hecs world.

The library (`src/`) holds the logic that works on plain values, each function
with a contract that Verus proves:

- `protocol`: the packet frame (a little-endian length, a kind byte and a text
  payload), its encoding and decoding, the packet payloads and the settings.
- `game::ecs::components`: health, score, collision meshes and animation frames.
- `game::ecs::systems`: the game rules — breadth-first path search over the
  tile grid (proved to return a shortest route, or nothing when none exists),
  which collisions count, what a zombie's collisions do, health packs, and the
  input map.
- `client`: client-side prediction (numbered inputs, dropping acknowledged
  ones), the snapshot history and finding network entities.

The program around it (`app/`) is ordinary Rust: the window and drawing
(macroquad), the world (hecs), positions and motion (floating point), the
network thread (tokio), the config file (toml) and the wire encoding of
payloads (serde, bincode). It reads and writes the world and hands the
library plain values.

The tests under `tests/` run the library with the real outside crates.

The config file, `assets/config.toml`, defaults to:

```
server_ip = "192.168.2.119"
port = 6969
tps = 20
```
