# sim_core

A headless hex battle. Two teams of infantry, cavalry and skirmishers meet on an
infinite plane of hexes with plains, forests, hills, mountains and water; each
tick everybody strikes once, the dead are removed, and the living move. Whoever
is surrounded is hit harder, and whoever keeps charging runs out of breath. The
library is written in Rust and verified with Verus: every function states what it
returns or changes, and Verus proves it.

- `src/single.rs` holds single-precision arithmetic done in integers, so that
  health and damage come out the same, to the bit, everywhere.
- `src/hex.rs`, `src/line.rs` and `src/terrain.rs` hold the plane and the ground.
- `src/index.rs` and `src/scan.rs` know who stands where and find enemies.
- `src/orders.rs` and `src/formations.rs` hold the command of the groups, and
  `src/stamina.rs` what their orders cost the units.
- `src/flow.rs`, `src/reach.rs`, `src/route.rs`, `src/steps.rs` and
  `src/movement.rs` find the ways: a shared cost field to the enemy line, A* (from
  `hexx`) to an enemy in sight that can be reached, and single steps where neither
  helps.
- `src/combat.rs` and `src/damage.rs` fight.
- `src/world.rs` runs the tick, and `src/course.rs` runs many, tells whether a battle
  can go on, and says what every battle keeps.
- `src/anim.rs` labels units with what they did.
- `src/deploy.rs` sets up the battle that the game plays.
- `src/agent.rs` reports on a running battle and strikes at it.

Two things are taken on trust: the A* search of `hexx`, and how `serde_json` puts a
text in quotes. What is assumed of them stands at their wrappers in `src/route.rs`
and `src/agent.rs`.

`app/` holds the game's window and the agent's server.
