# sim_core

The deterministic core of a lunar-lander game. Given a level, a ruleset and one
input per tick, it decides where the ground is, what the controls do, what an
impact costs, when a landing counts and when a run is over. The same inputs give
the same run: the rules are exact down to the last bit, and the physics engine
is handed the same colliders in the same order.

- `src/` is the library. Every item of it is verified with Verus.
  - `binary32` is IEEE 754 single precision on bit patterns, with `big` for the
    exact decimal conversions. All numbers of the simulation go through it.
  - `level`, `parse`, `text` and `terrain` are worlds and the files that
    describe them; `rng`, `cave`, `shaft`, `obstacle` and `pad` generate the
    procedural ones.
  - `slots`, `scenery` and `scene` keep the part of the world around the ship
    loaded into the physics engine; `colliders` is the boundary to it.
  - `rules`, `run`, `visits`, `replay`, `sim` and `resim` are rulesets, the
    rules of a run, keyframes and recordings.
  - `laws` states what holds of all of this together.
- `app/` drives the engine: it steps the ship between the two halves of a tick
  and converts between hardware floats and bit patterns.
- `tests/` runs the library, with the real engine where it matters.

What `src/colliders.rs` says of the engine's collider and body sets is taken on
trust; so is `String::push`. The sine and cosine of the caves are handed in by
the caller, who promises only that one argument always gives one result.
