# ERTW

A zero-reward, agent-agnostic world in the plane. Agents see an egocentric tensor
of numbers and answer with a tensor of continuous commands. The world gives no
reward, no score and no goals: only physical consequence under three global
fields, kinetic, thermal and electromagnetic.

The library, in `src/`, holds the rules of the world and is verified with Verus.
What is computed, and when, stands in the contracts; what holds of the world as a
whole stands in the public proof functions, whose names begin with `lemma_`.

| Module | What it holds |
| --- | --- |
| `binary32` | single-precision numbers in integer arithmetic, rounded to nearest, ties to even |
| `interface` | the tensors, the frame header, what a session tells its client |
| `components`, `tags` | what a node is made of, the energy ledger, the table of nodes |
| `fields` | drift, drag and magnetic forces |
| `spatial_hash` | the grid that keeps neighbor queries local |
| `economy`, `traps` | drain, shelters, vents, harvesting, traps, death |
| `fragmentation` | stress, damage and breaking up |
| `actuation` | clamp, fabricator, oscillator |
| `agents` | controllers and observations |
| `genesis` | terrain, first population, chunk streaming |
| `lineage` | births and the record of outcomes |
| `world`, `tick` | the state between two steps, the passes of a step and their order |
| `snapshot` | lasting identities, canonical snapshots and their return |
| `server` | frames, the real-time and the lockstep protocol |
| `evaluator` | the ranking of outcomes, outside the world |
| `render` | what an observer is shown and may do |
| `draws` | seeded generators and digests, which are outside crates |

Numbers are bit patterns of `f32` (`Binary32`), so that every operation has an
exact meaning. What only a floating-point library computes comes in as an
argument: noise, sines and cosines, draws of real numbers, and what the physics
engine solved.

`app/` is ordinary Rust around the library: the physics engine, noise and random
draws, sockets, files and the programs.

- `app/main.rs`: `headless`, `evaluate`, `seed`, `server ADDRESS STEPS SEED`,
  `batch ADDRESS STEPS SEED`, `lockstep ADDRESS DECISIONS SEED TICKS [SNAPSHOT]`
  and `resume SNAPSHOT STEPS`.
- `app/observer.rs`: the windowed observer, a program of its own that needs a
  renderer besides.

`tests/` runs the library with the outside crates that it calls.
