# runtime-core

The core of an actor runtime, written in Rust and proved with Verus. One World
holds actors, their bounded mailboxes, routes between them, operations,
publications, services, leases, supervision and diagnostics.

- `src/` is the library. Its functions have contracts over a mathematical view
  of the value they work on, and these are proved. Four wrappers of the
  standard library are believed instead: `machine_now` and `machine_elapsed`
  read the time, `text_from_utf8` decodes text, and `reserved` reads the room
  that a vector has.
  - `types`, `clock`, `text`, `ordered`, `sums`, `tally`: what the rest is
    made of.
  - `payload`, `envelope`, `held`, `buffers`: messages and the budget that
    counts their bytes.
  - `components`, `routing`, `services`: typed ports, routes and leases.
  - `operations`, `publications`, `expiry`, `readiness`, `activity`,
    `diagnostics`, `failures`: the tables of a World.
  - `schema`, `limits`, `codec`: schemas of structured payloads, what bounds
    them, and their encoding.
  - `world` and the modules below it: the World itself. `world/laws.rs`,
    `world/endings.rs`, `world/closing.rs`, `world/upkeep.rs`,
    `world/refusals.rs`, `world/agreement.rs`, `world/bystanders.rs` and
    `world/sightings.rs` state what holds across operations. `world/tidy.rs`
    says how the tables of a World agree with one another, and
    `world/keeping.rs`, `world/joining.rs` and `world/turning.rs` prove that
    each change keeps them so.
- `tests/` runs the library on concrete values.
- `app/` puts a World behind a lock, so that threads can share it: handles
  that can be cloned, leases that give themselves back when they are dropped,
  and wakers for observers.

A World is changed only through `&mut`. Each public operation reads the clock
where it starts and hands the reading on to a function whose name ends in
`_at`, which depends on its arguments alone.
