# raptor

The game rules behind RAPTOR's arcade modes, written in Verus: every
function in `src/` carries a contract, and the properties the modes promise
are stated and proved as proof functions.

## Layout

- `src/` — the verified library.
  - `lcg.rs` — the seeded generator every mode draws from, including an exact
    integer account of how a draw is scaled to an index.
  - `grid.rs` — headings and grid distances.
  - `snake.rs` — power-up scatter, eating, tail cap and exit state.
  - `scheduler.rs` — rival threads racing for the goal: greedy steps, start cells.
  - `stealth.rs` — room layout, guard patrols, the character's quantised steps.
  - `qbert.rs` — the cube pyramid: hops, enemy hops, lives and the win.
  - `state.rs` — session state and the directory history (commit, rewind,
    fast-forward).
  - `text.rs`, `status.rs` — header path truncation and status-line text.
  - `glyph.rs` — 8x8 bitmap glyphs from the `font8x8` crate.
- `tests/` — tests run against the compiled library.
- `app/` — the frame-clock side: timers, sight cones, the detection meter, the
  river surfer, and the other floating-point work that drives the library.

`src/` is checked with Verus; `app/` is ordinary Rust.
