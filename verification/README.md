# slavia_core

The rules core of *Chronicles of Slavia*, verified with Verus, and the Bevy
program that plays Zone A over it.

- `src/` — the verified library.
  - `animal`, `character`, `world`, `spec`, `error`: the emotional grammar
    (Anya stirs, Donna settles, the animal's nature decides, Donna steadies
    what Anya crosses, the Rift interrupts the answer) and the Zone A spec.
  - `session`: the five understanding-beats and the location-gated actions
    of a play session.
  - `menu`: the start menu's labels, gating and accessibility toggles.
  - `esm`: the epistemic state machine — a small relational solver
    (`kanren`), per-mind beliefs over a shared baseline (`belief`), reading
    the player's intent from what a mind believes (`intent`), and seeded
    forgetting of errands (`decay`).
    Goals in `kanren` are data — a closed set of forms (`eq`, `succeed`,
    `fail`, `fresh`, `conj`, `disj` and what is built from them) — not
    closures over a state, so a caller cannot write a goal of its own kind.
    The closure handed to `fresh` runs when the goal is built (twice, to
    number its binder), so a relation that recurses through `fresh` without
    end never finishes building. The variable numbers just below `usize::MAX`
    name `fresh`'s binders; a closure may not make up such a variable itself.
  - `text`: string comparison and decimal rendering used by the above.
- `tests/` — the test suite, run against the compiled library.
- `app/` — the game program: window, input, drawing, the girls' continuous
  positions, save files and the TOML spec reader.
