# tekfor

The rules of a small grid game, verified with Verus.

- `src/game_state.rs`: the grid (a list of entities per cell) and the game
  state, whose entities live in a `hecs` world that only the state's own
  operations reach. Spawning lists an entity in
  the cell of its position; moving clamps the target into the grid, refuses
  cells that hold a solid entity, and keeps the grid and the positions in
  agreement (`StateModel::wf`).
- `src/ecs.rs`: the `hecs` calls the rules make, each with the contract it is
  trusted to meet.
- `src/utils.rs`: one step in a direction on the grid.
- `src/lock_picking/basic.rs`: the basic lock. It generates every well-formed
  parenthesis sequence of `n` pairs in dictionary order (there are Catalan
  many), breaks some by swapping two characters, and checks a script's
  verdict on each against `is_valid`. What each random draw decides is the
  exact contract of a function that takes the draw (`keeps_word`,
  `partner_accepted`, `first_other_position`); the draws are then applied by
  functions whose results they fix (`swap_positions`, `Basic::lock_from_draws`).
- `src/states/`: the menu, and the decisions of a gameplay turn (its phases,
  and which move a key asks for).
- `app/`: the program around the library: window, camera and drawing with
  `macroquad`, and Lua scripting with `mlua`.
