# lux

The rules of a small mirror puzzle: a beam of light leaves a source cell of an
8 by 8 grid, is turned by mirrors (`/`, `\`, `-`, `|`) and should reach a target
cell; the player rotates the mirrors that are not fixed.

- `src/` is the verified library: directions and grid cells (`types`), mirrors,
  their rotation, reflection and response to clicks (`mirror`), beam tracing
  (`beam`), the grid size (`grid`) and level data (`level`). Each public function
  carries a contract that Verus proves; the laws of the game are public proof
  functions beside them.
- `app/` is the game around it, built on Bevy: windows, rendering, input, menus,
  loading levels from JSON, and everything that computes in floating point
  (world coordinates, angles, colours).
- `tests/` runs the library on concrete levels.
