# rust_bomberman

A bomberman game engine with a set of bots, written in Verus.

- `src/` is the verified library: coordinates, the grid and its factory, the map
  with its bombs, explosions and shrinking endgame, the commands, the game loop, game
  results and replays, and the bots (their board reading, path searches, scripts and
  rules). Every function carries a contract that Verus checks.
- `tests/` exercises the library on concrete boards.
- `app/` is the web server around the library: an HTTP endpoint that runs a
  tournament between the bots, and the bots whose moves are weighed with
  floating-point scores (heat maps, a small neural network, weighted sums), which
  call into the library for everything else.
