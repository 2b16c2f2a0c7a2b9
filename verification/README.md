# mcts

Monte-Carlo tree search for tiling games, with what surrounds it: batched inference through a
shared arena, self-play, evaluation, and the encoding of boards for a network. The library is
written in Verus: its functions state what they return and change, and Verus proves it. What is
taken on trust are a few facts about outside crates, and that the environments, numbers, clients
and sources of chance that a program brings along do what their traits ask of them.

## Layout

`src/` is the library.

- The search: `environment`, `node`, `tree`, `mcts`, `search`, `flight`, `trace`, `run`, `history`,
  `rounds`, `advance`, `policy`, `inference`, `inspect`.
- Other engines: `shared_node`, `shared_mcts` (one table for many threads), `par_node`,
  `par_graph`, `par_mcts` (simulations over a graph), `runner` (search workers, inference and a
  coordinator).
- The arena and its clients: `ring`, `slot`, `tilers_slot`, `arena`, `comms`, `client`,
  `serving`.
- Boards for the network: `matrix`, `unpack`, `boards`, `observation`, `tilers_obs`.
- Self-play: `gatherer`, `moves`, `reward`, `grading`, `climb`, `episode`, `playthrough`,
  `session`, `generation`, `records`, `writing`; on token observations `selfplay`, `token_play`,
  `scoring`, `heuristic`.
- Evaluation: `evaluator`, `assessment`.
- Numbers: `scalar`. The library computes with any type of numbers that knows the operations of
  `Scalar`; contracts name the operations and their order, so that they hold of machine floats
  too.
- Outside crates, each behind a few stated facts: `fxtable` (rustc-hash), `dashtable` (dashmap),
  `chance` (rand), `json_text` (serde_json).

Properties that relate several functions are the public proof functions whose names begin with
`law_`.

`tests/` runs the library on machine floats. `app/` holds the programs around it: memory that
processes share, threads, files, the database, HTTP, the Python modules, and the tiling game of
the `tilers` crate.
