# mkbsc

Games of imperfect information on finite graphs, the multi-agent
knowledge-based subset construction (MKBSC) that expands them, and the
synthesis of strategies on the expansions, written in Verus.

The library (`src/`) is verified:

- `parser`, `io_game`: the text format of games, read into a description
  whose names are checked (`IOGame::new` states exactly when a description is
  a game and which error it gives otherwise).
- `construct`, `project`, `kbsc`, `mkbsc`: explicit games built by
  breadth-first exploration of abstract games (the projection onto an agent,
  the knowledge-based subset construction, its multi-agent form), with the
  origin of every location.
- `isomorphism`: a VF2-style search for an isomorphism of games; a positive
  answer is checked to be one.
- `outcomes`, `synthesis`, `stack`: the outcome analysis of single-agent
  games, the depth-first search for strategy profiles on an expansion (every
  profile it reports is proved to win the expansion), and the stack of
  successive expansions, with the loops that expand a game until the
  expansions settle or a limit is reached, and, for synthesis, until a
  strategy for the game is found.
- `transfer`: the correctness of synthesis on expansions: a profile that
  wins an expansion, played on the game below with each agent tracking its
  knowledge, wins that game, and lowering transducers level by level keeps
  them winning, down to the base game (`lemma_base_chain_wins`), for games
  in which whether a joint action leads anywhere depends only on what the
  agents observe.
- `text`, `tex`: a game as text in the format it is read in, and as a TikZ
  figure.
- `memoryless`: when a memoryless choice of joint actions wins a game.
- `game`, `game_queries`, `loc_set`, `obs_subset`: explicit games and the
  queries the constructions and the printing rely on (transitions grouped
  by source and target, observations shared by two locations), sets of
  locations and subsets of an observation.
- `strategy`: finite-memory strategies (transducers) and `verify_strategy`,
  proved to accept exactly the profiles that win; the transducers made from
  a profile the search found are proved to win the expansion.

`app/` is the command-line program: reading files, naming locations, and
printing games and the progress of the expansion and of the synthesis.

Outside crates used by the library, each behind a small trusted wrapper:
`fixedbitset` (location sets), `disjoint-sets` (observation classes while
reading a game), `vec_map` and `bit-set` (the isomorphism search and the
strategy search). The program also uses `clap` and `anyhow`.
