# banana_monkey

The logic of a banana-harvesting idle game, written in Verus and proved
against its contracts.

- `src/domain.rs` — the counted economy: workers, support staff, carts and
  their crews, the legs of a harvester's round trip, and the saved balance
  and research total as the bits of the doubles a save holds.
- `src/map.rs` — the village map read from text, and the A* search for a
  cheapest grid walk between two tiles; `src/cheapest.rs` holds the cost
  model and the bookkeeping behind the proof that the walk is a cheapest one,
  and `src/expansion.rs` the search as a run of expansions, which fixes which
  cheapest walk it is.
- `src/route.rs` — the walk pulled taut into the corners a monkey walks,
  every leg a straight line over open ground.
- `src/scenery.rs` — which jungle tiles are drawn and planted;
  `src/ground.rs` — the ground tiles laid under them, dirt where monkeys
  tread, decided at the tiles' shared corners.
- `src/persistence.rs` — what a save payload, once serde has read it, has to
  say before a run may start from it, and the decisions a load and an import
  make.
- `src/shop.rs`, `src/controls.rs`, `src/launch.rs` — the shop's tabs and
  rows and how each row is drawn, what a frame of menu and harvest input decides, and the launch
  options read from a command line or a page URL.
- `src/text.rs` — the standard library's text operations the rest uses, each
  with what its documentation says of it.

`app/` is the program around the library: the save slot on disk or in the
browser, JSON text read and written by serde's derived rules, the economy's rates and prices (all `f64`), route
geometry in metres (and with it which ground lies near the worked route),
and a small command line.
