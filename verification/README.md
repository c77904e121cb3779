# comiket-tsp

Plan an efficient walking route around a set of Comiket circles, modeled as a
travelling-salesman problem.

- `src/` — the verified library (Verus): canonical space ids, the island table and its
  serpentine numbering, the want-list join, the `crossings` column grammar, the integer
  cost matrix, the route search (nearest neighbour, 2-opt, Or-opt, iterated local
  search over parallel restarts), and the route as legs and itinerary rows.
- `app/` — the `comiket-tsp` command line: argument parsing, CSV/JSON files, placing
  spaces in metres, the real-valued perceived-distance model (its costs enter the
  library as fixed-point integers, one perceived metre = 1,000,000 units), the leg
  polylines, and printing.
- `tests/` — tests of the library on concrete inputs.

```bash
comiket-tsp gen-layout --blocks data/block_layouts.csv --out artifacts/spaces.json --event C107
comiket-tsp solve --spaces artifacts/spaces.json --want data/want_list.csv \
  --hall-distances data/hall_distances.csv --out route.csv --seed 42 --restarts 16
```

Design notes:

- The want-list join scans the layout for the last space with each wanted id, so a
  later duplicate shadows an earlier one, as an id-keyed map built in layout order
  would. The scan is stated and proved exactly; vstd's map specifications give no
  lookup result for `String` keys, so an id-keyed `HashMap` would leave the join
  unproved.
- Costs are fixed-point integers, so the search compares them exactly where a
  real-valued search would compare within a tolerance; near-tie moves and the last
  digits of reported totals can differ from a floating-point computation.
