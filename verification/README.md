# lottery_predict

A verified library (Verus) for analysing a lottery draw history and
predicting tickets for the next draw.

- `src/ticket.rs` — calendar dates (validity through `chrono`) and draw records.
- `src/read.rs` — reading the draw sheet's cells: the ball list
  (`"a - b - c"`) and the draw date (`"Weekday, MM/DD/YY"`).
- `src/algos/` — prediction algorithms over a window of draws: spine,
  multiply, friends (pair tally in a `HashMap`) and quiet (per-ball
  statistics in an `indexmap::IndexMap`).
- `src/filters/` — candidate filters: bell curve and even/odd balance.
- `src/combine.rs` — candidate tickets through the `combinations` and
  `itertools` crates.
- `src/optimize.rs` — back-testing: binary search for a draw date, scoring
  of candidates, the per-window-size statistics and the choice of the best
  history depth (ratio reduced through `num`).
- `src/calculator.rs` — the calculator's best-window search.
- `src/predict.rs` — the tickets for the next draw and its date.
- `app/` — the command-line program: argument parsing (`clap`), reading
  `data.xlsx` (`calamine`, `serde`) and printing.

Every function in `src/` carries a contract proved by Verus; the calls into
outside crates go through a few small trusted wrappers whose contracts
restate those crates' documented behaviour.
