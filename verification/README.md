# lppl_new

Detects bubbles in price series with the log-periodic power law singularity
(LPPLS) model and backtests strategies that trade on what it finds.

A run takes the prices of a group of universes, fits the model over nested
windows of every ticker, turns the fits into a confidence and a normalized
residual for each date, backtests strategies on those, and reports and scores
the results.

- `src/` is the library, verified with Verus. Numbers are held by the bits of
  their binary64 form (`double`): the library compares, selects and clamps them
  and decides what follows, and every such rule is stated in a contract. The
  laws of each module are its public proof functions, named `law_...`.
- `app/` is the program around it: files, servers, tasks, the optimizer, and
  the arithmetic that rounds.
- `tests/` runs the library, with the arithmetic of the program written out
  where a test needs it.

The program takes a group of universes (`SC`, `MC`, `MC1`, `LC`, `Micro`,
`Stocks` or `Crypto`), the folder of the run (`testing` or `production`) and the
directory of its files.
