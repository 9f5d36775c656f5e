# cartoboost_core

The integer, text and ordering logic of the CartoBoost forecasting and spatial
feature toolkit, written in Verus with its contracts proved.

- `src/` is the verified library. Each public function states in `ensures` what
  it returns for every input, and each error it can give. Modules:
  - `geo`: H3/S2 cell-ID parsing, grid levels, synthetic parent scaffolding and
    sparse-row assembly.
  - `splitters`: rolling-origin cross-validation over distinct timestamps.
  - `schema`: forecast-frame column roles, row checks, ordering of rows by
    series and time with duplicate and regular-step detection, and the rows of
    each series.
  - `stl`, `mstl`, `temporal_hierarchy`: decomposition settings and window
    arithmetic, temporal aggregation levels and the blocks each level sums.
  - `objective`, `objectives`, `loss`: objective names, tasks and ranking groups.
  - `local`: deterministic hashing and seeding, ARIMA order validation and
    pruning, the automatic ARIMA candidate grid, seasonal source positions.
  - `piecewise`: validation of the piecewise-linear seasonal configuration.
  - `piecewise_layout`: the design's columns: event terms and names, feature
    counts, regressor columns and their sign constraints.
  - `piecewise_inputs`: where a named input (regressor, condition, cap, floor)
    is read from while fitting and while predicting.
  - `sequence`, `oof`: sequence-series structure, out-of-fold meta-training rows,
    prediction tables, weight checks, the alignment of candidates with
    validation actuals and with each other, and per-group error rows.
  - `rank_portfolio`: rank buckets, hit and confusion counts, long-short picks.
  - `metrics`: pairing forecasts with actuals.
  - `result`, `stable`, `order`, `lex`, `text`, `error`: ordering of forecast
    results, stable sorting, sorted sets, text order and helpers, the error type.
  - `registry`: the model registry, building models through their factories,
    and model-parameter reading.
  - `serialize`: the weights envelope and the checks made when reading it back.
- `app/` is ordinary Rust around the library: floating-point computations,
  `chrono` timestamps, `serde` derives, file I/O, and `rayon` threading. It
  hands the library plain values, such as whether a float lies in its range.
- `tests/` exercises the library on concrete inputs.
