# GeointPlayback

Ground subsidence from stacks of Sentinel-1 radar acquisitions, as a verified library with a
thin component around it.

- `src/` is the library. Verus proves every function of it against its contract, but for one:
  `millis_of_secs` in `http_api`, which turns seconds into milliseconds with the duration type of
  the runtime and is trusted to do so.
  - `text`, `datetime`, `calendar`: texts, date ranges for the scene catalogue, acquisition dates
  - `scenes`: which acquisitions are used, in which order and in which pairs
  - `grid`: the cells of an area and their neighbourhoods
  - `numerics`, `formula`: arithmetic on measured values, and formulas over it
  - `signal`: phases, angles and coherence of a cell
  - `atmosphere`, `series`, `insar`: correction, integration and the whole processing
  - `uniqueness`, `shape`, `exactness`: laws of the processing under what arithmetic may give: one
    result for each operation, no loss of order, no rounding
  - `http_api`, `worker`, `sites`: routes, replies, the steps of an exchange, validation sites
- `app/` is that component: `http_api` serves the user interface, searches the catalogue and
  forwards processing requests over the broker; `task_insar` answers them. Numbers are doubles
  there.
- `tests/` runs the library on concrete values.

The processing is generic over `numerics::Numerics`. Its contracts say which operations are applied
to which values, so they hold for doubles with all their rounding.
