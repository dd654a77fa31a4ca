# tile_traffic

Generates realistic web map tile traffic against a ZXY or WMS tile server and
summarises what came back: response times, content lengths, status codes,
content types, zoom levels and the values of chosen response headers.

## Layout

- `src/` — the verified library (Verus):
  - `coordinates.rs`: tiles and the quadtree of tiles under a metatile, with
    proofs that the listing covers exactly the metatile's area, once each,
    level by level.
  - `strategies.rs`: a session over a metatile, which tile each request asks
    for, and filling ZXY / WMS URL templates.
  - `tally.rs`: counting tables kept in ascending key order.
  - `statistics.rs`: how each event changes the statistics, and the YAML
    summary.
  - `tui.rs`: the lines the terminal view shows (ranked tables, recent URLs,
    histograms drawn by `cli-hist`).
  - `request_handler.rs`: the text recorded for tracked response headers.
  - `text.rs`: decimal numbers, quoting, substitution.
- `app/` — the program: command line, HTTP requests, the async actors, the
  terminal drawing and the floating-point geometry and means.
- `tests/` — tests of the library.

## Templates

ZXY templates use `{z}`, `{x}` and `{y}`; WMS templates use `{bbox}` and
`{srs}`, and the server must handle SRS `EPSG:3857`.
