# spiral

The decision logic of a PostgreSQL time-series extension, with its behaviour
stated in `requires` / `ensures` contracts and proved by Verus.

The extension packs readings of many tenants into pages addressed by time,
keeps hierarchical rollup tiers (1m, 1h, 1d, ...) up to date from a changelog
of dirty ranges, and answers range queries from the coarsest clean tier.

## Layout

- `src/` — the verified library, one module per concern:
  - `zorder` — bit interleaving, Hilbert codes and Z-ranges of a box;
  - `storage`, `scan`, `mvcc` — page layout, the XOR-delta block codec,
    slot reads and writes, and per-transaction visibility of writes;
  - `catalog`, `epoch` — the tenant timeline, slot numbering, time
    conversions and the catalog statements;
  - `rollup`, `hierarchy`, `setup`, `hooks`, `refresh`, `worker`,
    `backfill`, `changelog`, `validate` — frames, tier definitions,
    registration, incremental refresh and the background worker's decisions;
  - `planner`, `acceleration`, `constraints` — slicing a time range over the
    tiers, the time and scope constraints a query's predicates, OR branches
    and equi-joins guarantee, and rewriting a query into a union of the
    slices;
  - `server`, `display` — the inspection server's and dashboard's pure helpers;
  - `text` — character-level string building and parsing used throughout.
- `tests/` — tests of the library on concrete values.
- `app/` — the inspection HTTP server (axum, sqlx) and the floating-point
  statistics states, which stay outside verification.
