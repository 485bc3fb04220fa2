# ais_parquet_optimizer

Tools that lay out a year of AIS vessel position reports as Parquet files
built for fast filtering, benchmark the layouts, and build one record per
ship identity. The decisions those tools make are a library verified with
Verus; the program around it reads and writes files.

## Layout

- `src/` — the verified library.
  - `hilbert`, `cells`, `intervals`: the 2-D Hilbert index (31 bits per axis),
    the cover of a query box by Hilbert index intervals, and the merging of
    intervals; row groups are pruned by those intervals.
  - `calendar`, `timestamps`, `decimal`, `text`: dates and day numbers,
    reading `BaseDateTime` texts and query hour bounds, decimal text in and
    out, and byte/character helpers.
  - `partition`, `layout`: day partitions (keys, directory labels, the SQL
    that reads a day, runs of equal keys, time pruning), the columns each
    output keeps, writer switching, and Hilbert staging files.
  - `config`: Bloom filter NDV overrides, Parquet writer settings, the smart
    row-group size and the number of jobs.
  - `ingest`: which CSV lines are records, when buffered records are written,
    and the typed reading of CSV fields.
  - `query`, `pruning`, `matching`, `bloom`, `bench`, `durations`: benchmark
    queries (the table of 31 queries, whose float range bounds `app/` adds),
    pruning by statistics and by Bloom filters, row matching, query
    tallies, run bookkeeping, and run-time summaries.
  - `ships`: grouping position reports into ship identities and laying them
    out by the leading MMSI digit.
- `app/` — the command-line program (`main.rs`: the optimizer; `benchmark`
  and `ships` as subcommands): CSV, Parquet and DataFusion I/O, float
  scaling of coordinates, and argument handling.
- `tests/` — tests of the library.

## Behaviour worth knowing

- `--max-rows` limits the CSV records taken in, written or still buffered,
  so no more than that many rows reach the source file.
- The source Parquet file holds the records in the order of the CSV files
  (sorted by name, one file per day) and of their lines; no global sort by
  `BaseDateTime` is made.
- Bloom filters are written for `MMSI` and `IMO` by default; string columns
  such as `CallSign`, `VesselName` and `VesselType` get one when named with
  `--bloom-column`.
- Mean run times are exact means in nanoseconds, rounded down.
- A Bloom filter whose bitset is shorter than one block cannot be probed; the
  benchmark stops on such a file.
