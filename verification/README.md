# website_monitor

A website status monitor whose decisions are verified with Verus, together
with a few small verified text and arithmetic routines.

- `src/monitor.rs`: configuration, work items, the worker protocol (check,
  retry once after a pause, report), collection of results, turning request
  outcomes into statuses, and the columns and totals of the report.
- `src/text.rs`: white space, trimming, line and word splitting, decimal
  numbers and `u16` parsing, all stated over `Seq<char>`.
- `src/books.rs`: a three-lines-per-book text format, with a proof that
  reading back what was written gives the same books.
- `src/pricing.rs`: choosing a price from market chart data.
- `src/exercises.rs`: parity, a guessing game, string building, range sums
  and the most frequent word of a text.
- `app/`: the program around the library: threads, HTTP requests, the clock,
  files, JSON and the terminal.
