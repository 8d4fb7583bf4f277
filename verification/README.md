# tick_tock_tau

Bytes of the binary expansion of tau (2 pi) from any position on, computed with
Bellard's formula over outward-rounded interval arithmetic, so that a byte is only
reported once every value the calculation could stand for agrees on it. The library is
written in Verus and its contracts are proved: a byte that the calculation returns is
the byte of every partial sum of the series from some number of terms on (the
alternating tail bound), so two calculations never disagree on a byte. That the
series sums to tau is Bellard's theorem, taken as known.

- `src/numbers.rs`: natural numbers and integers of any size, held as plain limbs;
  the arithmetic is done by `malachite`.
- `src/rational.rs`: exact rationals for the specifications and their order lemmas.
- `src/float.rs`: `malachite_float` numbers as plain values, and the rounded
  operations on them.
- `src/model/intervals.rs`: intervals whose every operation encloses the exact result.
- `src/model/series.rs`: the terms of the series, their partial sums, and what makes a
  byte certain.
- `src/model/tail.rs`: the tail bound of the alternating series, and why certain
  bytes settle.
- `src/model/batch.rs` and `src/model.rs`: the calculation of a run of bytes.
- `src/cli.rs`, `src/cli/config.rs`: the options, the plan of the batches of a run,
  and durations as text.
- `src/text.rs`: numbers in decimal.
- `app/main.rs`: the command-line program: files, threads, the progress line.
