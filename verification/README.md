# pir_bench

The linear-scan floor that a PIR query time is divided by, as a verified
library, with the benchmark binary around it.

- `src/scan.rs`: the scan (a wrapping sum of little-endian `u64` words), how a
  parallel scan splits the buffer and folds the pieces, and the proofs that
  the scan sees every byte of every whole word and that the parallel scan
  agrees with the serial one.
- `src/buffer.rs`: the LCG-filled buffer the scan runs over.
- `src/stats.rs`: best, median and worst of a set of repeats, with the proofs
  that the result does not depend on their order and brackets every repeat.
- `src/sweep.rs`, `src/report.rs`: the sizes swept, the number of passes that
  keeps every sample at or above the minimum length, and which sizes the knee
  compares.
- `src/json.rs`: the CPU name made safe to stand inside a JSON string, with the
  proofs that the result is a valid JSON string body and reads back as the
  name with double quotes turned into single ones.
- `src/host.rs`, `src/text.rs`: the CPU model and last-level cache size read
  out of `/proc/cpuinfo`, sysfs, `reg query` and CIM output.
- `app/`: the binary: reading the host, threads, timing, and the report, which
  computes in floating point.
