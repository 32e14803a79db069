# bench_cases

Benchmark kernels with machine-checked contracts, written in Verus.

`src/` is the verified library, one module per kernel:

- `prime_sieve` – odd-only bitset sieve; with the integer square root as crossing
  limit it reports the number of primes up to `n` and the largest one.
- `word_count` – splits a text at ASCII whitespace and counts distinct words in a
  `hashbrown` table; other chunks count as special characters.
- `hashmap` – fills a `hashbrown` map from a generator and runs lookups and inserts.
- `sort`, `sort_dyn` – sort a generated array, ascending or by a chosen comparator.
- `argon2_hash` – Argon2id over a generated password and salt.
- `compression` – raw deflate with `miniz_oxide`.
- `json_parse` – parses the input with `serde_json` into a tree and counts its nodes.
- `mandelbrot`, `matrix_mul`, `spectralnorm` – the integer parts of floating-point
  kernels: image buffer and checksum, transposition, matrix denominators.
- `lcg` – the generators that seed the inputs.

`app/` holds the `extern "C"` entry points a benchmark host calls, and the parts
that run on floating point. `tests/` exercises the library.
