# rabitq

Nearest-neighbor search over vectors quantized to one bit per dimension, verified with
Verus.

A vector is stored as the signs of its components, together with a few factors. The
library packs the codes of 32 vectors into a block, scans a block with the lookup tables
of a query, and walks over a graph of neighbors with a beam search. It carries
single-precision numbers as bit patterns and never does arithmetic on them: how a scan
result becomes a distance is a function that the caller hands to an oracle.

* `src/` is the library. Every function states its contract in `requires` and `ensures`.
  What relates several functions is stated by the public proof functions whose names
  begin with `law_`.
* `tests/` runs the library on concrete values.
* `app/` is a program that measures the scan of blocks. Beside what the program itself
  needs, it holds the floating-point arithmetic, searches for a query given as numbers, and
  the reading and writing of files.
