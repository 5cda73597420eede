# vsaclip

Visual recognition through Hamming resonance: float embeddings are
projected to 8192-bit containers, and recognition is a sweep of XOR and
POPCNT with a three-stage early exit, exposure scoring, resonance
cascades and clustering by exposure.

For N containers a full sweep costs N x 128 POPCNT instructions; the HDR
sweep costs N + 7 x (stage-1 survivors) + 120 x (stage-2 survivors), about
N x 2 on random data, roughly 63 times fewer instructions.  Its metering
stages use the match threshold scaled to the stage width with a safety
margin, so a container whose differing bits crowd into the first words
can be dropped although it is a match; `cutoff_sweep` meters against the
threshold itself and finds exactly the matches of a full sweep.

The library under `src/` is written in Verus; every function carries a
contract that Verus proves.

- `bits`, `le_bytes`, `rng`: bit counting, little-endian words, SplitMix64.
- `container`, `wide_container`, `cogrecord8k`: 8192- and 16384-bit
  containers and the four-slot 8 KB record.
- `hdr`, `staged`, `sweep`, `wide_sweep`, `container_ext`: exposure bands
  and the early-exit sweep, with its laws (no false positives, the stage
  survivor and instruction counts, at most the work of a full sweep, and
  no false negatives for the cutoff sweep or for permissive stages).
- `cascade`, `exposure`, `evaluate`, `separation`: resonance cascades,
  exposure clustering, purity against labels, distance sampling.
- `ingest`, `thirds`: the container file format, hyperplane sign
  generation and the bit layouts that combine hyperplane signs.
- `hybrid_recognition`, `simd_bridge`, `storage`, `blackboard_sweep`:
  byte-level views of records, edge encoding and the batch record sweep.

`app/` holds the command-line program around the library: downloads,
file I/O, CLIP embedding, the float projections and the experiments.

## Not included

These parts rest on crates that are not available here or on
floating-point logic, and are left out:

- organic concept learning (the concept learner and its experiments) and
  the weighted bundle, built on an outside write-ahead-log crate;
- hybrid recognition with float similarities and the float methods of the
  Jina embedding (its integer encodings and distances are included);
- the Lance dataset reader and writer, the head-to-head and recognition
  experiment programs, and the legacy-format upgrade check of the
  record experiment.
