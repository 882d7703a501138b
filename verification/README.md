# vecdb-core

A small vector database core, verified with Verus.

`src/` is the verified library:

- `wal` — framing of write-ahead-log records (`[len][payload][crc32]`) and
  replay, with proofs that replay gives back every record written, in order,
  that a torn or corrupted tail never costs an earlier record, and that a
  record with any one byte of its payload or checksum changed is rejected.
- `crc` — the CRC-32 (IEEE) checksum as a specification, computed by
  `crc32fast`, with a proof that it catches every single-byte change.
- `storage` — flat vector storage in a memory map (`memmap2`): header, layout,
  append and read-back.
- `flat_index` — exhaustive top-k search over scores.
- `hnsw` — the HNSW graph: insertion with bidirectional links, layer search,
  filtered search over JSON payloads, tombstone deletion.  Keys are
  distances (smaller is closer).  A new node's top layer is drawn
  geometrically (each further layer with probability 1/2, up to 16), and
  `insert` returns the drawn words as a ghost value its contract speaks of.  Layer searches only return nodes reached
  from their start by links on the layer, and inserting under a new id or
  deleting keeps the links a layered graph in which every link is matched
  by one back.
- `score` — order keys: `u32` stand-ins for `f32` scores that sort the same way.
- `quantize` — integer sums behind the cosine of 8-bit quantized vectors.

Floating-point arithmetic (distances, quantization, k-means), file and network
I/O and the HTTP server live in `app/`, which hands the library plain values:
vectors as `f32` bit patterns and scores as order keys.
