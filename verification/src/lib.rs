//! Core of a vector database: exhaustive and HNSW graph indexes over
//! vectors whose distances are supplied as order keys, a memory-mapped flat
//! vector store, and the framing of write-ahead-log records.
pub mod crc;
pub mod flat_index;
pub mod hnsw;
pub mod quantize;
pub mod score;
pub mod storage;
pub mod wal;
