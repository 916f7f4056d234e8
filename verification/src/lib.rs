//! Core of a bucketed external-memory de Bruijn graph unitig compactor.
//!
//! The library holds the verified logic of the pipeline: the record codecs
//! used by the on-disk buckets, minimizer-driven bucket assignment, the
//! hash-sorting phase that pairs adjacency entries into graph edges, the
//! iterative link-compaction phase that fuses unitig endpoints to a fixed
//! point, in-memory k-mer merging into maximal unitigs, and the models of
//! the work scheduler's packets and executors. File and network I/O, thread
//! pools and progress reporting live outside the library.

pub mod assemble;
pub mod bloom_filter;
pub mod build_unitigs;
pub mod colors;
pub mod executor;
pub mod extra_data;
pub mod fast_rand_bool;
pub mod fasta;
pub mod hash_entry;
pub mod hashes_sorting;
pub mod kmers_transform;
pub mod links_compaction;
pub mod packet;
pub mod pipeline;
pub mod querier;
pub mod sort;
pub mod unitig_link;
pub mod varint;
pub mod vec_slice;
