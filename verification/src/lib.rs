//! A verified core for a document search pipeline: deterministic text
//! chunking, per-document table management with a fixed row schema,
//! ingestion of embedded chunks, and decoding of nearest-neighbor results.

mod chunker;
mod errors;
mod prompts;
mod store;
mod table_id;

pub use chunker::chunk_texts;
pub use chunker::create_text_chunks;
pub use chunker::joined;
pub use chunker::lemma_chunk_coverage;
pub use chunker::lemma_chunk_overlap;
pub use chunker::lemma_chunk_reconstruction;
pub use chunker::lemma_single_chunk;
pub use chunker::lemma_windows_from_structure;
pub use chunker::parts_concat;
pub use chunker::tokens_of;
pub use chunker::window_part;
pub use chunker::views_of;
pub use chunker::windows;
pub use chunker::windows_from;
pub use errors::DbError;
pub use prompts::passage_prompt;
pub use prompts::query_prompt;
pub use store::exact_match_from;
pub use store::ingested_from;
pub use store::ingested_rows;
pub use store::lemma_partial_failure;
pub use store::lemma_round_trip;
pub use store::lemma_schema_invariance;
pub use store::selected_index;
pub use store::Catalog;
pub use store::DocumentTable;
pub use store::EmbeddingOutcome;
pub use store::Row;
pub use store::RowModel;
pub use store::TopMatchResult;
pub use store::CHUNK_SIZE;
pub use store::OVERLAP;
pub use store::VECTOR_DIM;
pub use table_id::derive_table_id;
pub use table_id::hex_of;
pub use table_id::lemma_table_id_deterministic;
pub use table_id::sha256_of;
pub use table_id::table_id_of;
