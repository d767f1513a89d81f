//! Tests of the catalog, the ingestion pipeline, and retrieval, with a
//! deterministic stand-in for the embedding service.

use docsearch::create_text_chunks;
use docsearch::Catalog;
use docsearch::DbError;
use docsearch::DocumentTable;
use docsearch::EmbeddingOutcome;
use docsearch::Row;
use docsearch::CHUNK_SIZE;
use docsearch::OVERLAP;
use docsearch::VECTOR_DIM;

/// A deterministic stand-in for the embedding service: a vector that is a
/// pure function of the text.
fn stub_vector(text: &str) -> Vec<u32> {
    let mut h: u32 = 5381;
    for b in text.bytes() {
        h = h.wrapping_mul(33) ^ (b as u32);
    }
    (0..VECTOR_DIM as u32).map(|i| h.wrapping_add(i)).collect()
}

fn long_text(n: usize) -> String {
    let mut ws = Vec::new();
    for i in 1..=n {
        ws.push(format!("w{}", i));
    }
    ws.join(" ")
}

#[test]
fn create_then_duplicate_fails() {
    let mut catalog = Catalog::new();
    assert!(catalog.create_table_for_document("book").is_ok());
    assert_eq!(
        catalog.create_table_for_document("book"),
        Err(DbError::TableAlreadyExists)
    );
}

#[test]
fn embed_page_without_table_fails() {
    let mut catalog = Catalog::new();
    let outcomes = vec![EmbeddingOutcome::Embedded(stub_vector("hello"))];
    assert_eq!(
        catalog.embed_page("missing", "hello", 1, &outcomes),
        Err(DbError::TableNotFound)
    );
}

#[test]
fn top_match_without_table_fails() {
    let catalog = Catalog::new();
    let q = EmbeddingOutcome::Embedded(stub_vector("query"));
    assert_eq!(
        catalog.get_top_match("missing", &q),
        Err(DbError::TableNotFound)
    );
}

#[test]
fn empty_table_retrieval_reports_empty_result_set() {
    let mut catalog = Catalog::new();
    catalog.create_table_for_document("book").unwrap();
    let q = EmbeddingOutcome::Embedded(stub_vector("query"));
    assert_eq!(
        catalog.get_top_match("book", &q),
        Err(DbError::EmptyResultSet)
    );
}

#[test]
fn failed_query_embedding_aborts_retrieval() {
    let mut catalog = Catalog::new();
    catalog.create_table_for_document("book").unwrap();
    assert_eq!(
        catalog.get_top_match("book", &EmbeddingOutcome::Failed),
        Err(DbError::EmbeddingRequestFailed)
    );
}

#[test]
fn round_trip_returns_chunk_and_page() {
    let mut catalog = Catalog::new();
    catalog.create_table_for_document("book").unwrap();
    let text = long_text(220);
    let chunks = create_text_chunks(&text, CHUNK_SIZE, OVERLAP);
    assert_eq!(chunks.len(), 2);
    let outcomes: Vec<EmbeddingOutcome> = chunks
        .iter()
        .map(|c| EmbeddingOutcome::Embedded(stub_vector(c)))
        .collect();
    catalog.embed_page("book", &text, 7, &outcomes).unwrap();
    assert_eq!(catalog.table_row_count("book"), Ok(2));

    let q = EmbeddingOutcome::Embedded(stub_vector(&chunks[1]));
    let top = catalog.get_top_match("book", &q).unwrap();
    assert_eq!(top.text, chunks[1]);
    assert_eq!(top.page_number, 7);
}

#[test]
fn partial_failure_keeps_successful_chunks_only() {
    let mut catalog = Catalog::new();
    catalog.create_table_for_document("book").unwrap();
    let text = long_text(220);
    let chunks = create_text_chunks(&text, CHUNK_SIZE, OVERLAP);
    assert_eq!(chunks.len(), 2);
    let outcomes = vec![
        EmbeddingOutcome::Embedded(stub_vector(&chunks[0])),
        EmbeddingOutcome::Failed,
    ];
    // The call still succeeds although one chunk was dropped.
    assert_eq!(catalog.embed_page("book", &text, 3, &outcomes), Ok(()));
    assert_eq!(catalog.table_row_count("book"), Ok(1));
    let q = EmbeddingOutcome::Embedded(stub_vector(&chunks[0]));
    let top = catalog.get_top_match("book", &q).unwrap();
    assert_eq!(top.text, chunks[0]);
    assert_eq!(top.page_number, 3);
}

#[test]
fn all_embeddings_failed_still_succeeds_with_no_rows() {
    let mut catalog = Catalog::new();
    catalog.create_table_for_document("book").unwrap();
    let outcomes = vec![EmbeddingOutcome::Failed];
    assert_eq!(catalog.embed_page("book", "some page", 1, &outcomes), Ok(()));
    assert_eq!(catalog.table_row_count("book"), Ok(0));
}

#[test]
fn wrong_dimension_vector_is_rejected() {
    // Row construction and insertion with any length other than VECTOR_DIM
    // must fail.
    assert!(matches!(
        Row::new(1, "text".to_string(), vec![0u32; VECTOR_DIM - 1]),
        Err(DbError::SchemaMismatch)
    ));
    assert!(matches!(
        Row::new(1, "text".to_string(), vec![0u32; VECTOR_DIM + 1]),
        Err(DbError::SchemaMismatch)
    ));
    let mut table = DocumentTable::new();
    let short = Row {
        id: 1,
        text: "text".to_string(),
        vector: vec![0u32; 3],
    };
    assert_eq!(table.insert_row(short), Err(DbError::SchemaMismatch));
    assert_eq!(table.row_count(), 0);
}

#[test]
fn wrong_dimension_outcome_is_dropped_silently() {
    let mut catalog = Catalog::new();
    catalog.create_table_for_document("book").unwrap();
    let outcomes = vec![EmbeddingOutcome::Embedded(vec![1u32; 10])];
    assert_eq!(catalog.embed_page("book", "short page", 5, &outcomes), Ok(()));
    assert_eq!(catalog.table_row_count("book"), Ok(0));
}

#[test]
fn rows_append_across_pages() {
    let mut catalog = Catalog::new();
    catalog.create_table_for_document("book").unwrap();
    let first_page = "first page text";
    let second_page = "second page text";
    let first_outcomes = vec![EmbeddingOutcome::Embedded(stub_vector(first_page))];
    let second_outcomes = vec![EmbeddingOutcome::Embedded(stub_vector(second_page))];
    catalog.embed_page("book", first_page, 1, &first_outcomes).unwrap();
    assert_eq!(catalog.table_row_count("book"), Ok(1));
    catalog.embed_page("book", second_page, 2, &second_outcomes).unwrap();
    assert_eq!(catalog.table_row_count("book"), Ok(2));

    let q = EmbeddingOutcome::Embedded(stub_vector(second_page));
    let top = catalog.get_top_match("book", &q).unwrap();
    assert_eq!(top.text, second_page);
    assert_eq!(top.page_number, 2);
}

#[test]
fn tables_are_independent() {
    let mut catalog = Catalog::new();
    catalog.create_table_for_document("first").unwrap();
    catalog.create_table_for_document("second").unwrap();
    let o = vec![EmbeddingOutcome::Embedded(stub_vector("page"))];
    catalog.embed_page("first", "page", 1, &o).unwrap();
    assert_eq!(catalog.table_row_count("first"), Ok(1));
    assert_eq!(catalog.table_row_count("second"), Ok(0));
}

#[test]
fn prompt_markers_distinguish_passages_from_queries() {
    assert_eq!(
        docsearch::passage_prompt("the chunk text"),
        "passage: the chunk text"
    );
    assert_eq!(docsearch::query_prompt("who wrote it"), "query: who wrote it");
    assert_ne!(
        docsearch::passage_prompt("same text"),
        docsearch::query_prompt("same text")
    );
}

#[test]
fn error_messages_are_descriptive() {
    assert_eq!(
        DbError::ConnectionUnavailable.message(),
        "database not connected"
    );
    assert_eq!(DbError::TableNotFound.message(), "table not found");
    assert_eq!(DbError::TableAlreadyExists.message(), "table already exists");
    assert_eq!(
        DbError::EmbeddingRequestFailed.message(),
        "embedding request failed"
    );
    assert_eq!(DbError::EmptyResultSet.message(), "empty result set");
    assert_eq!(DbError::SchemaMismatch.message(), "schema mismatch");
}
