//! The storage model: per-document tables of append-only rows with a fixed
//! three-column schema, a catalog addressed by table identifier, and the
//! ingestion and retrieval pipelines over them.
//!
//! The vector column carries the bit patterns of the embedding's 32-bit
//! float components, so that every schema rule can be stated and checked
//! over plain values; the storage engine's own persistence and similarity
//! ranking stay outside this model.

use vstd::prelude::*;

use crate::chunker::chunk_texts;
use crate::chunker::create_text_chunks;
use crate::chunker::views_of;
use crate::errors::DbError;
use crate::table_id::derive_table_id;
use crate::table_id::table_id_of;

verus! {

/// The fixed embedding dimension: every stored vector has exactly this many
/// 32-bit components.
pub const VECTOR_DIM: usize = 1024;

/// The chunk size of the ingestion pipeline, in whitespace tokens.
pub const CHUNK_SIZE: usize = 200;

/// The overlap between consecutive chunks, in whitespace tokens.
pub const OVERLAP: usize = 20;

/// One stored row: the source page number, the chunk's literal text, and the
/// embedding vector, held as the bit patterns of its float components.
pub struct Row {
    pub id: i32,
    pub text: String,
    pub vector: Vec<u32>,
}

/// The mathematical model of a row.
#[verifier::ext_equal]
pub struct RowModel {
    pub id: int,
    pub text: Seq<char>,
    pub vector: Seq<u32>,
}

impl View for Row {
    type V = RowModel;

    open spec fn view(&self) -> RowModel {
        RowModel { id: self.id as int, text: self.text@, vector: self.vector@ }
    }
}

impl Row {
    /// A row is well formed exactly when its vector has the fixed dimension.
    pub open spec fn wf(self) -> bool {
        self.vector@.len() == VECTOR_DIM
    }

    /// Builds a row for one chunk. Fails with `SchemaMismatch` unless the
    /// vector has exactly `VECTOR_DIM` components.
    pub fn new(page_num: i32, text: String, vector: Vec<u32>) -> (r: Result<Row, DbError>)
        ensures
            r is Ok <==> vector@.len() == VECTOR_DIM,
            r matches Ok(row) ==> row@ == (RowModel {
                id: page_num as int,
                text: text@,
                vector: vector@,
            }) && row.wf(),
            r matches Err(e) ==> e == DbError::SchemaMismatch,
    {
        if vector.len() != VECTOR_DIM {
            return Err(DbError::SchemaMismatch);
        }
        Ok(Row { id: page_num, text, vector })
    }
}

/// One per-document table: an append-only list of rows sharing the fixed
/// schema. Rows are never updated or deleted.
pub struct DocumentTable {
    rows: Vec<Row>,
}

impl View for DocumentTable {
    type V = Seq<RowModel>;

    closed spec fn view(&self) -> Seq<RowModel> {
        Seq::new(self.rows@.len(), |k: int| self.rows@[k]@)
    }
}

impl DocumentTable {
    /// Schema invariance: every row of a well-formed table has a vector of
    /// exactly `VECTOR_DIM` components.
    pub open spec fn wf(self) -> bool {
        forall|k: int| 0 <= k < self@.len() ==> (#[trigger] self@[k]).vector.len() == VECTOR_DIM
    }

    /// A fresh table: schema defined, zero rows.
    pub fn new() -> (t: DocumentTable)
        ensures
            t@ == Seq::<RowModel>::empty(),
            t.wf(),
    {
        let t = DocumentTable { rows: Vec::new() };
        proof {
            assert(t@ =~= Seq::<RowModel>::empty());
        }
        t
    }

    /// Appends one row. The append fails with `SchemaMismatch` — and leaves
    /// the table unchanged — unless the row's vector has exactly
    /// `VECTOR_DIM` components.
    pub fn insert_row(&mut self, row: Row) -> (r: Result<(), DbError>)
        ensures
            r is Ok <==> row.wf(),
            r is Ok ==> final(self)@ == old(self)@.push(row@),
            r matches Err(e) ==> e == DbError::SchemaMismatch && final(self)@ == old(self)@,
            old(self).wf() && row.wf() ==> final(self).wf(),
    {
        if row.vector.len() != VECTOR_DIM {
            return Err(DbError::SchemaMismatch);
        }
        self.rows.push(row);
        proof {
            assert(final(self)@ =~= old(self)@.push(row@));
        }
        Ok(())
    }

    /// How many rows the table holds.
    pub fn row_count(&self) -> (n: usize)
        ensures
            n == self@.len(),
    {
        self.rows.len()
    }

    /// The row at one index.
    pub fn row_at(&self, k: usize) -> (r: &Row)
        requires
            k < self@.len(),
        ensures
            r@ == self@[k as int],
    {
        &self.rows[k]
    }
}

/// Schema invariance: every row of a well-formed table — and the table
/// methods preserve well-formedness — carries a vector of exactly
/// `VECTOR_DIM` components.
pub proof fn lemma_schema_invariance(t: DocumentTable)
    requires
        t.wf(),
    ensures
        forall|k: int| 0 <= k < t@.len() ==> (#[trigger] t@[k]).vector.len() == VECTOR_DIM,
{
}

/// The single best match of a retrieval call.
#[derive(Debug, PartialEq, Eq)]
pub struct TopMatchResult {
    pub text: String,
    pub page_number: i32,
}

/// The outcome of one embedding request: the vector's float components as
/// bit patterns, or a failure (network error, non-2xx status, or a body
/// that did not parse).
pub enum EmbeddingOutcome {
    Embedded(Vec<u32>),
    Failed,
}

/// The rows ingestion appends for the chunks from position `i` on: one row
/// per successfully embedded chunk of the right dimension, in chunk order,
/// each tagged with the page number; failed chunks are dropped. A chunk
/// with no outcome counts as failed.
pub open spec fn ingested_from(
    chunks: Seq<Seq<char>>,
    outcomes: Seq<EmbeddingOutcome>,
    page: int,
    i: int,
) -> Seq<RowModel>
    decreases chunks.len() - i when 0 <= i <= chunks.len()
{
    if !(0 <= i < chunks.len()) {
        Seq::empty()
    } else {
        let rest = ingested_from(chunks, outcomes, page, i + 1);
        if i < outcomes.len() && outcomes[i] is Embedded && outcomes[i]->Embedded_0@.len()
            == VECTOR_DIM {
            seq![
                RowModel { id: page, text: chunks[i], vector: outcomes[i]->Embedded_0@ },
            ] + rest
        } else {
            rest
        }
    }
}

/// All rows one ingestion call appends for a page.
pub open spec fn ingested_rows(
    chunks: Seq<Seq<char>>,
    outcomes: Seq<EmbeddingOutcome>,
    page: int,
) -> Seq<RowModel> {
    ingested_from(chunks, outcomes, page, 0)
}

/// The first row at or after `i` whose vector equals the query vector.
pub open spec fn exact_match_from(rows: Seq<RowModel>, q: Seq<u32>, i: int) -> Option<int>
    decreases rows.len() - i when 0 <= i <= rows.len()
{
    if !(0 <= i < rows.len()) {
        None
    } else if rows[i].vector == q {
        Some(i)
    } else {
        exact_match_from(rows, q, i + 1)
    }
}

/// The row the search model returns on a non-empty table: the first row
/// whose vector equals the query vector exactly — a distance-zero nearest
/// neighbor — and, with no such row, the earliest row. The engine's own
/// similarity ranking stays outside the model.
pub open spec fn selected_index(rows: Seq<RowModel>, q: Seq<u32>) -> int {
    match exact_match_from(rows, q, 0) {
        Some(i) => i,
        None => 0,
    }
}

proof fn lemma_exact_match_at(rows: Seq<RowModel>, q: Seq<u32>, i: int, k: int)
    requires
        0 <= i <= k < rows.len(),
        rows[k].vector == q,
        forall|j: int| i <= j < k ==> (#[trigger] rows[j]).vector != q,
    ensures
        exact_match_from(rows, q, i) == Some(k),
    decreases k - i,
{
    if i < k {
        lemma_exact_match_at(rows, q, i + 1, k);
    }
}

/// Round trip: when a query's embedding equals the vector stored for one
/// row — and no earlier row holds that vector — the search model selects
/// exactly that row, so its stored text and page number come back.
pub proof fn lemma_round_trip(rows: Seq<RowModel>, q: Seq<u32>, k: int)
    requires
        0 <= k < rows.len(),
        rows[k].vector == q,
        forall|j: int| 0 <= j < k ==> (#[trigger] rows[j]).vector != q,
    ensures
        selected_index(rows, q) == k,
{
    lemma_exact_match_at(rows, q, 0, k);
}

proof fn lemma_ingested_from_props(
    chunks: Seq<Seq<char>>,
    outcomes: Seq<EmbeddingOutcome>,
    page: int,
    i: int,
)
    requires
        0 <= i <= chunks.len(),
    ensures
        forall|m: int|
            0 <= m < ingested_from(chunks, outcomes, page, i).len() ==> ({
                let row = #[trigger] ingested_from(chunks, outcomes, page, i)[m];
                &&& row.id == page
                &&& row.vector.len() == VECTOR_DIM
                &&& exists|k: int|
                    #![auto]
                    i <= k < chunks.len() && 0 <= k < outcomes.len() && outcomes[k] is Embedded
                        && row.text == chunks[k] && row.vector == outcomes[k]->Embedded_0@
            }),
        (forall|k: int|
            i <= k < outcomes.len() ==> !((#[trigger] outcomes[k]) is Embedded)) ==> ingested_from(
            chunks,
            outcomes,
            page,
            i,
        ) == Seq::<RowModel>::empty(),
    decreases chunks.len() - i,
{
    if i < chunks.len() {
        lemma_ingested_from_props(chunks, outcomes, page, i + 1);
        let rest = ingested_from(chunks, outcomes, page, i + 1);
        let whole = ingested_from(chunks, outcomes, page, i);
        if i < outcomes.len() && outcomes[i] is Embedded && outcomes[i]->Embedded_0@.len()
            == VECTOR_DIM {
            assert forall|m: int| 0 <= m < whole.len() implies ({
                let row = #[trigger] whole[m];
                &&& row.id == page
                &&& row.vector.len() == VECTOR_DIM
                &&& exists|k: int|
                    #![auto]
                    i <= k < chunks.len() && 0 <= k < outcomes.len() && outcomes[k] is Embedded
                        && row.text == chunks[k] && row.vector == outcomes[k]->Embedded_0@
            }) by {
                if m == 0 {
                    assert(whole[0].text == chunks[i] && whole[0].vector == outcomes[i]->Embedded_0@
                        && outcomes[i] is Embedded);
                } else {
                    assert(whole[m] == rest[m - 1]);
                }
            }
        } else {
            assert(whole == rest);
        }
    }
}

/// Partial-failure ingestion: every row the pipeline appends is tagged with
/// the page number, obeys the schema, and carries the text and vector of a
/// chunk whose embedding succeeded; when every outcome failed, no row at
/// all is appended — while the ingestion call itself still succeeds.
pub proof fn lemma_partial_failure(
    chunks: Seq<Seq<char>>,
    outcomes: Seq<EmbeddingOutcome>,
    page: int,
)
    ensures
        forall|m: int|
            0 <= m < ingested_rows(chunks, outcomes, page).len() ==> ({
                let row = #[trigger] ingested_rows(chunks, outcomes, page)[m];
                &&& row.id == page
                &&& row.vector.len() == VECTOR_DIM
                &&& exists|k: int|
                    #![auto]
                    0 <= k < chunks.len() && 0 <= k < outcomes.len() && outcomes[k] is Embedded
                        && row.text == chunks[k] && row.vector == outcomes[k]->Embedded_0@
            }),
        (forall|k: int|
            0 <= k < outcomes.len() ==> !((#[trigger] outcomes[k]) is Embedded)) ==> ingested_rows(
            chunks,
            outcomes,
            page,
        ) == Seq::<RowModel>::empty(),
{
    lemma_ingested_from_props(chunks, outcomes, page, 0);
}

/// Compares two vectors component by component.
fn vectors_equal(a: &Vec<u32>, b: &Vec<u32>) -> (r: bool)
    ensures
        r == (a@ == b@),
{
    if a.len() != b.len() {
        return false;
    }
    let mut i: usize = 0;
    while i < a.len()
        invariant
            a@.len() == b@.len(),
            0 <= i <= a@.len(),
            forall|j: int| 0 <= j < i ==> a@[j] == b@[j],
        decreases a@.len() - i,
    {
        if a[i] != b[i] {
            return false;
        }
        i += 1;
    }
    proof {
        assert(a@ =~= b@);
    }
    true
}

/// One catalog slot: a table under its identifier.
struct TableEntry {
    table_id: String,
    table: DocumentTable,
}

/// The catalog of all document tables, addressed by table identifier.
/// It stands for the single storage location the engine manages: one
/// logical table per document, created once and never dropped.
pub struct Catalog {
    entries: Vec<TableEntry>,
}

impl Catalog {
    /// Whether a table with this identifier exists.
    pub closed spec fn contains_id(self, id: Seq<char>) -> bool {
        exists|k: int|
            0 <= k < self.entries@.len() && (#[trigger] self.entries@[k]).table_id@ == id
    }

    /// The slot of the table with this identifier.
    pub closed spec fn entry_index(self, id: Seq<char>) -> int {
        choose|k: int|
            0 <= k < self.entries@.len() && (#[trigger] self.entries@[k]).table_id@ == id
    }

    /// The rows of the table with this identifier; empty when absent.
    pub closed spec fn rows_of(self, id: Seq<char>) -> Seq<RowModel> {
        if self.contains_id(id) {
            self.entries@[self.entry_index(id)].table@
        } else {
            Seq::empty()
        }
    }

    /// Identifiers are unique and every table obeys the schema.
    pub closed spec fn wf(self) -> bool {
        &&& forall|k1: int, k2: int|
            0 <= k1 < k2 < self.entries@.len() ==> (#[trigger] self.entries@[k1]).table_id@ != (
            #[trigger] self.entries@[k2]).table_id@
        &&& forall|k: int| 0 <= k < self.entries@.len() ==> (#[trigger] self.entries@[k]).table.wf()
    }

    proof fn lemma_entry_at(self, k: int)
        requires
            self.wf(),
            0 <= k < self.entries@.len(),
        ensures
            self.contains_id(self.entries@[k].table_id@),
            self.entry_index(self.entries@[k].table_id@) == k,
            self.rows_of(self.entries@[k].table_id@) == self.entries@[k].table@,
    {
        let id = self.entries@[k].table_id@;
        assert(self.contains_id(id));
        let k2 = self.entry_index(id);
        if k2 < k {
            assert(self.entries@[k2].table_id@ != self.entries@[k].table_id@);
        } else if k2 > k {
            assert(self.entries@[k].table_id@ != self.entries@[k2].table_id@);
        }
    }

    /// An empty catalog: the state right after the storage location opens.
    pub fn new() -> (c: Catalog)
        ensures
            c.wf(),
            forall|id: Seq<char>| !(#[trigger] c.contains_id(id)),
    {
        Catalog { entries: Vec::new() }
    }

    /// The slot holding `table_id`, if any.
    fn find_entry(&self, table_id: &String) -> (r: Option<usize>)
        ensures
            r matches Some(k) ==> k < self.entries@.len() && self.entries@[k as int].table_id@
                == table_id@,
            r is None ==> !self.contains_id(table_id@),
    {
        let mut k: usize = 0;
        while k < self.entries.len()
            invariant
                0 <= k <= self.entries@.len(),
                forall|j: int| 0 <= j < k ==> (#[trigger] self.entries@[j]).table_id@ != table_id@,
            decreases self.entries@.len() - k,
        {
            if self.entries[k].table_id == *table_id {
                return Some(k);
            }
            k += 1;
        }
        None
    }

    /// Creates the table for a document: a fresh, empty table under the
    /// identifier derived from the document's name. Fails with
    /// `TableAlreadyExists` — and changes nothing — when that identifier is
    /// already taken; every other table is left untouched.
    pub fn create_table_for_document(&mut self, document_name: &str) -> (r: Result<(), DbError>)
        requires
            old(self).wf(),
        ensures
            final(self).wf(),
            ({
                let id = table_id_of(document_name@);
                &&& old(self).contains_id(id) ==> (r matches Err(e) && e
                    == DbError::TableAlreadyExists && *final(self) == *old(self))
                &&& !old(self).contains_id(id) ==> (r is Ok && final(self).contains_id(id)
                    && final(self).rows_of(id) == Seq::<RowModel>::empty())
                &&& forall|id2: Seq<char>|
                    id2 != id ==> (#[trigger] final(self).contains_id(id2)) == old(
                        self,
                    ).contains_id(id2)
                &&& forall|id2: Seq<char>|
                    id2 != id ==> (#[trigger] final(self).rows_of(id2)) == old(self).rows_of(id2)
            }),
    {
        let table_id = derive_table_id(document_name);
        let ghost id = table_id_of(document_name@);
        match self.find_entry(&table_id) {
            Some(k) => {
                proof {
                    self.lemma_entry_at(k as int);
                }
                Err(DbError::TableAlreadyExists)
            },
            None => {
                let ghost prev = *self;
                let entry = TableEntry { table_id, table: DocumentTable::new() };
                self.entries.push(entry);
                proof {
                    let n = prev.entries@.len() as int;
                    assert(self.entries@ == prev.entries@.push(entry));
                    assert(self.entries@[n].table_id@ == id);
                    assert forall|k: int| 0 <= k < n implies (#[trigger] self.entries@[k])
                        == prev.entries@[k] by {}
                    assert(self.wf());
                    self.lemma_entry_at(n);
                    assert(self.rows_of(id) =~= Seq::<RowModel>::empty());
                    assert forall|id2: Seq<char>| id2 != id implies (#[trigger] self.contains_id(
                        id2,
                    )) == prev.contains_id(id2) && self.rows_of(id2) == prev.rows_of(id2) by {
                        if prev.contains_id(id2) {
                            let k = prev.entry_index(id2);
                            prev.lemma_entry_at(k);
                            self.lemma_entry_at(k);
                        } else if self.contains_id(id2) {
                            let k = self.entry_index(id2);
                            assert(0 <= k < self.entries@.len());
                            assert(self.entries@[k].table_id@ == id2);
                            assert(k != n);
                            assert(prev.contains_id(id2));
                        }
                    }
                }
                Ok(())
            },
        }
    }

    /// Ingests one page of a document: the text is chunked with the fixed
    /// policy (`CHUNK_SIZE` tokens, `OVERLAP` overlap) and, for each chunk
    /// whose embedding outcome succeeded with the right dimension, one row
    /// tagged with the page number is appended, in chunk order. Failed
    /// chunks are dropped and not reported: the call still succeeds, so
    /// fewer rows than chunks may be written. It fails — and changes
    /// nothing — only when the document's table does not exist.
    pub fn embed_page(
        &mut self,
        document_name: &str,
        text: &str,
        page_num: i32,
        outcomes: &Vec<EmbeddingOutcome>,
    ) -> (r: Result<(), DbError>)
        requires
            old(self).wf(),
        ensures
            final(self).wf(),
            ({
                let id = table_id_of(document_name@);
                let chunks = chunk_texts(text@, CHUNK_SIZE as int, OVERLAP as int);
                &&& !old(self).contains_id(id) ==> (r matches Err(e) && e
                    == DbError::TableNotFound && *final(self) == *old(self))
                &&& old(self).contains_id(id) ==> (r is Ok && final(self).contains_id(id)
                    && final(self).rows_of(id) == old(self).rows_of(id) + ingested_rows(
                    chunks,
                    outcomes@,
                    page_num as int,
                ))
                &&& forall|id2: Seq<char>|
                    id2 != id ==> (#[trigger] final(self).contains_id(id2)) == old(
                        self,
                    ).contains_id(id2)
                &&& forall|id2: Seq<char>|
                    id2 != id ==> (#[trigger] final(self).rows_of(id2)) == old(self).rows_of(id2)
            }),
    {
        let table_id = derive_table_id(document_name);
        let ghost id = table_id_of(document_name@);
        let k = match self.find_entry(&table_id) {
            None => {
                return Err(DbError::TableNotFound);
            },
            Some(k) => k,
        };
        let ghost prev = *self;
        proof {
            prev.lemma_entry_at(k as int);
        }
        let mut entry = self.entries.remove(k);
        let ghost base = entry.table@;
        let chunks = create_text_chunks(text, CHUNK_SIZE, OVERLAP);
        let ghost cts = chunk_texts(text@, CHUNK_SIZE as int, OVERLAP as int);
        let ghost page = page_num as int;
        let ghost mut acc: Seq<RowModel> = Seq::empty();
        let mut ci: usize = 0;
        proof {
            assert(views_of(chunks@) == cts);
            assert(entry.table@ =~= base + acc);
            assert(ingested_rows(cts, outcomes@, page) == acc + ingested_from(
                cts,
                outcomes@,
                page,
                0,
            ));
        }
        while ci < chunks.len()
            invariant
                views_of(chunks@) == cts,
                chunks@.len() == cts.len(),
                page == page_num as int,
                0 <= ci <= chunks@.len(),
                entry.table@ == base + acc,
                entry.table.wf(),
                entry.table_id == prev.entries@[k as int].table_id,
                k < prev.entries@.len(),
                ingested_rows(cts, outcomes@, page) == acc + ingested_from(
                    cts,
                    outcomes@,
                    page,
                    ci as int,
                ),
            decreases chunks@.len() - ci,
    {
            let ghost acc0 = acc;
            if ci < outcomes.len() {
                let o = &outcomes[ci];
                match o {
                    EmbeddingOutcome::Embedded(v) => {
                        let vec_copy = copy_vector(v);
                        let row_text = chunks[ci].clone();
                        match Row::new(page_num, row_text, vec_copy) {
                            Ok(row) => {
                                let ghost rowm = row@;
                                let res = entry.table.insert_row(row);
                                proof {
                                    assert(res is Ok);
                                    assert(outcomes@[ci as int] is Embedded);
                                    assert(v@ == outcomes@[ci as int]->Embedded_0@);
                                    assert(views_of(chunks@)[ci as int] == chunks@[ci as int]@);
                                    let rowc = RowModel {
                                        id: page,
                                        text: cts[ci as int],
                                        vector: outcomes@[ci as int]->Embedded_0@,
                                    };
                                    assert(rowm =~= rowc);
                                    acc = acc.push(rowc);
                                    assert(entry.table@ =~= base + acc);
                                }
                            },
                            Err(_) => {},
                        }
                    },
                    EmbeddingOutcome::Failed => {},
                }
            }
            proof {
                let taken = ci < outcomes@.len() && outcomes@[ci as int] is Embedded
                    && outcomes@[ci as int]->Embedded_0@.len() == VECTOR_DIM;
                if taken {
                    let rowm = RowModel {
                        id: page,
                        text: cts[ci as int],
                        vector: outcomes@[ci as int]->Embedded_0@,
                    };
                    assert(acc == acc0.push(rowm));
                    assert(ingested_from(cts, outcomes@, page, ci as int) == seq![rowm]
                        + ingested_from(cts, outcomes@, page, ci + 1));
                    assert(acc + ingested_from(cts, outcomes@, page, ci + 1) =~= acc0
                        + ingested_from(cts, outcomes@, page, ci as int));
                } else {
                    assert(acc == acc0);
                    assert(ingested_from(cts, outcomes@, page, ci as int) == ingested_from(
                        cts,
                        outcomes@,
                        page,
                        ci + 1,
                    ));
                }
            }
            ci += 1;
        }
        proof {
            assert(ingested_from(cts, outcomes@, page, cts.len() as int) == Seq::<
                RowModel,
            >::empty());
            assert(ingested_rows(cts, outcomes@, page) =~= acc);
            assert(entry.table@ == base + ingested_rows(cts, outcomes@, page));
        }
        let ghost entry_final = entry;
        self.entries.insert(k, entry);
        proof {
            assert(self.entries@ =~= prev.entries@.update(k as int, entry_final));
            assert forall|j: int| 0 <= j < self.entries@.len() implies (#[trigger] self.entries@[
                j
            ]).table_id@ == prev.entries@[j].table_id@ by {}
            assert(self.wf());
            self.lemma_entry_at(k as int);
            assert(self.rows_of(id) == base + ingested_rows(cts, outcomes@, page));
            assert forall|id2: Seq<char>| id2 != id implies (#[trigger] self.contains_id(id2))
                == prev.contains_id(id2) && self.rows_of(id2) == prev.rows_of(id2) by {
                if prev.contains_id(id2) {
                    let k2 = prev.entry_index(id2);
                    prev.lemma_entry_at(k2);
                    assert(k2 != k);
                    assert(self.entries@[k2].table_id@ == id2);
                    self.lemma_entry_at(k2);
                } else if self.contains_id(id2) {
                    let k2 = self.entry_index(id2);
                    assert(0 <= k2 < self.entries@.len());
                    assert(prev.entries@[k2].table_id@ == id2);
                    assert(prev.contains_id(id2));
                }
            }
        }
        Ok(())
    }

    /// How many rows one document's table holds — the separate inspection a
    /// caller needs to tell a fully ingested page from one whose chunks
    /// were silently dropped. Fails with `TableNotFound` when the table is
    /// absent.
    pub fn table_row_count(&self, document_name: &str) -> (r: Result<usize, DbError>)
        requires
            self.wf(),
        ensures
            ({
                let id = table_id_of(document_name@);
                &&& self.contains_id(id) ==> (r matches Ok(n) && n == self.rows_of(id).len())
                &&& !self.contains_id(id) ==> (r matches Err(e) && e == DbError::TableNotFound)
            }),
    {
        let table_id = derive_table_id(document_name);
        match self.find_entry(&table_id) {
            None => Err(DbError::TableNotFound),
            Some(k) => {
                proof {
                    self.lemma_entry_at(k as int);
                }
                Ok(self.entries[k].table.row_count())
            },
        }
    }

    /// Returns the single best match for a query against one document's
    /// table. Fails with `TableNotFound` when the table is absent, with
    /// `EmbeddingRequestFailed` when the query embedding could not be
    /// obtained, and with `EmptyResultSet` — never a default row — when the
    /// table holds no rows.
    pub fn get_top_match(
        &self,
        document_name: &str,
        query_embedding: &EmbeddingOutcome,
    ) -> (r: Result<TopMatchResult, DbError>)
        requires
            self.wf(),
        ensures
            ({
                let id = table_id_of(document_name@);
                let rows = self.rows_of(id);
                &&& !self.contains_id(id) ==> (r matches Err(e) && e == DbError::TableNotFound)
                &&& self.contains_id(id) && query_embedding is Failed ==> (r matches Err(e) && e
                    == DbError::EmbeddingRequestFailed)
                &&& self.contains_id(id) && query_embedding is Embedded && rows.len() == 0 ==> (
                r matches Err(e) && e == DbError::EmptyResultSet)
                &&& self.contains_id(id) && query_embedding is Embedded && rows.len() > 0 ==> (
                r matches Ok(m) && m.text@ == rows[selected_index(
                    rows,
                    query_embedding->Embedded_0@,
                )].text && m.page_number as int == rows[selected_index(
                    rows,
                    query_embedding->Embedded_0@,
                )].id)
            }),
    {
        let table_id = derive_table_id(document_name);
        let ghost id = table_id_of(document_name@);
        let k = match self.find_entry(&table_id) {
            None => {
                return Err(DbError::TableNotFound);
            },
            Some(k) => k,
        };
        proof {
            self.lemma_entry_at(k as int);
        }
        let q = match query_embedding {
            EmbeddingOutcome::Failed => {
                return Err(DbError::EmbeddingRequestFailed);
            },
            EmbeddingOutcome::Embedded(q) => q,
        };
        let table = &self.entries[k].table;
        let ghost rows = self.rows_of(id);
        let n = table.row_count();
        if n == 0 {
            return Err(DbError::EmptyResultSet);
        }
        let mut sel: usize = 0;
        let mut found = false;
        let mut ci: usize = 0;
        while ci < n && !found
            invariant
                rows == table@,
                n == rows.len(),
                0 <= ci <= n,
                0 <= sel < n,
                !found ==> sel == 0,
                !found ==> exact_match_from(rows, q@, 0) == exact_match_from(
                    rows,
                    q@,
                    ci as int,
                ),
                found ==> exact_match_from(rows, q@, 0) == Some(sel as int),
            decreases n - ci + (if found { 0int } else { 1int }),
        {
            let row = table.row_at(ci);
            if vectors_equal(&row.vector, q) {
                sel = ci;
                found = true;
                proof {
                    assert(rows[ci as int].vector == q@);
                    assert(exact_match_from(rows, q@, ci as int) == Some(ci as int));
                }
            } else {
                proof {
                    assert(rows[ci as int].vector != q@);
                    assert(exact_match_from(rows, q@, ci as int) == exact_match_from(
                        rows,
                        q@,
                        ci + 1,
                    ));
                }
                ci += 1;
            }
        }
        proof {
            if found {
                assert(selected_index(rows, q@) == sel as int);
            } else {
                assert(exact_match_from(rows, q@, n as int) is None);
                assert(selected_index(rows, q@) == 0);
            }
        }
        let row = table.row_at(sel);
        proof {
            assert(q@ == query_embedding->Embedded_0@);
            let si = selected_index(rows, q@);
            assert(si == sel as int);
            assert(row@ == rows[si]);
        }
        Ok(TopMatchResult { text: row.text.clone(), page_number: row.id })
    }
}

/// Copies a vector of bit patterns.
fn copy_vector(v: &Vec<u32>) -> (r: Vec<u32>)
    ensures
        r@ == v@,
{
    let mut r: Vec<u32> = Vec::new();
    let mut i: usize = 0;
    while i < v.len()
        invariant
            0 <= i <= v@.len(),
            r@ == v@.subrange(0, i as int),
        decreases v@.len() - i,
    {
        r.push(v[i]);
        proof {
            assert(r@ =~= v@.subrange(0, i + 1));
        }
        i += 1;
    }
    proof {
        assert(v@.subrange(0, v@.len() as int) =~= v@);
    }
    r
}

} // verus!
