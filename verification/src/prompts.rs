//! The embedding-prompt policy: ingestion and retrieval prefix their texts
//! with distinct markers, so an embedding model with asymmetric
//! representations can tell passages from queries.

use vstd::prelude::*;
use vstd::string::StringExecFns;

verus! {

/// The text sent to the embedding service for a stored chunk.
pub fn passage_prompt(text: &str) -> (r: String)
    ensures
        r@ == "passage: "@ + text@,
{
    let mut s = "passage: ".to_owned();
    s.append(text);
    s
}

/// The text sent to the embedding service for a query.
pub fn query_prompt(text: &str) -> (r: String)
    ensures
        r@ == "query: "@ + text@,
{
    let mut s = "query: ".to_owned();
    s.append(text);
    s
}

} // verus!
