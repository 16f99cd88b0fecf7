//! The texts handed to the embedding model. Documents and queries are
//! embedded asymmetrically: each kind gets its own task prefix.
use vstd::prelude::*;

verus! {

/// The task prefix of passages that are stored in the index.
pub const DOCUMENT_PREFIX: &'static str = "search_document";

/// The task prefix of search queries.
pub const QUERY_PREFIX: &'static str = "search_query";

/// What the model is given for `sentence` under the task `prefix`.
pub open spec fn model_input(prefix: Seq<char>, sentence: Seq<char>) -> Seq<char> {
    prefix + ": "@ + sentence
}

/// The prefixed form of `sentence`: the prefix, a colon and a space, then
/// the sentence.
pub fn prefixed(prefix: &str, sentence: &str) -> (r: String)
    ensures
        r@ == model_input(prefix@, sentence@),
{
    let mut r = String::from_str(prefix);
    r.append(": ");
    r.append(sentence);
    r
}

/// The model inputs of passages that are to be stored.
pub fn document_inputs(documents: &Vec<&str>) -> (r: Vec<String>)
    ensures
        r@.len() == documents@.len(),
        forall|i: int|
            0 <= i < r@.len() ==> (#[trigger] r@[i])@ == model_input(
                DOCUMENT_PREFIX@,
                documents@[i]@,
            ),
{
    let mut r: Vec<String> = Vec::new();
    let mut i: usize = 0;
    while i < documents.len()
        invariant
            i <= documents@.len(),
            r@.len() == i,
            forall|j: int|
                0 <= j < i ==> (#[trigger] r@[j])@ == model_input(DOCUMENT_PREFIX@, documents@[j]@),
        decreases documents@.len() - i,
    {
        r.push(prefixed(DOCUMENT_PREFIX, documents[i]));
        i += 1;
    }
    r
}

/// The model input of a search query.
pub fn query_input(query: &str) -> (r: String)
    ensures
        r@ == model_input(QUERY_PREFIX@, query@),
{
    prefixed(QUERY_PREFIX, query)
}

} // verus!
