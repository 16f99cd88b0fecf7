use gk_search::index::{
    vector_from_le_bytes, vector_to_le_bytes, DocumentIndex, IndexError, EMBEDDING_SIZE,
};
use gk_search::models::Embedding;
use gk_search::rank::{paginate, rank_documents, similarity_order};

fn bits(x: f32) -> u16 {
    half::f16::from_f32(x).to_bits()
}

fn unit_vector(axis: usize) -> Vec<u16> {
    let mut v = vec![bits(0.0); EMBEDDING_SIZE];
    v[axis] = bits(1.0);
    v
}

fn row(recipe_id: i64, vector: Vec<u16>) -> Embedding {
    Embedding {
        embedding_id: 0,
        recipe_id,
        revision_id: recipe_id * 10,
        span_start: 0,
        span_end: 1,
        created_on: String::new(),
        model_name: "m".to_string(),
        embedding: vector,
    }
}

#[test]
fn best_documents_come_first() {
    // Documents A = 1, B = 2, C = 3 with best similarities 0.9, 0.7, 0.95.
    let sims = vec![bits(0.2), bits(0.9), bits(0.7), bits(0.95), bits(0.1)];
    let owners = vec![1, 1, 2, 3, 3];
    let ranked = rank_documents(&sims, &owners);
    assert_eq!(ranked, vec![3, 1, 2]);
    let resolved: Vec<Option<i64>> = ranked.into_iter().map(Some).collect();
    assert_eq!(paginate(resolved, 0, 2), vec![3, 1]);
}

#[test]
fn a_document_with_many_passages_appears_once() {
    let mut sims = Vec::new();
    let mut owners = Vec::new();
    for i in 0..10 {
        sims.push(bits(0.5 + i as f32 * 0.01));
        owners.push(7);
    }
    sims.push(bits(0.52));
    owners.push(8);
    let ranked = rank_documents(&sims, &owners);
    assert_eq!(ranked, vec![7, 8]);
}

#[test]
fn ranking_handles_negative_similarities() {
    let sims = vec![bits(-0.5), bits(0.25), bits(-0.75), bits(0.0)];
    let owners = vec![1, 2, 3, 4];
    assert_eq!(rank_documents(&sims, &owners), vec![2, 4, 1, 3]);
}

#[test]
fn ranking_of_nothing_is_empty() {
    assert_eq!(rank_documents(&vec![], &vec![]), Vec::<i64>::new());
}

#[test]
fn similarity_order_keys() {
    assert_eq!(similarity_order(0x3C00), 0xBC00);
    assert_eq!(similarity_order(0xBC00), 0x43FF);
    assert_eq!(similarity_order(0x0000), 0x8000);
    assert_eq!(similarity_order(0x8000), 0x7FFF);
    assert!(similarity_order(bits(0.5)) < similarity_order(bits(0.75)));
    assert!(similarity_order(bits(-0.75)) < similarity_order(bits(-0.5)));
}

#[test]
fn pagination_skips_unresolved_documents() {
    let resolved = vec![Some('a'), None, Some('b'), Some('c'), None, Some('d')];
    assert_eq!(paginate(resolved.clone(), 0, 2), vec!['a', 'b']);
    assert_eq!(paginate(resolved.clone(), 1, 2), vec!['b', 'c']);
    assert_eq!(paginate(resolved.clone(), 3, 5), vec!['d']);
    assert_eq!(paginate(resolved.clone(), 4, 5), Vec::<char>::new());
    assert_eq!(paginate(resolved, 0, 0), Vec::<char>::new());
}

#[test]
fn snapshot_from_rows_keeps_their_order() {
    let rows = vec![row(5, unit_vector(0)), row(6, unit_vector(1)), row(5, unit_vector(2))];
    let index = DocumentIndex::from_embeddings(&rows).unwrap();
    assert_eq!(index.len(), 3);
    assert_eq!(index.recipe_ids(), &vec![5, 6, 5]);
    assert_eq!(index.embeddings()[1], unit_vector(1));
}

#[test]
fn snapshot_refuses_a_short_vector() {
    let rows = vec![row(5, unit_vector(0)), row(6, vec![bits(1.0); 63])];
    assert_eq!(
        DocumentIndex::from_embeddings(&rows).err(),
        Some(IndexError::DimensionMismatch { row: 1, len: 63 })
    );
}

#[test]
fn with_embeddings_checks_counts_and_dimensions() {
    assert_eq!(
        DocumentIndex::with_embeddings(vec![unit_vector(0)], vec![1, 2]).err(),
        Some(IndexError::CountMismatch { found: 1, expected: 2 })
    );
    assert_eq!(
        DocumentIndex::with_embeddings(vec![unit_vector(0), vec![0; 65]], vec![1, 2]).err(),
        Some(IndexError::DimensionMismatch { row: 1, len: 65 })
    );
    let index = DocumentIndex::with_embeddings(vec![unit_vector(3)], vec![9]).unwrap();
    assert_eq!(index.recipe_ids(), &vec![9]);
}

#[test]
fn refresh_twice_rebuilds_once() {
    let stored = vec![row(1, unit_vector(0)), row(2, unit_vector(1))];
    let empty = DocumentIndex::empty();
    assert_eq!(empty.len(), 0);
    assert!(empty.needs_refresh(stored.len()));
    let first = DocumentIndex::from_embeddings(&stored).unwrap();
    assert!(!first.needs_refresh(stored.len()));
    assert!(first.needs_refresh(stored.len() + 1));
}

#[test]
fn ranking_needs_one_similarity_per_row() {
    let index = DocumentIndex::from_embeddings(&vec![row(1, unit_vector(0))]).unwrap();
    assert_eq!(
        index.rank(&vec![bits(0.5), bits(0.1)]).err(),
        Some(IndexError::CountMismatch { found: 2, expected: 1 })
    );
    assert_eq!(index.rank(&vec![bits(0.5)]).unwrap(), vec![1]);
}

#[test]
fn vectors_are_stored_little_endian() {
    let v = vec![0x3C00u16, 0x0001, 0xABCD];
    let bytes = vector_to_le_bytes(&v);
    assert_eq!(bytes, vec![0x00, 0x3C, 0x01, 0x00, 0xCD, 0xAB]);
    assert_eq!(vector_from_le_bytes(&bytes), v);
    assert_eq!(vector_from_le_bytes(&[0x01, 0x02, 0x03]), vec![0x0201]);
}
