use gk_search::embed::{document_inputs, prefixed, query_input};
use gk_search::index::{IndexError, EMBEDDING_SIZE, LATEST_MODEL_NAME};
use gk_search::indexer::{after_batch, embedding_rows, passage_texts, IndexerAction};
use gk_search::models::Revision;
use gk_search::segment::paragraphize;

fn revision(text: &str) -> Revision {
    Revision {
        revision_id: 42,
        recipe_id: 7,
        source_name: "manual".to_string(),
        created_on: "2024-01-01 00:00:00".to_string(),
        content_text: text.to_string(),
        details: "{}".to_string(),
        format: None,
        rendered: None,
    }
}

fn banana_bread() -> String {
    let mut text = String::new();
    for i in 0..7 {
        let mut line: String = format!("Banana bread step {}: ", i);
        while line.len() < 299 {
            line.push('m');
        }
        line.push('\n');
        text.push_str(&line);
    }
    text
}

#[test]
fn one_iteration_writes_a_row_per_passage() {
    let text = banana_bread();
    let rev = revision(&text);
    let passages = paragraphize(&rev.content_text);
    assert_eq!(passages.len(), 3);
    let vectors = vec![vec![1u16; EMBEDDING_SIZE]; 3];
    let rows = embedding_rows(&rev, &passages, vectors).unwrap();
    assert_eq!(rows.len(), 3);
    for (row, passage) in rows.iter().zip(passages.iter()) {
        assert_eq!(row.model_name, LATEST_MODEL_NAME);
        assert_eq!(row.span_start as usize, passage.start);
        assert_eq!(row.span_end as usize, passage.end);
        assert_eq!(row.revision_id, 42);
        assert_eq!(row.recipe_id, 7);
        assert_eq!(row.embedding.len(), EMBEDDING_SIZE);
        assert!(!row.created_on.is_empty());
    }
    let spans: Vec<(u32, u32)> = rows.iter().map(|r| (r.span_start, r.span_end)).collect();
    assert_eq!(spans, vec![(0, 1200), (600, 1800), (1200, 2100)]);
}

#[test]
fn rows_need_a_vector_per_passage() {
    let rev = revision("short");
    let passages = paragraphize(&rev.content_text);
    assert_eq!(
        embedding_rows(&rev, &passages, vec![]).err(),
        Some(IndexError::CountMismatch { found: 0, expected: 1 })
    );
    assert_eq!(
        embedding_rows(&rev, &passages, vec![vec![0u16; 3]]).err(),
        Some(IndexError::DimensionMismatch { row: 0, len: 3 })
    );
}

#[test]
fn passage_texts_are_the_highlights() {
    let text = banana_bread();
    let passages = paragraphize(&text);
    let texts = passage_texts(&passages);
    assert_eq!(texts.len(), 3);
    assert_eq!(texts[0], &text[0..1200]);
    assert_eq!(texts[2], &text[1200..2100]);
}

#[test]
fn indexer_goes_on_while_there_is_work() {
    assert_eq!(after_batch::<()>(&Ok(3)), IndexerAction::IndexNext);
    assert_eq!(after_batch::<()>(&Ok(0)), IndexerAction::RefreshThenSleep { seconds: 60 });
    assert_eq!(after_batch(&Err("store down")), IndexerAction::RefreshThenSleep { seconds: 60 });
}

#[test]
fn model_inputs_carry_their_prefix() {
    assert_eq!(prefixed("p", "text"), "p: text");
    assert_eq!(query_input("banana"), "search_query: banana");
    assert_eq!(
        document_inputs(&vec!["a", "b c"]),
        vec!["search_document: a".to_string(), "search_document: b c".to_string()]
    );
}

fn backlog<'a>(revisions: &'a [Revision], store: &[gk_search::models::Embedding]) -> Vec<&'a Revision> {
    revisions
        .iter()
        .filter(|r| {
            !store
                .iter()
                .any(|e| e.revision_id == r.revision_id && e.model_name == LATEST_MODEL_NAME)
        })
        .collect()
}

#[test]
fn indexer_drains_a_fresh_store() {
    let texts = [banana_bread(), "Toast\nbutter".to_string(), String::new()];
    let revisions: Vec<Revision> = texts
        .iter()
        .enumerate()
        .map(|(i, t)| Revision { revision_id: i as i64 + 1, ..revision(t) })
        .collect();
    let mut store = Vec::new();
    let mut batches = 0;
    loop {
        let pending = backlog(&revisions, &store);
        let outcome: Result<usize, ()> = match pending.first() {
            None => Ok(0),
            Some(rev) => {
                let passages = paragraphize(&rev.content_text);
                let vectors = vec![vec![0u16; EMBEDDING_SIZE]; passages.len()];
                let rows = embedding_rows(rev, &passages, vectors).unwrap();
                let n = rows.len();
                store.extend(rows);
                batches += 1;
                Ok(n)
            }
        };
        if after_batch(&outcome) != IndexerAction::IndexNext {
            break;
        }
    }
    assert_eq!(batches, 3);
    assert!(backlog(&revisions, &store).is_empty());
    assert_eq!(store.len(), 3 + 1 + 1);
}
