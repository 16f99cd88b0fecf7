//! The background indexer's decisions: which passages of a revision to embed,
//! the embedding rows that record them, and what to do after each batch. The
//! loop that performs the store and model calls runs outside the library.
use vstd::prelude::*;
use crate::index::{EMBEDDING_SIZE, IndexError, LATEST_MODEL_NAME};
use crate::models::{Embedding, Revision};
use crate::segment::Span;

verus! {

/// How long the indexer waits after it found nothing to index.
pub const IDLE_SLEEP_SECONDS: u64 = 60;

/// How many revisions the indexer takes from the backlog at a time.
pub const REVISIONS_PER_BATCH: usize = 1;

/// The largest offset an embedding row can store.
pub const MAX_SPAN_OFFSET: usize = 0xffff_ffff;

/// Gives `rand::random` a contract: it returns some value, with nothing
/// known of which.
pub assume_specification<T>[ rand::random::<T> ]() -> (r: T)
    where
        rand::distributions::Standard: rand::distributions::Distribution<T>,
;

/// Relies on chrono's `Local::now` and `DateTime::format`: the local time
/// now, written as SQLite writes a datetime.
#[verifier::external_body]
pub fn sqlite_current_timestamp() -> (r: String) {
    chrono::Local::now().format("%Y-%m-%d %H:%M:%S").to_string()
}

/// What the indexer does next.
#[derive(Debug, Clone, Copy, PartialEq, Eq, Structural)]
pub enum IndexerAction {
    /// Take the next revision from the backlog at once.
    IndexNext,
    /// Refresh the index snapshot, then wait before looking again.
    RefreshThenSleep { seconds: u64 },
}

/// After a batch that wrote `outcome` rows (or failed): go on at once where
/// rows were written, else refresh and wait, since an empty backlog is a good
/// time to refresh and a failure should not be retried in a tight loop.
pub fn after_batch<E>(outcome: &Result<usize, E>) -> (r: IndexerAction)
    ensures
        r == (match outcome {
            Ok(n) => if *n > 0 {
                IndexerAction::IndexNext
            } else {
                IndexerAction::RefreshThenSleep { seconds: IDLE_SLEEP_SECONDS }
            },
            Err(_) => IndexerAction::RefreshThenSleep { seconds: IDLE_SLEEP_SECONDS },
        }),
{
    match outcome {
        Ok(n) => if *n > 0 {
            IndexerAction::IndexNext
        } else {
            IndexerAction::RefreshThenSleep { seconds: IDLE_SLEEP_SECONDS }
        },
        Err(_) => IndexerAction::RefreshThenSleep { seconds: IDLE_SLEEP_SECONDS },
    }
}

/// The texts of the passages, in order.
pub fn passage_texts<'t>(passages: &Vec<Span<'t>>) -> (r: Vec<&'t str>)
    ensures
        r@.len() == passages@.len(),
        forall|i: int| 0 <= i < r@.len() ==> #[trigger] r@[i] == passages@[i].highlight,
{
    let mut r: Vec<&'t str> = Vec::new();
    let mut i: usize = 0;
    while i < passages.len()
        invariant
            i <= passages@.len(),
            r@.len() == i,
            forall|j: int| 0 <= j < i ==> #[trigger] r@[j] == passages@[j].highlight,
        decreases passages@.len() - i,
    {
        r.push(passages[i].highlight);
        i += 1;
    }
    r
}

/// What is wrong with the vector and passage of one row, if anything.
pub open spec fn row_problem(row: int, vector: Seq<u16>, passage: Span) -> Option<IndexError> {
    if vector.len() != EMBEDDING_SIZE {
        Some(IndexError::DimensionMismatch { row: row as usize, len: vector.len() as usize })
    } else if passage.start > MAX_SPAN_OFFSET || passage.end > MAX_SPAN_OFFSET {
        Some(IndexError::OffsetOverflow { row: row as usize })
    } else {
        None
    }
}

/// The problem of the first row that has one.
pub open spec fn first_problem(vectors: Seq<Seq<u16>>, passages: Seq<Span>) -> Option<IndexError>
    decreases vectors.len(),
{
    if vectors.len() == 0 {
        None
    } else {
        match first_problem(vectors.drop_last(), passages) {
            Some(e) => Some(e),
            None => row_problem(vectors.len() - 1, vectors.last(), passages[vectors.len() - 1]),
        }
    }
}

proof fn lemma_first_problem(vectors: Seq<Seq<u16>>, passages: Seq<Span>, i: int)
    requires
        0 <= i <= vectors.len(),
        forall|j: int| 0 <= j < i ==> row_problem(j, #[trigger] vectors[j], passages[j]) is None,
    ensures
        first_problem(vectors.take(i), passages) is None,
    decreases i,
{
    if i > 0 {
        assert(vectors.take(i).drop_last() =~= vectors.take(i - 1));
        lemma_first_problem(vectors, passages, i - 1);
    }
}

/// The model version tag of the rows this indexer writes.
pub open spec fn latest_model() -> Seq<char> {
    LATEST_MODEL_NAME@
}

/// Row `row` records passage `passage` of `revision` with vector `vector`.
pub open spec fn records(row: Embedding, revision: Revision, passage: Span, vector: Seq<u16>) -> bool {
    &&& row.recipe_id == revision.recipe_id
    &&& row.revision_id == revision.revision_id
    &&& row.span_start as int == passage.start as int
    &&& row.span_end as int == passage.end as int
    &&& row.model_name@ == latest_model()
    &&& row.embedding@ == vector
}

/// The embedding rows of one revision: row `i` records `passages[i]` with
/// `vectors[i]`, under the latest model version, a fresh random id and the
/// time now.
///
/// Fails where there are not as many vectors as passages, or on the first row
/// whose vector does not have `EMBEDDING_SIZE` components or whose passage
/// ends past `MAX_SPAN_OFFSET`. No row is written for a failed batch.
pub fn embedding_rows(revision: &Revision, passages: &Vec<Span>, vectors: Vec<Vec<u16>>) -> (r:
    Result<Vec<Embedding>, IndexError>)
    ensures
        vectors@.len() != passages@.len() ==> r == Err::<Vec<Embedding>, IndexError>(
            IndexError::CountMismatch {
                found: vectors@.len() as usize,
                expected: passages@.len() as usize,
            },
        ),
        vectors@.len() == passages@.len() ==> match first_problem(
            crate::index::vectors_in(vectors@),
            passages@,
        ) {
            Some(e) => r == Err::<Vec<Embedding>, IndexError>(e),
            None => r is Ok,
        },
        r matches Ok(rows) ==> {
            &&& rows@.len() == passages@.len()
            &&& forall|i: int|
                0 <= i < rows@.len() ==> records(
                    #[trigger] rows@[i],
                    *revision,
                    passages@[i],
                    vectors@[i]@,
                )
            &&& passages@.len() > 0 ==> indexes(rows@, revision.revision_id, latest_model())
        },
{
    if vectors.len() != passages.len() {
        return Err(IndexError::CountMismatch { found: vectors.len(), expected: passages.len() });
    }
    let ghost vs = crate::index::vectors_in(vectors@);
    let n = vectors.len();
    let mut i: usize = 0;
    while i < n
        invariant
            i <= n,
            n == vectors@.len(),
            n == passages@.len(),
            vs == crate::index::vectors_in(vectors@),
            forall|j: int| 0 <= j < i ==> row_problem(j, #[trigger] vs[j], passages@[j]) is None,
        decreases n - i,
    {
        assert(vs[i as int] == vectors@[i as int]@);
        let problem = if vectors[i].len() != EMBEDDING_SIZE {
            Some(IndexError::DimensionMismatch { row: i, len: vectors[i].len() })
        } else if passages[i].start > MAX_SPAN_OFFSET || passages[i].end > MAX_SPAN_OFFSET {
            Some(IndexError::OffsetOverflow { row: i })
        } else {
            None
        };
        if let Some(e) = problem {
            proof {
                lemma_first_problem(vs, passages@, i as int);
                assert(vs.take(i as int + 1).drop_last() =~= vs.take(i as int));
                assert(first_problem(vs.take(i as int + 1), passages@) == Some(e));
                lemma_first_problem_prefix(vs, passages@, i as int + 1);
            }
            return Err(e);
        }
        i += 1;
    }
    proof {
        lemma_first_problem(vs, passages@, n as int);
        assert(vs.take(n as int) =~= vs);
    }
    let mut rows: Vec<Embedding> = Vec::new();
    let mut k: usize = 0;
    while k < n
        invariant
            k <= n,
            n == vectors@.len(),
            n == passages@.len(),
            vs == crate::index::vectors_in(vectors@),
            forall|j: int| 0 <= j < n ==> row_problem(j, #[trigger] vs[j], passages@[j]) is None,
            rows@.len() == k,
            forall|j: int|
                0 <= j < k ==> records(#[trigger] rows@[j], *revision, passages@[j], vectors@[j]@),
        decreases n - k,
    {
        assert(vs[k as int] == vectors@[k as int]@);
        assert(row_problem(k as int, vs[k as int], passages@[k as int]) is None);
        let passage = &passages[k];
        let embedding = vectors[k].clone();
        assert(embedding@ =~= vectors@[k as int]@);
        let row = Embedding {
            embedding_id: rand::random::<i64>(),
            recipe_id: revision.recipe_id,
            revision_id: revision.revision_id,
            span_start: passage.start as u32,
            span_end: passage.end as u32,
            created_on: sqlite_current_timestamp(),
            model_name: String::from_str(LATEST_MODEL_NAME),
            embedding,
        };
        rows.push(row);
        k += 1;
    }
    Ok(rows)
}

/// Some row of `rows` records revision `revision_id` under `model`.
pub open spec fn indexed_by(rows: Seq<Embedding>, revision_id: i64, model: Seq<char>) -> bool {
    exists|k: int|
        0 <= k < rows.len() && (#[trigger] rows[k]).revision_id == revision_id && rows[k].model_name@
            == model
}

/// The backlog: the revisions of which no row records a passage under
/// `model`, in store order.
pub open spec fn unindexed(revisions: Seq<Revision>, rows: Seq<Embedding>, model: Seq<char>) -> Seq<
    Revision,
>
    decreases revisions.len(),
{
    if revisions.len() == 0 {
        seq![]
    } else {
        let rest = unindexed(revisions.drop_last(), rows, model);
        if indexed_by(rows, revisions.last().revision_id, model) {
            rest
        } else {
            rest.push(revisions.last())
        }
    }
}

/// `batch` is what the indexer writes for revision `revision_id`: at least one
/// row, each recording that revision under `model`.
pub open spec fn indexes(batch: Seq<Embedding>, revision_id: i64, model: Seq<char>) -> bool {
    &&& batch.len() >= 1
    &&& forall|k: int|
        0 <= k < batch.len() ==> (#[trigger] batch[k]).revision_id == revision_id
            && batch[k].model_name@ == model
}

/// The rows of the batches, one batch after the other.
pub open spec fn written(batches: Seq<Seq<Embedding>>) -> Seq<Embedding>
    decreases batches.len(),
{
    if batches.len() == 0 {
        seq![]
    } else {
        written(batches.drop_last()) + batches.last()
    }
}

/// Rows added to the store take no revision back into the backlog, and the
/// backlog loses revision `revision_id` where the new rows record it.
proof fn lemma_backlog_shrinks(
    revisions: Seq<Revision>,
    rows: Seq<Embedding>,
    batch: Seq<Embedding>,
    model: Seq<char>,
    revision_id: i64,
)
    requires
        indexes(batch, revision_id, model),
    ensures
        unindexed(revisions, rows + batch, model).len() <= unindexed(revisions, rows, model).len(),
        (exists|i: int|
            0 <= i < unindexed(revisions, rows, model).len() && (#[trigger] unindexed(
                revisions,
                rows,
                model,
            )[i]).revision_id == revision_id) ==> unindexed(revisions, rows + batch, model).len()
            < unindexed(revisions, rows, model).len(),
    decreases revisions.len(),
{
    if revisions.len() > 0 {
        let init = revisions.drop_last();
        let last = revisions.last();
        let all = rows + batch;
        lemma_backlog_shrinks(init, rows, batch, model, revision_id);
        if indexed_by(rows, last.revision_id, model) {
            let k = choose|k: int|
                0 <= k < rows.len() && (#[trigger] rows[k]).revision_id == last.revision_id
                    && rows[k].model_name@ == model;
            assert(all[k] == rows[k]);
            assert(indexed_by(all, last.revision_id, model));
        }
        if last.revision_id == revision_id {
            assert(all[rows.len() as int] == batch[0]);
            assert(indexed_by(all, last.revision_id, model));
        }
        let before = unindexed(revisions, rows, model);
        let rest = unindexed(init, rows, model);
        if exists|i: int|
            0 <= i < before.len() && (#[trigger] before[i]).revision_id == revision_id {
            let i = choose|i: int| 0 <= i < before.len() && (#[trigger] before[i]).revision_id == revision_id;
            if i < rest.len() {
                assert(before[i] == rest[i]);
            }
        }
    }
}

/// Batch `k` records some revision that was in the backlog when it was
/// written, after the batches before it.
pub open spec fn drains_one(
    revisions: Seq<Revision>,
    batches: Seq<Seq<Embedding>>,
    model: Seq<char>,
    k: int,
) -> bool {
    let backlog = unindexed(revisions, written(batches.take(k)), model);
    exists|i: int| 0 <= i < backlog.len() && indexes(batches[k], #[trigger] backlog[i].revision_id, model)
}

/// The indexer drains the backlog: starting from a store with no embedding
/// rows, once it has written one batch per revision, each batch recording
/// some revision that was in the backlog when it was written, no revision is
/// left without rows.
pub proof fn lemma_backlog_drains(
    revisions: Seq<Revision>,
    batches: Seq<Seq<Embedding>>,
    model: Seq<char>,
)
    requires
        batches.len() == revisions.len(),
        forall|k: int| 0 <= k < batches.len() ==> #[trigger] drains_one(revisions, batches, model, k),
    ensures
        unindexed(revisions, written(batches), model).len() == 0,
{
    lemma_backlog_bound(revisions, batches, model, batches.len() as int);
    assert(batches.take(batches.len() as int) =~= batches);
}

proof fn lemma_unindexed_len(revisions: Seq<Revision>, rows: Seq<Embedding>, model: Seq<char>)
    ensures
        unindexed(revisions, rows, model).len() <= revisions.len(),
    decreases revisions.len(),
{
    if revisions.len() > 0 {
        lemma_unindexed_len(revisions.drop_last(), rows, model);
    }
}

proof fn lemma_backlog_bound(
    revisions: Seq<Revision>,
    batches: Seq<Seq<Embedding>>,
    model: Seq<char>,
    k: int,
)
    requires
        0 <= k <= batches.len(),
        forall|k: int| 0 <= k < batches.len() ==> #[trigger] drains_one(revisions, batches, model, k),
    ensures
        unindexed(revisions, written(batches.take(k)), model).len() + k <= revisions.len(),
    decreases k,
{
    if k == 0 {
        lemma_unindexed_len(revisions, written(batches.take(0)), model);
    } else {
        let j = k - 1;
        lemma_backlog_bound(revisions, batches, model, j);
        let rows = written(batches.take(j));
        assert(batches.take(k).drop_last() =~= batches.take(j));
        assert(batches.take(k).last() == batches[j]);
        assert(written(batches.take(k)) == rows + batches[j]);
        let before = unindexed(revisions, rows, model);
        assert(drains_one(revisions, batches, model, j));
        let i = choose|i: int|
            0 <= i < before.len() && indexes(batches[j], #[trigger] before[i].revision_id, model);
        lemma_backlog_shrinks(revisions, rows, batches[j], model, before[i].revision_id);
    }
}

/// A problem within a prefix is the first problem of the whole.
proof fn lemma_first_problem_prefix(vectors: Seq<Seq<u16>>, passages: Seq<Span>, i: int)
    requires
        0 <= i <= vectors.len(),
        first_problem(vectors.take(i), passages) is Some,
    ensures
        first_problem(vectors, passages) == first_problem(vectors.take(i), passages),
    decreases vectors.len() - i,
{
    if i < vectors.len() {
        assert(vectors.take(i + 1).drop_last() =~= vectors.take(i));
        lemma_first_problem_prefix(vectors, passages, i + 1);
    } else {
        assert(vectors.take(i) =~= vectors);
    }
}

} // verus!
