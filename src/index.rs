//! The index snapshot: one vector per indexed passage and the document that
//! owns it. A snapshot is built whole and never changed.
use vstd::prelude::*;
use crate::models::Embedding;

verus! {

/// The number of components of every stored vector.
pub const EMBEDDING_SIZE: usize = 64;

/// The model version whose vectors the index holds.
pub const LATEST_MODEL_NAME: &'static str = "nomic-embed-text-v1.5-truncate-64";

/// Why a snapshot, a ranking or a batch of embedding rows cannot be built.
#[derive(Debug, Clone, Copy, PartialEq, Eq, Structural)]
pub enum IndexError {
    /// `found` vectors (or similarities) came for `expected` rows (document
    /// ids, passages or snapshot rows).
    CountMismatch { found: usize, expected: usize },
    /// The vector at `row` has `len` components, not `EMBEDDING_SIZE`.
    DimensionMismatch { row: usize, len: usize },
    /// The passage at `row` ends past the largest offset a row can store.
    OffsetOverflow { row: usize },
}

/// The position of the first vector that does not have `EMBEDDING_SIZE`
/// components, if any.
pub open spec fn first_bad_row(vectors: Seq<Seq<u16>>) -> Option<int>
    decreases vectors.len(),
{
    if vectors.len() == 0 {
        None
    } else {
        match first_bad_row(vectors.drop_last()) {
            Some(i) => Some(i),
            None => if vectors.last().len() != EMBEDDING_SIZE {
                Some(vectors.len() - 1)
            } else {
                None
            },
        }
    }
}

proof fn lemma_first_bad_row(vectors: Seq<Seq<u16>>)
    ensures
        first_bad_row(vectors) is None ==> forall|i: int|
            0 <= i < vectors.len() ==> #[trigger] vectors[i].len() == EMBEDDING_SIZE,
        first_bad_row(vectors) matches Some(i) ==> 0 <= i < vectors.len() && vectors[i].len()
            != EMBEDDING_SIZE && forall|j: int| 0 <= j < i ==> #[trigger] vectors[j].len()
            == EMBEDDING_SIZE,
    decreases vectors.len(),
{
    if vectors.len() > 0 {
        let init = vectors.drop_last();
        lemma_first_bad_row(init);
        assert forall|i: int| 0 <= i < init.len() implies #[trigger] init[i] == vectors[i] by {}
        match first_bad_row(init) {
            Some(i) => {
                assert(init[i] == vectors[i]);
                assert forall|j: int| 0 <= j < i implies #[trigger] vectors[j].len()
                    == EMBEDDING_SIZE by {
                    assert(init[j] == vectors[j]);
                }
            },
            None => {
                assert forall|j: int| 0 <= j < vectors.len() - 1 implies #[trigger] vectors[j].len()
                    == EMBEDDING_SIZE by {
                    assert(init[j] == vectors[j]);
                }
            },
        }
    }
}

/// The first vector without `EMBEDDING_SIZE` components is at `i` where the
/// vector at `i` is such and none before it is.
proof fn lemma_first_bad_row_at(vectors: Seq<Seq<u16>>, i: int)
    requires
        0 <= i < vectors.len(),
        vectors[i].len() != EMBEDDING_SIZE,
        forall|j: int| 0 <= j < i ==> #[trigger] vectors[j].len() == EMBEDDING_SIZE,
    ensures
        first_bad_row(vectors) == Some(i),
{
    lemma_first_bad_row(vectors);
    match first_bad_row(vectors) {
        Some(k) => {
            if k < i {
                assert(vectors[k].len() == EMBEDDING_SIZE);
            } else if k > i {
                assert(vectors[i].len() == EMBEDDING_SIZE);
            }
        },
        None => {
            assert(vectors[i].len() == EMBEDDING_SIZE);
        },
    }
}

/// The vectors of embedding rows.
pub open spec fn vectors_of(rows: Seq<Embedding>) -> Seq<Seq<u16>> {
    rows.map_values(|e: Embedding| e.embedding@)
}

/// The owning documents of embedding rows.
pub open spec fn owners_of(rows: Seq<Embedding>) -> Seq<i64> {
    rows.map_values(|e: Embedding| e.recipe_id)
}

/// The vectors held by `v`.
pub open spec fn vectors_in(v: Seq<Vec<u16>>) -> Seq<Seq<u16>> {
    v.map_values(|x: Vec<u16>| x@)
}

/// What a snapshot holds: row `i` is `vectors[i]`, owned by document `ids[i]`.
pub struct IndexView {
    pub vectors: Seq<Seq<u16>>,
    pub ids: Seq<i64>,
}

/// The snapshot built from the embedding rows `rows`, in their order.
pub open spec fn index_of(rows: Seq<Embedding>) -> IndexView {
    IndexView { vectors: vectors_of(rows), ids: owners_of(rows) }
}

/// What a refresh leaves: `current` where the store holds as many rows as it
/// has, else the snapshot of the rows listed from the store; a rebuild that
/// fails on a malformed row leaves `current`.
pub open spec fn refreshed(current: IndexView, stored: Seq<Embedding>) -> IndexView {
    if stored.len() == current.ids.len() {
        current
    } else if first_bad_row(vectors_of(stored)) is None {
        index_of(stored)
    } else {
        current
    }
}

/// A snapshot of the index: a dense matrix of vectors, one row per indexed
/// passage, and the document that owns each row.
pub struct DocumentIndex {
    embeddings: Vec<Vec<u16>>,
    recipe_ids: Vec<i64>,
}

impl View for DocumentIndex {
    type V = IndexView;

    closed spec fn view(&self) -> IndexView {
        IndexView { vectors: vectors_in(self.embeddings@), ids: self.recipe_ids@ }
    }
}

impl DocumentIndex {
    /// As many rows as ids, and every row has `EMBEDDING_SIZE` components.
    pub open spec fn wf(&self) -> bool {
        &&& self@.vectors.len() == self@.ids.len()
        &&& forall|i: int|
            0 <= i < self@.vectors.len() ==> #[trigger] self@.vectors[i].len() == EMBEDDING_SIZE
    }

    /// The snapshot with no row.
    pub fn empty() -> (r: DocumentIndex)
        ensures
            r.wf(),
            r@.ids.len() == 0,
            r@.vectors.len() == 0,
    {
        DocumentIndex { embeddings: Vec::new(), recipe_ids: Vec::new() }
    }

    /// A snapshot whose row `i` is `embeddings[i]`, owned by `recipe_ids[i]`.
    ///
    /// Fails where the two differ in length, or where a vector does not have
    /// `EMBEDDING_SIZE` components; a vector is never cut or padded.
    pub fn with_embeddings(embeddings: Vec<Vec<u16>>, recipe_ids: Vec<i64>) -> (r: Result<
        DocumentIndex,
        IndexError,
    >)
        ensures
            embeddings@.len() != recipe_ids@.len() ==> r == Err::<DocumentIndex, IndexError>(
                IndexError::CountMismatch {
                    found: embeddings@.len() as usize,
                    expected: recipe_ids@.len() as usize,
                },
            ),
            embeddings@.len() == recipe_ids@.len() ==> match first_bad_row(
                vectors_in(embeddings@),
            ) {
                Some(i) => r == Err::<DocumentIndex, IndexError>(
                    IndexError::DimensionMismatch {
                        row: i as usize,
                        len: embeddings@[i]@.len() as usize,
                    },
                ),
                None => r matches Ok(ix) && ix.wf() && ix@ == (IndexView {
                    vectors: vectors_in(embeddings@),
                    ids: recipe_ids@,
                }),
            },
    {
        if embeddings.len() != recipe_ids.len() {
            return Err(
                IndexError::CountMismatch { found: embeddings.len(), expected: recipe_ids.len() },
            );
        }
        let ghost vs = vectors_in(embeddings@);
        proof {
            lemma_first_bad_row(vs);
        }
        let mut i: usize = 0;
        while i < embeddings.len()
            invariant
                i <= embeddings@.len(),
                embeddings@.len() == recipe_ids@.len(),
                vs == vectors_in(embeddings@),
                forall|j: int| 0 <= j < i ==> #[trigger] vs[j].len() == EMBEDDING_SIZE,
            decreases embeddings@.len() - i,
        {
            assert(vs[i as int] == embeddings@[i as int]@);
            if embeddings[i].len() != EMBEDDING_SIZE {
                proof {
                    lemma_first_bad_row_at(vs, i as int);
                }
                return Err(IndexError::DimensionMismatch { row: i, len: embeddings[i].len() });
            }
            i += 1;
        }
        Ok(DocumentIndex { embeddings, recipe_ids })
    }

    /// The snapshot of the embedding rows `rows`: row `i` is the vector of
    /// `rows[i]`, owned by its recipe.
    ///
    /// Fails on the first row whose vector does not have `EMBEDDING_SIZE`
    /// components.
    pub fn from_embeddings(rows: &Vec<Embedding>) -> (r: Result<DocumentIndex, IndexError>)
        ensures
            match first_bad_row(vectors_of(rows@)) {
                Some(i) => r == Err::<DocumentIndex, IndexError>(
                    IndexError::DimensionMismatch {
                        row: i as usize,
                        len: rows@[i].embedding@.len() as usize,
                    },
                ),
                None => r matches Ok(ix) && ix.wf() && ix@ == index_of(rows@),
            },
    {
        let ghost vs = vectors_of(rows@);
        proof {
            lemma_first_bad_row(vs);
        }
        let mut embeddings: Vec<Vec<u16>> = Vec::new();
        let mut recipe_ids: Vec<i64> = Vec::new();
        let mut i: usize = 0;
        while i < rows.len()
            invariant
                i <= rows@.len(),
                vs == vectors_of(rows@),
                embeddings@.len() == i,
                recipe_ids@.len() == i,
                forall|j: int| 0 <= j < i ==> #[trigger] vs[j].len() == EMBEDDING_SIZE,
                forall|j: int| 0 <= j < i ==> (#[trigger] embeddings@[j])@ == vs[j],
                forall|j: int| 0 <= j < i ==> #[trigger] recipe_ids@[j] == rows@[j].recipe_id,
            decreases rows@.len() - i,
        {
            let row = &rows[i];
            assert(vs[i as int] == rows@[i as int].embedding@);
            if row.embedding.len() != EMBEDDING_SIZE {
                proof {
                    lemma_first_bad_row_at(vs, i as int);
                }
                return Err(IndexError::DimensionMismatch { row: i, len: row.embedding.len() });
            }
            let v = row.embedding.clone();
            assert(v@ =~= vs[i as int]);
            embeddings.push(v);
            recipe_ids.push(row.recipe_id);
            i += 1;
        }
        let ix = DocumentIndex { embeddings, recipe_ids };
        assert(ix@.vectors =~= vs);
        assert(ix@.ids =~= owners_of(rows@));
        Ok(ix)
    }

    /// The number of rows.
    pub fn len(&self) -> (r: usize)
        ensures
            r == self@.ids.len(),
    {
        self.recipe_ids.len()
    }

    /// Whether a store that holds `stored_count` rows for the model calls for
    /// a rebuild: it does where the counts differ.
    pub fn needs_refresh(&self, stored_count: usize) -> (r: bool)
        ensures
            r == (stored_count != self@.ids.len()),
    {
        stored_count != self.recipe_ids.len()
    }

    /// The vectors, row by row.
    pub fn embeddings(&self) -> (r: &Vec<Vec<u16>>)
        ensures
            vectors_in(r@) == self@.vectors,
    {
        &self.embeddings
    }

    /// The owning document of each row.
    pub fn recipe_ids(&self) -> (r: &Vec<i64>)
        ensures
            r@ == self@.ids,
    {
        &self.recipe_ids
    }
}

/// The component stored little-endian in the two bytes `lo`, `hi`.
pub open spec fn le_u16(lo: u8, hi: u8) -> u16 {
    (lo as int + 256 * hi as int) as u16
}

/// The components of a vector stored as little-endian byte pairs; a trailing
/// odd byte is ignored.
pub fn vector_from_le_bytes(bytes: &[u8]) -> (r: Vec<u16>)
    ensures
        r@.len() == bytes@.len() / 2,
        forall|i: int|
            0 <= i < r@.len() ==> #[trigger] r@[i] == le_u16(bytes@[2 * i], bytes@[2 * i + 1]),
{
    let len = bytes.len();
    let n = len / 2;
    let mut r: Vec<u16> = Vec::new();
    let mut i: usize = 0;
    while i < n
        invariant
            i <= n,
            len == bytes@.len(),
            n == bytes@.len() / 2,
            r@.len() == i,
            forall|j: int|
                0 <= j < i ==> #[trigger] r@[j] == le_u16(bytes@[2 * j], bytes@[2 * j + 1]),
        decreases n - i,
    {
        assert(2 * (i as int) + 1 < bytes@.len()) by (nonlinear_arith)
            requires
                i < n,
                n == bytes@.len() / 2,
        ;
        let lo = bytes[2 * i];
        let hi = bytes[2 * i + 1];
        r.push(lo as u16 + 256 * (hi as u16));
        i += 1;
    }
    r
}

/// The bytes that store a vector: each component little-endian.
pub fn vector_to_le_bytes(vector: &Vec<u16>) -> (r: Vec<u8>)
    ensures
        r@.len() == 2 * vector@.len(),
        forall|i: int|
            0 <= i < vector@.len() ==> le_u16(#[trigger] r@[2 * i], r@[2 * i + 1]) == vector@[i],
{
    let mut r: Vec<u8> = Vec::new();
    let mut i: usize = 0;
    while i < vector.len()
        invariant
            i <= vector@.len(),
            r@.len() == 2 * i,
            forall|j: int| 0 <= j < i ==> le_u16(#[trigger] r@[2 * j], r@[2 * j + 1]) == vector@[j],
        decreases vector@.len() - i,
    {
        let c = vector[i];
        r.push((c % 256) as u8);
        r.push((c / 256) as u8);
        assert(r@[2 * i as int] == c % 256 && r@[2 * i as int + 1] == c / 256);
        i += 1;
    }
    r
}

/// A refresh is idempotent: refreshing twice against a store that did not
/// change in between leaves what the first refresh left. Where the stored rows
/// are well formed, the first refresh leaves as many rows as the store holds,
/// so the second one is a no-op by the count check.
pub proof fn lemma_refresh_idempotent(current: IndexView, stored: Seq<Embedding>)
    ensures
        refreshed(refreshed(current, stored), stored) == refreshed(current, stored),
        first_bad_row(vectors_of(stored)) is None ==> refreshed(current, stored).ids.len()
            == stored.len(),
{
}

} // verus!
