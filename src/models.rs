//! The records of the store that the index reads and hands back.
use vstd::prelude::*;

verus! {

/// A recipe: the document that searches return.
#[derive(Debug, Clone)]
pub struct Recipe {
    pub recipe_id: i64,
    pub name: String,
    pub created_on: String,
    pub thumbnail: Option<Vec<u8>>,
}

/// A tag attached to a recipe.
#[derive(Debug, Clone)]
pub struct Tag {
    pub recipe_id: i64,
    pub tag: String,
}

/// An image of a recipe, encoded as webp.
#[derive(Debug, Clone)]
pub struct Image {
    pub image_id: i64,
    pub recipe_id: i64,
    pub category: String,
    pub format: String,
    pub content_bytes: Vec<u8>,
}

/// One revision of a recipe's text; the indexer embeds its passages.
#[derive(Debug, Clone)]
pub struct Revision {
    pub revision_id: i64,
    pub recipe_id: i64,
    pub source_name: String,
    pub created_on: String,
    pub content_text: String,
    pub details: String,
    pub format: Option<String>,
    pub rendered: Option<String>,
}

/// A recipe with everything attached to it.
#[derive(Debug, Clone)]
pub struct FullRecipe {
    pub recipe: Recipe,
    pub tags: Vec<Tag>,
    pub images: Vec<Image>,
    pub revisions: Vec<Revision>,
    pub best_revision: Option<Revision>,
}

/// An embedding row: the vector of one passage of one revision.
///
/// Each component of `embedding` is the bit pattern of an IEEE 754
/// half-precision number.
#[derive(Debug, Clone)]
pub struct Embedding {
    pub embedding_id: i64,
    pub recipe_id: i64,
    pub revision_id: i64,
    pub span_start: u32,
    pub span_end: u32,
    pub created_on: String,
    pub model_name: String,
    pub embedding: Vec<u16>,
}

/// A recipe as a client uploads it.
#[derive(Debug, Clone)]
pub struct RecipeForUpload {
    pub name: String,
    pub revisions: Vec<RevisionForUpload>,
    pub images: Vec<ImageForUpload>,
    pub tags: Vec<String>,
}

/// A revision as a client uploads it.
#[derive(Debug, Clone)]
pub struct RevisionForUpload {
    pub source_name: String,
    pub content_text: String,
    pub format: String,
    pub details: Option<String>,
}

/// An image as a client uploads it.
#[derive(Debug, Clone)]
pub struct ImageForUpload {
    pub category: String,
    pub content_bytes: Vec<u8>,
}

/// The sources of a revision, from least to most trusted. Any other source
/// ranks with the first.
pub open spec fn source_rank(source: Seq<char>) -> nat {
    if source == "ocr"@ {
        1
    } else if source == "llm"@ {
        2
    } else if source == "manual"@ {
        3
    } else {
        0
    }
}

/// The position of the revision to show: the last one among those whose
/// source ranks highest, or `None` where there is no revision.
pub open spec fn best_revision_at(revisions: Seq<Revision>) -> Option<int>
    decreases revisions.len(),
{
    if revisions.len() == 0 {
        None
    } else {
        let last = revisions.len() - 1;
        match best_revision_at(revisions.drop_last()) {
            None => Some(last),
            Some(i) => if source_rank(revisions[last].source_name@) >= source_rank(
                revisions[i].source_name@,
            ) {
                Some(last)
            } else {
                Some(i)
            },
        }
    }
}

fn is_source(source: &String, name: &str) -> (r: bool)
    ensures
        r == (source@ == name@),
{
    let named = String::from_str(name);
    *source == named
}

impl Revision {
    /// How far the source of this revision is trusted.
    pub fn source_rank(&self) -> (r: usize)
        ensures
            r == source_rank(self.source_name@),
    {
        proof {
            reveal_strlit("ocr");
            reveal_strlit("llm");
            reveal_strlit("manual");
        }
        if is_source(&self.source_name, "ocr") {
            1
        } else if is_source(&self.source_name, "llm") {
            2
        } else if is_source(&self.source_name, "manual") {
            3
        } else {
            0
        }
    }
}

impl FullRecipe {
    /// The position in `revisions` of the revision to show.
    pub fn best_revision_index(revisions: &Vec<Revision>) -> (r: Option<usize>)
        ensures
            r matches Some(i) ==> best_revision_at(revisions@) == Some(i as int) && i
                < revisions@.len(),
            r is None ==> best_revision_at(revisions@) is None,
    {
        let mut best: Option<usize> = None;
        let mut best_rank: usize = 0;
        let mut i: usize = 0;
        while i < revisions.len()
            invariant
                i <= revisions@.len(),
                best is None <==> best_revision_at(revisions@.take(i as int)) is None,
                best matches Some(b) ==> best_revision_at(revisions@.take(i as int)) == Some(b as int)
                    && b < i && best_rank == source_rank(revisions@[b as int].source_name@),
            decreases revisions@.len() - i,
        {
            assert(revisions@.take(i as int + 1).drop_last() =~= revisions@.take(i as int));
            let rank = revisions[i].source_rank();
            if best.is_none() || rank >= best_rank {
                best = Some(i);
                best_rank = rank;
            }
            i += 1;
        }
        assert(revisions@.take(i as int) =~= revisions@);
        best
    }

    /// Puts a recipe together with what is attached to it; the revision to
    /// show is the one `best_revision_index` picks.
    pub fn assemble(
        recipe: Recipe,
        tags: Vec<Tag>,
        images: Vec<Image>,
        revisions: Vec<Revision>,
    ) -> (r: FullRecipe)
        ensures
            r.recipe == recipe,
            r.tags == tags,
            r.images == images,
            r.revisions == revisions,
            r.best_revision is Some <==> revisions@.len() > 0,
    {
        let best_revision = match Self::best_revision_index(&revisions) {
            Some(i) => Some(revisions[i].clone()),
            None => None,
        };
        FullRecipe { recipe, tags, images, revisions, best_revision }
    }
}

} // verus!
