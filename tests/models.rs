use gk_search::models::{FullRecipe, Recipe, Revision};

fn rev(id: i64, source: &str) -> Revision {
    Revision {
        revision_id: id,
        recipe_id: 1,
        source_name: source.to_string(),
        created_on: String::new(),
        content_text: String::new(),
        details: String::new(),
        format: None,
        rendered: None,
    }
}

#[test]
fn source_ranks() {
    assert_eq!(rev(1, "name").source_rank(), 0);
    assert_eq!(rev(1, "ocr").source_rank(), 1);
    assert_eq!(rev(1, "llm").source_rank(), 2);
    assert_eq!(rev(1, "manual").source_rank(), 3);
    assert_eq!(rev(1, "other").source_rank(), 0);
}

#[test]
fn most_trusted_revision_is_shown() {
    let revs = vec![rev(1, "ocr"), rev(2, "manual"), rev(3, "llm"), rev(4, "manual")];
    assert_eq!(FullRecipe::best_revision_index(&revs), Some(3));
    assert_eq!(FullRecipe::best_revision_index(&vec![]), None);
    let recipe = Recipe { recipe_id: 1, name: "Bread".to_string(), created_on: String::new(), thumbnail: None };
    let full = FullRecipe::assemble(recipe, vec![], vec![], revs);
    assert_eq!(full.best_revision.unwrap().revision_id, 4);
}
