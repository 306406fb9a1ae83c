use cooklang_find::entry::{RecipeEntry, RecipeEntryError};
use cooklang_find::fetch::FetchError;
use cooklang_find::ffi::{
    collect_nodes, collect_recipes, tree_to_node, CooklangError, FfiMetadata,
};
use cooklang_find::tree::build_tree_from_entries;

#[test]
fn ffi_test_recipe_from_content() {
    let content = "---\ntitle: Test Recipe\nservings: 4\ntags: [breakfast, easy]\n---\n\nAdd @eggs{2} and mix";

    let recipe = RecipeEntry::from_content(content.to_string(), None).unwrap();
    assert_eq!(recipe.name(), Some("Test Recipe".to_string()));
    let meta = FfiMetadata::of_metadata(recipe.metadata());
    assert_eq!(meta.servings, Some(4));
    assert_eq!(meta.tags, vec!["breakfast", "easy"]);
    assert_eq!(meta.title, Some("Test Recipe".to_string()));
}

#[test]
fn test_ffi_metadata_raw_json() {
    let recipe = RecipeEntry::from_content(
        "---\nservings: 4\ntitle: Cake\n---\n\nbody".to_string(),
        None,
    )
    .unwrap();
    let meta = FfiMetadata::of_metadata(recipe.metadata());
    // keys come out in key order
    assert_eq!(meta.raw_json, "{\"servings\":4,\"title\":\"Cake\"}");
}

#[test]
fn test_ffi_metadata_raw_json_escapes() {
    let recipe = RecipeEntry::from_content(
        "---\ntitle: \"with \\\"quotes\\\" and\\nbreak\"\n---\n\nbody".to_string(),
        None,
    )
    .unwrap();
    let meta = FfiMetadata::of_metadata(recipe.metadata());
    assert_eq!(
        meta.raw_json,
        "{\"title\":\"with \\\"quotes\\\" and\\nbreak\"}"
    );
}

#[test]
fn test_ffi_metadata_raw_json_bool() {
    let recipe = RecipeEntry::from_content(
        "---\nvegan: true\n---\n\nbody".to_string(),
        None,
    )
    .unwrap();
    let meta = FfiMetadata::of_metadata(recipe.metadata());
    assert_eq!(meta.raw_json, "{\"vegan\":true}");
}

#[test]
fn test_cooklang_error_from_fetch() {
    let e = CooklangError::from_fetch_error(FetchError::InvalidPath("pancakes".to_string()));
    match e {
        CooklangError::NotFound { message } => {
            assert_eq!(message, "Recipe not found: pancakes");
        }
        _ => panic!("wrong variant"),
    }
}

#[test]
fn test_cooklang_error_from_entry() {
    let e = CooklangError::from_entry_error(RecipeEntryError::MetadataError(
        "bad".to_string(),
    ));
    assert!(matches!(e, CooklangError::ParseError { .. }));
    let msg = RecipeEntryError::ParseError("oops".to_string()).message();
    assert_eq!(msg, "Failed to parse recipe: oops");
}

#[test]
fn test_entry_error_messages() {
    assert_eq!(
        RecipeEntryError::IoError("gone".to_string()).message(),
        "Failed to read recipe file: gone"
    );
    assert_eq!(
        RecipeEntryError::InvalidPath("/x".to_string()).message(),
        "Failed to get file stem from path: /x"
    );
    assert_eq!(
        RecipeEntryError::MetadataError("bad".to_string()).message(),
        "Failed to parse recipe metadata: bad"
    );
}

#[test]
fn test_content_of_path_entry_is_io_layer_work() {
    let entry = RecipeEntry::from_path_text("/r/a.cook".to_string(), "body");
    // the library itself cannot re-read the disk
    assert!(matches!(entry.content(), Err(RecipeEntryError::IoError(_))));
}

#[test]
fn test_tree_flattening() {
    let entry = RecipeEntry::from_path_text(
        "/base/breakfast/pancakes.cook".to_string(),
        "---\ntitle: Pancakes\n---\n\nMake pancakes",
    );
    let tree = build_tree_from_entries(
        "/base",
        true,
        true,
        vec![("/base/breakfast/pancakes.cook".to_string(), entry)],
    )
    .unwrap();

    let root = tree_to_node(&tree);
    assert_eq!(root.name, "base");
    assert!(!root.has_recipe);
    assert_eq!(root.children, vec!["breakfast".to_string()]);

    let mut nodes = Vec::new();
    collect_nodes(&tree, &mut nodes);
    assert_eq!(nodes.len(), 3); // root, breakfast, the recipe leaf

    let mut recipes = Vec::new();
    collect_recipes(&tree, &mut recipes);
    assert_eq!(recipes.len(), 1);
    assert_eq!(recipes[0].name(), Some("Pancakes".to_string()));
}
