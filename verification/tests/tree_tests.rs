use cooklang_find::entry::RecipeEntry;
use cooklang_find::tree::{build_tree_from_entries, RecipeTree, TreeError};

fn entry_at(path: &str) -> (String, RecipeEntry) {
    (
        path.to_string(),
        RecipeEntry::from_path_text(path.to_string(), "---\nservings: 4\n---\n\nbody"),
    )
}

#[test]
fn test_recipe_tree_new() {
    let tree = RecipeTree::new("test".to_string(), "/test/path".to_string());

    assert_eq!(tree.name, "test");
    assert_eq!(tree.path, "/test/path");
    assert!(tree.recipe.is_none());
    assert!(tree.children.is_empty());
}

#[test]
fn test_recipe_tree_new_with_recipe() {
    let recipe = RecipeEntry::from_path_text(
        "/r/test_recipe.cook".to_string(),
        "---\nservings: 4\n---\n\nTest recipe",
    );
    let tree = RecipeTree::new_with_recipe(
        "test_recipe".to_string(),
        "/r/test_recipe.cook".to_string(),
        recipe,
    );

    assert_eq!(tree.name, "test_recipe");
    assert!(tree.recipe.is_some());
    assert!(tree.children.is_empty());
}

#[test]
fn test_tree_empty_directory() {
    let tree = build_tree_from_entries("/base/recipes", true, true, Vec::new()).unwrap();
    assert_eq!(tree.name, "recipes");
    assert_eq!(tree.path, "/base/recipes");
    assert!(tree.recipe.is_none());
    assert!(tree.children.is_empty());
}

#[test]
fn test_tree_single_recipe() {
    let tree = build_tree_from_entries(
        "/base",
        true,
        true,
        vec![entry_at("/base/pancakes.cook")],
    )
    .unwrap();
    assert_eq!(tree.children.len(), 1);
    let node = tree.get_child("pancakes").unwrap();
    assert_eq!(node.name, "pancakes");
    assert!(node.recipe.is_some());
    assert!(node.children.is_empty());
}

#[test]
fn test_tree_two_directories() {
    // a/pancakes.cook and b/cake.cook: a root with two directory nodes,
    // one leaf each, and no leaf directly under the root
    let tree = build_tree_from_entries(
        "/base",
        true,
        true,
        vec![entry_at("/base/a/pancakes.cook"), entry_at("/base/b/cake.cook")],
    )
    .unwrap();
    assert_eq!(tree.children.len(), 2);
    let a = tree.get_child("a").unwrap();
    assert!(a.recipe.is_none());
    assert_eq!(a.children.len(), 1);
    assert!(a.get_child("pancakes").unwrap().recipe.is_some());
    let b = tree.get_child("b").unwrap();
    assert!(b.recipe.is_none());
    assert_eq!(b.children.len(), 1);
    assert!(b.get_child("cake").unwrap().recipe.is_some());
    // no recipe leaf directly under the root
    assert!(tree.recipe.is_none());
    for (_, child) in &tree.children {
        assert!(child.recipe.is_none());
    }
}

#[test]
fn test_tree_deeply_nested_recipe() {
    let tree = build_tree_from_entries(
        "/base",
        true,
        true,
        vec![entry_at("/base/a/b/c/d/deep_recipe.cook")],
    )
    .unwrap();
    let a = tree.get_child("a").unwrap();
    let b = a.get_child("b").unwrap();
    let c = b.get_child("c").unwrap();
    let d = c.get_child("d").unwrap();
    let leaf = d.get_child("deep_recipe").unwrap();
    assert!(leaf.recipe.is_some());
    assert_eq!(leaf.name, "deep_recipe");
}

#[test]
fn test_tree_missing_directory() {
    let r = build_tree_from_entries("/nonexistent/directory", false, false, Vec::new());
    assert!(matches!(r, Err(TreeError::DirectoryNotFound(_))));
}

#[test]
fn test_tree_not_a_directory() {
    let r = build_tree_from_entries("/some/file.txt", true, false, Vec::new());
    assert!(matches!(r, Err(TreeError::NotADirectory(_))));
}

#[test]
fn test_tree_path_outside_base() {
    let r = build_tree_from_entries(
        "/base",
        true,
        true,
        vec![entry_at("/elsewhere/pancakes.cook")],
    );
    assert!(matches!(r, Err(TreeError::StripPrefixError(_))));
}

#[test]
fn test_tree_leaf_named_by_title() {
    let entry = RecipeEntry::from_path_text(
        "/base/pancakes.cook".to_string(),
        "---\ntitle: Fluffy Pancakes\n---\n\nbody",
    );
    let tree = build_tree_from_entries(
        "/base",
        true,
        true,
        vec![("/base/pancakes.cook".to_string(), entry)],
    )
    .unwrap();
    assert!(tree.get_child("Fluffy Pancakes").unwrap().recipe.is_some());
}

#[test]
fn test_tree_recipe_at_path() {
    let tree = build_tree_from_entries(
        "/base",
        true,
        true,
        vec![entry_at("/base/breakfast/pancakes.cook")],
    )
    .unwrap();
    let found = tree.get_recipe_at_path(&vec![
        "breakfast".to_string(),
        "pancakes".to_string(),
    ]);
    assert!(found.is_some());
    let missing = tree.get_recipe_at_path(&vec!["dinner".to_string()]);
    assert!(missing.is_none());
}
