use cooklang_find::paths::{
    extension, file_name, file_stem, join_path, parent_dir, split_components, strip_prefix,
    with_extension,
};

#[test]
fn test_path_file_name_and_stem() {
    assert_eq!(file_name("/a/b/test_recipe.cook").unwrap(), "test_recipe.cook");
    assert_eq!(file_stem("/a/b/test_recipe.cook").unwrap(), "test_recipe");
    assert_eq!(file_stem("plain").unwrap(), "plain");
    assert_eq!(file_stem(".hidden").unwrap(), ".hidden");
    assert_eq!(file_stem("a.b.c").unwrap(), "a.b");
    assert!(file_name("/a/b/").is_none());
}

#[test]
fn test_path_extension() {
    assert_eq!(extension("/a/recipe.cook").unwrap(), "cook");
    assert_eq!(extension("weekly.menu").unwrap(), "menu");
    assert!(extension("/a/plain").is_none());
    assert!(extension(".hidden").is_none());
}

#[test]
fn test_path_with_extension() {
    assert_eq!(with_extension("/a/recipe.cook", "jpg"), "/a/recipe.jpg");
    assert_eq!(with_extension("/a/plain", "jpg"), "/a/plain.jpg");
    assert_eq!(with_extension("a.b.c", "x"), "a.b.x");
}

#[test]
fn test_path_join() {
    assert_eq!(join_path("/a/b", "c.cook"), "/a/b/c.cook");
    assert_eq!(join_path("/a/b/", "c.cook"), "/a/b/c.cook");
    assert_eq!(join_path("/a", "/abs/c"), "/abs/c");
    assert_eq!(join_path("", "c"), "c");
}

#[test]
fn test_path_parent() {
    assert_eq!(parent_dir("/a/b/c.cook"), "/a/b");
    assert_eq!(parent_dir("/c.cook"), "/");
    assert_eq!(parent_dir("c.cook"), "");
}

#[test]
fn test_path_strip_prefix() {
    assert_eq!(strip_prefix("/a/b/c.cook", "/a/b").unwrap(), "c.cook");
    assert_eq!(strip_prefix("/a/b/c.cook", "/a/b/").unwrap(), "c.cook");
    assert_eq!(strip_prefix("/a/b", "/a/b").unwrap(), "");
    assert!(strip_prefix("/x/c.cook", "/a").is_none());
}

#[test]
fn test_path_split_components() {
    assert_eq!(split_components("a/b/c"), vec!["a", "b", "c"]);
    assert_eq!(split_components("a//b/"), vec!["a", "b"]);
    let none: Vec<String> = Vec::new();
    assert_eq!(split_components(""), none);
}
