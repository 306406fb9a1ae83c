use cooklang_find::entry::{find_title_image, RecipeEntry};

fn no_files() -> Vec<String> {
    Vec::new()
}

#[test]
fn recipe_entry_test_recipe_from_content() {
    let content = "---\ntitle: Test Recipe\nservings: 4\n---\n\nTest recipe content from string";

    let recipe =
        RecipeEntry::from_content(content.to_string(), Some("my_recipe".to_string())).unwrap();
    assert_eq!(recipe.name().as_ref().unwrap(), "Test Recipe"); // Title takes precedence
    assert!(recipe.path().is_none());
    assert!(recipe.title_image(&no_files()).is_none());
    assert_eq!(recipe.content().unwrap(), content);
    assert_eq!(recipe.metadata().servings().unwrap(), 4);
}

#[test]
fn test_recipe_with_metadata_image() {
    let content =
        "---\ntitle: Test Recipe\nimage: https://example.com/recipe.jpg\n---\n\nTest recipe content";

    let recipe = RecipeEntry::from_content(content.to_string(), None).unwrap();
    assert_eq!(
        recipe.title_image(&no_files()).as_ref().unwrap(),
        "https://example.com/recipe.jpg"
    );
}

#[test]
fn test_recipe_with_metadata_images_array() {
    let content = "---\ntitle: Test Recipe\nimages:\n  - https://example.com/recipe1.jpg\n  - https://example.com/recipe2.jpg\n---\n\nTest recipe content";

    let recipe = RecipeEntry::from_content(content.to_string(), None).unwrap();
    // Should return the first image from the array
    assert_eq!(
        recipe.title_image(&no_files()).as_ref().unwrap(),
        "https://example.com/recipe1.jpg"
    );
}

#[test]
fn test_recipe_with_metadata_picture() {
    let content =
        "---\ntitle: Test Recipe\npicture: https://example.com/pic.png\n---\n\nTest recipe content";

    let recipe = RecipeEntry::from_content(content.to_string(), None).unwrap();
    assert_eq!(
        recipe.title_image(&no_files()).as_ref().unwrap(),
        "https://example.com/pic.png"
    );
}

#[test]
fn test_recipe_with_metadata_pictures_array() {
    let content = "---\ntitle: Test Recipe\npictures:\n  - https://example.com/pic1.png\n  - https://example.com/pic2.png\n---\n\nTest recipe content";

    let recipe = RecipeEntry::from_content(content.to_string(), None).unwrap();
    assert_eq!(
        recipe.title_image(&no_files()).as_ref().unwrap(),
        "https://example.com/pic1.png"
    );
}

#[test]
fn test_recipe_from_content_no_title() {
    let content = "---\nservings: 2\n---\n\nTest recipe content";

    let recipe =
        RecipeEntry::from_content(content.to_string(), Some("content_recipe".to_string()))
            .unwrap();
    assert_eq!(recipe.name().as_ref().unwrap(), "content_recipe");
    assert!(recipe.path().is_none());
}

#[test]
fn test_recipe_from_content_no_name() {
    let content = "Just recipe content";

    let recipe = RecipeEntry::from_content(content.to_string(), None).unwrap();
    assert!(recipe.name().is_none());
    assert!(recipe.path().is_none());
    assert!(recipe.file_name().is_none());
}

#[test]
fn recipe_entry_test_find_title_image_no_image() {
    let files = no_files();
    assert!(find_title_image("/tmp/test_recipe.cook", &files).is_none());
}

#[test]
fn recipe_entry_test_find_title_image_all_extensions() {
    // Test each supported extension
    for ext in ["jpg", "jpeg", "png", "webp"] {
        let image_path = format!("/tmp/test_recipe.{ext}");
        let files = vec![image_path.clone()];
        let found = find_title_image("/tmp/test_recipe.cook", &files);

        assert!(found.is_some(), "Failed to find image with extension {ext}");
        assert_eq!(found.unwrap(), image_path);
    }
}

#[test]
fn recipe_entry_test_find_title_image_multiple_images() {
    // Images with different extensions exist beside the recipe
    let jpg_path = "/tmp/test_recipe.jpg".to_string();
    let files = vec![
        jpg_path.clone(),
        "/tmp/test_recipe.png".to_string(),
        "/tmp/test_recipe.webp".to_string(),
    ];

    // Should return the first matching extension (jpg)
    let found_image = find_title_image("/tmp/test_recipe.cook", &files);
    assert!(found_image.is_some());
    assert_eq!(found_image.unwrap(), jpg_path);
}

#[test]
fn test_entry_from_path_text_title_overrides_stem() {
    let content = "---\ntitle: My Special Recipe\nservings: 4\n---\n\nbody";
    let recipe = RecipeEntry::from_path_text("/tmp/test_recipe.cook".to_string(), content);
    assert_eq!(recipe.name().as_ref().unwrap(), "My Special Recipe");
    assert_eq!(recipe.metadata().servings(), Some(4));
    assert_eq!(recipe.file_name().unwrap(), "test_recipe.cook");
    assert_eq!(recipe.path().unwrap(), "/tmp/test_recipe.cook");
}

#[test]
fn test_entry_name_falls_back_to_stem() {
    let content = "---\nservings: 4\n---\n\nbody";
    let recipe = RecipeEntry::from_path_text("/tmp/test_recipe.cook".to_string(), content);
    assert_eq!(recipe.name().as_ref().unwrap(), "test_recipe");
}

#[test]
fn test_entry_is_menu() {
    let menu = RecipeEntry::from_path_text("/tmp/weekly.menu".to_string(), "body");
    assert!(menu.is_menu());
    let cook = RecipeEntry::from_path_text("/tmp/weekly.cook".to_string(), "body");
    assert!(!cook.is_menu());
    let content = RecipeEntry::from_content("body".to_string(), None).unwrap();
    assert!(!content.is_menu());
}

#[test]
fn test_entry_malformed_frontmatter_is_empty() {
    let content = "---\ninvalid: yaml: content:\n---\n\nbody";
    let recipe = RecipeEntry::from_content(content.to_string(), None).unwrap();
    assert!(recipe.name().is_none());
    assert!(recipe.metadata().servings().is_none());
    assert!(recipe.metadata().title().is_none());
}

#[test]
fn test_entry_frontmatter_budget_exceeded() {
    let mut content = String::from("---\n");
    for i in 0..40 {
        content.push_str(&format!("key{i}: {i}\n"));
    }
    content.push_str("---\n\nbody");
    let recipe = RecipeEntry::from_content(content, None).unwrap();
    // too long a block counts as no frontmatter at all
    assert!(recipe.metadata().get("key0").is_none());
}
