use cooklang_find::metadata::{parse_yaml_content, MetaValue};

#[test]
fn test_parse_yaml_content() {
    // Test valid YAML
    let yaml_content = "title: Test Recipe\nservings: 4";
    let metadata = parse_yaml_content(yaml_content);
    assert!(metadata.is_some());
    let metadata = metadata.unwrap();
    assert_eq!(metadata.title().unwrap(), "Test Recipe");
    assert_eq!(metadata.servings().unwrap(), 4);

    // Test invalid YAML
    let yaml_content = "invalid: yaml: content:";
    let metadata = parse_yaml_content(yaml_content);
    assert!(metadata.is_none());

    // Test empty content
    let yaml_content = "";
    let metadata = parse_yaml_content(yaml_content);
    assert!(metadata.is_none());
}

#[test]
fn test_metadata_get_values() {
    let metadata = parse_yaml_content("servings: 4\ntime: 30 min\ncuisine: Italian").unwrap();
    assert_eq!(metadata.get("servings").unwrap().as_i64().unwrap(), 4);
    assert_eq!(metadata.get("time").unwrap().as_str().unwrap(), "30 min");
    assert_eq!(metadata.get("cuisine").unwrap().as_str().unwrap(), "Italian");
    assert!(metadata.get("missing").is_none());
}

#[test]
fn test_metadata_tags_from_string() {
    let metadata = parse_yaml_content("tags: \"breakfast, easy , ,vegetarian\"").unwrap();
    assert_eq!(metadata.tags(), vec!["breakfast", "easy", "vegetarian"]);
}

#[test]
fn test_metadata_tags_from_sequence() {
    let metadata = parse_yaml_content("tags:\n  - breakfast\n  - easy").unwrap();
    assert_eq!(metadata.tags(), vec!["breakfast", "easy"]);
}

#[test]
fn test_metadata_tag_key_fallback() {
    let metadata = parse_yaml_content("tag: quick").unwrap();
    assert_eq!(metadata.tags(), vec!["quick"]);
}

#[test]
fn test_metadata_value_kinds() {
    let metadata = parse_yaml_content("a: 1\nb: text\nc: 1.5\nd: true").unwrap();
    assert!(matches!(metadata.get("a"), Some(MetaValue::Int(1))));
    assert!(matches!(metadata.get("b"), Some(MetaValue::Str(_))));
    // a float is kept only as an opaque entry
    assert!(matches!(metadata.get("c"), Some(MetaValue::Other)));
    assert!(matches!(metadata.get("d"), Some(MetaValue::Bool(true))));
}
