use cooklang_find::related::{extract_references, related_files, resolve_reference, FsSnapshot};

#[test]
fn test_extract_references_basic() {
    let text = "Start with @./sauce.cook then add @../shared/stock{} and more";
    let refs = extract_references(text);
    assert_eq!(refs, vec!["./sauce.cook", "../shared/stock"]);
}

#[test]
fn test_extract_references_dedup_first_seen() {
    let text = "@./a.cook then @./b.cook then @./a.cook again";
    let refs = extract_references(text);
    assert_eq!(refs, vec!["./a.cook", "./b.cook"]);
}

#[test]
fn test_extract_references_ignores_plain_mentions() {
    let text = "Add @salt{1%tsp} and @pepper{1%tsp}";
    let refs = extract_references(text);
    assert!(refs.is_empty());
}

#[test]
fn test_resolve_reference_appends_cook() {
    assert_eq!(resolve_reference("/r/sub", "./stock"), "/r/sub/stock.cook");
    assert_eq!(resolve_reference("/r/sub", "./stock.cook"), "/r/sub/stock.cook");
    assert_eq!(resolve_reference("/r/sub", "../img.jpg"), "/r/img.jpg");
}

#[test]
fn test_related_files_cycle() {
    // A references B, B references A: the closure terminates and holds
    // exactly the one file reached by following A's reference
    let a_text = "Use @./B.cook here";
    let b_text = "Use @./A.cook back";
    let mut snap = FsSnapshot::new();
    snap.add_file("/r/A.cook".to_string(), Some(a_text.to_string()));
    snap.add_file("/r/B.cook".to_string(), Some(b_text.to_string()));
    snap.add_dir(
        "/r".to_string(),
        vec!["/r/A.cook".to_string(), "/r/B.cook".to_string()],
    );
    let result = related_files("/r/A.cook", a_text, &snap).unwrap();
    assert_eq!(result, vec!["/r/B.cook"]);
}

#[test]
fn test_related_files_self_reference() {
    let a_text = "Use @./A.cook on itself";
    let mut snap = FsSnapshot::new();
    snap.add_file("/r/A.cook".to_string(), Some(a_text.to_string()));
    snap.add_dir("/r".to_string(), vec!["/r/A.cook".to_string()]);
    let result = related_files("/r/A.cook", a_text, &snap).unwrap();
    assert!(result.is_empty());
}

#[test]
fn test_related_files_images_and_references() {
    let a_text = "Main with @./side.cook";
    let side_text = "A side";
    let mut snap = FsSnapshot::new();
    snap.add_file("/r/main.cook".to_string(), Some(a_text.to_string()));
    snap.add_file("/r/side.cook".to_string(), Some(side_text.to_string()));
    snap.add_dir(
        "/r".to_string(),
        vec![
            "/r/main.cook".to_string(),
            "/r/main.jpg".to_string(),
            "/r/main.1.jpg".to_string(),
            "/r/side.cook".to_string(),
            "/r/side.png".to_string(),
        ],
    );
    let result = related_files("/r/main.cook", a_text, &snap).unwrap();
    // the entry's own images first, then the followed document and its
    // images
    assert_eq!(
        result,
        vec!["/r/main.jpg", "/r/main.1.jpg", "/r/side.cook", "/r/side.png"]
    );
}

#[test]
fn test_related_files_missing_reference_dropped() {
    let a_text = "Main with @./gone.cook";
    let mut snap = FsSnapshot::new();
    snap.add_file("/r/main.cook".to_string(), Some(a_text.to_string()));
    snap.add_file("/r/gone.cook".to_string(), None);
    snap.add_dir("/r".to_string(), vec!["/r/main.cook".to_string()]);
    let result = related_files("/r/main.cook", a_text, &snap).unwrap();
    assert!(result.is_empty());
}

#[test]
fn test_related_files_asks_for_missing_pieces() {
    let a_text = "Main with @./side.cook";
    let snap = FsSnapshot::new();
    // nothing known yet: the listing of the starting directory is asked
    // for first
    assert!(related_files("/r/main.cook", a_text, &snap).is_err());
}
