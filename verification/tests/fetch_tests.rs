use cooklang_find::fetch::{fetch_candidates, select_existing};

#[test]
fn test_fetch_candidates_without_extension() {
    let roots = vec!["/r1".to_string(), "/r2".to_string()];
    let cands = fetch_candidates(&roots, "pancakes");
    assert_eq!(
        cands,
        vec![
            "/r1/pancakes.cook",
            "/r1/pancakes.menu",
            "/r2/pancakes.cook",
            "/r2/pancakes.menu",
        ]
    );
}

#[test]
fn test_fetch_candidates_with_extension() {
    let roots = vec!["/r1".to_string(), "/r2".to_string()];
    let cands = fetch_candidates(&roots, "weekly.menu");
    assert_eq!(cands, vec!["/r1/weekly.menu", "/r2/weekly.menu"]);
}

#[test]
fn test_fetch_root_priority() {
    // both roots hold pancakes.cook: the first root's file is picked
    let roots = vec!["/r1".to_string(), "/r2".to_string()];
    let cands = fetch_candidates(&roots, "pancakes");
    let paired: Vec<(String, bool)> = cands
        .into_iter()
        .map(|p| {
            let exists = p == "/r1/pancakes.cook" || p == "/r2/pancakes.cook";
            (p, exists)
        })
        .collect();
    let i = select_existing(&paired).unwrap();
    assert_eq!(paired[i].0, "/r1/pancakes.cook");
    assert!(paired[i].0.starts_with("/r1"));
}

#[test]
fn test_fetch_cook_before_menu() {
    let roots = vec!["/r1".to_string()];
    let cands = fetch_candidates(&roots, "pancakes");
    let paired: Vec<(String, bool)> = cands.into_iter().map(|p| (p, true)).collect();
    let i = select_existing(&paired).unwrap();
    assert_eq!(paired[i].0, "/r1/pancakes.cook");
}

#[test]
fn test_fetch_nothing_found() {
    let roots = vec!["/r1".to_string()];
    let cands = fetch_candidates(&roots, "nonexistent");
    let paired: Vec<(String, bool)> = cands.into_iter().map(|p| (p, false)).collect();
    assert!(select_existing(&paired).is_none());
}

#[test]
fn test_fetch_no_roots() {
    let roots: Vec<String> = Vec::new();
    let cands = fetch_candidates(&roots, "recipe");
    assert!(cands.is_empty());
    let paired: Vec<(String, bool)> = Vec::new();
    assert!(select_existing(&paired).is_none());
}
