use cooklang_find::search::{rank_candidates, search_paths, sort_results, SearchResult};

fn setup_candidates() -> Vec<(String, Option<String>)> {
    vec![
        (
            "/r/pancakes.cook".to_string(),
            Some(">> servings: 4\n\nMake delicious pancakes with @maple syrup{}".to_string()),
        ),
        (
            "/r/waffles.cook".to_string(),
            Some(">> servings: 2\n\nCrispy @waffles with @syrup".to_string()),
        ),
        (
            "/r/french_toast.cook".to_string(),
            Some(">> servings: 3\n\nClassic french toast recipe".to_string()),
        ),
        (
            "/r/breakfast/omelette.cook".to_string(),
            Some(">> servings: 1\n\n@Cheese and @mushroom omelette".to_string()),
        ),
    ]
}

#[test]
fn test_search_result_sorting() {
    let mut results = vec![
        SearchResult {
            path: "b.cook".to_string(),
            score: 10,
        },
        SearchResult {
            path: "a.cook".to_string(),
            score: 10,
        },
        SearchResult {
            path: "c.cook".to_string(),
            score: 20,
        },
    ];

    sort_results(&mut results);

    // Should be sorted by score first (highest first), then by name
    assert_eq!(results[0].path, "c.cook"); // Highest score
    assert_eq!(results[1].path, "a.cook"); // Same score, alphabetically first
    assert_eq!(results[2].path, "b.cook"); // Same score, alphabetically second
}

#[test]
fn test_search_exact_match_ranks_first() {
    let results = search_paths(&setup_candidates(), "pancakes");
    assert_eq!(results.len(), 1);
    assert_eq!(results[0], "/r/pancakes.cook");
}

#[test]
fn test_search_partial_match() {
    let results = search_paths(&setup_candidates(), "pancake");
    assert_eq!(results.len(), 1);
    assert_eq!(results[0], "/r/pancakes.cook");
}

#[test]
fn test_search_content_match() {
    let results = search_paths(&setup_candidates(), "syrup");
    assert_eq!(results.len(), 2);
    assert!(results.contains(&"/r/pancakes.cook".to_string()));
    assert!(results.contains(&"/r/waffles.cook".to_string()));
}

#[test]
fn test_search_no_matches() {
    let results = search_paths(&setup_candidates(), "nonexistent");
    assert!(results.is_empty());
}

#[test]
fn test_search_query_is_lowercased() {
    let results = search_paths(&setup_candidates(), "PANCAKES");
    assert_eq!(results.len(), 1);
    assert_eq!(results[0], "/r/pancakes.cook");
}

#[test]
fn test_search_exact_score_value() {
    // stem does not contain the term; the text holds two occurrences:
    // ten tenths for taking part plus one tenth per occurrence
    let candidates = vec![(
        "/r/pancakes.cook".to_string(),
        Some("syrup syrup".to_string()),
    )];
    let ranked = rank_candidates(&candidates, "syrup");
    assert_eq!(ranked.len(), 1);
    assert_eq!(ranked[0].score, 12);

    // an exact stem match alone scores 200 tenths
    let candidates = vec![("/r/pancakes.cook".to_string(), Some("nothing here".to_string()))];
    let ranked = rank_candidates(&candidates, "pancakes");
    assert_eq!(ranked[0].score, 200);

    // substring stem match alone scores 100 tenths
    let ranked = rank_candidates(&candidates, "pancake");
    assert_eq!(ranked[0].score, 100);
}

#[test]
fn test_search_overlapping_occurrences_counted() {
    // "aaa" holds two overlapping occurrences of "aa"
    let candidates = vec![("/r/other.cook".to_string(), Some("aaa".to_string()))];
    let ranked = rank_candidates(&candidates, "aa");
    assert_eq!(ranked[0].score, 12);
}

#[test]
fn test_search_content_score_cap() {
    // far more occurrences than the cap: 10 + 50 tenths
    let text = "syrup ".repeat(100);
    let candidates = vec![("/r/other.cook".to_string(), Some(text))];
    let ranked = rank_candidates(&candidates, "syrup");
    assert_eq!(ranked[0].score, 60);
}

#[test]
fn test_search_empty_query_matches_every_stem() {
    // the empty query is a substring of every stem, so every candidate
    // carries the substring signal and nothing more
    let candidates = vec![
        ("/r/b.cook".to_string(), Some("text".to_string())),
        ("/r/a.cook".to_string(), Some("text".to_string())),
    ];
    let ranked = rank_candidates(&candidates, "");
    assert_eq!(ranked.len(), 2);
    assert_eq!(ranked[0].score, 100);
    assert_eq!(ranked[1].score, 100);
    // ties break by ascending stem
    assert_eq!(ranked[0].path, "/r/a.cook");
    assert_eq!(ranked[1].path, "/r/b.cook");
}

#[test]
fn test_search_unreadable_candidate_contributes_nothing() {
    let candidates = vec![
        ("/r/pancakes.cook".to_string(), None),
        ("/r/other.cook".to_string(), Some("pancakes everywhere".to_string())),
    ];
    let results = search_paths(&candidates, "pancakes");
    // the unreadable file still matches by name; the other by content
    assert_eq!(results.len(), 2);
    assert_eq!(results[0], "/r/pancakes.cook");
    assert_eq!(results[1], "/r/other.cook");
}
