use redlib_core::collections::{all, is_empty, parse_collection_map, resolve};

#[test]
fn parses_collections() {
    let map = parse_collection_map(Some("ai=singularity+futurology;news = worldnews+technology".into()));
    assert_eq!(resolve(&map, "ai"), Some("singularity+futurology".to_string()));
    assert_eq!(resolve(&map, "news"), Some("worldnews+technology".to_string()));
}

#[test]
fn ignores_invalid_entries() {
    let map = parse_collection_map(Some("=xyz;foo=;bar".into()));
    assert!(is_empty(&map));
    assert_eq!(all(&map).len(), 0);
}

#[test]
fn absent_value_is_empty() {
    let map = parse_collection_map(None);
    assert!(is_empty(&map));
}

#[test]
fn empty_string_is_empty() {
    let map = parse_collection_map(Some(String::new()));
    assert!(is_empty(&map));
}

#[test]
fn all_is_sorted_alphabetically() {
    let map = parse_collection_map(Some("ai=singularity+futurology;news = worldnews+technology".into()));
    let entries = all(&map);
    assert_eq!(entries.len(), 2);
    assert_eq!(entries[0].name, "ai");
    assert_eq!(entries[0].target, "singularity+futurology");
    assert_eq!(entries[1].name, "news");
    assert_eq!(entries[1].target, "worldnews+technology");
}

#[test]
fn all_is_sorted_for_permuted_insertion_order() {
    let map = parse_collection_map(Some("news=worldnews+technology;ai=singularity+futurology".into()));
    let entries = all(&map);
    assert_eq!(entries.len(), 2);
    assert_eq!(entries[0].name, "ai");
    assert_eq!(entries[1].name, "news");
}

#[test]
fn all_sorts_case_insensitively() {
    let map = parse_collection_map(Some("Zebra=z;apple=a".into()));
    let entries = all(&map);
    assert_eq!(entries.len(), 2);
    assert_eq!(entries[0].name, "apple");
    assert_eq!(entries[1].name, "Zebra");
}

#[test]
fn last_write_wins_on_duplicate_alias() {
    let map = parse_collection_map(Some("a=x;a=y".into()));
    assert_eq!(resolve(&map, "a"), Some("y".to_string()));
    assert_eq!(all(&map).len(), 1);
}

#[test]
fn resolve_of_absent_alias_is_none() {
    let map = parse_collection_map(Some("ai=singularity+futurology".into()));
    assert!(!is_empty(&map));
    assert_eq!(resolve(&map, "missing"), None);
    assert_eq!(resolve(&map, "AI"), None);
}

#[test]
fn parse_is_deterministic() {
    let raw = "ai=singularity+futurology;news = worldnews+technology;a=x;a=y";
    let m1 = parse_collection_map(Some(raw.to_string()));
    let m2 = parse_collection_map(Some(raw.to_string()));
    assert_eq!(all(&m1), all(&m2));
    assert_eq!(resolve(&m1, "a"), resolve(&m2, "a"));
    assert_eq!(resolve(&m1, "news"), resolve(&m2, "news"));
}

#[test]
fn whitespace_is_trimmed_around_alias_and_target() {
    let map = parse_collection_map(Some("  ai  =  singularity+futurology  ".into()));
    assert_eq!(resolve(&map, "ai"), Some("singularity+futurology".to_string()));
}

#[test]
fn target_may_contain_equals() {
    let map = parse_collection_map(Some("a=b=c".into()));
    assert_eq!(resolve(&map, "a"), Some("b=c".to_string()));
}

#[test]
fn malformed_entries_contribute_nothing() {
    let map = parse_collection_map(Some("ai=foo;;bar; =x;y=  ;news=sub".into()));
    let entries = all(&map);
    assert_eq!(entries.len(), 2);
    assert_eq!(resolve(&map, "ai"), Some("foo".to_string()));
    assert_eq!(resolve(&map, "news"), Some("sub".to_string()));
    assert_eq!(resolve(&map, "bar"), None);
    assert_eq!(resolve(&map, "y"), None);
    assert_eq!(resolve(&map, ""), None);
}
