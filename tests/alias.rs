use booru_core::{
    alias_map_from_groups, alias_path_for_root, expand_search_terms_with_aliases,
    merge_alias_map, merge_alias_terms, normalize_alias_groups, normalize_search_term, normalize_search_terms,
    remove_alias_terms, AliasMap, SearchQuery,
};

fn strings(items: &[&str]) -> Vec<String> {
    items.iter().map(|s| s.to_string()).collect()
}

#[test]
fn normalize_alias_groups_merges_connected_groups() {
    let groups = normalize_alias_groups(vec![
        vec!["a".to_string(), "b".to_string()],
        vec!["b".to_string(), "c".to_string()],
    ]);
    assert_eq!(
        groups,
        vec![vec!["a".to_string(), "b".to_string(), "c".to_string()]]
    );
}

#[test]
fn alias_map_from_groups_is_bidirectional() {
    let map = alias_map_from_groups(&vec![vec![
        "摇曳露营".to_string(),
        "ゆるキャン".to_string(),
        "yurucamp".to_string(),
    ]]);
    assert_eq!(
        map.get("摇曳露营").cloned(),
        Some(vec!["yurucamp".to_string(), "ゆるキャン".to_string()])
    );
}

#[test]
fn merge_alias_terms_merges_overlapping_groups() {
    let mut groups = vec![
        vec!["a".to_string(), "b".to_string()],
        vec!["x".to_string(), "y".to_string()],
    ];
    assert!(merge_alias_terms(
        &mut groups,
        vec!["b".to_string(), "x".to_string(), "z".to_string()]
    ));
    assert_eq!(
        groups,
        vec![vec![
            "a".to_string(),
            "b".to_string(),
            "x".to_string(),
            "y".to_string(),
            "z".to_string()
        ]]
    );
}

#[test]
fn remove_alias_terms_drops_small_groups() {
    let mut groups = vec![vec!["a".to_string(), "b".to_string(), "c".to_string()]];
    assert!(remove_alias_terms(
        &mut groups,
        vec!["a".to_string(), "b".to_string()]
    ));
    assert!(groups.is_empty());
}

#[test]
fn search_terms_expand_with_aliases_bidirectionally() {
    let mut alias = AliasMap::new();
    alias.insert(
        "摇曳露营".to_string(),
        vec!["ゆるキャン".to_string(), "yurucamp".to_string()],
    );

    let expanded = expand_search_terms_with_aliases(vec!["yurucamp".to_string()], &alias);
    assert!(expanded.contains(&"摇曳露营".to_string()));
    assert!(expanded.contains(&"ゆるキャン".to_string()));
    assert!(expanded.contains(&"yurucamp".to_string()));
}

#[test]
fn search_terms_normalize_to_lowercase_and_dedup() {
    let terms = normalize_search_terms(vec![
        "  YuruCamp ".to_string(),
        "yurucamp".to_string(),
        "".to_string(),
    ]);
    assert_eq!(terms, vec!["yurucamp".to_string()]);
}

#[test]
fn normalize_search_term_blank_is_none() {
    assert_eq!(normalize_search_term("   "), None);
    assert_eq!(normalize_search_term(" ABC "), Some("abc".to_string()));
}

#[test]
fn normalize_alias_groups_drops_short_groups_and_sorts() {
    let groups = normalize_alias_groups(vec![
        strings(&["Solo", " solo "]),
        strings(&["q", "P"]),
        strings(&["b", "a"]),
    ]);
    assert_eq!(groups, vec![strings(&["a", "b"]), strings(&["p", "q"])]);
}

#[test]
fn merge_alias_terms_single_term_changes_nothing() {
    let mut groups = vec![strings(&["b", "a"])];
    assert!(!merge_alias_terms(&mut groups, strings(&["a"])));
    assert_eq!(groups, vec![strings(&["a", "b"])]);
}

#[test]
fn remove_alias_terms_with_nothing_to_remove() {
    let mut groups = vec![strings(&["a", "b"])];
    assert!(!remove_alias_terms(&mut groups, strings(&["  "])));
    assert_eq!(groups, vec![strings(&["a", "b"])]);
}

#[test]
fn expand_keeps_terms_first_and_follows_chains() {
    let mut alias = AliasMap::new();
    alias.insert("a".to_string(), strings(&["b"]));
    alias.insert("c".to_string(), strings(&["b"]));
    let expanded = expand_search_terms_with_aliases(strings(&["a", "a"]), &alias);
    assert_eq!(expanded, strings(&["a", "b", "c"]));
    assert!(expand_search_terms_with_aliases(Vec::new(), &alias).is_empty());
}

#[test]
fn alias_map_insert_replaces_and_reports_old_value() {
    let mut alias = AliasMap::new();
    assert_eq!(alias.insert("k".to_string(), strings(&["x"])), None);
    assert_eq!(alias.insert("k".to_string(), strings(&["y"])), Some(strings(&["x"])));
    assert_eq!(alias.get("k").cloned(), Some(strings(&["y"])));
    assert_eq!(alias.len(), 1);
    assert!(alias.get("missing").is_none());
}

#[test]
fn alias_path_is_inside_root() {
    assert_eq!(alias_path_for_root("/library"), "/library/alias.json");
}

#[test]
fn search_query_builder() {
    let q = SearchQuery::new(strings(&["a"]));
    assert!(!q.use_aliases);
    let q = q.with_aliases(true);
    assert!(q.use_aliases);
    assert_eq!(q.terms, strings(&["a"]));
}

#[test]
fn merge_alias_map_appends_missing_aliases() {
    let mut dst = AliasMap::new();
    dst.insert("a".to_string(), strings(&["b"]));
    let mut src = AliasMap::new();
    src.insert("a".to_string(), strings(&["b", "c"]));
    src.insert("d".to_string(), strings(&["e"]));
    merge_alias_map(&mut dst, &src);
    assert_eq!(dst.get("a").cloned(), Some(strings(&["b", "c"])));
    assert_eq!(dst.get("d").cloned(), Some(strings(&["e"])));
    assert_eq!(dst.len(), 2);
}

#[test]
fn unicode_whitespace_is_trimmed() {
    assert_eq!(normalize_search_term("\u{3000}Abc\u{2003}\t"), Some("abc".to_string()));
    assert_eq!(normalize_search_term("\u{a0}\u{85}"), None);
}
