use inference_gateway::augment::tokenize;
use inference_gateway::augment::KeywordAugmenter;
use inference_gateway::augment::KeywordRule;
use inference_gateway::catalog::MitigationCatalog;
use inference_gateway::catalog::MitreMitigation;

fn record(id: &str, name: &str) -> MitreMitigation {
    MitreMitigation::new(
        id.to_string(),
        name.to_string(),
        format!("description of {}", name),
        format!("https://attack.example/{}", id),
    )
}

fn sample_augmenter() -> KeywordAugmenter {
    let rules = vec![
        KeywordRule {
            keyword: "website".to_string(),
            mitigation_ids: vec!["M1056".to_string(), "M1026".to_string()],
        },
        KeywordRule {
            keyword: "database".to_string(),
            mitigation_ids: vec!["M1041".to_string(), "M1026".to_string()],
        },
        KeywordRule {
            keyword: "email".to_string(),
            mitigation_ids: vec!["M1049".to_string(), "M9999".to_string()],
        },
    ];
    let catalog = MitigationCatalog::new(vec![
        record("M1026", "Privileged Account Management"),
        record("M1041", "Encrypt Sensitive Information"),
        record("M1049", "Antivirus/Antimalware"),
        record("M1056", "Pre-compromise"),
    ]);
    KeywordAugmenter::new(rules, catalog)
}

fn ids(selection: &inference_gateway::catalog::MitreMitigations) -> Vec<String> {
    selection.0.iter().map(|m| m.id.clone()).collect()
}

#[test]
fn tokenizing_lowercases_and_strips_periods_and_commas() {
    let toks = tokenize("I need help with my WEBSITE and Database.");
    assert_eq!(
        toks,
        vec!["i", "need", "help", "with", "my", "website", "and", "database"]
    );
}

#[test]
fn tokenizing_collapses_whitespace_runs() {
    assert_eq!(tokenize("  a,  b.c \t d\n"), vec!["a", "bc", "d"]);
    assert_eq!(tokenize(""), Vec::<String>::new());
    assert_eq!(tokenize(" .,. "), Vec::<String>::new());
}

#[test]
fn selection_resolves_the_union_sorted_and_deduplicated() {
    let aug = sample_augmenter();
    let sel = aug.select("I need help with my WEBSITE and Database.", None);
    // union of {M1056, M1026} and {M1041, M1026}, ascending, no duplicates
    assert_eq!(ids(&sel), vec!["M1026", "M1041", "M1056"]);
    assert_eq!(sel.0[0].name, "Privileged Account Management");
}

#[test]
fn selection_is_independent_of_token_order() {
    let aug = sample_augmenter();
    let a = aug.select("website and database trouble", None);
    let b = aug.select("database trouble and website", None);
    assert_eq!(ids(&a), ids(&b));
}

#[test]
fn unknown_tokens_contribute_nothing() {
    let aug = sample_augmenter();
    let sel = aug.select("nothing recognizable here", None);
    assert_eq!(sel.0.len(), 0);
}

#[test]
fn unresolvable_ids_are_dropped_silently() {
    let aug = sample_augmenter();
    // the email rule names M9999, which the catalog does not hold
    let sel = aug.select("check my email", None);
    assert_eq!(ids(&sel), vec!["M1049"]);
}

#[test]
fn explicit_keywords_bypass_tokenizing() {
    let aug = sample_augmenter();
    let keywords = vec!["database".to_string(), "website".to_string()];
    let sel = aug.select("ignored text", Some(&keywords));
    assert_eq!(ids(&sel), vec!["M1026", "M1041", "M1056"]);
}

#[test]
fn catalog_lookup_finds_records_by_id() {
    let aug = sample_augmenter();
    let found = aug.catalog.find_by_id("M1041").expect("the id is in the catalog");
    assert_eq!(found.name, "Encrypt Sensitive Information");
    assert!(aug.catalog.find_by_id("M0000").is_none());
}
