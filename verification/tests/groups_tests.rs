use inference_gateway::groups::contains_text;
use inference_gateway::groups::find_group_by_name;
use inference_gateway::groups::group_mentioned;
use inference_gateway::groups::Actor;

fn sample_groups() -> Vec<Actor> {
    vec![
        Actor {
            id: "G1".to_string(),
            name: "Sandworm Team".to_string(),
            description: "destructive".to_string(),
            url: "https://attack.example/G1".to_string(),
            associated_names: vec!["ELECTRUM".to_string(), "Telebots".to_string()],
        },
        Actor {
            id: "G2".to_string(),
            name: "Lazarus Group".to_string(),
            description: "financially motivated".to_string(),
            url: "https://attack.example/G2".to_string(),
            associated_names: Vec::new(),
        },
    ]
}

#[test]
fn groups_are_found_by_exact_name() {
    let groups = sample_groups();
    let found = find_group_by_name(&groups, "Lazarus Group").expect("the name is in the table");
    assert_eq!(found.id, "G2");
    assert!(find_group_by_name(&groups, "lazarus group").is_none());
    assert!(find_group_by_name(&groups, "Unknown").is_none());
}

#[test]
fn a_group_is_mentioned_by_name_or_alias() {
    let groups = sample_groups();
    assert!(group_mentioned(&groups[0], "what does Sandworm Team target?"));
    assert!(group_mentioned(&groups[0], "tell me about Telebots please"));
    assert!(!group_mentioned(&groups[0], "tell me about lazarus"));
}

#[test]
fn substring_search_finds_contiguous_runs_only() {
    assert!(contains_text("abcdef", "cde"));
    assert!(contains_text("abcdef", ""));
    assert!(contains_text("abc", "abc"));
    assert!(!contains_text("abcdef", "ce"));
    assert!(!contains_text("ab", "abc"));
}
