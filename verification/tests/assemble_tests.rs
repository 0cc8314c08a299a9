use inference_gateway::assemble::build_report_prompt;
use inference_gateway::assemble::build_templated_prompt;
use inference_gateway::assemble::replace_text;
use inference_gateway::catalog::MitreMitigation;
use inference_gateway::catalog::MitreMitigations;

#[test]
fn replacing_substitutes_every_occurrence_left_to_right() {
    assert_eq!(replace_text("a{x}b{x}c", "{x}", "-"), "a-b-c");
    assert_eq!(replace_text("aaa", "aa", "b"), "ba");
    assert_eq!(replace_text("none here", "{x}", "-"), "none here");
    assert_eq!(replace_text("", "{x}", "-"), "");
}

#[test]
fn templated_prompt_fills_all_four_placeholders() {
    let names = vec!["APT-One".to_string(), "GroupTwo".to_string()];
    let got = build_templated_prompt(
        "About {name}: {description}. Known as {associated_names}. Q: {template_question}",
        "Sandworm",
        "a destructive actor",
        &names,
        "what do they target?",
    );
    assert_eq!(
        got,
        "About Sandworm: a destructive actor. Known as APT-One, GroupTwo. \
         Q: what do they target?"
    );
}

#[test]
fn report_prompt_keeps_the_user_text_verbatim_and_states_the_shape() {
    let empty = MitreMitigations(Vec::new());
    let got = build_report_prompt("assess my web shop", &empty);
    assert!(got.starts_with("assess my web shop"));
    assert!(got.contains("\"summary\""));
    assert!(got.contains("\"likelihood\""));
    // with no selection the mitigation section is omitted entirely
    assert!(!got.contains("Consider these mitigations"));
}

#[test]
fn report_prompt_appends_the_selected_mitigations() {
    let mits = MitreMitigations(vec![MitreMitigation::new(
        "M1041".to_string(),
        "Encrypt Sensitive Information".to_string(),
        "use strong encryption".to_string(),
        "https://attack.example/M1041".to_string(),
    )]);
    let got = build_report_prompt("assess my web shop", &mits);
    assert!(got.contains("Consider these mitigations"));
    assert!(got.contains(
        "-name: Encrypt Sensitive Information, description: use strong encryption\n  \
         url: https://attack.example/M1041"
    ));
}

#[test]
fn mitigation_listing_joins_records_with_newlines() {
    let mits = MitreMitigations(vec![
        MitreMitigation::new("a".to_string(), "A".to_string(), "da".to_string(), "ua".to_string()),
        MitreMitigation::new("b".to_string(), "B".to_string(), "db".to_string(), "ub".to_string()),
    ]);
    assert_eq!(
        mits.format_mitigations(),
        "-name: A, description: da\n  url: ua\n-name: B, description: db\n  url: ub"
    );
}
