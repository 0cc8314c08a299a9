use inference_gateway::structured::generate_from_text;
use inference_gateway::structured::structured_response_body;
use inference_gateway::structured::GenOutcome;
use inference_gateway::number::check_unit_interval;

fn report_json(likelihood: &str) -> String {
    let mut s = String::from(
        "{\"summary\":\"two risks\",\"items\":[{\"name\":\"injection\",\
         \"description\":\"user input reaches the query\",\"mitigations\":\
         [{\"name\":\"M1\",\"description\":\"sanitize\",\"url\":\"http://x\",\
         \"citations\":\"c\"}],\"likelihood\":",
    );
    s.push_str(likelihood);
    s.push_str("}]}");
    s
}

#[test]
fn invalid_json_yields_the_parse_error_report() {
    match generate_from_text("this is { not json") {
        GenOutcome::Error(e) => assert_eq!(e.error, "Failed to parse LLM response"),
        GenOutcome::Report(_) => panic!("text that is not JSON must not become a report"),
    }
}

#[test]
fn valid_report_is_returned_with_its_fields() {
    match generate_from_text(&report_json("0.7")) {
        GenOutcome::Report(r) => {
            assert_eq!(r.summary, "two risks");
            assert_eq!(r.items.len(), 1);
            assert_eq!(r.items[0].name, "injection");
            assert_eq!(r.items[0].mitigations.len(), 1);
            assert_eq!(r.items[0].mitigations[0].name, "M1");
            assert_eq!(r.items[0].mitigations[0].url.as_deref(), Some("http://x"));
            assert_eq!(r.items[0].likelihood.as_deref(), Some("0.7"));
        }
        GenOutcome::Error(e) => panic!("a well-shaped report was rejected: {}", e.error),
    }
}

#[test]
fn likelihood_above_one_is_a_validation_error() {
    match generate_from_text(&report_json("1.7")) {
        GenOutcome::Error(e) => assert_eq!(e.error, "Report failed validation"),
        GenOutcome::Report(_) => panic!("a likelihood of 1.7 lies outside the unit interval"),
    }
}

#[test]
fn negative_likelihood_is_a_validation_error() {
    assert!(matches!(
        generate_from_text(&report_json("-0.5")),
        GenOutcome::Error(_)
    ));
}

#[test]
fn likelihood_of_exactly_one_and_zero_are_accepted() {
    assert!(matches!(generate_from_text(&report_json("1.0")), GenOutcome::Report(_)));
    assert!(matches!(generate_from_text(&report_json("1")), GenOutcome::Report(_)));
    assert!(matches!(generate_from_text(&report_json("0")), GenOutcome::Report(_)));
    assert!(matches!(generate_from_text(&report_json("0.0")), GenOutcome::Report(_)));
}

#[test]
fn missing_required_field_is_a_validation_error() {
    let text = "{\"summary\":\"s\",\"items\":[{\"name\":\"n\",\"mitigations\":[]}]}";
    assert!(matches!(generate_from_text(text), GenOutcome::Error(_)));
}

#[test]
fn item_without_likelihood_is_accepted() {
    let text = "{\"summary\":\"s\",\"items\":[{\"name\":\"n\",\"description\":\"d\",\
                \"mitigations\":[{\"name\":\"m\",\"description\":\"md\"}]}]}";
    match generate_from_text(text) {
        GenOutcome::Report(r) => {
            assert_eq!(r.items[0].likelihood, None);
            assert_eq!(r.items[0].mitigations[0].url, None);
        }
        GenOutcome::Error(e) => panic!("optional members may be absent: {}", e.error),
    }
}

#[test]
fn response_body_is_always_valid_json() {
    let bad = structured_response_body("###").to_text();
    let v: serde_json::Value = serde_json::from_str(&bad).expect("the error payload is JSON");
    assert_eq!(v["error"], "Failed to parse LLM response");

    let good = structured_response_body(&report_json("0.25")).to_text();
    let v2: serde_json::Value = serde_json::from_str(&good).expect("the echoed report is JSON");
    assert_eq!(v2["summary"], "two risks");
}

#[test]
fn unit_interval_check_is_exact_on_the_number_text() {
    assert!(check_unit_interval("0"));
    assert!(check_unit_interval("1"));
    assert!(check_unit_interval("1.0000"));
    assert!(check_unit_interval("0.9999999999999"));
    assert!(check_unit_interval("1e0"));
    assert!(check_unit_interval("1e-3"));
    assert!(check_unit_interval("9.9E-1"));
    assert!(check_unit_interval("-0.0"));
    assert!(check_unit_interval("10e-2"));
    assert!(check_unit_interval("0.5e-400"));
    assert!(!check_unit_interval("1.0000001"));
    assert!(!check_unit_interval("1.7"));
    assert!(!check_unit_interval("-0.1"));
    assert!(!check_unit_interval("15e-1"));
    assert!(!check_unit_interval("2"));
    assert!(!check_unit_interval("1e1"));
    assert!(!check_unit_interval("2e400"));
    assert!(!check_unit_interval("not a number"));
}
