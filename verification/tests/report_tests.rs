use inference_gateway::report::Report;

#[test]
fn append_trims_and_separates_with_one_space() {
    let mut r = Report::new();
    assert_eq!(r.contents, "");
    r.append("  hello  ");
    assert_eq!(r.contents, "hello");
    r.append("\tworld\n");
    assert_eq!(r.contents, "hello world");
    r.append("   ");
    assert_eq!(r.contents, "hello world");
}

#[test]
fn formatting_reattaches_punctuation_and_capitalizes_sentences() {
    let mut r = Report::new();
    r.append("hello ,  world . this is fine");
    assert_eq!(r.formatting(), "Hello, world. This is fine");
}

#[test]
fn formatting_handles_apostrophes_and_parentheses() {
    let r = Report { contents: "it ' s done ( almost )".to_string() };
    assert_eq!(r.formatting(), "It' s done ( almost)");
}

#[test]
fn format_extracts_contents_from_each_chunk() {
    let mut r = Report::new();
    let raw = "{\"contents\":\"hello\"}{\"contents\":\" world .\"}".to_string();
    r.format(&raw);
    assert_eq!(r.contents, "Hello world.");
}

#[test]
fn format_skips_pieces_that_are_not_chunk_objects() {
    let mut r = Report::new();
    let raw = "garbage}{\"contents\":\"kept\"}{\"other\":\"dropped\"}".to_string();
    r.format(&raw);
    assert_eq!(r.contents, "Kept");
}
