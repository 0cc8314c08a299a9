use inference_gateway::embeddings::accept_index_response;
use inference_gateway::embeddings::accept_search_response;
use inference_gateway::embeddings::build_search_request;
use inference_gateway::embeddings::pair_embeddings;
use inference_gateway::embeddings::plan_index_batch;
use inference_gateway::embeddings::EmbeddingsRequest;
use inference_gateway::embeddings::Entry;
use inference_gateway::embeddings::EntryType;
use inference_gateway::embeddings::FetchOutcome;
use inference_gateway::embeddings::GatewayError;
use inference_gateway::embeddings::IndexPlan;

fn entry(id: &str, description: &str) -> Entry {
    Entry {
        id: id.to_string(),
        name: format!("entry {}", id),
        description: description.to_string(),
        url: format!("https://example.test/{}", id),
    }
}

#[test]
fn empty_index_batch_is_a_no_op() {
    let req = EmbeddingsRequest { entry_type: EntryType::Threat, entries: Vec::new() };
    assert!(matches!(plan_index_batch(&req), IndexPlan::NoOp));
}

#[test]
fn index_batch_embeds_one_description_per_entry_in_order() {
    let req = EmbeddingsRequest {
        entry_type: EntryType::Threat,
        entries: vec![entry("t1", "first"), entry("t2", "second")],
    };
    match plan_index_batch(&req) {
        IndexPlan::Embed(ds) => assert_eq!(ds, vec!["first", "second"]),
        IndexPlan::NoOp => panic!("a non-empty batch asks for embeddings"),
    }
}

#[test]
fn pairing_matches_each_entry_with_its_vector() {
    let req = EmbeddingsRequest {
        entry_type: EntryType::Mitigation,
        entries: vec![entry("m1", "a"), entry("m2", "b")],
    };
    let vectors = vec![
        vec![1.0f32.to_bits(), 0.5f32.to_bits()],
        vec![0.25f32.to_bits(), 2.0f32.to_bits()],
    ];
    let resp = pair_embeddings(req, vectors).expect("counts match");
    assert!(matches!(resp.entry_type, EntryType::Mitigation));
    assert_eq!(resp.entries.len(), 2);
    assert_eq!(resp.entries[0].entry.id, "m1");
    assert_eq!(f32::from_bits(resp.entries[0].embedding[1]), 0.5);
    assert_eq!(resp.entries[1].entry.id, "m2");
}

#[test]
fn a_missing_vector_is_an_embedding_failure_not_a_truncation() {
    let req = EmbeddingsRequest {
        entry_type: EntryType::Threat,
        entries: vec![entry("t1", "a"), entry("t2", "b")],
    };
    let vectors = vec![vec![0u32]];
    match pair_embeddings(req, vectors) {
        Err(GatewayError::Embedding(_)) => {}
        _ => panic!("a count mismatch must surface as a local embedding failure"),
    }
}

#[test]
fn search_request_carries_the_embedding_and_neighbor_count() {
    let bits = vec![0.1f32.to_bits(), 0.9f32.to_bits()];
    let req = build_search_request(EntryType::Threat, bits.clone(), 7);
    assert_eq!(req.embedding, bits);
    assert_eq!(req.num_neighbors, 7);
}

fn cosine(a: &[f32], b: &[f32]) -> f32 {
    let dot: f32 = a.iter().zip(b).map(|(x, y)| x * y).sum();
    let na: f32 = a.iter().map(|x| x * x).sum::<f32>().sqrt();
    let nb: f32 = b.iter().map(|x| x * x).sum::<f32>().sqrt();
    dot / (na * nb)
}

#[test]
fn search_results_keep_the_backend_ranking() {
    // a stub backend that ranks candidates by cosine similarity to the query
    let query = [1.0f32, 0.0];
    let mut candidates = vec![
        (entry("a", "far"), [0.0f32, 1.0]),
        (entry("b", "near"), [0.9f32, 0.1]),
        (entry("c", "mid"), [0.5f32, 0.5]),
    ];
    candidates.sort_by(|x, y| {
        cosine(&query, &y.1).partial_cmp(&cosine(&query, &x.1)).unwrap()
    });
    let ranked: Vec<Entry> = candidates.into_iter().map(|(e, _)| e).collect();
    let ranked_ids: Vec<String> = ranked.iter().map(|e| e.id.clone()).collect();
    assert_eq!(ranked_ids, vec!["b", "c", "a"]);

    // the gateway hands the ranked list back exactly as received
    let got = accept_search_response(FetchOutcome::Success(ranked)).expect("a success is Ok");
    let got_ids: Vec<String> = got.iter().map(|e| e.id.clone()).collect();
    assert_eq!(got_ids, vec!["b", "c", "a"]);
}

#[test]
fn each_failure_kind_stays_distinct() {
    match accept_search_response(FetchOutcome::ConnectFailed("refused".to_string())) {
        Err(GatewayError::Network(d)) => assert_eq!(d, "refused"),
        _ => panic!("a connect failure maps to the network kind"),
    }
    match accept_search_response(FetchOutcome::BadStatus(503)) {
        Err(GatewayError::RemoteStatus(c)) => assert_eq!(c, 503),
        _ => panic!("a failure status maps to the remote-status kind"),
    }
    match accept_index_response(FetchOutcome::BadBody("eof".to_string())) {
        Err(GatewayError::Decode(d)) => assert_eq!(d, "eof"),
        _ => panic!("an unreadable body maps to the decode kind"),
    }
    assert!(accept_index_response(FetchOutcome::Success(Vec::new())).is_ok());
}

#[test]
fn error_messages_name_their_kind() {
    assert_eq!(
        GatewayError::RemoteStatus(500).message(),
        "main backend returned status 500"
    );
    assert_eq!(
        GatewayError::Embedding("boom".to_string()).message(),
        "embedding model failure: boom"
    );
}

#[test]
fn entry_type_labels_match_the_wire_names() {
    assert_eq!(EntryType::Threat.label(), "threat");
    assert_eq!(EntryType::Mitigation.label(), "mitigation");
}
