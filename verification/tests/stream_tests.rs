use inference_gateway::json::JsonValue;
use inference_gateway::stream::BridgeAction;
use inference_gateway::stream::BridgeEvent;
use inference_gateway::stream::BridgePhase;
use inference_gateway::stream::ChatMessageChunk;
use inference_gateway::stream::ChatRole;
use inference_gateway::stream::StreamBridge;

fn payload_json(payload: &str) -> serde_json::Value {
    serde_json::from_str(payload).expect("every wire payload is valid JSON")
}

#[test]
fn bridge_emits_one_event_per_fragment_in_order() {
    let bridge = StreamBridge::new(42, 1700000000, ChatRole::Assistant);
    let fragments = vec!["Hel".to_string(), "lo ".to_string(), "world".to_string()];
    let events = bridge.bridge_all(&fragments);
    assert_eq!(events.len(), 3);
    let expected = ["Hel", "lo ", "world"];
    for (i, ev) in events.iter().enumerate() {
        assert_eq!(ev.id, 42);
        assert_eq!(ev.timestamp, 1700000000);
        let v = payload_json(&ev.payload);
        assert_eq!(v["contents"], expected[i]);
        assert_eq!(v["role"], "Assistant");
        assert_eq!(v["timestamp"], 1700000000u64);
    }
}

#[test]
fn bridge_of_empty_stream_emits_nothing() {
    let bridge = StreamBridge::new(7, 1, ChatRole::User);
    let events = bridge.bridge_all(&Vec::new());
    assert_eq!(events.len(), 0);
}

#[test]
fn chunk_identifier_matches_canonical_ulid_text() {
    let id: u128 = 0x0189_6c5f_8a3e_4d2b_9c71_aa55_ee10_0f42;
    let chunk = ChatMessageChunk::new(id, 99, ChatRole::User, "x".to_string());
    let v = payload_json(&chunk.to_json_text());
    assert_eq!(v["id"], ulid::Ulid(id).to_string());
}

#[test]
fn chunk_payload_escapes_contents() {
    let text = "a \"quoted\"\nline\twith \\ and \u{1} control".to_string();
    let chunk = ChatMessageChunk::new(5, 0, ChatRole::System, text.clone());
    let v = payload_json(&chunk.to_json_text());
    assert_eq!(v["contents"], serde_json::Value::String(text));
    assert_eq!(v["role"], "System");
}

#[test]
fn chunk_around_json_value_embeds_it_unquoted() {
    let body = JsonValue::Arr(vec![JsonValue::Bool(true), JsonValue::Null]);
    let chunk = ChatMessageChunk::new_serialized(1, 2, ChatRole::Assistant, body);
    let v = payload_json(&chunk.to_json_text());
    let expected = serde_json::Value::Array(vec![
        serde_json::Value::Bool(true),
        serde_json::Value::Null,
    ]);
    assert_eq!(v["contents"], expected);
}

#[test]
fn started_bridge_timestamp_comes_from_its_identifier() {
    let bridge = StreamBridge::start(ChatRole::Assistant);
    assert_eq!(bridge.timestamp, ((bridge.id >> 80) as u64) / 1000);
    assert_eq!(bridge.role, ChatRole::Assistant);
}

#[test]
fn two_started_bridges_have_distinct_identifiers() {
    let a = StreamBridge::start(ChatRole::User);
    let b = StreamBridge::start(ChatRole::User);
    assert_ne!(a.id, b.id);
}

#[test]
fn client_disconnect_stops_the_bridge_at_once() {
    let bridge = StreamBridge::new(3, 4, ChatRole::Assistant);
    let (phase, action) = bridge.step(BridgePhase::Streaming, BridgeEvent::ClientGone);
    assert!(matches!(phase, BridgePhase::Ended));
    assert!(matches!(action, BridgeAction::Stop));
    // nothing arriving later is pulled or emitted
    let (phase2, action2) = bridge.step(phase, BridgeEvent::Fragment("late".to_string()));
    assert!(matches!(phase2, BridgePhase::Ended));
    assert!(matches!(action2, BridgeAction::Stop));
}

#[test]
fn source_failure_ends_the_stream_without_event() {
    let bridge = StreamBridge::new(3, 4, ChatRole::Assistant);
    let (phase, action) = bridge.step(BridgePhase::Streaming, BridgeEvent::SourceFailed);
    assert!(matches!(phase, BridgePhase::Ended));
    assert!(matches!(action, BridgeAction::Stop));
}

#[test]
fn fragment_on_live_stream_is_emitted_and_stream_goes_on() {
    let bridge = StreamBridge::new(77, 8, ChatRole::Assistant);
    let (phase, action) = bridge.step(
        BridgePhase::Streaming,
        BridgeEvent::Fragment("tok".to_string()),
    );
    assert!(matches!(phase, BridgePhase::Streaming));
    match action {
        BridgeAction::Emit(ev) => {
            assert_eq!(ev.id, 77);
            let v = payload_json(&ev.payload);
            assert_eq!(v["contents"], "tok");
        }
        BridgeAction::Stop => panic!("a fragment on a live stream must be emitted"),
    }
}
