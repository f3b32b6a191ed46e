use hyprly::api::{event_payloads_of, stream_pieces};

#[test]
fn extracts_event_payloads() {
    let chunk = "data: {\"a\":1}\n\ndata: [DONE]\n: comment\ndata: {\"b\":2}\r\nevent: x\n";
    assert_eq!(event_payloads_of(chunk), vec!["{\"a\":1}".to_string(), "{\"b\":2}".to_string()]);
    assert!(event_payloads_of("").is_empty());
    assert_eq!(event_payloads_of("data: "), vec!["".to_string()]);
}

#[test]
fn takes_the_delta_text_of_each_payload() {
    let chunk = "data: {\"choices\":[{\"delta\":{\"content\":\"Hel\"}}]}\n\ndata: {\"choices\":[{\"delta\":{}}]}\ndata: {\"choices\":[{\"delta\":{\"content\":\"lo\"}}]}\ndata: not json\ndata: [DONE]\n";
    assert_eq!(stream_pieces(chunk), vec!["Hel".to_string(), "lo".to_string()]);
    assert!(stream_pieces("data: {\"choices\":[]}\n").is_empty());
    assert!(stream_pieces("").is_empty());
}
