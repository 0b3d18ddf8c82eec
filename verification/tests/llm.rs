use glean::llm::{
    auth_header, chat_url, event_kind_and_data, read_error, request_error, status_error,
    decode_body, SseDecoder, StreamEvent,
};

fn texts(events: Vec<StreamEvent>) -> Vec<String> {
    events
        .into_iter()
        .map(|e| match e {
            StreamEvent::Delta(d) => format!("delta:{d}"),
            StreamEvent::Done => "done".to_string(),
            StreamEvent::Error(e) => format!("error:{e}"),
        })
        .collect()
}

#[test]
fn decoder_joins_lines_split_across_chunks() {
    let mut d = SseDecoder::new();
    assert!(texts(d.feed("data: {\"choices\":[{\"delta\":{\"con")).is_empty());
    assert_eq!(
        texts(d.feed("tent\":\"你好\"}}]}\n\ndata: {\"choices\":[{\"delta\":{\"content\":\"\"}}]}\n")),
        vec!["delta:你好"]
    );
    assert_eq!(
        texts(d.feed(": comment\ndata: not json\ndata:{\"choices\":[{\"delta\":{\"reasoning_content\":\"x\"}}]}\n")),
        Vec::<String>::new()
    );
    assert!(!d.is_done());
    assert_eq!(
        texts(d.feed("data: {\"choices\":[{\"delta\":{\"content\":\"!\"}}]}\r\ndata: [DONE]\ndata: {\"choices\":[{\"delta\":{\"content\":\"late\"}}]}\n")),
        vec!["delta:!", "done"]
    );
    assert!(d.is_done());
    assert!(d.feed("data: {\"choices\":[{\"delta\":{\"content\":\"after\"}}]}\n").is_empty());
}

#[test]
fn decoder_decodes_byte_chunks() {
    let mut d = SseDecoder::new();
    let body = "data: {\"choices\":[{\"delta\":{\"content\":\"é\"}}]}\n".as_bytes();
    assert_eq!(texts(d.feed_bytes(body)), vec!["delta:é"]);
    let bad = b"data: {\"choices\":[{\"delta\":{\"content\":\"\xff\"}}]}\n";
    assert_eq!(texts(d.feed_bytes(bad)), vec!["delta:\u{fffd}"]);
}

#[test]
fn urls_headers_and_errors() {
    assert_eq!(chat_url("http://localhost:8080/v1//"), "http://localhost:8080/v1/chat/completions");
    assert_eq!(chat_url("http://x/v1"), "http://x/v1/chat/completions");
    assert_eq!(auth_header("  "), None);
    assert_eq!(auth_header(" sk-1 "), Some("Bearer sk-1".to_string()));
    assert_eq!(texts(vec![request_error("timeout")]), vec!["error:请求失败：timeout"]);
    assert_eq!(texts(vec![read_error("reset")]), vec!["error:读取流失败：reset"]);
    let long: String = std::iter::repeat('错').take(400).collect();
    match status_error("401 Unauthorized", &long) {
        StreamEvent::Error(e) => {
            assert!(e.starts_with("401 Unauthorized："));
            assert_eq!(e.chars().count(), "401 Unauthorized：".chars().count() + 300);
        }
        _ => panic!("expected an error"),
    }
}

#[test]
fn events_map_to_kinds() {
    assert_eq!(
        event_kind_and_data(StreamEvent::Delta("x".to_string())),
        ("delta".to_string(), "x".to_string())
    );
    assert_eq!(event_kind_and_data(StreamEvent::Done), ("done".to_string(), String::new()));
    assert_eq!(
        event_kind_and_data(StreamEvent::Error("e".to_string())),
        ("error".to_string(), "e".to_string())
    );
}

#[test]
fn decoder_events_do_not_depend_on_chunking() {
    let body = "data: {\"choices\":[{\"delta\":{\"content\":\"你\"}}]}\n\n: keep-alive\r\ndata: {\"choices\":[{\"delta\":{\"content\":\"好\"}}]}\r\ndata: [DONE]\ndata: {\"choices\":[{\"delta\":{\"content\":\"x\"}}]}\n";
    let whole = {
        let mut d = SseDecoder::new();
        texts(d.feed(body))
    };
    assert_eq!(whole, vec!["delta:你", "delta:好", "done"]);
    let cuts: Vec<usize> = body.char_indices().map(|(i, _)| i).collect();
    for &cut in &cuts {
        let mut d = SseDecoder::new();
        let mut got = texts(d.feed(&body[..cut]));
        got.extend(texts(d.feed(&body[cut..])));
        assert_eq!(got, whole, "cut at byte {cut}");
    }
}

#[test]
fn close_and_fail_end_the_report_once() {
    let mut d = SseDecoder::new();
    assert!(texts(d.feed("data: {\"choices\":[{\"delta\":{\"content\":\"a\"}}]}\n")).len() == 1);
    assert_eq!(texts(d.close().into_iter().collect()), vec!["done"]);
    assert!(d.is_done());
    assert!(d.close().is_none());
    assert!(d.fail("late").is_none());

    let mut d = SseDecoder::new();
    assert_eq!(texts(d.fail("reset").into_iter().collect()), vec!["error:读取流失败：reset"]);
    assert!(d.close().is_none());

    let mut d = SseDecoder::new();
    assert_eq!(texts(d.feed("data: [DONE]\n")), vec!["done"]);
    assert!(d.close().is_none());
}

#[test]
fn whole_body_ends_with_one_done() {
    let body = |parts: &[&str]| texts(decode_body(&parts.iter().map(|p| p.to_string()).collect()));
    // Closed without `[DONE]`: the close adds it; an unfinished last line is dropped.
    assert_eq!(
        body(&["data: {\"choices\":[{\"delta\":{\"con", "tent\":\"x\"}}]}\ndata: {\"choices\""]),
        vec!["delta:x", "done"]
    );
    // Ended by `[DONE]`: nothing after it, and no second `done`.
    assert_eq!(body(&["data: [DO", "NE]\ndata: {\"choices\":[{\"delta\":{\"content\":\"y\"}}]}\n"]), vec!["done"]);
    assert_eq!(body(&[]), vec!["done"]);
}

#[test]
fn delta_is_read_by_index_not_by_key() {
    let mut d = SseDecoder::new();
    let by_key = "data: {\"choices\":{\"0\":{\"delta\":{\"content\":\"k\"}}}}\n";
    assert!(d.feed(by_key).is_empty());
}
