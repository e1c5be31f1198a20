use sidecar_relay::chunk::LMCChunk;
use sidecar_relay::decoder::StreamDecoder;

fn push_contents(d: &mut StreamDecoder, bytes: &[u8]) -> Vec<String> {
    d.push(bytes).iter().map(|c| c.content.clone()).collect()
}

fn decode_parts(parts: &[&[u8]]) -> (Vec<String>, bool) {
    let mut d = StreamDecoder::new();
    let mut contents: Vec<String> = Vec::new();
    for p in parts {
        let mut got = push_contents(&mut d, p);
        contents.append(&mut got);
    }
    (contents, d.is_done())
}

const TWO_EVENTS: &[u8] = b"data: {\"role\":\"assistant\",\"type\":\"message\",\"content\":\"first\"}\n\ndata: {\"role\":\"assistant\",\"type\":\"message\",\"content\":\"second\"}\n\n";

#[test]
fn decodes_one_complete_event() {
    let mut d = StreamDecoder::new();
    let chunks = d.push(b"data: {\"role\":\"assistant\",\"type\":\"message\",\"content\":\"hi\"}\n\n");
    assert_eq!(chunks.len(), 1);
    assert_eq!(chunks[0].role, "assistant");
    assert_eq!(chunks[0].chunk_type, "message");
    assert_eq!(chunks[0].content, "hi");
    assert_eq!(chunks[0].format, None);
    assert_eq!(chunks[0].start, None);
    assert_eq!(chunks[0].end, None);
    assert!(!d.is_done());
}

#[test]
fn decodes_optional_fields() {
    let mut d = StreamDecoder::new();
    let chunks = d.push(
        b"data: {\"role\":\"assistant\",\"type\":\"code\",\"format\":\"python\",\"content\":\"x\",\"start\":true,\"end\":false}\n\n",
    );
    assert_eq!(chunks.len(), 1);
    assert_eq!(chunks[0].chunk_type, "code");
    assert_eq!(chunks[0].format.as_deref(), Some("python"));
    assert_eq!(chunks[0].start, Some(true));
    assert_eq!(chunks[0].end, Some(false));
}

#[test]
fn partial_event_stays_buffered() {
    let mut d = StreamDecoder::new();
    let chunks = d.push(b"data: {\"role\":\"assistant\",\"type\":\"message\",\"content\":\"hi\"}\n");
    assert!(chunks.is_empty());
    assert!(!d.is_done());
    let chunks = d.push(b"\n");
    assert_eq!(chunks.len(), 1);
    assert_eq!(chunks[0].content, "hi");
}

#[test]
fn event_split_across_many_reads() {
    let mut d = StreamDecoder::new();
    let whole: &[u8] = b"data: {\"role\":\"assistant\",\"type\":\"message\",\"content\":\"hi\"}\n\n";
    let mut all: Vec<String> = Vec::new();
    for b in whole {
        let mut got = push_contents(&mut d, &[*b]);
        all.append(&mut got);
    }
    assert_eq!(all, vec!["hi".to_string()]);
}

#[test]
fn many_events_in_one_read_keep_order() {
    let (contents, done) = decode_parts(&[TWO_EVENTS]);
    assert_eq!(contents, vec!["first".to_string(), "second".to_string()]);
    assert!(!done);
}

#[test]
fn chunking_invariance_at_every_split() {
    let whole = decode_parts(&[TWO_EVENTS]);
    for i in 0..=TWO_EVENTS.len() {
        let split = decode_parts(&[&TWO_EVENTS[..i], &TWO_EVENTS[i..]]);
        assert_eq!(split, whole);
    }
}

#[test]
fn done_sentinel_terminates_stream() {
    let mut d = StreamDecoder::new();
    let chunks = d.push(b"data: [DONE]\n\n");
    assert!(chunks.is_empty());
    assert!(d.is_done());
}

#[test]
fn bytes_after_done_are_ignored() {
    let mut d = StreamDecoder::new();
    d.push(b"data: [DONE]\n\ndata: {\"role\":\"assistant\",\"type\":\"message\",\"content\":\"late\"}\n\n");
    assert!(d.is_done());
    let chunks = d.push(b"data: {\"role\":\"assistant\",\"type\":\"message\",\"content\":\"later\"}\n\n");
    assert!(chunks.is_empty());
    assert!(d.is_done());
}

#[test]
fn done_mid_event_skips_rest_of_event() {
    let mut d = StreamDecoder::new();
    let chunks = d.push(
        b"data: {\"role\":\"assistant\",\"type\":\"message\",\"content\":\"kept\"}\ndata: [DONE]\ndata: {\"role\":\"assistant\",\"type\":\"message\",\"content\":\"dropped\"}\n\n",
    );
    assert_eq!(chunks.len(), 1);
    assert_eq!(chunks[0].content, "kept");
    assert!(d.is_done());
}

#[test]
fn one_chunk_then_done_in_two_arbitrary_splits() {
    let stream: &[u8] = b"data: {\"role\":\"assistant\",\"type\":\"message\",\"content\":\"only\"}\n\ndata: [DONE]\n\n";
    for i in 0..=stream.len() {
        let (contents, done) = decode_parts(&[&stream[..i], &stream[i..]]);
        assert_eq!(contents, vec!["only".to_string()]);
        assert!(done);
    }
}

#[test]
fn malformed_line_does_not_abort_same_event() {
    let mut d = StreamDecoder::new();
    let chunks = d.push(
        b"data: {not json}\ndata: {\"role\":\"assistant\",\"type\":\"message\",\"content\":\"good\"}\n\n",
    );
    assert_eq!(chunks.len(), 1);
    assert_eq!(chunks[0].content, "good");
}

#[test]
fn malformed_line_does_not_abort_later_events() {
    let mut d = StreamDecoder::new();
    let first = d.push(b"data: {\"bad\":\n\n");
    assert!(first.is_empty());
    let second = d.push(b"data: {\"role\":\"assistant\",\"type\":\"message\",\"content\":\"later\"}\n\n");
    assert_eq!(second.len(), 1);
    assert_eq!(second[0].content, "later");
    assert!(!d.is_done());
}

#[test]
fn wrong_field_types_are_skipped() {
    let mut d = StreamDecoder::new();
    let chunks = d.push(b"data: {\"role\":1,\"type\":\"message\",\"content\":\"x\"}\n\n");
    assert!(chunks.is_empty());
    let chunks = d.push(b"data: {\"role\":\"assistant\",\"content\":\"missing type\"}\n\n");
    assert!(chunks.is_empty());
    let chunks = d.push(b"data: [1,2,3]\n\n");
    assert!(chunks.is_empty());
}

#[test]
fn lines_without_data_prefix_are_ignored() {
    let mut d = StreamDecoder::new();
    let chunks = d.push(
        b"event: update\n: comment\ndata: {\"role\":\"assistant\",\"type\":\"message\",\"content\":\"v\"}\n\n",
    );
    assert_eq!(chunks.len(), 1);
    assert_eq!(chunks[0].content, "v");
}

#[test]
fn carriage_return_before_newline_is_stripped() {
    let mut d = StreamDecoder::new();
    let chunks = d.push(
        b"data: {\"role\":\"assistant\",\"type\":\"message\",\"content\":\"crlf\"}\r\ndata: {\"role\":\"assistant\",\"type\":\"message\",\"content\":\"plain\"}\n\n",
    );
    assert_eq!(chunks.len(), 2);
    assert_eq!(chunks[0].content, "crlf");
    assert_eq!(chunks[1].content, "plain");
}

#[test]
fn empty_push_yields_nothing() {
    let mut d = StreamDecoder::new();
    let chunks = d.push(b"");
    assert!(chunks.is_empty());
    assert!(!d.is_done());
}

#[test]
fn empty_event_yields_nothing() {
    let mut d = StreamDecoder::new();
    let chunks = d.push(b"\n\ndata: {\"role\":\"assistant\",\"type\":\"message\",\"content\":\"after\"}\n\n");
    assert_eq!(chunks.len(), 1);
    assert_eq!(chunks[0].content, "after");
}

#[test]
fn sentinel_requires_exact_payload() {
    let mut d = StreamDecoder::new();
    let chunks = d.push(b"data: [DONE] \n\n");
    assert!(chunks.is_empty());
    assert!(!d.is_done());
    let chunks = d.push(b"data: [done]\n\n");
    assert!(chunks.is_empty());
    assert!(!d.is_done());
}

#[test]
fn chunk_round_trip_through_clone() {
    let c = LMCChunk {
        role: "assistant".to_string(),
        chunk_type: "message".to_string(),
        format: None,
        content: "abc".to_string(),
        start: Some(true),
        end: None,
    };
    let d = c.clone();
    assert_eq!(d.role, c.role);
    assert_eq!(d.content, c.content);
    assert_eq!(d.start, c.start);
}
