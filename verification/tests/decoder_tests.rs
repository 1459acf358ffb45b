use howto_openai::decoder::{Decoder, StreamStatus};
use howto_openai::render::concat_fragments;

fn event_line(content: &str) -> String {
    format!(
        "data: {{\"id\":\"c1\",\"object\":\"chat.completion.chunk\",\"created\":1,\"model\":\"m\",\"choices\":[{{\"index\":0,\"delta\":{{\"content\":{}}},\"finish_reason\":null}}]}}\n",
        serde_json::to_string(content).unwrap()
    )
}

fn run(chunks: &[&[u8]]) -> (Vec<Vec<u8>>, StreamStatus) {
    let mut d = Decoder::new();
    let mut frags: Vec<Vec<u8>> = Vec::new();
    for c in chunks {
        frags.extend(d.push_chunk(c));
        if d.status() != StreamStatus::Open {
            break;
        }
    }
    (frags, d.status())
}

#[test]
fn streams_two_chunks_to_hello() {
    let c1 = event_line("Hel");
    let c2 = format!("{}data: [DONE]\n", event_line("lo"));
    let (frags, status) = run(&[c1.as_bytes(), c2.as_bytes()]);
    assert_eq!(concat_fragments(&frags), b"Hello".to_vec());
    assert_eq!(frags, vec![b"Hel".to_vec(), b"lo".to_vec()]);
    assert_eq!(status, StreamStatus::Done);
}

#[test]
fn chunk_boundaries_do_not_change_output() {
    let whole = format!("{}{}data: [DONE]\n", event_line("Hel"), event_line("lo"));
    let (expect, expect_status) = run(&[whole.as_bytes()]);
    let bytes = whole.as_bytes();
    // split everywhere: mid-prefix, mid-JSON, mid-sentinel boundaries included
    for cut in 0..=bytes.len() {
        let (frags, status) = run(&[&bytes[..cut], &bytes[cut..]]);
        assert_eq!(frags, expect, "split at {cut}");
        assert_eq!(status, expect_status, "split at {cut}");
    }
    // one byte at a time
    let singles: Vec<&[u8]> = bytes.chunks(1).collect();
    let (frags, status) = run(&singles);
    assert_eq!(frags, expect);
    assert_eq!(status, expect_status);
}

#[test]
fn sentinel_split_across_boundary_terminates() {
    let (frags, status) = run(&[b"data: [DO", b"NE]\n"]);
    assert!(frags.is_empty());
    assert_eq!(status, StreamStatus::Done);
}

#[test]
fn nothing_after_sentinel_is_emitted() {
    let trailing = event_line("ignored");
    let first = format!("data: [DONE]\n{}", trailing);
    let (frags, status) = run(&[first.as_bytes(), trailing.as_bytes()]);
    assert!(frags.is_empty());
    assert_eq!(status, StreamStatus::Done);
}

#[test]
fn lines_without_prefix_are_skipped() {
    let chunk = format!(":keep-alive\n\nnonsense\n{}", event_line("ok"));
    let (frags, status) = run(&[chunk.as_bytes()]);
    assert_eq!(frags, vec![b"ok".to_vec()]);
    assert_eq!(status, StreamStatus::Open);
}

#[test]
fn malformed_event_fails_stream() {
    let (frags, status) = run(&[b"data: {not json}\n"]);
    assert!(frags.is_empty());
    assert_eq!(status, StreamStatus::Failed);
}

#[test]
fn event_without_choices_fails_stream() {
    let (frags, status) = run(&[b"data: {\"id\":\"c1\"}\n"]);
    assert!(frags.is_empty());
    assert_eq!(status, StreamStatus::Failed);
}

#[test]
fn fragments_before_malformed_line_are_kept() {
    let chunk = format!("{}data: oops\n", event_line("kept"));
    let (frags, status) = run(&[chunk.as_bytes()]);
    assert_eq!(frags, vec![b"kept".to_vec()]);
    assert_eq!(status, StreamStatus::Failed);
}

#[test]
fn ignored_chunks_after_failure() {
    let mut d = Decoder::new();
    d.push_chunk(b"data: oops\n");
    assert_eq!(d.status(), StreamStatus::Failed);
    let more = d.push_chunk(event_line("late").as_bytes());
    assert!(more.is_empty());
    assert_eq!(d.status(), StreamStatus::Failed);
}

#[test]
fn single_trailing_newline_is_trimmed() {
    let c = event_line("Hi\n\n");
    let (frags, _) = run(&[c.as_bytes()]);
    assert_eq!(frags, vec![b"Hi\n".to_vec()]);
    let c = event_line(" spaced \n");
    let (frags, _) = run(&[c.as_bytes()]);
    assert_eq!(frags, vec![b" spaced ".to_vec()]);
}

#[test]
fn choices_without_content_emit_nothing() {
    let chunk = b"data: {\"choices\":[{\"index\":0,\"delta\":{\"role\":\"assistant\"},\"finish_reason\":null}]}\n";
    let (frags, status) = run(&[chunk.as_slice()]);
    assert!(frags.is_empty());
    assert_eq!(status, StreamStatus::Open);
}

#[test]
fn multiple_choices_emit_in_order() {
    let chunk = b"data: {\"choices\":[{\"index\":0,\"delta\":{\"content\":\"a\"}},{\"index\":1,\"delta\":{}},{\"index\":2,\"delta\":{\"content\":\"b\"}}]}\n";
    let (frags, _) = run(&[chunk.as_slice()]);
    assert_eq!(frags, vec![b"a".to_vec(), b"b".to_vec()]);
}

#[test]
fn finish_resolves_buffered_line() {
    let mut d = Decoder::new();
    let line = event_line("tail");
    let unterminated = &line.as_bytes()[..line.len() - 1];
    let frags = d.push_chunk(unterminated);
    assert!(frags.is_empty());
    assert_eq!(d.status(), StreamStatus::Open);
    let frags = d.finish();
    assert_eq!(frags, vec![b"tail".to_vec()]);
}

#[test]
fn finish_on_buffered_sentinel_terminates() {
    let mut d = Decoder::new();
    let frags = d.push_chunk(b"data: [DONE]");
    assert!(frags.is_empty());
    assert_eq!(d.status(), StreamStatus::Open);
    let frags = d.finish();
    assert!(frags.is_empty());
    assert_eq!(d.status(), StreamStatus::Done);
}
