use howto_openai::render::{concat_fragments, render_buffered, render_buffered_body};

#[test]
fn buffered_choice_renders_one_line() {
    let body = b"{\"id\":\"r1\",\"object\":\"chat.completion\",\"choices\":[{\"message\":{\"role\":\"assistant\",\"content\":\"Use rustup.\"},\"finish_reason\":\"stop\",\"index\":0}]}";
    let out = render_buffered_body(body).unwrap();
    assert_eq!(out, b"assistant: Use rustup.\n".to_vec());
}

#[test]
fn buffered_choices_render_in_order() {
    let body = b"{\"choices\":[{\"message\":{\"role\":\"assistant\",\"content\":\"one\"},\"index\":0},{\"message\":{\"role\":\"assistant\",\"content\":\"two\"},\"index\":1}]}";
    let out = render_buffered_body(body).unwrap();
    assert_eq!(out, b"assistant: one\nassistant: two\n".to_vec());
}

#[test]
fn malformed_buffered_body_is_rejected() {
    assert!(render_buffered_body(b"not json").is_none());
    assert!(render_buffered_body(b"{\"id\":\"r1\"}").is_none());
    assert!(
        render_buffered_body(b"{\"choices\":[{\"message\":{\"role\":\"assistant\"}}]}").is_none()
    );
}

#[test]
fn render_buffered_empty_choices() {
    let out = render_buffered(&Vec::new());
    assert_eq!(out, Vec::<u8>::new());
}

#[test]
fn render_buffered_keeps_bytes() {
    let choices = vec![(b"user".to_vec(), b"hi there".to_vec())];
    assert_eq!(render_buffered(&choices), b"user: hi there\n".to_vec());
}

#[test]
fn concat_is_plain_concatenation() {
    let frags = vec![b"Hel".to_vec(), b"".to_vec(), b"lo".to_vec()];
    assert_eq!(concat_fragments(&frags), b"Hello".to_vec());
    assert_eq!(concat_fragments(&Vec::new()), Vec::<u8>::new());
}
