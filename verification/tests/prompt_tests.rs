use howto_openai::prompt::{
    build_request, clamp_temperature, conversation, join_words, normalize_message, primer, Role,
};

fn milli(t: f64) -> i64 {
    (t * 1000.0) as i64
}

#[test]
fn clamp_above_range_falls_back() {
    assert_eq!(clamp_temperature(milli(1.5)), 1000);
}

#[test]
fn clamp_below_range_falls_back() {
    assert_eq!(clamp_temperature(milli(-0.2)), 1000);
}

#[test]
fn clamp_in_range_is_kept() {
    assert_eq!(clamp_temperature(milli(0.3)), 300);
    assert_eq!(clamp_temperature(0), 0);
    assert_eq!(clamp_temperature(1000), 1000);
}

#[test]
fn normalize_prepends_how_to() {
    let out = normalize_message(b"install rust".to_vec());
    assert_eq!(out, b"how to install rust".to_vec());
}

#[test]
fn normalize_keeps_message_starting_with_how() {
    let out = normalize_message(b"how do I install rust".to_vec());
    assert_eq!(out, b"how do I install rust".to_vec());
}

#[test]
fn normalize_empty_message_gets_prefix() {
    let out = normalize_message(Vec::new());
    assert_eq!(out, b"how to ".to_vec());
}

#[test]
fn join_words_single_spaces() {
    let words = vec![b"install".to_vec(), b"rust".to_vec(), b"now".to_vec()];
    assert_eq!(join_words(&words), b"install rust now".to_vec());
}

#[test]
fn join_words_empty_and_single() {
    let none: Vec<Vec<u8>> = Vec::new();
    assert_eq!(join_words(&none), Vec::<u8>::new());
    let one = vec![b"rust".to_vec()];
    assert_eq!(join_words(&one), b"rust".to_vec());
}

#[test]
fn primer_text_is_fixed() {
    let p = primer();
    assert!(p.starts_with("You're a very smart life assisstant"));
    assert!(p.ends_with("questions I'm about to ask you"));
}

#[test]
fn conversation_orders_primer_then_user() {
    let ms = conversation(primer().into_bytes(), b"how to install rust".to_vec());
    assert_eq!(ms.len(), 2);
    assert!(matches!(ms[0].role, Role::System));
    assert_eq!(ms[0].content, primer().into_bytes());
    assert!(matches!(ms[1].role, Role::User));
    assert_eq!(ms[1].content, b"how to install rust".to_vec());
}

#[test]
fn build_request_keeps_all_fields() {
    let ms = conversation(primer().into_bytes(), b"how to install rust".to_vec());
    let r = build_request(b"gpt-3.5-turbo".to_vec(), ms, 500, 2048, true);
    assert_eq!(r.model, b"gpt-3.5-turbo".to_vec());
    assert_eq!(r.messages.len(), 2);
    assert_eq!(r.temperature_milli, 500);
    assert_eq!(r.max_tokens, 2048);
    assert!(r.stream);
}
